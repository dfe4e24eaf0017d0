//! The course of a frame: textures to free, the swapchain to make anew, acquire, present.

use vstd::prelude::*;
use crate::uploads::FRAMES_IN_FLIGHT;

verus! {

/// Textures that were released in a frame.
#[derive(Debug)]
pub struct Released {
    /// Number of the frame.
    pub when: u64,
    /// Identifiers of the textures.
    pub ids: Vec<u64>,
}

/// What acquiring an image gave.
#[derive(Debug, Clone, Copy, PartialEq, Eq, Structural)]
pub enum Acquired {
    Image { suboptimal: bool },
    OutOfDate,
    Failed,
}

/// What presenting an image gave.
#[derive(Debug, Clone, Copy, PartialEq, Eq, Structural)]
pub enum Presented {
    Fine,
    Suboptimal,
    OutOfDate,
    Failed,
}

/// How a frame goes on.
#[derive(Debug, Clone, Copy, PartialEq, Eq, Structural)]
pub enum Course {
    /// It is drawn, or has been.
    Draw,
    /// It is skipped: the surface cannot be presented to now.
    Skip,
    /// It has failed.
    Fail,
}

/// State of the frame loop.
pub struct Frames {
    /// Which of the frames in flight is next.
    pub frame: usize,
    /// Frames drawn so far.
    pub counter: u64,
    /// The swapchain no longer fits the window.
    pub needs_resize: bool,
    /// There is a swapchain.
    pub has_swapchain: bool,
    /// Size of the window.
    pub size: (u32, u32),
    /// Textures that frames in flight may still read.
    pub pending: Vec<Released>,
}

/// Textures released in frame `when` may be freed in frame `now`: no frame in flight reads them.
pub open spec fn may_free(when: u64, now: u64) -> bool {
    now - when >= FRAMES_IN_FLIGHT
}

/// The entries of `pending` before `i` that stay.
pub open spec fn kept(pending: Seq<Released>, now: u64, i: int) -> Seq<Released>
    decreases i,
{
    if i <= 0 {
        Seq::empty()
    } else if may_free(pending[i - 1].when, now) {
        kept(pending, now, i - 1)
    } else {
        kept(pending, now, i - 1).push(pending[i - 1])
    }
}

/// The textures of the entries of `pending` before `i` that go.
pub open spec fn freed(pending: Seq<Released>, now: u64, i: int) -> Seq<u64>
    decreases i,
{
    if i <= 0 {
        Seq::empty()
    } else if may_free(pending[i - 1].when, now) {
        freed(pending, now, i - 1) + pending[i - 1].ids@
    } else {
        freed(pending, now, i - 1)
    }
}

/// How a frame goes on once an image was to be acquired.
pub open spec fn course_of(a: Acquired) -> Course {
    match a {
        Acquired::Image { .. } => Course::Draw,
        Acquired::OutOfDate => Course::Skip,
        Acquired::Failed => Course::Fail,
    }
}

/// The swapchain no longer fits once an image of it was presented.
pub open spec fn is_stale(p: Presented, suboptimal: bool) -> bool {
    suboptimal || p == Presented::Suboptimal || p == Presented::OutOfDate
}

impl Frames {
    /// The frames in flight take turns.
    pub open spec fn wf(&self) -> bool {
        self.frame == self.counter as int % 2
    }

    /// Everything but the textures that wait is as in `other`.
    pub open spec fn same_but_pending(&self, other: &Frames) -> bool {
        &&& self.frame == other.frame
        &&& self.counter == other.counter
        &&& self.needs_resize == other.needs_resize
        &&& self.has_swapchain == other.has_swapchain
        &&& self.size == other.size
    }

    /// Nothing drawn yet, with a swapchain for a window of a size.
    pub fn new(size: (u32, u32)) -> (f: Frames)
        ensures
            f.wf(),
            f.frame == 0,
            f.counter == 0,
            !f.needs_resize,
            f.has_swapchain,
            f.size == size,
            f.pending@.len() == 0,
    {
        Frames {
            frame: 0,
            counter: 0,
            needs_resize: false,
            has_swapchain: true,
            size,
            pending: Vec::new(),
        }
    }

    /// The window has a new size: the swapchain is made anew with the next frame.
    pub fn request_resize(&mut self, size: (u32, u32))
        requires
            old(self).wf(),
        ensures
            final(self).wf(),
            final(self).needs_resize,
            final(self).size == size,
            final(self).frame == old(self).frame,
            final(self).counter == old(self).counter,
            final(self).has_swapchain == old(self).has_swapchain,
            final(self).pending == old(self).pending,
    {
        self.size = size;
        self.needs_resize = true;
    }

    /// Textures are released: they wait, under the number of this frame.
    pub fn release(&mut self, ids: Vec<u64>)
        requires
            old(self).wf(),
        ensures
            final(self).wf(),
            final(self).same_but_pending(old(self)),
            ids@.len() == 0 ==> final(self).pending@ == old(self).pending@,
            ids@.len() > 0 ==> final(self).pending@ == old(self).pending@.push(
                (Released { when: old(self).counter, ids }),
            ),
    {
        if ids.len() > 0 {
            self.pending.push(Released { when: self.counter, ids });
        }
    }

    /// The textures to free now, in the order of their release; the others go on waiting.
    pub fn take_due(&mut self) -> (ids: Vec<u64>)
        requires
            old(self).wf(),
        ensures
            final(self).wf(),
            final(self).same_but_pending(old(self)),
            ids@ == freed(old(self).pending@, old(self).counter, old(self).pending@.len() as int),
            final(self).pending@ == kept(
                old(self).pending@,
                old(self).counter,
                old(self).pending@.len() as int,
            ),
    {
        let ghost all = self.pending@;
        let now: u64 = self.counter;
        let mut rest: Vec<Released> = Vec::new();
        let mut ids: Vec<u64> = Vec::new();
        let mut queue: Vec<Released> = Vec::new();
        std::mem::swap(&mut queue, &mut self.pending);
        while queue.len() > 0
            invariant
                queue@.len() <= all.len(),
                queue@ == all.skip(all.len() - queue@.len()),
                rest@ == kept(all, now, all.len() - queue@.len()),
                ids@ == freed(all, now, all.len() - queue@.len()),
            decreases queue@.len(),
        {
            let ghost i = all.len() - queue@.len();
            let r = queue.remove(0);
            assert(r == all[i]);
            assert(queue@ =~= all.skip(i + 1));
            if now >= r.when && now - r.when >= FRAMES_IN_FLIGHT as u64 {
                let ghost held = ids@;
                let mut k: usize = 0;
                assert(ids@ =~= held + r.ids@.take(0));
                while k < r.ids.len()
                    invariant
                        k <= r.ids@.len(),
                        ids@ == held + r.ids@.take(k as int),
                    decreases r.ids@.len() - k,
                {
                    ids.push(r.ids[k]);
                    k = k + 1;
                    assert(ids@ =~= held + r.ids@.take(k as int));
                }
                assert(r.ids@.take(k as int) =~= r.ids@);
            } else {
                rest.push(r);
            }
        }
        self.pending = rest;
        ids
    }

    /// Whether the swapchain is made anew before this frame.
    pub fn must_recreate(&self) -> (b: bool)
        ensures
            b == (self.needs_resize || !self.has_swapchain),
    {
        self.needs_resize || !self.has_swapchain
    }

    /// The swapchain was to be made anew. Where that failed the frame is skipped, what there
    /// was stays, and the next frame tries again.
    pub fn recreated(&mut self, made: bool) -> (c: Course)
        requires
            old(self).wf(),
        ensures
            final(self).wf(),
            final(self).frame == old(self).frame,
            final(self).counter == old(self).counter,
            final(self).size == old(self).size,
            final(self).pending == old(self).pending,
            made ==> c == Course::Draw && final(self).has_swapchain && !final(self).needs_resize,
            !made ==> c == Course::Skip && *final(self) == *old(self),
    {
        if made {
            self.has_swapchain = true;
            self.needs_resize = false;
            Course::Draw
        } else {
            Course::Skip
        }
    }

    /// An image was to be acquired. A swapchain that is out of date is made anew with the next
    /// frame, and this one is skipped.
    pub fn acquired(&mut self, a: Acquired) -> (c: Course)
        requires
            old(self).wf(),
        ensures
            final(self).wf(),
            final(self).frame == old(self).frame,
            final(self).counter == old(self).counter,
            final(self).has_swapchain == old(self).has_swapchain,
            final(self).size == old(self).size,
            final(self).pending == old(self).pending,
            final(self).needs_resize == (old(self).needs_resize || a == Acquired::OutOfDate),
            c == course_of(a),
    {
        match a {
            Acquired::Image { .. } => Course::Draw,
            Acquired::OutOfDate => {
                self.needs_resize = true;
                Course::Skip
            },
            Acquired::Failed => Course::Fail,
        }
    }

    /// The image was presented, and had been acquired from a swapchain that was suboptimal or
    /// not. Only a frame that did not fail is counted.
    pub fn presented(&mut self, p: Presented, suboptimal: bool) -> (c: Course)
        requires
            old(self).wf(),
            old(self).counter < u64::MAX,
        ensures
            final(self).wf(),
            final(self).has_swapchain == old(self).has_swapchain,
            final(self).size == old(self).size,
            final(self).pending == old(self).pending,
            p == Presented::Failed ==> c == Course::Fail && *final(self) == *old(self),
            p != Presented::Failed ==> {
                &&& c == Course::Draw
                &&& final(self).counter == old(self).counter + 1
                &&& final(self).needs_resize == (old(self).needs_resize || is_stale(p, suboptimal))
            },
    {
        match p {
            Presented::Failed => {
                return Course::Fail;
            },
            Presented::Suboptimal | Presented::OutOfDate => {
                self.needs_resize = true;
            },
            Presented::Fine => {},
        }
        if suboptimal {
            self.needs_resize = true;
        }
        self.counter = self.counter + 1;
        self.frame = if self.frame + 1 == FRAMES_IN_FLIGHT {
            0
        } else {
            self.frame + 1
        };
        Course::Draw
    }
}

/// A texture outlives the frames that may read it: none that was released less than
/// [`FRAMES_IN_FLIGHT`] frames ago is freed, and none that was released longer ago is kept.
pub proof fn textures_outlive_their_frames(pending: Seq<Released>, now: u64, i: int)
    requires
        0 <= i <= pending.len(),
    ensures
        forall|k: int|
            0 <= k < kept(pending, now, i).len() ==> !may_free(
                (#[trigger] kept(pending, now, i)[k]).when,
                now,
            ),
        forall|id: u64| #[trigger]
            freed(pending, now, i).contains(id) ==> exists|j: int|
                0 <= j < i && may_free((#[trigger] pending[j]).when, now)
                    && pending[j].ids@.contains(id),
    decreases i,
{
    if i > 0 {
        textures_outlive_their_frames(pending, now, i - 1);
        let was = kept(pending, now, i - 1);
        assert forall|k: int| 0 <= k < kept(pending, now, i).len() implies !may_free(
            (#[trigger] kept(pending, now, i)[k]).when,
            now,
        ) by {
            if k < was.len() {
                assert(!may_free(was[k].when, now));
            }
        }
        assert forall|id: u64| #[trigger] freed(pending, now, i).contains(id) implies exists|
            j: int,
        |
            0 <= j < i && may_free((#[trigger] pending[j]).when, now) && pending[j].ids@.contains(
                id,
            ) by {
            let before = freed(pending, now, i - 1);
            if before.contains(id) {
                let j = choose|j: int|
                    0 <= j < i - 1 && may_free((#[trigger] pending[j]).when, now)
                        && pending[j].ids@.contains(id);
                assert(may_free(pending[j].when, now));
            } else {
                let all = freed(pending, now, i);
                let k = choose|k: int| 0 <= k < all.len() && all[k] == id;
                assert(k >= before.len()) by {
                    if k < before.len() && may_free(pending[i - 1].when, now) {
                        assert(before[k] == id);
                    }
                }
                assert(pending[i - 1].ids@[k - before.len()] == id);
            }
        }
    }
}

/// No texture is lost: what was released is freed now or goes on waiting, as it was. It waits
/// for two frames and no longer.
pub proof fn no_texture_is_lost(pending: Seq<Released>, now: u64, i: int, j: int)
    requires
        0 <= j < i <= pending.len(),
        pending[j].when <= now,
    ensures
        now >= pending[j].when + 2 ==> forall|k: int|
            0 <= k < pending[j].ids@.len() ==> freed(pending, now, i).contains(
                #[trigger] pending[j].ids@[k],
            ),
        now < pending[j].when + 2 ==> kept(pending, now, i).contains(pending[j]),
    decreases i,
{
    if j < i - 1 {
        no_texture_is_lost(pending, now, i - 1, j);
        let was = kept(pending, now, i - 1);
        let is = kept(pending, now, i);
        if was.contains(pending[j]) {
            let k = choose|k: int| 0 <= k < was.len() && was[k] == pending[j];
            assert(is[k] == pending[j]);
        }
        let out = freed(pending, now, i - 1);
        let all = freed(pending, now, i);
        assert forall|id: u64| out.contains(id) implies #[trigger] all.contains(id) by {
            let k = choose|k: int| 0 <= k < out.len() && out[k] == id;
            assert(all[k] == id);
        }
    } else {
        let is = kept(pending, now, i);
        if now < pending[j].when + 2 {
            assert(is[is.len() - 1] == pending[j]);
        } else {
            let out = freed(pending, now, i - 1);
            let all = freed(pending, now, i);
            assert forall|k: int| 0 <= k < pending[j].ids@.len() implies all.contains(
                #[trigger] pending[j].ids@[k],
            ) by {
                assert(all[out.len() + k] == pending[j].ids@[k]);
            }
        }
    }
}

/// A swapchain is kept exactly where the image was acquired and presented without complaint, and
/// a frame is drawn exactly where there is an image to draw on: one that is merely suboptimal
/// is still drawn on.
pub proof fn complaints_are_heard(a: Acquired, p: Presented, suboptimal: bool)
    ensures
        !is_stale(p, suboptimal) && !(p is Failed) <==> p is Fine && !suboptimal,
        course_of(a) is Draw <==> a is Image,
        course_of(a) is Fail <==> a is Failed,
        course_of(a) is Skip <==> a is OutOfDate,
{
}

} // verus!
