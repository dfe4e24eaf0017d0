//! A binary heap that gives out the smallest level first, ties by cell id.

use vstd::prelude::*;

verus! {

/// Entry `a` comes out before entry `b`.
pub open spec fn entry_before(a: (i32, u32), b: (i32, u32)) -> bool {
    a.0 < b.0 || (a.0 == b.0 && a.1 < b.1)
}

/// Cells waiting at a level, smallest level and then smallest id first. The order in
/// which they come out depends on what is in the heap alone.
pub struct LevelHeap {
    items: Vec<(i32, u32)>,
}

/// The place above `i` in the heap.
spec fn above(i: int) -> int {
    (i - 1) / 2
}

/// No entry comes before the one above it, but for the one at `except`.
spec fn ordered_but(s: Seq<(i32, u32)>, except: int) -> bool {
    forall|i: int|
        0 < i < s.len() && i != except ==> !entry_before(#[trigger] s[i], s[above(i)])
}

/// No entry comes before the one above it, but for those below `except`.
spec fn ordered_but_below(s: Seq<(i32, u32)>, except: int) -> bool {
    forall|i: int|
        0 < i < s.len() && above(i) != except ==> !entry_before(#[trigger] s[i], s[above(i)])
}

/// The entries at `i` and `j` changed places.
spec fn swapped(s: Seq<(i32, u32)>, i: int, j: int) -> Seq<(i32, u32)> {
    s.update(i, s[j]).update(j, s[i])
}

proof fn lemma_swap(s: Seq<(i32, u32)>, i: int, j: int)
    requires
        0 <= i < s.len(),
        0 <= j < s.len(),
        i != j,
        s.no_duplicates(),
    ensures
        swapped(s, i, j).no_duplicates(),
        forall|x: (i32, u32)| #[trigger] swapped(s, i, j).contains(x) <==> s.contains(x),
{
    let t = swapped(s, i, j);
    assert forall|x: (i32, u32)| #[trigger] t.contains(x) <==> s.contains(x) by {
        if t.contains(x) {
            let k = choose|k: int| 0 <= k < t.len() && t[k] == x;
            if k == i {
                assert(s[j] == x);
            } else if k == j {
                assert(s[i] == x);
            } else {
                assert(s[k] == x);
            }
        }
        if s.contains(x) {
            let k = choose|k: int| 0 <= k < s.len() && s[k] == x;
            if k == i {
                assert(t[j] == x);
            } else if k == j {
                assert(t[i] == x);
            } else {
                assert(t[k] == x);
            }
        }
    }
}

/// In an ordered heap nothing comes before the root.
proof fn lemma_root_is_first(s: Seq<(i32, u32)>, i: int)
    requires
        ordered_but(s, 0),
        0 <= i < s.len(),
    ensures
        !entry_before(s[i], s[0]),
    decreases i,
{
    if i > 0 {
        lemma_root_is_first(s, above(i));
        assert(!entry_before(s[i], s[above(i)]));
    }
}

impl LevelHeap {
    /// The heap is ordered, and no entry is in it twice.
    pub closed spec fn wf(&self) -> bool {
        ordered_but(self.items@, 0) && self.items@.no_duplicates()
    }

    /// Whether entry `x` is in the heap.
    pub closed spec fn holds(&self, x: (i32, u32)) -> bool {
        self.items@.contains(x)
    }

    /// Number of entries.
    pub closed spec fn size(&self) -> nat {
        self.items@.len()
    }

    /// An empty heap.
    pub fn new() -> (h: LevelHeap)
        ensures
            h.wf(),
            h.size() == 0,
            forall|x: (i32, u32)| !#[trigger] h.holds(x),
    {
        LevelHeap { items: Vec::new() }
    }

    /// Whether the heap is empty.
    pub fn is_empty(&self) -> (b: bool)
        ensures
            b == (self.size() == 0),
            b ==> forall|x: (i32, u32)| !#[trigger] self.holds(x),
    {
        self.items.len() == 0
    }

    /// Whether the entry at `i` comes before the one at `j`.
    fn earlier(&self, i: usize, j: usize) -> (b: bool)
        requires
            i < self.items@.len(),
            j < self.items@.len(),
        ensures
            b == entry_before(self.items@[i as int], self.items@[j as int]),
    {
        let a = self.items[i];
        let b = self.items[j];
        a.0 < b.0 || (a.0 == b.0 && a.1 < b.1)
    }

    fn swap(&mut self, i: usize, j: usize)
        requires
            i < old(self).items@.len(),
            j < old(self).items@.len(),
        ensures
            final(self).items@ == swapped(old(self).items@, i as int, j as int),
    {
        let a = self.items[i];
        let b = self.items[j];
        self.items.set(i, b);
        self.items.set(j, a);
    }

    /// Adds an entry that is not in the heap yet.
    pub fn push(&mut self, x: (i32, u32))
        requires
            old(self).wf(),
            !old(self).holds(x),
        ensures
            final(self).wf(),
            final(self).size() == old(self).size() + 1,
            forall|y: (i32, u32)| #[trigger] final(self).holds(y) <==> y == x || old(self).holds(y),
    {
        let ghost before = self.items@;
        self.items.push(x);
        let mut i: usize = self.items.len() - 1;
        proof {
            let s = self.items@;
            assert(s[before.len() as int] == x);
            assert forall|y: (i32, u32)| #[trigger] s.contains(y) <==> y == x || before.contains(
                y,
            ) by {
                if before.contains(y) {
                    let k = choose|k: int| 0 <= k < before.len() && before[k] == y;
                    assert(s[k] == y);
                }
            }
            assert forall|k: int| 0 < k < s.len() && k != i implies !entry_before(
                #[trigger] s[k],
                s[above(k)],
            ) by {
                assert(!entry_before(before[k], before[above(k)]));
            }
        }
        while i > 0 && self.earlier(i, (i - 1) / 2)
            invariant
                i < self.items@.len(),
                self.items@.len() == before.len() + 1,
                self.items@.no_duplicates(),
                forall|y: (i32, u32)| #[trigger]
                    self.items@.contains(y) <==> y == x || before.contains(y),
                ordered_but(self.items@, i as int),
                forall|c: int|
                    0 < c < self.items@.len() && i > 0 && above(c) == i ==> !entry_before(
                        #[trigger] self.items@[c],
                        self.items@[above(i as int)],
                    ),
            decreases i,
        {
            let up: usize = (i - 1) / 2;
            let ghost s = self.items@;
            proof {
                lemma_swap(s, i as int, up as int);
            }
            self.swap(i, up);
            proof {
                let t = self.items@;
                assert forall|k: int| 0 < k < t.len() && k != up implies !entry_before(
                    #[trigger] t[k],
                    t[above(k)],
                ) by {
                    if k == i {
                    } else if above(k) == i {
                        assert(!entry_before(s[k], s[up as int]));
                    } else if above(k) == up {
                        assert(!entry_before(s[k], s[up as int]));
                    } else {
                        assert(!entry_before(s[k], s[above(k)]));
                    }
                }
                assert forall|c: int|
                    0 < c < t.len() && up > 0 && above(c) == up implies !entry_before(
                    #[trigger] t[c],
                    t[above(up as int)],
                ) by {
                    assert(!entry_before(s[up as int], s[above(up as int)]));
                    if c != i {
                        assert(!entry_before(s[c], s[up as int]));
                    }
                }
            }
            i = up;
        }
        proof {
            let s = self.items@;
            assert forall|k: int| 0 < k < s.len() implies !entry_before(
                #[trigger] s[k],
                s[above(k)],
            ) by {}
        }
    }

    /// Takes out the entry that comes before all others.
    pub fn pop(&mut self) -> (r: Option<(i32, u32)>)
        requires
            old(self).wf(),
        ensures
            final(self).wf(),
            r is None <==> old(self).size() == 0,
            r is None ==> *final(self) == *old(self) && forall|y: (i32, u32)| !#[trigger]
                old(self).holds(y),
            r matches Some(x) ==> {
                &&& final(self).size() + 1 == old(self).size()
                &&& old(self).holds(x)
                &&& forall|y: (i32, u32)| #[trigger]
                    old(self).holds(y) ==> y == x || entry_before(x, y)
                &&& forall|y: (i32, u32)| #[trigger]
                    final(self).holds(y) <==> old(self).holds(y) && y != x
            },
    {
        let n = self.items.len();
        if n == 0 {
            return None;
        }
        let ghost before = self.items@;
        let x = self.items[0];
        proof {
            assert(before[0] == x);
            assert forall|y: (i32, u32)| #[trigger] before.contains(y) implies y == x
                || entry_before(x, y) by {
                let k = choose|k: int| 0 <= k < before.len() && before[k] == y;
                lemma_root_is_first(before, k);
            }
        }
        if n > 1 {
            proof {
                lemma_swap(before, 0, n - 1);
            }
            self.swap(0, n - 1);
        }
        let ghost mid = self.items@;
        let _ = self.items.pop();
        proof {
            let s = self.items@;
            assert(mid[n - 1] == x);
            assert(mid.no_duplicates());
            assert(s =~= mid.drop_last());
            assert forall|y: (i32, u32)| #[trigger] s.contains(y) <==> before.contains(y) && y
                != x by {
                if s.contains(y) {
                    let k = choose|k: int| 0 <= k < s.len() && s[k] == y;
                    assert(mid[k] == y);
                    assert(mid.contains(y));
                    assert(mid[k] != mid[n - 1]);
                }
                if before.contains(y) && y != x {
                    assert(mid.contains(y));
                    let k = choose|k: int| 0 <= k < mid.len() && mid[k] == y;
                    assert(s[k] == y);
                }
            }
            assert forall|k: int| 0 < k < s.len() && above(k) != 0 implies !entry_before(
                #[trigger] s[k],
                s[above(k)],
            ) by {
                assert(!entry_before(before[k], before[above(k)]));
            }
        }
        self.sift_down();
        Some(x)
    }

    /// Moves the root down until the heap is ordered.
    fn sift_down(&mut self)
        requires
            old(self).items@.no_duplicates(),
            ordered_but_below(old(self).items@, 0),
        ensures
            final(self).wf(),
            final(self).items@.len() == old(self).items@.len(),
            forall|y: (i32, u32)| #[trigger]
                final(self).items@.contains(y) <==> old(self).items@.contains(y),
    {
        let ghost before = self.items@;
        let len = self.items.len();
        let mut i: usize = 0;
        while i < len / 2
            invariant
                self.items@.len() == len,
                before.len() == len,
                before == old(self).items@,
                self.items@.no_duplicates(),
                forall|y: (i32, u32)| #[trigger]
                    self.items@.contains(y) <==> before.contains(y),
                ordered_but_below(self.items@, i as int),
                forall|c: int|
                    0 < c < self.items@.len() && i > 0 && above(c) == i ==> !entry_before(
                        #[trigger] self.items@[c],
                        self.items@[above(i as int)],
                    ),
            decreases len - i,
        {
            let ghost s = self.items@;
            let left: usize = 2 * i + 1;
            let mut least: usize = i;
            if self.earlier(left, least) {
                least = left;
            }
            if left + 1 < len && self.earlier(left + 1, least) {
                least = left + 1;
            }
            if least == i {
                proof {
                    assert forall|k: int| 0 < k < s.len() implies !entry_before(
                        #[trigger] s[k],
                        s[above(k)],
                    ) by {
                        if above(k) == i {
                            assert(k == left || k == left + 1);
                        }
                    }
                }
                return;
            }
            proof {
                lemma_swap(s, i as int, least as int);
                lemma_sift(s, i as int, least as int);
            }
            self.swap(i, least);
            i = least;
        }
        proof {
            let s = self.items@;
            assert forall|k: int| 0 < k < s.len() implies !entry_before(
                #[trigger] s[k],
                s[above(k)],
            ) by {
                assert(above(k) != i);
            }
        }
    }
}

/// Exchanging an entry with the first of those below it moves the disorder down.
proof fn lemma_sift(s: Seq<(i32, u32)>, i: int, least: int)
    requires
        0 <= i < s.len(),
        0 < least < s.len(),
        above(least) == i,
        ordered_but_below(s, i),
        forall|c: int|
            0 < c < s.len() && i > 0 && above(c) == i ==> !entry_before(
                #[trigger] s[c],
                s[above(i)],
            ),
        entry_before(s[least], s[i]),
        forall|c: int|
            0 < c < s.len() && above(c) == i ==> !entry_before(#[trigger] s[c], s[least]),
    ensures
        ordered_but_below(swapped(s, i, least), least),
        forall|c: int|
            0 < c < s.len() && above(c) == least ==> !entry_before(
                #[trigger] swapped(s, i, least)[c],
                swapped(s, i, least)[above(least)],
            ),
{
    let t = swapped(s, i, least);
    assert forall|k: int| 0 < k < t.len() && above(k) != least implies !entry_before(
        #[trigger] t[k],
        t[above(k)],
    ) by {
        if k == i {
            assert(!entry_before(s[least], s[above(i)]));
        } else if above(k) == i {
            if k != least {
                assert(!entry_before(s[k], s[least]));
            }
        } else {
            assert(!entry_before(s[k], s[above(k)]));
        }
    }
    assert forall|c: int| 0 < c < s.len() && above(c) == least implies !entry_before(
        #[trigger] t[c],
        t[above(least)],
    ) by {
        assert(!entry_before(s[c], s[above(c)]));
    }
}

} // verus!
