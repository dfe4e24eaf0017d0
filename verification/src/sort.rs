//! Ordering cells by a key, ties by id.

use vstd::prelude::*;

verus! {

/// Cell `a` comes before cell `b`: by key, falling where `desc` and rising otherwise,
/// then by id.
pub open spec fn precedes(key: Seq<i32>, desc: bool, a: u32, b: u32) -> bool {
    let ka = key[a as int];
    let kb = key[b as int];
    if ka == kb {
        a < b
    } else if desc {
        ka > kb
    } else {
        ka < kb
    }
}

/// Every cell comes before those after it.
pub open spec fn in_order(key: Seq<i32>, desc: bool, s: Seq<u32>) -> bool {
    forall|i: int, j: int|
        0 <= i < j < s.len() ==> precedes(key, desc, #[trigger] s[i], #[trigger] s[j])
}

/// `a` and `b` hold the same cells.
pub open spec fn same_cells(a: Seq<u32>, b: Seq<u32>) -> bool {
    &&& a.len() == b.len()
    &&& forall|x: u32| #[trigger] a.contains(x) <==> b.contains(x)
}

/// Every cell has a key.
pub open spec fn keyed(key: Seq<i32>, s: Seq<u32>) -> bool {
    forall|i: int| 0 <= i < s.len() ==> (#[trigger] s[i]) < key.len()
}

/// There is only one order of a set of cells.
pub proof fn lemma_order_is_unique(key: Seq<i32>, desc: bool, a: Seq<u32>, b: Seq<u32>)
    requires
        in_order(key, desc, a),
        in_order(key, desc, b),
        forall|x: u32| #[trigger] a.contains(x) <==> b.contains(x),
    ensures
        a == b,
    decreases a.len(),
{
    if a.len() == 0 {
        if b.len() > 0 {
            assert(b.contains(b[0]));
            assert(!a.contains(b[0]));
        }
        assert(a =~= b);
    } else {
        assert(a.contains(a[0]));
        assert(b.contains(b[0]) || b.len() == 0);
        let i = choose|i: int| 0 <= i < b.len() && b[i] == a[0];
        assert(a.contains(b[0]));
        let j = choose|j: int| 0 <= j < a.len() && a[j] == b[0];
        if a[0] != b[0] {
            assert(precedes(key, desc, b[0], b[i]));
            assert(precedes(key, desc, a[0], a[j]));
        }
        let a1 = a.drop_first();
        let b1 = b.drop_first();
        assert forall|x: u32| #[trigger] a1.contains(x) <==> b1.contains(x) by {
            if a1.contains(x) {
                let m = choose|m: int| 0 <= m < a1.len() && a1[m] == x;
                assert(a[m + 1] == x);
                assert(precedes(key, desc, a[0], a[m + 1]));
                assert(a.contains(x));
                assert(b.contains(x));
                let k = choose|k: int| 0 <= k < b.len() && b[k] == x;
                assert(b1[k - 1] == x);
            }
            if b1.contains(x) {
                let m = choose|m: int| 0 <= m < b1.len() && b1[m] == x;
                assert(b[m + 1] == x);
                assert(precedes(key, desc, b[0], b[m + 1]));
                assert(b.contains(x));
                assert(a.contains(x));
                let k = choose|k: int| 0 <= k < a.len() && a[k] == x;
                assert(a1[k - 1] == x);
            }
        }
        assert forall|i: int, j: int| 0 <= i < j < a1.len() implies precedes(
            key,
            desc,
            #[trigger] a1[i],
            #[trigger] a1[j],
        ) by {
            assert(precedes(key, desc, a[i + 1], a[j + 1]));
        }
        assert forall|i: int, j: int| 0 <= i < j < b1.len() implies precedes(
            key,
            desc,
            #[trigger] b1[i],
            #[trigger] b1[j],
        ) by {
            assert(precedes(key, desc, b[i + 1], b[j + 1]));
        }
        lemma_order_is_unique(key, desc, a1, b1);
        assert(a =~= seq![a[0]] + a1);
        assert(b =~= seq![b[0]] + b1);
    }
}

/// Whether cell `a` comes before cell `b`.
fn comes_first(key: &[i32], desc: bool, a: u32, b: u32) -> (r: bool)
    requires
        a < key@.len(),
        b < key@.len(),
    ensures
        r == precedes(key@, desc, a, b),
{
    let ka = key[a as usize];
    let kb = key[b as usize];
    if ka == kb {
        a < b
    } else if desc {
        ka > kb
    } else {
        ka < kb
    }
}

/// Merges two ordered lists without a common cell.
fn merge(a: &Vec<u32>, b: &Vec<u32>, key: &[i32], desc: bool) -> (out: Vec<u32>)
    requires
        keyed(key@, a@),
        keyed(key@, b@),
        in_order(key@, desc, a@),
        in_order(key@, desc, b@),
        a@.len() + b@.len() <= usize::MAX,
        forall|x: u32| #[trigger] a@.contains(x) ==> !b@.contains(x),
    ensures
        out@.len() == a@.len() + b@.len(),
        keyed(key@, out@),
        in_order(key@, desc, out@),
        forall|x: u32| #[trigger] out@.contains(x) <==> a@.contains(x) || b@.contains(x),
{
    let mut out: Vec<u32> = Vec::new();
    let mut i: usize = 0;
    let mut j: usize = 0;
    while i < a.len() || j < b.len()
        invariant
            i <= a@.len(),
            j <= b@.len(),
            a@.len() + b@.len() <= usize::MAX,
            keyed(key@, a@),
            keyed(key@, b@),
            in_order(key@, desc, a@),
            in_order(key@, desc, b@),
            forall|x: u32| #[trigger] a@.contains(x) ==> !b@.contains(x),
            out@.len() == i + j,
            keyed(key@, out@),
            in_order(key@, desc, out@),
            forall|k: int, m: int|
                0 <= k < out@.len() && i <= m < a@.len() ==> precedes(
                    key@,
                    desc,
                    #[trigger] out@[k],
                    #[trigger] a@[m],
                ),
            forall|k: int, m: int|
                0 <= k < out@.len() && j <= m < b@.len() ==> precedes(
                    key@,
                    desc,
                    #[trigger] out@[k],
                    #[trigger] b@[m],
                ),
            forall|k: int|
                0 <= k < out@.len() ==> a@.contains(#[trigger] out@[k]) || b@.contains(out@[k]),
            forall|m: int| 0 <= m < i ==> out@.contains(#[trigger] a@[m]),
            forall|m: int| 0 <= m < j ==> out@.contains(#[trigger] b@[m]),
        decreases a@.len() + b@.len() - i - j,
    {
        let from_a = if i >= a.len() {
            false
        } else if j >= b.len() {
            true
        } else {
            proof {
                assert(a@[i as int] < key@.len());
                assert(b@[j as int] < key@.len());
            }
            comes_first(key, desc, a[i], b[j])
        };
        let ghost out0 = out@;
        let x = if from_a {
            a[i]
        } else {
            b[j]
        };
        proof {
            if i < a@.len() {
                assert(a@.contains(a@[i as int]));
            }
            if j < b@.len() {
                assert(b@.contains(b@[j as int]));
                assert(b@[j as int] < key@.len());
            }
            if i < a@.len() {
                assert(a@[i as int] < key@.len());
            }
            if i < a@.len() && j < b@.len() {
                assert(a@[i as int] != b@[j as int]);
            }
        }
        out.push(x);
        proof {
            assert(out@[out0.len() as int] == x);
            assert forall|m: int| i <= m < a@.len() && !(from_a && m == i) implies precedes(
                key@,
                desc,
                x,
                #[trigger] a@[m],
            ) by {
                if from_a {
                    assert(precedes(key@, desc, a@[i as int], a@[m]));
                } else {
                    assert(precedes(key@, desc, b@[j as int], a@[i as int]));
                    if m > i {
                        assert(precedes(key@, desc, a@[i as int], a@[m]));
                    }
                }
            }
            assert forall|m: int| j <= m < b@.len() && !(!from_a && m == j) implies precedes(
                key@,
                desc,
                x,
                #[trigger] b@[m],
            ) by {
                if !from_a {
                    assert(precedes(key@, desc, b@[j as int], b@[m]));
                } else {
                    assert(precedes(key@, desc, a@[i as int], b@[j as int]));
                    if m > j {
                        assert(precedes(key@, desc, b@[j as int], b@[m]));
                    }
                }
            }
            assert forall|y: u32| out0.contains(y) implies out@.contains(y) by {
                let k = choose|k: int| 0 <= k < out0.len() && out0[k] == y;
                assert(out@[k] == y);
            }
        }
        if from_a {
            i = i + 1;
        } else {
            j = j + 1;
        }
    }
    proof {
        assert forall|x: u32| #[trigger] out@.contains(x) <==> a@.contains(x) || b@.contains(x) by {
            if a@.contains(x) {
                let m = choose|m: int| 0 <= m < a@.len() && a@[m] == x;
                assert(out@.contains(a@[m]));
            }
            if b@.contains(x) {
                let m = choose|m: int| 0 <= m < b@.len() && b@[m] == x;
                assert(out@.contains(b@[m]));
            }
        }
    }
    out
}

/// Orders distinct cells by key, ties by id.
pub fn sort_cells(cells: Vec<u32>, key: &[i32], desc: bool) -> (out: Vec<u32>)
    requires
        keyed(key@, cells@),
        cells@.no_duplicates(),
    ensures
        same_cells(out@, cells@),
        in_order(key@, desc, out@),
        keyed(key@, out@),
    decreases cells@.len(),
{
    let n = cells.len();
    if n <= 1 {
        return cells;
    }
    let half = n / 2;
    let mut low: Vec<u32> = Vec::new();
    let mut high: Vec<u32> = Vec::new();
    let mut i: usize = 0;
    while i < n
        invariant
            i <= n,
            n == cells@.len(),
            half <= n,
            low@ == cells@.take(if i < half {
                i as int
            } else {
                half as int
            }),
            high@ == (if i < half {
                Seq::empty()
            } else {
                cells@.subrange(half as int, i as int)
            }),
        decreases n - i,
    {
        if i < half {
            low.push(cells[i]);
        } else {
            high.push(cells[i]);
        }
        i = i + 1;
        proof {
            if i <= half {
                assert(low@ =~= cells@.take(i as int));
            } else {
                assert(high@ =~= cells@.subrange(half as int, i as int));
            }
            if i == half {
                assert(cells@.subrange(half as int, i as int) =~= Seq::<u32>::empty());
            }
        }
    }
    let ghost lo = low@;
    let ghost hi = high@;
    proof {
        assert forall|k: int| 0 <= k < lo.len() implies (#[trigger] lo[k]) < key@.len() by {
            assert(cells@[k] < key@.len());
        }
        assert forall|k: int| 0 <= k < hi.len() implies (#[trigger] hi[k]) < key@.len() by {
            assert(cells@[half + k] < key@.len());
        }
    }
    let a = sort_cells(low, key, desc);
    let b = sort_cells(high, key, desc);
    proof {
        assert forall|x: u32| #[trigger] a@.contains(x) implies !b@.contains(x) by {
            assert(lo.contains(x));
            let k = choose|k: int| 0 <= k < lo.len() && lo[k] == x;
            if b@.contains(x) {
                assert(hi.contains(x));
                let m = choose|m: int| 0 <= m < hi.len() && hi[m] == x;
                assert(cells@[k] == cells@[half + m]);
            }
        }
    }
    let out = merge(&a, &b, key, desc);
    proof {
        assert forall|x: u32| #[trigger] out@.contains(x) <==> cells@.contains(x) by {
            if out@.contains(x) {
                if a@.contains(x) {
                    let k = choose|k: int| 0 <= k < lo.len() && lo[k] == x;
                    assert(lo.contains(x));
                    assert(cells@[k] == x);
                } else {
                    assert(hi.contains(x));
                    let k = choose|k: int| 0 <= k < hi.len() && hi[k] == x;
                    assert(cells@[half + k] == x);
                }
            }
            if cells@.contains(x) {
                let k = choose|k: int| 0 <= k < cells@.len() && cells@[k] == x;
                if k < half {
                    assert(lo[k] == x);
                    assert(lo.contains(x));
                    assert(a@.contains(x));
                } else {
                    assert(hi[k - half] == x);
                    assert(hi.contains(x));
                    assert(b@.contains(x));
                }
            }
        }
    }
    out
}

/// Cells in order come by their keys, falling or rising as was asked, and among equal keys by
/// their numbers.
pub proof fn order_goes_by_key(key: Seq<i32>, desc: bool, s: Seq<u32>, i: int, j: int)
    requires
        in_order(key, desc, s),
        0 <= i < j < s.len(),
    ensures
        desc ==> key[s[i] as int] >= key[s[j] as int],
        !desc ==> key[s[i] as int] <= key[s[j] as int],
        key[s[i] as int] == key[s[j] as int] ==> s[i] < s[j],
{
    assert(precedes(key, desc, s[i], s[j]));
}

} // verus!
