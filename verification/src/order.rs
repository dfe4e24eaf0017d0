//! Stable ordering of records by keys that are sequences of integers.

use vstd::prelude::*;

verus! {

/// `a` comes before `b` in dictionary order.
pub open spec fn before(a: Seq<i128>, b: Seq<i128>) -> bool
    decreases a.len(),
{
    if b.len() == 0 {
        false
    } else if a.len() == 0 {
        true
    } else if a[0] != b[0] {
        a[0] < b[0]
    } else {
        before(a.drop_first(), b.drop_first())
    }
}

/// The keys of records.
pub open spec fn key_views(keys: Seq<Vec<i128>>) -> Seq<Seq<i128>> {
    Seq::new(keys.len(), |i: int| keys[i]@)
}

/// Record `i` stands before record `j`: by its key, and among equal keys by its position.
pub open spec fn leads(keys: Seq<Seq<i128>>, i: int, j: int) -> bool {
    before(keys[i], keys[j]) || (keys[i] == keys[j] && i < j)
}

/// `order` names each of the first `n` records once.
pub open spec fn names_each(order: Seq<usize>, n: int) -> bool {
    &&& order.len() == n
    &&& forall|k: int| 0 <= k < n ==> #[trigger] order[k] < n
    &&& forall|i: int, j: int| 0 <= i < j < n ==> order[i] != order[j]
    &&& forall|v: int| 0 <= v < n ==> order.contains(#[trigger] (v as usize))
}

/// `order` names each of the first `n` records once, and each stands before the next.
pub open spec fn arranged(keys: Seq<Seq<i128>>, order: Seq<usize>, n: int) -> bool {
    &&& names_each(order, n)
    &&& forall|i: int, j: int|
        0 <= i < j < n ==> #[trigger] leads(keys, order[i] as int, order[j] as int)
}

/// Dictionary order is transitive.
proof fn lemma_before_trans(a: Seq<i128>, b: Seq<i128>, c: Seq<i128>)
    requires
        before(a, b),
        before(b, c),
    ensures
        before(a, c),
    decreases a.len(),
{
    if a.len() > 0 && b.len() > 0 && c.len() > 0 && a[0] == b[0] && b[0] == c[0] {
        lemma_before_trans(a.drop_first(), b.drop_first(), c.drop_first());
    }
}

/// Nothing comes before itself.
proof fn lemma_before_irreflexive(a: Seq<i128>)
    ensures
        !before(a, a),
    decreases a.len(),
{
    if a.len() > 0 {
        lemma_before_irreflexive(a.drop_first());
    }
}

/// Of two different keys one comes before the other.
proof fn lemma_before_total(a: Seq<i128>, b: Seq<i128>)
    ensures
        before(a, b) || before(b, a) || a == b,
    decreases a.len(),
{
    if a.len() == 0 && b.len() == 0 {
        assert(a =~= b);
    } else if a.len() > 0 && b.len() > 0 && a[0] == b[0] {
        lemma_before_total(a.drop_first(), b.drop_first());
        if a.drop_first() == b.drop_first() {
            assert(a =~= seq![a[0]] + a.drop_first());
            assert(b =~= seq![b[0]] + b.drop_first());
        }
    }
}

/// Standing before is transitive.
proof fn lemma_leads_trans(keys: Seq<Seq<i128>>, i: int, j: int, k: int)
    requires
        leads(keys, i, j),
        leads(keys, j, k),
    ensures
        leads(keys, i, k),
{
    if before(keys[i], keys[j]) && before(keys[j], keys[k]) {
        lemma_before_trans(keys[i], keys[j], keys[k]);
    }
}

/// Two records do not stand before each other.
proof fn lemma_leads_one_way(keys: Seq<Seq<i128>>, i: int, j: int)
    requires
        leads(keys, i, j),
    ensures
        !leads(keys, j, i),
{
    lemma_before_irreflexive(keys[i]);
    if before(keys[i], keys[j]) && before(keys[j], keys[i]) {
        lemma_before_trans(keys[i], keys[j], keys[i]);
    }
}

/// Whether `a` comes before `b` in dictionary order.
pub fn comes_before(a: &[i128], b: &[i128]) -> (r: bool)
    ensures
        r == before(a@, b@),
{
    let mut i: usize = 0;
    assert(a@.skip(0) =~= a@ && b@.skip(0) =~= b@);
    while i < a.len() && i < b.len()
        invariant
            i <= a@.len(),
            i <= b@.len(),
            before(a@, b@) == before(a@.skip(i as int), b@.skip(i as int)),
        decreases a@.len() - i,
    {
        if a[i] != b[i] {
            return a[i] < b[i];
        }
        assert(a@.skip(i as int).drop_first() =~= a@.skip(i + 1));
        assert(b@.skip(i as int).drop_first() =~= b@.skip(i + 1));
        i = i + 1;
    }
    i < b.len()
}

/// The positions of the records in order of their keys, equal keys in the order given.
pub fn stable_order(keys: &Vec<Vec<i128>>) -> (order: Vec<usize>)
    ensures
        arranged(key_views(keys@), order@, keys@.len() as int),
{
    let mut order: Vec<usize> = Vec::new();
    let mut i: usize = 0;
    while i < keys.len()
        invariant
            i <= keys@.len(),
            arranged(key_views(keys@), order@, i as int),
        decreases keys@.len() - i,
    {
        place(keys, &mut order, i);
        i = i + 1;
    }
    order
}

/// Puts record `i` behind every earlier record that it does not come before.
fn place(keys: &Vec<Vec<i128>>, order: &mut Vec<usize>, i: usize)
    requires
        i < keys@.len(),
        arranged(key_views(keys@), old(order)@, i as int),
    ensures
        arranged(key_views(keys@), final(order)@, i + 1),
{
    let ghost was = order@;
    let ghost ks = key_views(keys@);
    let mut at: usize = order.len();
    while at > 0 && comes_before(&keys[i], &keys[order[at - 1]])
        invariant
            at <= i,
            i < keys@.len(),
            order@ == was,
            ks == key_views(keys@),
            arranged(key_views(keys@), was, i as int),
            forall|k: int| at <= k < i ==> #[trigger] leads(ks, i as int, was[k] as int),
        decreases at,
    {
        at = at - 1;
    }
    proof {
        assert forall|k: int| 0 <= k < at implies #[trigger] leads(
            ks,
            was[k] as int,
            i as int,
        ) by {
            let last = was[at - 1] as int;
            lemma_before_total(ks[last], ks[i as int]);
            assert(leads(ks, last, i as int));
            if k < at - 1 {
                assert(leads(ks, was[k] as int, was[at - 1] as int));
                lemma_leads_trans(ks, was[k] as int, last, i as int);
            }
        }
    }
    order.insert(at, i);
    proof {
        let now = order@;
        assert(now =~= was.insert(at as int, i));
        assert forall|v: int| 0 <= v < i + 1 implies now.contains(#[trigger] (v as usize)) by {
            if v == i {
                assert(now[at as int] == v as usize);
            } else {
                assert(was.contains(v as usize));
                let k = choose|k: int| 0 <= k < was.len() && was[k] == v as usize;
                assert(now[if k < at { k } else { k + 1 }] == v as usize);
            }
        }
        assert forall|a: int, b: int| 0 <= a < b < i + 1 implies #[trigger] leads(
            ks,
            now[a] as int,
            now[b] as int,
        ) by {
            let a0 = if a < at { a } else { a - 1 };
            let b0 = if b < at { b } else { b - 1 };
            if a == at {
                assert(leads(ks, i as int, was[b0] as int));
            } else if b == at {
                assert(leads(ks, was[a0] as int, i as int));
            } else {
                assert(leads(ks, was[a0] as int, was[b0] as int));
            }
        }
    }
}

/// Keys fix the order: two orders of the same records by the same keys are one.
pub proof fn an_order_is_unique(keys: Seq<Seq<i128>>, a: Seq<usize>, b: Seq<usize>)
    requires
        arranged(keys, a, keys.len() as int),
        arranged(keys, b, keys.len() as int),
    ensures
        a == b,
{
    let n = keys.len() as int;
    assert forall|k: int| 0 <= k < n implies a[k] == b[k] by {
        lemma_same_place(keys, a, b, k);
    }
    assert(a =~= b);
}

/// The `k`th of one order is the `k`th of the other.
proof fn lemma_same_place(keys: Seq<Seq<i128>>, a: Seq<usize>, b: Seq<usize>, k: int)
    requires
        arranged(keys, a, keys.len() as int),
        arranged(keys, b, keys.len() as int),
        0 <= k < keys.len(),
    ensures
        a[k] == b[k],
    decreases k,
{
    assert forall|j: int| 0 <= j < k implies a[j] == b[j] by {
        lemma_same_place(keys, a, b, j);
    }
    let x = a[k] as int;
    let y = b[k] as int;
    if x != y {
        assert(b.contains(x as usize));
        let p = choose|p: int| 0 <= p < b.len() && b[p] == x as usize;
        if p < k {
            assert(a[p] == b[p]);
        }
        assert(leads(keys, b[k] as int, b[p] as int));
        assert(a.contains(y as usize));
        let q = choose|q: int| 0 <= q < a.len() && a[q] == y as usize;
        if q < k {
            assert(a[q] == b[q]);
        }
        assert(leads(keys, a[k] as int, a[q] as int));
        lemma_leads_one_way(keys, x, y);
    }
}

/// Dictionary order: the first place where two keys differ decides, and a key comes before
/// those that it starts.
pub proof fn the_first_difference_decides(a: Seq<i128>, b: Seq<i128>, k: int)
    requires
        0 <= k <= a.len(),
        k <= b.len(),
        forall|i: int| 0 <= i < k ==> a[i] == b[i],
        k == a.len() || k == b.len() || a[k] != b[k],
    ensures
        before(a, b) <==> k < b.len() && (k == a.len() || a[k] < b[k]),
    decreases k,
{
    if k > 0 {
        assert(a[0] == b[0]);
        let (c, d) = (a.drop_first(), b.drop_first());
        assert forall|i: int| 0 <= i < k - 1 implies c[i] == d[i] by {
            assert(a[i + 1] == b[i + 1]);
        }
        the_first_difference_decides(c, d, k - 1);
    }
}

} // verus!
