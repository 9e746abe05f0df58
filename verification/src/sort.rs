//! Ascending sort of signed sample offsets, specified against the
//! mathematical sort of the input sequence.

use vstd::prelude::*;
use vstd::relations::sorted_by;
use vstd::seq_lib::lemma_multiset_commutative;

verus! {

/// Non-strict order on sample offsets.
pub open spec fn le_i64() -> spec_fn(i64, i64) -> bool {
    |a: i64, b: i64| a <= b
}

/// The ascending rearrangement of `s`.
pub open spec fn sorted_copy(s: Seq<i64>) -> Seq<i64> {
    s.sort_by(le_i64())
}

/// Whether `s` is in ascending order.
pub open spec fn is_ascending(s: Seq<i64>) -> bool {
    forall|i: int, j: int| 0 <= i < j < s.len() ==> s[i] <= s[j]
}

proof fn lemma_le_total()
    ensures
        vstd::relations::total_ordering(le_i64()),
{
}

proof fn lemma_insert_multiset(s: Seq<i64>, p: int, x: i64)
    requires
        0 <= p <= s.len(),
    ensures
        s.insert(p, x).to_multiset() =~= s.to_multiset().insert(x),
{
    broadcast use vstd::seq_lib::group_to_multiset_ensures;
    broadcast use vstd::multiset::group_multiset_axioms;

    let a = s.subrange(0, p);
    let b = s.subrange(p, s.len() as int);
    assert(s =~= a + b);
    lemma_multiset_commutative(a, b);
    lemma_multiset_commutative(a.push(x), b);
}

/// Two ascending sequences with the same elements (counted with
/// multiplicity) are equal.
proof fn lemma_ascending_unique(a: Seq<i64>, b: Seq<i64>)
    requires
        is_ascending(a),
        is_ascending(b),
        a.to_multiset() =~= b.to_multiset(),
    ensures
        a =~= b,
    decreases a.len(),
{
    broadcast use vstd::seq_lib::group_to_multiset_ensures;
    broadcast use vstd::multiset::group_multiset_axioms;

    assert(a.to_multiset().len() == b.to_multiset().len());
    assert(a.len() == b.len());
    if a.len() > 0 {
        assert(a.contains(a[0]));
        assert(b.to_multiset().count(a[0]) > 0);
        assert(b.contains(a[0]));
        assert(a.to_multiset().count(b[0]) > 0);
        assert(a.contains(b[0]));
        let ja = choose|j: int| 0 <= j < a.len() && a[j] == b[0];
        let jb = choose|j: int| 0 <= j < b.len() && b[j] == a[0];
        assert(a[0] <= a[ja]);
        assert(b[0] <= b[jb]);
        assert(a[0] == b[0]);
        let ra = a.drop_first();
        let rb = b.drop_first();
        assert(a.remove(0) =~= ra);
        assert(b.remove(0) =~= rb);
        assert(a.remove(0).to_multiset() =~= a.to_multiset().remove(a[0]));
        assert(b.remove(0).to_multiset() =~= b.to_multiset().remove(b[0]));
        assert(forall|k: int, l: int| 0 <= k < l < ra.len() ==> ra[k] == a[k + 1] && ra[l] == a[l + 1]);
        assert(forall|k: int, l: int| 0 <= k < l < rb.len() ==> rb[k] == b[k + 1] && rb[l] == b[l + 1]);
        lemma_ascending_unique(ra, rb);
        assert forall|k: int| 0 <= k < a.len() implies a[k] == b[k] by {
            if k > 0 {
                assert(ra[k - 1] == rb[k - 1]);
            }
        }
    }
}

/// Return the elements of `v` in ascending order.
pub fn sort_ascending(v: &Vec<i64>) -> (r: Vec<i64>)
    ensures
        r@ == sorted_copy(v@),
        r@.len() == v@.len(),
        is_ascending(r@),
{
    broadcast use vstd::seq_lib::group_to_multiset_ensures;

    let mut res: Vec<i64> = Vec::new();
    let mut i: usize = 0;
    while i < v.len()
        invariant
            i <= v@.len(),
            is_ascending(res@),
            res@.to_multiset() =~= v@.take(i as int).to_multiset(),
        decreases v@.len() - i,
    {
        let x = v[i];
        let mut p: usize = 0;
        while p < res.len() && res[p] <= x
            invariant
                p <= res@.len(),
                forall|k: int| 0 <= k < p ==> res@[k] <= x,
            decreases res@.len() - p,
        {
            p += 1;
        }
        let ghost old_res = res@;
        res.insert(p, x);
        proof {
            lemma_insert_multiset(old_res, p as int, x);
            assert(v@.take(i + 1) =~= v@.take(i as int).push(x));
            v@.take(i as int).to_multiset_ensures();
            assert forall|a: int, b: int| 0 <= a < b < res@.len() implies res@[a] <= res@[b] by {
                if p < old_res.len() {
                    assert(x < old_res[p as int]);
                }
            }
        }
        i += 1;
    }
    proof {
        assert(v@.take(v@.len() as int) =~= v@);
        lemma_le_total();
        v@.lemma_sort_by_ensures(le_i64());
        let s = sorted_copy(v@);
        assert(is_ascending(s)) by {
            assert(sorted_by(s, le_i64()));
            assert forall|a: int, b: int| 0 <= a < b < s.len() implies s[a] <= s[b] by {
                assert(le_i64()(s[a], s[b]));
            }
        }
        lemma_ascending_unique(res@, s);
        assert(res@.to_multiset().len() == v@.to_multiset().len());
    }
    res
}

/// `sorted_copy(s)` is an ascending rearrangement of `s`.
pub proof fn lemma_sorted_copy(s: Seq<i64>)
    ensures
        is_ascending(sorted_copy(s)),
        sorted_copy(s).to_multiset() =~= s.to_multiset(),
        sorted_copy(s).len() == s.len(),
{
    broadcast use vstd::seq_lib::group_to_multiset_ensures;

    lemma_le_total();
    s.lemma_sort_by_ensures(le_i64());
    let t = sorted_copy(s);
    assert forall|a: int, b: int| 0 <= a < b < t.len() implies t[a] <= t[b] by {
        assert(le_i64()(t[a], t[b]));
    }
    assert(t.to_multiset().len() == s.to_multiset().len());
}

/// Rearranging a sequence keeps how many of its elements pass a test.
pub proof fn lemma_filter_len_rearranged(a: Seq<i64>, b: Seq<i64>, p: spec_fn(i64) -> bool)
    requires
        a.to_multiset() =~= b.to_multiset(),
    ensures
        a.filter(p).len() == b.filter(p).len(),
    decreases a.len(),
{
    broadcast use vstd::seq_lib::group_to_multiset_ensures;
    broadcast use vstd::multiset::group_multiset_axioms;
    broadcast use vstd::seq_lib::group_seq_properties;

    assert(a.to_multiset().len() == b.to_multiset().len());
    if a.len() == 0 {
        reveal(Seq::filter);
        assert(b.len() == 0);
    } else {
        let x = a.last();
        let a1 = a.drop_last();
        assert(a1.push(x) =~= a);
        assert(a.to_multiset() =~= a1.to_multiset().insert(x));
        assert(a.to_multiset().count(x) > 0);
        assert(b.to_multiset().count(x) > 0);
        assert(b.contains(x));
        let k = choose|k: int| 0 <= k < b.len() && b[k] == x;
        let b1 = b.remove(k);
        assert(b1.to_multiset() =~= b.to_multiset().remove(x));
        assert(a1.to_multiset() =~= b1.to_multiset());
        lemma_filter_len_rearranged(a1, b1, p);
        a1.lemma_filter_push(x, p);
        let l = b1.take(k);
        let r = b1.skip(k);
        assert(b =~= l.push(x) + r);
        assert(b1 =~= l + r);
        Seq::filter_distributes_over_add(l.push(x), r, p);
        Seq::filter_distributes_over_add(l, r, p);
        l.lemma_filter_push(x, p);
    }
}

} // verus!
