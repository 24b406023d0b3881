use vstd::prelude::*;

verus! {

use vstd::seq_lib::group_to_multiset_ensures;
use vstd::set_lib::lemma_len_subset;
use vstd::set_lib::lemma_subset_equality;

/// A route through `n` cities: a permutation of the indices `0 .. n-1`
/// (right length, every entry in range, no entry repeated).
pub open spec fn valid_route(route: Seq<usize>, n: nat) -> bool {
    &&& route.len() == n
    &&& forall|i: int| 0 <= i < route.len() ==> (#[trigger] route[i] as nat) < n
    &&& route.no_duplicates()
}

/// The route that visits the cities in index order.
pub open spec fn identity_route(n: nat) -> Seq<usize> {
    Seq::new(n, |i: int| i as usize)
}

pub proof fn lemma_identity_route_valid(n: nat)
    requires
        n <= usize::MAX,
    ensures
        valid_route(identity_route(n), n),
{
    assert forall|i: int, j: int|
        0 <= i < j < identity_route(n).len() implies identity_route(n)[i] != identity_route(
        n,
    )[j] by {};
}

/// Reordering a sequence without changing its multiset of elements keeps it
/// a permutation of `0 .. n-1`. This is what a shuffle does.
pub proof fn lemma_same_multiset_valid(a: Seq<usize>, b: Seq<usize>, n: nat)
    requires
        valid_route(a, n),
        a.to_multiset() == b.to_multiset(),
    ensures
        valid_route(b, n),
{
    broadcast use group_to_multiset_ensures;

    assert(a.to_multiset().len() == a.len());
    assert(b.to_multiset().len() == b.len());
    assert(b.len() == n);
    assert forall|i: int| 0 <= i < b.len() implies (#[trigger] b[i] as nat) < n by {
        assert(b.contains(b[i]));
        assert(b.to_multiset().count(b[i]) > 0);
        assert(a.contains(b[i]));
        let j = choose|j: int| 0 <= j < a.len() && a[j] == b[i];
        assert((a[j] as nat) < n);
    }
    a.lemma_multiset_has_no_duplicates();
    b.lemma_multiset_has_no_duplicates_conv();
}

/// The set of all city indices below `n`.
pub open spec fn index_pool(n: nat) -> Set<usize> {
    Set::new(|v: usize| (v as nat) < n)
}

pub proof fn lemma_index_pool_len(n: nat)
    requires
        n <= usize::MAX,
    ensures
        index_pool(n).finite(),
        index_pool(n).len() == n,
    decreases n,
{
    broadcast use vstd::set::group_set_axioms;

    if n == 0 {
        assert(index_pool(0) =~= Set::<usize>::empty());
    } else {
        lemma_index_pool_len((n - 1) as nat);
        let prev = index_pool((n - 1) as nat);
        assert(!prev.contains((n - 1) as usize));
        assert(index_pool(n) =~= prev.insert((n - 1) as usize));
    }
}

/// A permutation of `0 .. n-1` contains every index below `n`.
pub proof fn lemma_route_covers(s: Seq<usize>, n: nat, v: usize)
    requires
        valid_route(s, n),
        n <= usize::MAX,
        (v as nat) < n,
    ensures
        s.contains(v),
{
    broadcast use vstd::set::group_set_axioms;
    broadcast use vstd::seq_lib::seq_to_set_is_finite;

    s.unique_seq_to_set();
    lemma_index_pool_len(n);
    assert forall|w: usize| s.to_set().contains(w) implies index_pool(n).contains(w) by {
        assert(s.contains(w));
        let j = choose|j: int| 0 <= j < s.len() && s[j] == w;
        assert((s[j] as nat) < n);
    }
    assert(s.to_set().subset_of(index_pool(n)));
    lemma_len_subset(s.to_set(), index_pool(n));
    lemma_subset_equality(s.to_set(), index_pool(n));
    assert(index_pool(n).contains(v));
    assert(s.to_set().contains(v));
}

/// Swapping two positions of a permutation leaves a permutation.
pub proof fn lemma_swap_valid(s: Seq<usize>, i: int, j: int, n: nat)
    requires
        valid_route(s, n),
        0 <= i < s.len(),
        0 <= j < s.len(),
    ensures
        valid_route(s.update(i, s[j]).update(j, s[i]), n),
{
    let t = s.update(i, s[j]).update(j, s[i]);
    assert forall|a: int, b: int| 0 <= a < b < t.len() implies t[a] != t[b] by {
        let sa = if a == j { i } else if a == i { j } else { a };
        let sb = if b == j { i } else if b == i { j } else { b };
        assert(t[a] == s[sa]);
        assert(t[b] == s[sb]);
        assert(sa != sb);
    }
}

/// `s` rotated so that position `k` comes first.
pub open spec fn rotate_from(s: Seq<usize>, k: int) -> Seq<usize> {
    s.subrange(k, s.len() as int) + s.subrange(0, k)
}

pub proof fn lemma_rotate_from_valid(s: Seq<usize>, n: nat, k: int)
    requires
        valid_route(s, n),
        0 <= k <= s.len(),
    ensures
        valid_route(rotate_from(s, k), n),
        forall|i: int|
            0 <= i < s.len() - k ==> #[trigger] rotate_from(s, k)[i] == s[i + k],
        forall|i: int|
            s.len() - k <= i < s.len() ==> #[trigger] rotate_from(s, k)[i] == s[i + k - s.len()],
{
    let r = rotate_from(s, k);
    let len = s.len() as int;
    assert(r.len() == n);
    assert forall|a: int, b: int| 0 <= a < b < r.len() implies r[a] != r[b] by {
        let sa = if a < len - k { a + k } else { a + k - len };
        let sb = if b < len - k { b + k } else { b + k - len };
        assert(r[a] == s[sa]);
        assert(r[b] == s[sb]);
        assert(sa != sb);
    }
}

/// The genes of the first `k` positions of `source`, in order, skipping any
/// gene that appears in `seg`. This is the order-crossover fill sequence.
pub open spec fn fill_from(source: Seq<usize>, seg: Seq<usize>, k: int) -> Seq<usize>
    decreases k,
{
    if k <= 0 {
        Seq::empty()
    } else {
        let pre = fill_from(source, seg, k - 1);
        if seg.contains(source[k - 1]) {
            pre
        } else {
            pre.push(source[k - 1])
        }
    }
}

/// The fill sequence repeats no gene, takes its genes from the scanned prefix
/// of `source`, and skips exactly the genes of `seg`.
pub proof fn lemma_fill_from_props(source: Seq<usize>, seg: Seq<usize>, k: int)
    requires
        source.no_duplicates(),
        0 <= k <= source.len(),
    ensures
        fill_from(source, seg, k).no_duplicates(),
        forall|v: usize| #[trigger]
            fill_from(source, seg, k).contains(v) ==> source.subrange(0, k).contains(v)
                && !seg.contains(v),
    decreases k,
{
    if k > 0 {
        lemma_fill_from_props(source, seg, k - 1);
        let f0 = fill_from(source, seg, k - 1);
        let f = fill_from(source, seg, k);
        let pre0 = source.subrange(0, k - 1);
        let pre = source.subrange(0, k);
        assert(pre =~= pre0.push(source[k - 1]));
        assert forall|v: usize| pre0.contains(v) implies pre.contains(v) by {
            let j = choose|j: int| 0 <= j < pre0.len() && pre0[j] == v;
            assert(pre[j] == v);
        }
        assert(pre[k - 1] == source[k - 1]);
        assert(pre.contains(source[k - 1]));
        if !seg.contains(source[k - 1]) {
            assert(f == f0.push(source[k - 1]));
            // the new gene is not already in the fill: it would have to come
            // from an earlier position of `source`, which has no duplicates
            assert(!f0.contains(source[k - 1])) by {
                if f0.contains(source[k - 1]) {
                    assert(pre0.contains(source[k - 1]));
                    let j = choose|j: int| 0 <= j < pre0.len() && pre0[j] == source[k - 1];
                    assert(source[j] == source[k - 1]);
                }
            }
            assert forall|a: int, b: int| 0 <= a < b < f.len() implies f[a] != f[b] by {
                if b < f0.len() {
                    assert(f[a] == f0[a] && f[b] == f0[b]);
                } else {
                    assert(f[b] == source[k - 1]);
                    assert(f[a] == f0[a]);
                    assert(f0.contains(f0[a]));
                }
            }
            assert forall|v: usize| #[trigger] f.contains(v) implies pre.contains(v)
                && !seg.contains(v) by {
                let j = choose|j: int| 0 <= j < f.len() && f[j] == v;
                if j < f0.len() {
                    assert(f0[j] == v);
                    assert(f0.contains(v));
                } else {
                    assert(v == source[k - 1]);
                }
            }
        } else {
            assert(f == f0);
            assert forall|v: usize| #[trigger] f.contains(v) implies pre.contains(v)
                && !seg.contains(v) by {
                assert(f0.contains(v));
            }
        }
    }
}

/// Length of the fill sequence: the scanned prefix minus the genes of `seg`
/// that were seen so far (counted as a set intersection).
pub proof fn lemma_fill_from_len(source: Seq<usize>, seg: Seq<usize>, k: int)
    requires
        source.no_duplicates(),
        0 <= k <= source.len(),
    ensures
        seg.to_set().intersect(source.subrange(0, k).to_set()).finite(),
        fill_from(source, seg, k).len() == k - seg.to_set().intersect(
            source.subrange(0, k).to_set(),
        ).len(),
    decreases k,
{
    broadcast use vstd::set::group_set_axioms;
    broadcast use vstd::seq_lib::seq_to_set_is_finite;

    if k == 0 {
        assert(source.subrange(0, 0) =~= Seq::<usize>::empty());
        assert(seg.to_set().intersect(source.subrange(0, 0).to_set()) =~= Set::<usize>::empty());
    } else {
        lemma_fill_from_len(source, seg, k - 1);
        let pre0 = source.subrange(0, k - 1);
        let pre = source.subrange(0, k);
        let g = source[k - 1];
        assert(pre =~= pre0.push(g));
        assert forall|v: usize| pre.contains(v) implies pre0.contains(v) || v == g by {
            let j = choose|j: int| 0 <= j < pre.len() && pre[j] == v;
            if j < k - 1 {
                assert(pre0[j] == v);
            }
        }
        assert forall|v: usize| pre0.contains(v) implies pre.contains(v) by {
            let j = choose|j: int| 0 <= j < pre0.len() && pre0[j] == v;
            assert(pre[j] == v);
        }
        assert(pre[k - 1] == g);
        assert(pre.contains(g));
        assert(pre.to_set() =~= pre0.to_set().insert(g));
        assert(!pre0.contains(g)) by {
            if pre0.contains(g) {
                let j = choose|j: int| 0 <= j < pre0.len() && pre0[j] == g;
                assert(source[j] == source[k - 1]);
            }
        }
        let i0 = seg.to_set().intersect(pre0.to_set());
        let i1 = seg.to_set().intersect(pre.to_set());
        if seg.contains(g) {
            assert(i1 =~= i0.insert(g));
            assert(!i0.contains(g));
            assert(i1.len() == i0.len() + 1);
        } else {
            assert(i1 =~= i0);
        }
    }
}

/// Scanning a whole permutation of `0 .. n-1` and skipping the genes of a
/// duplicate-free segment drawn from those indices yields exactly the
/// `n - seg.len()` missing genes.
pub proof fn lemma_fill_from_full(source: Seq<usize>, seg: Seq<usize>, n: nat)
    requires
        valid_route(source, n),
        seg.no_duplicates(),
        forall|i: int| 0 <= i < seg.len() ==> (#[trigger] seg[i] as nat) < n,
        seg.len() <= n,
        n <= usize::MAX,
    ensures
        fill_from(source, seg, n as int).len() == n - seg.len(),
{
    broadcast use vstd::set::group_set_axioms;
    broadcast use vstd::seq_lib::seq_to_set_is_finite;

    lemma_fill_from_len(source, seg, n as int);
    assert(source.subrange(0, n as int) =~= source);
    assert forall|v: usize| seg.to_set().contains(v) implies source.to_set().contains(v) by {
        assert(seg.contains(v));
        let j = choose|j: int| 0 <= j < seg.len() && seg[j] == v;
        assert((seg[j] as nat) < n);
        lemma_route_covers(source, n, v);
    }
    assert(seg.to_set().intersect(source.to_set()) =~= seg.to_set());
    seg.unique_seq_to_set();
}

} // verus!
