//! Index arithmetic of an array-backed heap of arity `A`.
//!
//! Node `i` has its parent at `(i - 1) / A` and its children at
//! `A * i + 1 ..= A * (i + 1)`.
use vstd::prelude::*;

use crate::derank::Ranked;

verus! {

/// The parent of node `i` in an 8-ary heap.
pub open spec fn par8(i: int) -> int {
    (i - 1) / 8
}

/// The first `n` entries of `s` are in heap order: no entry is better than its parent.
pub open spec fn heap_order<E: Ranked>(s: Seq<E>, n: int) -> bool {
    forall|i: int| 0 < i < n ==> s[#[trigger] par8(i)].rank_key() <= s[i].rank_key()
}

/// Heap order on the first `n` entries except between `pos` and its parent; the
/// parent of `pos` is still no worse than the children of `pos`.
pub open spec fn heap_order_except_up<E: Ranked>(s: Seq<E>, n: int, pos: int) -> bool {
    &&& forall|i: int| 0 < i < n && i != pos ==> s[#[trigger] par8(i)].rank_key() <= s[i].rank_key()
    &&& forall|c: int|
        0 < c < n && #[trigger] par8(c) == pos && pos > 0 ==> s[par8(pos)].rank_key() <= s[c].rank_key()
}

/// Heap order on the first `n` entries except between `pos` and its children; the
/// parent of `pos` is still no worse than the children of `pos`.
pub open spec fn heap_order_except_down<E: Ranked>(s: Seq<E>, n: int, pos: int) -> bool {
    &&& forall|i: int|
        0 < i < n && #[trigger] par8(i) != pos ==> s[par8(i)].rank_key() <= s[i].rank_key()
    &&& forall|c: int|
        0 < c < n && #[trigger] par8(c) == pos && pos > 0 ==> s[par8(pos)].rank_key() <= s[c].rank_key()
}

/// In heap order the root is no worse than any entry.
pub proof fn lemma_root_is_min<E: Ranked>(s: Seq<E>, n: int, i: int)
    requires
        heap_order(s, n),
        0 <= i < n,
        n <= s.len(),
    ensures
        s[0].rank_key() <= s[i].rank_key(),
    decreases i,
{
    if i > 0 {
        assert(s[par8(i)].rank_key() <= s[i].rank_key());
        lemma_root_is_min(s, n, par8(i));
    }
}

/// The parent of node `i` in a heap of arity `a`.
pub open spec fn spec_parent(a: int, i: int) -> int {
    (i - 1) / a
}

/// The parent of a node.
pub fn index_parent<const A: usize>(i: usize) -> (r: usize)
    requires
        A > 0,
        i > 0,
    ensures
        r == spec_parent(A as int, i as int),
        r < i,
{
    (i - 1) / A
}

/// The first child of a node.
pub fn index_first_children<const A: usize>(i: usize) -> (r: usize)
    requires
        A * i + 1 <= usize::MAX,
    ensures
        r == A * i + 1,
{
    (A * i) + 1
}

/// The last child of a node.
pub fn index_last_children<const A: usize>(i: usize) -> (r: usize)
    requires
        i < usize::MAX,
        A * (i + 1) <= usize::MAX,
    ensures
        r == A * (i + 1),
{
    A * (i + 1)
}

/// Every child of node `i` has `i` as its parent, and nothing else has.
pub proof fn lemma_par8(i: int, c: int)
    requires
        i >= 0,
        c > 0,
    ensures
        par8(c) == i <==> 8 * i + 1 <= c <= 8 * i + 8,
        par8(c) < c,
        par8(c) >= 0,
{
}

/// `a` is `b` or an ancestor of `b` in an 8-ary heap.
pub open spec fn on_path8(a: int, b: int) -> bool
    decreases b,
{
    if b < 0 {
        false
    } else if a == b {
        true
    } else if b == 0 {
        false
    } else {
        on_path8(a, par8(b))
    }
}

/// Ancestors come first.
pub proof fn lemma_on_path_le(a: int, b: int)
    requires
        on_path8(a, b),
    ensures
        0 <= a <= b,
    decreases b,
{
    if a != b && b > 0 {
        lemma_on_path_le(a, par8(b));
    }
}

/// The parent of a node on the path is on the path too.
pub proof fn lemma_on_path_parent(p: int, b: int)
    requires
        on_path8(p, b),
        p > 0,
    ensures
        on_path8(par8(p), b),
    decreases b,
{
    lemma_on_path_le(p, b);
    if p == b {
        assert(on_path8(par8(b), par8(b)));
    } else {
        lemma_on_path_parent(p, par8(b));
        lemma_on_path_le(par8(p), par8(b));
    }
}

/// No node of the path lies strictly between a path node and its parent.
pub proof fn lemma_on_path_gap(i: int, p: int, b: int)
    requires
        on_path8(i, b),
        on_path8(p, b),
        p > 0,
        par8(p) < i,
    ensures
        p <= i,
    decreases b,
{
    lemma_on_path_le(p, b);
    lemma_on_path_le(i, b);
    if p == b {
        if i != b {
            lemma_on_path_le(i, par8(b));
        }
    } else if i != b {
        lemma_on_path_gap(i, p, par8(b));
    }
}

/// Swapping two entries keeps the multiset of entries.
pub proof fn lemma_swap_multiset<A>(s: Seq<A>, l: int, r: int)
    requires
        0 <= l < s.len(),
        0 <= r < s.len(),
    ensures
        s.update(l, s[r]).update(r, s[l]).to_multiset() == s.to_multiset(),
{
    broadcast use vstd::multiset::group_multiset_axioms;

    let mid = s.update(l, s[r]);
    vstd::seq_lib::to_multiset_update(s, l, s[r]);
    vstd::seq_lib::to_multiset_update(mid, r, s[l]);
    s.to_multiset_ensures();
    assert(s.contains(s[l]));
    let m = s.to_multiset();
    let m4 = m.insert(s[r]).remove(s[l]).insert(s[l]).remove(mid[r]);
    if l == r {
        assert(s.update(l, s[r]).update(r, s[l]) =~= s);
    } else {
        assert(mid[r] == s[r]);
        assert forall|v: A| m4.count(v) == m.count(v) by {}
        assert(m4 =~= m);
    }
}

/// Entries of a permutation are entries of the original.
pub proof fn lemma_same_members<A>(s: Seq<A>, t: Seq<A>)
    requires
        t.to_multiset() == s.to_multiset(),
    ensures
        forall|i: int| 0 <= i < t.len() ==> s.contains(#[trigger] t[i]),
{
    s.to_multiset_ensures();
    t.to_multiset_ensures();
    assert forall|i: int| 0 <= i < t.len() implies s.contains(#[trigger] t[i]) by {
        assert(t.contains(t[i]));
        assert(t.to_multiset().count(t[i]) > 0);
    }
}

/// After one removal, every entry is an earlier one.
pub proof fn lemma_remove_members<A>(s: Seq<A>, t: Seq<A>, x: A)
    requires
        t.to_multiset() == s.to_multiset().remove(x),
    ensures
        forall|i: int| 0 <= i < t.len() ==> s.contains(#[trigger] t[i]),
{
    broadcast use vstd::multiset::group_multiset_axioms;

    s.to_multiset_ensures();
    t.to_multiset_ensures();
    assert forall|i: int| 0 <= i < t.len() implies s.contains(#[trigger] t[i]) by {
        assert(t.contains(t[i]));
        assert(t.to_multiset().count(t[i]) > 0);
        assert(s.to_multiset().remove(x).count(t[i]) <= s.to_multiset().count(t[i]));
    }
}

/// After one insertion, every entry is the inserted one or an earlier one.
pub proof fn lemma_insert_members<A>(s: Seq<A>, t: Seq<A>, e: A)
    requires
        t.to_multiset() == s.to_multiset().insert(e),
    ensures
        forall|i: int| 0 <= i < t.len() ==> t[i] == e || s.contains(#[trigger] t[i]),
{
    broadcast use vstd::multiset::group_multiset_axioms;

    s.to_multiset_ensures();
    t.to_multiset_ensures();
    assert forall|i: int| 0 <= i < t.len() implies t[i] == e || s.contains(#[trigger] t[i]) by {
        assert(t.contains(t[i]));
        assert(t.to_multiset().count(t[i]) > 0);
        if t[i] != e {
            assert(s.to_multiset().insert(e).count(t[i]) == s.to_multiset().count(t[i]));
            assert(s.to_multiset().count(t[i]) > 0);
        }
    }
}

/// How many values of `size` bytes fit in two cache lines, and at least two.
pub fn size_of_cacheline_arity<T: Sized>() -> (r: usize)
    requires
        vstd::layout::size_of::<T>() > 0,
    ensures
        r == if 128nat / vstd::layout::size_of::<T>() > 2 {
            128nat / vstd::layout::size_of::<T>()
        } else {
            2
        },
{
    let s = core::mem::size_of::<T>();
    let n = 128 / s;
    if n > 2 {
        n
    } else {
        2
    }
}

} // verus!
