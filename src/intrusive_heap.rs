//! An 8-ary min-heap whose elements know their own position.
use vstd::multiset::Multiset;
use vstd::prelude::*;

use crate::derank::derank;
use crate::derank::Ranked;
use crate::heap_primitives::heap_order;
use crate::heap_primitives::heap_order_except_down;
use crate::heap_primitives::heap_order_except_up;
use crate::heap_primitives::lemma_par8;
use crate::heap_primitives::lemma_on_path_gap;
use crate::heap_primitives::lemma_on_path_le;
use crate::heap_primitives::lemma_on_path_parent;
use crate::heap_primitives::lemma_root_is_min;
use crate::heap_primitives::on_path8;
use crate::heap_primitives::lemma_swap_multiset;
use crate::heap_primitives::par8;

verus! {

/// An element that carries its own index in an [`IntrusiveHeap`].
pub trait IntrusiveHeapNode: Ranked + Copy {
    spec fn heap_index_of(&self) -> usize;

    /// The element without its heap index.
    spec fn item(&self) -> Self;

    fn set_heap_index(&mut self, i: usize)
        ensures
            final(self).heap_index_of() == i,
            final(self).rank_key() == old(self).rank_key(),
            final(self).item() == old(self).item(),
    ;

    fn get_heap_index(&self) -> (r: usize)
        ensures
            r == self.heap_index_of(),
    ;
}

/// A plain element: a key and its heap index.
#[derive(Copy, Clone, Debug, PartialEq, Eq, Structural)]
pub struct KeyedNode {
    pub key: u64,
    pub heap_index: usize,
}

impl KeyedNode {
    pub fn new(key: u64) -> (r: Self)
        ensures
            r.key == key,
            r.heap_index == 0,
    {
        KeyedNode { key, heap_index: 0 }
    }
}

impl Ranked for KeyedNode {
    open spec fn rank_key(&self) -> int {
        self.key as int
    }

    fn rank_le(&self, other: &Self) -> (r: bool) {
        self.key <= other.key
    }
}

impl IntrusiveHeapNode for KeyedNode {
    open spec fn heap_index_of(&self) -> usize {
        self.heap_index
    }

    open spec fn item(&self) -> Self {
        KeyedNode { key: self.key, heap_index: 0 }
    }

    fn set_heap_index(&mut self, i: usize) {
        self.heap_index = i;
    }

    fn get_heap_index(&self) -> (r: usize) {
        self.heap_index
    }
}

/// The elements of a sequence without their heap indices.
pub open spec fn items<N: IntrusiveHeapNode>(s: Seq<N>) -> Seq<N> {
    s.map_values(|e: N| e.item())
}

/// An 8-ary min-heap of elements that keep their own index up to date.
pub struct IntrusiveHeap<N> {
    heap: Vec<N>,
}

impl<N: IntrusiveHeapNode> View for IntrusiveHeap<N> {
    type V = Seq<N>;

    closed spec fn view(&self) -> Seq<N> {
        self.heap@
    }
}

impl<N: IntrusiveHeapNode> IntrusiveHeap<N> {
    /// Heap order, and every element holds its own index.
    pub open spec fn wf(&self) -> bool {
        &&& heap_order(self@, self@.len() as int)
        &&& forall|i: int| 0 <= i < self@.len() ==> (#[trigger] self@[i]).heap_index_of() == i
        &&& self@.len() < usize::MAX / 16
    }

    /// The multiset of elements held, without their heap indices.
    pub open spec fn item_set(&self) -> Multiset<N> {
        items(self@).to_multiset()
    }

    pub fn new() -> (r: Self)
        ensures
            r.wf(),
            r@.len() == 0,
    {
        let r = Self { heap: Vec::new() };
        proof {
            assert(r@ =~= Seq::<N>::empty());
        }
        r
    }

    pub fn with_capacity(s: usize) -> (r: Self)
        ensures
            r.wf(),
            r@.len() == 0,
    {
        let r = Self { heap: Vec::with_capacity(s) };
        proof {
            assert(r@ =~= Seq::<N>::empty());
        }
        r
    }

    pub fn is_empty(&self) -> (r: bool)
        ensures
            r == (self@.len() == 0),
    {
        self.heap.len() == 0
    }

    pub fn len(&self) -> (r: usize)
        ensures
            r == self@.len(),
    {
        self.heap.len()
    }

    /// `t` is `s` after the entry at `pos` rose to `r`: the entries on the path
    /// from `r` down to `pos` moved one step down, the rest stayed; every entry
    /// passed was worse, and the parent of `r`, if any, is no worse.
    pub open spec fn sifted_up(s: Seq<N>, t: Seq<N>, pos: int, r: int) -> bool {
        &&& on_path8(r, pos)
        &&& r > 0 ==> s[par8(r)].rank_key() <= s[pos].rank_key()
        &&& forall|i: int|
            #[trigger] on_path8(i, pos) && r < i ==> s[par8(i)].rank_key() > s[pos].rank_key()
        &&& t.len() == s.len()
        &&& forall|i: int|
            0 <= i < t.len() ==> (#[trigger] t[i]).item() == (if i == r {
                s[pos].item()
            } else if on_path8(i, pos) && r < i {
                s[par8(i)].item()
            } else {
                s[i].item()
            })
    }

    proof fn lemma_swap_keys(s: Seq<N>, t: Seq<N>, l: int, r: int)
        requires
            0 <= l < s.len(),
            0 <= r < s.len(),
            t.len() == s.len(),
            t[l].item() == s[r].item(),
            t[r].item() == s[l].item(),
            forall|i: int| 0 <= i < s.len() && i != l && i != r ==> t[i] == s[i],
        ensures
            items(t).to_multiset() == items(s).to_multiset(),
    {
        let ks = items(s);
        lemma_swap_multiset(ks, l, r);
        assert(items(t) =~= ks.update(l, ks[r]).update(r, ks[l]));
    }

    /// Swaps two elements, each learning its new index.
    fn swap(&mut self, l: usize, r: usize)
        requires
            l < old(self)@.len(),
            r < old(self)@.len(),
            l != r,
        ensures
            final(self)@.len() == old(self)@.len(),
            final(self)@[l as int].rank_key() == old(self)@[r as int].rank_key(),
            final(self)@[r as int].rank_key() == old(self)@[l as int].rank_key(),
            final(self)@[l as int].item() == old(self)@[r as int].item(),
            final(self)@[r as int].item() == old(self)@[l as int].item(),
            final(self)@[l as int].heap_index_of() == l,
            final(self)@[r as int].heap_index_of() == r,
            forall|i: int|
                0 <= i < old(self)@.len() && i != l && i != r ==> final(self)@[i] == old(self)@[i],
    {
        let mut a = self.heap[l];
        let mut b = self.heap[r];
        b.set_heap_index(l);
        a.set_heap_index(r);
        self.heap.set(l, b);
        self.heap.set(r, a);
    }

    fn sift_up(&mut self, pos: usize) -> (r: usize)
        requires
            pos < old(self)@.len(),
            old(self)@.len() < usize::MAX / 16,
            heap_order_except_up(old(self)@, old(self)@.len() as int, pos as int),
            forall|i: int|
                0 <= i < old(self)@.len() ==> (#[trigger] old(self)@[i]).heap_index_of() == i,
        ensures
            final(self).wf(),
            r < final(self)@.len(),
            final(self)@.len() == old(self)@.len(),
            final(self)@[r as int].rank_key() == old(self)@[pos as int].rank_key(),
            final(self)@[r as int].item() == old(self)@[pos as int].item(),
            final(self).item_set() == old(self).item_set(),
            Self::sifted_up(old(self)@, final(self)@, pos as int, r as int),
    {
        let n = self.heap.len();
        let mut p = pos;
        proof {
            assert forall|i: int| 0 <= i < n implies (#[trigger] self@[i]).item() == (if i == p {
                old(self)@[pos as int].item()
            } else if on_path8(i, pos as int) && p < i {
                old(self)@[par8(i)].item()
            } else {
                old(self)@[i].item()
            }) by {
                if on_path8(i, pos as int) {
                    lemma_on_path_le(i, pos as int);
                }
            }
            assert forall|i: int| #[trigger] on_path8(i, pos as int) && p < i implies old(
                self,
            )@[par8(i)].rank_key() > old(self)@[pos as int].rank_key() by {
                lemma_on_path_le(i, pos as int);
            }
            assert(on_path8(pos as int, pos as int));
        }
        while p > 0
            invariant
                p < n,
                n == self@.len(),
                n == old(self)@.len(),
                n < usize::MAX / 16,
                heap_order_except_up(self@, n as int, p as int),
                forall|i: int| 0 <= i < n ==> (#[trigger] self@[i]).heap_index_of() == i,
                self@[p as int].rank_key() == old(self)@[pos as int].rank_key(),
                self@[p as int].item() == old(self)@[pos as int].item(),
                self.item_set() == old(self).item_set(),
                on_path8(p as int, pos as int),
                forall|i: int|
                    #[trigger] on_path8(i, pos as int) && p < i ==> old(self)@[par8(i)].rank_key()
                        > old(self)@[pos as int].rank_key(),
                forall|i: int|
                    0 <= i < n ==> (#[trigger] self@[i]).item() == (if i == p {
                        old(self)@[pos as int].item()
                    } else if on_path8(i, pos as int) && p < i {
                        old(self)@[par8(i)].item()
                    } else {
                        old(self)@[i].item()
                    }),
                forall|i: int|
                    0 <= i < n && !(on_path8(i, pos as int) && p <= i) ==> #[trigger] self@[i].rank_key()
                        == old(self)@[i].rank_key(),
            decreases p,
        {
            let q = (p - 1) / 8;
            proof {
                lemma_par8(q as int, p as int);
            }
            if self.heap[p].rank_le(&self.heap[q]) && !self.heap[q].rank_le(&self.heap[p]) {
                let ghost s = self@;
                self.swap(q, p);
                proof {
                    let s2 = self@;
                    Self::lemma_swap_keys(s, s2, q as int, p as int);
                    assert forall|i: int| 0 < i < n && i != q implies s2[#[trigger] par8(i)].rank_key()
                        <= s2[i].rank_key() by {
                        lemma_par8(par8(i), i);
                        lemma_par8(q as int, i);
                        lemma_par8(p as int, i);
                        if q > 0 {
                            lemma_par8(par8(q as int), q as int);
                        }
                    }
                    assert forall|c: int|
                        0 < c < n && #[trigger] par8(c) == q && q > 0 implies s2[par8(
                        q as int,
                    )].rank_key() <= s2[c].rank_key() by {
                        lemma_par8(par8(q as int), q as int);
                    }
                }
                proof {
                    let s2 = self@;
                    let qi = q as int;
                    let pi = p as int;
                    lemma_on_path_parent(pi, pos as int);
                    lemma_on_path_le(pi, pos as int);
                    assert(!(on_path8(qi, pos as int) && pi <= qi));
                    assert forall|i: int| #[trigger] on_path8(i, pos as int) && qi < i implies old(
                        self,
                    )@[par8(i)].rank_key() > old(self)@[pos as int].rank_key() by {
                        lemma_on_path_gap(i, pi, pos as int);
                        if i == pi {
                            assert(s[qi].rank_key() == old(self)@[qi].rank_key());
                        }
                    }
                    assert forall|i: int| 0 <= i < n implies (#[trigger] s2[i]).item() == (if i == qi {
                        old(self)@[pos as int].item()
                    } else if on_path8(i, pos as int) && qi < i {
                        old(self)@[par8(i)].item()
                    } else {
                        old(self)@[i].item()
                    }) by {
                        if on_path8(i, pos as int) && qi < i {
                            lemma_on_path_gap(i, pi, pos as int);
                        }
                        if i == pi {
                            assert(s[qi].item() == old(self)@[qi].item());
                        }
                    }
                    assert forall|i: int|
                        0 <= i < n && !(on_path8(i, pos as int) && qi <= i) implies #[trigger] s2[i].rank_key()
                        == old(self)@[i].rank_key() by {
                        if on_path8(i, pos as int) && pi <= i {
                            lemma_on_path_le(qi, i);
                        }
                    }
                }
                p = q;
            } else {
                proof {
                    let s = self@;
                    assert forall|i: int| 0 < i < n implies s[#[trigger] par8(i)].rank_key()
                        <= s[i].rank_key() by {
                        lemma_par8(par8(i), i);
                    }
                }
                return p;
            }
        }
        p
    }

    fn sift_down(&mut self, pos: usize) -> (r: usize)
        requires
            pos < old(self)@.len(),
            old(self)@.len() < usize::MAX / 16,
            heap_order_except_down(old(self)@, old(self)@.len() as int, pos as int),
            forall|i: int|
                0 <= i < old(self)@.len() ==> (#[trigger] old(self)@[i]).heap_index_of() == i,
        ensures
            final(self).wf(),
            final(self)@.len() == old(self)@.len(),
            final(self).item_set() == old(self).item_set(),
            pos <= r < final(self)@.len(),
            final(self)@[r as int].item() == old(self)@[pos as int].item(),
    {
        let n = self.heap.len();
        let mut p = pos;
        loop
            invariant
                pos <= p < n,
                self@[p as int].item() == old(self)@[pos as int].item(),
                n == self@.len(),
                n == old(self)@.len(),
                n < usize::MAX / 16,
                heap_order_except_down(self@, n as int, p as int),
                forall|i: int| 0 <= i < n ==> (#[trigger] self@[i]).heap_index_of() == i,
                self.item_set() == old(self).item_set(),
            decreases n - p,
        {
            let first = 8 * p + 1;
            if first >= n {
                proof {
                    let s = self@;
                    assert forall|i: int| 0 < i < n implies s[#[trigger] par8(i)].rank_key()
                        <= s[i].rank_key() by {
                        lemma_par8(p as int, i);
                    }
                }
                return p;
            }
            let end = if first + 8 < n {
                first + 8
            } else {
                n
            };
            let kids = vstd::slice::slice_subrange(self.heap.as_slice(), first, end);
            let off = derank(kids);
            let c = first + off;
            proof {
                let s = self@;
                assert forall|j: int| first <= j < end implies s[c as int].rank_key() <= (
                #[trigger] s[j]).rank_key() by {
                    assert(kids@[j - first] == s[j]);
                    assert(kids@[off as int] == s[c as int]);
                }
                lemma_par8(p as int, c as int);
            }
            if self.heap[p].rank_le(&self.heap[c]) {
                proof {
                    let s = self@;
                    assert forall|i: int| 0 < i < n implies s[#[trigger] par8(i)].rank_key()
                        <= s[i].rank_key() by {
                        lemma_par8(p as int, i);
                    }
                }
                return p;
            }
            let ghost s = self@;
            self.swap(p, c);
            proof {
                let s2 = self@;
                Self::lemma_swap_keys(s, s2, p as int, c as int);
                assert forall|i: int| 0 < i < n && #[trigger] par8(i) != c implies s2[par8(
                    i,
                )].rank_key() <= s2[i].rank_key() by {
                    lemma_par8(p as int, i);
                    lemma_par8(c as int, i);
                    lemma_par8(par8(i), i);
                    if p > 0 {
                        lemma_par8(par8(p as int), p as int);
                    }
                }
                assert forall|k: int| 0 < k < n && #[trigger] par8(k) == c implies s2[par8(
                    c as int,
                )].rank_key() <= s2[k].rank_key() by {
                    lemma_par8(c as int, k);
                }
            }
            p = c;
        }
    }

    /// Adds an element and returns the index where it settled.
    pub fn push(&mut self, n: N) -> (r: usize)
        requires
            old(self).wf(),
            old(self)@.len() + 1 < usize::MAX / 16,
        ensures
            final(self).wf(),
            final(self)@.len() == old(self)@.len() + 1,
            r < final(self)@.len(),
            final(self)@[r as int].rank_key() == n.rank_key(),
            final(self).item_set() == old(self).item_set().insert(n.item()),
            final(self)@[r as int].item() == n.item(),
            exists|m: N|
                m.item() == n.item() && m.rank_key() == n.rank_key() && #[trigger] Self::sifted_up(
                    old(self)@.push(m),
                    final(self)@,
                    old(self)@.len() as int,
                    r as int,
                ),
    {
        let heap_index = self.heap.len();
        let mut m = n;
        m.set_heap_index(heap_index);
        let ghost s0 = self@;
        self.heap.push(m);
        proof {
            let s = self@;
            assert(items(s) =~= items(s0).push(n.item()));
            items(s0).to_multiset_ensures();
            let hn = heap_index as int;
            assert forall|i: int| 0 < i < s.len() && i != hn implies s[#[trigger] par8(i)].rank_key()
                <= s[i].rank_key() by {
                lemma_par8(par8(i), i);
                assert(s0[par8(i)].rank_key() <= s0[i].rank_key());
            }
            assert forall|c: int|
                0 < c < s.len() && #[trigger] par8(c) == hn && hn > 0 implies s[par8(
                hn,
            )].rank_key() <= s[c].rank_key() by {
                lemma_par8(hn, c);
            }
        }
        let ghost pushed = self@;
        let r = self.sift_up(heap_index);
        proof {
            assert(pushed == s0.push(m));
            assert(Self::sifted_up(s0.push(m), self@, heap_index as int, r as int));
        }
        r
    }

    /// Removes and returns an element of the smallest key.
    pub fn pop(&mut self) -> (r: Option<N>)
        requires
            old(self).wf(),
        ensures
            final(self).wf(),
            r is None <==> old(self)@.len() == 0,
            match r {
                Some(x) => {
                    &&& final(self)@.len() == old(self)@.len() - 1
                    &&& forall|i: int|
                        0 <= i < old(self)@.len() ==> x.rank_key() <= (
                        #[trigger] old(self)@[i]).rank_key()
                    &&& final(self).item_set() == old(self).item_set().remove(x.item())
                    &&& old(self).item_set().contains(x.item())
                },
                None => final(self)@.len() == 0,
            },
    {
        let len = self.heap.len();
        if len == 0 {
            return None;
        }
        proof {
            assert forall|i: int| 0 <= i < len implies self@[0].rank_key() <= (
            #[trigger] self@[i]).rank_key() by {
                lemma_root_is_min(self@, len as int, i);
            }
        }
        let ghost s0 = self@;
        let last = len - 1;
        if last > 0 {
            self.swap(0, last);
            proof {
                Self::lemma_swap_keys(s0, self@, 0, last as int);
            }
        }
        let ghost s1 = self@;
        let top = self.heap.pop().unwrap();
        proof {
            assert(s1 =~= self@.push(top));
            assert(items(s1) =~= items(self@).push(top.item()));
            items(self@).to_multiset_ensures();
            assert(top.rank_key() == s0[0].rank_key());
            items(s0).to_multiset_ensures();
            assert(items(s0)[0] == top.item());
            let s = self@;
            assert forall|i: int| 0 < i < s.len() && #[trigger] par8(i) != 0 implies s[par8(
                i,
            )].rank_key() <= s[i].rank_key() by {
                lemma_par8(par8(i), i);
                assert(s0[par8(i)].rank_key() <= s0[i].rank_key());
            }
        }
        if self.heap.len() > 0 {
            self.sift_down(0);
        }
        Some(top)
    }
}

} // verus!
