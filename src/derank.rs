//! Tournament arg-min over small slices of ranked values.
use vstd::prelude::*;

verus! {

/// A value ordered by an integer key: the smaller the key, the better.
pub trait Ranked: Sized {
    spec fn rank_key(&self) -> int;

    fn rank_le(&self, other: &Self) -> (r: bool)
        ensures
            r == (self.rank_key() <= other.rank_key()),
    ;
}

impl Ranked for u8 {
    open spec fn rank_key(&self) -> int {
        *self as int
    }

    fn rank_le(&self, other: &Self) -> (r: bool) {
        *self <= *other
    }
}

impl Ranked for u32 {
    open spec fn rank_key(&self) -> int {
        *self as int
    }

    fn rank_le(&self, other: &Self) -> (r: bool) {
        *self <= *other
    }
}

impl Ranked for u64 {
    open spec fn rank_key(&self) -> int {
        *self as int
    }

    fn rank_le(&self, other: &Self) -> (r: bool) {
        *self <= *other
    }
}

/// `i` is the first position of a smallest key within `s[lo..hi]`.
pub open spec fn first_min_in<T: Ranked>(s: Seq<T>, lo: int, hi: int, i: int) -> bool {
    &&& lo <= i < hi
    &&& forall|j: int| lo <= j < hi ==> s[i].rank_key() <= #[trigger] s[j].rank_key()
    &&& forall|j: int| lo <= j < i ==> #[trigger] s[j].rank_key() > s[i].rank_key()
}

/// `i` is the first position of a smallest key in the whole of `s`.
pub open spec fn is_first_min<T: Ranked>(s: Seq<T>, i: int) -> bool {
    first_min_in(s, 0, s.len() as int, i)
}

/// The first minimum of a sequence is unique.
pub proof fn lemma_first_min_unique<T: Ranked>(s: Seq<T>, i: int, j: int)
    requires
        is_first_min(s, i),
        is_first_min(s, j),
    ensures
        i == j,
{
    if i < j {
        assert(s[i].rank_key() > s[j].rank_key());
    } else if j < i {
        assert(s[j].rank_key() > s[i].rank_key());
    }
}

/// Picks the better of the winners of two adjacent ranges; the left one on a tie.
fn fight<T: Ranked>(
    a: &[T],
    l: usize,
    r: usize,
    Ghost(lo): Ghost<int>,
    Ghost(mid): Ghost<int>,
    Ghost(hi): Ghost<int>,
) -> (w: usize)
    requires
        hi <= a@.len(),
        first_min_in(a@, lo, mid, l as int),
        first_min_in(a@, mid, hi, r as int),
    ensures
        first_min_in(a@, lo, hi, w as int),
{
    if a[l].rank_le(&a[r]) {
        l
    } else {
        r
    }
}

proof fn lemma_single<T: Ranked>(s: Seq<T>, i: int)
    requires
        0 <= i < s.len(),
    ensures
        first_min_in(s, i, i + 1, i),
{
}

/// The first minimum of a slice of two.
pub fn derank_2<T: Ranked>(a: &[T]) -> (r: usize)
    requires
        a@.len() == 2,
    ensures
        is_first_min(a@, r as int),
{
    proof {
        lemma_single(a@, 0);
        lemma_single(a@, 1);
    }
    fight(a, 0, 1, Ghost(0), Ghost(1), Ghost(2))
}

/// The first minimum of a slice of three.
pub fn derank_3<T: Ranked>(a: &[T]) -> (r: usize)
    requires
        a@.len() == 3,
    ensures
        is_first_min(a@, r as int),
{
    proof {
        lemma_single(a@, 0);
        lemma_single(a@, 1);
        lemma_single(a@, 2);
    }
    let x = fight(a, 0, 1, Ghost(0), Ghost(1), Ghost(2));
    fight(a, x, 2, Ghost(0), Ghost(2), Ghost(3))
}

fn pair<T: Ranked>(a: &[T], l: usize) -> (w: usize)
    requires
        l + 2 <= a@.len(),
    ensures
        first_min_in(a@, l as int, l + 2, w as int),
{
    let _n = a.len();
    proof {
        lemma_single(a@, l as int);
        lemma_single(a@, l + 1);
    }
    fight(a, l, l + 1, Ghost(l as int), Ghost(l + 1), Ghost(l + 2))
}

fn quad<T: Ranked>(a: &[T], l: usize) -> (w: usize)
    requires
        l + 4 <= a@.len(),
    ensures
        first_min_in(a@, l as int, l + 4, w as int),
{
    let _n = a.len();
    let x = pair(a, l);
    let y = pair(a, l + 2);
    fight(a, x, y, Ghost(l as int), Ghost(l + 2), Ghost(l + 4))
}

fn octet<T: Ranked>(a: &[T], l: usize) -> (w: usize)
    requires
        l + 8 <= a@.len(),
    ensures
        first_min_in(a@, l as int, l + 8, w as int),
{
    let _n = a.len();
    let x = quad(a, l);
    let y = quad(a, l + 4);
    fight(a, x, y, Ghost(l as int), Ghost(l + 4), Ghost(l + 8))
}

/// The first minimum of a slice of four.
pub fn derank_4<T: Ranked>(a: &[T]) -> (r: usize)
    requires
        a@.len() == 4,
    ensures
        is_first_min(a@, r as int),
{
    quad(a, 0)
}

/// The first minimum of a slice of five.
pub fn derank_5<T: Ranked>(a: &[T]) -> (r: usize)
    requires
        a@.len() == 5,
    ensures
        is_first_min(a@, r as int),
{
    let x = quad(a, 0);
    proof {
        lemma_single(a@, 4);
    }
    fight(a, x, 4, Ghost(0), Ghost(4), Ghost(5))
}

/// The first minimum of a slice of six.
pub fn derank_6<T: Ranked>(a: &[T]) -> (r: usize)
    requires
        a@.len() == 6,
    ensures
        is_first_min(a@, r as int),
{
    let x = quad(a, 0);
    let y = pair(a, 4);
    fight(a, x, y, Ghost(0), Ghost(4), Ghost(6))
}

/// The first minimum of a slice of seven.
pub fn derank_7<T: Ranked>(a: &[T]) -> (r: usize)
    requires
        a@.len() == 7,
    ensures
        is_first_min(a@, r as int),
{
    let x = quad(a, 0);
    let y = pair(a, 4);
    proof {
        lemma_single(a@, 6);
    }
    let z = fight(a, y, 6, Ghost(4), Ghost(6), Ghost(7));
    fight(a, x, z, Ghost(0), Ghost(4), Ghost(7))
}

/// The first minimum of a slice of eight.
pub fn derank_8<T: Ranked>(a: &[T]) -> (r: usize)
    requires
        a@.len() == 8,
    ensures
        is_first_min(a@, r as int),
{
    octet(a, 0)
}

/// The first minimum of a slice of sixteen.
fn derank_16<T: Ranked>(a: &[T]) -> (r: usize)
    requires
        a@.len() == 16,
    ensures
        is_first_min(a@, r as int),
{
    let x = octet(a, 0);
    let y = octet(a, 8);
    fight(a, x, y, Ghost(0), Ghost(8), Ghost(16))
}

/// The lengths that the tournament handles.
pub open spec fn derank_len(n: int) -> bool {
    (1 <= n <= 8) || n == 16
}

/// The first position of a smallest value, by a fixed tournament.
pub fn derank<T: Ranked>(a: &[T]) -> (r: usize)
    requires
        derank_len(a@.len() as int),
    ensures
        is_first_min(a@, r as int),
{
    let n = a.len();
    if n == 1 {
        proof {
            lemma_single(a@, 0);
        }
        0
    } else if n == 2 {
        derank_2(a)
    } else if n == 3 {
        derank_3(a)
    } else if n == 4 {
        derank_4(a)
    } else if n == 5 {
        derank_5(a)
    } else if n == 6 {
        derank_6(a)
    } else if n == 7 {
        derank_7(a)
    } else if n == 8 {
        derank_8(a)
    } else {
        derank_16(a)
    }
}

/// The first position of a smallest value, by a linear scan.
pub fn linear_min_index<T: Ranked>(xs: &[T]) -> (r: usize)
    requires
        xs@.len() > 0,
    ensures
        is_first_min(xs@, r as int),
{
    let mut min_i: usize = 0;
    let mut i: usize = 0;
    while i < xs.len()
        invariant
            0 <= min_i <= i <= xs@.len(),
            min_i < xs@.len(),
            i > 0 ==> first_min_in(xs@, 0, i as int, min_i as int),
            i == 0 ==> min_i == 0,
        decreases xs@.len() - i,
    {
        if !xs[min_i].rank_le(&xs[i]) {
            min_i = i;
        }
        i = i + 1;
    }
    min_i
}

/// The tournament and the linear scan agree on every slice they both accept.
pub proof fn lemma_derank_is_linear_min<T: Ranked>(a: Seq<T>, r: int, l: int)
    requires
        derank_len(a.len() as int),
        is_first_min(a, r),
        is_first_min(a, l),
    ensures
        r == l,
{
    lemma_first_min_unique(a, r, l);
}

} // verus!
