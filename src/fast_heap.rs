use crate::binary_heap::{is_max_of, BinaryHeap};
use crate::heap::Heap;
use vstd::multiset::*;
use vstd::prelude::*;
use vstd::seq_lib::*;

verus! {

/// One sorted element is prepared up front for every this many elements of the input.
pub const SORTED_BUDGET_DIVISOR: usize = 384;

/// The positions from `from` on hold ascending values.
pub open spec fn sorted_from(s: Seq<i32>, from: int) -> bool {
    forall|i: int, j: int| from <= i <= j < s.len() ==> s[i] <= s[j]
}

/// No value before position `from` is greater than a value at or after it.
pub open spec fn partitioned_at(s: Seq<i32>, from: int) -> bool {
    forall|i: int, j: int| 0 <= i < from <= j < s.len() ==> s[i] <= s[j]
}

/// Relies on `slice::select_nth_unstable`: it reorders the slice so that no element before
/// `index` is greater than the one at `index`, and none after it is smaller. It panics when
/// `index` is out of bounds.
#[verifier::external_body]
fn select_nth(v: &mut Vec<i32>, index: usize)
    requires
        index < old(v).len(),
    ensures
        final(v)@.len() == old(v)@.len(),
        final(v)@.to_multiset() == old(v)@.to_multiset(),
        forall|i: int| 0 <= i < index ==> final(v)@[i] <= final(v)@[index as int],
        forall|i: int| index < i < final(v)@.len() ==> final(v)@[index as int] <= final(v)@[i],
{
    v.select_nth_unstable(index);
}

/// Relies on `slice::sort_unstable`, applied to the elements from `from` on: they are
/// reordered into ascending order and the elements before `from` stay where they are.
#[verifier::external_body]
fn sort_from(v: &mut Vec<i32>, from: usize)
    requires
        from <= old(v).len(),
    ensures
        final(v)@.len() == old(v)@.len(),
        final(v)@.subrange(0, from as int) == old(v)@.subrange(0, from as int),
        final(v)@.subrange(from as int, final(v)@.len() as int).to_multiset() == old(
            v,
        )@.subrange(from as int, old(v)@.len() as int).to_multiset(),
        sorted_from(final(v)@, from as int),
{
    v[from..].sort_unstable();
}

/// The last element of a sequence whose tail is sorted and dominates the rest is its maximum.
proof fn lemma_last_is_max(s: Seq<i32>, from: int)
    requires
        0 <= from < s.len(),
        sorted_from(s, from),
        partitioned_at(s, from),
    ensures
        is_max_of(s.to_multiset(), s.last()),
{
    broadcast use group_to_multiset_ensures;

    assert(s.contains(s.last()));
    assert forall|y: i32| s.to_multiset().contains(y) implies y <= s.last() by {
        assert(s.contains(y));
        let i = choose|i: int| 0 <= i < s.len() && s[i] == y;
        if i < from {
            assert(s[i] <= s[s.len() - 1]);
        }
    }
}

/// A vector whose last `t` elements are the largest ones, in ascending order.
pub struct SortHeap {
    inner: Vec<i32>,
    t: usize,
}

impl View for SortHeap {
    type V = Multiset<i32>;

    /// The elements held, with their multiplicities.
    open spec fn view(&self) -> Multiset<i32> {
        self.backing().to_multiset()
    }
}

impl SortHeap {
    /// The backing sequence, in storage order.
    pub closed spec fn backing(&self) -> Seq<i32> {
        self.inner@
    }

    /// The sorted budget: how many elements at the end of the backing sequence are sorted.
    pub closed spec fn budget(&self) -> nat {
        self.t as nat
    }

    /// The sorted budget is positive and fits, its window is sorted, and nothing before the
    /// window is greater than anything in it.
    pub open spec fn wf(&self) -> bool {
        let s = self.backing();
        let from = s.len() - self.budget();
        &&& 0 < self.budget() <= s.len()
        &&& sorted_from(s, from)
        &&& partitioned_at(s, from)
    }

    /// A greatest element: the last one of the backing sequence. A well-formed window is
    /// never empty.
    pub fn peek(&self) -> (r: Option<&i32>)
        requires
            self.wf(),
        ensures
            r is Some,
            r matches Some(x) ==> *x == self.backing().last() && is_max_of(self@, *x),
    {
        broadcast use group_to_multiset_ensures;

        proof {
            lemma_last_is_max(self.inner@, self.inner@.len() - self.t);
        }
        self.inner.last()
    }
}

/// The adaptive heap: a sorted window over the largest elements while it lasts, then a
/// binary heap over what remains.
pub enum FastHeap {
    Sorted(SortHeap),
    Binary(BinaryHeap),
}

impl View for FastHeap {
    type V = Multiset<i32>;

    /// The elements held, with their multiplicities.
    open spec fn view(&self) -> Multiset<i32> {
        match self {
            FastHeap::Sorted(h) => h@,
            FastHeap::Binary(h) => h@,
        }
    }
}

impl FastHeap {
    /// The representation in use is well formed.
    pub open spec fn wf(&self) -> bool {
        match self {
            FastHeap::Sorted(h) => h.wf(),
            FastHeap::Binary(h) => h.wf(),
        }
    }

    /// Builds the heap from all its elements. Inputs with fewer than
    /// `SORTED_BUDGET_DIVISOR` elements go straight to a binary heap; larger ones get their
    /// largest `n / SORTED_BUDGET_DIVISOR` elements selected and sorted.
    pub fn from_vec(vec: Vec<i32>) -> (r: Self)
        ensures
            r.wf(),
            r@ == vec@.to_multiset(),
            r is Binary <==> vec@.len() < SORTED_BUDGET_DIVISOR,
            r matches FastHeap::Sorted(h) ==> h.budget() == vec@.len() / (SORTED_BUDGET_DIVISOR as nat)
                && h.backing().len() == vec@.len(),
    {
        broadcast use group_to_multiset_ensures;

        let n = vec.len();
        let t = n / SORTED_BUDGET_DIVISOR;
        if t > 0 {
            let mut inner = vec;
            let index = n - t;
            select_nth(&mut inner, index);
            let ghost selected = inner@;
            sort_from(&mut inner, index);
            proof {
                let s = inner@;
                let lo = s.subrange(0, index as int);
                let hi = s.subrange(index as int, n as int);
                let slo = selected.subrange(0, index as int);
                let shi = selected.subrange(index as int, n as int);
                assert(s =~= lo + hi);
                assert(selected =~= slo + shi);
                lemma_multiset_commutative(lo, hi);
                lemma_multiset_commutative(slo, shi);
                assert forall|i: int, j: int| 0 <= i < index <= j < n implies s[i] <= s[j] by {
                    assert(s[i] == lo[i]);
                    assert(hi.contains(s[j])) by {
                        assert(hi[j - index] == s[j]);
                    }
                    assert(shi.to_multiset().count(s[j]) > 0);
                    let k = choose|k: int| 0 <= k < shi.len() && shi[k] == s[j];
                    assert(selected[i] <= selected[index as int]);
                }
            }
            FastHeap::Sorted(SortHeap { inner, t })
        } else {
            FastHeap::Binary(BinaryHeap::from_vec(vec))
        }
    }

    /// Removes and returns a greatest element, or returns `None` when nothing is left. The
    /// pop that empties the sorted window turns the rest into a binary heap.
    pub fn pop(&mut self) -> (r: Option<i32>)
        requires
            old(self).wf(),
        ensures
            final(self).wf(),
            old(self)@.len() == 0 ==> r is None && final(self)@ == old(self)@,
            old(self)@.len() > 0 ==> (r matches Some(x) && is_max_of(old(self)@, x)
                && final(self)@ == old(self)@.remove(x)),
            *old(self) is Binary ==> *final(self) is Binary,
            *old(self) matches FastHeap::Sorted(h) ==> {
                &&& r == Some(h.backing().last())
                &&& h.budget() > 1 ==> (*final(self) matches FastHeap::Sorted(g) && g.budget()
                    == h.budget() - 1 && g.backing() == h.backing().drop_last())
                &&& h.budget() == 1 ==> *final(self) is Binary
            },
    {
        broadcast use group_to_multiset_ensures;

        match self {
            FastHeap::Sorted(h) => {
                let ghost s = h.inner@;
                proof {
                    lemma_last_is_max(s, s.len() - h.t);
                    assert(s.remove(s.len() - 1) =~= s.drop_last());
                }
                let k = h.inner.pop().unwrap();
                if h.t > 1 {
                    h.t = h.t - 1;
                } else {
                    let mut rest = Vec::new();
                    core::mem::swap(&mut rest, &mut h.inner);
                    *self = FastHeap::Binary(BinaryHeap::from_vec(rest));
                }
                Some(k)
            },
            FastHeap::Binary(h) => h.pop(),
        }
    }

    /// A greatest element, or `None` when nothing is left.
    pub fn peek(&self) -> (r: Option<&i32>)
        requires
            self.wf(),
        ensures
            r is None <==> self@.len() == 0,
            r matches Some(x) ==> is_max_of(self@, *x),
    {
        match self {
            FastHeap::Sorted(h) => h.peek(),
            FastHeap::Binary(h) => h.peek(),
        }
    }

    /// Gives up everything still held, in storage order: the sorted window comes last, but
    /// the rest is in no particular order.
    pub fn into_vec(self) -> (r: Vec<i32>)
        ensures
            r@.to_multiset() == self@,
    {
        match self {
            FastHeap::Sorted(h) => h.inner,
            FastHeap::Binary(h) => h.into_vec(),
        }
    }
}

impl FastHeap {
    /// Pops until nothing is left and returns what came out, in order: the elements held,
    /// from greatest to least.
    pub fn drain_sorted(&mut self) -> (r: Vec<i32>)
        requires
            old(self).wf(),
        ensures
            final(self).wf(),
            final(self)@.len() == 0,
            r@.to_multiset() == old(self)@,
            non_increasing(r@),
    {
        broadcast use group_to_multiset_ensures;
        broadcast use group_multiset_axioms;
        broadcast use group_multiset_properties;

        let mut out: Vec<i32> = Vec::new();
        loop
            invariant
                self.wf(),
                out@.to_multiset().add(self@) == old(self)@,
                non_increasing(out@),
                out@.len() > 0 ==> forall|y: i32| self@.contains(y) ==> y <= out@.last(),
            ensures
                self.wf(),
                self@.len() == 0,
                out@.to_multiset().add(self@) == old(self)@,
                non_increasing(out@),
            decreases self@.len(),
        {
            let ghost before = self@;
            let ghost prev = out@;
            match self.pop() {
                None => break,
                Some(x) => {
                    out.push(x);
                    proof {
                        assert(before.remove(x).insert(x) =~= before);
                        assert(out@ == prev.push(x));
                        to_multiset_build(prev, x);
                        assert(out@.to_multiset() =~= prev.to_multiset().insert(x));
                        assert(out@.to_multiset().add(self@) =~= prev.to_multiset().add(before));
                        assert forall|i: int, j: int| 0 <= i <= j < out@.len() implies out@[i]
                            >= out@[j] by {
                            if j == out@.len() - 1 && i < j {
                                assert(prev[i] >= prev.last());
                            }
                        }
                        assert forall|y: i32| self@.contains(y) implies y <= out@.last() by {
                            assert(before.contains(y));
                        }
                    }
                },
            }
        }
        proof {
            assert(out@.to_multiset().add(self@) =~= out@.to_multiset());
        }
        out
    }
}

impl Heap for FastHeap {
    open spec fn inv(&self) -> bool {
        self.wf()
    }

    open spec fn contents(&self) -> Multiset<i32> {
        self@
    }

    /// Bulk construction, the same as [`FastHeap::from_vec`].
    fn make(this: Vec<i32>) -> (r: Self)
        ensures
            r is Binary <==> this@.len() < SORTED_BUDGET_DIVISOR,
    {
        Self::from_vec(this)
    }

    /// Pops a greatest element if `predicate` accepts it; otherwise changes nothing and
    /// returns `None`.
    fn pop_if<F: FnOnce(&i32) -> bool>(&mut self, predicate: F) -> (r: Option<i32>) {
        let first = match self.peek() {
            Some(x) => *x,
            None => return None,
        };
        if predicate(&first) {
            let r = self.pop();
            proof {
                let x = r->Some_0;
                lemma_max_unique(old(self)@, first, x);
            }
            r
        } else {
            None
        }
    }
}

/// A multiset has at most one maximum: a peek and the pop that follows it report the
/// same value.
pub proof fn lemma_max_unique(m: Multiset<i32>, x: i32, y: i32)
    requires
        is_max_of(m, x),
        is_max_of(m, y),
    ensures
        x == y,
{
}

/// `pops` is what successive pops return from a heap holding `m`: each value is a maximum
/// of what is left, and taking it out leaves what the next pop sees.
pub open spec fn is_pop_sequence(m: Multiset<i32>, pops: Seq<i32>) -> bool
    decreases pops.len(),
{
    if pops.len() == 0 {
        true
    } else {
        is_max_of(m, pops[0]) && is_pop_sequence(m.remove(pops[0]), pops.drop_first())
    }
}

/// No value of `s` is smaller than a later one.
pub open spec fn non_increasing(s: Seq<i32>) -> bool {
    forall|i: int, j: int| 0 <= i <= j < s.len() ==> s[i] >= s[j]
}

/// Pops that take a multiset down to empty return its elements in non-increasing order.
proof fn lemma_pops_sort(m: Multiset<i32>, pops: Seq<i32>)
    requires
        is_pop_sequence(m, pops),
        pops.len() == m.len(),
    ensures
        pops.to_multiset() == m,
        non_increasing(pops),
    decreases pops.len(),
{
    broadcast use group_to_multiset_ensures;
    broadcast use group_multiset_axioms;
    broadcast use group_multiset_properties;
    broadcast use lemma_multiset_empty_len;

    if pops.len() == 0 {
        assert(m =~= Multiset::empty());
        assert(pops.to_multiset() =~= Multiset::empty());
    } else {
        let x = pops[0];
        let rest = pops.drop_first();
        let m1 = m.remove(x);
        assert(m1.insert(x) =~= m);
        lemma_pops_sort(m1, rest);
        assert(pops =~= rest.insert(0, x));
        assert forall|i: int, j: int| 0 <= i <= j < pops.len() implies pops[i] >= pops[j] by {
            if i == 0 && j > 0 {
                assert(rest[j - 1] == pops[j]);
                assert(rest.contains(pops[j]));
                assert(m1.contains(pops[j]));
                assert(m.count(pops[j]) >= m1.count(pops[j]));
                assert(is_max_of(m, x));
                assert(m.contains(pops[j]));
            } else if i > 0 {
                assert(pops[i] == rest[i - 1]);
                assert(pops[j] == rest[j - 1]);
                assert(rest[i - 1] >= rest[j - 1]);
            }
        }
    }
}

/// Draining sorts: the values that successive pops return from a heap built from `s`,
/// taken until it is empty, are the elements of `s` in non-increasing order.
pub proof fn lemma_drain_sorts(s: Seq<i32>, pops: Seq<i32>)
    requires
        is_pop_sequence(s.to_multiset(), pops),
        pops.len() == s.len(),
    ensures
        pops.to_multiset() == s.to_multiset(),
        non_increasing(pops),
{
    broadcast use group_to_multiset_ensures;

    lemma_pops_sort(s.to_multiset(), pops);
}

} // verus!
