use vstd::multiset::*;
use vstd::prelude::*;
use vstd::seq_lib::*;

verus! {

/// `x` occurs in `m` and no element of `m` is greater.
pub open spec fn is_max_of(m: Multiset<i32>, x: i32) -> bool {
    m.contains(x) && forall|y: i32| m.contains(y) ==> y <= x
}

/// Position `i` of `s` is not smaller than the children it has in the implicit binary tree.
pub open spec fn dominates_children(s: Seq<i32>, i: int) -> bool {
    &&& (2 * i + 1 < s.len() ==> s[i] >= s[2 * i + 1])
    &&& (2 * i + 2 < s.len() ==> s[i] >= s[2 * i + 2])
}

/// `s` is laid out as a binary max-heap: each node is at least each of its children.
pub open spec fn is_max_heap(s: Seq<i32>) -> bool {
    forall|i: int| 0 <= i < s.len() ==> #[trigger] dominates_children(s, i)
}

/// In a max-heap the first position holds a value at least as large as any other.
proof fn lemma_root_dominates(s: Seq<i32>, i: int)
    requires
        is_max_heap(s),
        0 <= i < s.len(),
    ensures
        s[0] >= s[i],
    decreases i,
{
    if i > 0 {
        let p = (i - 1) / 2;
        assert(dominates_children(s, p));
        lemma_root_dominates(s, p);
    }
}

/// The first position of a non-empty max-heap holds the maximum of its contents.
proof fn lemma_root_is_max(s: Seq<i32>)
    requires
        is_max_heap(s),
        s.len() > 0,
    ensures
        is_max_of(s.to_multiset(), s[0]),
{
    broadcast use group_to_multiset_ensures;

    assert(s.contains(s[0]));
    assert forall|y: i32| s.to_multiset().contains(y) implies y <= s[0] by {
        assert(s.contains(y));
        let i = choose|i: int| 0 <= i < s.len() && s[i] == y;
        lemma_root_dominates(s, i);
    }
}

/// Exchanges two positions of a vector; its contents as a multiset stay the same.
fn swap(v: &mut Vec<i32>, i: usize, j: usize)
    requires
        i < old(v).len(),
        j < old(v).len(),
    ensures
        final(v)@ == old(v)@.update(i as int, old(v)@[j as int]).update(j as int, old(v)@[i as int]),
        final(v)@.to_multiset() == old(v)@.to_multiset(),
{
    broadcast use group_to_multiset_ensures;
    broadcast use group_multiset_properties;

    let a = v[i];
    let b = v[j];
    v.set(i, b);
    v.set(j, a);
    proof {
        let s = old(v)@;
        let s1 = s.update(i as int, b);
        assert(s1.to_multiset() == s.to_multiset().insert(b).remove(a));
        assert(v@.to_multiset() == s1.to_multiset().insert(a).remove(s1[j as int]));
        if i == j {
            assert(v@ =~= s);
        } else {
            assert(s1[j as int] == b);
            assert(v@.to_multiset() =~= s.to_multiset());
        }
    }
}

/// Moves the value at position `k` down until the subtree rooted at `k` is a heap,
/// given that every position below `k` already dominates its children.
fn sift_down(v: &mut Vec<i32>, k: usize)
    requires
        k < old(v).len(),
        forall|i: int| k < i < old(v).len() ==> #[trigger] dominates_children(old(v)@, i),
    ensures
        final(v)@.len() == old(v)@.len(),
        final(v)@.to_multiset() == old(v)@.to_multiset(),
        forall|i: int| 0 <= i < k ==> final(v)@[i] == old(v)@[i],
        forall|i: int| k <= i < final(v)@.len() ==> #[trigger] dominates_children(final(v)@, i),
{
    let len = v.len();
    let mut pos = k;
    let ghost mut parent: int = 0;
    loop
        invariant
            k <= pos < len,
            v@.len() == len,
            old(v)@.len() == len,
            v@.to_multiset() == old(v)@.to_multiset(),
            forall|i: int| 0 <= i < k ==> v@[i] == old(v)@[i],
            forall|i: int| k <= i < len && i != pos ==> #[trigger] dominates_children(v@, i),
            pos > k ==> {
                &&& k <= parent < pos
                &&& (2 * parent + 1 == pos || 2 * parent + 2 == pos)
                &&& (2 * pos + 1 < len ==> v@[parent] >= v@[2 * pos + 1])
                &&& (2 * pos + 2 < len ==> v@[parent] >= v@[2 * pos + 2])
            },
        ensures
            v@.len() == len,
            v@.to_multiset() == old(v)@.to_multiset(),
            forall|i: int| 0 <= i < k ==> v@[i] == old(v)@[i],
            forall|i: int| k <= i < len ==> #[trigger] dominates_children(v@, i),
        decreases len - pos,
    {
        if pos >= len / 2 {
            assert(dominates_children(v@, pos as int));
            break;
        }
        let l = 2 * pos + 1;
        let mut c = l;
        if l + 1 < len && v[l + 1] > v[l] {
            c = l + 1;
        }
        if v[pos] >= v[c] {
            assert(dominates_children(v@, pos as int));
            break;
        }
        let ghost before = v@;
        swap(v, pos, c);
        proof {
            assert(dominates_children(before, c as int));
            assert forall|i: int| k <= i < len && i != c implies #[trigger] dominates_children(
                v@,
                i,
            ) by {
                assert(dominates_children(before, i) || i == pos);
                if pos > k && i == parent {
                    assert(before[i] >= before[c as int]);
                }
            }
            parent = pos as int;
        }
        pos = c;
    }
}

/// A binary max-heap of integers laid out in a vector.
pub struct BinaryHeap {
    data: Vec<i32>,
}

impl View for BinaryHeap {
    type V = Multiset<i32>;

    /// The elements held, with their multiplicities.
    closed spec fn view(&self) -> Multiset<i32> {
        self.data@.to_multiset()
    }
}

impl BinaryHeap {
    /// The backing vector is laid out as a max-heap.
    pub closed spec fn wf(&self) -> bool {
        is_max_heap(self.data@)
    }

    /// Builds a heap holding exactly the given elements, in time linear in their number.
    pub fn from_vec(v: Vec<i32>) -> (r: Self)
        ensures
            r.wf(),
            r@ == v@.to_multiset(),
    {
        let mut data = v;
        let n = data.len();
        let mut k = n / 2;
        while k > 0
            invariant
                data@.len() == n,
                k <= n / 2,
                data@.to_multiset() == v@.to_multiset(),
                forall|i: int| k <= i < n ==> #[trigger] dominates_children(data@, i),
            decreases k,
        {
            k = k - 1;
            sift_down(&mut data, k);
        }
        BinaryHeap { data }
    }

    /// A greatest element, or `None` when the heap is empty.
    pub fn peek(&self) -> (r: Option<&i32>)
        requires
            self.wf(),
        ensures
            r is None <==> self@.len() == 0,
            r matches Some(x) ==> is_max_of(self@, *x),
    {
        broadcast use group_to_multiset_ensures;

        if self.data.len() == 0 {
            None
        } else {
            proof {
                lemma_root_is_max(self.data@);
            }
            Some(&self.data[0])
        }
    }

    /// Removes and returns a greatest element, or returns `None` when the heap is empty.
    pub fn pop(&mut self) -> (r: Option<i32>)
        requires
            old(self).wf(),
        ensures
            final(self).wf(),
            old(self)@.len() == 0 ==> r is None && final(self)@ == old(self)@,
            old(self)@.len() > 0 ==> (r matches Some(x) && is_max_of(old(self)@, x)
                && final(self)@ == old(self)@.remove(x)),
    {
        broadcast use group_to_multiset_ensures;

        let n = self.data.len();
        if n == 0 {
            return None;
        }
        proof {
            lemma_root_is_max(self.data@);
        }
        let ghost s = self.data@;
        swap(&mut self.data, 0, n - 1);
        let ghost s1 = self.data@;
        let top = self.data.pop().unwrap();
        proof {
            assert(s1.remove(n - 1) =~= self.data@);
            assert forall|i: int| 0 < i < self.data@.len() implies #[trigger] dominates_children(
                self.data@,
                i,
            ) by {
                assert(dominates_children(s, i));
            }
        }
        if n > 1 {
            sift_down(&mut self.data, 0);
        }
        Some(top)
    }

    /// Gives up the elements in the order of the backing vector.
    pub fn into_vec(self) -> (r: Vec<i32>)
        ensures
            r@.to_multiset() == self@,
    {
        self.data
    }
}

} // verus!
