use vstd::prelude::*;
use vstd::multiset::Multiset;
use vstd::std_specs::cmp::PartialOrdSpec;
use core::cmp::Ordering;

verus! {

broadcast use {
    vstd::seq_lib::group_to_multiset_ensures,
    vstd::multiset::group_multiset_axioms,
};

/// Which end of the element order a heap hands out first.
#[derive(Clone, Copy, Debug, PartialEq, Eq)]
pub enum Priority {
    /// The least element comes out first.
    Least,
    /// The greatest element comes out first.
    Greatest,
}

/// `T`'s comparison is a strict total order whose "equal" is equality.
pub open spec fn total_order<T: PartialOrd>() -> bool {
    &&& T::obeys_partial_cmp_spec()
    &&& forall|a: T, b: T| #[trigger] a.partial_cmp_spec(&b) is Some
    &&& forall|a: T, b: T| (#[trigger] a.partial_cmp_spec(&b) == Some(Ordering::Equal)) <==> a == b
    &&& forall|a: T, b: T|
        (#[trigger] a.partial_cmp_spec(&b) == Some(Ordering::Less)) <==> (b.partial_cmp_spec(&a)
            == Some(Ordering::Greater))
    &&& forall|a: T, b: T, c: T|
        #![trigger a.partial_cmp_spec(&b), b.partial_cmp_spec(&c)]
        a.partial_cmp_spec(&b) == Some(Ordering::Less) && b.partial_cmp_spec(&c) == Some(
            Ordering::Less,
        ) ==> a.partial_cmp_spec(&c) == Some(Ordering::Less)
}

/// `a` must come out strictly before `b` under priority `p`.
pub open spec fn better<T: PartialOrd>(p: Priority, a: T, b: T) -> bool {
    match p {
        Priority::Least => a.partial_cmp_spec(&b) == Some(Ordering::Less),
        Priority::Greatest => a.partial_cmp_spec(&b) == Some(Ordering::Greater),
    }
}

/// Position of the parent of the node at `i > 0`.
pub open spec fn parent(i: int) -> int {
    (i - 1) / 2
}

/// No node of `s` is preferred over its parent.
pub open spec fn heap_ordered<T: PartialOrd>(p: Priority, s: Seq<T>) -> bool {
    forall|i: int| 0 < i < s.len() ==> !better(p, #[trigger] s[i], s[parent(i)])
}

/// `x` is in `m`, and nothing in `m` is preferred over it.
pub open spec fn is_top<T: PartialOrd>(p: Priority, m: Multiset<T>, x: T) -> bool {
    &&& m.contains(x)
    &&& forall|y: T| m.contains(y) ==> !better(p, y, x)
}

proof fn lemma_order<T: PartialOrd>(p: Priority, a: T, b: T, c: T)
    requires
        total_order::<T>(),
    ensures
        better(p, a, b) ==> !better(p, b, a),
        better(p, a, b) && !better(p, c, b) ==> !better(p, c, a),
        !better(p, a, b) && !better(p, b, c) ==> !better(p, a, c),
{
    let _ = (a.partial_cmp_spec(&b), b.partial_cmp_spec(&a));
    let _ = (a.partial_cmp_spec(&c), c.partial_cmp_spec(&a));
    let _ = (b.partial_cmp_spec(&c), c.partial_cmp_spec(&b));
    lemma_flip(p, a, b);
    lemma_flip(p, b, c);
}

proof fn lemma_flip<T: PartialOrd>(p: Priority, x: T, y: T)
    requires
        total_order::<T>(),
    ensures
        !better(p, x, y) && x != y ==> better(p, y, x),
{
    let _ = (x.partial_cmp_spec(&y), y.partial_cmp_spec(&x));
    if !better(p, x, y) && x != y {
        match p {
            Priority::Least => {
                assert(x.partial_cmp_spec(&y) == Some(Ordering::Greater));
            },
            Priority::Greatest => {
                assert(x.partial_cmp_spec(&y) == Some(Ordering::Less));
            },
        }
    }
}

proof fn lemma_root_is_top<T: PartialOrd>(p: Priority, s: Seq<T>, i: int)
    requires
        total_order::<T>(),
        heap_ordered(p, s),
        0 <= i < s.len(),
    ensures
        !better(p, s[i], s[0]),
    decreases i,
{
    if i > 0 {
        lemma_root_is_top(p, s, parent(i));
        lemma_order(p, s[i], s[parent(i)], s[0]);
    } else {
        lemma_order(p, s[0], s[0], s[0]);
        assert(s[0].partial_cmp_spec(&s[0]) == Some(Ordering::Equal));
    }
}

proof fn lemma_swap_multiset<T>(s: Seq<T>, i: int, j: int)
    requires
        0 <= i < s.len(),
        0 <= j < s.len(),
    ensures
        s.update(i, s[j]).update(j, s[i]).to_multiset() == s.to_multiset(),
{
    let s1 = s.update(i, s[j]);
    vstd::seq_lib::to_multiset_update(s, i, s[j]);
    vstd::seq_lib::to_multiset_update(s1, j, s[i]);
    assert(s1.update(j, s[i]).to_multiset() =~= s.to_multiset());
}

/// Relies on `slice::swap`: exchanges the elements at `i` and `j`.
#[verifier::external_body]
fn swap_items<T>(v: &mut Vec<T>, i: usize, j: usize)
    requires
        i < old(v).len(),
        j < old(v).len(),
    ensures
        final(v)@ == old(v)@.update(i as int, old(v)@[j as int]).update(j as int, old(v)@[i as int]),
{
    v.swap(i, j)
}

/// `out` is what successive removals hand out, in order, from a heap of priority `p` that
/// holds `m`: each value is a top of what the earlier removals left.
pub open spec fn removal_sequence<T: PartialOrd>(p: Priority, m: Multiset<T>, out: Seq<T>) -> bool
    decreases out.len(),
{
    out.len() == 0 || (is_top(p, m, out[0]) && removal_sequence(p, m.remove(out[0]), out.drop_first()))
}

proof fn lemma_removals_held<T: PartialOrd>(p: Priority, m: Multiset<T>, out: Seq<T>)
    requires
        removal_sequence(p, m, out),
    ensures
        forall|k: int| 0 <= k < out.len() ==> m.contains(#[trigger] out[k]),
    decreases out.len(),
{
    if out.len() > 0 {
        lemma_removals_held(p, m.remove(out[0]), out.drop_first());
        assert forall|k: int| 0 <= k < out.len() implies m.contains(#[trigger] out[k]) by {
            if k > 0 {
                assert(out[k] == out.drop_first()[k - 1]);
            }
        }
    }
}

/// Successive removals hand values out in priority order: no value is preferred over
/// one that came out before it.
pub proof fn lemma_removals_in_order<T: PartialOrd>(p: Priority, m: Multiset<T>, out: Seq<T>)
    requires
        total_order::<T>(),
        removal_sequence(p, m, out),
    ensures
        forall|i: int, j: int| 0 <= i < j < out.len() ==> !better(p, #[trigger] out[j], #[trigger] out[i]),
    decreases out.len(),
{
    if out.len() > 0 {
        let rest = out.drop_first();
        lemma_removals_held(p, m.remove(out[0]), rest);
        lemma_removals_in_order(p, m.remove(out[0]), rest);
        assert forall|i: int, j: int| 0 <= i < j < out.len() implies !better(
            p,
            #[trigger] out[j],
            #[trigger] out[i],
        ) by {
            assert(out[j] == rest[j - 1]);
            if i > 0 {
                assert(out[i] == rest[i - 1]);
                assert(!better(p, rest[j - 1], rest[i - 1]));
            } else {
                assert(m.remove(out[0]).contains(rest[j - 1]));
                assert(m.remove(out[0]).count(out[j]) <= m.count(out[j]));
                assert(m.contains(out[j]));
            }
        }
    }
}

/// As many removals as a heap holds values hand out exactly those values.
pub proof fn lemma_removals_exhaust<T: PartialOrd>(p: Priority, m: Multiset<T>, out: Seq<T>)
    requires
        removal_sequence(p, m, out),
        out.len() == m.len(),
    ensures
        out.to_multiset() == m,
    decreases out.len(),
{
    if out.len() == 0 {
        assert(m =~= Multiset::empty());
    } else {
        let rest = out.drop_first();
        lemma_removals_exhaust(p, m.remove(out[0]), rest);
        vstd::seq_lib::lemma_multiset_commutative(seq![out[0]], rest);
        assert(seq![out[0]] + rest =~= out);
        assert(seq![out[0]].to_multiset() =~= Multiset::empty().insert(out[0])) by {
            vstd::seq_lib::to_multiset_build(Seq::<T>::empty(), out[0]);
            assert(Seq::<T>::empty().push(out[0]) =~= seq![out[0]]);
            assert(Seq::<T>::empty().to_multiset() =~= Multiset::empty());
        }
        assert(out.to_multiset() =~= m);
    }
}

/// A binary heap whose order is fixed by a [`Priority`] at construction.
pub struct Heap<T> {
    count: usize,
    items: Vec<T>,
    comparator: Priority,
}

impl<T: Ord> View for Heap<T> {
    type V = Seq<T>;

    closed spec fn view(&self) -> Seq<T> {
        self.items@
    }
}

impl<T: Ord> Heap<T> {
    /// The order the heap was built with.
    pub closed spec fn priority(&self) -> Priority {
        self.comparator
    }

    pub closed spec fn spec_len(&self) -> nat {
        self.count as nat
    }

    /// The elements held, regardless of their positions.
    pub open spec fn contents(&self) -> Multiset<T> {
        self@.to_multiset()
    }

    pub open spec fn well_formed(&self) -> bool {
        &&& total_order::<T>()
        &&& self.spec_len() == self@.len()
        &&& heap_ordered(self.priority(), self@)
    }

    pub fn new(comparator: Priority) -> (h: Self)
        requires
            total_order::<T>(),
        ensures
            h.well_formed(),
            h.priority() == comparator,
            h@.len() == 0,
            h.contents() == Multiset::<T>::empty(),
    {
        Heap { count: 0, items: Vec::new(), comparator }
    }

    pub fn len(&self) -> (r: usize)
        requires
            self.well_formed(),
        ensures
            r == self@.len(),
    {
        self.count
    }

    pub fn is_empty(&self) -> (r: bool)
        requires
            self.well_formed(),
        ensures
            r == (self@.len() == 0),
    {
        self.len() == 0
    }

    fn prefers(&self, a: &T, b: &T) -> (r: bool)
        requires
            total_order::<T>(),
        ensures
            r == better(self.priority(), *a, *b),
    {
        match self.comparator {
            Priority::Least => a < b,
            Priority::Greatest => a > b,
        }
    }

    pub fn add(&mut self, value: T)
        requires
            old(self).well_formed(),
            old(self)@.len() < usize::MAX,
        ensures
            final(self).well_formed(),
            final(self).priority() == old(self).priority(),
            final(self)@.len() == old(self)@.len() + 1,
            final(self).contents() == old(self).contents().insert(value),
    {
        self.count += 1;
        self.items.push(value);
        proof {
            assert(self@.to_multiset() =~= old(self)@.to_multiset().insert(value));
        }
        self.heapify_up(self.count - 1);
    }

    fn parent_idx(&self, idx: usize) -> (r: usize)
        requires
            idx > 0,
        ensures
            r == parent(idx as int),
    {
        (idx - 1) / 2
    }

    fn heapify_up(&mut self, idx: usize)
        requires
            total_order::<T>(),
            old(self).spec_len() == old(self)@.len(),
            idx < old(self)@.len(),
            forall|i: int|
                0 < i < old(self)@.len() && i != idx ==> !better(
                    old(self).priority(),
                    #[trigger] old(self)@[i],
                    old(self)@[parent(i)],
                ),
            forall|i: int|
                0 < i < old(self)@.len() && parent(i) == idx && idx > 0 ==> !better(
                    old(self).priority(),
                    #[trigger] old(self)@[i],
                    old(self)@[parent(idx as int)],
                ),
        ensures
            final(self).well_formed(),
            final(self).priority() == old(self).priority(),
            final(self)@.len() == old(self)@.len(),
            final(self).contents() == old(self).contents(),
    {
        let mut idx = idx;
        while idx > 0
            invariant
                total_order::<T>(),
                self.spec_len() == self@.len(),
                self.priority() == old(self).priority(),
                self@.len() == old(self)@.len(),
                self.contents() == old(self).contents(),
                idx < self@.len(),
                forall|i: int|
                    0 < i < self@.len() && i != idx ==> !better(
                        self.priority(),
                        #[trigger] self@[i],
                        self@[parent(i)],
                    ),
                forall|i: int|
                    0 < i < self@.len() && parent(i) == idx && idx > 0 ==> !better(
                        self.priority(),
                        #[trigger] self@[i],
                        self@[parent(idx as int)],
                    ),
            ensures
                heap_ordered(self.priority(), self@),
                self.spec_len() == self@.len(),
                self.priority() == old(self).priority(),
                self@.len() == old(self)@.len(),
                self.contents() == old(self).contents(),
            decreases idx,
        {
            let parent_idx = self.parent_idx(idx);
            if self.prefers(&self.items[idx], &self.items[parent_idx]) {
                let ghost s = self@;
                let ghost p = self.priority();
                swap_items(&mut self.items, idx, parent_idx);
                proof {
                    lemma_swap_multiset(s, idx as int, parent_idx as int);
                    let k = idx as int;
                    let pk = parent_idx as int;
                    lemma_order(p, s[k], s[pk], s[k]);
                    assert forall|i: int|
                        0 < i < self@.len() && i != pk implies !better(
                            p,
                            #[trigger] self@[i],
                            self@[parent(i)],
                        ) by {
                        if i == k {
                            lemma_order(p, s[k], s[pk], s[pk]);
                        } else if parent(i) == k {
                        } else if parent(i) == pk {
                            lemma_order(p, s[k], s[pk], s[i]);
                        }
                    }
                    assert forall|i: int|
                        0 < i < self@.len() && parent(i) == pk && pk > 0 implies !better(
                            p,
                            #[trigger] self@[i],
                            self@[parent(pk)],
                        ) by {
                        if i == k {
                        } else {
                            lemma_order(p, s[i], s[pk], s[parent(pk)]);
                        }
                    }
                }
                idx = parent_idx;
            } else {
                break;
            }
        }
    }

    fn children_present(&self, idx: usize) -> (r: bool)
        requires
            self.spec_len() == self@.len(),
        ensures
            r == (2 * idx + 1 < self@.len()),
    {
        idx < self.count / 2
    }

    fn left_child_idx(&self, idx: usize) -> (r: usize)
        requires
            self.spec_len() == self@.len(),
            2 * idx + 1 < self@.len(),
        ensures
            r == 2 * idx + 1,
    {
        idx * 2 + 1
    }

    fn right_child_idx(&self, idx: usize) -> (r: usize)
        requires
            self.spec_len() == self@.len(),
            2 * idx + 1 < self@.len(),
        ensures
            r == 2 * idx + 2,
    {
        self.left_child_idx(idx) + 1
    }

    /// The child of `idx` that comes out first: the left one unless the right one is preferred.
    fn smallest_child_idx(&self, idx: usize) -> (r: usize)
        requires
            total_order::<T>(),
            self.spec_len() == self@.len(),
            2 * idx + 1 < self@.len(),
        ensures
            r < self@.len(),
            parent(r as int) == idx,
            r == 2 * idx + 1 || r == 2 * idx + 2,
            forall|c: int|
                0 < c < self@.len() && parent(c) == idx ==> !better(
                    self.priority(),
                    #[trigger] self@[c],
                    self@[r as int],
                ),
    {
        let left_child = self.left_child_idx(idx);
        let right_child = self.right_child_idx(idx);
        proof {
            assert(parent(left_child as int) == idx);
            assert(parent(right_child as int) == idx);
            assert forall|c: int| 0 < c && parent(c) == idx implies c == left_child || c
                == right_child by {}
        }
        if right_child >= self.count {
            proof {
                lemma_flip(self.priority(), self@[left_child as int], self@[left_child as int]);
            }
            left_child
        } else if self.prefers(&self.items[left_child], &self.items[right_child]) {
            proof {
                let (l, r) = (self@[left_child as int], self@[right_child as int]);
                lemma_order(self.priority(), l, r, l);
                lemma_flip(self.priority(), l, l);
            }
            left_child
        } else {
            proof {
                let r = self@[right_child as int];
                lemma_flip(self.priority(), r, r);
            }
            right_child
        }
    }

    fn heapify_down(&mut self, idx: usize)
        requires
            total_order::<T>(),
            old(self).spec_len() == old(self)@.len(),
            idx < old(self)@.len(),
            forall|i: int|
                0 < i < old(self)@.len() && parent(i) != idx ==> !better(
                    old(self).priority(),
                    #[trigger] old(self)@[i],
                    old(self)@[parent(i)],
                ),
            forall|i: int|
                0 < i < old(self)@.len() && parent(i) == idx && idx > 0 ==> !better(
                    old(self).priority(),
                    #[trigger] old(self)@[i],
                    old(self)@[parent(idx as int)],
                ),
        ensures
            final(self).well_formed(),
            final(self).priority() == old(self).priority(),
            final(self)@.len() == old(self)@.len(),
            final(self).contents() == old(self).contents(),
    {
        let mut idx = idx;
        while self.children_present(idx)
            invariant
                total_order::<T>(),
                self.spec_len() == self@.len(),
                self.priority() == old(self).priority(),
                self@.len() == old(self)@.len(),
                self.contents() == old(self).contents(),
                idx < self@.len(),
                forall|i: int|
                    0 < i < self@.len() && parent(i) != idx ==> !better(
                        self.priority(),
                        #[trigger] self@[i],
                        self@[parent(i)],
                    ),
                forall|i: int|
                    0 < i < self@.len() && parent(i) == idx && idx > 0 ==> !better(
                        self.priority(),
                        #[trigger] self@[i],
                        self@[parent(idx as int)],
                    ),
            ensures
                heap_ordered(self.priority(), self@),
                self.spec_len() == self@.len(),
                self.priority() == old(self).priority(),
                self@.len() == old(self)@.len(),
                self.contents() == old(self).contents(),
            decreases self@.len() - idx,
        {
            let smallest_child_idx = self.smallest_child_idx(idx);
            let ghost s = self@;
            let ghost p = self.priority();
            if self.prefers(&self.items[smallest_child_idx], &self.items[idx]) {
                swap_items(&mut self.items, idx, smallest_child_idx);
                proof {
                    lemma_swap_multiset(s, idx as int, smallest_child_idx as int);
                    let k = idx as int;
                    let c = smallest_child_idx as int;
                    lemma_order(p, s[c], s[k], s[c]);
                    assert forall|i: int|
                        0 < i < self@.len() && parent(i) != c implies !better(
                            p,
                            #[trigger] self@[i],
                            self@[parent(i)],
                        ) by {
                        if i == c {
                        } else if i == k {
                        } else if parent(i) == k {
                        } else if parent(i) == c {
                        }
                    }
                    assert forall|i: int|
                        0 < i < self@.len() && parent(i) == c && c > 0 implies !better(
                            p,
                            #[trigger] self@[i],
                            self@[parent(c)],
                        ) by {
                        assert(s[i] == self@[i]);
                        assert(parent(i) != k);
                    }
                }
                idx = smallest_child_idx;
            } else {
                proof {
                    assert forall|i: int|
                        0 < i < self@.len() && parent(i) == idx implies !better(
                            p,
                            #[trigger] self@[i],
                            self@[parent(i)],
                        ) by {
                        lemma_order(p, s[i], s[smallest_child_idx as int], s[idx as int]);
                    }
                }
                break;
            }
        }
    }

    /// Removes and returns the element that comes first, or `None` when the heap is empty.
    pub fn next(&mut self) -> (r: Option<T>)
        requires
            old(self).well_formed(),
        ensures
            final(self).well_formed(),
            final(self).priority() == old(self).priority(),
            old(self)@.len() == 0 ==> r is None && final(self)@ == old(self)@,
            old(self)@.len() > 0 ==> {
                &&& r matches Some(x)
                &&& is_top(old(self).priority(), old(self).contents(), x)
                &&& final(self).contents() == old(self).contents().remove(x)
                &&& final(self)@.len() == old(self)@.len() - 1
            },
    {
        if self.is_empty() {
            None
        } else {
            let ghost s = self@;
            let ghost p = self.priority();
            let result = self.items.swap_remove(0);
            self.count -= 1;
            proof {
                vstd::seq_lib::to_multiset_update(s, 0, s.last());
                vstd::seq_lib::to_multiset_remove(s.update(0, s.last()), s.len() - 1);
                assert(s.update(0, s.last()).remove(s.len() - 1) =~= self@);
                assert(self@.to_multiset() =~= s.to_multiset().remove(s[0]));
                assert forall|y: T| s.to_multiset().contains(y) implies !better(p, y, s[0]) by {
                    let i = choose|i: int| 0 <= i < s.len() && s[i] == y;
                    lemma_root_is_top(p, s, i);
                }
                assert(s.to_multiset().contains(s[0])) by {
                    assert(s.contains(s[0]));
                }
                assert forall|i: int|
                    0 < i < self@.len() && parent(i) != 0 implies !better(
                        p,
                        #[trigger] self@[i],
                        self@[parent(i)],
                    ) by {
                    assert(self@[i] == s[i]);
                    assert(self@[parent(i)] == s[parent(i)]);
                }
            }
            if self.count > 0 {
                self.heapify_down(0);
            }
            Some(result)
        }
    }
}

impl<T: Ord> Heap<T> {
    /// A heap that hands out its least element first.
    pub fn new_min() -> (h: Self)
        requires
            total_order::<T>(),
        ensures
            h.well_formed(),
            h.priority() == Priority::Least,
            h@.len() == 0,
            h.contents() == Multiset::<T>::empty(),
    {
        Self::new(Priority::Least)
    }

    /// A heap that hands out its greatest element first.
    pub fn new_max() -> (h: Self)
        requires
            total_order::<T>(),
        ensures
            h.well_formed(),
            h.priority() == Priority::Greatest,
            h@.len() == 0,
            h.contents() == Multiset::<T>::empty(),
    {
        Self::new(Priority::Greatest)
    }
}

pub struct MinHeap;

impl MinHeap {
    #[allow(clippy::new_ret_no_self)]
    pub fn new<T: Ord>() -> (h: Heap<T>)
        requires
            total_order::<T>(),
        ensures
            h.well_formed(),
            h.priority() == Priority::Least,
            h@.len() == 0,
            h.contents() == Multiset::<T>::empty(),
    {
        Heap::new_min()
    }
}

pub struct MaxHeap;

impl MaxHeap {
    #[allow(clippy::new_ret_no_self)]
    pub fn new<T: Ord>() -> (h: Heap<T>)
        requires
            total_order::<T>(),
        ensures
            h.well_formed(),
            h.priority() == Priority::Greatest,
            h@.len() == 0,
            h.contents() == Multiset::<T>::empty(),
    {
        Heap::new_max()
    }
}

} // verus!
