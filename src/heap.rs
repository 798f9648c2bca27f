use vstd::laws_cmp::obeys_cmp;
use vstd::multiset::Multiset;
use vstd::prelude::*;
use vstd::std_specs::cmp::PartialOrdIs;

verus! {

/// A rule that decides which of two items must sit nearer the top of a heap.
pub trait Comparator<T>: Sized {
    /// Whether the rule is well behaved, so that `higher` is a strict weak order.
    spec fn lawful(&self) -> bool;

    /// Whether `a` must sit above `b`.
    spec fn higher(&self, a: T, b: T) -> bool;

    /// A well-behaved rule never holds both ways, and "may sit above"
    /// (`!higher(b, a)`) is transitive.
    proof fn lemma_strict_weak_order(&self)
        requires
            self.lawful(),
        ensures
            forall|a: T, b: T| #[trigger] self.higher(a, b) ==> !self.higher(b, a),
            forall|a: T, b: T, d: T|
                !#[trigger] self.higher(a, b) && !#[trigger] self.higher(b, d) ==> !self.higher(a, d),
    ;

    /// Decides whether `a` must sit above `b`.
    fn higher_priority(&self, a: &T, b: &T) -> (r: bool)
        requires
            self.lawful(),
        ensures
            r == self.higher(*a, *b),
    ;
}

/// Orders a heap with the smallest item on top.
pub struct MinHeap;

/// Orders a heap with the largest item on top.
pub struct MaxHeap;

impl<T: Ord> Comparator<T> for MinHeap {
    open spec fn lawful(&self) -> bool {
        obeys_cmp::<T>()
    }

    open spec fn higher(&self, a: T, b: T) -> bool {
        a.is_lt(&b)
    }

    proof fn lemma_strict_weak_order(&self) {
        reveal(vstd::laws_cmp::obeys_partial_cmp_spec_properties);
        reveal(vstd::laws_cmp::obeys_cmp_partial_ord);
        reveal(vstd::laws_cmp::obeys_cmp_ord);
        reveal(vstd::laws_eq::obeys_eq_spec_properties);
    }

    fn higher_priority(&self, a: &T, b: &T) -> (r: bool) {
        proof {
            reveal(vstd::laws_cmp::obeys_cmp_partial_ord);
        }
        a < b
    }
}

impl<T: Ord> Comparator<T> for MaxHeap {
    open spec fn lawful(&self) -> bool {
        obeys_cmp::<T>()
    }

    open spec fn higher(&self, a: T, b: T) -> bool {
        a.is_gt(&b)
    }

    proof fn lemma_strict_weak_order(&self) {
        reveal(vstd::laws_cmp::obeys_partial_cmp_spec_properties);
        reveal(vstd::laws_cmp::obeys_cmp_partial_ord);
        reveal(vstd::laws_cmp::obeys_cmp_ord);
        reveal(vstd::laws_eq::obeys_eq_spec_properties);
    }

    fn higher_priority(&self, a: &T, b: &T) -> (r: bool) {
        proof {
            reveal(vstd::laws_cmp::obeys_cmp_partial_ord);
        }
        a > b
    }
}

/// `r` is one of the items of `m`, and no item of `m` must sit above it.
pub open spec fn is_top<T, C: Comparator<T>>(c: &C, m: Multiset<T>, r: T) -> bool {
    &&& m.count(r) > 0
    &&& forall|x: T| #[trigger] m.count(x) > 0 ==> !c.higher(x, r)
}

/// One extraction from a heap that held `before`: nothing comes out of an
/// empty heap, and otherwise a top item comes out and leaves the contents.
pub open spec fn extract_step<T, C: Comparator<T>>(
    c: &C,
    before: Multiset<T>,
    r: Option<T>,
    after: Multiset<T>,
) -> bool {
    match r {
        None => before.len() == 0 && after == before,
        Some(x) => is_top(c, before, x) && after == before.remove(x),
    }
}

/// The item at 1-based position `p` does not have to sit above its parent.
pub open spec fn edge_ok<T, C: Comparator<T>>(c: &C, s: Seq<T>, p: int) -> bool {
    !c.higher(s[p - 1], s[p / 2 - 1])
}

/// Every item may sit below its parent, but perhaps the one at position `hole`.
pub open spec fn ordered_except<T, C: Comparator<T>>(c: &C, s: Seq<T>, hole: int) -> bool {
    forall|p: int| 1 < p <= s.len() && p != hole ==> #[trigger] edge_ok(c, s, p)
}

/// Every item may sit below its parent, but perhaps the children of `top`.
pub open spec fn ordered_below<T, C: Comparator<T>>(c: &C, s: Seq<T>, top: int) -> bool {
    forall|p: int| 1 < p <= s.len() && p / 2 != top ==> #[trigger] edge_ok(c, s, p)
}

/// The heap order: no item has to sit above its parent.
pub open spec fn heap_ordered<T, C: Comparator<T>>(c: &C, s: Seq<T>) -> bool {
    forall|p: int| 1 < p <= s.len() ==> #[trigger] edge_ok(c, s, p)
}

/// In a heap-ordered sequence, nothing has to sit above the root.
proof fn lemma_root_on_top<T, C: Comparator<T>>(c: &C, s: Seq<T>)
    requires
        c.lawful(),
        heap_ordered(c, s),
    ensures
        forall|p: int| 1 <= p <= s.len() ==> !c.higher(#[trigger] s[p - 1], s[0]),
{
    assert forall|p: int| 1 <= p <= s.len() implies !c.higher(#[trigger] s[p - 1], s[0]) by {
        lemma_below_root(c, s, p);
    }
}

proof fn lemma_below_root<T, C: Comparator<T>>(c: &C, s: Seq<T>, p: int)
    requires
        c.lawful(),
        heap_ordered(c, s),
        1 <= p <= s.len(),
    ensures
        !c.higher(s[p - 1], s[0]),
    decreases p,
{
    c.lemma_strict_weak_order();
    if p > 1 {
        lemma_below_root(c, s, p / 2);
        assert(edge_ok(c, s, p));
    } else {
        // `higher` never holds both ways, so never of an item and itself.
        assert(c.higher(s[0], s[0]) ==> !c.higher(s[0], s[0]));
    }
}

/// Exchanges the items at indices `i` and `j`.
fn swap_items<T>(v: &mut Vec<T>, i: usize, j: usize)
    requires
        i < old(v)@.len(),
        j < old(v)@.len(),
    ensures
        final(v)@ == old(v)@.update(i as int, old(v)@[j as int]).update(j as int, old(v)@[i as int]),
        final(v)@.to_multiset() == old(v)@.to_multiset(),
{
    broadcast use vstd::seq_lib::group_to_multiset_ensures;
    broadcast use vstd::multiset::group_multiset_axioms;

    let ghost s = v@;
    if i != j {
        let mut spare = v.pop().unwrap();
        let last = v.len();
        if i == last {
            core::mem::swap(&mut v[j], &mut spare);
        } else if j == last {
            core::mem::swap(&mut v[i], &mut spare);
        } else {
            core::mem::swap(&mut v[j], &mut spare);
            core::mem::swap(&mut v[i], &mut spare);
            core::mem::swap(&mut v[j], &mut spare);
        }
        v.push(spare);
        assert(v@ =~= s.update(i as int, s[j as int]).update(j as int, s[i as int]));
        let ghost s1 = s.update(i as int, s[j as int]);
        assert(s1.to_multiset() =~= s.to_multiset().insert(s[j as int]).remove(s[i as int]));
        assert(v@.to_multiset() =~= s1.to_multiset().insert(s[i as int]).remove(s1[j as int]));
        assert(v@.to_multiset() =~= s.to_multiset());
    } else {
        assert(v@ =~= s.update(i as int, s[j as int]).update(j as int, s[i as int]));
    }
}

/// A binary heap: items kept as an implicit tree in which the item at
/// 1-based position `p` has its children at `2p` and `2p + 1`, ordered so
/// that no item has to sit above its parent.
pub struct Heap<T, C> {
    count: usize,
    items: Vec<T>,
    comparator: C,
}

impl<T, C: Comparator<T>> View for Heap<T, C> {
    type V = Seq<T>;

    /// The items in tree order: position `p` is index `p - 1`.
    closed spec fn view(&self) -> Seq<T> {
        self.items@
    }
}

impl<T, C: Comparator<T>> Heap<T, C> {
    /// The rule that orders this heap.
    pub closed spec fn rule(&self) -> C {
        self.comparator
    }

    /// What the heap holds, in no order.
    pub open spec fn contents(&self) -> Multiset<T> {
        self@.to_multiset()
    }

    /// The length is tracked, leaves room for index arithmetic, and the items
    /// are in heap order under a well-behaved rule.
    pub closed spec fn wf(&self) -> bool {
        &&& self.count == self.items@.len()
        &&& self.count < usize::MAX
        &&& self.comparator.lawful()
        &&& heap_ordered(&self.comparator, self.items@)
    }

    /// An empty heap ordered by `comparator`.
    pub fn new(comparator: C) -> (h: Self)
        requires
            comparator.lawful(),
        ensures
            h.wf(),
            h@ == Seq::<T>::empty(),
            h.rule() == comparator,
    {
        Heap { count: 0, items: Vec::new(), comparator }
    }

    pub fn len(&self) -> (r: usize)
        requires
            self.wf(),
        ensures
            r == self@.len(),
    {
        self.count
    }

    pub fn is_empty(&self) -> (r: bool)
        requires
            self.wf(),
        ensures
            r == (self@.len() == 0),
    {
        self.len() == 0
    }

    /// Inserts `value`, moving it up past every parent that does not have to
    /// sit above it.
    pub fn add(&mut self, value: T)
        requires
            old(self).wf(),
            old(self)@.len() + 1 < usize::MAX,
        ensures
            final(self).wf(),
            final(self).rule() == old(self).rule(),
            final(self)@.len() == old(self)@.len() + 1,
            final(self).contents() == old(self).contents().insert(value),
    {
        broadcast use vstd::seq_lib::group_to_multiset_ensures;

        proof {
            self.comparator.lemma_strict_weak_order();
        }
        let ghost target = self.items@.to_multiset().insert(value);
        let ghost s0 = self.items@;
        self.items.push(value);
        self.count += 1;
        let mut idx = self.count;
        assert forall|p: int|
            1 < p <= self.items@.len() && p != idx as int implies #[trigger] edge_ok(
            &self.comparator,
            self.items@,
            p,
        ) by {
            assert(edge_ok(&self.comparator, s0, p));
        }
        while idx > 1
            invariant
                self.count == self.items@.len(),
                self.count == old(self)@.len() + 1,
                self.count < usize::MAX,
                1 <= idx <= self.count,
                self.comparator == old(self).comparator,
                self.comparator.lawful(),
                self.items@.to_multiset() == target,
                ordered_except(&self.comparator, self.items@, idx as int),
                idx > 1 ==> forall|p: int|
                    1 < p <= self.items@.len() && p / 2 == idx ==> !self.comparator.higher(
                        #[trigger] self.items@[p - 1],
                        self.items@[idx / 2 - 1],
                    ),
            ensures
                heap_ordered(&self.comparator, self.items@),
            decreases idx,
        {
            proof {
                self.comparator.lemma_strict_weak_order();
            }
            let parent = self.parent_idx(idx);
            if self.comparator.higher_priority(&self.items[parent - 1], &self.items[idx - 1]) {
                assert(edge_ok(&self.comparator, self.items@, idx as int));
                break;
            }
            let ghost s = self.items@;
            swap_items(&mut self.items, parent - 1, idx - 1);
            proof {
                let c = &self.comparator;
                let t = self.items@;
                assert forall|p: int| 1 < p <= t.len() && p != parent as int implies #[trigger] edge_ok(c, t, p) by {
                    if p == idx as int {
                    } else if p / 2 == idx as int {
                        assert(s[p - 1] == t[p - 1]);
                    } else if p / 2 == parent as int {
                        assert(edge_ok(c, s, p));
                        assert(!c.higher(s[p - 1], s[parent - 1]));
                        assert(!c.higher(s[parent - 1], s[idx - 1]));
                    } else if p == parent as int {
                    } else {
                        assert(edge_ok(c, s, p));
                    }
                }
                if parent > 1 {
                    assert forall|p: int|
                        1 < p <= t.len() && p / 2 == parent as int implies !c.higher(
                        #[trigger] t[p - 1],
                        t[parent / 2 - 1],
                    ) by {
                        assert(edge_ok(c, s, parent as int));
                        if p != idx as int {
                            assert(edge_ok(c, s, p));
                        }
                    }
                }
            }
            idx = parent;
        }
    }

    /// Removes and returns a top item: the root changes place with the last
    /// item, which then moves down past every child that must sit above it.
    /// Nothing comes out of an empty heap.
    pub fn next(&mut self) -> (r: Option<T>)
        requires
            old(self).wf(),
        ensures
            final(self).wf(),
            final(self).rule() == old(self).rule(),
            extract_step(&old(self).rule(), old(self).contents(), r, final(self).contents()),
            r is Some <==> old(self)@.len() > 0,
            final(self)@.len() == if r is Some {
                old(self)@.len() - 1
            } else {
                old(self)@.len() as int
            },
    {
        broadcast use vstd::seq_lib::group_to_multiset_ensures;
        broadcast use vstd::multiset::group_multiset_axioms;

        if self.is_empty() {
            return None;
        }
        let ghost s = self.items@;
        proof {
            lemma_root_on_top(&self.comparator, s);
            assert(s.contains(s[0]));
            assert forall|x: T| #[trigger] s.to_multiset().count(x) > 0 implies !self.comparator.higher(x, s[0]) by {
                assert(s.contains(x));
                let i = choose|i: int| 0 <= i < s.len() && s[i] == x;
                assert(s[(i + 1) - 1] == x);
            }
        }
        swap_items(&mut self.items, 0, self.count - 1);
        let ghost t = self.items@;
        let result = self.items.pop().unwrap();
        self.count -= 1;
        proof {
            assert(t == self.items@.push(result));
            assert(self.items@.to_multiset() =~= s.to_multiset().remove(result));
            assert forall|p: int|
                1 < p <= self.items@.len() && p / 2 != 1 implies #[trigger] edge_ok(
                &self.comparator,
                self.items@,
                p,
            ) by {
                assert(edge_ok(&self.comparator, s, p));
            }
        }
        let ghost target = self.items@.to_multiset();
        if self.count != 0 {
            let mut idx: usize = 1;
            while self.children_present(idx)
                invariant
                    self.count == self.items@.len(),
                    self.count == old(self)@.len() - 1,
                    self.count < usize::MAX,
                    1 <= idx <= self.count,
                    self.comparator == old(self).comparator,
                    self.comparator.lawful(),
                    self.items@.to_multiset() == target,
                    ordered_below(&self.comparator, self.items@, idx as int),
                    idx > 1 ==> forall|p: int|
                        1 < p <= self.items@.len() && p / 2 == idx ==> !self.comparator.higher(
                            #[trigger] self.items@[p - 1],
                            self.items@[idx / 2 - 1],
                        ),
                ensures
                    heap_ordered(&self.comparator, self.items@),
                decreases self.count - idx,
            {
                proof {
                    self.comparator.lemma_strict_weak_order();
                }
                let child = self.smallest_child_idx(idx);
                let ghost a = self.items@;
                let ghost c = self.comparator;
                proof {
                    let other = if child == 2 * idx {
                        2 * idx + 1
                    } else {
                        2 * idx
                    };
                    if other <= a.len() {
                        if child == 2 * idx + 1 {
                            assert(c.higher(a[child - 1], a[other - 1]));
                        }
                        assert(!c.higher(a[other - 1], a[child - 1]));
                    }
                }
                if self.comparator.higher_priority(&self.items[idx - 1], &self.items[child - 1]) {
                    proof {
                        assert forall|p: int| 1 < p <= a.len() implies #[trigger] edge_ok(&c, a, p) by {
                            if p / 2 == idx as int && p != child as int {
                                assert(!c.higher(a[p - 1], a[child - 1]));
                                assert(!c.higher(a[child - 1], a[idx - 1]));
                            }
                        }
                    }
                    break;
                }
                swap_items(&mut self.items, idx - 1, child - 1);
                proof {
                    let t = self.items@;
                    assert forall|p: int|
                        1 < p <= t.len() && p / 2 != child as int implies #[trigger] edge_ok(&c, t, p) by {
                        if p == child as int {
                        } else if p / 2 == idx as int {
                            assert(!c.higher(a[p - 1], a[child - 1]));
                        } else if p == idx as int {
                            assert(!c.higher(a[child - 1], a[idx / 2 - 1]));
                        } else {
                            assert(edge_ok(&c, a, p));
                        }
                    }
                    assert forall|p: int|
                        1 < p <= t.len() && p / 2 == child as int implies !c.higher(
                        #[trigger] t[p - 1],
                        t[child / 2 - 1],
                    ) by {
                        assert(edge_ok(&c, a, p));
                    }
                }
                idx = child;
            }
        }
        Some(result)
    }

    fn parent_idx(&self, idx: usize) -> (r: usize)
        ensures
            r == idx / 2,
    {
        idx / 2
    }

    /// Whether the item at `idx` has a left child.
    fn children_present(&self, idx: usize) -> (r: bool)
        ensures
            r == (2 * idx <= self.count),
    {
        idx <= self.count / 2
    }

    fn left_child_idx(&self, idx: usize) -> (r: usize)
        requires
            2 * idx <= usize::MAX,
        ensures
            r == 2 * idx,
    {
        idx * 2
    }

    fn right_child_idx(&self, idx: usize) -> (r: usize)
        requires
            2 * idx + 1 <= usize::MAX,
        ensures
            r == 2 * idx + 1,
    {
        self.left_child_idx(idx) + 1
    }

    /// The child of `idx` to compare against when moving an item down: the
    /// right one where it exists and must sit above the left one, else the
    /// left one.
    fn smallest_child_idx(&self, idx: usize) -> (r: usize)
        requires
            self.count == self.items@.len(),
            self.count < usize::MAX,
            self.comparator.lawful(),
            1 <= idx,
            2 * idx <= self.count,
        ensures
            2 * idx + 1 <= self.count && self.comparator.higher(
                self.items@[2 * idx as int],
                self.items@[2 * idx - 1],
            ) ==> r == 2 * idx + 1,
            !(2 * idx + 1 <= self.count && self.comparator.higher(
                self.items@[2 * idx as int],
                self.items@[2 * idx - 1],
            )) ==> r == 2 * idx,
    {
        let left = self.left_child_idx(idx);
        let right = self.right_child_idx(idx);
        if right <= self.count && self.comparator.higher_priority(
            &self.items[right - 1],
            &self.items[left - 1],
        ) {
            return right;
        }
        left
    }
}

impl<T: Ord> Heap<T, MinHeap> {
    /// An empty heap with the smallest item on top.
    pub fn new_min() -> (h: Self)
        requires
            obeys_cmp::<T>(),
        ensures
            h.wf(),
            h@ == Seq::<T>::empty(),
            h.rule() == MinHeap,
    {
        Self::new(MinHeap)
    }
}

impl<T: Ord> Heap<T, MaxHeap> {
    /// An empty heap with the largest item on top.
    pub fn new_max() -> (h: Self)
        requires
            obeys_cmp::<T>(),
        ensures
            h.wf(),
            h@ == Seq::<T>::empty(),
            h.rule() == MaxHeap,
    {
        Self::new(MaxHeap)
    }
}

impl MinHeap {
    /// An empty heap with the smallest item on top.
    pub fn new<T: Ord>() -> (h: Heap<T, MinHeap>)
        requires
            obeys_cmp::<T>(),
        ensures
            h.wf(),
            h@ == Seq::<T>::empty(),
            h.rule() == MinHeap,
    {
        Heap::new(MinHeap)
    }
}

impl MaxHeap {
    /// An empty heap with the largest item on top.
    pub fn new<T: Ord>() -> (h: Heap<T, MaxHeap>)
        requires
            obeys_cmp::<T>(),
        ensures
            h.wf(),
            h@ == Seq::<T>::empty(),
            h.rule() == MaxHeap,
    {
        Heap::new(MaxHeap)
    }
}

/// `out` is what successive extractions hand back, in order, from a heap
/// ordered by `c` that holds `m`.
pub open spec fn extracted<T, C: Comparator<T>>(c: &C, m: Multiset<T>, out: Seq<T>) -> bool
    decreases out.len(),
{
    if out.len() == 0 {
        true
    } else {
        &&& extract_step(c, m, Some(out[0]), m.remove(out[0]))
        &&& extracted(c, m.remove(out[0]), out.drop_first())
    }
}

/// What successive extractions hand back is part of what the heap held.
proof fn lemma_extracted_within<T, C: Comparator<T>>(c: &C, m: Multiset<T>, out: Seq<T>)
    requires
        extracted(c, m, out),
    ensures
        out.to_multiset().subset_of(m),
    decreases out.len(),
{
    broadcast use vstd::seq_lib::group_to_multiset_ensures;
    broadcast use vstd::multiset::group_multiset_axioms;

    if out.len() > 0 {
        let rest = out.drop_first();
        lemma_extracted_within(c, m.remove(out[0]), rest);
        assert(out == seq![out[0]] + rest);
        vstd::seq_lib::lemma_multiset_commutative(seq![out[0]], rest);
        assert(seq![out[0]].to_multiset() =~= Multiset::singleton(out[0])) by {
            assert(seq![out[0]] == Seq::<T>::empty().push(out[0]));
        }
        assert forall|x: T| out.to_multiset().count(x) <= m.count(x) by {
            assert(out.to_multiset().count(x) == rest.to_multiset().count(x) + Multiset::singleton(
                out[0],
            ).count(x));
        }
    }
}

/// Items come out of a heap in order: no item handed back later has to sit
/// above one handed back earlier, and extracting as many items as the heap
/// held hands back exactly what it held.
pub proof fn lemma_extraction_order<T, C: Comparator<T>>(c: &C, m: Multiset<T>, out: Seq<T>)
    requires
        extracted(c, m, out),
    ensures
        forall|i: int, j: int| 0 <= i < j < out.len() ==> !c.higher(#[trigger] out[j], #[trigger] out[i]),
        out.len() == m.len() ==> out.to_multiset() == m,
    decreases out.len(),
{
    broadcast use vstd::seq_lib::group_to_multiset_ensures;
    broadcast use vstd::multiset::group_multiset_axioms;

    if out.len() > 0 {
        let rest = out.drop_first();
        let m1 = m.remove(out[0]);
        lemma_extraction_order(c, m1, rest);
        lemma_extracted_within(c, m1, rest);
        assert forall|i: int, j: int| 0 <= i < j < out.len() implies !c.higher(
            #[trigger] out[j],
            #[trigger] out[i],
        ) by {
            if i == 0 {
                assert(rest[j - 1] == out[j]);
                assert(rest.contains(out[j]));
                assert(rest.to_multiset().count(out[j]) > 0);
                assert(m1.count(out[j]) > 0);
            } else {
                assert(rest[j - 1] == out[j] && rest[i - 1] == out[i]);
            }
        }
        if out.len() == m.len() {
            assert(rest.len() == m1.len());
            assert(out == seq![out[0]] + rest);
            vstd::seq_lib::lemma_multiset_commutative(seq![out[0]], rest);
            assert(seq![out[0]].to_multiset() =~= Multiset::singleton(out[0])) by {
                assert(seq![out[0]] == Seq::<T>::empty().push(out[0]));
            }
            assert(out.to_multiset() =~= m);
        }
    } else {
        if m.len() == 0 {
            assert(out.to_multiset() =~= m);
        }
    }
}

/// A heap with the smallest item on top hands its items back in ascending order.
pub proof fn lemma_min_heap_ascending<T: Ord>(m: Multiset<T>, out: Seq<T>)
    requires
        obeys_cmp::<T>(),
        extracted(&MinHeap, m, out),
    ensures
        forall|i: int, j: int|
            #![trigger out[i], out[j]]
            0 <= i < j < out.len() ==> out[i].is_le(&out[j]),
{
    lemma_extraction_order(&MinHeap, m, out);
    reveal(vstd::laws_cmp::obeys_partial_cmp_spec_properties);
    reveal(vstd::laws_cmp::obeys_cmp_ord);
    assert forall|i: int, j: int|
        #![trigger out[i], out[j]]
        0 <= i < j < out.len() implies out[i].is_le(&out[j]) by {
        assert(!out[j].is_lt(&out[i]));
    }
}

/// A heap with the largest item on top hands its items back in descending order.
pub proof fn lemma_max_heap_descending<T: Ord>(m: Multiset<T>, out: Seq<T>)
    requires
        obeys_cmp::<T>(),
        extracted(&MaxHeap, m, out),
    ensures
        forall|i: int, j: int|
            #![trigger out[i], out[j]]
            0 <= i < j < out.len() ==> out[i].is_ge(&out[j]),
{
    lemma_extraction_order(&MaxHeap, m, out);
    reveal(vstd::laws_cmp::obeys_partial_cmp_spec_properties);
    reveal(vstd::laws_cmp::obeys_cmp_ord);
    assert forall|i: int, j: int|
        #![trigger out[i], out[j]]
        0 <= i < j < out.len() implies out[i].is_ge(&out[j]) by {
        assert(!out[j].is_gt(&out[i]));
    }
}

/// Nothing comes out of a newly made heap.
pub proof fn lemma_new_heap_yields_nothing<T, C: Comparator<T>>(
    c: &C,
    r: Option<T>,
    after: Multiset<T>,
)
    requires
        extract_step(c, Seq::<T>::empty().to_multiset(), r, after),
    ensures
        r is None,
{
    broadcast use vstd::seq_lib::group_to_multiset_ensures;

}

/// One operation on a heap as its caller sees it: an insertion, or an
/// extraction with what it handed back.
pub enum HeapOp<T> {
    Add(T),
    Next(Option<T>),
}

/// The contents `before` become `after` through `op`, as `add` and `next` state.
pub open spec fn op_step<T, C: Comparator<T>>(
    c: &C,
    before: Multiset<T>,
    op: HeapOp<T>,
    after: Multiset<T>,
) -> bool {
    match op {
        HeapOp::Add(v) => after == before.insert(v),
        HeapOp::Next(r) => extract_step(c, before, r, after),
    }
}

/// The number of insertions among `ops`.
pub open spec fn insertions<T>(ops: Seq<HeapOp<T>>) -> nat
    decreases ops.len(),
{
    if ops.len() == 0 {
        0
    } else {
        insertions(ops.drop_last()) + if ops.last() is Add {
            1nat
        } else {
            0nat
        }
    }
}

/// The number of extractions among `ops` that handed an item back.
pub open spec fn extractions<T>(ops: Seq<HeapOp<T>>) -> nat
    decreases ops.len(),
{
    if ops.len() == 0 {
        0
    } else {
        extractions(ops.drop_last()) + if ops.last() matches HeapOp::Next(Some(_)) {
            1nat
        } else {
            0nat
        }
    }
}

/// After insertions and extractions on a new heap, its length is the number
/// of insertions less the number of items handed back, and never more items
/// come back than went in.
pub proof fn lemma_len_after_ops<T, C: Comparator<T>>(
    c: &C,
    states: Seq<Multiset<T>>,
    ops: Seq<HeapOp<T>>,
)
    requires
        states.len() == ops.len() + 1,
        states[0].len() == 0,
        forall|i: int| 0 <= i < ops.len() ==> op_step(c, states[i], #[trigger] ops[i], states[i + 1]),
    ensures
        extractions(ops) <= insertions(ops),
        states.last().len() == insertions(ops) - extractions(ops),
    decreases ops.len(),
{
    broadcast use vstd::multiset::group_multiset_axioms;

    if ops.len() > 0 {
        let n = ops.len() - 1;
        lemma_len_after_ops(c, states.drop_last(), ops.drop_last());
        assert(op_step(c, states[n], ops[n], states[n + 1]));
        assert(states.drop_last().last() == states[n]);
    }
}

} // verus!
