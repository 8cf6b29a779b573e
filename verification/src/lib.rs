use core::cmp::Ordering;
use vstd::multiset::Multiset;
use vstd::prelude::*;

pub mod partition_functions;
pub mod points;

use partition_functions::hoare_b as partition;
use partition_functions::{count_keys_at_or_below, count_keys_below};

verus! {

broadcast use
    vstd::seq_lib::group_to_multiset_ensures,
    vstd::multiset::group_multiset_axioms;

/// Every element of the sequence is a well-formed point.
pub open spec fn all_wf<T: KDPoint>(s: Seq<T>) -> bool {
    forall|i: int| 0 <= i < s.len() ==> (#[trigger] s[i]).wf()
}

/// Every point of the multiset has a key strictly below `k` along `depth`.
pub open spec fn all_keys_below<T: KDPoint>(m: Multiset<T>, depth: int, k: int) -> bool {
    forall|q: T| m.contains(q) ==> (#[trigger] q.key(depth)) < k
}

/// Every point of the multiset has a key at or above `k` along `depth`.
pub open spec fn all_keys_at_or_above<T: KDPoint>(m: Multiset<T>, depth: int, k: int) -> bool {
    forall|q: T| m.contains(q) ==> (#[trigger] q.key(depth)) >= k
}

/// Capability contract that the spatial index requires from its point types.
///
/// A point yields an orderable key along every non-negative axis index (the
/// implementation wraps the axis modulo its own dimensionality), a distance
/// between two full points, and a one-axis key distance.  The mathematical
/// values of all three are given by the spec functions `key`, `dist` and
/// `kdist`; the executable methods must return exactly those values.
///
/// The branch-and-bound pruning rule of the nearest-neighbor search is sound
/// only if the one-axis key distance is a conservative lower bound on the full
/// distance and grows as the second key moves away from the first; every
/// implementation owes a proof of those laws (`lemma_key_distance_lower_bound`
/// and `lemma_key_distance_monotonic`).
pub trait KDPoint: Sized {
    /// Which values of the type the index may hold (typically a coordinate
    /// bound that keeps the distance arithmetic inside `i64`).
    spec fn wf(&self) -> bool;

    /// Mathematical key of the point along an axis.
    spec fn key(&self, dimension: int) -> int;

    /// Mathematical distance between two points.
    spec fn dist(lhs: &Self, rhs: &Self) -> int;

    /// Mathematical one-axis distance between two keys.
    spec fn kdist(lhs: int, rhs: int) -> int;

    /// The key values that can come out of a well-formed point; `key_distance`
    /// is owed only on such keys.
    spec fn key_ok(k: int) -> bool;

    /// Projects the point onto one axis.
    fn kdkey(&self, dimension: usize) -> (k: i64)
        requires
            self.wf(),
        ensures
            k as int == self.key(dimension as int),
    ;

    /// Full-dimensional distance between two points.
    fn distance(lhs: &Self, rhs: &Self) -> (d: i64)
        requires
            lhs.wf(),
            rhs.wf(),
        ensures
            d as int == Self::dist(lhs, rhs),
    ;

    /// One-axis distance between two keys.
    fn key_distance(lhs: &i64, rhs: &i64) -> (d: i64)
        requires
            Self::key_ok(*lhs as int),
            Self::key_ok(*rhs as int),
        ensures
            d as int == Self::kdist(*lhs as int, *rhs as int),
    ;

    /// Keys of well-formed points are admissible arguments to `key_distance`.
    proof fn lemma_key_ok(p: &Self, dimension: int)
        requires
            p.wf(),
        ensures
            Self::key_ok(p.key(dimension)),
    ;

    /// The one-axis key distance never exceeds the full distance.
    proof fn lemma_key_distance_lower_bound(p: &Self, q: &Self, dimension: int)
        requires
            p.wf(),
            q.wf(),
        ensures
            Self::kdist(p.key(dimension), q.key(dimension)) <= Self::dist(p, q),
    ;

    /// Moving the far key further away, on either side, cannot shrink the
    /// one-axis distance.
    proof fn lemma_key_distance_monotonic(a: int, b: int, c: int)
        requires
            Self::key_ok(a),
            Self::key_ok(b),
            Self::key_ok(c),
            a <= b <= c || c <= b <= a,
        ensures
            Self::kdist(a, b) <= Self::kdist(a, c),
    ;

    /// Distances are non-negative and a point is at distance zero from itself.
    proof fn lemma_distance_positive(p: &Self, q: &Self)
        requires
            p.wf(),
            q.wf(),
        ensures
            Self::dist(p, q) >= 0,
            Self::dist(p, p) == 0,
    ;
}

/// Three-way comparison of two points by their keys along one axis.
fn compare_element<E: KDPoint>(left: &E, right: &E, dimension: usize) -> (r: Ordering)
    requires
        left.wf(),
        right.wf(),
    ensures
        r == Ordering::Less <==> left.key(dimension as int) < right.key(dimension as int),
        r == Ordering::Equal <==> left.key(dimension as int) == right.key(dimension as int),
        r == Ordering::Greater <==> left.key(dimension as int) > right.key(dimension as int),
{
    let a = left.kdkey(dimension);
    let b = right.kdkey(dimension);
    if a < b {
        Ordering::Less
    } else if a == b {
        Ordering::Equal
    } else {
        Ordering::Greater
    }
}

/// A tree node owning one point and at most two child subtrees.
struct Node<T> {
    data: T,
    left: Option<Box<Node<T>>>,
    right: Option<Box<Node<T>>>,
}

impl<T: KDPoint> Node<T> {
    /// In-order traversal of an optional subtree.
    spec fn optional_inorder(node: Option<Box<Node<T>>>) -> Seq<T>
        decreases node,
    {
        match node {
            Some(n) => n.inorder(),
            None => Seq::empty(),
        }
    }

    /// In-order traversal of the subtree.
    spec fn inorder(self) -> Seq<T>
        decreases self,
    {
        Self::optional_inorder(self.left) + seq![self.data] + Self::optional_inorder(self.right)
    }

    /// Multiset of the points stored in an optional subtree.
    spec fn optional_points(node: Option<Box<Node<T>>>) -> Multiset<T> {
        Self::optional_inorder(node).to_multiset()
    }

    /// Multiset of the points stored in the subtree.
    spec fn points(self) -> Multiset<T> {
        self.inorder().to_multiset()
    }

    /// The split invariant for a node at recursion depth `depth`: the node's
    /// point is well-formed, every point of the left subtree has a key
    /// strictly below the node's key along the axis of this depth, every
    /// point of the right subtree has a key at or above it, and both
    /// subtrees satisfy the same invariant one depth further down.
    spec fn wf(self, depth: int) -> bool
        decreases self,
    {
        &&& self.data.wf()
        &&& (match self.left {
            Some(l) => l.wf(depth + 1) && all_keys_below(
                l.points(),
                depth,
                self.data.key(depth),
            ),
            None => true,
        })
        &&& (match self.right {
            Some(r) => r.wf(depth + 1) && all_keys_at_or_above(
                r.points(),
                depth,
                self.data.key(depth),
            ),
            None => true,
        })
    }

    /// One step of [`Node::insert_shape`] through an optional child slot: an
    /// empty slot becomes exactly a fresh leaf holding `data`, a filled slot
    /// is entered and the descent goes on.
    spec fn optional_insert_shape(
        before: Option<Box<Node<T>>>,
        after: Option<Box<Node<T>>>,
        data: T,
        depth: int,
    ) -> bool
        decreases before,
    {
        match (before, after) {
            (None, Some(l)) => *l == (Node::<T> { data: data, left: None, right: None }),
            (Some(o), Some(n)) => Node::insert_shape(*o, *n, data, depth),
            _ => false,
        }
    }

    /// `after` is exactly `before` with `data` inserted along the descent
    /// that the split invariant dictates: at each node, a strictly smaller
    /// key along the node's axis descends left, any other key descends
    /// right; every node on the path keeps its own point and its other
    /// child untouched, and the first empty slot reached becomes a fresh
    /// leaf holding `data`.
    spec fn insert_shape(before: Node<T>, after: Node<T>, data: T, depth: int) -> bool
        decreases before,
    {
        &&& after.data == before.data
        &&& if data.key(depth) < before.data.key(depth) {
            &&& after.right == before.right
            &&& Self::optional_insert_shape(before.left, after.left, data, depth + 1)
        } else {
            &&& after.left == before.left
            &&& Self::optional_insert_shape(before.right, after.right, data, depth + 1)
        }
    }

    /// The stored points are the left subtree's points, the node's own point
    /// and the right subtree's points together.
    proof fn lemma_points_decomposition(self)
        ensures
            self.points() == Self::optional_points(self.left).insert(self.data).add(
                Self::optional_points(self.right),
            ),
            self.points().contains(self.data),
            self.inorder().len() == Self::optional_inorder(self.left).len() + 1
                + Self::optional_inorder(self.right).len(),
    {
        let l = Self::optional_inorder(self.left);
        let r = Self::optional_inorder(self.right);
        assert(self.inorder() == l + seq![self.data] + r);
        vstd::seq_lib::lemma_multiset_commutative(l + seq![self.data], r);
        vstd::seq_lib::lemma_multiset_commutative(l, seq![self.data]);
        assert(seq![self.data] =~= Seq::empty().push(self.data));
        assert(Seq::<T>::empty().to_multiset() =~= Multiset::<T>::empty());
        assert(seq![self.data].to_multiset() =~= Multiset::<T>::empty().insert(self.data));
        assert(self.points() =~= Self::optional_points(self.left).insert(self.data).add(
            Self::optional_points(self.right),
        ));
    }

    /// Every point stored under a well-formed node is well-formed.
    proof fn lemma_points_wf(self, depth: int)
        requires
            self.wf(depth),
        ensures
            forall|q: T| self.points().contains(q) ==> (#[trigger] q.wf()),
        decreases self,
    {
        self.lemma_points_decomposition();
        match self.left {
            Some(l) => l.lemma_points_wf(depth + 1),
            None => (),
        }
        match self.right {
            Some(r) => r.lemma_points_wf(depth + 1),
            None => (),
        }
    }

    /// Creates a leaf holding one point.
    fn new(data: T) -> (n: Self)
        requires
            data.wf(),
        ensures
            n == (Node::<T> { data: data, left: None, right: None }),
            n.points() == Multiset::<T>::empty().insert(data),
            n.inorder().len() == 1,
            forall|depth: int| n.wf(depth),
    {
        let n = Self { data, left: None, right: None };
        proof {
            n.lemma_points_decomposition();
            assert(Seq::<T>::empty().to_multiset() =~= Multiset::<T>::empty());
            assert(n.points() =~= Multiset::<T>::empty().insert(n.data));
        }
        n
    }

    /// Builds a subtree from a collection of points, splitting at the median
    /// key along `dimension` and recursing with the dimension incremented.
    ///
    /// The root's key is the key that sorting the input by key along
    /// `dimension` would put at rank `len / 2`, and the left subtree (the
    /// points strictly below that key) never holds more than half of the
    /// input: the median split is approximately balanced.
    fn make(data: Vec<T>, dimension: usize) -> (r: Option<Self>)
        requires
            all_wf(data@),
            dimension + data@.len() <= usize::MAX,
        ensures
            match r {
                Some(n) => {
                    &&& data@.len() > 0
                    &&& n.wf(dimension as int)
                    &&& n.points() == data@.to_multiset()
                    &&& n.inorder().len() == data@.len()
                    &&& Self::optional_inorder(n.left).len() <= data@.len() / 2
                    &&& Self::optional_inorder(n.left).len() + 1 + Self::optional_inorder(
                        n.right,
                    ).len() == data@.len()
                    &&& count_keys_below(data@, dimension as int, n.data.key(dimension as int))
                        <= data@.len() / 2
                    &&& count_keys_at_or_below(
                        data@,
                        dimension as int,
                        n.data.key(dimension as int),
                    ) > data@.len() / 2
                },
                None => data@.len() == 0,
            },
        decreases data@.len(),
    {
        let ghost input = data@;
        let mut data = data;
        if data.is_empty() {
            return None;
        }

        let ghost d = dimension as int;
        let idx = partition(&mut data, dimension);
        let ghost part = data@;

        let mut right = data.split_off(idx);
        let element = right.swap_remove(0);
        let left = data;

        proof {
            assert(element == part[idx as int]);
            assert(left@ == part.subrange(0, idx as int));
            let full_right = part.subrange(idx as int, part.len() as int);
            assert(right@ == full_right.update(0, full_right.last()).drop_last());
            // multiset of the right remainder: the full right half minus the element
            assert(full_right[0] == element);
            assert(full_right.contains(element));
            if full_right.len() == 1 {
                assert(right@ =~= Seq::<T>::empty());
                assert(Seq::<T>::empty().to_multiset() =~= Multiset::<T>::empty());
                assert(full_right =~= Seq::<T>::empty().push(element));
                assert(full_right.to_multiset() == Multiset::<T>::empty().insert(element));
                assert(right@.to_multiset() =~= full_right.to_multiset().remove(element));
            } else {
                let upd = full_right.update(0, full_right.last());
                assert(upd.to_multiset() == full_right.to_multiset().insert(
                    full_right.last(),
                ).remove(element));
                assert(upd.drop_last() =~= upd.remove(upd.len() - 1));
                assert(upd.last() == full_right.last());
                assert(right@.to_multiset() == upd.to_multiset().remove(full_right.last()));
                assert(right@.to_multiset() =~= full_right.to_multiset().remove(element));
            }
            assert(part =~= left@ + full_right);
            vstd::seq_lib::lemma_multiset_commutative(left@, full_right);
            // well-formedness of both halves
            assert forall|i: int| 0 <= i < left@.len() implies (#[trigger] left@[i]).wf() by {
                assert(left@[i] == part[i]);
            }
            assert forall|i: int| 0 <= i < right@.len() implies (#[trigger] right@[i]).wf() by {
                assert(right@.to_multiset().contains(right@[i]));
                assert(full_right.to_multiset().contains(right@[i]));
                assert(full_right.contains(right@[i]));
                let j = choose|j: int| 0 <= j < full_right.len() && full_right[j] == right@[i];
                assert(full_right[j] == part[idx + j]);
            }
        }

        let left_tree = Self::make(left, dimension + 1);
        let right_tree = Self::make(right, dimension + 1);

        let n = Self {
            data: element,
            left: match left_tree {
                Some(t) => Some(Box::new(t)),
                None => None,
            },
            right: match right_tree {
                Some(t) => Some(Box::new(t)),
                None => None,
            },
        };

        proof {
            n.lemma_points_decomposition();
            let full_right = part.subrange(idx as int, part.len() as int);
            // the three parts together are the partitioned sequence again
            assert(Self::optional_points(n.left) == left@.to_multiset());
            assert(Self::optional_points(n.right) == right@.to_multiset());
            assert(n.points() =~= part.to_multiset());
            // split invariant: left half strictly below, right half at or above
            assert(n.data.key(d) == part[idx as int].key(d));
            if n.left is Some {
                assert forall|q: T| Self::optional_points(n.left).contains(q) implies (
                #[trigger] q.key(d)) < n.data.key(d) by {
                    assert(left@.contains(q));
                    let i = choose|i: int| 0 <= i < left@.len() && left@[i] == q;
                    assert(part[i] == q);
                    assert((#[trigger] part[i]).key(d) < part[idx as int].key(d));
                }
            }
            if n.right is Some {
                assert forall|q: T| Self::optional_points(n.right).contains(q) implies (
                #[trigger] q.key(d)) >= n.data.key(d) by {
                    assert(right@.to_multiset().contains(q));
                    assert(full_right.to_multiset().contains(q));
                    assert(full_right.contains(q));
                    let j = choose|j: int| 0 <= j < full_right.len() && full_right[j] == q;
                    assert(part[idx + j] == q);
                    assert((#[trigger] part[idx + j]).key(d) >= part[idx as int].key(d));
                }
            }
            // subtree sizes: the left subtree holds the strictly smaller
            // keys, never more than half of the input
            assert(Self::optional_inorder(n.left).len() == left@.len());
            assert(Self::optional_inorder(n.right).len() == right@.len());
            assert(left@.len() == idx);
            // the root's key is the rank-`len / 2` key of the input
            let t = input.len() as int / 2;
            let kr = part[idx as int].key(d);
            partition_functions::lemma_count_keys_below_split(part, d, kr, idx as int);
            assert forall|p: int| 0 <= p <= t implies (#[trigger] part[p]).key(d) <= kr by {}
            partition_functions::lemma_count_keys_at_or_below_prefix(part, d, kr, t);
            partition_functions::lemma_count_keys_permutation(part, input, d, kr);
        }
        Some(n)
    }

    /// Inserts a point into an optional child slot, creating a leaf when the
    /// slot is empty.
    fn insert_into_optional(node: &mut Option<Box<Node<T>>>, data: T, dimension: usize)
        requires
            ((*old(node)) matches Some(n) ==> n.wf(dimension as int)),
            data.wf(),
            dimension + Self::optional_inorder(*old(node)).len() < usize::MAX,
        ensures
            ((*final(node)) matches Some(n) ==> n.wf(dimension as int)),
            (*final(node)) is Some,
            Self::optional_points(*final(node)) == Self::optional_points(*old(node)).insert(
                data,
            ),
            Self::optional_inorder(*final(node)).len() == Self::optional_inorder(
                *old(node),
            ).len() + 1,
            Self::optional_insert_shape(*old(node), *final(node), data, dimension as int),
        decreases *old(node),
    {
        match node.take() {
            None => {
                *node = Some(Box::new(Self::new(data)));
                proof {
                    assert(Seq::<T>::empty().to_multiset() =~= Multiset::<T>::empty());
                }
            },
            Some(mut boxed) => {
                (&mut *boxed).insert(data, dimension);
                *node = Some(boxed);
            },
        }
    }

    /// Inserts a point below this node: descend left when the new point's key
    /// is strictly below this node's key along the current axis, descend
    /// right otherwise, so that the split invariant is preserved.
    fn insert(&mut self, data: T, dimension: usize)
        requires
            old(self).wf(dimension as int),
            data.wf(),
            dimension + old(self).inorder().len() < usize::MAX,
        ensures
            final(self).wf(dimension as int),
            final(self).points() == old(self).points().insert(data),
            final(self).inorder().len() == old(self).inorder().len() + 1,
            Self::insert_shape(*old(self), *final(self), data, dimension as int),
        decreases *old(self),
    {
        proof {
            old(self).lemma_points_decomposition();
        }
        let c = compare_element(&data, &self.data, dimension);
        if let Ordering::Less = c {
            Self::insert_into_optional(&mut self.left, data, dimension + 1);
        } else {
            Self::insert_into_optional(&mut self.right, data, dimension + 1);
        }
        proof {
            self.lemma_points_decomposition();
        }
    }

    /// Branch-and-bound nearest-neighbor descent: visit the near child, then
    /// this node's own point, then the far child only when the best distance
    /// found so far reaches over the splitting plane.
    fn nearest<'a>(&'a self, search: &T, dimension: usize, best: Option<(&'a T, i64)>) -> (r: (
        &'a T,
        i64,
    ))
        requires
            self.wf(dimension as int),
            search.wf(),
            dimension + self.inorder().len() <= usize::MAX,
            (best matches Some(b) ==> b.1 as int == T::dist(search, b.0)),
        ensures
            r.1 as int == T::dist(search, r.0),
            (match best {
                Some(b) => *r.0 == *b.0 || self.points().contains(*r.0),
                None => self.points().contains(*r.0),
            }),
            (best matches Some(b) ==> r.1 <= b.1),
            forall|q: T| #[trigger] self.points().contains(q) ==> r.1 as int <= T::dist(search, &q),
        decreases self.inorder().len(),
    {
        proof {
            self.lemma_points_decomposition();
            self.lemma_points_wf(dimension as int);
        }
        let ghost d = dimension as int;
        let node_key: i64 = self.data.kdkey(dimension);
        let search_key: i64 = search.kdkey(dimension);
        let go_left_first = search_key < node_key;

        let mut cur: Option<(&'a T, i64)> = best;
        if go_left_first {
            if let Some(child) = &self.left {
                cur = Some((&**child).nearest(search, dimension + 1, cur));
            }
        } else {
            if let Some(child) = &self.right {
                cur = Some((&**child).nearest(search, dimension + 1, cur));
            }
        }
        let ghost near_points = if go_left_first {
            Self::optional_points(self.left)
        } else {
            Self::optional_points(self.right)
        };
        let ghost far_points = if go_left_first {
            Self::optional_points(self.right)
        } else {
            Self::optional_points(self.left)
        };
        proof {
            assert(Seq::<T>::empty().to_multiset() =~= Multiset::<T>::empty());
            assert(forall|q: T|
                #[trigger] near_points.contains(q) ==> (match cur {
                    Some(b) => b.1 as int <= T::dist(search, &q),
                    None => false,
                }));
        }

        let own_dist: i64 = T::distance(search, &self.data);
        let (mut bp, mut bd): (&'a T, i64) = match cur {
            Some(b) => if own_dist < b.1 {
                (&self.data, own_dist)
            } else {
                b
            },
            None => (&self.data, own_dist),
        };
        let ghost mid_dist: i64 = bd;

        proof {
            T::lemma_key_ok(search, d);
            T::lemma_key_ok(&self.data, d);
        }
        let split: i64 = T::key_distance(&search_key, &node_key);

        if bd > split {
            if go_left_first {
                if let Some(child) = &self.right {
                    let r2 = (&**child).nearest(search, dimension + 1, Some((bp, bd)));
                    bp = r2.0;
                    bd = r2.1;
                }
            } else {
                if let Some(child) = &self.left {
                    let r2 = (&**child).nearest(search, dimension + 1, Some((bp, bd)));
                    bp = r2.0;
                    bd = r2.1;
                }
            }
        } else {
            proof {
                // the far side is pruned: the one-axis distance to the
                // splitting plane already reaches every far point
                assert forall|q: T| far_points.contains(q) implies bd as int <= T::dist(
                    search,
                    &q,
                ) by {
                    assert(self.points().contains(q));
                    assert(q.wf());
                    T::lemma_key_ok(&q, d);
                    T::lemma_key_distance_lower_bound(search, &q, d);
                    if go_left_first {
                        assert(q.key(d) >= self.data.key(d));
                        T::lemma_key_distance_monotonic(search.key(d), self.data.key(d), q.key(d));
                    } else {
                        assert(q.key(d) < self.data.key(d));
                        T::lemma_key_distance_monotonic(search.key(d), self.data.key(d), q.key(d));
                    }
                    assert(T::kdist(search.key(d), self.data.key(d)) <= T::kdist(
                        search.key(d),
                        q.key(d),
                    ));
                }
            }
        }

        proof {
            assert forall|q: T| #[trigger] self.points().contains(q) implies bd as int <= T::dist(
                search,
                &q,
            ) by {
                if q == self.data {
                    assert(bd <= mid_dist <= own_dist);
                } else {
                    assert(near_points.contains(q) || far_points.contains(q)) by {
                        assert(self.points().count(q) > 0);
                    }
                    if near_points.contains(q) {
                        assert(bd <= mid_dist);
                    }
                }
            }
        }
        (bp, bd)
    }
}

/// A k-dimensional spatial index over an owned set of points.
pub struct KDTree<T> {
    root: Option<Node<T>>,
}

impl<T: KDPoint> KDTree<T> {
    /// The split invariant holds at every node, and the point count leaves
    /// room for the depth arithmetic of the traversals.
    pub closed spec fn wf(self) -> bool {
        match self.root {
            Some(r) => r.wf(0) && r.inorder().len() <= usize::MAX,
            None => true,
        }
    }

    /// Multiset of the points the tree holds.
    pub closed spec fn points(self) -> Multiset<T> {
        match self.root {
            Some(r) => r.points(),
            None => Multiset::empty(),
        }
    }

    /// `after` is exactly `before` with `data` inserted: the new point
    /// descends from the root — left where its key is strictly smaller
    /// along the node's axis, right otherwise — every node on the path
    /// keeps its own point and its other child untouched, and the first
    /// empty slot reached becomes a fresh leaf.  Nothing else changes.
    pub closed spec fn insert_shape(before: KDTree<T>, after: KDTree<T>, data: T) -> bool {
        match (before.root, after.root) {
            (None, Some(n)) => n == (Node::<T> { data: data, left: None, right: None }),
            (Some(o), Some(n)) => Node::insert_shape(o, n, data, 0),
            _ => false,
        }
    }

    /// Builds a tree from a collection of points by repeated median
    /// selection, so that the split invariant holds at every node and the
    /// tree holds exactly the given points.
    pub fn make(data: Vec<T>) -> (t: Self)
        requires
            all_wf(data@),
        ensures
            t.wf(),
            t.points() == data@.to_multiset(),
            t.points().len() == data@.len(),
    {
        let n = data.len();
        proof {
            assert(data@.len() == n <= usize::MAX);
        }
        let t = Self { root: Node::make(data, 0) };
        proof {
            if t.root is None {
                assert(data@ =~= Seq::<T>::empty());
                assert(data@.to_multiset() =~= Multiset::<T>::empty());
            }
        }
        t
    }

    /// Inserts one point at a leaf found by following the split invariant;
    /// the tree may become unbalanced but keeps the invariant and gains
    /// exactly that point.
    pub fn insert(&mut self, data: T)
        requires
            old(self).wf(),
            data.wf(),
            old(self).points().len() < usize::MAX,
        ensures
            final(self).wf(),
            final(self).points() == old(self).points().insert(data),
            final(self).points().len() == old(self).points().len() + 1,
            Self::insert_shape(*old(self), *final(self), data),
    {
        match self.root.take() {
            Some(mut root) => {
                root.insert(data, 0);
                self.root = Some(root);
            },
            None => {
                self.root = Some(Node::new(data));
            },
        }
    }

    /// Returns a point of the tree at minimal distance from `search`, or
    /// nothing exactly when the tree is empty.  The result's distance from
    /// `search` matches what a brute-force scan over the stored points would
    /// find.
    pub fn find_nearest<'a>(&'a self, search: &T) -> (r: Option<&'a T>)
        requires
            self.wf(),
            search.wf(),
        ensures
            match r {
                Some(p) => self.points().contains(*p) && (forall|q: T|
                    #[trigger] self.points().contains(q) ==> T::dist(search, p) <= T::dist(
                        search,
                        &q,
                    )),
                None => self.points().len() == 0,
            },
    {
        match &self.root {
            Some(root) => {
                let r = root.nearest(search, 0, None);
                Some(r.0)
            },
            None => None,
        }
    }
}

/// A nearest-neighbor result for a search point that is itself among the
/// stored points sits at distance zero from it: querying for a point right
/// after inserting it finds it (or an equally placed point) exactly.
pub proof fn lemma_query_for_contained_point_is_exact<T: KDPoint>(
    points: Multiset<T>,
    search: T,
    found: T,
)
    requires
        search.wf(),
        found.wf(),
        points.contains(search),
        points.contains(found),
        forall|q: T| #[trigger] points.contains(q) ==> T::dist(&search, &found) <= T::dist(
            &search,
            &q,
        ),
    ensures
        T::dist(&search, &found) == 0,
{
    T::lemma_distance_positive(&search, &search);
    T::lemma_distance_positive(&search, &found);
    assert(T::dist(&search, &found) <= T::dist(&search, &search));
}

} // verus!
