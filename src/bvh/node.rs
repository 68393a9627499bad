//! The bounding-volume hierarchy: construction and nearest-hit traversal.
use vstd::prelude::*;
use vstd::seq_lib::{lemma_multiset_commutative, to_multiset_contains};
use crate::bvh::aabb::{lemma_surrounding_box_contains, AABB};
use crate::hit::HitRecord;
use crate::hit_objects::{all_wf, lemma_min_key_permutation, lemma_scan_min_key, scan, HitObject};
use crate::random::gen_range;
use crate::ray::Ray;
use rand::rngs::ThreadRng;
use std::cmp::Ordering;

verus! {

#[derive(Debug)]
pub enum Tree {
    Leaf(HitObject),
    Node(Box<Node>),
}

#[derive(Debug)]
pub struct Node {
    pub left: Tree,
    pub right: Option<Tree>,
    pub bbox: AABB,
}

/// The objects at the leaves, left to right.
pub open spec fn tree_leaves(t: Tree) -> Seq<HitObject>
    decreases t,
{
    match t {
        Tree::Leaf(o) => seq![o],
        Tree::Node(n) => node_leaves(*n),
    }
}

pub open spec fn node_leaves(n: Node) -> Seq<HitObject>
    decreases n,
{
    tree_leaves(n.left) + match n.right {
        Some(r) => tree_leaves(r),
        None => Seq::empty(),
    }
}

pub open spec fn tree_box(t: Tree) -> AABB {
    match t {
        Tree::Leaf(o) => o.spec_bounding_box(),
        Tree::Node(n) => n.bbox,
    }
}

/// The box of a node: what surrounds both children's boxes.
pub open spec fn children_box(n: Node) -> AABB {
    let l = tree_box(n.left);
    match n.right {
        Some(r) => l.spec_surrounding(tree_box(r)),
        None => l.spec_surrounding(l),
    }
}

/// Every leaf is a well-formed object, and every node's box is the
/// surrounding box of its children's.
pub open spec fn tree_wf(t: Tree) -> bool
    decreases t,
{
    match t {
        Tree::Leaf(o) => o.wf(),
        Tree::Node(n) => node_wf(*n),
    }
}

pub open spec fn node_wf(n: Node) -> bool
    decreases n,
{
    &&& tree_wf(n.left)
    &&& match n.right {
        Some(r) => tree_wf(r),
        None => true,
    }
    &&& n.bbox == children_box(n)
}

/// The bounding-box minimum of `o` on `axis`, the order construction sorts by.
pub open spec fn box_key(o: HitObject, axis: int) -> int {
    o.spec_bounding_box().lo(axis)
}

impl Tree {
    pub fn hit(&self, ray: &Ray, t_min: i64, t_max: i64) -> (r: Option<HitRecord>)
        requires
            tree_wf(*self),
            ray.bounded(),
        ensures
            r == scan(tree_leaves(*self), *ray, t_min as int, t_max as int),
        decreases self,
    {
        match self {
            Tree::Leaf(o) => {
                let r = o.hit(ray, t_min, t_max);
                proof {
                    let s = tree_leaves(*self);
                    assert(s.drop_last() =~= Seq::<HitObject>::empty());
                    assert(scan(s.drop_last(), *ray, t_min as int, t_max as int) is None);
                    assert(s.last() == *o);
                }
                r
            },
            Tree::Node(n) => n.hit(ray, t_min, t_max),
        }
    }

    pub fn bounding_box(&self) -> (r: Option<AABB>)
        requires
            tree_wf(*self),
        ensures
            r == Some(tree_box(*self)),
    {
        match self {
            Tree::Leaf(o) => o.bounding_box(),
            Tree::Node(n) => n.bounding_box(),
        }
    }
}

impl Node {
    pub fn bounding_box(&self) -> (r: Option<AABB>)
        ensures
            r == Some(self.bbox),
    {
        Some(self.bbox)
    }

    /// Builds a tree over `src_objects`, splitting each range along an axis
    /// chosen at random.
    pub fn new(rng: &mut ThreadRng, src_objects: &[HitObject]) -> (r: Option<Self>)
        requires
            src_objects@.len() > 0,
            all_wf(src_objects@),
        ensures
            r is Some,
            r matches Some(n) ==> node_wf(n) && node_leaves(n).to_multiset()
                =~= src_objects@.to_multiset(),
    {
        let mut objects: Vec<HitObject> = Vec::new();
        let mut i: usize = 0;
        while i < src_objects.len()
            invariant
                0 <= i <= src_objects@.len(),
                objects@ == src_objects@.take(i as int),
            decreases src_objects@.len() - i,
        {
            objects.push(src_objects[i]);
            i = i + 1;
        }
        assert(objects@ =~= src_objects@);
        Self::new_inner(rng, objects)
    }

    fn new_inner(rng: &mut ThreadRng, objects: Vec<HitObject>) -> (r: Option<Self>)
        requires
            objects@.len() > 0,
            all_wf(objects@),
        ensures
            r is Some,
            r matches Some(n) ==> node_wf(n) && node_leaves(n).to_multiset()
                =~= objects@.to_multiset(),
        decreases objects@.len(),
    {
        let axis = gen_range(rng, 0, 3) as usize;
        let object_span = objects.len();
        let mut objects = objects;
        let ghost original = objects@;
        let (left, right) = if object_span == 1 {
            proof {
                assert(objects@ =~= seq![objects@[0]]);
            }
            proof {
                assert(seq![objects@[0]] + Seq::<HitObject>::empty() =~= objects@);
            }
            (Tree::Leaf(objects[0]), None)
        } else if object_span == 2 {
            proof {
                assert(objects@ =~= seq![objects@[0], objects@[1]]);
                lemma_multiset_commutative(seq![objects@[0]], seq![objects@[1]]);
                lemma_multiset_commutative(seq![objects@[1]], seq![objects@[0]]);
                assert(seq![objects@[0]] + seq![objects@[1]] =~= objects@);
                assert(objects@[0].wf() && objects@[1].wf());
            }
            if let Ordering::Less = bbox_compare(axis, &objects[0], &objects[1]) {
                (Tree::Leaf(objects[0]), Some(Tree::Leaf(objects[1])))
            } else {
                (Tree::Leaf(objects[1]), Some(Tree::Leaf(objects[0])))
            }
        } else {
            sort_by_box(&mut objects, axis);
            proof {
                assert forall|k: int| 0 <= k < objects@.len() implies (#[trigger] objects@[k]).wf() by {
                    let x = objects@[k];
                    assert(objects@.contains(x));
                    to_multiset_contains(objects@, x);
                    to_multiset_contains(original, x);
                    assert(original.contains(x));
                    let j = choose|j: int| 0 <= j < original.len() && original[j] == x;
                    assert(original[j].wf());
                }
            }
            let mid = object_span / 2;
            let mut first: Vec<HitObject> = Vec::new();
            let mut second: Vec<HitObject> = Vec::new();
            let mut k: usize = 0;
            while k < object_span
                invariant
                    object_span == objects@.len(),
                    mid == object_span / 2,
                    0 <= k <= object_span,
                    first@ == objects@.take(if k < mid { k as int } else { mid as int }),
                    second@ == if k < mid { Seq::empty() } else { objects@.subrange(mid as int, k as int) },
                decreases object_span - k,
            {
                if k < mid {
                    first.push(objects[k]);
                } else {
                    second.push(objects[k]);
                }
                k = k + 1;
                assert(first@ =~= objects@.take(if k < mid { k as int } else { mid as int }));
                assert(second@ =~= if k < mid { Seq::empty() } else { objects@.subrange(mid as int, k as int) });
            }
            proof {
                assert(first@ + second@ =~= objects@);
                lemma_multiset_commutative(first@, second@);
                assert forall|j: int| 0 <= j < first@.len() implies (#[trigger] first@[j]).wf() by {
                    assert(first@[j] == objects@[j]);
                }
                assert forall|j: int| 0 <= j < second@.len() implies (#[trigger] second@[j]).wf() by {
                    assert(second@[j] == objects@[mid + j]);
                }
            }
            let l = match Self::new_inner(rng, first) {
                Some(n) => n,
                None => {
                    return None;
                },
            };
            let r = match Self::new_inner(rng, second) {
                Some(n) => n,
                None => {
                    return None;
                },
            };
            proof {
                assert(tree_leaves(Tree::Node(Box::new(l))) == node_leaves(l));
                assert(tree_leaves(Tree::Node(Box::new(r))) == node_leaves(r));
                lemma_multiset_commutative(node_leaves(l), node_leaves(r));
            }
            (Tree::Node(Box::new(l)), Some(Tree::Node(Box::new(r))))
        };
        let left_box = match left.bounding_box() {
            Some(b) => b,
            None => {
                return None;
            },
        };
        let right_box = match &right {
            Some(r) => match r.bounding_box() {
                Some(b) => b,
                None => left_box,
            },
            None => left_box,
        };
        let bbox = left_box.surrounding_box(&right_box);
        let node = Node { left, right, bbox };
        Some(node)
    }

    pub fn len(&self) -> (r: usize)
        requires
            node_leaves(*self).len() <= usize::MAX,
        ensures
            r == node_leaves(*self).len(),
        decreases self,
    {
        proof {
            lemma_leaves_nonempty(self.left);
        }
        let l: usize = match &self.left {
            Tree::Leaf(_) => 1,
            Tree::Node(n) => n.len(),
        };
        let r: usize = match &self.right {
            Some(Tree::Leaf(_)) => 1,
            Some(Tree::Node(n)) => n.len(),
            None => 0,
        };
        l + r
    }

    /// The nearest hit in the subtree: the box test prunes the whole subtree,
    /// and the right child is searched only below the left child's best hit.
    pub fn hit(&self, ray: &Ray, t_min: i64, t_max: i64) -> (r: Option<HitRecord>)
        requires
            node_wf(*self),
            ray.bounded(),
        ensures
            r == scan(node_leaves(*self), *ray, t_min as int, t_max as int),
        decreases self,
    {
        proof {
            lemma_tree_box_bounded(Tree::Node(Box::new(*self)));
        }
        if !self.bbox.hit(ray, t_min, t_max) {
            proof {
                lemma_pruned(Tree::Node(Box::new(*self)), *ray, t_min as int, t_max as int);
            }
            return None;
        }
        let hit_left = self.left.hit(ray, t_min, t_max);
        let hit_right = match &self.right {
            Some(r) => {
                let t = match &hit_left {
                    Some(h) => h.t,
                    None => t_max,
                };
                r.hit(ray, t_min, t)
            },
            None => None,
        };
        proof {
            let ls = tree_leaves(self.left);
            if let Some(r) = &self.right {
                lemma_scan_concat(ls, tree_leaves(*r), *ray, t_min as int, t_max as int);
            } else {
                assert(ls + Seq::empty() =~= ls);
            }
        }
        match hit_right {
            Some(h) => Some(h),
            None => hit_left,
        }
    }
}

/// Orders two objects by their boxes' minimum on `axis`.
fn bbox_compare(axis: usize, a: &HitObject, b: &HitObject) -> (r: Ordering)
    requires
        axis < 3,
        a.wf(),
        b.wf(),
    ensures
        (r == Ordering::Less) == (box_key(*a, axis as int) < box_key(*b, axis as int)),
        (r == Ordering::Equal) == (box_key(*a, axis as int) == box_key(*b, axis as int)),
{
    let ka = match a.bounding_box() {
        Some(bx) => bx.minimum.0.element(axis),
        None => 0,
    };
    let kb = match b.bounding_box() {
        Some(bx) => bx.minimum.0.element(axis),
        None => 0,
    };
    if ka < kb {
        Ordering::Less
    } else if ka == kb {
        Ordering::Equal
    } else {
        Ordering::Greater
    }
}

/// Relies on `slice::sort_by`: the slice is permuted into ascending order of
/// the comparator, here a total order on the boxes' minimum along `axis`.
#[verifier::external_body]
fn sort_by_box(objects: &mut Vec<HitObject>, axis: usize)
    requires
        axis < 3,
        all_wf(old(objects)@),
    ensures
        final(objects)@.to_multiset() == old(objects)@.to_multiset(),
        final(objects)@.len() == old(objects)@.len(),
        forall|i: int, j: int|
            0 <= i < j < final(objects)@.len() ==> box_key(#[trigger] final(objects)@[i], axis as int)
                <= box_key(#[trigger] final(objects)@[j], axis as int),
{
    objects.sort_by(|a, b| bbox_compare(axis, a, b))
}

proof fn lemma_leaves_nonempty(t: Tree)
    ensures
        tree_leaves(t).len() > 0,
    decreases t,
{
    match t {
        Tree::Leaf(_) => {},
        Tree::Node(n) => {
            lemma_leaves_nonempty(n.left);
        },
    }
}

/// Every leaf's box lies inside the tree's box, and the tree's box is bounded.
pub proof fn lemma_tree_box_bounded(t: Tree)
    requires
        tree_wf(t),
    ensures
        tree_box(t).bounded(),
        forall|k: int|
            0 <= k < tree_leaves(t).len() ==> (#[trigger] tree_leaves(t)[k]).spec_bounding_box().inside(
                tree_box(t),
            ) && tree_leaves(t)[k].wf(),
    decreases t,
{
    match t {
        Tree::Leaf(o) => {
            assert(o.spec_bounding_box().bounded()) by {
                match o {
                    HitObject::Sphere(s) => {},
                }
            }
        },
        Tree::Node(n) => {
            let l = n.left;
            lemma_tree_box_bounded(l);
            lemma_surrounding_box_contains(tree_box(l), tree_box(l));
            match n.right {
                Some(r) => {
                    lemma_tree_box_bounded(r);
                    lemma_surrounding_box_contains(tree_box(l), tree_box(r));
                    assert forall|k: int| 0 <= k < tree_leaves(t).len() implies (#[trigger] tree_leaves(
                        t,
                    )[k]).spec_bounding_box().inside(tree_box(t)) && tree_leaves(t)[k].wf() by {
                        if k < tree_leaves(l).len() {
                            assert(tree_leaves(t)[k] == tree_leaves(l)[k]);
                        } else {
                            assert(tree_leaves(t)[k] == tree_leaves(r)[k - tree_leaves(l).len()]);
                        }
                    }
                },
                None => {
                    assert(tree_leaves(t) =~= tree_leaves(l));
                },
            }
        },
    }
}

/// A tree whose box the ray misses holds no object the ray hits.
proof fn lemma_pruned(t: Tree, ray: Ray, t_min: int, t_max: int)
    requires
        tree_wf(t),
        ray.bounded(),
        !tree_box(t).spec_hit(ray, t_min, t_max),
    ensures
        scan(tree_leaves(t), ray, t_min, t_max) is None,
{
    lemma_tree_box_bounded(t);
    let s = tree_leaves(t);
    assert forall|k: int| 0 <= k < s.len() implies (#[trigger] s[k]).spec_hit(ray, t_min, t_max) is None by {
        match s[k] {
            HitObject::Sphere(sp) => {
                if sp.spec_hit(ray, t_min, t_max) is Some {
                    crate::sphere::lemma_hit_inside_box(sp, tree_box(t), ray, t_min, t_max);
                }
            },
        }
    }
    lemma_scan_none(s, ray, t_min, t_max);
}

/// When no object is hit inside the window, the scan finds nothing.
pub proof fn lemma_scan_none(s: Seq<HitObject>, ray: Ray, t_min: int, t_max: int)
    requires
        forall|k: int| 0 <= k < s.len() ==> (#[trigger] s[k]).spec_hit(ray, t_min, t_max) is None,
    ensures
        scan(s, ray, t_min, t_max) is None,
    decreases s.len(),
{
    if s.len() > 0 {
        lemma_scan_none(s.drop_last(), ray, t_min, t_max);
    }
}

/// Scanning `a + b` is scanning `b` below the best hit of `a`, falling back on that hit.
pub proof fn lemma_scan_concat(a: Seq<HitObject>, b: Seq<HitObject>, ray: Ray, t_min: int, t_max: int)
    ensures
        scan(a + b, ray, t_min, t_max) == ({
            let ra = scan(a, ray, t_min, t_max);
            let ta = match ra {
                Some(h) => h.t as int,
                None => t_max,
            };
            match scan(b, ray, t_min, ta) {
                Some(h) => Some(h),
                None => ra,
            }
        }),
    decreases b.len(),
{
    if b.len() == 0 {
        assert(a + b =~= a);
    } else {
        lemma_scan_concat(a, b.drop_last(), ray, t_min, t_max);
        assert((a + b).drop_last() =~= a + b.drop_last());
        assert((a + b).last() == b.last());
    }
}

/// Searching the hierarchy agrees with scanning the objects it was built from,
/// in any order: a hit is found in the same cases, at the same distance.
pub proof fn lemma_bvh_matches_linear_scan(
    node: Node,
    objects: Seq<HitObject>,
    ray: Ray,
    t_min: i64,
    t_max: i64,
)
    requires
        node_leaves(node).to_multiset() == objects.to_multiset(),
    ensures
        (scan(node_leaves(node), ray, t_min as int, t_max as int) is Some) == (scan(
            objects,
            ray,
            t_min as int,
            t_max as int,
        ) is Some),
        scan(node_leaves(node), ray, t_min as int, t_max as int) matches Some(h) ==> scan(
            objects,
            ray,
            t_min as int,
            t_max as int,
        )->Some_0.t == h.t,
{
    let leaves = node_leaves(node);
    lemma_scan_min_key(leaves, ray, t_min, t_max);
    lemma_scan_min_key(objects, ray, t_min, t_max);
    lemma_min_key_permutation(leaves, objects, ray, t_min as int, t_max as int);
}

} // verus!
