//! A quadtree over items that lie in a square region. What it means for
//! an item to lie in a region, to touch it, or to collide with another
//! item is for the caller to say.

use vstd::prelude::*;
use crate::fixed_point::FixedPoint;

verus! {

/// How many items a node holds before it is divided.
pub const MAX_OBJECTS: usize = 4;

/// How deep the tree may be.
pub const MAX_DEPTH: usize = 10;

/// An axis-parallel region.
#[derive(Debug, Clone, Copy, PartialEq, Eq, Structural)]
pub struct Bounds {
    pub x_min: FixedPoint,
    pub x_max: FixedPoint,
    pub y_min: FixedPoint,
    pub y_max: FixedPoint,
}

/// The four quarters of a divided node.
pub struct QuadTreeChildren<T> {
    pub top_left: Box<QuadTreeNode<T>>,
    pub top_right: Box<QuadTreeNode<T>>,
    pub bottom_left: Box<QuadTreeNode<T>>,
    pub bottom_right: Box<QuadTreeNode<T>>,
}

/// A node of the tree.
pub struct QuadTreeNode<T> {
    pub depth: usize,
    pub bounds: Bounds,
    pub objects: Vec<T>,
    pub children: Option<QuadTreeChildren<T>>,
}

/// The middle of two tick counts, rounded down.
pub open spec fn middle(a: int, b: int) -> int {
    (a + b) / 2
}

/// The quarter of `b` at place `k`: low `x` and low `y`, high `x` and
/// low `y`, low `x` and high `y`, high `x` and high `y`.
pub open spec fn quarter(b: Bounds, k: int) -> Bounds {
    let mx = FixedPoint { bits: middle(b.x_min@, b.x_max@) as i32 };
    let my = FixedPoint { bits: middle(b.y_min@, b.y_max@) as i32 };
    if k == 0 {
        Bounds { x_min: b.x_min, x_max: mx, y_min: b.y_min, y_max: my }
    } else if k == 1 {
        Bounds { x_min: mx, x_max: b.x_max, y_min: b.y_min, y_max: my }
    } else if k == 2 {
        Bounds { x_min: b.x_min, x_max: mx, y_min: my, y_max: b.y_max }
    } else {
        Bounds { x_min: mx, x_max: b.x_max, y_min: my, y_max: b.y_max }
    }
}

/// Whether `c` says of every item and region if the item lies wholly in
/// the region, with a single answer.
pub open spec fn region_oracle<T, C: Fn(&T, &Bounds) -> bool>(c: &C) -> bool {
    &&& forall|x: &T, b: &Bounds| call_requires(c, (x, b))
    &&& forall|x: &T, b: &Bounds|
        !(call_ensures(c, (x, b), true) && call_ensures(c, (x, b), false))
}

/// Whether the oracle answers yes for item `x` and region `b`.
pub open spec fn says<T, C: Fn(&T, &Bounds) -> bool>(c: &C, x: T, b: Bounds) -> bool {
    call_ensures(c, (&x, &b), true)
}

/// Whether `k` says of every two items if they collide, with a single
/// answer.
pub open spec fn pair_oracle<T, K: Fn(&T, &T) -> bool>(k: &K) -> bool {
    &&& forall|x: &T, y: &T| call_requires(k, (x, y))
    &&& forall|x: &T, y: &T| !(call_ensures(k, (x, y), true) && call_ensures(k, (x, y), false))
}

/// Whether the oracle answers that `x` and `y` collide.
pub open spec fn collide<T, K: Fn(&T, &T) -> bool>(k: &K, x: T, y: T) -> bool {
    call_ensures(k, (&x, &y), true)
}

impl<T> QuadTreeChildren<T> {
    /// The quarter at place `k`.
    pub open spec fn at(&self, k: int) -> QuadTreeNode<T> {
        if k == 0 {
            *self.top_left
        } else if k == 1 {
            *self.top_right
        } else if k == 2 {
            *self.bottom_left
        } else {
            *self.bottom_right
        }
    }

    /// Whether `x` is stored in one of the quarters.
    pub open spec fn any_holds(&self, x: T) -> bool {
        self.at(0).holds(x) || self.at(1).holds(x) || self.at(2).holds(x) || self.at(3).holds(x)
    }

    /// How many items the quarters store.
    pub open spec fn total(&self) -> nat {
        self.at(0).size() + self.at(1).size() + self.at(2).size() + self.at(3).size()
    }

    /// Whether the quarters are those of a node of depth `depth` with
    /// region `parent`, each well formed and with its items wholly
    /// within.
    pub open spec fn quarters_ok<C: Fn(&T, &Bounds) -> bool>(
        &self,
        c: &C,
        parent: Bounds,
        depth: usize,
    ) -> bool {
        forall|k: int|
            0 <= k < 4 ==> (#[trigger] self.at(k)).depth == depth + 1 && self.at(k).bounds
                == quarter(parent, k) && self.at(k).shape_ok() && self.at(k).all_within(c)
    }
}

impl<T> QuadTreeNode<T> {
    /// The child at place `k` of a divided node.
    pub open spec fn child(&self, k: int) -> QuadTreeNode<T> {
        self.children.unwrap().at(k)
    }

    /// Whether `x` is stored in the node or below it.
    pub open spec fn holds(&self, x: T) -> bool
        decreases self,
    {
        self.objects@.contains(x) || (self.children.is_some() && (self.child(0).holds(x)
            || self.child(1).holds(x) || self.child(2).holds(x) || self.child(3).holds(x)))
    }

    /// How many items are stored in the node and below it.
    pub open spec fn size(&self) -> nat
        decreases self,
    {
        self.objects@.len() + if self.children.is_some() {
            self.child(0).size() + self.child(1).size() + self.child(2).size() + self.child(
                3,
            ).size()
        } else {
            0
        }
    }

    /// Whether the tree is well formed: a divided node is less than
    /// `MAX_DEPTH` deep, and its children are one deeper and cover its
    /// four quarters.
    pub open spec fn shape_ok(&self) -> bool
        decreases self,
    {
        self.children.is_some() ==> self.depth < MAX_DEPTH && (forall|k: int|
            0 <= k < 4 ==> (#[trigger] self.child(k)).depth == self.depth + 1 && self.child(
                k,
            ).bounds == quarter(self.bounds, k)) && self.child(0).shape_ok() && self.child(
            1,
        ).shape_ok() && self.child(2).shape_ok() && self.child(3).shape_ok()
    }

    /// Whether every item stored in the node or below it lies wholly in
    /// the region of the node, and so for the children.
    pub open spec fn all_within<C: Fn(&T, &Bounds) -> bool>(&self, c: &C) -> bool
        decreases self,
    {
        &&& forall|x: T| self.holds(x) ==> says(c, x, self.bounds)
        &&& self.children.is_some() ==> self.child(0).all_within(c) && self.child(1).all_within(c)
            && self.child(2).all_within(c) && self.child(3).all_within(c)
    }

    /// Whether a query with `q` finds a collision in the node or below
    /// it: `q` touches the region of the node, and collides with an item
    /// of the node or is found to collide in one of its children.
    pub open spec fn hit<C: Fn(&T, &Bounds) -> bool, K: Fn(&T, &T) -> bool>(
        &self,
        touches: &C,
        collides: &K,
        q: T,
    ) -> bool
        decreases self,
    {
        says(touches, q, self.bounds) && ((exists|i: int|
            0 <= i < self.objects@.len() && collide(collides, #[trigger] self.objects@[i], q)) || (
        self.children.is_some() && (self.child(0).hit(touches, collides, q) || self.child(1).hit(
            touches,
            collides,
            q,
        ) || self.child(2).hit(touches, collides, q) || self.child(3).hit(touches, collides, q))))
    }

    /// An empty node for a region.
    pub fn new(x_min: FixedPoint, x_max: FixedPoint, y_min: FixedPoint, y_max: FixedPoint, depth: usize) -> (r:
        QuadTreeNode<T>)
        ensures
            r.depth == depth,
            r.bounds == (Bounds { x_min, x_max, y_min, y_max }),
            r.objects@.len() == 0,
            r.children.is_none(),
            r.shape_ok(),
            r.size() == 0,
            forall|x: T| !r.holds(x),
    {
        QuadTreeNode {
            depth,
            bounds: Bounds { x_min, x_max, y_min, y_max },
            objects: Vec::new(),
            children: None,
        }
    }
}


/// How many levels may still be added below a node of this depth.
pub open spec fn levels_left(depth: usize) -> nat {
    if depth >= MAX_DEPTH {
        0
    } else {
        (MAX_DEPTH - depth) as nat
    }
}

fn exec_middle(a: FixedPoint, b: FixedPoint) -> (r: FixedPoint)
    ensures
        r@ == middle(a@, b@),
{
    let sum: i64 = a.bits as i64 + b.bits as i64;
    let m = crate::grid::floor_mod(sum, 2);
    FixedPoint::from_bits(((sum - m) / 2) as i32)
}

impl<T: Copy> QuadTreeChildren<T> {
    /// Four empty quarters of the region of a node of depth
    /// `parent_depth`.
    pub fn new(parent: Bounds, parent_depth: usize) -> (r: QuadTreeChildren<T>)
        requires
            parent_depth < MAX_DEPTH,
        ensures
            r.top_left.bounds == quarter(parent, 0),
            r.top_right.bounds == quarter(parent, 1),
            r.bottom_left.bounds == quarter(parent, 2),
            r.bottom_right.bounds == quarter(parent, 3),
            r.top_left.depth == parent_depth + 1,
            r.top_right.depth == parent_depth + 1,
            r.bottom_left.depth == parent_depth + 1,
            r.bottom_right.depth == parent_depth + 1,
            r.top_left.children.is_none() && r.top_left.objects@.len() == 0,
            r.top_right.children.is_none() && r.top_right.objects@.len() == 0,
            r.bottom_left.children.is_none() && r.bottom_left.objects@.len() == 0,
            r.bottom_right.children.is_none() && r.bottom_right.objects@.len() == 0,
    {
        let mid_x = exec_middle(parent.x_min, parent.x_max);
        let mid_y = exec_middle(parent.y_min, parent.y_max);
        QuadTreeChildren {
            top_left: Box::new(
                QuadTreeNode::new(parent.x_min, mid_x, parent.y_min, mid_y, parent_depth + 1),
            ),
            top_right: Box::new(
                QuadTreeNode::new(mid_x, parent.x_max, parent.y_min, mid_y, parent_depth + 1),
            ),
            bottom_left: Box::new(
                QuadTreeNode::new(parent.x_min, mid_x, mid_y, parent.y_max, parent_depth + 1),
            ),
            bottom_right: Box::new(
                QuadTreeNode::new(mid_x, parent.x_max, mid_y, parent.y_max, parent_depth + 1),
            ),
        }
    }
}

/// Whether `x` is among `kept` or stored in one of the quarters.
pub open spec fn stored<T>(kept: Seq<T>, quarters: QuadTreeChildren<T>, x: T) -> bool {
    kept.contains(x) || quarters.any_holds(x)
}

/// Whether `x` is among the first `n` of `v`.
pub open spec fn listed<T>(v: Seq<T>, n: int, x: T) -> bool {
    exists|i: int| 0 <= i < n && i < v.len() && v[i] == x
}

impl<T: Copy> QuadTreeChildren<T> {
    /// Stores `collider` in the first quarter that takes it, and says
    /// whether one did.
    fn insert<C: Fn(&T, &Bounds) -> bool>(
        &mut self,
        collider: T,
        contained: &C,
        Ghost(parent): Ghost<Bounds>,
        Ghost(depth): Ghost<usize>,
    ) -> (r: bool)
        requires
            region_oracle(contained),
            depth < MAX_DEPTH,
            old(self).quarters_ok(contained, parent, depth),
        ensures
            final(self).quarters_ok(contained, parent, depth),
            r == exists|k: int| 0 <= k < 4 && says(contained, collider, #[trigger] quarter(parent, k)),
            forall|x: T| final(self).any_holds(x) <==> old(self).any_holds(x) || (r && x == collider),
            final(self).total() == old(self).total() + if r { 1nat } else { 0nat },
        decreases levels_left(depth), 0nat,
    {
        assert(old(self).at(0).depth == depth + 1);
        assert(old(self).at(1).depth == depth + 1);
        assert(old(self).at(2).depth == depth + 1);
        assert(old(self).at(3).depth == depth + 1);
        if self.top_left.insert(collider, contained) {
            assert(says(contained, collider, quarter(parent, 0)));
            return true;
        }
        if self.top_right.insert(collider, contained) {
            assert(says(contained, collider, quarter(parent, 1)));
            return true;
        }
        if self.bottom_left.insert(collider, contained) {
            assert(says(contained, collider, quarter(parent, 2)));
            return true;
        }
        if self.bottom_right.insert(collider, contained) {
            assert(says(contained, collider, quarter(parent, 3)));
            return true;
        }
        false
    }
}

impl<T: Copy> QuadTreeNode<T> {
    /// Stores `collider` if it lies wholly in the region of the node, in
    /// the deepest node on the way down that takes it, and says whether
    /// it did. A node that holds `MAX_OBJECTS` items and is less than
    /// `MAX_DEPTH` deep is divided first, and its items move down where a
    /// quarter takes them.
    pub fn insert<C: Fn(&T, &Bounds) -> bool>(&mut self, collider: T, contained: &C) -> (r: bool)
        requires
            region_oracle(contained),
            old(self).shape_ok(),
            old(self).all_within(contained),
        ensures
            r == says(contained, collider, old(self).bounds),
            final(self).bounds == old(self).bounds,
            final(self).depth == old(self).depth,
            final(self).shape_ok(),
            final(self).all_within(contained),
            forall|x: T| final(self).holds(x) <==> old(self).holds(x) || (r && x == collider),
            final(self).size() == old(self).size() + if r { 1nat } else { 0nat },
        decreases levels_left(old(self).depth), 2nat,
    {
        if !contained(&collider, &self.bounds) {
            return false;
        }
        let ghost before = *self;
        if self.children.is_none() {
            if self.depth >= MAX_DEPTH || self.objects.len() < MAX_OBJECTS {
                self.objects.push(collider);
                proof {
                    assert(self.objects@.last() == collider);
                    assert forall|x: T| self.holds(x) <==> before.holds(x) || x == collider by {
                        if before.objects@.contains(x) {
                            let i = choose|i: int| 0 <= i < before.objects@.len() && before.objects@[i] == x;
                            assert(self.objects@[i] == x);
                        }
                        if self.objects@.contains(x) && x != collider {
                            let i = choose|i: int| 0 <= i < self.objects@.len() && self.objects@[i] == x;
                            assert(before.objects@[i] == x);
                        }
                    }
                    assert forall|x: T| self.holds(x) implies says(contained, x, self.bounds) by {
                        if x != collider {
                            assert(before.holds(x));
                        }
                    }
                }
                return true;
            }
            self.divide(contained);
        }
        let ghost divided = *self;
        let mut quarters = self.children.take().unwrap();
        let took = quarters.insert(collider, contained, Ghost(self.bounds), Ghost(self.depth));
        let ghost after = quarters;
        self.children = Some(quarters);
        if !took {
            self.objects.push(collider);
        }
        proof {
            assert(self.child(0) == after.at(0));
            assert(self.child(1) == after.at(1));
            assert(self.child(2) == after.at(2));
            assert(self.child(3) == after.at(3));
            let d = divided.children.unwrap();
            assert(divided.child(0) == d.at(0));
            assert(divided.child(1) == d.at(1));
            assert(divided.child(2) == d.at(2));
            assert(divided.child(3) == d.at(3));
            assert forall|x: T| self.holds(x) <==> divided.holds(x) || x == collider by {
                assert(after.any_holds(x) <==> d.any_holds(x) || (took && x == collider));
                if divided.objects@.contains(x) {
                    let i = choose|i: int| 0 <= i < divided.objects@.len() && divided.objects@[i] == x;
                    assert(self.objects@[i] == x);
                }
                if self.objects@.contains(x) && x != collider {
                    let i = choose|i: int| 0 <= i < self.objects@.len() && self.objects@[i] == x;
                    assert(divided.objects@[i] == x);
                }
                if !took {
                    assert(self.objects@.last() == collider);
                }
            }
            assert forall|x: T| self.holds(x) implies says(contained, x, self.bounds) by {
                if x != collider {
                    assert(divided.holds(x));
                }
            }
            assert(self.all_within(contained));
            assert(self.size() == divided.size() + 1);
            assert(before == *old(self));
            assert forall|x: T| self.holds(x) <==> old(self).holds(x) || x == collider by {
                assert(self.holds(x) <==> divided.holds(x) || x == collider);
                assert(divided.holds(x) <==> before.holds(x));
            }
        }
        true
    }

    /// Divides a node without children: its items move down where a
    /// quarter takes them.
    fn divide<C: Fn(&T, &Bounds) -> bool>(&mut self, contained: &C)
        requires
            region_oracle(contained),
            old(self).children.is_none(),
            old(self).depth < MAX_DEPTH,
            old(self).all_within(contained),
        ensures
            final(self).children.is_some(),
            final(self).bounds == old(self).bounds,
            final(self).depth == old(self).depth,
            final(self).shape_ok(),
            final(self).all_within(contained),
            forall|x: T| final(self).holds(x) <==> old(self).holds(x),
            final(self).size() == old(self).size(),
        decreases levels_left(old(self).depth), 1nat,
    {
        let ghost before = *self;
        let mut quarters: QuadTreeChildren<T> = QuadTreeChildren::new(self.bounds, self.depth);
        let mut kept: Vec<T> = Vec::new();
        let n = self.objects.len();
        let mut i: usize = 0;
        assert(quarters.at(0).size() == 0 && quarters.at(1).size() == 0 && quarters.at(2).size() == 0
            && quarters.at(3).size() == 0);
        assert forall|x: T| !stored(kept@, quarters, x) by {
            assert(!quarters.at(0).holds(x) && !quarters.at(1).holds(x) && !quarters.at(2).holds(x)
                && !quarters.at(3).holds(x));
        }
        assert forall|k: int| 0 <= k < 4 implies (#[trigger] quarters.at(k)).all_within(contained) by {
            assert forall|x: T| !quarters.at(k).holds(x) by {}
        }
        while i < n
            invariant
                region_oracle(contained),
                *self == before,
                n == self.objects@.len(),
                i <= n,
                self.depth < MAX_DEPTH,
                quarters.quarters_ok(contained, self.bounds, self.depth),
                forall|x: T|
                    #![trigger stored(kept@, quarters, x)]
                    #![trigger listed(self.objects@, i as int, x)]
                    stored(kept@, quarters, x) <==> listed(self.objects@, i as int, x),
                kept@.len() + quarters.total() == i,
            decreases n - i,
        {
            let item = self.objects[i];
            let ghost q0 = quarters;
            let ghost k0 = kept@;
            let took = quarters.insert(item, contained, Ghost(self.bounds), Ghost(self.depth));
            if !took {
                kept.push(item);
            }
            proof {
                assert forall|x: T|
                    #![trigger stored(kept@, quarters, x)]
                    #![trigger listed(self.objects@, i + 1, x)]
                    stored(kept@, quarters, x) <==> listed(self.objects@, i + 1, x) by {
                    assert(quarters.any_holds(x) <==> q0.any_holds(x) || (took && x == item));
                    assert(stored(k0, q0, x) <==> listed(self.objects@, i as int, x));
                    if listed(self.objects@, i + 1, x) {
                        let j = choose|j: int|
                            0 <= j < i + 1 && j < self.objects@.len() && self.objects@[j] == x;
                        if j < i {
                            assert(listed(self.objects@, i as int, x));
                            if k0.contains(x) {
                                let t = choose|t: int| 0 <= t < k0.len() && k0[t] == x;
                                assert(kept@[t] == x);
                            }
                        } else {
                            if !took {
                                assert(kept@.last() == item);
                            }
                        }
                    }
                    if stored(kept@, quarters, x) {
                        if x == item {
                            assert(self.objects@[i as int] == x);
                        } else {
                            if kept@.contains(x) {
                                let t = choose|t: int| 0 <= t < kept@.len() && kept@[t] == x;
                                assert(k0[t] == x);
                            }
                            assert(stored(k0, q0, x));
                            let j = choose|j: int|
                                0 <= j < i && j < self.objects@.len() && self.objects@[j] == x;
                            assert(self.objects@[j] == x);
                        }
                    }
                }
            }
            i = i + 1;
        }
        self.objects = kept;
        let ghost after = quarters;
        self.children = Some(quarters);
        proof {
            assert(self.child(0) == after.at(0));
            assert(self.child(1) == after.at(1));
            assert(self.child(2) == after.at(2));
            assert(self.child(3) == after.at(3));
            assert forall|x: T| self.holds(x) <==> before.holds(x) by {
                assert(stored(self.objects@, after, x) <==> listed(before.objects@, n as int, x));
                if before.objects@.contains(x) {
                    let j = choose|j: int| 0 <= j < before.objects@.len() && before.objects@[j] == x;
                    assert(listed(before.objects@, n as int, x));
                }
                if listed(before.objects@, n as int, x) {
                    let j = choose|j: int| 0 <= j < n && j < before.objects@.len() && before.objects@[j] == x;
                    assert(before.objects@.contains(x));
                }
            }
            assert forall|x: T| self.holds(x) implies says(contained, x, self.bounds) by {
                assert(before.holds(x));
            }
            assert(self.all_within(contained));
        }
    }
}


impl<T: Copy> QuadTreeNode<T> {
    /// Stores those of `colliders` that lie wholly in the region of the
    /// node.
    pub fn extend<C: Fn(&T, &Bounds) -> bool>(&mut self, colliders: &Vec<T>, contained: &C)
        requires
            region_oracle(contained),
            old(self).shape_ok(),
            old(self).all_within(contained),
        ensures
            final(self).bounds == old(self).bounds,
            final(self).depth == old(self).depth,
            final(self).shape_ok(),
            final(self).all_within(contained),
            forall|x: T|
                final(self).holds(x) <==> old(self).holds(x) || (listed(
                    colliders@,
                    colliders@.len() as int,
                    x,
                ) && says(contained, x, old(self).bounds)),
    {
        let mut i: usize = 0;
        while i < colliders.len()
            invariant
                region_oracle(contained),
                i <= colliders@.len(),
                self.bounds == old(self).bounds,
                self.depth == old(self).depth,
                self.shape_ok(),
                self.all_within(contained),
                forall|x: T|
                    self.holds(x) <==> old(self).holds(x) || (listed(colliders@, i as int, x)
                        && says(contained, x, old(self).bounds)),
            decreases colliders@.len() - i,
        {
            let ghost before = *self;
            let item = colliders[i];
            let took = self.insert(item, contained);
            proof {
                assert forall|x: T|
                    self.holds(x) <==> old(self).holds(x) || (listed(colliders@, i + 1, x) && says(
                        contained,
                        x,
                        old(self).bounds,
                    )) by {
                    assert(self.holds(x) <==> before.holds(x) || (took && x == item));
                    assert(before.holds(x) <==> old(self).holds(x) || (listed(
                        colliders@,
                        i as int,
                        x,
                    ) && says(contained, x, old(self).bounds)));
                    if listed(colliders@, i + 1, x) {
                        let j = choose|j: int|
                            0 <= j < i + 1 && j < colliders@.len() && colliders@[j] == x;
                        if j < i {
                            assert(listed(colliders@, i as int, x));
                        }
                    }
                    if listed(colliders@, i as int, x) {
                        let j = choose|j: int|
                            0 <= j < i && j < colliders@.len() && colliders@[j] == x;
                        assert(colliders@[j] == x);
                    }
                    if took && x == item {
                        assert(colliders@[i as int] == x);
                    }
                }
            }
            i = i + 1;
        }
    }

    /// Whether `collider` collides with an item stored in the node or
    /// below it, looking only into regions that `collider` touches.
    pub fn collides_with<C: Fn(&T, &Bounds) -> bool, K: Fn(&T, &T) -> bool>(
        &self,
        collider: &T,
        touches: &C,
        collides: &K,
    ) -> (r: bool)
        requires
            region_oracle(touches),
            pair_oracle(collides),
        ensures
            r == self.hit(touches, collides, *collider),
        decreases self,
    {
        if !touches(collider, &self.bounds) {
            return false;
        }
        let mut i: usize = 0;
        while i < self.objects.len()
            invariant
                pair_oracle(collides),
                says(touches, *collider, self.bounds),
                i <= self.objects@.len(),
                forall|j: int|
                    0 <= j < i ==> !collide(collides, #[trigger] self.objects@[j], *collider),
            decreases self.objects@.len() - i,
        {
            if collides(&self.objects[i], collider) {
                assert(collide(collides, self.objects@[i as int], *collider));
                return true;
            }
            i = i + 1;
        }
        match &self.children {
            Some(quarters) => {
                assert(self.child(0) == quarters.at(0));
                assert(self.child(1) == quarters.at(1));
                assert(self.child(2) == quarters.at(2));
                assert(self.child(3) == quarters.at(3));
                quarters.top_left.collides_with(collider, touches, collides)
                    || quarters.top_right.collides_with(collider, touches, collides)
                    || quarters.bottom_left.collides_with(collider, touches, collides)
                    || quarters.bottom_right.collides_with(collider, touches, collides)
            },
            None => false,
        }
    }

    /// Whether one of `colliders` collides with an item stored in the
    /// node or below it.
    pub fn collides_with_set<C: Fn(&T, &Bounds) -> bool, K: Fn(&T, &T) -> bool>(
        &self,
        colliders: &Vec<T>,
        touches: &C,
        collides: &K,
    ) -> (r: bool)
        requires
            region_oracle(touches),
            pair_oracle(collides),
        ensures
            r == exists|i: int|
                0 <= i < colliders@.len() && self.hit(touches, collides, #[trigger] colliders@[i]),
    {
        let mut i: usize = 0;
        while i < colliders.len()
            invariant
                region_oracle(touches),
                pair_oracle(collides),
                i <= colliders@.len(),
                forall|j: int|
                    0 <= j < i ==> !self.hit(touches, collides, #[trigger] colliders@[j]),
            decreases colliders@.len() - i,
        {
            if self.collides_with(&colliders[i], touches, collides) {
                return true;
            }
            i = i + 1;
        }
        false
    }
}

/// An item stored in a tree is found by a query with the item itself,
/// provided that an item collides with itself and touches every region
/// in which it wholly lies.
pub proof fn lemma_stored_is_found<
    T,
    C: Fn(&T, &Bounds) -> bool,
    D: Fn(&T, &Bounds) -> bool,
    K: Fn(&T, &T) -> bool,
>(node: QuadTreeNode<T>, contained: &C, touches: &D, collides: &K, x: T)
    requires
        node.holds(x),
        node.all_within(contained),
        collide(collides, x, x),
        forall|b: Bounds| says(contained, x, b) ==> says(touches, x, b),
    ensures
        node.hit(touches, collides, x),
    decreases node,
{
    assert(says(contained, x, node.bounds));
    if node.objects@.contains(x) {
        let i = choose|i: int| 0 <= i < node.objects@.len() && node.objects@[i] == x;
        assert(collide(collides, node.objects@[i], x));
    } else {
        if node.child(0).holds(x) {
            lemma_stored_is_found(node.child(0), contained, touches, collides, x);
        } else if node.child(1).holds(x) {
            lemma_stored_is_found(node.child(1), contained, touches, collides, x);
        } else if node.child(2).holds(x) {
            lemma_stored_is_found(node.child(2), contained, touches, collides, x);
        } else {
            lemma_stored_is_found(node.child(3), contained, touches, collides, x);
        }
    }
}

} // verus!
