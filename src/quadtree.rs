use vstd::prelude::*;
use vstd::seq_lib::lemma_multiset_commutative;
use crate::boid::Boid;
use crate::geometry::{midpoint, rect_has, span_has, span_width, Span, Vec2};

verus! {

/// How many agents a leaf holds before it splits.
pub const CAPACITY: usize = 4;

/// Whether a rectangle covers more than one integer point, so that
/// splitting it into quadrants makes every quadrant smaller.
pub open spec fn splittable(x: Span, y: Span) -> bool {
    span_width(x) >= 2 || span_width(y) >= 2
}

/// The lower half `[start, mid)` of a span.
pub open spec fn lower_half(s: Span) -> Span {
    Span { start: s.start, end: midpoint(s) as i64 }
}

/// The upper half `[mid, end)` of a span.
pub open spec fn upper_half(s: Span) -> Span {
    Span { start: midpoint(s) as i64, end: s.end }
}

/// The horizontal extent of quadrant `k` of a rectangle spanning `x`,
/// counting northwest, northeast, southwest, southeast from 0.
pub open spec fn quadrant_x(x: Span, k: int) -> Span {
    if k == 0 || k == 2 {
        lower_half(x)
    } else {
        upper_half(x)
    }
}

/// The vertical extent of quadrant `k` of a rectangle spanning `y`.
pub open spec fn quadrant_y(y: Span, k: int) -> Span {
    if k < 2 {
        upper_half(y)
    } else {
        lower_half(y)
    }
}

/// The first quadrant of `x` by `y`, in the order northwest, northeast,
/// southwest, southeast, that holds `p`.
pub open spec fn first_quadrant(x: Span, y: Span, p: Vec2) -> int {
    if rect_has(lower_half(x), upper_half(y), p) {
        0
    } else if rect_has(upper_half(x), upper_half(y), p) {
        1
    } else if rect_has(lower_half(x), lower_half(y), p) {
        2
    } else {
        3
    }
}

/// The shape of a tree, value by value: a leaf's bound and its agents in
/// order, or an interior node's bound and its quadrants northwest,
/// northeast, southwest, southeast.
pub enum Shape {
    Leaf { x: Span, y: Span, agents: Seq<Boid> },
    Split { x: Span, y: Span, nw: Box<Shape>, ne: Box<Shape>, sw: Box<Shape>, se: Box<Shape> },
}

impl Shape {
    /// The horizontal extent of the shape's root.
    pub open spec fn x(self) -> Span {
        match self {
            Shape::Leaf { x, .. } => x,
            Shape::Split { x, .. } => x,
        }
    }

    /// The vertical extent of the shape's root.
    pub open spec fn y(self) -> Span {
        match self {
            Shape::Leaf { y, .. } => y,
            Shape::Split { y, .. } => y,
        }
    }

    /// The size that shrinks from a node to each of its quadrants.
    pub open spec fn size(self) -> nat {
        span_width(self.x()) + span_width(self.y())
    }
}

/// Quadrant `k` of the leaf over `x` by `y` holding `agents`, as a split
/// leaves it: a leaf with the agents that lie in it, in their order.
pub open spec fn quadrant_leaf(x: Span, y: Span, agents: Seq<Boid>, k: int) -> Shape {
    Shape::Leaf {
        x: quadrant_x(x, k),
        y: quadrant_y(y, k),
        agents: agents.filter(inside(quadrant_x(x, k), quadrant_y(y, k))),
    }
}

/// The shape after inserting `b`. Outside the bound nothing changes. A leaf
/// with room, or one over a single point, appends `b`. A full leaf splits
/// into quadrant leaves and `b` goes into the first quadrant that holds
/// it; an interior node hands `b` to that quadrant.
pub open spec fn shape_insert(s: Shape, b: Boid) -> Shape
    decreases s.size(),
{
    if !rect_has(s.x(), s.y(), b.position) {
        s
    } else {
        let t = first_quadrant(s.x(), s.y(), b.position);
        match s {
            Shape::Leaf { x, y, agents } => {
                if agents.len() < CAPACITY || !splittable(x, y) {
                    Shape::Leaf { x, y, agents: agents.push(b) }
                } else {
                    let q0 = quadrant_leaf(x, y, agents, 0);
                    let q1 = quadrant_leaf(x, y, agents, 1);
                    let q2 = quadrant_leaf(x, y, agents, 2);
                    let q3 = quadrant_leaf(x, y, agents, 3);
                    Shape::Split {
                        x,
                        y,
                        nw: Box::new(if t == 0 { shape_insert(q0, b) } else { q0 }),
                        ne: Box::new(if t == 1 { shape_insert(q1, b) } else { q1 }),
                        sw: Box::new(if t == 2 { shape_insert(q2, b) } else { q2 }),
                        se: Box::new(if t == 3 { shape_insert(q3, b) } else { q3 }),
                    }
                }
            },
            Shape::Split { x, y, nw, ne, sw, se } => {
                if t == 0 && nw.size() < s.size() {
                    Shape::Split { x, y, nw: Box::new(shape_insert(*nw, b)), ne, sw, se }
                } else if t == 1 && ne.size() < s.size() {
                    Shape::Split { x, y, nw, ne: Box::new(shape_insert(*ne, b)), sw, se }
                } else if t == 2 && sw.size() < s.size() {
                    Shape::Split { x, y, nw, ne, sw: Box::new(shape_insert(*sw, b)), se }
                } else if t == 3 && se.size() < s.size() {
                    Shape::Split { x, y, nw, ne, sw, se: Box::new(shape_insert(*se, b)) }
                } else {
                    s
                }
            },
        }
    }
}

/// The shape after inserting the agents of `s` in order into `base`.
pub open spec fn shape_insert_all(base: Shape, s: Seq<Boid>) -> Shape
    decreases s.len(),
{
    if s.len() == 0 {
        base
    } else {
        shape_insert(shape_insert_all(base, s.drop_last()), s.last())
    }
}

/// A region of the plane holding agents: a leaf keeps them in a list,
/// an interior node hands them to four quadrants that split its bound.
pub struct QuadTree {
    boids: Vec<Boid>,
    quadrants: Option<Box<Quadrants>>,
    x_range: Span,
    y_range: Span,
}

/// The four children of an interior node; north is the upper half in `y`,
/// west the lower half in `x`.
pub struct Quadrants {
    northwest: QuadTree,
    northeast: QuadTree,
    southwest: QuadTree,
    southeast: QuadTree,
}

impl Quadrants {
    /// Whether the children's bounds are the quadrants of `x` by `y`.
    pub closed spec fn split_of(self, x: Span, y: Span) -> bool {
        &&& self.northwest.x_range == lower_half(x) && self.northwest.y_range == upper_half(y)
        &&& self.northeast.x_range == upper_half(x) && self.northeast.y_range == upper_half(y)
        &&& self.southwest.x_range == lower_half(x) && self.southwest.y_range == lower_half(y)
        &&& self.southeast.x_range == upper_half(x) && self.southeast.y_range == lower_half(y)
    }
}

impl QuadTree {
    /// The horizontal extent of the node.
    pub closed spec fn x_bound(self) -> Span {
        self.x_range
    }

    /// The vertical extent of the node.
    pub closed spec fn y_bound(self) -> Span {
        self.y_range
    }

    /// Whether the node has been split into quadrants.
    pub closed spec fn is_interior(self) -> bool {
        self.quadrants is Some
    }

    /// The agents a leaf holds itself.
    pub closed spec fn own_agents(self) -> Seq<Boid> {
        self.boids@
    }

    /// Quadrant `k` of an interior node, counting northwest, northeast,
    /// southwest, southeast from 0.
    pub closed spec fn child(self, k: int) -> QuadTree {
        match self.quadrants {
            Some(q) => if k == 0 {
                q.northwest
            } else if k == 1 {
                q.northeast
            } else if k == 2 {
                q.southwest
            } else {
                q.southeast
            },
            None => self,
        }
    }

    /// The quadrant of this node's bound that receives `b` when it splits
    /// or has split.
    pub open spec fn target_quadrant(self, b: Boid) -> int {
        first_quadrant(self.x_bound(), self.y_bound(), b.position)
    }

    /// The shape of the tree.
    pub closed spec fn shape(self) -> Shape
        decreases self,
    {
        match self.quadrants {
            None => Shape::Leaf { x: self.x_range, y: self.y_range, agents: self.boids@ },
            Some(q) => Shape::Split {
                x: self.x_range,
                y: self.y_range,
                nw: Box::new(q.northwest.shape()),
                ne: Box::new(q.northeast.shape()),
                sw: Box::new(q.southwest.shape()),
                se: Box::new(q.southeast.shape()),
            },
        }
    }

    /// The size that shrinks from a node to each of its quadrants.
    pub open spec fn extent(self) -> nat {
        span_width(self.x_bound()) + span_width(self.y_bound())
    }

    /// Every agent under the node, in traversal order: a leaf's own list,
    /// or the quadrants' agents in the order northwest, northeast,
    /// southwest, southeast.
    pub closed spec fn agents(self) -> Seq<Boid>
        decreases self,
    {
        match self.quadrants {
            None => self.boids@,
            Some(q) => q.northwest.agents() + q.northeast.agents() + q.southwest.agents()
                + q.southeast.agents(),
        }
    }

    /// Structure of the tree: leaves within capacity unless they cannot be
    /// split, every agent of a leaf inside its bound, interior nodes empty
    /// themselves and split into exact quadrants.
    pub closed spec fn wf(self) -> bool
        decreases self,
    {
        match self.quadrants {
            None => {
                &&& (self.boids.len() <= CAPACITY || !splittable(self.x_range, self.y_range))
                &&& forall|i: int|
                    0 <= i < self.boids.len() ==> rect_has(
                        self.x_range,
                        self.y_range,
                        #[trigger] self.boids@[i].position,
                    )
            },
            Some(q) => {
                &&& self.boids.len() == 0
                &&& splittable(self.x_range, self.y_range)
                &&& q.split_of(self.x_range, self.y_range)
                &&& q.northwest.wf()
                &&& q.northeast.wf()
                &&& q.southwest.wf()
                &&& q.southeast.wf()
            },
        }
    }

    /// Every leaf holds at most `CAPACITY` agents, save one whose bound is a
    /// single point.
    pub closed spec fn within_capacity(self) -> bool
        decreases self,
    {
        match self.quadrants {
            None => self.boids.len() <= CAPACITY || !splittable(self.x_range, self.y_range),
            Some(q) => {
                &&& q.northwest.within_capacity()
                &&& q.northeast.within_capacity()
                &&& q.southwest.within_capacity()
                &&& q.southeast.within_capacity()
            },
        }
    }

    /// Every agent under the node lies inside the bound of the node and of
    /// each node on the way down to it.
    pub closed spec fn contained(self) -> bool
        decreases self,
    {
        &&& forall|i: int|
            0 <= i < self.agents().len() ==> rect_has(
                self.x_range,
                self.y_range,
                #[trigger] self.agents()[i].position,
            )
        &&& match self.quadrants {
            None => true,
            Some(q) => {
                &&& q.northwest.contained()
                &&& q.northeast.contained()
                &&& q.southwest.contained()
                &&& q.southeast.contained()
            },
        }
    }

    /// An empty leaf over `x_range` by `y_range`.
    pub fn new(x_range: Span, y_range: Span) -> (r: QuadTree)
        ensures
            r.wf(),
            r.x_bound() == x_range,
            r.y_bound() == y_range,
            r.agents() == Seq::<Boid>::empty(),
            !r.is_interior(),
            r.shape() == (Shape::Leaf { x: x_range, y: y_range, agents: Seq::<Boid>::empty() }),
    {
        QuadTree { boids: Vec::new(), quadrants: None, x_range, y_range }
    }
}


/// Splitting a span keeps each half inside it, and the two halves cover it.
pub proof fn lemma_halves(s: Span, v: int)
    ensures
        span_has(lower_half(s), v) ==> span_has(s, v),
        span_has(upper_half(s), v) ==> span_has(s, v),
        span_has(s, v) ==> (span_has(lower_half(s), v) || span_has(upper_half(s), v)),
        !(span_has(lower_half(s), v) && span_has(upper_half(s), v)),
        span_width(lower_half(s)) <= span_width(s),
        span_width(upper_half(s)) <= span_width(s),
        span_width(s) >= 2 ==> span_width(lower_half(s)) < span_width(s),
        span_width(s) >= 2 ==> span_width(upper_half(s)) < span_width(s),
{
}

/// Every quadrant of a rectangle that can be split is smaller than it,
/// lies inside it, and together the quadrants cover it.
pub proof fn lemma_quadrants(x: Span, y: Span, p: Vec2)
    requires
        splittable(x, y),
    ensures
        span_width(lower_half(x)) + span_width(lower_half(y)) < span_width(x) + span_width(y),
        span_width(lower_half(x)) + span_width(upper_half(y)) < span_width(x) + span_width(y),
        span_width(upper_half(x)) + span_width(lower_half(y)) < span_width(x) + span_width(y),
        span_width(upper_half(x)) + span_width(upper_half(y)) < span_width(x) + span_width(y),
        rect_has(lower_half(x), upper_half(y), p) ==> rect_has(x, y, p),
        rect_has(upper_half(x), upper_half(y), p) ==> rect_has(x, y, p),
        rect_has(lower_half(x), lower_half(y), p) ==> rect_has(x, y, p),
        rect_has(upper_half(x), lower_half(y), p) ==> rect_has(x, y, p),
        rect_has(x, y, p) ==> (rect_has(lower_half(x), upper_half(y), p) || rect_has(
            upper_half(x),
            upper_half(y),
            p,
        ) || rect_has(lower_half(x), lower_half(y), p) || rect_has(upper_half(x), lower_half(y), p)),
{
    lemma_halves(x, p.x as int);
    lemma_halves(y, p.y as int);
}

proof fn lemma_concat4_multiset(a: Seq<Boid>, b: Seq<Boid>, c: Seq<Boid>, d: Seq<Boid>)
    ensures
        (a + b + c + d).to_multiset() == a.to_multiset().add(b.to_multiset()).add(
            c.to_multiset(),
        ).add(d.to_multiset()),
{
    lemma_multiset_commutative(a + b + c, d);
    lemma_multiset_commutative(a + b, c);
    lemma_multiset_commutative(a, b);
}


impl QuadTree {
    /// Whether the node's bound covers more than one integer point.
    fn can_split(&self) -> (r: bool)
        ensures
            r == splittable(self.x_range, self.y_range),
    {
        (self.x_range.end as i128) - (self.x_range.start as i128) >= 2 || (self.y_range.end as i128)
            - (self.y_range.start as i128) >= 2
    }

    /// Turns a leaf into an interior node whose quadrants hold its agents.
    fn subdivide(&mut self)
        requires
            old(self).wf(),
            !old(self).is_interior(),
            splittable(old(self).x_range, old(self).y_range),
        ensures
            final(self).wf(),
            final(self).is_interior(),
            final(self).x_range == old(self).x_range,
            final(self).y_range == old(self).y_range,
            final(self).agents().to_multiset() == old(self).agents().to_multiset(),
            final(self).own_agents() == Seq::<Boid>::empty(),
            forall|k: int|
                0 <= k < 4 ==> !(#[trigger] final(self).child(k)).is_interior()
                    && final(self).child(k).own_agents() == old(self).own_agents().filter(
                    inside(quadrant_x(old(self).x_range, k), quadrant_y(old(self).y_range, k)),
                ),
    {
        broadcast use vstd::seq_lib::group_to_multiset_ensures;
        broadcast use vstd::multiset::group_multiset_axioms;

        let xs = self.x_range;
        let ys = self.y_range;
        let x_mid = xs.midpoint();
        let y_mid = ys.midpoint();
        let mut nw = QuadTree::new(Span::new(xs.start, x_mid), Span::new(y_mid, ys.end));
        let mut ne = QuadTree::new(Span::new(x_mid, xs.end), Span::new(y_mid, ys.end));
        let mut sw = QuadTree::new(Span::new(xs.start, x_mid), Span::new(ys.start, y_mid));
        let mut se = QuadTree::new(Span::new(x_mid, xs.end), Span::new(ys.start, y_mid));
        let n = self.boids.len();
        let mut i: usize = 0;
        while i < n
            invariant
                *self == *old(self),
                self.wf(),
                !self.is_interior(),
                splittable(xs, ys),
                xs == self.x_range,
                ys == self.y_range,
                n == self.boids.len(),
                n <= CAPACITY,
                0 <= i <= n,
                nw.x_range == lower_half(xs) && nw.y_range == upper_half(ys),
                ne.x_range == upper_half(xs) && ne.y_range == upper_half(ys),
                sw.x_range == lower_half(xs) && sw.y_range == lower_half(ys),
                se.x_range == upper_half(xs) && se.y_range == lower_half(ys),
                nw.quadrants is None && ne.quadrants is None,
                sw.quadrants is None && se.quadrants is None,
                nw.wf() && ne.wf() && sw.wf() && se.wf(),
                nw.boids.len() <= i && ne.boids.len() <= i,
                sw.boids.len() <= i && se.boids.len() <= i,
                nw.boids@.to_multiset().add(ne.boids@.to_multiset()).add(
                    sw.boids@.to_multiset(),
                ).add(se.boids@.to_multiset()) == self.boids@.subrange(0, i as int).to_multiset(),
                nw.boids@ == self.boids@.subrange(0, i as int).filter(
                    inside(lower_half(xs), upper_half(ys)),
                ),
                ne.boids@ == self.boids@.subrange(0, i as int).filter(
                    inside(upper_half(xs), upper_half(ys)),
                ),
                sw.boids@ == self.boids@.subrange(0, i as int).filter(
                    inside(lower_half(xs), lower_half(ys)),
                ),
                se.boids@ == self.boids@.subrange(0, i as int).filter(
                    inside(upper_half(xs), lower_half(ys)),
                ),
            decreases n - i,
        {
            let b = self.boids[i];
            let p = b.position;
            proof {
                lemma_quadrants(xs, ys, p);
                assert(self.boids@.subrange(0, i + 1) =~= self.boids@.subrange(0, i as int).push(
                    b,
                ));
            }
            let ghost m_nw = nw.boids@.to_multiset();
            let ghost m_ne = ne.boids@.to_multiset();
            let ghost m_sw = sw.boids@.to_multiset();
            let ghost m_se = se.boids@.to_multiset();
            let ghost done = self.boids@.subrange(0, i as int);
            proof {
                lemma_halves(xs, p.x as int);
                lemma_halves(ys, p.y as int);
                lemma_filter_push(done, b, inside(lower_half(xs), upper_half(ys)));
                lemma_filter_push(done, b, inside(upper_half(xs), upper_half(ys)));
                lemma_filter_push(done, b, inside(lower_half(xs), lower_half(ys)));
                lemma_filter_push(done, b, inside(upper_half(xs), lower_half(ys)));
            }
            if nw.x_range.contains(p.x) && nw.y_range.contains(p.y) {
                let ghost prev = nw.boids@;
                nw.boids.push(b);
                proof {
                    assert(nw.boids@ == prev.push(b));
                    prev.to_multiset_ensures();
                    assert(nw.boids@.to_multiset() == m_nw.insert(b));
                }
            } else if ne.x_range.contains(p.x) && ne.y_range.contains(p.y) {
                let ghost prev = ne.boids@;
                ne.boids.push(b);
                proof {
                    assert(ne.boids@ == prev.push(b));
                    prev.to_multiset_ensures();
                    assert(ne.boids@.to_multiset() == m_ne.insert(b));
                }
            } else if sw.x_range.contains(p.x) && sw.y_range.contains(p.y) {
                let ghost prev = sw.boids@;
                sw.boids.push(b);
                proof {
                    assert(sw.boids@ == prev.push(b));
                    prev.to_multiset_ensures();
                    assert(sw.boids@.to_multiset() == m_sw.insert(b));
                }
            } else {
                let ghost prev = se.boids@;
                se.boids.push(b);
                proof {
                    assert(se.boids@ == prev.push(b));
                    prev.to_multiset_ensures();
                    assert(se.boids@.to_multiset() == m_se.insert(b));
                }
            }
            proof {
                done.to_multiset_ensures();
                assert(nw.boids@.to_multiset().add(ne.boids@.to_multiset()).add(
                    sw.boids@.to_multiset(),
                ).add(se.boids@.to_multiset()) =~= self.boids@.subrange(0, i + 1).to_multiset());
            }
            i = i + 1;
        }
        proof {
            assert(self.boids@.subrange(0, n as int) =~= self.boids@);
            lemma_concat4_multiset(nw.boids@, ne.boids@, sw.boids@, se.boids@);
        }
        self.boids = Vec::new();
        proof {
            assert(nw.agents() == nw.boids@);
            assert(ne.agents() == ne.boids@);
            assert(sw.agents() == sw.boids@);
            assert(se.agents() == se.boids@);
        }
        self.quadrants = Some(
            Box::new(Quadrants { northwest: nw, northeast: ne, southwest: sw, southeast: se }),
        );
    }
}

impl QuadTree {
    /// Adds `boid` under the node. Fails, leaving the node as it was, when
    /// the agent's position lies outside the node's bound; otherwise a full
    /// leaf first splits into quadrants, and the agent goes to the first
    /// quadrant, in the order northwest, northeast, southwest, southeast,
    /// that contains it.
    pub fn insert(&mut self, boid: Boid) -> (r: bool)
        requires
            old(self).wf(),
        ensures
            final(self).wf(),
            final(self).x_bound() == old(self).x_bound(),
            final(self).y_bound() == old(self).y_bound(),
            r == rect_has(old(self).x_bound(), old(self).y_bound(), boid.position),
            r ==> final(self).agents().to_multiset() == old(self).agents().to_multiset().insert(
                boid,
            ),
            !r ==> *final(self) == *old(self),
            final(self).shape() == shape_insert(old(self).shape(), boid),
            old(self).is_interior() ==> final(self).is_interior(),
            final(self).is_interior() ==> final(self).own_agents() == Seq::<Boid>::empty(),
            r && !old(self).is_interior()
                && (old(self).own_agents().len() < CAPACITY
                    || !splittable(old(self).x_bound(), old(self).y_bound()))
                ==> !final(self).is_interior()
                    && final(self).own_agents() == old(self).own_agents().push(boid),
            r && !old(self).is_interior() && old(self).own_agents().len() >= CAPACITY
                && splittable(old(self).x_bound(), old(self).y_bound())
                ==> final(self).is_interior()
                    && (forall|k: int| 0 <= k < 4 && k != old(self).target_quadrant(boid)
                        ==> !(#[trigger] final(self).child(k)).is_interior()
                            && final(self).child(k).own_agents() == old(self).own_agents().filter(
                                inside(quadrant_x(old(self).x_bound(), k), quadrant_y(old(self).y_bound(), k))))
                    && final(self).child(old(self).target_quadrant(boid)).agents().to_multiset()
                        == old(self).own_agents().filter(
                            inside(
                                quadrant_x(old(self).x_bound(), old(self).target_quadrant(boid)),
                                quadrant_y(old(self).y_bound(), old(self).target_quadrant(boid)),
                            )).to_multiset().insert(boid),
            r && old(self).is_interior()
                ==> (forall|k: int| 0 <= k < 4 && k != old(self).target_quadrant(boid)
                        ==> #[trigger] final(self).child(k) == old(self).child(k))
                    && final(self).child(old(self).target_quadrant(boid)).agents().to_multiset()
                        == old(self).child(old(self).target_quadrant(boid)).agents().to_multiset().insert(boid),
        decreases old(self).extent(),
    {
        broadcast use vstd::seq_lib::group_to_multiset_ensures;
        broadcast use vstd::multiset::group_multiset_axioms;

        let pos = boid.position;
        if !(self.x_range.contains(pos.x) && self.y_range.contains(pos.y)) {
            return false;
        }
        if self.quadrants.is_none() {
            if self.boids.len() < CAPACITY || !self.can_split() {
                let ghost prev = self.boids@;
                self.boids.push(boid);
                proof {
                    prev.to_multiset_ensures();
                    assert(self.shape() == shape_insert(old(self).shape(), boid));
                }
                return true;
            }
            self.subdivide();
        }
        let ghost before = self.agents().to_multiset();
        let ghost split = *self;
        let mut q = *self.quadrants.take().unwrap();
        proof {
            lemma_quadrants(self.x_range, self.y_range, pos);
            lemma_concat4_multiset(
                q.northwest.agents(),
                q.northeast.agents(),
                q.southwest.agents(),
                q.southeast.agents(),
            );
        }
        let placed = if q.northwest.insert(boid) {
            true
        } else if q.northeast.insert(boid) {
            true
        } else if q.southwest.insert(boid) {
            true
        } else {
            q.southeast.insert(boid)
        };
        proof {
            lemma_concat4_multiset(
                q.northwest.agents(),
                q.northeast.agents(),
                q.southwest.agents(),
                q.southeast.agents(),
            );
        }
        self.quadrants = Some(Box::new(q));
        proof {
            assert(self.agents().to_multiset() =~= before.insert(boid));
            let t = split.target_quadrant(boid);
            assert(t == old(self).target_quadrant(boid));
            assert(forall|k: int| 0 <= k < 4 && k != t ==> #[trigger] self.child(k) == split.child(k));
            assert(self.child(t).agents().to_multiset() == split.child(t).agents().to_multiset().insert(boid));
            if !old(self).is_interior() {
                assert(split.child(t).agents() == split.child(t).own_agents());
                let ox = old(self).x_range;
                let oy = old(self).y_range;
                let oa = old(self).boids@;
                assert(forall|k: int| 0 <= k < 4 ==> (#[trigger] split.child(k)).shape()
                    == quadrant_leaf(ox, oy, oa, k));
            } else {
                assert(split.shape() == old(self).shape());
            }
            assert(self.child(t).shape() == shape_insert(split.child(t).shape(), boid));
            assert(forall|k: int| 0 <= k < 4 ==> (#[trigger] split.child(k)).extent() < split.extent());
            assert(forall|k: int| 0 <= k < 4 ==> (#[trigger] split.child(k)).shape().size() == split.child(k).extent());
            assert(old(self).shape().size() == split.extent());
            assert(old(self).shape().x() == split.x_range && old(self).shape().y() == split.y_range);
            assert(rect_has(old(self).shape().x(), old(self).shape().y(), boid.position));
            let s0 = self.child(0).shape();
            let s1 = self.child(1).shape();
            let s2 = self.child(2).shape();
            let s3 = self.child(3).shape();
            assert(self.shape() == Shape::Split {
                x: split.x_range,
                y: split.y_range,
                nw: Box::new(s0),
                ne: Box::new(s1),
                sw: Box::new(s2),
                se: Box::new(s3),
            });
            assert(self.shape() == shape_insert(old(self).shape(), boid));
        }
        placed
    }
}

/// The test that a query over `x` by `y` applies to each agent.
pub open spec fn inside(x: Span, y: Span) -> spec_fn(Boid) -> bool {
    |b: Boid| rect_has(x, y, b.position)
}

pub proof fn lemma_filter_push(s: Seq<Boid>, b: Boid, pred: spec_fn(Boid) -> bool)
    ensures
        s.push(b).filter(pred) == (if pred(b) {
            s.filter(pred).push(b)
        } else {
            s.filter(pred)
        }),
{
    reveal(Seq::filter);
    assert(s.push(b).drop_last() =~= s);
}

proof fn lemma_filter_none(s: Seq<Boid>, pred: spec_fn(Boid) -> bool)
    requires
        forall|i: int| 0 <= i < s.len() ==> !pred(#[trigger] s[i]),
    ensures
        s.filter(pred) == Seq::<Boid>::empty(),
    decreases s.len(),
{
    reveal(Seq::filter);
    if s.len() > 0 {
        lemma_filter_none(s.drop_last(), pred);
    }
}

impl QuadTree {
    /// In a well-formed tree every agent lies inside the root's bound.
    pub proof fn lemma_agents_inside(self)
        requires
            self.wf(),
        ensures
            forall|i: int|
                0 <= i < self.agents().len() ==> rect_has(
                    self.x_bound(),
                    self.y_bound(),
                    #[trigger] self.agents()[i].position,
                ),
        decreases self,
    {
        if let Some(q) = self.quadrants {
            q.northwest.lemma_agents_inside();
            q.northeast.lemma_agents_inside();
            q.southwest.lemma_agents_inside();
            q.southeast.lemma_agents_inside();
            let a = q.northwest.agents();
            let b = q.northeast.agents();
            let c = q.southwest.agents();
            let d = q.southeast.agents();
            assert forall|i: int| 0 <= i < self.agents().len() implies rect_has(
                self.x_range,
                self.y_range,
                #[trigger] self.agents()[i].position,
            ) by {
                let p = self.agents()[i].position;
                lemma_quadrants(self.x_range, self.y_range, p);
                if i < a.len() {
                    assert(p == a[i].position);
                } else if i < a.len() + b.len() {
                    assert(p == b[i - a.len()].position);
                } else if i < a.len() + b.len() + c.len() {
                    assert(p == c[i - a.len() - b.len()].position);
                } else {
                    assert(p == d[i - a.len() - b.len() - c.len()].position);
                }
            }
        }
    }

    /// Every agent with its position in the query rectangle, in the order
    /// of the tree's traversal: a leaf's own agents in the order they were
    /// stored, an interior node's quadrants northwest, northeast, southwest,
    /// southeast. A node whose bound does not meet the query is skipped.
    pub fn search_range(&self, x_range: Span, y_range: Span) -> (r: Vec<Boid>)
        requires
            self.wf(),
        ensures
            r@ == self.agents().filter(inside(x_range, y_range)),
        decreases self,
    {
        let mut results: Vec<Boid> = Vec::new();
        let overlap = self.x_range.start < x_range.end && x_range.start < self.x_range.end
            && self.y_range.start < y_range.end && y_range.start < self.y_range.end;
        if !overlap {
            proof {
                self.lemma_agents_inside();
                lemma_filter_none(self.agents(), inside(x_range, y_range));
            }
            return results;
        }
        match &self.quadrants {
            None => {
                let n = self.boids.len();
                let mut i: usize = 0;
                while i < n
                    invariant
                        n == self.boids.len(),
                        0 <= i <= n,
                        results@ == self.boids@.subrange(0, i as int).filter(
                            inside(x_range, y_range),
                        ),
                    decreases n - i,
                {
                    let b = self.boids[i];
                    proof {
                        assert(self.boids@.subrange(0, i + 1) =~= self.boids@.subrange(
                            0,
                            i as int,
                        ).push(b));
                        lemma_filter_push(
                            self.boids@.subrange(0, i as int),
                            b,
                            inside(x_range, y_range),
                        );
                    }
                    if x_range.contains(b.position.x) && y_range.contains(b.position.y) {
                        results.push(b);
                    }
                    i = i + 1;
                }
                proof {
                    assert(self.boids@.subrange(0, n as int) =~= self.boids@);
                }
                results
            },
            Some(q) => {
                let ghost pred = inside(x_range, y_range);
                let mut a = q.northwest.search_range(x_range, y_range);
                let mut b = q.northeast.search_range(x_range, y_range);
                let mut c = q.southwest.search_range(x_range, y_range);
                let mut d = q.southeast.search_range(x_range, y_range);
                results.append(&mut a);
                results.append(&mut b);
                results.append(&mut c);
                results.append(&mut d);
                proof {
                    let sa = q.northwest.agents();
                    let sb = q.northeast.agents();
                    let sc = q.southwest.agents();
                    let sd = q.southeast.agents();
                    Seq::filter_distributes_over_add(sa + sb + sc, sd, pred);
                    Seq::filter_distributes_over_add(sa + sb, sc, pred);
                    Seq::filter_distributes_over_add(sa, sb, pred);
                    assert(results@ =~= sa.filter(pred) + sb.filter(pred) + sc.filter(pred)
                        + sd.filter(pred));
                }
                results
            },
        }
    }
}

proof fn lemma_filter_all(s: Seq<Boid>, pred: spec_fn(Boid) -> bool)
    requires
        forall|i: int| 0 <= i < s.len() ==> pred(#[trigger] s[i]),
    ensures
        s.filter(pred) == s,
    decreases s.len(),
{
    reveal(Seq::filter);
    if s.len() > 0 {
        lemma_filter_all(s.drop_last(), pred);
        assert(s.drop_last().push(s.last()) =~= s);
    }
}

impl QuadTree {
    /// Capacity: in a well-formed tree every leaf holds at most `CAPACITY`
    /// agents, unless its bound is a single point and so cannot be split.
    pub proof fn lemma_capacity(self)
        requires
            self.wf(),
        ensures
            self.within_capacity(),
        decreases self,
    {
        if let Some(q) = self.quadrants {
            q.northwest.lemma_capacity();
            q.northeast.lemma_capacity();
            q.southwest.lemma_capacity();
            q.southeast.lemma_capacity();
        }
    }

    /// Containment: in a well-formed tree every agent lies inside the bound
    /// of each node from the root down to the node that holds it.
    pub proof fn lemma_containment(self)
        requires
            self.wf(),
        ensures
            self.contained(),
        decreases self,
    {
        self.lemma_agents_inside();
        if let Some(q) = self.quadrants {
            q.northwest.lemma_containment();
            q.northeast.lemma_containment();
            q.southwest.lemma_containment();
            q.southeast.lemma_containment();
        }
    }

    /// A query over the tree's whole bound returns every agent the tree
    /// holds, each once.
    pub proof fn lemma_full_scan(self)
        requires
            self.wf(),
        ensures
            self.agents().filter(inside(self.x_bound(), self.y_bound())) == self.agents(),
    {
        self.lemma_agents_inside();
        lemma_filter_all(self.agents(), inside(self.x_bound(), self.y_bound()));
    }

    /// Inserting an agent, whether or not it makes a leaf split, loses none
    /// of those already there: a full scan afterwards returns what a full
    /// scan returned before, with the new agent added.
    pub proof fn lemma_insert_keeps_all(before: QuadTree, after: QuadTree, boid: Boid)
        requires
            before.wf(),
            after.wf(),
            after.x_bound() == before.x_bound(),
            after.y_bound() == before.y_bound(),
            after.agents().to_multiset() == before.agents().to_multiset().insert(boid),
        ensures
            after.agents().filter(inside(after.x_bound(), after.y_bound())).to_multiset()
                == before.agents().filter(inside(before.x_bound(), before.y_bound())).to_multiset().insert(boid),
    {
        before.lemma_full_scan();
        after.lemma_full_scan();
    }
}

proof fn lemma_inserted_prefix(trees: Seq<QuadTree>, boids: Seq<Boid>, i: int)
    requires
        trees.len() == boids.len() + 1,
        trees[0].agents() == Seq::<Boid>::empty(),
        forall|j: int|
            0 <= j < boids.len() ==> #[trigger] trees[j + 1].agents().to_multiset() == trees[j].agents().to_multiset().insert(boids[j]),
        0 <= i <= boids.len(),
    ensures
        trees[i].agents().to_multiset() == boids.subrange(0, i).to_multiset(),
    decreases i,
{
    broadcast use vstd::seq_lib::group_to_multiset_ensures;
    broadcast use vstd::multiset::group_multiset_axioms;

    if i == 0 {
        assert(boids.subrange(0, 0) =~= Seq::<Boid>::empty());
        assert(trees[0].agents().to_multiset() =~= boids.subrange(0, 0).to_multiset());
    } else {
        lemma_inserted_prefix(trees, boids, i - 1);
        let pre = boids.subrange(0, i - 1);
        assert(boids.subrange(0, i) =~= pre.push(boids[i - 1]));
        pre.to_multiset_ensures();
        assert(trees[(i - 1) + 1].agents().to_multiset() == trees[i - 1].agents().to_multiset().insert(boids[i - 1]));
    }
}

impl QuadTree {
    /// No loss on a full scan: when agents inside the bound are inserted
    /// one by one into an empty tree (`trees[j + 1]` is `trees[j]` after
    /// the successful insert of `boids[j]`), a query over the whole bound
    /// of the last tree returns exactly those agents, as many as were
    /// inserted.
    pub proof fn lemma_inserts_then_scan(trees: Seq<QuadTree>, boids: Seq<Boid>)
        requires
            trees.len() == boids.len() + 1,
            trees[0].agents() == Seq::<Boid>::empty(),
            forall|j: int|
                0 <= j < trees.len() ==> (#[trigger] trees[j]).wf() && trees[j].x_bound()
                    == trees[0].x_bound() && trees[j].y_bound() == trees[0].y_bound(),
            forall|j: int|
                0 <= j < boids.len() ==> rect_has(
                    trees[0].x_bound(),
                    trees[0].y_bound(),
                    (#[trigger] boids[j]).position,
                ),
            forall|j: int|
                0 <= j < boids.len() ==> #[trigger] trees[j + 1].agents().to_multiset() == trees[j].agents().to_multiset().insert(boids[j]),
        ensures
            trees.last().agents().filter(inside(trees[0].x_bound(), trees[0].y_bound())).to_multiset()
                == boids.to_multiset(),
            trees.last().agents().filter(inside(trees[0].x_bound(), trees[0].y_bound())).len()
                == boids.len(),
    {
        broadcast use vstd::seq_lib::group_to_multiset_ensures;

        let n = boids.len() as int;
        lemma_inserted_prefix(trees, boids, n);
        assert(boids.subrange(0, n) =~= boids);
        let last = trees[n];
        assert(last.wf());
        last.lemma_full_scan();
        last.agents().to_multiset_ensures();
        boids.to_multiset_ensures();
    }
}

} // verus!
