use vstd::prelude::*;
use crate::geometry::{within_limit, Span};
use crate::quadtree::{lower_half, upper_half, QuadTree, Shape};

verus! {

/// One fixed quadrant of the world.
#[derive(Clone, Copy, Debug, PartialEq, Eq, Structural)]
pub struct WorldRegion {
    pub x_range: Span,
    pub y_range: Span,
}

impl WorldRegion {
    fn new(x_range: Span, y_range: Span) -> (r: WorldRegion)
        ensures
            r == (WorldRegion { x_range, y_range }),
    {
        WorldRegion { x_range, y_range }
    }
}

/// The world's bound and its fixed split into four quadrants.
pub struct WorldDimensions {
    pub max_x: i64,
    pub max_y: i64,
    pub min_x: i64,
    pub min_y: i64,
    pub regions: Vec<WorldRegion>,
}

impl WorldDimensions {
    /// The world's horizontal extent.
    pub open spec fn x_span(self) -> Span {
        Span { start: self.min_x, end: self.max_x }
    }

    /// The world's vertical extent.
    pub open spec fn y_span(self) -> Span {
        Span { start: self.min_y, end: self.max_y }
    }

    /// The four quadrants of the world, split at its midpoint, in the order
    /// northwest, northeast, southwest, southeast (north is the upper half
    /// in `y`).
    pub open spec fn quadrants(self) -> Seq<WorldRegion> {
        let x = self.x_span();
        let y = self.y_span();
        seq![
            WorldRegion { x_range: lower_half(x), y_range: upper_half(y) },
            WorldRegion { x_range: upper_half(x), y_range: upper_half(y) },
            WorldRegion { x_range: lower_half(x), y_range: lower_half(y) },
            WorldRegion { x_range: upper_half(x), y_range: lower_half(y) },
        ]
    }

    /// Whether the world's bound lies within the coordinate limit.
    pub open spec fn within_limit(self) -> bool {
        &&& within_limit(self.min_x as int)
        &&& within_limit(self.max_x as int)
        &&& within_limit(self.min_y as int)
        &&& within_limit(self.max_y as int)
    }

    /// The world spanning `min_x` to `max_x` and `min_y` to `max_y`, with
    /// its four quadrants.
    pub fn new(max_x: i64, min_x: i64, max_y: i64, min_y: i64) -> (r: WorldDimensions)
        ensures
            r.max_x == max_x && r.min_x == min_x,
            r.max_y == max_y && r.min_y == min_y,
            r.regions@ == r.quadrants(),
    {
        let x = Span::new(min_x, max_x);
        let y = Span::new(min_y, max_y);
        let x_mid = x.midpoint();
        let y_mid = y.midpoint();
        let regions = vec![
            WorldRegion::new(Span::new(min_x, x_mid), Span::new(y_mid, max_y)),
            WorldRegion::new(Span::new(x_mid, max_x), Span::new(y_mid, max_y)),
            WorldRegion::new(Span::new(min_x, x_mid), Span::new(min_y, y_mid)),
            WorldRegion::new(Span::new(x_mid, max_x), Span::new(min_y, y_mid)),
        ];
        let r = WorldDimensions { min_x, max_x, min_y, max_y, regions };
        assert(r.regions@ =~= r.quadrants());
        r
    }
}

/// The live spatial index of the simulation.
pub struct BoidInfo {
    pub qt: QuadTree,
}

impl BoidInfo {
    /// An empty index over the world spanning `x_min` to `x_max` and
    /// `y_min` to `y_max`.
    pub fn new(x_max: i64, x_min: i64, y_max: i64, y_min: i64) -> (r: BoidInfo)
        ensures
            r.qt.wf(),
            r.qt.x_bound() == (Span { start: x_min, end: x_max }),
            r.qt.y_bound() == (Span { start: y_min, end: y_max }),
            r.qt.agents() == Seq::<crate::boid::Boid>::empty(),
            !r.qt.is_interior(),
            r.qt.shape() == (Shape::Leaf {
                x: Span { start: x_min, end: x_max },
                y: Span { start: y_min, end: y_max },
                agents: Seq::<crate::boid::Boid>::empty(),
            }),
    {
        BoidInfo { qt: QuadTree::new(Span::new(x_min, x_max), Span::new(y_min, y_max)) }
    }
}

impl Default for BoidInfo {
    /// An empty index over the unit square.
    fn default() -> (r: BoidInfo)
        ensures
            r.qt.wf(),
            r.qt.x_bound() == (Span { start: 0, end: 1 }),
            r.qt.y_bound() == (Span { start: 0, end: 1 }),
            r.qt.agents() == Seq::<crate::boid::Boid>::empty(),
            !r.qt.is_interior(),
    {
        BoidInfo::new(1, 0, 1, 0)
    }
}

/// Whether the simulation advances.
#[derive(Clone, Copy, Debug, PartialEq, Eq, Structural)]
pub enum CurrentState {
    Running,
    Paused,
}

impl Default for CurrentState {
    fn default() -> (r: CurrentState)
        ensures
            r == CurrentState::Paused,
    {
        CurrentState::Paused
    }
}

} // verus!
