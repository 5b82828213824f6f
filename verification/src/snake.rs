//! A run-length-encoded snake: a head position plus a list of directed
//! segments, moving on a fixed 300 x 300 toroidal board.

use vstd::prelude::*;

verus! {

/// Board width of the run-length snake's board.
pub const BOARD_WIDTH: i32 = 300;

/// Board height of the run-length snake's board.
pub const BOARD_HEIGHT: i32 = 300;

/// An axis-aligned unit heading.
#[derive(Clone, Copy, Debug, PartialEq, Eq, Structural)]
pub enum Direction {
    XPositive,
    XNegative,
    YPositive,
    YNegative,
}

impl Direction {
    /// The x component of this heading.
    pub fn x_offset(&self) -> (dx: i32)
        ensures
            dx == x_offset_of(*self),
    {
        match self {
            Direction::XNegative => -1,
            Direction::XPositive => 1,
            Direction::YNegative => 0,
            Direction::YPositive => 0,
        }
    }

    /// The y component of this heading.
    pub fn y_offset(&self) -> (dy: i32)
        ensures
            dy == y_offset_of(*self),
    {
        match self {
            Direction::YNegative => -1,
            Direction::YPositive => 1,
            Direction::XNegative => 0,
            Direction::XPositive => 0,
        }
    }

    /// The heading pointing the opposite way.
    pub fn opposite(&self) -> (d: Direction)
        ensures
            d == opposite_of(*self),
    {
        match self {
            Direction::YNegative => Self::YPositive,
            Direction::YPositive => Self::YNegative,
            Direction::XNegative => Self::XPositive,
            Direction::XPositive => Self::XNegative,
        }
    }
}

/// The x component of a heading.
pub open spec fn x_offset_of(d: Direction) -> int {
    match d {
        Direction::XNegative => -1,
        Direction::XPositive => 1,
        Direction::YNegative => 0,
        Direction::YPositive => 0,
    }
}

/// The y component of a heading.
pub open spec fn y_offset_of(d: Direction) -> int {
    match d {
        Direction::YNegative => -1,
        Direction::YPositive => 1,
        Direction::XNegative => 0,
        Direction::XPositive => 0,
    }
}

/// The reverse of a heading.
pub open spec fn opposite_of(d: Direction) -> Direction {
    match d {
        Direction::YNegative => Direction::YPositive,
        Direction::YPositive => Direction::YNegative,
        Direction::XNegative => Direction::XPositive,
        Direction::XPositive => Direction::XNegative,
    }
}

/// A quarter turn, to the snake's left or right.
pub enum TurnDirection {
    Left,
    Right,
}

/// The heading after a quarter turn from `current`.
pub open spec fn turned(t: TurnDirection, current: Direction) -> Direction {
    match t {
        TurnDirection::Left => match current {
            Direction::XNegative => Direction::YPositive,
            Direction::XPositive => Direction::YNegative,
            Direction::YNegative => Direction::XNegative,
            Direction::YPositive => Direction::XPositive,
        },
        TurnDirection::Right => match current {
            Direction::XNegative => Direction::YNegative,
            Direction::XPositive => Direction::YPositive,
            Direction::YNegative => Direction::XPositive,
            Direction::YPositive => Direction::XNegative,
        },
    }
}

impl TurnDirection {
    /// Apply this quarter turn to a heading.
    pub fn turn(&self, current_direction: &Direction) -> (d: Direction)
        ensures
            d == turned(*self, *current_direction),
    {
        match self {
            TurnDirection::Left => match current_direction {
                Direction::XNegative => Direction::YPositive,
                Direction::XPositive => Direction::YNegative,
                Direction::YNegative => Direction::XNegative,
                Direction::YPositive => Direction::XPositive,
            },
            TurnDirection::Right => match current_direction {
                Direction::XNegative => Direction::YNegative,
                Direction::XPositive => Direction::YPositive,
                Direction::YNegative => Direction::XPositive,
                Direction::YPositive => Direction::XNegative,
            },
        }
    }
}

/// A board position, also usable as an offset.
#[derive(Clone, Copy, Debug, PartialEq, Eq, Structural)]
pub struct Point2D {
    pub x: i32,
    pub y: i32,
}

/// The point reached from `p` by going `distance` cells along `d`, wrapped
/// toroidally into the board.
pub open spec fn stepped(p: Point2D, d: Direction, distance: int) -> Point2D {
    Point2D {
        x: ((p.x + x_offset_of(d) * distance + BOARD_WIDTH) % (BOARD_WIDTH as int)) as i32,
        y: ((p.y + y_offset_of(d) * distance + BOARD_HEIGHT) % (BOARD_HEIGHT as int)) as i32,
    }
}

/// The unwrapped step from `p` stays inside the board's x range and lands at
/// or above row zero. A step with this flag set is not treated as a
/// continuation of the leading run when the snake moves.
pub open spec fn unwrapped_step_at_top(p: Point2D, d: Direction, distance: int) -> bool {
    let nx = p.x + x_offset_of(d) * distance;
    let ny = p.y + y_offset_of(d) * distance;
    nx < BOARD_WIDTH && nx >= 0 && ny < BOARD_HEIGHT && ny <= 0
}

impl Point2D {
    /// Move `distance` cells along `direction`, wrapping toroidally; also
    /// report whether the unwrapped step stayed in the top row of the board.
    pub fn add_direction(&self, direction: &Direction, distance: i32) -> (r: (Point2D, bool))
        requires
            0 <= self.x < BOARD_WIDTH,
            0 <= self.y < BOARD_HEIGHT,
            0 <= distance <= BOARD_WIDTH,
            distance <= BOARD_HEIGHT,
        ensures
            r.0 == stepped(*self, *direction, distance as int),
            0 <= r.0.x < BOARD_WIDTH,
            0 <= r.0.y < BOARD_HEIGHT,
            r.1 == unwrapped_step_at_top(*self, *direction, distance as int),
    {
        let dx = direction.x_offset();
        let dy = direction.y_offset();
        proof {
            assert(-BOARD_WIDTH <= dx * distance <= BOARD_WIDTH) by (nonlinear_arith)
                requires
                    -1 <= dx <= 1,
                    0 <= distance <= BOARD_WIDTH,
            ;
            assert(-BOARD_HEIGHT <= dy * distance <= BOARD_HEIGHT) by (nonlinear_arith)
                requires
                    -1 <= dy <= 1,
                    0 <= distance <= BOARD_HEIGHT,
            ;
        }
        let new_x = self.x + dx * distance;
        let new_y = self.y + dy * distance;
        (
            Point2D {
                x: (new_x + BOARD_WIDTH) % BOARD_WIDTH,
                y: (new_y + BOARD_HEIGHT) % BOARD_HEIGHT,
            },
            new_x < BOARD_WIDTH && new_x >= 0 && new_y < BOARD_HEIGHT && new_y <= 0,
        )
    }
}

/// One run of the snake's body: the direction back toward the tail and the
/// positive number of cells in the run.
#[derive(Clone, Copy, Debug, PartialEq, Eq, Structural)]
pub struct SnakeSegment {
    pub direction: Direction,
    pub length: i32,
}

/// Total number of cells over a list of runs.
pub open spec fn seg_sum(segs: Seq<SnakeSegment>) -> int
    decreases segs.len(),
{
    if segs.len() == 0 {
        0
    } else {
        seg_sum(segs.drop_last()) + segs.last().length
    }
}

/// Every run's length is at most the total when all runs are non-empty.
pub proof fn lemma_seg_sum_ge_each(segs: Seq<SnakeSegment>, i: int)
    requires
        0 <= i < segs.len(),
        forall|j: int| 0 <= j < segs.len() ==> (#[trigger] segs[j]).length >= 1,
    ensures
        segs[i].length <= seg_sum(segs),
        seg_sum(segs) >= segs.len(),
    decreases segs.len(),
{
    assert(segs[segs.len() - 1].length >= 1);
    assert(segs.last() == segs[segs.len() - 1]);
    if segs.len() == 1 {
        assert(segs.drop_last() =~= Seq::<SnakeSegment>::empty());
        assert(seg_sum(Seq::<SnakeSegment>::empty()) == 0);
    } else if i == segs.len() - 1 {
        lemma_seg_sum_ge_each(segs.drop_last(), 0);
    } else {
        lemma_seg_sum_ge_each(segs.drop_last(), i);
        assert(segs.drop_last()[i] == segs[i]);
    }
}

/// Replacing one run changes the total by the difference of run lengths.
pub proof fn lemma_seg_sum_update(segs: Seq<SnakeSegment>, i: int, seg: SnakeSegment)
    requires
        0 <= i < segs.len(),
    ensures
        seg_sum(segs.update(i, seg)) == seg_sum(segs) - segs[i].length + seg.length,
    decreases segs.len(),
{
    let su = segs.update(i, seg);
    if i == segs.len() - 1 {
        assert(su.drop_last() =~= segs.drop_last());
    } else {
        assert(su.drop_last() =~= segs.drop_last().update(i, seg));
        lemma_seg_sum_update(segs.drop_last(), i, seg);
    }
}

/// Adding a run at the front adds its length to the total.
pub proof fn lemma_seg_sum_prepend(seg: SnakeSegment, segs: Seq<SnakeSegment>)
    ensures
        seg_sum(seq![seg] + segs) == seg.length + seg_sum(segs),
    decreases segs.len(),
{
    let s = seq![seg] + segs;
    if segs.len() == 0 {
        assert(s.drop_last() =~= Seq::<SnakeSegment>::empty());
        assert(seg_sum(Seq::<SnakeSegment>::empty()) == 0);
        assert(s.last() == seg);
    } else {
        assert(s.drop_last() =~= seq![seg] + segs.drop_last());
        assert(s.last() == segs.last());
        lemma_seg_sum_prepend(seg, segs.drop_last());
    }
}

/// The run list after the snake's tail retreats by one cell: the last run
/// shrinks, and disappears when it held a single cell.
pub open spec fn shrunk_tail(segs: Seq<SnakeSegment>) -> Seq<SnakeSegment> {
    if segs.last().length == 1 {
        segs.drop_last()
    } else {
        segs.update(
            segs.len() - 1,
            SnakeSegment {
                direction: segs.last().direction,
                length: (segs.last().length - 1) as i32,
            },
        )
    }
}

/// The run list after the snake's head advances one cell along `d`: the
/// leading run grows when it already points back along `d` and the step kept
/// the flag clear, else a new single-cell run is put in front.
pub open spec fn grown_head(segs: Seq<SnakeSegment>, d: Direction, at_top: bool) -> Seq<
    SnakeSegment,
> {
    if opposite_of(d) == segs[0].direction && !at_top {
        segs.update(
            0,
            SnakeSegment { direction: segs[0].direction, length: (segs[0].length + 1) as i32 },
        )
    } else {
        seq![SnakeSegment { direction: opposite_of(d), length: 1i32 }] + segs
    }
}

/// Total number of cells in every snake this module builds.
pub const START_LENGTH: i32 = 2;

/// A snake stored by run-length: the head position, the current heading,
/// and the runs leading from the head back to the tail.
pub struct Snake {
    pub start: Point2D,
    pub direction: Direction,
    pub segments: Vec<SnakeSegment>,
}

impl Snake {
    /// The head is on the board, there is at least one run, every run is
    /// non-empty, and the total number of cells is conserved.
    pub open spec fn wf(self) -> bool {
        &&& 0 <= self.start.x < BOARD_WIDTH
        &&& 0 <= self.start.y < BOARD_HEIGHT
        &&& self.segments@.len() >= 1
        &&& forall|i: int| 0 <= i < self.segments@.len() ==> (#[trigger] self.segments@[i]).length >= 1
        &&& seg_sum(self.segments@) == START_LENGTH
    }

    /// The cells' corner points from the head to the tail: the head, then
    /// the endpoint of each run in turn.
    pub open spec fn points(self) -> Seq<Point2D> {
        points_from(self.start, self.segments@)
    }

    /// A two-cell snake heading left from `(5, 5)`.
    pub fn new() -> (s: Snake)
        ensures
            s.wf(),
            s.start == (Point2D { x: 5i32, y: 5i32 }),
            s.direction == Direction::XNegative,
            s.segments@ == seq![
                SnakeSegment { direction: Direction::XPositive, length: START_LENGTH },
            ],
    {
        let mut segments: Vec<SnakeSegment> = Vec::new();
        segments.push(SnakeSegment { direction: Direction::XPositive, length: START_LENGTH });
        let s = Snake { start: Point2D { x: 5, y: 5 }, direction: Direction::XNegative, segments };
        proof {
            assert(s.segments@.drop_last() =~= Seq::<SnakeSegment>::empty());
            assert(seg_sum(Seq::<SnakeSegment>::empty()) == 0);
            assert(s.segments@.last().length == START_LENGTH);
        }
        s
    }

    /// Advance one cell along the heading: the tail run shrinks, the head
    /// moves, and the leading run grows or a new one is created.
    pub fn move_forward(&mut self)
        requires
            old(self).wf(),
        ensures
            final(self).wf(),
            final(self).direction == old(self).direction,
            final(self).start == stepped(old(self).start, old(self).direction, 1),
            final(self).segments@ == grown_head(
                shrunk_tail(old(self).segments@),
                old(self).direction,
                unwrapped_step_at_top(old(self).start, old(self).direction, 1),
            ),
            seg_sum(final(self).segments@) == seg_sum(old(self).segments@),
    {
        let ghost segs0 = self.segments@;
        let last_i = self.segments.len() - 1;
        let last = self.segments[last_i];
        proof {
            lemma_seg_sum_ge_each(segs0, last_i as int);
        }
        if last.length == 1 {
            self.segments.pop();
            proof {
                assert(self.segments@ =~= segs0.drop_last());
                if segs0.len() == 1 {
                    assert(segs0.drop_last() =~= Seq::<SnakeSegment>::empty());
                    assert(seg_sum(Seq::<SnakeSegment>::empty()) == 0);
                    assert(seg_sum(segs0) == segs0.last().length);
                }
            }
        } else {
            self.segments.set(
                last_i,
                SnakeSegment { direction: last.direction, length: last.length - 1 },
            );
            proof {
                lemma_seg_sum_update(
                    segs0,
                    last_i as int,
                    SnakeSegment { direction: last.direction, length: (last.length - 1) as i32 },
                );
            }
        }
        let ghost segs1 = self.segments@;
        assert(segs1 == shrunk_tail(segs0));
        assert(seg_sum(segs1) == START_LENGTH - 1);
        assert(self.segments.len() >= 1);
        let (new_start, crossed_board) = self.start.add_direction(&self.direction, 1);
        self.start = new_start;
        let first = self.segments[0];
        proof {
            lemma_seg_sum_ge_each(segs1, 0);
        }
        let opposite = self.direction.opposite();
        if opposite == first.direction && !crossed_board {
            self.segments.set(
                0,
                SnakeSegment { direction: first.direction, length: first.length + 1 },
            );
            proof {
                lemma_seg_sum_update(
                    segs1,
                    0,
                    SnakeSegment { direction: first.direction, length: (first.length + 1) as i32 },
                );
            }
        } else {
            self.segments.insert(0, SnakeSegment { direction: opposite, length: 1 });
            proof {
                assert(self.segments@ =~= seq![
                    SnakeSegment { direction: opposite_of(old(self).direction), length: 1i32 },
                ] + segs1);
                lemma_seg_sum_prepend(
                    SnakeSegment { direction: opposite_of(old(self).direction), length: 1i32 },
                    segs1,
                );
            }
        }
    }

    /// Apply a quarter turn to the heading; the body is unchanged.
    pub fn turn(&mut self, turn_direction: TurnDirection)
        ensures
            final(self).direction == turned(turn_direction, old(self).direction),
            final(self).start == old(self).start,
            final(self).segments == old(self).segments,
            final(self).wf() <==> old(self).wf(),
    {
        self.direction = turn_direction.turn(&self.direction);
    }

    /// The corner points of the body, head first.
    pub fn segments(&self) -> (points: Vec<Point2D>)
        requires
            self.wf(),
        ensures
            points@ == self.points(),
    {
        let mut points: Vec<Point2D> = Vec::new();
        let mut current = self.start;
        points.push(current);
        let mut i: usize = 0;
        while i < self.segments.len()
            invariant
                self.wf(),
                0 <= i <= self.segments@.len(),
                points@ == points_from(self.start, self.segments@.subrange(0, i as int)),
                points@.len() == i + 1,
                current == points@.last(),
                0 <= current.x < BOARD_WIDTH,
                0 <= current.y < BOARD_HEIGHT,
            decreases self.segments@.len() - i,
        {
            let segment = self.segments[i];
            proof {
                lemma_seg_sum_ge_each(self.segments@, i as int);
                lemma_points_from_push(
                    self.start,
                    self.segments@.subrange(0, i as int),
                    segment,
                );
                assert(self.segments@.subrange(0, i as int).push(segment) =~= self.segments@
                    .subrange(0, i as int + 1));
            }
            current = current.add_direction(&segment.direction, segment.length).0;
            points.push(current);
            i = i + 1;
        }
        proof {
            assert(self.segments@.subrange(0, self.segments@.len() as int) =~= self.segments@);
        }
        points
    }
}

/// The corner points walked from `p` along the runs `segs`: `p`, then each
/// run's endpoint in turn.
pub open spec fn points_from(p: Point2D, segs: Seq<SnakeSegment>) -> Seq<Point2D>
    decreases segs.len(),
{
    if segs.len() == 0 {
        seq![p]
    } else {
        seq![p] + points_from(
            stepped(p, segs[0].direction, segs[0].length as int),
            segs.drop_first(),
        )
    }
}

/// A walk over `n` runs visits `n + 1` points, starting at `p`.
pub proof fn lemma_points_from_len(p: Point2D, segs: Seq<SnakeSegment>)
    ensures
        points_from(p, segs).len() == segs.len() + 1,
        points_from(p, segs)[0] == p,
    decreases segs.len(),
{
    if segs.len() > 0 {
        lemma_points_from_len(
            stepped(p, segs[0].direction, segs[0].length as int),
            segs.drop_first(),
        );
    }
}

/// Appending a run appends that run's endpoint, computed from the previous
/// last point.
pub proof fn lemma_points_from_push(p: Point2D, segs: Seq<SnakeSegment>, seg: SnakeSegment)
    ensures
        points_from(p, segs.push(seg)) == points_from(p, segs).push(
            stepped(points_from(p, segs).last(), seg.direction, seg.length as int),
        ),
    decreases segs.len(),
{
    let q = stepped(p, seg.direction, seg.length as int);
    if segs.len() == 0 {
        assert(segs.push(seg)[0] == seg);
        assert(segs.push(seg).drop_first() =~= Seq::<SnakeSegment>::empty());
        assert(points_from(q, Seq::<SnakeSegment>::empty()) == seq![q]);
        assert(points_from(p, segs) == seq![p]);
        assert(points_from(p, segs.push(seg)) == seq![p] + seq![q]);
        assert(seq![p] + seq![q] =~= seq![p].push(q));
    } else {
        let p2 = stepped(p, segs[0].direction, segs[0].length as int);
        assert(segs.push(seg)[0] == segs[0]);
        assert(segs.push(seg).drop_first() =~= segs.drop_first().push(seg));
        lemma_points_from_push(p2, segs.drop_first(), seg);
        lemma_points_from_len(p2, segs.drop_first());
        let inner = points_from(p2, segs.drop_first());
        assert(points_from(p, segs) == seq![p] + inner);
        assert(points_from(p, segs).last() == inner.last());
        assert(points_from(p, segs.push(seg)) == seq![p] + inner.push(
            stepped(inner.last(), seg.direction, seg.length as int),
        ));
        assert(seq![p] + inner.push(stepped(inner.last(), seg.direction, seg.length as int)) =~= (
        seq![p] + inner).push(stepped(inner.last(), seg.direction, seg.length as int)));
    }
}

} // verus!
