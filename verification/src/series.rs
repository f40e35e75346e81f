//! Bounded sliding windows of per-tick deltas.

use vstd::prelude::*;

verus! {

/// One sample of a series: the delta recorded at a tick.
#[derive(Clone, Copy, Debug, PartialEq, Eq, Structural)]
pub struct Point {
    pub tick: u64,
    pub delta: u64,
}

/// The point that a series is reset to.
pub open spec fn zero_point() -> Point {
    Point { tick: 0, delta: 0 }
}

/// The window that results from appending `point` to `points` when at most
/// `capacity` points are kept: the oldest points give way, the others keep
/// their order.
pub open spec fn windowed(points: Seq<Point>, point: Point, capacity: nat) -> Seq<Point> {
    let all = points.push(point);
    if all.len() > capacity {
        all.skip(all.len() - capacity)
    } else {
        all
    }
}

/// Whether `m` is the largest delta among `points`, or zero when there is none.
pub open spec fn is_max_delta(points: Seq<Point>, m: u64) -> bool {
    &&& forall|i: int| 0 <= i < points.len() ==> points[i].delta <= m
    &&& points.len() == 0 ==> m == 0
    &&& points.len() > 0 ==> exists|i: int| 0 <= i < points.len() && points[i].delta == m
}

/// The mathematical content of a series.
pub struct SeriesView {
    /// The points in the window, oldest first.
    pub points: Seq<Point>,
    /// The maximum number of points in the window.
    pub capacity: nat,
}

impl SeriesView {
    /// The capacity is at least one point, and the window is never longer
    /// than its capacity.
    pub open spec fn inv(self) -> bool {
        0 < self.capacity && self.points.len() <= self.capacity
    }

    /// The series after `point` was appended.
    pub open spec fn pushed(self, point: Point) -> SeriesView {
        SeriesView { points: windowed(self.points, point, self.capacity), ..self }
    }

    /// The series after a reset: it holds the zero point alone.
    pub open spec fn reset(self) -> SeriesView {
        SeriesView { points: seq![zero_point()], ..self }
    }
}

/// A first-in, first-out window of points with a fixed maximum length.
#[derive(Debug)]
pub struct Series {
    points: Vec<Point>,
    capacity: usize,
}

impl View for Series {
    type V = SeriesView;

    closed spec fn view(&self) -> SeriesView {
        SeriesView { points: self.points@, capacity: self.capacity as nat }
    }
}

impl Series {
    /// The capacity is at least one point, and the series is within it.
    pub closed spec fn wf(&self) -> bool {
        self@.inv()
    }

    /// A well-formed series has a well-formed view.
    pub proof fn lemma_view_inv(&self)
        requires
            self.wf(),
        ensures
            self@.inv(),
    {
    }

    /// An empty series that keeps at most `capacity` points.
    pub fn new(capacity: usize) -> (s: Series)
        requires
            capacity > 0,
        ensures
            s.wf(),
            s@ == (SeriesView { points: Seq::empty(), capacity: capacity as nat }),
    {
        Series { points: Vec::new(), capacity }
    }

    /// The maximum number of points the series holds.
    pub fn capacity(&self) -> (c: usize)
        ensures
            c == self@.capacity,
    {
        self.capacity
    }

    /// The points in the window, oldest first.
    pub fn points(&self) -> (p: &Vec<Point>)
        ensures
            p@ == self@.points,
    {
        &self.points
    }

    /// The number of points in the window.
    pub fn len(&self) -> (n: usize)
        ensures
            n == self@.points.len(),
    {
        self.points.len()
    }

    /// Appends a point. A full window drops its oldest point, so it never
    /// holds more than `capacity` points.
    pub fn push(&mut self, point: Point)
        requires
            old(self).wf(),
        ensures
            final(self).wf(),
            final(self)@ == old(self)@.pushed(point),
            final(self)@.points.len() <= final(self)@.capacity,
    {
        self.points.push(point);
        if self.points.len() > self.capacity {
            self.points.remove(0);
            assert(self.points@ =~= old(self).points@.push(point).skip(1));
        }
    }

    /// Empties the window and records the zero point.
    pub fn reset(&mut self)
        requires
            old(self).wf(),
        ensures
            final(self).wf(),
            final(self)@ == old(self)@.reset(),
    {
        self.points.clear();
        self.points.push(Point { tick: 0, delta: 0 });
        assert(self.points@ =~= seq![zero_point()]);
    }

    /// The largest delta in the window, zero for an empty one.
    pub fn max_delta(&self) -> (m: u64)
        ensures
            is_max_delta(self@.points, m),
    {
        let mut m: u64 = 0;
        let mut i: usize = 0;
        while i < self.points.len()
            invariant
                i <= self.points.len(),
                is_max_delta(self.points@.take(i as int), m),
            decreases self.points.len() - i,
        {
            let ghost before = self.points@.take(i as int);
            let ghost after = self.points@.take(i + 1);
            let d = self.points[i].delta;
            proof {
                assert(forall|j: int| 0 <= j < i ==> after[j] == before[j]);
                assert(after[i as int] == self.points@[i as int]);
                if i > 0 && d <= m {
                    let w = choose|j: int| 0 <= j < before.len() && before[j].delta == m;
                    assert(after[w].delta == m);
                }
            }
            if d > m || i == 0 {
                m = d;
            }
            i += 1;
        }
        proof {
            assert(self.points@.take(self.points.len() as int) =~= self.points@);
        }
        m
    }
}

/// The lower bound of the display window after `tick` ticks, for series of
/// `window` points: zero until more ticks than the window is wide were
/// taken, then one more with every tick.
pub open spec fn window_low(tick: u64, window: nat) -> u64 {
    if tick > window {
        (tick - window) as u64
    } else {
        0
    }
}

/// The upper bound of the display window, always `window` above the lower one.
pub open spec fn window_high(tick: u64, window: nat) -> nat {
    window_low(tick, window) as nat + window
}

/// Computes the bounds of the display window after `tick` ticks.
pub fn display_window(tick: u64, window_size: usize) -> (bounds: (u64, u64))
    ensures
        bounds.0 == window_low(tick, window_size as nat),
        bounds.1 == window_high(tick, window_size as nat),
{
    let width = window_size as u64;
    if tick > width {
        (tick - width, tick)
    } else {
        (0, width)
    }
}

/// The display window stays at `[0, window]` until the tick count exceeds
/// `window`; from then on both bounds advance by one with every tick.
pub proof fn lemma_window_scrolls(tick: u64, window: nat)
    requires
        tick < u64::MAX,
    ensures
        tick <= window ==> window_low(tick, window) == 0 && window_high(tick, window) == window,
        tick >= window ==> window_low((tick + 1) as u64, window) == window_low(tick, window) + 1
            && window_high((tick + 1) as u64, window) == window_high(tick, window) + 1,
{
}

/// A window never holds more points than its capacity.
pub proof fn lemma_windowed_bounded(points: Seq<Point>, point: Point, capacity: nat)
    ensures
        windowed(points, point, capacity).len() <= capacity,
{
}

/// Appending to a window with room keeps every point and adds the new one last.
pub proof fn lemma_windowed_with_room(points: Seq<Point>, point: Point, capacity: nat)
    requires
        points.len() < capacity,
    ensures
        windowed(points, point, capacity) == points.push(point),
{
}

/// Appending to a full window drops exactly the oldest point: the others
/// move up by one place, in their order, and the new point comes last.
pub proof fn lemma_windowed_when_full(points: Seq<Point>, point: Point, capacity: nat)
    requires
        points.len() == capacity,
        capacity > 0,
    ensures
        windowed(points, point, capacity).len() == capacity,
        windowed(points, point, capacity).last() == point,
        forall|i: int|
            0 <= i < capacity - 1 ==> #[trigger] windowed(points, point, capacity)[i] == points[i
                + 1],
{
}

} // verus!
