//! The state kept for one tracked key: its cumulative totals, its two
//! series of deltas, and the tick at which it last saw traffic.

use vstd::prelude::*;
use crate::counter::Totals;
use crate::series::{windowed, zero_point, Point, Series};
use crate::view::ZoomContext;

verus! {

/// The growth of a cumulative value since the previous reading. A value that
/// went down was reset in between, so all of it is new.
pub open spec fn clamped_delta(current: u64, previous: u64) -> u64 {
    if current >= previous {
        (current - previous) as u64
    } else {
        current
    }
}

/// Computes the delta of a cumulative value against its previous reading.
pub fn delta(current: u64, previous: u64) -> (d: u64)
    ensures
        d == clamped_delta(current, previous),
        d <= current,
{
    if current >= previous {
        current - previous
    } else {
        current
    }
}

/// The mathematical content of a tracked entity.
pub struct EntityView {
    pub packets: u64,
    pub bytes: u64,
    pub packet_series: Seq<Point>,
    pub byte_series: Seq<Point>,
    pub last_active_tick: u64,
    pub window: nat,
}

impl EntityView {
    /// The window is at least one point wide, and neither series is longer
    /// than the window.
    pub open spec fn inv(self) -> bool {
        &&& 0 < self.window
        &&& self.packet_series.len() <= self.window
        &&& self.byte_series.len() <= self.window
    }

    /// An entity first seen at `tick`: nothing counted, no history.
    pub open spec fn fresh(window: nat, tick: u64) -> EntityView {
        EntityView {
            packets: 0,
            bytes: 0,
            packet_series: Seq::empty(),
            byte_series: Seq::empty(),
            last_active_tick: tick,
            window,
        }
    }

    /// The packet delta that a reading of `current` yields.
    pub open spec fn packet_delta(self, current: Totals) -> u64 {
        clamped_delta(current.packets, self.packets)
    }

    /// The byte delta that a reading of `current` yields.
    pub open spec fn byte_delta(self, current: Totals) -> u64 {
        clamped_delta(current.bytes, self.bytes)
    }

    /// The entity after the reading `current` was taken at `tick`: both deltas
    /// are appended to their series, the reading becomes the cumulative value,
    /// and the entity counts as active at `tick` if packets arrived.
    pub open spec fn observed(self, tick: u64, current: Totals) -> EntityView {
        EntityView {
            packets: current.packets,
            bytes: current.bytes,
            packet_series: windowed(
                self.packet_series,
                Point { tick, delta: self.packet_delta(current) },
                self.window,
            ),
            byte_series: windowed(
                self.byte_series,
                Point { tick, delta: self.byte_delta(current) },
                self.window,
            ),
            last_active_tick: if self.packet_delta(current) > 0 {
                tick
            } else {
                self.last_active_tick
            },
            window: self.window,
        }
    }

    /// The entity with both series reset to the zero point alone.
    pub open spec fn with_reset_series(self) -> EntityView {
        EntityView { packet_series: seq![zero_point()], byte_series: seq![zero_point()], ..self }
    }

    /// The entity with nothing counted and both series reset to the zero point alone.
    pub open spec fn cleared(self) -> EntityView {
        EntityView { packets: 0, bytes: 0, ..self.with_reset_series() }
    }

    /// The series that the plot of `context` shows.
    pub open spec fn series(self, context: ZoomContext) -> Seq<Point> {
        match context {
            ZoomContext::Packet => self.packet_series,
            ZoomContext::Byte => self.byte_series,
        }
    }

    /// Whether the entity has been without traffic for more than `timeout` ticks at `tick`.
    pub open spec fn idle_at(self, tick: u64, timeout: u64) -> bool {
        tick - self.last_active_tick > timeout
    }
}

/// What a reading records: the newest point of each series carries the
/// growth of the cumulative value since the previous reading, or the whole
/// value where it went down, and the reading becomes the cumulative value.
pub proof fn lemma_recorded_delta(entity: EntityView, tick: u64, current: Totals)
    requires
        entity.inv(),
    ensures
        entity.observed(tick, current).inv(),
        entity.observed(tick, current).packet_series.last() == (Point {
            tick,
            delta: clamped_delta(current.packets, entity.packets),
        }),
        entity.observed(tick, current).byte_series.last() == (Point {
            tick,
            delta: clamped_delta(current.bytes, entity.bytes),
        }),
        current.packets >= entity.packets ==> clamped_delta(current.packets, entity.packets)
            == current.packets - entity.packets,
        current.packets < entity.packets ==> clamped_delta(current.packets, entity.packets)
            == current.packets,
        entity.observed(tick, current).packets == current.packets,
        entity.observed(tick, current).bytes == current.bytes,
{
}

/// Whether `bound` is the largest delta that the shown series hold, and 1
/// where they hold no larger one. `shown` tells which entities are shown.
pub open spec fn is_plot_bound(
    entities: Seq<EntityView>,
    shown: spec_fn(int) -> bool,
    context: ZoomContext,
    bound: u64,
) -> bool {
    &&& bound >= 1
    &&& forall|i: int, k: int|
        0 <= i < entities.len() && shown(i) && 0 <= k < entities[i].series(context).len()
            ==> #[trigger] entities[i].series(context)[k].delta <= bound
    &&& bound == 1 || exists|i: int, k: int|
        0 <= i < entities.len() && shown(i) && 0 <= k < entities[i].series(context).len()
            && #[trigger] entities[i].series(context)[k].delta == bound
}

/// Taking one more entity into account keeps the bound right, where the
/// bound was raised to the largest delta of that entity if it is shown.
pub proof fn lemma_plot_bound_extends(
    entities: Seq<EntityView>,
    shown: spec_fn(int) -> bool,
    context: ZoomContext,
    n: int,
    before: u64,
    raised: u64,
)
    requires
        0 <= n < entities.len(),
        is_plot_bound(entities.take(n), shown, context, before),
        raised >= before,
        !shown(n) ==> raised == before,
        shown(n) ==> forall|k: int|
            0 <= k < entities[n].series(context).len() ==> entities[n].series(context)[k].delta
                <= raised,
        raised == before || (shown(n) && exists|k: int|
            0 <= k < entities[n].series(context).len() && entities[n].series(context)[k].delta
                == raised),
    ensures
        is_plot_bound(entities.take(n + 1), shown, context, raised),
{
    let seen = entities.take(n);
    let next = entities.take(n + 1);
    assert(next[n] == entities[n]);
    assert forall|i: int, k: int|
        0 <= i < next.len() && shown(i) && 0 <= k < next[i].series(context).len()
            implies #[trigger] next[i].series(context)[k].delta <= raised by {
        if i < n {
            assert(next[i] == seen[i]);
            assert(seen[i].series(context)[k].delta <= before);
        }
    }
    if raised != 1 {
        if raised == before {
            let (i, k) = choose|i: int, k: int|
                0 <= i < seen.len() && shown(i) && 0 <= k < seen[i].series(context).len()
                    && #[trigger] seen[i].series(context)[k].delta == before;
            assert(next[i] == seen[i]);
            assert(next[i].series(context)[k].delta == raised);
        } else {
            let series = next[n].series(context);
            let k = choose|k: int| 0 <= k < series.len() && series[k].delta == raised;
            assert(next[n].series(context)[k].delta == raised);
        }
    }
}

/// Cumulative totals, windowed history and last activity of one key.
#[derive(Debug)]
pub struct TrackedEntity {
    cumulative: Totals,
    packet_series: Series,
    byte_series: Series,
    last_active_tick: u64,
}

impl View for TrackedEntity {
    type V = EntityView;

    closed spec fn view(&self) -> EntityView {
        EntityView {
            packets: self.cumulative.packets,
            bytes: self.cumulative.bytes,
            packet_series: self.packet_series@.points,
            byte_series: self.byte_series@.points,
            last_active_tick: self.last_active_tick,
            window: self.packet_series@.capacity,
        }
    }
}

impl TrackedEntity {
    /// Both series are well formed and have the same capacity.
    pub closed spec fn wf(&self) -> bool {
        &&& self.packet_series.wf()
        &&& self.byte_series.wf()
        &&& self.byte_series@.capacity == self.packet_series@.capacity
    }

    /// A well-formed entity has a well-formed view.
    pub proof fn lemma_view_inv(&self)
        requires
            self.wf(),
        ensures
            self@.inv(),
    {
        self.packet_series.lemma_view_inv();
        self.byte_series.lemma_view_inv();
    }

    /// An entity first seen at `tick`, with zeroed counters and empty series
    /// that keep `window` points each.
    pub fn new(window: usize, tick: u64) -> (e: TrackedEntity)
        requires
            window > 0,
        ensures
            e.wf(),
            e@ == EntityView::fresh(window as nat, tick),
    {
        TrackedEntity {
            cumulative: Totals { packets: 0, bytes: 0 },
            packet_series: Series::new(window),
            byte_series: Series::new(window),
            last_active_tick: tick,
        }
    }

    /// Records the reading `current`, taken at `tick`.
    pub fn observe(&mut self, tick: u64, current: Totals)
        requires
            old(self).wf(),
        ensures
            final(self).wf(),
            final(self)@ == old(self)@.observed(tick, current),
    {
        let packet_delta = delta(current.packets, self.cumulative.packets);
        let byte_delta = delta(current.bytes, self.cumulative.bytes);
        self.packet_series.push(Point { tick, delta: packet_delta });
        self.byte_series.push(Point { tick, delta: byte_delta });
        self.cumulative = current;
        if packet_delta > 0 {
            self.last_active_tick = tick;
        }
    }

    /// Resets both series to the zero point; the cumulative totals stay.
    pub fn reset_series(&mut self)
        requires
            old(self).wf(),
        ensures
            final(self).wf(),
            final(self)@ == old(self)@.with_reset_series(),
    {
        self.packet_series.reset();
        self.byte_series.reset();
    }

    /// Forgets what was counted and resets both series to the zero point.
    pub fn clear(&mut self)
        requires
            old(self).wf(),
        ensures
            final(self).wf(),
            final(self)@ == old(self)@.cleared(),
    {
        self.packet_series.reset();
        self.byte_series.reset();
        self.cumulative = Totals { packets: 0, bytes: 0 };
    }

    /// Raises `bound` to the largest delta of the series that the plot of
    /// `context` shows, if the entity is shown and holds a larger one.
    pub fn raise_plot_bound(&self, shown: bool, context: ZoomContext, bound: u64) -> (raised: u64)
        ensures
            raised >= bound,
            !shown ==> raised == bound,
            shown ==> forall|k: int|
                0 <= k < self@.series(context).len() ==> self@.series(context)[k].delta <= raised,
            raised == bound || (shown && exists|k: int|
                0 <= k < self@.series(context).len() && self@.series(context)[k].delta == raised),
    {
        if !shown {
            return bound;
        }
        let highest = self.series(context).max_delta();
        if highest > bound {
            highest
        } else {
            bound
        }
    }

    /// Whether the entity has been without traffic for more than `timeout` ticks at `tick`.
    pub fn is_idle(&self, tick: u64, timeout: u64) -> (idle: bool)
        ensures
            idle == self@.idle_at(tick, timeout),
    {
        tick > self.last_active_tick && tick - self.last_active_tick > timeout
    }

    /// The totals of the latest reading.
    pub fn cumulative(&self) -> (t: Totals)
        ensures
            t.packets == self@.packets,
            t.bytes == self@.bytes,
    {
        self.cumulative
    }

    /// The windowed packet deltas.
    pub fn packet_series(&self) -> (s: &Series)
        ensures
            s@.points == self@.packet_series,
    {
        &self.packet_series
    }

    /// The windowed byte deltas.
    pub fn byte_series(&self) -> (s: &Series)
        ensures
            s@.points == self@.byte_series,
    {
        &self.byte_series
    }

    /// The series that the plot of `context` shows.
    pub fn series(&self, context: ZoomContext) -> (s: &Series)
        ensures
            s@.points == self@.series(context),
    {
        match context {
            ZoomContext::Packet => &self.packet_series,
            ZoomContext::Byte => &self.byte_series,
        }
    }

    /// The latest tick at which packets arrived, or the tick of first sight.
    pub fn last_active_tick(&self) -> (t: u64)
        ensures
            t == self@.last_active_tick,
    {
        self.last_active_tick
    }
}

} // verus!
