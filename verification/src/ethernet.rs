//! Aggregation of the source-address counters: lazily tracked addresses,
//! their windowed history, and eviction of addresses that fell idle.

use vstd::prelude::*;
use crate::app::TICK_RATE_MS;
use crate::counter::{
    first_failure, observations, read_result, sum_slots, Observation, ReadFailure, Reading, Totals,
};
use crate::entity::{
    clamped_delta, is_plot_bound, lemma_plot_bound_extends, EntityView, TrackedEntity,
};
use crate::view::ZoomContext;
use crate::key::TableKey;
use crate::series::{display_window, window_high, window_low, windowed, Point};
use crate::table::{row_observations, PerCpuTable};

verus! {

/// How long an address may stay without traffic before it is evicted.
pub const IDLE_MAC_ADDR_TIMEOUT_SEC: u64 = 300;

/// The idle timeout in ticks.
pub const IDLE_MAC_ADDR_TIMEOUT_NUM_TICKS: u64 = IDLE_MAC_ADDR_TIMEOUT_SEC * (1000 / TICK_RATE_MS);

/// One tracked source address and its state.
pub struct TrackedAddress {
    pub mac: [u8; 6],
    pub entity: EntityView,
}

/// The mathematical content of the address model.
pub struct EthernetModelView {
    /// The tracked addresses, in the order in which they are listed.
    pub addresses: Seq<TrackedAddress>,
    /// The addresses chosen for display.
    pub displaying: Set<[u8; 6]>,
    /// The number of ticks taken so far.
    pub tick: u64,
    /// The number of points each series keeps.
    pub window: nat,
    /// The number of ticks after which an address without traffic is evicted.
    pub idle_timeout: u64,
}

impl EthernetModelView {
    /// Whether `mac` is tracked.
    pub open spec fn tracks(self, mac: [u8; 6]) -> bool {
        exists|i: int| 0 <= i < self.addresses.len() && (#[trigger] self.addresses[i]).mac == mac
    }

    /// The place of `mac` among the tracked addresses.
    pub open spec fn index_of(self, mac: [u8; 6]) -> int {
        choose|i: int| 0 <= i < self.addresses.len() && (#[trigger] self.addresses[i]).mac == mac
    }

    /// The state of the tracked address `mac`.
    pub open spec fn entity_of(self, mac: [u8; 6]) -> EntityView {
        self.addresses[self.index_of(mac)].entity
    }

    /// No address is tracked twice, and every series keeps at most `window`
    /// points, which is at least one.
    pub open spec fn inv(self) -> bool {
        &&& 0 < self.window
        &&& forall|i: int, j: int|
            0 <= i < j < self.addresses.len() ==> (#[trigger] self.addresses[i]).mac != (
            #[trigger] self.addresses[j]).mac
        &&& forall|i: int|
            0 <= i < self.addresses.len() ==> (#[trigger] self.addresses[i]).entity.window
                == self.window && self.addresses[i].entity.inv()
    }

    /// The model at the start of the next tick.
    pub open spec fn advanced(self) -> EthernetModelView {
        EthernetModelView { tick: (self.tick + 1) as u64, ..self }
    }

    /// The model after one address was read from the table with the totals
    /// `totals`: an address not yet tracked is first registered, with zeroed
    /// counters and empty series, at the end of the list.
    pub open spec fn absorbed(self, mac: [u8; 6], totals: Totals) -> EthernetModelView {
        if self.tracks(mac) {
            let i = self.index_of(mac);
            EthernetModelView {
                addresses: self.addresses.update(
                    i,
                    TrackedAddress {
                        mac,
                        entity: self.addresses[i].entity.observed(self.tick, totals),
                    },
                ),
                ..self
            }
        } else {
            EthernetModelView {
                addresses: self.addresses.push(
                    TrackedAddress {
                        mac,
                        entity: EntityView::fresh(self.window, self.tick).observed(
                            self.tick,
                            totals,
                        ),
                    },
                ),
                ..self
            }
        }
    }

    /// The model after every reading was taken in, in order.
    pub open spec fn absorbed_all(self, readings: Seq<Observation<[u8; 6]>>) -> EthernetModelView
        decreases readings.len(),
    {
        if readings.len() == 0 {
            self
        } else {
            self.absorbed_all(readings.drop_last()).absorbed_reading(readings.last())
        }
    }

    /// The model after one reading was taken in. A failed read changes nothing.
    pub open spec fn absorbed_reading(self, reading: Observation<[u8; 6]>) -> EthernetModelView {
        match reading.totals {
            Some(totals) => self.absorbed(reading.key, totals),
            None => self,
        }
    }

    /// Whether a tracked address has been idle for longer than the timeout.
    pub open spec fn is_idle(self, address: TrackedAddress) -> bool {
        address.entity.idle_at(self.tick, self.idle_timeout)
    }

    /// The addresses that leave at the current tick, in listing order.
    pub open spec fn idle_addresses(self) -> Seq<[u8; 6]> {
        self.addresses.filter(|a: TrackedAddress| self.is_idle(a)).map_values(
            |a: TrackedAddress| a.mac,
        )
    }

    /// The model without the addresses that have been idle for longer than
    /// the timeout; the others keep their order and their state.
    pub open spec fn without_idle(self) -> EthernetModelView {
        EthernetModelView {
            addresses: self.addresses.filter(|a: TrackedAddress| !self.is_idle(a)),
            ..self
        }
    }

    /// The model after a whole tick in which `readings` were read from the table.
    pub open spec fn ticked(self, readings: Seq<Observation<[u8; 6]>>) -> EthernetModelView {
        self.advanced().absorbed_all(readings).without_idle()
    }

    /// The addresses that a tick with `readings` evicts; their table entries are to be deleted.
    pub open spec fn evicted_by(self, readings: Seq<Observation<[u8; 6]>>) -> Seq<[u8; 6]> {
        self.advanced().absorbed_all(readings).idle_addresses()
    }

    /// The model after the display of `mac` was switched.
    pub open spec fn toggled(self, mac: [u8; 6]) -> EthernetModelView {
        EthernetModelView {
            displaying: if self.displaying.contains(mac) {
                self.displaying.remove(mac)
            } else {
                self.displaying.insert(mac)
            },
            ..self
        }
    }

    /// The state kept for each address, in listing order.
    pub open spec fn entities(self) -> Seq<EntityView> {
        self.addresses.map_values(|address: TrackedAddress| address.entity)
    }

    /// The lower bound of the display window.
    pub open spec fn window_low(self) -> u64 {
        window_low(self.tick, self.window)
    }

    /// The upper bound of the display window.
    pub open spec fn window_high(self) -> nat {
        window_high(self.tick, self.window)
    }
}

/// In a well-formed model an address has one place only.
pub proof fn lemma_index_of(model: EthernetModelView, mac: [u8; 6], i: int)
    requires
        model.inv(),
        0 <= i < model.addresses.len(),
        model.addresses[i].mac == mac,
    ensures
        model.tracks(mac),
        model.index_of(mac) == i,
{
    let k = model.index_of(mac);
    assert(model.addresses[k].mac == mac);
}

/// Taking in a reading for one address registers or updates that address
/// and leaves every other address as it was.
pub proof fn lemma_absorbed(model: EthernetModelView, mac: [u8; 6], totals: Totals)
    requires
        model.inv(),
    ensures
        model.absorbed(mac, totals).inv(),
        model.absorbed(mac, totals).tracks(mac),
        model.absorbed(mac, totals).entity_of(mac) == (if model.tracks(mac) {
            model.entity_of(mac)
        } else {
            EntityView::fresh(model.window, model.tick)
        }).observed(model.tick, totals),
        forall|other: [u8; 6]|
            other != mac ==> #[trigger] model.absorbed(mac, totals).tracks(other) == model.tracks(
                other,
            ),
        forall|other: [u8; 6]|
            other != mac && model.tracks(other) ==> #[trigger] model.absorbed(
                mac,
                totals,
            ).entity_of(other) == model.entity_of(other),
{
    let after = model.absorbed(mac, totals);
    let at: int = if model.tracks(mac) {
        model.index_of(mac)
    } else {
        model.addresses.len() as int
    };
    if model.tracks(mac) {
        assert(model.addresses[at].mac == mac);
    }
    assert forall|i: int| 0 <= i < model.addresses.len() && i != at implies
        #[trigger] after.addresses[i] == model.addresses[i] by {}
    assert forall|i: int| 0 <= i < model.addresses.len() implies (
    #[trigger] after.addresses[i]).mac == model.addresses[i].mac by {}
    assert(after.addresses[at].mac == mac);
    assert forall|i: int, j: int| 0 <= i < j < after.addresses.len() implies (
    #[trigger] after.addresses[i]).mac != (#[trigger] after.addresses[j]).mac by {
        assert(after.addresses[i].mac == model.addresses[i].mac);
        if j < model.addresses.len() {
            assert(after.addresses[j].mac == model.addresses[j].mac);
        }
    }
    assert forall|i: int| 0 <= i < after.addresses.len() implies (
    #[trigger] after.addresses[i]).entity.window == after.window
        && after.addresses[i].entity.inv() by {
        if i != at {
            assert(after.addresses[i] == model.addresses[i]);
        }
    }
    lemma_index_of(after, mac, at);
    assert forall|other: [u8; 6]| other != mac implies #[trigger] after.tracks(other)
        == model.tracks(other) by {
        if after.tracks(other) {
            let k = after.index_of(other);
            assert(after.addresses[k].mac == other);
            assert(model.addresses[k].mac == other);
        }
        if model.tracks(other) {
            let k = model.index_of(other);
            assert(model.addresses[k].mac == other);
            assert(after.addresses[k].mac == other);
        }
    }
    assert forall|other: [u8; 6]| other != mac && model.tracks(other) implies
        #[trigger] after.entity_of(other) == model.entity_of(other) by {
        let k = model.index_of(other);
        assert(model.addresses[k].mac == other);
        assert(after.addresses[k] == model.addresses[k]);
        lemma_index_of(after, other, k);
    }
}

/// An address that is not tracked starts afresh: whatever was known of it
/// before an eviction is gone, and its series hold the new point alone.
pub proof fn lemma_returning_address_starts_fresh(
    model: EthernetModelView,
    mac: [u8; 6],
    totals: Totals,
)
    requires
        model.inv(),
        !model.tracks(mac),
    ensures
        model.absorbed(mac, totals).tracks(mac),
        model.absorbed(mac, totals).entity_of(mac).packet_series == seq![
            Point { tick: model.tick, delta: totals.packets },
        ],
        model.absorbed(mac, totals).entity_of(mac).byte_series == seq![
            Point { tick: model.tick, delta: totals.bytes },
        ],
        model.absorbed(mac, totals).entity_of(mac).packets == totals.packets,
        model.absorbed(mac, totals).entity_of(mac).bytes == totals.bytes,
        totals.packets > 0 ==> model.absorbed(mac, totals).entity_of(mac).last_active_tick
            == model.tick,
{
    lemma_absorbed(model, mac, totals);
    let entity = model.absorbed(mac, totals).entity_of(mac);
    assert(entity.packet_series =~= seq![Point { tick: model.tick, delta: totals.packets }]);
    assert(entity.byte_series =~= seq![Point { tick: model.tick, delta: totals.bytes }]);
}

/// Whether no reading of `readings` brings packets for `mac`: every reading
/// of the address that succeeds yields a packet delta of zero against the
/// packet count that the model holds when the reading is taken in.
pub open spec fn brings_no_packets(
    model: EthernetModelView,
    readings: Seq<Observation<[u8; 6]>>,
    mac: [u8; 6],
) -> bool {
    forall|i: int|
        0 <= i < readings.len() && (#[trigger] readings[i]).key == mac && readings[i].totals
            is Some ==> clamped_delta(
            readings[i].totals->Some_0.packets,
            model.absorbed_all(readings.take(i)).entity_of(mac).packets,
        ) == 0
}

/// Readings without new packets for an address leave it tracked, with its
/// last activity as it was.
pub proof fn lemma_quiet_address_keeps_state(
    model: EthernetModelView,
    readings: Seq<Observation<[u8; 6]>>,
    mac: [u8; 6],
)
    requires
        model.inv(),
        model.tracks(mac),
        brings_no_packets(model, readings, mac),
    ensures
        model.absorbed_all(readings).inv(),
        model.absorbed_all(readings).tick == model.tick,
        model.absorbed_all(readings).idle_timeout == model.idle_timeout,
        model.absorbed_all(readings).tracks(mac),
        model.absorbed_all(readings).entity_of(mac).last_active_tick == model.entity_of(
            mac,
        ).last_active_tick,
    decreases readings.len(),
{
    if readings.len() > 0 {
        let earlier = readings.drop_last();
        let reading = readings.last();
        assert forall|i: int|
            0 <= i < earlier.len() && (#[trigger] earlier[i]).key == mac && earlier[i].totals
                is Some implies clamped_delta(
            earlier[i].totals->Some_0.packets,
            model.absorbed_all(earlier.take(i)).entity_of(mac).packets,
        ) == 0 by {
            assert(earlier[i] == readings[i]);
            assert(earlier.take(i) =~= readings.take(i));
        }
        lemma_quiet_address_keeps_state(model, earlier, mac);
        assert(reading == readings[readings.len() - 1]);
        assert(readings.take(readings.len() - 1) =~= earlier);
        if reading.totals is Some {
            lemma_absorbed(model.absorbed_all(earlier), reading.key, reading.totals->Some_0);
        }
    }
}

/// Eviction of idle addresses: an address that has been without packets for
/// more than the idle timeout when a tick ends, and for which every reading
/// of the tick yields a packet delta of zero, is no longer tracked after the
/// tick and is among the addresses handed back for deletion from the table.
pub proof fn lemma_idle_address_is_evicted(
    model: EthernetModelView,
    readings: Seq<Observation<[u8; 6]>>,
    mac: [u8; 6],
)
    requires
        model.inv(),
        model.tick < u64::MAX,
        model.tracks(mac),
        brings_no_packets(model.advanced(), readings, mac),
        model.tick + 1 - model.entity_of(mac).last_active_tick > model.idle_timeout,
    ensures
        !model.ticked(readings).tracks(mac),
        model.evicted_by(readings).contains(mac),
{
    let start = model.advanced();
    assert(start.addresses == model.addresses);
    let k0 = model.index_of(mac);
    assert(model.addresses[k0].mac == mac);
    lemma_index_of(start, mac, k0);
    lemma_quiet_address_keeps_state(start, readings, mac);
    lemma_idle_is_evicted(start.absorbed_all(readings), mac);
}

/// An address that is active within the idle timeout stays tracked over a tick.
pub proof fn lemma_active_address_is_kept(
    model: EthernetModelView,
    readings: Seq<Observation<[u8; 6]>>,
    mac: [u8; 6],
)
    requires
        model.inv(),
        model.tick < u64::MAX,
        model.advanced().absorbed_all(readings).tracks(mac),
        !model.advanced().absorbed_all(readings).entity_of(mac).idle_at(
            (model.tick + 1) as u64,
            model.idle_timeout,
        ),
    ensures
        model.ticked(readings).inv(),
        model.ticked(readings).tracks(mac),
        model.ticked(readings).entity_of(mac) == model.advanced().absorbed_all(
            readings,
        ).entity_of(mac),
        !model.evicted_by(readings).contains(mac),
{
    let full = model.advanced().absorbed_all(readings);
    lemma_absorbed_all_inv(model.advanced(), readings);
    let at = full.index_of(mac);
    assert(full.addresses[at].mac == mac);
    let keep = |a: TrackedAddress| !full.is_idle(a);
    let idle = |a: TrackedAddress| full.is_idle(a);
    full.addresses.lemma_filter_contains(keep, at);
    let kept = full.addresses.filter(keep);
    let k = choose|k: int| 0 <= k < kept.len() && kept[k] == full.addresses[at];
    assert(full.without_idle().addresses[k].mac == mac);
    lemma_filter_keeps_inv(full, full.without_idle(), keep);
    lemma_index_of(full.without_idle(), mac, k);
    let gone = full.addresses.filter(idle);
    let macs = gone.map_values(|a: TrackedAddress| a.mac);
    if macs.contains(mac) {
        let g = choose|g: int| 0 <= g < macs.len() && macs[g] == mac;
        assert(gone[g].mac == mac);
        lemma_kept_places(full.addresses, idle);
        let from = kept_places(full.addresses, idle)[g];
        assert(gone[g] == full.addresses[from]);
        assert(from == at);
        full.addresses.lemma_filter_pred(idle, g);
    }
}

/// The state from which a reading of `mac` starts: what the model holds for
/// the address, or nothing counted and no history for an address that it
/// does not track.
pub open spec fn state_before(model: EthernetModelView, mac: [u8; 6]) -> EntityView {
    if model.tracks(mac) {
        model.entity_of(mac)
    } else {
        EntityView::fresh(model.window, model.tick)
    }
}

/// Readings of which one alone is for an address, and succeeded, record
/// that reading for the address; readings of which none is for it leave it
/// as it was.
proof fn lemma_absorbed_once(
    model: EthernetModelView,
    readings: Seq<Observation<[u8; 6]>>,
    mac: [u8; 6],
    at: int,
)
    requires
        model.inv(),
        -1 <= at < readings.len(),
        at >= 0 ==> readings[at].key == mac && readings[at].totals is Some,
        forall|j: int| 0 <= j < readings.len() && j != at ==> (#[trigger] readings[j]).key != mac,
    ensures
        model.absorbed_all(readings).inv(),
        model.absorbed_all(readings).tick == model.tick,
        model.absorbed_all(readings).window == model.window,
        model.absorbed_all(readings).idle_timeout == model.idle_timeout,
        model.absorbed_all(readings).tracks(mac) == (model.tracks(mac) || at >= 0),
        at >= 0 ==> model.absorbed_all(readings).entity_of(mac) == state_before(
            model,
            mac,
        ).observed(model.tick, readings[at].totals->Some_0),
        at < 0 && model.tracks(mac) ==> model.absorbed_all(readings).entity_of(mac)
            == model.entity_of(mac),
    decreases readings.len(),
{
    if readings.len() > 0 {
        let earlier = readings.drop_last();
        let last = readings.len() - 1;
        let reading = readings[last];
        assert forall|j: int| 0 <= j < earlier.len() && j != at implies (
        #[trigger] earlier[j]).key != mac by {
            assert(earlier[j] == readings[j]);
        }
        if at == last {
            lemma_absorbed_once(model, earlier, mac, -1);
        } else {
            if at >= 0 {
                assert(earlier[at] == readings[at]);
            }
            lemma_absorbed_once(model, earlier, mac, at);
        }
        if reading.totals is Some {
            lemma_absorbed(model.absorbed_all(earlier), reading.key, reading.totals->Some_0);
        }
    }
}

/// What a tick records for an address that is read once. The reading
/// becomes its cumulative totals, and each series gets one point with the
/// growth since the previous reading, or the whole value where it went
/// down; an address that was not tracked starts from nothing counted and no
/// history, so its series hold that point alone. No series grows past the
/// window. The address is then kept with this state, unless it has been
/// idle for longer than the timeout: then it is evicted.
pub proof fn lemma_tick_records_reading(
    model: EthernetModelView,
    readings: Seq<Observation<[u8; 6]>>,
    at: int,
)
    requires
        model.inv(),
        model.tick < u64::MAX,
        0 <= at < readings.len(),
        forall|j: int|
            0 <= j < readings.len() && j != at ==> (#[trigger] readings[j]).key
                != readings[at].key,
        readings[at].totals is Some,
    ensures
        ({
            let mac = readings[at].key;
            let totals = readings[at].totals->Some_0;
            let tick = (model.tick + 1) as u64;
            let before = state_before(model.advanced(), mac);
            let recorded = before.observed(tick, totals);
            let after = model.ticked(readings);
            &&& after.inv()
            &&& recorded.packets == totals.packets
            &&& recorded.bytes == totals.bytes
            &&& recorded.packet_series == windowed(
                before.packet_series,
                Point { tick, delta: clamped_delta(totals.packets, before.packets) },
                model.window,
            )
            &&& recorded.byte_series == windowed(
                before.byte_series,
                Point { tick, delta: clamped_delta(totals.bytes, before.bytes) },
                model.window,
            )
            &&& recorded.packet_series.len() <= model.window
            &&& recorded.byte_series.len() <= model.window
            &&& !model.tracks(mac) ==> {
                &&& recorded.packet_series == seq![Point { tick, delta: totals.packets }]
                &&& recorded.byte_series == seq![Point { tick, delta: totals.bytes }]
                &&& totals.packets > 0 ==> recorded.last_active_tick == tick
            }
            &&& if recorded.idle_at(tick, model.idle_timeout) {
                !after.tracks(mac) && model.evicted_by(readings).contains(mac)
            } else {
                after.tracks(mac) && after.entity_of(mac) == recorded
                    && !model.evicted_by(readings).contains(mac)
            }
        }),
{
    let mac = readings[at].key;
    let totals = readings[at].totals->Some_0;
    let tick = (model.tick + 1) as u64;
    let start = model.advanced();
    assert(start.addresses == model.addresses);
    if model.tracks(mac) {
        let k = model.index_of(mac);
        assert(model.addresses[k].mac == mac);
        lemma_index_of(start, mac, k);
    } else {
        if start.tracks(mac) {
            let k = start.index_of(mac);
            assert(start.addresses[k].mac == mac);
            assert(model.addresses[k].mac == mac);
        }
    }
    lemma_absorbed_once(start, readings, mac, at);
    lemma_absorbed_all_inv(start, readings);
    let full = start.absorbed_all(readings);
    let before = state_before(start, mac);
    let recorded = before.observed(tick, totals);
    if !model.tracks(mac) {
        assert(recorded.packet_series =~= seq![Point { tick, delta: totals.packets }]);
        assert(recorded.byte_series =~= seq![Point { tick, delta: totals.bytes }]);
    }
    let i = full.index_of(mac);
    assert(full.addresses[i].mac == mac);
    if recorded.idle_at(tick, model.idle_timeout) {
        lemma_idle_is_evicted(full, mac);
    } else {
        lemma_active_address_is_kept(model, readings, mac);
    }
    lemma_filter_keeps_inv(full, full.without_idle(), |a: TrackedAddress| !full.is_idle(a));
}

/// A tracked address that has been idle for longer than the timeout leaves
/// the model and is among the addresses handed back for deletion.
proof fn lemma_idle_is_evicted(full: EthernetModelView, mac: [u8; 6])
    requires
        full.inv(),
        full.tracks(mac),
        full.entity_of(mac).idle_at(full.tick, full.idle_timeout),
    ensures
        !full.without_idle().tracks(mac),
        full.idle_addresses().contains(mac),
{
    let at = full.index_of(mac);
    assert(full.addresses[at].mac == mac);
    let address = full.addresses[at];
    let keep = |a: TrackedAddress| !full.is_idle(a);
    let idle = |a: TrackedAddress| full.is_idle(a);
    let after = full.without_idle();
    lemma_kept_places(full.addresses, keep);
    if after.tracks(mac) {
        let k = after.index_of(mac);
        assert(after.addresses[k].mac == mac);
        let from = kept_places(full.addresses, keep)[k];
        assert(after.addresses[k] == full.addresses[from]);
        assert(from == at);
        full.addresses.lemma_filter_pred(keep, k);
    }
    full.addresses.lemma_filter_contains(idle, at);
    let gone = full.addresses.filter(idle);
    let g = choose|g: int| 0 <= g < gone.len() && gone[g] == address;
    assert(gone.map_values(|a: TrackedAddress| a.mac)[g] == mac);
}

/// Taking in readings keeps the model well formed.
pub proof fn lemma_absorbed_all_inv(model: EthernetModelView, readings: Seq<Observation<[u8; 6]>>)
    requires
        model.inv(),
    ensures
        model.absorbed_all(readings).inv(),
        model.absorbed_all(readings).tick == model.tick,
        model.absorbed_all(readings).window == model.window,
        model.absorbed_all(readings).idle_timeout == model.idle_timeout,
        model.absorbed_all(readings).displaying == model.displaying,
    decreases readings.len(),
{
    if readings.len() > 0 {
        lemma_absorbed_all_inv(model, readings.drop_last());
        if readings.last().totals is Some {
            lemma_absorbed(
                model.absorbed_all(readings.drop_last()),
                readings.last().key,
                readings.last().totals->Some_0,
            );
        }
    }
}

/// Whether the address `a` comes before `b` or equals it, bytes compared from the first on.
pub open spec fn address_le(a: [u8; 6], b: [u8; 6]) -> bool {
    a@ == b@ || exists|k: int|
        0 <= k < 6 && #[trigger] a@[k] < b@[k] && forall|j: int| 0 <= j < k ==> a@[j] == b@[j]
}

/// Whether `after` holds the elements of `before`, each once, in some order.
pub open spec fn rearranged<T>(before: Seq<T>, after: Seq<T>) -> bool {
    exists|from: Seq<int>|
        {
            &&& #[trigger] from.len() == after.len()
            &&& after.len() == before.len()
            &&& forall|i: int| 0 <= i < from.len() ==> 0 <= #[trigger] from[i] < before.len()
            &&& forall|i: int, j: int|
                0 <= i < j < from.len() ==> #[trigger] from[i] != #[trigger] from[j]
            &&& forall|i: int| 0 <= i < from.len() ==> #[trigger] after[i] == before[from[i]]
        }
}

/// Whether the addresses are listed in ascending order.
pub open spec fn ascending(addresses: Seq<TrackedAddress>) -> bool {
    forall|i: int, j: int|
        0 <= i < j < addresses.len() ==> address_le(
            (#[trigger] addresses[i]).mac,
            (#[trigger] addresses[j]).mac,
        )
}

/// A tracked address with its state.
#[derive(Debug)]
pub struct AddressEntry {
    mac: [u8; 6],
    entity: TrackedEntity,
}

impl View for AddressEntry {
    type V = TrackedAddress;

    closed spec fn view(&self) -> TrackedAddress {
        TrackedAddress { mac: self.mac, entity: self.entity@ }
    }
}

impl AddressEntry {
    /// The entry's state is well formed.
    pub closed spec fn wf(&self) -> bool {
        self.entity.wf()
    }

    /// The address.
    pub fn mac(&self) -> (mac: [u8; 6])
        ensures
            mac == self@.mac,
    {
        self.mac
    }

    /// The state kept for the address.
    pub fn entity(&self) -> (entity: &TrackedEntity)
        ensures
            entity@ == self@.entity,
            self.wf() ==> entity.wf(),
    {
        &self.entity
    }
}

/// The views of a list of entries.
pub open spec fn entry_views(entries: Seq<AddressEntry>) -> Seq<TrackedAddress> {
    entries.map_values(|e: AddressEntry| e@)
}

/// Sorts the entries by address with `<[T]>::sort_by_key` of the standard
/// library: afterwards the entries are the same ones, in ascending order of
/// their addresses, which compare byte by byte from the first byte on.
#[verifier::external_body]
fn sort_by_address(entries: &mut Vec<AddressEntry>)
    ensures
        rearranged(old(entries)@, final(entries)@),
        ascending(entry_views(final(entries)@)),
{
    entries.sort_by_key(|entry| entry.mac);
}

/// The aggregator's state for the source-address table.
#[derive(Debug)]
pub struct EthernetModel {
    entries: Vec<AddressEntry>,
    displaying: Vec<[u8; 6]>,
    tick_count: u64,
    window_size: usize,
    idle_timeout: u64,
}

impl View for EthernetModel {
    type V = EthernetModelView;

    closed spec fn view(&self) -> EthernetModelView {
        EthernetModelView {
            addresses: entry_views(self.entries@),
            displaying: self.displaying@.to_set(),
            tick: self.tick_count,
            window: self.window_size as nat,
            idle_timeout: self.idle_timeout,
        }
    }
}

impl EthernetModel {
    /// The representation is consistent: every entry is well formed, no
    /// address is tracked or displayed twice, all series share one window.
    pub closed spec fn wf(&self) -> bool {
        &&& self@.inv()
        &&& forall|i: int| 0 <= i < self.entries.len() ==> (#[trigger] self.entries[i]).wf()
        &&& self.displaying@.no_duplicates()
    }

    /// A well-formed model has a well-formed view.
    pub proof fn lemma_view_inv(&self)
        requires
            self.wf(),
        ensures
            self@.inv(),
    {
    }

    /// A model that tracks nothing yet. Series keep `window_size` points, and an
    /// address is evicted once it was idle for more than `idle_timeout` ticks.
    pub fn new(window_size: usize, idle_timeout: u64) -> (model: EthernetModel)
        requires
            window_size > 0,
        ensures
            model.wf(),
            model@ == (EthernetModelView {
                addresses: Seq::empty(),
                displaying: Set::empty(),
                tick: 0,
                window: window_size as nat,
                idle_timeout,
            }),
    {
        let model = EthernetModel {
            entries: Vec::new(),
            displaying: Vec::new(),
            tick_count: 0,
            window_size,
            idle_timeout,
        };
        proof {
            assert(model@.addresses =~= Seq::empty());
            assert(model@.displaying =~= Set::empty());
        }
        model
    }

    /// Where `mac` is tracked, if it is.
    fn find(&self, mac: &[u8; 6]) -> (r: Option<usize>)
        requires
            self.wf(),
        ensures
            match r {
                Some(i) => i < self.entries.len() && self@.tracks(*mac) && self@.index_of(*mac)
                    == i,
                None => !self@.tracks(*mac),
            },
    {
        let mut i: usize = 0;
        while i < self.entries.len()
            invariant
                self.wf(),
                i <= self.entries.len(),
                forall|j: int| 0 <= j < i ==> (#[trigger] self@.addresses[j]).mac != *mac,
            decreases self.entries.len() - i,
        {
            if self.entries[i].mac.same(mac) {
                proof {
                    assert(self@.addresses[i as int].mac == *mac);
                }
                return Some(i);
            }
            i += 1;
        }
        None
    }

    /// Takes in the totals read for one address.
    fn absorb(&mut self, mac: [u8; 6], totals: Totals)
        requires
            old(self).wf(),
        ensures
            final(self).wf(),
            final(self)@ == old(self)@.absorbed(mac, totals),
    {
        let tick = self.tick_count;
        match self.find(&mac) {
            Some(i) => {
                self.entries[i].entity.observe(tick, totals);
                proof {
                    self.entries[i as int].entity.lemma_view_inv();
                    assert(self@.addresses =~= old(self)@.addresses.update(
                        i as int,
                        TrackedAddress {
                            mac,
                            entity: old(self)@.addresses[i as int].entity.observed(tick, totals),
                        },
                    ));
                }
            },
            None => {
                let mut entity = TrackedEntity::new(self.window_size, tick);
                entity.observe(tick, totals);
                proof {
                    entity.lemma_view_inv();
                }
                self.entries.push(AddressEntry { mac, entity });
                proof {
                    assert(self@.addresses =~= old(self)@.addresses.push(
                        TrackedAddress {
                            mac,
                            entity: EntityView::fresh(self.window_size as nat, tick).observed(
                                tick,
                                totals,
                            ),
                        },
                    ));
                }
            },
        }
        proof {
            lemma_absorbed(old(self)@, mac, totals);
        }
    }

    /// Drops the addresses that have been idle for longer than the timeout and returns them.
    fn evict_idle(&mut self) -> (evicted: Vec<[u8; 6]>)
        requires
            old(self).wf(),
        ensures
            final(self).wf(),
            final(self)@ == old(self)@.without_idle(),
            evicted@ == old(self)@.idle_addresses(),
    {
        let ghost before = self@;
        let ghost keep = |a: TrackedAddress| !before.is_idle(a);
        let ghost idle = |a: TrackedAddress| before.is_idle(a);
        let mut evicted: Vec<[u8; 6]> = Vec::new();
        let mut i: usize = 0;
        let ghost mut seen: int = 0;
        proof {
            assert(before.addresses.take(0).filter(keep) =~= Seq::empty()) by {
                reveal(Seq::filter);
            }
            assert(before.addresses.take(0).filter(idle) =~= Seq::empty()) by {
                reveal(Seq::filter);
            }
            assert(self@.addresses =~= before.addresses.take(0).filter(keep)
                + before.addresses.skip(0));
            assert(evicted@ =~= before.addresses.take(0).filter(idle).map_values(
                |a: TrackedAddress| a.mac,
            ));
        }
        while i < self.entries.len()
            invariant
                before.inv(),
                before == old(self)@,
                forall|a: TrackedAddress| #[trigger] keep(a) == !before.is_idle(a),
                forall|a: TrackedAddress| #[trigger] idle(a) == before.is_idle(a),
                0 <= seen <= before.addresses.len(),
                i <= self.entries.len(),
                i == before.addresses.take(seen).filter(keep).len(),
                self.entries.len() - i == before.addresses.len() - seen,
                self@.addresses == before.addresses.take(seen).filter(keep)
                    + before.addresses.skip(seen),
                evicted@ == before.addresses.take(seen).filter(idle).map_values(
                    |a: TrackedAddress| a.mac,
                ),
                forall|j: int| 0 <= j < self.entries.len() ==> (#[trigger] self.entries[j]).wf(),
                self.displaying == old(self).displaying,
                self.tick_count == old(self).tick_count,
                self.window_size == old(self).window_size,
                self.idle_timeout == old(self).idle_timeout,
            decreases self.entries.len() - i,
        {
            let ghost current = self@.addresses;
            let ghost kept = before.addresses.take(seen).filter(keep);
            let ghost gone = before.addresses.take(seen).filter(idle);
            proof {
                assert(self.entries[i as int]@ == current[i as int]);
                assert(current[i as int] == before.addresses.skip(seen)[0]);
                assert(before.addresses.take(seen + 1).drop_last() =~= before.addresses.take(seen));
                assert(before.addresses.take(seen + 1).last() == before.addresses[seen]);
            }
            if self.entries[i].entity.is_idle(self.tick_count, self.idle_timeout) {
                let entry = self.entries.remove(i);
                evicted.push(entry.mac);
                proof {
                    reveal(Seq::filter);
                    assert(before.addresses.take(seen + 1).filter(keep) == kept);
                    assert(before.addresses.take(seen + 1).filter(idle) == gone.push(
                        before.addresses[seen],
                    ));
                    let rest = before.addresses.skip(seen + 1);
                    assert(self@.addresses.len() == kept.len() + rest.len());
                    assert forall|j: int| 0 <= j < self@.addresses.len() implies self@.addresses[j]
                        == (kept + rest)[j] by {
                        if j < i {
                            assert(self@.addresses[j] == current[j]);
                        } else {
                            assert(self@.addresses[j] == current[j + 1]);
                            assert(current[j + 1] == before.addresses.skip(seen)[j + 1 - i]);
                        }
                    }
                    assert(self@.addresses =~= kept + rest);
                    assert(evicted@ =~= gone.push(before.addresses[seen]).map_values(
                        |a: TrackedAddress| a.mac,
                    ));
                    seen = seen + 1;
                }
            } else {
                proof {
                    reveal(Seq::filter);
                    assert(before.addresses.take(seen + 1).filter(keep) == kept.push(
                        before.addresses[seen],
                    ));
                    assert(before.addresses.take(seen + 1).filter(idle) == gone);
                    assert(self@.addresses =~= kept.push(before.addresses[seen]) + before.addresses.skip(
                        seen + 1,
                    ));
                    seen = seen + 1;
                }
                i += 1;
            }
        }
        proof {
            assert(before.addresses.take(seen) =~= before.addresses);
            assert(self@.addresses =~= before.addresses.filter(keep));
            lemma_filter_keeps_inv(before, self@, keep);
        }
        evicted
    }

    /// Takes one tick: moves to the next tick, takes in every reading of the
    /// address table in order, and evicts the addresses that have been idle
    /// for longer than the timeout. Returns the evicted addresses, whose table
    /// entries are to be deleted, and the first key whose read failed, if any
    /// did. A tracked address without a reading, or whose read failed, gets
    /// no new point; the others get theirs all the same.
    pub fn on_tick(&mut self, readings: &Vec<Reading<[u8; 6]>>) -> (report: (
        Vec<[u8; 6]>,
        Result<(), ReadFailure<[u8; 6]>>,
    ))
        requires
            old(self).wf(),
            old(self)@.tick < u64::MAX,
        ensures
            final(self).wf(),
            final(self)@ == old(self)@.ticked(observations(readings@)),
            report.0@ == old(self)@.evicted_by(observations(readings@)),
            report.1 == read_result(observations(readings@)),
    {
        self.tick_count = self.tick_count + 1;
        proof {
            assert(self@.addresses == old(self)@.addresses);
            assert(observations(readings@).take(0) =~= Seq::empty());
            assert(self@ == old(self)@.advanced());
        }
        let mut failed: Option<[u8; 6]> = None;
        let mut n: usize = 0;
        while n < readings.len()
            invariant
                self.wf(),
                n <= readings.len(),
                self@ == old(self)@.advanced().absorbed_all(observations(readings@).take(n as int)),
                failed == first_failure(observations(readings@).take(n as int)),
            decreases readings.len() - n,
        {
            proof {
                let seen = observations(readings@);
                assert(seen.take(n + 1).drop_last() =~= seen.take(n as int));
                assert(seen.take(n + 1).last() == seen[n as int]);
            }
            match &readings[n].slots {
                Some(slots) => {
                    let totals = sum_slots(slots);
                    self.absorb(readings[n].key, totals);
                },
                None => {
                    if failed.is_none() {
                        failed = Some(readings[n].key);
                    }
                },
            }
            n += 1;
        }
        proof {
            assert(observations(readings@).take(n as int) =~= observations(readings@));
        }
        let evicted = self.evict_idle();
        let result = match failed {
            Some(key) => Err(ReadFailure { key }),
            None => Ok(()),
        };
        (evicted, result)
    }

    /// Takes one tick against a table: reads every entry of the table, takes
    /// the tick with these readings, and deletes the entries of the evicted
    /// addresses from the table. An entry that is already gone is no failure.
    pub fn poll_table(&mut self, table: &mut PerCpuTable<[u8; 6]>) -> (evicted: Vec<[u8; 6]>)
        requires
            old(self).wf(),
            old(self)@.tick < u64::MAX,
            old(table).wf(),
        ensures
            final(self).wf(),
            final(table).wf(),
            final(self)@ == old(self)@.ticked(row_observations(old(table)@.rows)),
            evicted@ == old(self)@.evicted_by(row_observations(old(table)@.rows)),
            final(table)@ == old(table)@.removed_all(evicted@),
            forall|i: int|
                0 <= i < evicted.len() ==> !final(table)@.contains(#[trigger] evicted[i]),
    {
        let readings = table.readings();
        let (evicted, _) = self.on_tick(&readings);
        let mut n: usize = 0;
        while n < evicted.len()
            invariant
                table.wf(),
                n <= evicted.len(),
                table@ == old(table)@.removed_all(evicted@.take(n as int)),
                forall|i: int| 0 <= i < n ==> !table@.contains(#[trigger] evicted[i]),
            decreases evicted.len() - n,
        {
            proof {
                assert(evicted@.take(n + 1).drop_last() =~= evicted@.take(n as int));
                assert(evicted@.take(n + 1).last() == evicted@[n as int]);
            }
            table.remove(&evicted[n]);
            n += 1;
        }
        proof {
            assert(evicted@.take(n as int) =~= evicted@);
        }
        evicted
    }

    /// Lists the tracked addresses in ascending order. Nothing else changes.
    pub fn sort(&mut self)
        requires
            old(self).wf(),
        ensures
            final(self).wf(),
            rearranged(old(self)@.addresses, final(self)@.addresses),
            ascending(final(self)@.addresses),
            final(self)@ == (EthernetModelView {
                addresses: final(self)@.addresses,
                ..old(self)@
            }),
    {
        sort_by_address(&mut self.entries);
        proof {
            let before = old(self).entries@;
            let after = self.entries@;
            let from = choose|from: Seq<int>|
                {
                    &&& #[trigger] from.len() == after.len()
                    &&& after.len() == before.len()
                    &&& forall|i: int|
                        0 <= i < from.len() ==> 0 <= #[trigger] from[i] < before.len()
                    &&& forall|i: int, j: int|
                        0 <= i < j < from.len() ==> #[trigger] from[i] != #[trigger] from[j]
                    &&& forall|i: int|
                        0 <= i < from.len() ==> #[trigger] after[i] == before[from[i]]
                };
            assert forall|i: int| 0 <= i < from.len() implies #[trigger] self@.addresses[i]
                == old(self)@.addresses[from[i]] by {
                assert(after[i] == before[from[i]]);
            }
            assert(rearranged(old(self)@.addresses, self@.addresses));
            assert forall|i: int, j: int| 0 <= i < j < self@.addresses.len() implies (
            #[trigger] self@.addresses[i]).mac != (#[trigger] self@.addresses[j]).mac by {
                assert(self@.addresses[i] == old(self)@.addresses[from[i]]);
                assert(self@.addresses[j] == old(self)@.addresses[from[j]]);
                if from[i] < from[j] {
                    assert(old(self)@.addresses[from[i]].mac != old(self)@.addresses[from[j]].mac);
                } else {
                    assert(old(self)@.addresses[from[j]].mac != old(self)@.addresses[from[i]].mac);
                }
            }
            assert forall|i: int| 0 <= i < self@.addresses.len() implies (
            #[trigger] self@.addresses[i]).entity.window == self@.window
                && self@.addresses[i].entity.inv() by {
                assert(self@.addresses[i] == old(self)@.addresses[from[i]]);
            }
            assert forall|i: int| 0 <= i < self.entries.len() implies (
            #[trigger] self.entries[i]).wf() by {
                assert(after[i] == before[from[i]]);
            }
        }
    }

    /// Switches the display of `src_mac` on or off.
    pub fn toggle_display(&mut self, src_mac: &[u8; 6])
        requires
            old(self).wf(),
        ensures
            final(self).wf(),
            final(self)@ == old(self)@.toggled(*src_mac),
    {
        let ghost before = self.displaying@;
        match position(&self.displaying, src_mac) {
            Some(i) => {
                self.displaying.remove(i);
                proof {
                    assert(self.displaying@ == before.remove(i as int));
                    assert forall|m: [u8; 6]|
                        self.displaying@.contains(m) == (before.contains(m) && m != *src_mac) by {
                        if self.displaying@.contains(m) {
                            let k = choose|k: int|
                                0 <= k < self.displaying@.len() && self.displaying@[k] == m;
                            if k < i {
                                assert(before[k] == m);
                            } else {
                                assert(before[k + 1] == m);
                            }
                        }
                        if before.contains(m) && m != *src_mac {
                            let k = choose|k: int| 0 <= k < before.len() && before[k] == m;
                            if k < i {
                                assert(self.displaying@[k] == m);
                            } else {
                                assert(self.displaying@[k - 1] == m);
                            }
                        }
                    }
                    assert(self@.displaying =~= old(self)@.displaying.remove(*src_mac));
                }
            },
            None => {
                self.displaying.push(*src_mac);
                proof {
                    assert(self.displaying@ == before.push(*src_mac));
                    assert forall|m: [u8; 6]|
                        self.displaying@.contains(m) == (before.contains(m) || m == *src_mac) by {
                        if self.displaying@.contains(m) {
                            let k = choose|k: int|
                                0 <= k < self.displaying@.len() && self.displaying@[k] == m;
                            if k < before.len() {
                                assert(before[k] == m);
                            }
                        }
                        if before.contains(m) {
                            let k = choose|k: int| 0 <= k < before.len() && before[k] == m;
                            assert(self.displaying@[k] == m);
                        }
                        if m == *src_mac {
                            assert(self.displaying@[before.len() as int] == m);
                        }
                    }
                    assert(self@.displaying =~= old(self)@.displaying.insert(*src_mac));
                }
            },
        }
        proof {
            assert(self@.addresses == old(self)@.addresses);
        }
    }

    /// Whether `src_mac` is chosen for display.
    pub fn is_displaying(&self, src_mac: &[u8; 6]) -> (shown: bool)
        ensures
            shown == self@.displaying.contains(*src_mac),
    {
        position(&self.displaying, src_mac).is_some()
    }

    /// The largest delta among the series of the addresses chosen for
    /// display, and 1 where they hold no larger one: the value that a
    /// self-scaling axis of the plot of `context` has to reach.
    pub fn max_delta(&self, context: ZoomContext) -> (bound: u64)
        ensures
            is_plot_bound(
                self@.entities(),
                |i: int| self@.displaying.contains(self@.addresses[i].mac),
                context,
                bound,
            ),
    {
        let ghost entities = self@.entities();
        let ghost shown = |i: int| self@.displaying.contains(self@.addresses[i].mac);
        let mut bound: u64 = 1;
        let mut n: usize = 0;
        while n < self.entries.len()
            invariant
                n <= self.entries.len(),
                entities == self@.entities(),
                forall|i: int|
                    #[trigger] shown(i) == self@.displaying.contains(self@.addresses[i].mac),
                is_plot_bound(entities.take(n as int), shown, context, bound),
            decreases self.entries.len() - n,
        {
            let entry = &self.entries[n];
            let displayed = self.is_displaying(&entry.mac);
            let raised = entry.entity.raise_plot_bound(displayed, context, bound);
            proof {
                assert(self@.addresses[n as int] == entry@);
                assert(entities[n as int] == entry@.entity);
                lemma_plot_bound_extends(entities, shown, context, n as int, bound, raised);
            }
            bound = raised;
            n += 1;
        }
        proof {
            assert(entities.take(n as int) =~= entities);
        }
        bound
    }

    /// The tracked addresses with their state, in listing order.
    pub fn entries(&self) -> (entries: &Vec<AddressEntry>)
        ensures
            entry_views(entries@) == self@.addresses,
            self.wf() ==> forall|i: int| 0 <= i < entries.len() ==> (#[trigger] entries[i]).wf(),
    {
        &self.entries
    }

    /// The number of tracked addresses.
    pub fn len(&self) -> (n: usize)
        ensures
            n == self@.addresses.len(),
    {
        self.entries.len()
    }

    /// The number of ticks taken so far.
    pub fn tick_count(&self) -> (tick: u64)
        ensures
            tick == self@.tick,
    {
        self.tick_count
    }

    /// The bounds of the display window.
    pub fn window(&self) -> (bounds: (u64, u64))
        ensures
            bounds.0 == self@.window_low(),
            bounds.1 == self@.window_high(),
    {
        display_window(self.tick_count, self.window_size)
    }
}

/// How the deletion of an evicted address from the table ended.
#[derive(Clone, Copy, Debug, PartialEq, Eq, Structural)]
pub enum TableDelete {
    /// The entry was deleted.
    Deleted,
    /// The table held no entry for the address.
    KeyNotFound,
    /// The table refused the deletion.
    Failed,
}

/// A deletion that the table refused.
#[derive(Clone, Copy, Debug, PartialEq, Eq, Structural)]
pub struct TableDeleteError {}

/// Judges the deletion of an evicted address from the table. An entry that
/// was already gone, pushed out by the table itself, counts as deleted.
pub fn confirm_deletion(outcome: TableDelete) -> (result: Result<(), TableDeleteError>)
    ensures
        result is Ok <==> outcome != TableDelete::Failed,
{
    match outcome {
        TableDelete::Deleted => Ok(()),
        TableDelete::KeyNotFound => Ok(()),
        TableDelete::Failed => Err(TableDeleteError {  }),
    }
}

/// The first place of `mac` in `list`, if it occurs.
fn position(list: &Vec<[u8; 6]>, mac: &[u8; 6]) -> (r: Option<usize>)
    ensures
        match r {
            Some(i) => i < list.len() && list[i as int] == *mac,
            None => !list@.contains(*mac),
        },
{
    let mut i: usize = 0;
    while i < list.len()
        invariant
            i <= list.len(),
            forall|j: int| 0 <= j < i ==> list[j] != *mac,
        decreases list.len() - i,
    {
        if list[i].same(mac) {
            return Some(i);
        }
        i += 1;
    }
    None
}

/// The places in `s` of the elements that a filter keeps, in order.
spec fn kept_places(s: Seq<TrackedAddress>, keep: spec_fn(TrackedAddress) -> bool) -> Seq<int>
    decreases s.len(),
{
    if s.len() == 0 {
        Seq::empty()
    } else if keep(s.last()) {
        kept_places(s.drop_last(), keep).push(s.len() - 1)
    } else {
        kept_places(s.drop_last(), keep)
    }
}

/// Every element of a filtered sequence comes from the unfiltered one, and
/// the elements keep their relative order.
proof fn lemma_kept_places(s: Seq<TrackedAddress>, keep: spec_fn(TrackedAddress) -> bool)
    ensures
        kept_places(s, keep).len() == s.filter(keep).len(),
        forall|k: int|
            0 <= k < s.filter(keep).len() ==> 0 <= #[trigger] kept_places(s, keep)[k] < s.len()
                && s.filter(keep)[k] == s[kept_places(s, keep)[k]],
        forall|k: int, l: int|
            0 <= k < l < s.filter(keep).len() ==> #[trigger] kept_places(s, keep)[k]
                < #[trigger] kept_places(s, keep)[l],
    decreases s.len(),
{
    reveal(Seq::filter);
    if s.len() > 0 {
        lemma_kept_places(s.drop_last(), keep);
    }
}

/// Filtering the tracked addresses keeps them distinct and their windows equal.
proof fn lemma_filter_keeps_inv(
    before: EthernetModelView,
    after: EthernetModelView,
    keep: spec_fn(TrackedAddress) -> bool,
)
    requires
        before.inv(),
        after.window == before.window,
        after.addresses == before.addresses.filter(keep),
    ensures
        after.inv(),
{
    lemma_kept_places(before.addresses, keep);
    let places = kept_places(before.addresses, keep);
    assert forall|i: int, j: int| 0 <= i < j < after.addresses.len() implies (
    #[trigger] after.addresses[i]).mac != (#[trigger] after.addresses[j]).mac by {
        assert(places[i] < places[j]);
        assert(after.addresses[i] == before.addresses[places[i]]);
        assert(after.addresses[j] == before.addresses[places[j]]);
    }
    assert forall|i: int| 0 <= i < after.addresses.len() implies (
    #[trigger] after.addresses[i]).entity.window == after.window
        && after.addresses[i].entity.inv() by {
        assert(after.addresses[i] == before.addresses[places[i]]);
    }
}

} // verus!
