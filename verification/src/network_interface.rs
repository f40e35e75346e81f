//! Aggregation of the interface counters, and the bookkeeping of which
//! interfaces the counting program is attached to.

use vstd::prelude::*;
use crate::counter::{
    first_failure, observations, read_result, sum_slots, CounterInit, Observation, ReadFailure,
    Reading, Totals,
};
use crate::entity::{
    clamped_delta, is_plot_bound, lemma_plot_bound_extends, EntityView, TrackedEntity,
};
use crate::series::{display_window, window_high, window_low, windowed, Point};
use crate::view::ZoomContext;

verus! {

/// A network interface known to the host.
#[derive(Debug)]
pub struct NetworkInterface {
    pub index: u32,
    pub name: String,
}

/// The token that identifies one attachment of the counting program to one
/// interface. It is needed to detach the program again.
#[derive(Clone, Copy, Debug, PartialEq, Eq, Structural)]
pub struct LinkHandle {
    pub id: u64,
}

/// Why an attach, detach or toggle did not take place.
#[derive(Clone, Copy, Debug, PartialEq, Eq, Structural)]
pub enum AttachmentError {
    /// The interface is not among the known ones.
    InterfaceNotFound,
    /// The hook could not be installed on the interface.
    AttachFailed,
    /// No attachment is recorded for the interface.
    NotAttached,
    /// The hook could not be removed from the interface.
    DetachFailed,
}

/// Why the program cannot start.
#[derive(Clone, Copy, Debug, PartialEq, Eq, Structural)]
pub enum StartupError {
    /// The number of CPUs is not known, so per-CPU slots cannot be summed.
    CpuCountUnavailable,
    /// Installations failed and left no interface attached.
    NoUsableInterface,
}

/// What has to be done to an interface's hook before a toggle can complete.
#[derive(Clone, Copy, Debug, PartialEq, Eq, Structural)]
pub enum HookRequest {
    /// Install the counting program on the interface.
    Install,
    /// Remove the attachment that the handle identifies.
    Remove(LinkHandle),
}

/// How the work on an interface's hook ended.
#[derive(Clone, Copy, Debug, PartialEq, Eq, Structural)]
pub enum HookReply {
    /// The counting program was installed; the handle identifies the attachment.
    Installed(LinkHandle),
    /// The attachment was removed.
    Removed,
    /// The hook could not be installed or removed.
    Failed,
}

impl HookReply {
    /// The handle of an installed hook.
    pub open spec fn installed(self) -> Option<LinkHandle> {
        match self {
            HookReply::Installed(link) => Some(link),
            _ => None,
        }
    }

    /// Whether the reply reports a removed hook.
    pub open spec fn removed(self) -> bool {
        self == HookReply::Removed
    }
}

/// One installation made at startup.
#[derive(Clone, Copy, Debug, PartialEq, Eq, Structural)]
pub struct StartupHook {
    pub interface_index: u32,
    /// The handle of the attachment, or nothing if the hook could not be installed.
    pub link: Option<LinkHandle>,
}

/// The mathematical content of what is kept for one interface.
pub struct InterfaceState {
    pub index: u32,
    pub name: Seq<char>,
    pub entity: EntityView,
    pub collecting: bool,
    pub link: Option<LinkHandle>,
}

/// What is kept for an interface at startup: nothing counted, both series at
/// the zero point, collection switched on, no attachment recorded yet.
pub open spec fn initial_state(interface: NetworkInterface, window: nat) -> InterfaceState {
    InterfaceState {
        index: interface.index,
        name: interface.name@,
        entity: EntityView::fresh(window, 0).with_reset_series(),
        collecting: true,
        link: None,
    }
}

/// The first interface of a list that has the index `index`.
pub open spec fn first_with_index(interfaces: Seq<NetworkInterface>, index: u32) -> Option<
    NetworkInterface,
>
    decreases interfaces.len(),
{
    if interfaces.len() == 0 {
        None
    } else {
        match first_with_index(interfaces.drop_last(), index) {
            Some(interface) => Some(interface),
            None => if interfaces.last().index == index {
                Some(interfaces.last())
            } else {
                None
            },
        }
    }
}

/// The mathematical content of the interface model.
pub struct NetworkInterfaceModelView {
    /// The known interfaces, by ascending index.
    pub interfaces: Seq<InterfaceState>,
    /// The number of ticks taken so far.
    pub tick: u64,
    /// The number of points each series keeps.
    pub window: nat,
}

impl NetworkInterfaceModelView {
    /// Whether an interface with this index is known.
    pub open spec fn knows(self, index: u32) -> bool {
        exists|i: int|
            0 <= i < self.interfaces.len() && (#[trigger] self.interfaces[i]).index == index
    }

    /// The place of the interface with this index.
    pub open spec fn index_of(self, index: u32) -> int {
        choose|i: int|
            0 <= i < self.interfaces.len() && (#[trigger] self.interfaces[i]).index == index
    }

    /// What is kept for the interface with this index.
    pub open spec fn state_of(self, index: u32) -> InterfaceState {
        self.interfaces[self.index_of(index)]
    }

    /// Whether an attachment is recorded for the interface with this index.
    pub open spec fn is_attached(self, index: u32) -> bool {
        self.knows(index) && self.state_of(index).link is Some
    }

    /// The interfaces are listed by strictly ascending index, so none occurs
    /// twice, and every series keeps at most `window` points, which is at
    /// least one.
    pub open spec fn inv(self) -> bool {
        &&& 0 < self.window
        &&& forall|i: int, j: int|
            0 <= i < j < self.interfaces.len() ==> (#[trigger] self.interfaces[i]).index < (
            #[trigger] self.interfaces[j]).index
        &&& forall|i: int|
            0 <= i < self.interfaces.len() ==> (#[trigger] self.interfaces[i]).entity.window
                == self.window && self.interfaces[i].entity.inv()
    }

    /// The model with the state of the interface `index` replaced.
    pub open spec fn with_state(
        self,
        index: u32,
        state: InterfaceState,
    ) -> NetworkInterfaceModelView {
        NetworkInterfaceModelView {
            interfaces: self.interfaces.update(self.index_of(index), state),
            ..self
        }
    }

    /// The model at the start of the next tick.
    pub open spec fn advanced(self) -> NetworkInterfaceModelView {
        NetworkInterfaceModelView { tick: (self.tick + 1) as u64, ..self }
    }

    /// The model after the totals `totals` were read for the interface
    /// `index`. A reading for an unknown interface changes nothing.
    pub open spec fn absorbed(self, index: u32, totals: Totals) -> NetworkInterfaceModelView {
        if self.knows(index) {
            let state = self.state_of(index);
            self.with_state(
                index,
                InterfaceState { entity: state.entity.observed(self.tick, totals), ..state },
            )
        } else {
            self
        }
    }

    /// The model after every reading was taken in, in order.
    pub open spec fn absorbed_all(
        self,
        readings: Seq<Observation<u32>>,
    ) -> NetworkInterfaceModelView
        decreases readings.len(),
    {
        if readings.len() == 0 {
            self
        } else {
            self.absorbed_all(readings.drop_last()).absorbed_reading(readings.last())
        }
    }

    /// The model after one reading was taken in. A failed read changes nothing.
    pub open spec fn absorbed_reading(self, reading: Observation<u32>) -> NetworkInterfaceModelView {
        match reading.totals {
            Some(totals) => self.absorbed(reading.key, totals),
            None => self,
        }
    }

    /// The model after a whole tick in which `readings` were read from the table.
    pub open spec fn ticked(self, readings: Seq<Observation<u32>>) -> NetworkInterfaceModelView {
        self.advanced().absorbed_all(readings)
    }

    /// The model after the attachment `link` was recorded for the interface `index`.
    pub open spec fn attached(self, index: u32, link: LinkHandle) -> NetworkInterfaceModelView {
        self.with_state(index, InterfaceState { link: Some(link), ..self.state_of(index) })
    }

    /// The model after the attachment of the interface `index` was removed:
    /// no handle is recorded, nothing is counted any more, and both series
    /// are reset to the zero point alone.
    pub open spec fn detached(self, index: u32) -> NetworkInterfaceModelView {
        let state = self.state_of(index);
        self.with_state(
            index,
            InterfaceState { link: None, entity: state.entity.cleared(), ..state },
        )
    }

    /// The model with the collecting flag of the interface `index` set.
    pub open spec fn with_collecting(
        self,
        index: u32,
        collecting: bool,
    ) -> NetworkInterfaceModelView {
        self.with_state(index, InterfaceState { collecting, ..self.state_of(index) })
    }

    /// The outcome of an attach whose hook installation gave `installed`. On
    /// success the counter entry of the interface is to be initialised with
    /// empty slots if the table does not hold it.
    pub open spec fn attach_result(self, index: u32, installed: Option<LinkHandle>) -> Result<
        CounterInit,
        AttachmentError,
    > {
        if !self.knows(index) {
            Err(AttachmentError::InterfaceNotFound)
        } else if installed is None {
            Err(AttachmentError::AttachFailed)
        } else {
            Ok(CounterInit { interface_index: index, overwrite: false })
        }
    }

    /// The model after an attach whose hook installation gave `installed`.
    pub open spec fn after_attach(
        self,
        index: u32,
        installed: Option<LinkHandle>,
    ) -> NetworkInterfaceModelView {
        if self.attach_result(index, installed) is Ok {
            self.attached(index, installed->Some_0)
        } else {
            self
        }
    }

    /// The outcome of a detach; `removed` tells whether the hook could be
    /// removed. On success the counter entry of the interface is to be
    /// written with empty slots, whether or not the table holds it.
    pub open spec fn detach_result(self, index: u32, removed: bool) -> Result<
        CounterInit,
        AttachmentError,
    > {
        if !self.is_attached(index) {
            Err(AttachmentError::NotAttached)
        } else if !removed {
            Err(AttachmentError::DetachFailed)
        } else {
            Ok(CounterInit { interface_index: index, overwrite: true })
        }
    }

    /// The model after a detach; `removed` tells whether the hook could be removed.
    pub open spec fn after_detach(self, index: u32, removed: bool) -> NetworkInterfaceModelView {
        if self.detach_result(index, removed) is Ok {
            self.detached(index)
        } else {
            self
        }
    }

    /// What a toggle of the interface `index` asks of its hook: an interface
    /// that is collecting is detached, another one is attached.
    pub open spec fn toggle_request(self, index: u32) -> Result<HookRequest, AttachmentError> {
        if !self.knows(index) {
            Err(AttachmentError::InterfaceNotFound)
        } else if !self.state_of(index).collecting {
            Ok(HookRequest::Install)
        } else {
            match self.state_of(index).link {
                Some(link) => Ok(HookRequest::Remove(link)),
                None => Err(AttachmentError::NotAttached),
            }
        }
    }

    /// The outcome of a toggle after the work on the hook ended with `reply`.
    pub open spec fn toggle_result(self, index: u32, reply: HookReply) -> Result<
        CounterInit,
        AttachmentError,
    > {
        if !self.knows(index) {
            Err(AttachmentError::InterfaceNotFound)
        } else if self.state_of(index).collecting {
            self.detach_result(index, reply.removed())
        } else {
            self.attach_result(index, reply.installed())
        }
    }

    /// The model after a toggle: the collecting flag flips only if the attach
    /// or detach succeeds.
    pub open spec fn after_toggle(self, index: u32, reply: HookReply) -> NetworkInterfaceModelView {
        if self.toggle_result(index, reply) is Err {
            self
        } else if self.state_of(index).collecting {
            self.detached(index).with_collecting(index, false)
        } else {
            self.attached(index, reply.installed()->Some_0).with_collecting(index, true)
        }
    }

    /// Whether an attachment is recorded for any interface.
    pub open spec fn any_attached(self) -> bool {
        exists|i: int|
            0 <= i < self.interfaces.len() && (#[trigger] self.interfaces[i]).link is Some
    }

    /// Whether an installation made at startup failed or names an unknown interface.
    pub open spec fn hook_failed(self, hook: StartupHook) -> bool {
        hook.link is None || !self.knows(hook.interface_index)
    }

    /// Whether any installation made at startup failed.
    pub open spec fn any_hook_failed(self, hooks: Seq<StartupHook>) -> bool {
        exists|i: int| 0 <= i < hooks.len() && self.hook_failed(#[trigger] hooks[i])
    }

    /// The model after one installation made at startup: the handle of a
    /// successful one is recorded; an interface whose installation failed
    /// stops collecting, so that a later toggle attaches it.
    pub open spec fn after_startup_hook(self, hook: StartupHook) -> NetworkInterfaceModelView {
        if !self.knows(hook.interface_index) {
            self
        } else {
            match hook.link {
                Some(link) => self.attached(hook.interface_index, link),
                None => self.with_collecting(hook.interface_index, false),
            }
        }
    }

    /// The model after the installations made at startup were taken in, in order.
    pub open spec fn after_startup(self, hooks: Seq<StartupHook>) -> NetworkInterfaceModelView
        decreases hooks.len(),
    {
        if hooks.len() == 0 {
            self
        } else {
            self.after_startup(hooks.drop_last()).after_startup_hook(hooks.last())
        }
    }

    /// The counter entries that the startup initialises: that of every known
    /// interface, in listing order, each with empty slots if the table does
    /// not hold it.
    pub open spec fn startup_inits(self) -> Seq<CounterInit> {
        self.interfaces.map_values(
            |state: InterfaceState| CounterInit { interface_index: state.index, overwrite: false },
        )
    }

    /// The outcome of the startup, given the number of CPUs if it could be
    /// found: it fails without that number, and when installations failed
    /// and no interface is attached in the end. Otherwise it hands back the
    /// counter entries to initialise.
    pub open spec fn startup_result(self, hooks: Seq<StartupHook>, cpus: Option<usize>) -> Result<
        Seq<CounterInit>,
        StartupError,
    > {
        if cpus is None {
            Err(StartupError::CpuCountUnavailable)
        } else if self.any_hook_failed(hooks) && !self.after_startup(hooks).any_attached() {
            Err(StartupError::NoUsableInterface)
        } else {
            Ok(self.startup_inits())
        }
    }

    /// The model in which every interface without an attachment has stopped
    /// collecting, so that a toggle attaches it.
    pub open spec fn settled(self) -> NetworkInterfaceModelView {
        NetworkInterfaceModelView {
            interfaces: self.interfaces.map_values(
                |state: InterfaceState|
                    if state.link is None {
                        InterfaceState { collecting: false, ..state }
                    } else {
                        state
                    },
            ),
            ..self
        }
    }

    /// The model after the startup. Without the number of CPUs nothing is
    /// taken in. Otherwise the installations are taken in, and every
    /// interface that is left without an attachment, because its
    /// installation failed or because none was reported for it, stops
    /// collecting.
    pub open spec fn started(
        self,
        hooks: Seq<StartupHook>,
        cpus: Option<usize>,
    ) -> NetworkInterfaceModelView {
        if cpus is None {
            self
        } else {
            self.after_startup(hooks).settled()
        }
    }

    /// The state kept for each interface, in listing order.
    pub open spec fn entities(self) -> Seq<EntityView> {
        self.interfaces.map_values(|state: InterfaceState| state.entity)
    }

    /// The lower bound of the display window.
    pub open spec fn window_low(self) -> u64 {
        window_low(self.tick, self.window)
    }

    /// The upper bound of the display window.
    pub open spec fn window_high(self) -> nat {
        window_high(self.tick, self.window)
    }
}

/// Replacing the state of a known interface, its index and window kept,
/// leaves the set of known interfaces, their places and the states of the
/// other interfaces as they were.
pub proof fn lemma_with_state(model: NetworkInterfaceModelView, index: u32, state: InterfaceState)
    requires
        model.inv(),
        model.knows(index),
        state.index == index,
        state.entity.window == model.window,
        state.entity.inv(),
    ensures
        model.with_state(index, state).inv(),
        model.with_state(index, state).state_of(index) == state,
        forall|other: u32| model.with_state(index, state).knows(other) == model.knows(other),
        forall|other: u32|
            model.knows(other) ==> model.with_state(index, state).index_of(other)
                == model.index_of(other),
        forall|other: u32|
            model.knows(other) && other != index ==> model.with_state(index, state).state_of(other)
                == model.state_of(other),
{
    let after = model.with_state(index, state);
    let at = model.index_of(index);
    assert(model.interfaces[at].index == index);
    assert forall|i: int| 0 <= i < after.interfaces.len() implies (
    #[trigger] after.interfaces[i]).index == model.interfaces[i].index by {}
    assert forall|i: int, j: int| 0 <= i < j < after.interfaces.len() implies (
    #[trigger] after.interfaces[i]).index < (#[trigger] after.interfaces[j]).index by {
        assert(after.interfaces[i].index == model.interfaces[i].index);
        assert(after.interfaces[j].index == model.interfaces[j].index);
    }
    assert forall|i: int| 0 <= i < after.interfaces.len() implies (
    #[trigger] after.interfaces[i]).entity.window == after.window
        && after.interfaces[i].entity.inv() by {
        assert(after.interfaces[i].index == model.interfaces[i].index);
        if i != at {
            assert(after.interfaces[i] == model.interfaces[i]);
        }
    }
    assert forall|other: u32| after.knows(other) == model.knows(other) by {
        if after.knows(other) {
            let k = after.index_of(other);
            assert(after.interfaces[k].index == other);
            assert(model.interfaces[k].index == other);
        }
        if model.knows(other) {
            let k = model.index_of(other);
            assert(model.interfaces[k].index == other);
            assert(after.interfaces[k].index == other);
        }
    }
    assert forall|other: u32| model.knows(other) implies after.index_of(other) == model.index_of(
        other,
    ) by {
        let k = model.index_of(other);
        assert(model.interfaces[k].index == other);
        assert(after.interfaces[k].index == other);
        let l = after.index_of(other);
        assert(after.interfaces[l].index == other);
        assert(model.interfaces[l].index == other);
    }
}

/// Taking in a reading for one interface updates that interface, if it is
/// known, and leaves every other interface as it was.
pub proof fn lemma_absorbed(model: NetworkInterfaceModelView, index: u32, totals: Totals)
    requires
        model.inv(),
    ensures
        model.absorbed(index, totals).inv(),
        model.absorbed(index, totals).tick == model.tick,
        model.absorbed(index, totals).window == model.window,
        forall|other: u32| model.absorbed(index, totals).knows(other) == model.knows(other),
        model.knows(index) ==> model.absorbed(index, totals).state_of(index)
            == (InterfaceState {
            entity: model.state_of(index).entity.observed(model.tick, totals),
            ..model.state_of(index)
        }),
        forall|other: u32|
            model.knows(other) && other != index ==> model.absorbed(index, totals).state_of(other)
                == model.state_of(other),
{
    if model.knows(index) {
        let state = model.state_of(index);
        let at = model.index_of(index);
        assert(model.interfaces[at].index == index);
        lemma_with_state(
            model,
            index,
            InterfaceState { entity: state.entity.observed(model.tick, totals), ..state },
        );
    }
}

/// Whether the reading at the place `at` is the only one of its key.
pub open spec fn read_once<K>(readings: Seq<Observation<K>>, at: int) -> bool {
    &&& 0 <= at < readings.len()
    &&& forall|j: int|
        0 <= j < readings.len() && j != at ==> (#[trigger] readings[j]).key != readings[at].key
}

/// Readings of which one alone is for a known interface, and succeeded,
/// record that reading for the interface.
proof fn lemma_absorbed_once(
    model: NetworkInterfaceModelView,
    readings: Seq<Observation<u32>>,
    index: u32,
    at: int,
)
    requires
        model.inv(),
        model.knows(index),
        -1 <= at < readings.len(),
        at >= 0 ==> readings[at].key == index && readings[at].totals is Some,
        forall|j: int| 0 <= j < readings.len() && j != at ==> (#[trigger] readings[j]).key != index,
    ensures
        model.absorbed_all(readings).inv(),
        model.absorbed_all(readings).tick == model.tick,
        model.absorbed_all(readings).window == model.window,
        model.absorbed_all(readings).knows(index),
        model.absorbed_all(readings).state_of(index) == (if at >= 0 {
            InterfaceState {
                entity: model.state_of(index).entity.observed(
                    model.tick,
                    readings[at].totals->Some_0,
                ),
                ..model.state_of(index)
            }
        } else {
            model.state_of(index)
        }),
    decreases readings.len(),
{
    if readings.len() > 0 {
        let earlier = readings.drop_last();
        let last = readings.len() - 1;
        let reading = readings[last];
        assert forall|j: int| 0 <= j < earlier.len() && j != at implies (
        #[trigger] earlier[j]).key != index by {
            assert(earlier[j] == readings[j]);
        }
        if at == last {
            lemma_absorbed_once(model, earlier, index, -1);
        } else {
            if at >= 0 {
                assert(earlier[at] == readings[at]);
            }
            lemma_absorbed_once(model, earlier, index, at);
        }
        if reading.totals is Some {
            lemma_absorbed(model.absorbed_all(earlier), reading.key, reading.totals->Some_0);
        }
    }
}

/// What a tick records for an interface that is read once: the reading
/// becomes its cumulative totals, and each series gets one point with the
/// growth since the previous reading, or the whole value where it went
/// down. No series grows past the window; a full one loses its oldest point
/// and keeps the order of the others. Nothing else of the interface changes.
pub proof fn lemma_tick_records_reading(
    model: NetworkInterfaceModelView,
    readings: Seq<Observation<u32>>,
    at: int,
)
    requires
        model.inv(),
        model.tick < u64::MAX,
        read_once(readings, at),
        readings[at].totals is Some,
        model.knows(readings[at].key),
    ensures
        ({
            let index = readings[at].key;
            let totals = readings[at].totals->Some_0;
            let tick = (model.tick + 1) as u64;
            let before = model.state_of(index);
            let after = model.ticked(readings).state_of(index);
            &&& model.ticked(readings).inv()
            &&& model.ticked(readings).knows(index)
            &&& after == (InterfaceState { entity: before.entity.observed(tick, totals), ..before })
            &&& after.entity.packets == totals.packets
            &&& after.entity.bytes == totals.bytes
            &&& after.entity.packet_series == windowed(
                before.entity.packet_series,
                Point { tick, delta: clamped_delta(totals.packets, before.entity.packets) },
                model.window,
            )
            &&& after.entity.byte_series == windowed(
                before.entity.byte_series,
                Point { tick, delta: clamped_delta(totals.bytes, before.entity.bytes) },
                model.window,
            )
            &&& after.entity.packet_series.len() <= model.window
            &&& after.entity.byte_series.len() <= model.window
            &&& clamped_delta(totals.packets, before.entity.packets) <= totals.packets
            &&& clamped_delta(totals.bytes, before.entity.bytes) <= totals.bytes
        }),
{
    let index = readings[at].key;
    let start = model.advanced();
    assert(start.interfaces == model.interfaces);
    let k = model.index_of(index);
    assert(model.interfaces[k].index == index);
    assert(start.interfaces[k].index == index);
    let k2 = start.index_of(index);
    assert(start.interfaces[k2].index == index);
    lemma_absorbed_once(start, readings, index, at);
}

/// The startup keeps the model well formed and the known interfaces in
/// their places.
pub proof fn lemma_startup_keeps_interfaces(model: NetworkInterfaceModelView, hooks: Seq<StartupHook>)
    requires
        model.inv(),
    ensures
        model.after_startup(hooks).inv(),
        model.after_startup(hooks).interfaces.len() == model.interfaces.len(),
        forall|i: int|
            0 <= i < model.interfaces.len() ==> (#[trigger] model.after_startup(
                hooks,
            ).interfaces[i]).index == model.interfaces[i].index,
    decreases hooks.len(),
{
    if hooks.len() > 0 {
        lemma_startup_keeps_interfaces(model, hooks.drop_last());
        let before = model.after_startup(hooks.drop_last());
        let hook = hooks.last();
        if before.knows(hook.interface_index) {
            let state = before.state_of(hook.interface_index);
            let at = before.index_of(hook.interface_index);
            assert(before.interfaces[at].index == hook.interface_index);
            lemma_with_state(
                before,
                hook.interface_index,
                match hook.link {
                    Some(link) => InterfaceState { link: Some(link), ..state },
                    None => InterfaceState { collecting: false, ..state },
                },
            );
        }
    }
}

/// A known interface with its state.
#[derive(Debug)]
pub struct InterfaceEntry {
    interface: NetworkInterface,
    entity: TrackedEntity,
    collecting: bool,
    link: Option<LinkHandle>,
}

impl View for InterfaceEntry {
    type V = InterfaceState;

    closed spec fn view(&self) -> InterfaceState {
        InterfaceState {
            index: self.interface.index,
            name: self.interface.name@,
            entity: self.entity@,
            collecting: self.collecting,
            link: self.link,
        }
    }
}

impl InterfaceEntry {
    /// The entry's state is well formed.
    pub closed spec fn wf(&self) -> bool {
        self.entity.wf()
    }

    /// The interface.
    pub fn interface(&self) -> (interface: &NetworkInterface)
        ensures
            interface.index == self@.index,
            interface.name@ == self@.name,
    {
        &self.interface
    }

    /// The totals and history kept for the interface.
    pub fn entity(&self) -> (entity: &TrackedEntity)
        ensures
            entity@ == self@.entity,
            self.wf() ==> entity.wf(),
    {
        &self.entity
    }

    /// Whether collection is switched on for the interface.
    pub fn collecting(&self) -> (collecting: bool)
        ensures
            collecting == self@.collecting,
    {
        self.collecting
    }

    /// The handle of the interface's attachment, if one is recorded.
    pub fn link(&self) -> (link: Option<LinkHandle>)
        ensures
            link == self@.link,
    {
        self.link
    }
}

/// The views of a list of entries.
pub open spec fn entry_views(entries: Seq<InterfaceEntry>) -> Seq<InterfaceState> {
    entries.map_values(|e: InterfaceEntry| e@)
}

/// The aggregator's state for the interface table, together with the
/// attachment state of every interface.
#[derive(Debug)]
pub struct NetworkInterfaceModel {
    entries: Vec<InterfaceEntry>,
    tick_count: u64,
    window_size: usize,
}

impl View for NetworkInterfaceModel {
    type V = NetworkInterfaceModelView;

    closed spec fn view(&self) -> NetworkInterfaceModelView {
        NetworkInterfaceModelView {
            interfaces: entry_views(self.entries@),
            tick: self.tick_count,
            window: self.window_size as nat,
        }
    }
}

impl NetworkInterfaceModel {
    /// The representation is consistent: every entry is well formed, and the
    /// view's invariant holds.
    pub closed spec fn wf(&self) -> bool {
        &&& self@.inv()
        &&& forall|i: int| 0 <= i < self.entries.len() ==> (#[trigger] self.entries[i]).wf()
    }

    /// A well-formed model has a well-formed view.
    pub proof fn lemma_view_inv(&self)
        requires
            self.wf(),
        ensures
            self@.inv(),
    {
    }

    /// The model at startup: every listed interface is known, sorted by index,
    /// with nothing counted, both series at the zero point and collection
    /// switched on. Of several interfaces with one index the first is kept.
    pub fn new(interfaces: &Vec<NetworkInterface>, window_size: usize) -> (model:
        NetworkInterfaceModel)
        requires
            window_size > 0,
        ensures
            model.wf(),
            model@.tick == 0,
            model@.window == window_size,
            forall|index: u32|
                model@.knows(index) <==> first_with_index(interfaces@, index) is Some,
            forall|i: int|
                0 <= i < model@.interfaces.len() ==> #[trigger] model@.interfaces[i]
                    == initial_state(
                    first_with_index(interfaces@, model@.interfaces[i].index)->Some_0,
                    window_size as nat,
                ),
    {
        let mut model = NetworkInterfaceModel {
            entries: Vec::new(),
            tick_count: 0,
            window_size,
        };
        let mut n: usize = 0;
        while n < interfaces.len()
            invariant
                n <= interfaces.len(),
                model.wf(),
                model.tick_count == 0,
                model.window_size == window_size,
                forall|index: u32|
                    model@.knows(index) <==> first_with_index(interfaces@.take(n as int), index)
                        is Some,
                forall|i: int|
                    0 <= i < model@.interfaces.len() ==> #[trigger] model@.interfaces[i]
                        == initial_state(
                        first_with_index(
                            interfaces@.take(n as int),
                            model@.interfaces[i].index,
                        )->Some_0,
                        window_size as nat,
                    ),
            decreases interfaces.len() - n,
        {
            let ghost before = model@;
            let ghost seen = interfaces@.take(n as int);
            let ghost next = interfaces@.take(n + 1);
            proof {
                assert(next.drop_last() =~= seen);
                assert(next.last() == interfaces@[n as int]);
            }
            let index = interfaces[n].index;
            let at = model.insertion_point(index);
            if at < model.entries.len() && model.entries[at].interface.index == index {
                proof {
                    assert(before.interfaces[at as int].index == index);
                    assert(before.knows(index));
                    assert forall|other: u32|
                        first_with_index(next, other) == first_with_index(seen, other) by {}
                }
            } else {
                let mut entity = TrackedEntity::new(window_size, 0);
                entity.reset_series();
                let entry = InterfaceEntry {
                    interface: NetworkInterface { index, name: interfaces[n].name.clone() },
                    entity,
                    collecting: true,
                    link: None,
                };
                let ghost state = entry@;
                model.entries.insert(at, entry);
                proof {
                    let after = model@;
                    assert(after.interfaces =~= before.interfaces.insert(at as int, state));
                    assert(!before.knows(index)) by {
                        if before.knows(index) {
                            let k = before.index_of(index);
                            assert(before.interfaces[k].index == index);
                            if k < at {
                                assert(before.interfaces[k].index < index);
                            } else {
                                assert(before.interfaces[at as int].index
                                    <= before.interfaces[k].index);
                            }
                        }
                    }
                    assert(first_with_index(seen, index) is None);
                    assert(state == initial_state(interfaces@[n as int], window_size as nat));
                    assert forall|i: int, j: int|
                        0 <= i < j < after.interfaces.len() implies (
                    #[trigger] after.interfaces[i]).index < (
                    #[trigger] after.interfaces[j]).index by {
                        let bi = if i < at { i } else { i - 1 };
                        let bj = if j < at { j } else { j - 1 };
                        if i != at {
                            assert(after.interfaces[i] == before.interfaces[bi]);
                        }
                        if j != at {
                            assert(after.interfaces[j] == before.interfaces[bj]);
                        }
                    }
                    assert forall|i: int| 0 <= i < after.interfaces.len() implies (
                    #[trigger] after.interfaces[i]).entity.window == after.window by {
                        if i != at {
                            let bi = if i < at { i } else { i - 1 };
                            assert(after.interfaces[i] == before.interfaces[bi]);
                        }
                    }
                    assert forall|i: int| 0 <= i < model.entries.len() implies (
                    #[trigger] model.entries[i]).wf() by {}
                    assert forall|other: u32|
                        after.knows(other) <==> first_with_index(next, other) is Some by {
                        if after.knows(other) {
                            let k = after.index_of(other);
                            assert(after.interfaces[k].index == other);
                            if k != at {
                                let bk = if k < at { k } else { k - 1 };
                                assert(before.interfaces[bk].index == other);
                                assert(before.knows(other));
                            }
                        }
                        if first_with_index(next, other) is Some {
                            if other == index {
                                assert(after.interfaces[at as int].index == other);
                            } else {
                                assert(before.knows(other));
                                let k = before.index_of(other);
                                let ak = if k < at { k } else { k + 1 };
                                assert(after.interfaces[ak] == before.interfaces[k]);
                            }
                        }
                    }
                    assert forall|i: int| 0 <= i < after.interfaces.len() implies
                        #[trigger] after.interfaces[i] == initial_state(
                        first_with_index(next, after.interfaces[i].index)->Some_0,
                        window_size as nat,
                    ) by {
                        if i != at {
                            let bi = if i < at { i } else { i - 1 };
                            assert(after.interfaces[i] == before.interfaces[bi]);
                            assert(before.knows(before.interfaces[bi].index));
                        }
                    }
                }
            }
            n += 1;
        }
        proof {
            assert(interfaces@.take(n as int) =~= interfaces@);
        }
        model
    }

    /// The first place whose interface has an index of at least `index`.
    fn insertion_point(&self, index: u32) -> (at: usize)
        requires
            self.wf(),
        ensures
            at <= self.entries.len(),
            forall|i: int| 0 <= i < at ==> (#[trigger] self@.interfaces[i]).index < index,
            at < self.entries.len() ==> self@.interfaces[at as int].index >= index,
    {
        let mut at: usize = 0;
        while at < self.entries.len() && self.entries[at].interface.index < index
            invariant
                self.wf(),
                at <= self.entries.len(),
                forall|i: int| 0 <= i < at ==> (#[trigger] self@.interfaces[i]).index < index,
            decreases self.entries.len() - at,
        {
            at += 1;
        }
        at
    }

    /// Where the interface `interface_index` is kept, if it is known.
    fn position(&self, interface_index: u32) -> (r: Option<usize>)
        requires
            self.wf(),
        ensures
            match r {
                Some(i) => i < self.entries.len() && self@.knows(interface_index)
                    && self@.index_of(interface_index) == i,
                None => !self@.knows(interface_index),
            },
    {
        let at = self.insertion_point(interface_index);
        if at < self.entries.len() && self.entries[at].interface.index == interface_index {
            proof {
                assert(self@.interfaces[at as int].index == interface_index);
                let k = self@.index_of(interface_index);
                assert(self@.interfaces[k].index == interface_index);
            }
            Some(at)
        } else {
            proof {
                if self@.knows(interface_index) {
                    let k = self@.index_of(interface_index);
                    assert(self@.interfaces[k].index == interface_index);
                    if k >= at {
                        assert(self@.interfaces[at as int].index <= self@.interfaces[k].index);
                    }
                }
            }
            None
        }
    }

    /// Looks up a known interface by its index.
    pub fn find_interface(&self, interface_index: u32) -> (found: Option<&NetworkInterface>)
        requires
            self.wf(),
        ensures
            match found {
                Some(interface) => self@.knows(interface_index) && interface.index
                    == interface_index && interface.name@ == self@.state_of(interface_index).name,
                None => !self@.knows(interface_index),
            },
    {
        match self.position(interface_index) {
            Some(i) => Some(&self.entries[i].interface),
            None => None,
        }
    }

    /// Takes in the totals read for one interface.
    fn absorb(&mut self, interface_index: u32, totals: Totals)
        requires
            old(self).wf(),
        ensures
            final(self).wf(),
            final(self)@ == old(self)@.absorbed(interface_index, totals),
    {
        let tick = self.tick_count;
        match self.position(interface_index) {
            Some(i) => {
                self.entries[i].entity.observe(tick, totals);
                proof {
                    self.lemma_replaced(*old(self), i as int);
                }
            },
            None => {},
        }
    }

    /// Replacing the state of one entry, index and window kept, replaces one
    /// place of the view and keeps the model well formed.
    proof fn lemma_replaced(&self, before: NetworkInterfaceModel, i: int)
        requires
            before.wf(),
            0 <= i < before.entries.len(),
            self.entries.len() == before.entries.len(),
            self.tick_count == before.tick_count,
            self.window_size == before.window_size,
            forall|j: int|
                0 <= j < before.entries.len() && j != i ==> self.entries[j] == before.entries[j],
            self.entries[i].wf(),
            self.entries[i]@.index == before.entries[i]@.index,
            self.entries[i]@.entity.window == before.entries[i]@.entity.window,
        ensures
            self.wf(),
            self@.interfaces == before@.interfaces.update(i, self.entries[i]@),
            self@ == before@.with_state(before.entries[i]@.index, self.entries[i]@),
            self@.knows(before.entries[i]@.index),
            self@.index_of(before.entries[i]@.index) == i,
    {
        let index = before.entries[i]@.index;
        assert(before@.interfaces[i].index == index);
        let k = before@.index_of(index);
        assert(before@.interfaces[k].index == index);
        assert(self@.interfaces =~= before@.interfaces.update(i, self.entries[i]@));
        self.entries[i].entity.lemma_view_inv();
        lemma_with_state(before@, index, self.entries[i]@);
    }

    /// Takes one tick: moves to the next tick and takes in every reading of
    /// the interface table in order. A known interface without a reading,
    /// or whose read failed, gets no new point; the others get theirs all
    /// the same, and the first key whose read failed is handed back. A
    /// reading for an unknown interface is passed over.
    pub fn on_tick(&mut self, readings: &Vec<Reading<u32>>) -> (result: Result<
        (),
        ReadFailure<u32>,
    >)
        requires
            old(self).wf(),
            old(self)@.tick < u64::MAX,
        ensures
            final(self).wf(),
            final(self)@ == old(self)@.ticked(observations(readings@)),
            result == read_result(observations(readings@)),
    {
        self.tick_count = self.tick_count + 1;
        proof {
            assert(self@.interfaces == old(self)@.interfaces);
            assert(observations(readings@).take(0) =~= Seq::empty());
            assert(self@ == old(self)@.advanced());
        }
        let mut failed: Option<u32> = None;
        let mut n: usize = 0;
        while n < readings.len()
            invariant
                self.wf(),
                n <= readings.len(),
                self@ == old(self)@.advanced().absorbed_all(observations(readings@).take(n as int)),
                failed == first_failure(observations(readings@).take(n as int)),
            decreases readings.len() - n,
        {
            proof {
                let seen = observations(readings@);
                assert(seen.take(n + 1).drop_last() =~= seen.take(n as int));
                assert(seen.take(n + 1).last() == seen[n as int]);
            }
            match &readings[n].slots {
                Some(slots) => {
                    let totals = sum_slots(slots);
                    self.absorb(readings[n].key, totals);
                },
                None => {
                    if failed.is_none() {
                        failed = Some(readings[n].key);
                    }
                },
            }
            n += 1;
        }
        proof {
            assert(observations(readings@).take(n as int) =~= observations(readings@));
        }
        match failed {
            Some(key) => Err(ReadFailure { key }),
            None => Ok(()),
        }
    }

    /// Starts up: takes in the installations made at startup, in order, and
    /// hands back the counter entries that are to be initialised, one for
    /// every known interface. The handle of each successful installation is
    /// recorded, and an interface that is left without an attachment, because
    /// its installation failed or because none was reported for it, stops
    /// collecting.
    /// `cpus` is the number of CPUs, if it could be found: without it the
    /// startup fails and nothing is taken in, since no counter entry can be
    /// written then. The startup also fails when installations failed and no
    /// interface is attached in the end.
    pub fn init_ebpf_programs(&mut self, hooks: &Vec<StartupHook>, cpus: Option<usize>) -> (result:
        Result<Vec<CounterInit>, StartupError>)
        requires
            old(self).wf(),
        ensures
            final(self).wf(),
            final(self)@ == old(self)@.started(hooks@, cpus),
            match result {
                Ok(inits) => old(self)@.startup_result(hooks@, cpus) == Ok::<
                    Seq<CounterInit>,
                    StartupError,
                >(inits@),
                Err(e) => old(self)@.startup_result(hooks@, cpus) == Err::<
                    Seq<CounterInit>,
                    StartupError,
                >(e),
            },
    {
        if cpus.is_none() {
            return Err(StartupError::CpuCountUnavailable);
        }
        let mut failed = false;
        let mut n: usize = 0;
        while n < hooks.len()
            invariant
                self.wf(),
                n <= hooks.len(),
                failed == old(self)@.any_hook_failed(hooks@.take(n as int)),
                self@ == old(self)@.after_startup(hooks@.take(n as int)),
                forall|index: u32| self@.knows(index) == old(self)@.knows(index),
            decreases hooks.len() - n,
        {
            let ghost seen = hooks@.take(n as int);
            let ghost next = hooks@.take(n + 1);
            proof {
                assert(next.drop_last() =~= seen);
                assert(next.last() == hooks@[n as int]);
            }
            let hook = hooks[n];
            let ghost before = self@;
            let known = match hook.link {
                Some(link) => self.attach_ebpf_program(hook.interface_index, Some(link)).is_ok(),
                None => self.set_collecting(hook.interface_index, false),
            };
            proof {
                if before.knows(hook.interface_index) {
                    let state = before.state_of(hook.interface_index);
                    lemma_with_state(
                        before,
                        hook.interface_index,
                        match hook.link {
                            Some(link) => InterfaceState { link: Some(link), ..state },
                            None => InterfaceState { collecting: false, ..state },
                        },
                    );
                }
                let now_failed = hook.link is None || !known;
                assert(now_failed == old(self)@.hook_failed(hook));
                if old(self)@.any_hook_failed(next) {
                    let i = choose|i: int|
                        0 <= i < next.len() && old(self)@.hook_failed(#[trigger] next[i]);
                    if i < n {
                        assert(seen[i] == next[i]);
                    }
                }
                if old(self)@.any_hook_failed(seen) {
                    let i = choose|i: int|
                        0 <= i < seen.len() && old(self)@.hook_failed(#[trigger] seen[i]);
                    assert(next[i] == seen[i]);
                }
                if now_failed {
                    assert(next[n as int] == hook);
                }
            }
            if hook.link.is_none() || !known {
                failed = true;
            }
            n += 1;
        }
        proof {
            assert(hooks@.take(n as int) =~= hooks@);
        }
        let attached = self.any_attached();
        let ghost taken_in = self@;
        let mut k: usize = 0;
        while k < self.entries.len()
            invariant
                self.wf(),
                taken_in.inv(),
                k <= self.entries.len(),
                self@.tick == taken_in.tick,
                self@.window == taken_in.window,
                self@.interfaces.len() == taken_in.interfaces.len(),
                forall|j: int|
                    0 <= j < k ==> #[trigger] self@.interfaces[j] == taken_in.settled().interfaces[j],
                forall|j: int|
                    k <= j < self.entries.len() ==> #[trigger] self@.interfaces[j]
                        == taken_in.interfaces[j],
            decreases self.entries.len() - k,
        {
            let ghost before = *self;
            proof {
                assert(before@.interfaces[k as int] == before.entries[k as int]@);
                assert(taken_in.settled().interfaces[k as int] == (if taken_in.interfaces[k as int].link
                    is None {
                    InterfaceState { collecting: false, ..taken_in.interfaces[k as int] }
                } else {
                    taken_in.interfaces[k as int]
                }));
            }
            if self.entries[k].link.is_none() {
                self.entries[k].collecting = false;
                proof {
                    self.lemma_replaced(before, k as int);
                    assert forall|j: int| 0 <= j < self.entries.len() && j != k implies
                        #[trigger] self@.interfaces[j] == before@.interfaces[j] by {}
                }
            }
            k += 1;
        }
        proof {
            assert(self@.interfaces =~= taken_in.settled().interfaces);
        }
        if failed && !attached {
            return Err(StartupError::NoUsableInterface);
        }
        let mut inits: Vec<CounterInit> = Vec::new();
        let mut i: usize = 0;
        while i < self.entries.len()
            invariant
                i <= self.entries.len(),
                inits@ == self@.startup_inits().take(i as int),
            decreases self.entries.len() - i,
        {
            inits.push(
                CounterInit { interface_index: self.entries[i].interface.index, overwrite: false },
            );
            i += 1;
            assert(inits@ =~= self@.startup_inits().take(i as int));
        }
        proof {
            assert(self@.startup_inits().take(i as int) =~= self@.startup_inits());
            lemma_startup_keeps_interfaces(old(self)@, hooks@);
            assert(self@.startup_inits() =~= old(self)@.startup_inits());
        }
        Ok(inits)
    }


    /// Whether an attachment is recorded for any interface.
    pub fn any_attached(&self) -> (attached: bool)
        ensures
            attached == self@.any_attached(),
    {
        let mut n: usize = 0;
        while n < self.entries.len()
            invariant
                n <= self.entries.len(),
                forall|i: int| 0 <= i < n ==> (#[trigger] self@.interfaces[i]).link is None,
            decreases self.entries.len() - n,
        {
            if self.entries[n].link.is_some() {
                proof {
                    assert(self@.interfaces[n as int].link is Some);
                }
                return true;
            }
            n += 1;
        }
        false
    }

    /// Completes an attach of the counting program to an interface.
    /// `installed` is the handle that installing the hook gave, or nothing if
    /// that failed. On success the handle is recorded, and the write that
    /// initialises the counter entry of the interface, if the table does not
    /// hold it, is handed back; otherwise nothing changes.
    pub fn attach_ebpf_program(
        &mut self,
        interface_index: u32,
        installed: Option<LinkHandle>,
    ) -> (result: Result<CounterInit, AttachmentError>)
        requires
            old(self).wf(),
        ensures
            final(self).wf(),
            result == old(self)@.attach_result(interface_index, installed),
            final(self)@ == old(self)@.after_attach(interface_index, installed),
    {
        match self.position(interface_index) {
            None => Err(AttachmentError::InterfaceNotFound),
            Some(i) => match installed {
                None => Err(AttachmentError::AttachFailed),
                Some(link) => {
                    self.entries[i].link = Some(link);
                    proof {
                        self.lemma_replaced(*old(self), i as int);
                    }
                    Ok(CounterInit { interface_index, overwrite: false })
                },
            },
        }
    }

    /// Completes a detach of the counting program from an interface.
    /// `removed` tells whether the hook could be removed. On success the
    /// recorded handle is dropped, the interface starts again from nothing
    /// counted with both series at the zero point alone, and the write that
    /// empties its counter entry, whether or not the table holds it, is
    /// handed back; otherwise nothing changes.
    pub fn detach_ebpf_program(&mut self, interface_index: u32, removed: bool) -> (result: Result<
        CounterInit,
        AttachmentError,
    >)
        requires
            old(self).wf(),
        ensures
            final(self).wf(),
            result == old(self)@.detach_result(interface_index, removed),
            final(self)@ == old(self)@.after_detach(interface_index, removed),
    {
        match self.position(interface_index) {
            None => Err(AttachmentError::NotAttached),
            Some(i) => {
                if self.entries[i].link.is_none() {
                    Err(AttachmentError::NotAttached)
                } else if !removed {
                    Err(AttachmentError::DetachFailed)
                } else {
                    self.entries[i].link = None;
                    self.entries[i].entity.clear();
                    proof {
                        self.lemma_replaced(*old(self), i as int);
                    }
                    Ok(CounterInit { interface_index, overwrite: true })
                }
            },
        }
    }

    /// What a toggle of the interface asks of its hook. The work is done
    /// outside, and its outcome is handed to `toggle_ebpf_program`.
    pub fn toggle_request(&self, interface_index: u32) -> (request: Result<
        HookRequest,
        AttachmentError,
    >)
        requires
            self.wf(),
        ensures
            request == self@.toggle_request(interface_index),
    {
        match self.position(interface_index) {
            None => Err(AttachmentError::InterfaceNotFound),
            Some(i) => {
                if !self.entries[i].collecting {
                    Ok(HookRequest::Install)
                } else {
                    match self.entries[i].link {
                        Some(link) => Ok(HookRequest::Remove(link)),
                        None => Err(AttachmentError::NotAttached),
                    }
                }
            },
        }
    }

    /// Completes a toggle: an interface that is collecting is detached,
    /// another one is attached, and the collecting flag flips only if that
    /// succeeds. An unknown interface is an error.
    pub fn toggle_ebpf_program(&mut self, interface_index: u32, reply: HookReply) -> (result:
        Result<CounterInit, AttachmentError>)
        requires
            old(self).wf(),
        ensures
            final(self).wf(),
            result == old(self)@.toggle_result(interface_index, reply),
            final(self)@ == old(self)@.after_toggle(interface_index, reply),
    {
        match self.position(interface_index) {
            None => Err(AttachmentError::InterfaceNotFound),
            Some(i) => {
                if self.entries[i].collecting {
                    let removed = match reply {
                        HookReply::Removed => true,
                        _ => false,
                    };
                    let result = self.detach_ebpf_program(interface_index, removed);
                    if result.is_ok() {
                        proof {
                            let state = old(self)@.state_of(interface_index);
                            lemma_with_state(
                                old(self)@,
                                interface_index,
                                InterfaceState { link: None, entity: state.entity.cleared(), ..state },
                            );
                        }
                        self.set_collecting(interface_index, false);
                    }
                    result
                } else {
                    let installed = match reply {
                        HookReply::Installed(link) => Some(link),
                        _ => None,
                    };
                    let result = self.attach_ebpf_program(interface_index, installed);
                    if result.is_ok() {
                        proof {
                            let state = old(self)@.state_of(interface_index);
                            lemma_with_state(
                                old(self)@,
                                interface_index,
                                InterfaceState { link: installed, ..state },
                            );
                        }
                        self.set_collecting(interface_index, true);
                    }
                    result
                }
            },
        }
    }

    /// Sets the collecting flag of a known interface, and tells whether the
    /// interface is known.
    fn set_collecting(&mut self, interface_index: u32, collecting: bool) -> (known: bool)
        requires
            old(self).wf(),
        ensures
            final(self).wf(),
            known == old(self)@.knows(interface_index),
            known ==> final(self)@ == old(self)@.with_collecting(interface_index, collecting),
            !known ==> final(self)@ == old(self)@,
    {
        match self.position(interface_index) {
            Some(i) => {
                self.entries[i].collecting = collecting;
                proof {
                    self.lemma_replaced(*old(self), i as int);
                }
                true
            },
            None => false,
        }
    }

    /// The largest delta among the series of the interfaces that are
    /// collecting, and 1 where they hold no larger one: the value that a
    /// self-scaling axis of the plot of `context` has to reach.
    pub fn max_delta(&self, context: ZoomContext) -> (bound: u64)
        ensures
            is_plot_bound(
                self@.entities(),
                |i: int| self@.interfaces[i].collecting,
                context,
                bound,
            ),
    {
        let ghost entities = self@.entities();
        let ghost shown = |i: int| self@.interfaces[i].collecting;
        let mut bound: u64 = 1;
        let mut n: usize = 0;
        while n < self.entries.len()
            invariant
                n <= self.entries.len(),
                entities == self@.entities(),
                forall|i: int| #[trigger] shown(i) == self@.interfaces[i].collecting,
                is_plot_bound(entities.take(n as int), shown, context, bound),
            decreases self.entries.len() - n,
        {
            let entry = &self.entries[n];
            let raised = entry.entity.raise_plot_bound(entry.collecting, context, bound);
            proof {
                assert(entities[n as int] == entry@.entity);
                lemma_plot_bound_extends(entities, shown, context, n as int, bound, raised);
            }
            bound = raised;
            n += 1;
        }
        proof {
            assert(entities.take(n as int) =~= entities);
        }
        bound
    }

    /// The known interfaces with their state, by ascending index.
    pub fn entries(&self) -> (entries: &Vec<InterfaceEntry>)
        ensures
            entry_views(entries@) == self@.interfaces,
            self.wf() ==> forall|i: int| 0 <= i < entries.len() ==> (#[trigger] entries[i]).wf(),
    {
        &self.entries
    }

    /// The number of known interfaces.
    pub fn len(&self) -> (n: usize)
        ensures
            n == self@.interfaces.len(),
    {
        self.entries.len()
    }

    /// The number of ticks taken so far.
    pub fn tick_count(&self) -> (tick: u64)
        ensures
            tick == self@.tick,
    {
        self.tick_count
    }

    /// The bounds of the display window.
    pub fn window(&self) -> (bounds: (u64, u64))
        ensures
            bounds.0 == self@.window_low(),
            bounds.1 == self@.window_high(),
    {
        display_window(self.tick_count, self.window_size)
    }
}

} // verus!
