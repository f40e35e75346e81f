//! The two monitoring contexts: the model of each, what its view keeps, and
//! how a tick or a key press changes them.

use vstd::prelude::*;
use crate::counter::{observations, read_result, ReadFailure, Reading};
use crate::ethernet::{
    ascending, rearranged, EthernetModel, EthernetModelView, IDLE_MAC_ADDR_TIMEOUT_NUM_TICKS,
};
use crate::network_interface::{
    AttachmentError, HookRequest, NetworkInterface, NetworkInterfaceModel,
};
use crate::view::{KeyCode, KeyEvent, ViewState, ZoomContext, ZoomStep};

verus! {

/// The number of points that a series keeps.
pub const DEFAULT_WINDOW_SIZE: usize = 50;

/// What is left to do outside a context after a key press.
#[derive(Clone, Copy, Debug, PartialEq, Eq, Structural)]
pub enum KeyOutcome {
    /// Nothing: the key was handled within the context, or no view reacts to it.
    Handled,
    /// The upper bound of a vertical axis is to be doubled or halved.
    Zoom(ZoomContext, ZoomStep),
    /// The hook of an interface is to be installed or removed; the outcome
    /// of that work completes the toggle.
    Hook { interface_index: u32, request: HookRequest },
    /// The toggle of the selected interface cannot take place.
    Refused(AttachmentError),
    /// The selection points past the end of the list.
    NothingSelected,
}

/// The outcome of a key press that asked for a change of an axis, if it did.
pub open spec fn zoom_outcome(zoom: Option<(ZoomContext, ZoomStep)>) -> KeyOutcome {
    match zoom {
        Some((context, step)) => KeyOutcome::Zoom(context, step),
        None => KeyOutcome::Handled,
    }
}

/// Whether a key press is the letter `c`.
pub open spec fn is_char(key: KeyEvent, c: char) -> bool {
    key.code == KeyCode::Char(c)
}

/// Monitoring by source hardware address.
#[derive(Debug)]
pub struct EthernetContext {
    pub model: EthernetModel,
    pub view: ViewState,
}

impl EthernetContext {
    /// The context at startup: no address tracked, the default window and idle timeout.
    pub fn new() -> (context: EthernetContext)
        ensures
            context.model.wf(),
            context.view == ViewState::initial(),
            context.model@ == (EthernetModelView {
                addresses: Seq::empty(),
                displaying: Set::empty(),
                tick: 0,
                window: DEFAULT_WINDOW_SIZE as nat,
                idle_timeout: IDLE_MAC_ADDR_TIMEOUT_NUM_TICKS,
            }),
    {
        EthernetContext {
            model: EthernetModel::new(DEFAULT_WINDOW_SIZE, IDLE_MAC_ADDR_TIMEOUT_NUM_TICKS),
            view: ViewState::new(),
        }
    }

    /// The name shown on the context's tab.
    pub fn get_context_name(&self) -> (name: String)
        ensures
            name@ == "Ethernet"@,
    {
        "Ethernet".to_owned()
    }

    /// The lines that explain the context's keys.
    pub fn get_command_help(&self) -> (help: Vec<String>)
        ensures
            help@.len() == 1,
            help@[0]@ == "(↑/↓) Select address, (t) Toggle address monitoring, (s) Sort address values"@,
    {
        let mut help: Vec<String> = Vec::new();
        help.push(
            "(↑/↓) Select address, (t) Toggle address monitoring, (s) Sort address values".to_owned(),
        );
        help
    }

    /// Takes one tick with the readings of the address table and returns the
    /// evicted addresses, whose table entries are to be deleted, and the
    /// first key whose read failed, if any did.
    pub fn handle_tick(&mut self, readings: &Vec<Reading<[u8; 6]>>) -> (report: (
        Vec<[u8; 6]>,
        Result<(), ReadFailure<[u8; 6]>>,
    ))
        requires
            old(self).model.wf(),
            old(self).model@.tick < u64::MAX,
        ensures
            final(self).model.wf(),
            final(self).model@ == old(self).model@.ticked(observations(readings@)),
            report.0@ == old(self).model@.evicted_by(observations(readings@)),
            report.1 == read_result(observations(readings@)),
            final(self).view == old(self).view,
    {
        self.model.on_tick(readings)
    }

    /// Whether `after` and `outcome` are what a key press makes of this
    /// context. `s` lists the addresses in ascending order and changes
    /// nothing else; `t` switches the display of the selected address, or
    /// reports that the selection points past the end of the list; every
    /// other key leaves the model alone, and its outcome is the change of an
    /// axis that it asks for, if any. The view follows the key in each case.
    pub open spec fn handles_key(
        self,
        key: KeyEvent,
        after: EthernetContext,
        outcome: KeyOutcome,
    ) -> bool {
        &&& after.view == self.view.after_key(key, self.model@.addresses.len())
        &&& is_char(key, 's') ==> {
            &&& outcome == KeyOutcome::Handled
            &&& rearranged(self.model@.addresses, after.model@.addresses)
            &&& ascending(after.model@.addresses)
            &&& after.model@ == (EthernetModelView {
                addresses: after.model@.addresses,
                ..self.model@
            })
        }
        &&& is_char(key, 't') ==> {
            let at = self.view.cursor();
            if at < self.model@.addresses.len() {
                outcome == KeyOutcome::Handled && after.model@ == self.model@.toggled(
                    self.model@.addresses[at as int].mac,
                )
            } else {
                outcome == KeyOutcome::NothingSelected && after.model@ == self.model@
            }
        }
        &&& !is_char(key, 's') && !is_char(key, 't') ==> {
            &&& after.model@ == self.model@
            &&& outcome == zoom_outcome(self.view.zoom_for(key))
        }
    }

    /// Applies a key press. `s` sorts the listed addresses, `t` switches
    /// the display of the selected address, `+` and `-` ask for a change of
    /// the current axis, and every other key acts on the view alone.
    pub fn handle_key_event(&mut self, key: KeyEvent) -> (outcome: KeyOutcome)
        requires
            old(self).model.wf(),
        ensures
            final(self).model.wf(),
            old(self).handles_key(key, *final(self), outcome),
    {
        let len = self.model.len();
        match key.code {
            KeyCode::Char(c) => {
                if c == 's' {
                    self.model.sort();
                    return KeyOutcome::Handled;
                }
                if c == 't' {
                    let selected = self.view.selected_or_first();
                    if selected < len {
                        let entries = self.model.entries();
                        let src_mac = entries[selected].mac();
                        proof {
                            assert(crate::ethernet::entry_views(entries@)[selected as int]
                                == entries@[selected as int]@);
                        }
                        self.model.toggle_display(&src_mac);
                        return KeyOutcome::Handled;
                    } else {
                        return KeyOutcome::NothingSelected;
                    }
                }
            },
            _ => {},
        }
        match self.view.handle_key(key, len) {
            Some((context, step)) => KeyOutcome::Zoom(context, step),
            None => KeyOutcome::Handled,
        }
    }
}

/// Monitoring by network interface.
#[derive(Debug)]
pub struct NetworkInterfaceContext {
    pub model: NetworkInterfaceModel,
    pub view: ViewState,
}

impl NetworkInterfaceContext {
    /// The context at startup: every listed interface known and collecting,
    /// with the default window.
    pub fn new(interfaces: &Vec<NetworkInterface>) -> (context: NetworkInterfaceContext)
        ensures
            context.model.wf(),
            context.view == ViewState::initial(),
            context.model@.tick == 0,
            context.model@.window == DEFAULT_WINDOW_SIZE,
            forall|index: u32|
                context.model@.knows(index) <==> crate::network_interface::first_with_index(
                    interfaces@,
                    index,
                ) is Some,
            forall|i: int|
                0 <= i < context.model@.interfaces.len() ==> #[trigger] context.model@.interfaces[i]
                    == crate::network_interface::initial_state(
                    crate::network_interface::first_with_index(
                        interfaces@,
                        context.model@.interfaces[i].index,
                    )->Some_0,
                    DEFAULT_WINDOW_SIZE as nat,
                ),
    {
        NetworkInterfaceContext {
            model: NetworkInterfaceModel::new(interfaces, DEFAULT_WINDOW_SIZE),
            view: ViewState::new(),
        }
    }

    /// The name shown on the context's tab.
    pub fn get_context_name(&self) -> (name: String)
        ensures
            name@ == "Network Interfaces"@,
    {
        "Network Interfaces".to_owned()
    }

    /// The lines that explain the context's keys.
    pub fn get_command_help(&self) -> (help: Vec<String>)
        ensures
            help@.len() == 3,
            help@[0]@ == "(↑/↓) Select interface, (t) Toggle interface monitoring"@,
            help@[1]@
                == "(b/p) Select plot zoom context, (a) Toggle autoscaling, (+/-) Y axis zoom"@,
            help@[2]@ == "(Ctrl + ←/→): Change plot widths, (Ctrl + ↑/↓): Change plot heights"@,
    {
        let mut help: Vec<String> = Vec::new();
        help.push("(↑/↓) Select interface, (t) Toggle interface monitoring".to_owned());
        help.push(
            "(b/p) Select plot zoom context, (a) Toggle autoscaling, (+/-) Y axis zoom".to_owned(),
        );
        help.push("(Ctrl + ←/→): Change plot widths, (Ctrl + ↑/↓): Change plot heights".to_owned());
        help
    }

    /// Takes one tick with the readings of the interface table and hands back
    /// the first key whose read failed, if any did.
    pub fn handle_tick(&mut self, readings: &Vec<Reading<u32>>) -> (result: Result<
        (),
        ReadFailure<u32>,
    >)
        requires
            old(self).model.wf(),
            old(self).model@.tick < u64::MAX,
        ensures
            final(self).model.wf(),
            final(self).model@ == old(self).model@.ticked(observations(readings@)),
            result == read_result(observations(readings@)),
            final(self).view == old(self).view,
    {
        self.model.on_tick(readings)
    }

    /// What the key `t` asks for at the selection `at`: the hook work that a
    /// toggle of the selected interface needs, or why there is none.
    pub open spec fn toggle_outcome(self, at: usize) -> KeyOutcome {
        if at < self.model@.interfaces.len() {
            let index = self.model@.interfaces[at as int].index;
            match self.model@.toggle_request(index) {
                Ok(request) => KeyOutcome::Hook { interface_index: index, request },
                Err(e) => KeyOutcome::Refused(e),
            }
        } else {
            KeyOutcome::NothingSelected
        }
    }

    /// What is left to do outside the context after a key press.
    pub open spec fn key_outcome(self, key: KeyEvent) -> KeyOutcome {
        if is_char(key, 't') {
            self.toggle_outcome(self.view.cursor())
        } else {
            zoom_outcome(self.view.zoom_for(key))
        }
    }

    /// Applies a key press. `t` asks for the toggle of the selected
    /// interface, `+` and `-` ask for a change of the current axis, and every
    /// other key acts on the view alone. The model does not change: a toggle
    /// is completed once the work on the hook is done.
    pub fn handle_key_event(&mut self, key: KeyEvent) -> (outcome: KeyOutcome)
        requires
            old(self).model.wf(),
        ensures
            final(self).model.wf(),
            final(self).model@ == old(self).model@,
            final(self).view == old(self).view.after_key(key, old(self).model@.interfaces.len()),
            outcome == old(self).key_outcome(key),
    {
        let len = self.model.len();
        match key.code {
            KeyCode::Char(c) => {
                if c == 't' {
                    let selected = self.view.selected_or_first();
                    if selected < len {
                        let entries = self.model.entries();
                        let interface_index = entries[selected].interface().index;
                        proof {
                            assert(crate::network_interface::entry_views(entries@)[selected as int]
                                == entries@[selected as int]@);
                        }
                        return match self.model.toggle_request(interface_index) {
                            Ok(request) => KeyOutcome::Hook { interface_index, request },
                            Err(e) => KeyOutcome::Refused(e),
                        };
                    } else {
                        return KeyOutcome::NothingSelected;
                    }
                }
            },
            _ => {},
        }
        match self.view.handle_key(key, len) {
            Some((context, step)) => KeyOutcome::Zoom(context, step),
            None => KeyOutcome::Handled,
        }
    }
}

} // verus!
