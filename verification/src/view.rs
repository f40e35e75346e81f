//! What a monitoring view keeps between frames, and how key presses change it.

use vstd::prelude::*;

verus! {

/// The share of the plot area that the histograms take at startup, in percent.
pub const DEFAULT_HISTOGRAM_WIDTH_PERCENTAGE: u16 = 25;

/// The share of the plot area that the byte plots take at startup, in percent.
pub const DEFAULT_BYTE_COUNTERS_HEIGHT_PERCENTAGE: u16 = 50;

/// The key that was pressed.
#[derive(Clone, Copy, Debug, PartialEq, Eq, Structural)]
pub enum KeyCode {
    Char(char),
    Up,
    Down,
    Left,
    Right,
    /// Any key that no view reacts to.
    Other,
}

/// The modifier keys held while a key was pressed.
#[derive(Clone, Copy, Debug, PartialEq, Eq, Structural)]
pub struct KeyModifiers {
    pub shift: bool,
    pub control: bool,
    pub alt: bool,
    /// Any modifier other than shift, control and alt.
    pub other: bool,
}

impl KeyModifiers {
    /// Whether no modifier was held.
    pub open spec fn is_none(self) -> bool {
        !self.shift && !self.control && !self.alt && !self.other
    }

    /// Whether no modifier was held.
    pub fn is_empty(&self) -> (empty: bool)
        ensures
            empty == self.is_none(),
    {
        !self.shift && !self.control && !self.alt && !self.other
    }
}

/// A key press.
#[derive(Clone, Copy, Debug, PartialEq, Eq, Structural)]
pub struct KeyEvent {
    pub code: KeyCode,
    pub modifiers: KeyModifiers,
}

/// The plot whose vertical axis the zoom keys act on.
#[derive(Clone, Copy, Debug, PartialEq, Eq, Hash, Structural)]
pub enum ZoomContext {
    Packet,
    Byte,
}

/// A change of the upper bound of a vertical axis.
#[derive(Clone, Copy, Debug, PartialEq, Eq, Structural)]
pub enum ZoomStep {
    /// Halve the bound: the plot is magnified.
    In,
    /// Double the bound.
    Out,
}

/// The selection and layout of a view, as a plain value.
#[derive(Clone, Copy, Debug, PartialEq, Eq, Structural)]
pub struct ViewState {
    /// The selected place in the list of keys.
    pub selected: Option<usize>,
    /// The share of the plot area that the histograms take, in percent.
    pub histogram_width_percentage: u16,
    /// The share of the plot area that the byte plots take, in percent.
    pub byte_counter_height_percentage: u16,
    /// The plot that the zoom keys act on.
    pub zoom_context: ZoomContext,
    /// Whether the packet axis scales itself.
    pub autoscale_packets: bool,
    /// Whether the byte axis scales itself.
    pub autoscale_bytes: bool,
}

impl ViewState {
    /// The view at startup: the first key selected, the zoom keys acting on
    /// the packet plot, both axes scaling themselves.
    pub open spec fn initial() -> ViewState {
        ViewState {
            selected: Some(0usize),
            histogram_width_percentage: DEFAULT_HISTOGRAM_WIDTH_PERCENTAGE,
            byte_counter_height_percentage: DEFAULT_BYTE_COUNTERS_HEIGHT_PERCENTAGE,
            zoom_context: ZoomContext::Packet,
            autoscale_packets: true,
            autoscale_bytes: true,
        }
    }

    /// The selected place, the first one where nothing is selected.
    pub open spec fn cursor(self) -> usize {
        match self.selected {
            Some(i) => i,
            None => 0,
        }
    }

    /// Whether the axis of `context` scales itself.
    pub open spec fn autoscaling(self, context: ZoomContext) -> bool {
        match context {
            ZoomContext::Packet => self.autoscale_packets,
            ZoomContext::Byte => self.autoscale_bytes,
        }
    }

    /// Both layout shares are percentages.
    pub open spec fn within_bounds(self) -> bool {
        self.histogram_width_percentage <= 100 && self.byte_counter_height_percentage <= 100
    }

    /// The view after the selection moved one place up; it stops at the first place.
    pub open spec fn selected_previous(self) -> ViewState {
        ViewState {
            selected: Some(
                if self.cursor() > 0 {
                    (self.cursor() - 1) as usize
                } else {
                    0
                },
            ),
            ..self
        }
    }

    /// The view after the selection moved one place down in a list of `len`
    /// keys; it stays where it is at the last place.
    pub open spec fn selected_next(self, len: nat) -> ViewState {
        if self.cursor() + 1 < len {
            ViewState { selected: Some((self.cursor() + 1) as usize), ..self }
        } else {
            self
        }
    }

    /// The view with autoscaling of the current zoom context switched.
    pub open spec fn autoscale_toggled(self) -> ViewState {
        match self.zoom_context {
            ZoomContext::Packet => ViewState { autoscale_packets: !self.autoscale_packets, ..self },
            ZoomContext::Byte => ViewState { autoscale_bytes: !self.autoscale_bytes, ..self },
        }
    }

    /// The view after a key press, for a list of `len` keys. The keys that
    /// act on the view alone are: `b` and `p` choose the zoom context, `a`
    /// switches autoscaling of that context, the arrows up and down move the
    /// selection, and with the control key held the arrows change the layout
    /// shares by one percent within 0 and 100.
    pub open spec fn after_key(self, key: KeyEvent, len: nat) -> ViewState {
        match key.code {
            KeyCode::Char(c) => if c == 'b' {
                ViewState { zoom_context: ZoomContext::Byte, ..self }
            } else if c == 'p' {
                ViewState { zoom_context: ZoomContext::Packet, ..self }
            } else if c == 'a' {
                self.autoscale_toggled()
            } else {
                self
            },
            KeyCode::Up => if key.modifiers.control {
                if self.byte_counter_height_percentage < 100 {
                    ViewState {
                        byte_counter_height_percentage: (self.byte_counter_height_percentage
                            + 1) as u16,
                        ..self
                    }
                } else {
                    self
                }
            } else {
                self.selected_previous()
            },
            KeyCode::Down => if key.modifiers.control {
                if self.byte_counter_height_percentage > 0 {
                    ViewState {
                        byte_counter_height_percentage: (self.byte_counter_height_percentage
                            - 1) as u16,
                        ..self
                    }
                } else {
                    self
                }
            } else {
                self.selected_next(len)
            },
            KeyCode::Right => if key.modifiers.control && self.histogram_width_percentage > 0 {
                ViewState {
                    histogram_width_percentage: (self.histogram_width_percentage - 1) as u16,
                    ..self
                }
            } else {
                self
            },
            KeyCode::Left => if key.modifiers.control && self.histogram_width_percentage < 100 {
                ViewState {
                    histogram_width_percentage: (self.histogram_width_percentage + 1) as u16,
                    ..self
                }
            } else {
                self
            },
            KeyCode::Other => self,
        }
    }

    /// The change of a vertical axis that a key press asks for: `-` doubles
    /// the upper bound of the current zoom context, `+` halves it.
    pub open spec fn zoom_for(self, key: KeyEvent) -> Option<(ZoomContext, ZoomStep)> {
        match key.code {
            KeyCode::Char(c) => if c == '-' {
                Some((self.zoom_context, ZoomStep::Out))
            } else if c == '+' {
                Some((self.zoom_context, ZoomStep::In))
            } else {
                None
            },
            _ => None,
        }
    }

    /// The view at startup.
    pub fn new() -> (view: ViewState)
        ensures
            view == ViewState::initial(),
            view.within_bounds(),
    {
        ViewState {
            selected: Some(0),
            histogram_width_percentage: DEFAULT_HISTOGRAM_WIDTH_PERCENTAGE,
            byte_counter_height_percentage: DEFAULT_BYTE_COUNTERS_HEIGHT_PERCENTAGE,
            zoom_context: ZoomContext::Packet,
            autoscale_packets: true,
            autoscale_bytes: true,
        }
    }

    /// The selected place, the first one where nothing is selected.
    pub fn selected_or_first(&self) -> (i: usize)
        ensures
            i == self.cursor(),
    {
        match self.selected {
            Some(i) => i,
            None => 0,
        }
    }

    /// Selects the first key of a list that has keys when nothing is selected.
    pub fn ensure_selection(&mut self, len: usize)
        ensures
            *final(self) == (if old(self).selected is None && len > 0 {
                ViewState { selected: Some(0usize), ..*old(self) }
            } else {
                *old(self)
            }),
    {
        if self.selected.is_none() && len > 0 {
            self.selected = Some(0);
        }
    }

    /// Applies a key press to the view, for a list of `len` keys.
    pub fn handle_key(&mut self, key: KeyEvent, len: usize) -> (zoom: Option<
        (ZoomContext, ZoomStep),
    >)
        ensures
            *final(self) == old(self).after_key(key, len as nat),
            zoom == old(self).zoom_for(key),
            old(self).within_bounds() ==> final(self).within_bounds(),
    {
        match key.code {
            KeyCode::Char(c) => {
                if c == 'b' {
                    self.zoom_context = ZoomContext::Byte;
                } else if c == 'p' {
                    self.zoom_context = ZoomContext::Packet;
                } else if c == 'a' {
                    match self.zoom_context {
                        ZoomContext::Packet => {
                            self.autoscale_packets = !self.autoscale_packets;
                        },
                        ZoomContext::Byte => {
                            self.autoscale_bytes = !self.autoscale_bytes;
                        },
                    }
                } else if c == '-' {
                    return Some((self.zoom_context, ZoomStep::Out));
                } else if c == '+' {
                    return Some((self.zoom_context, ZoomStep::In));
                }
            },
            KeyCode::Up => {
                if key.modifiers.control {
                    if self.byte_counter_height_percentage < 100 {
                        self.byte_counter_height_percentage = self.byte_counter_height_percentage
                            + 1;
                    }
                } else {
                    let selected = self.selected_or_first();
                    let candidate = if selected > 0 {
                        selected - 1
                    } else {
                        0
                    };
                    self.selected = Some(candidate);
                }
            },
            KeyCode::Down => {
                if key.modifiers.control {
                    if self.byte_counter_height_percentage > 0 {
                        self.byte_counter_height_percentage = self.byte_counter_height_percentage
                            - 1;
                    }
                } else {
                    let selected = self.selected_or_first();
                    if len > 0 && selected < len - 1 {
                        self.selected = Some(selected + 1);
                    }
                }
            },
            KeyCode::Right => {
                if key.modifiers.control && self.histogram_width_percentage > 0 {
                    self.histogram_width_percentage = self.histogram_width_percentage - 1;
                }
            },
            KeyCode::Left => {
                if key.modifiers.control && self.histogram_width_percentage < 100 {
                    self.histogram_width_percentage = self.histogram_width_percentage + 1;
                }
            },
            KeyCode::Other => {},
        }
        None
    }
}

} // verus!
