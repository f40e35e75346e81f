//! The application around the two contexts: its configuration, the choice
//! of the context on display, and the timing of the tick.

use vstd::prelude::*;
use vstd::string::StringExecFns;
use crate::context::{
    EthernetContext, KeyOutcome, NetworkInterfaceContext, DEFAULT_WINDOW_SIZE,
};
use crate::ethernet::{EthernetModelView, IDLE_MAC_ADDR_TIMEOUT_NUM_TICKS};
use crate::counter::{first_failure, observations, Reading};
use crate::network_interface::{first_with_index, initial_state, NetworkInterface};
use crate::view::{KeyCode, KeyEvent, ViewState};

verus! {

/// The period of the aggregation tick, in milliseconds.
pub const TICK_RATE_MS: u64 = 200;

/// The context on display at startup.
pub const DEFAULT_CONTEXT_ID: usize = 0;

/// The number of contexts.
pub const NUM_CONTEXTS: usize = 2;

/// The view of an optional string.
pub open spec fn opt_view(s: Option<String>) -> Option<Seq<char>> {
    match s {
        Some(s) => Some(s@),
        None => None,
    }
}

/// `std::path::PathBuf`, an owned path. Its content is not looked into.
#[verifier::external_type_specification]
#[verifier::external_body]
pub struct ExPathBuf(std::path::PathBuf);

/// Where the program keeps its data.
#[derive(Debug)]
pub enum DataDir {
    /// The directory that the override names.
    Override(String),
    /// The platform's local data directory of the project.
    Project(std::path::PathBuf),
    /// The directory `.data` below the working directory.
    Fallback,
}

/// The data directory chosen from an explicit override and the platform's
/// per-project directory: the override wins, then the platform directory,
/// then the fallback.
pub open spec fn resolved_data_dir(
    data_folder: Option<String>,
    project_dir: Option<std::path::PathBuf>,
) -> DataDir {
    match data_folder {
        Some(dir) => DataDir::Override(dir),
        None => match project_dir {
            Some(dir) => DataDir::Project(dir),
            None => DataDir::Fallback,
        },
    }
}

/// The log filter chosen from the general setting and the project's own
/// setting: the general one wins, then the project's, then the default.
pub open spec fn resolved_log_filter(
    general: Option<Seq<char>>,
    project: Option<Seq<char>>,
) -> Seq<char> {
    match general {
        Some(filter) => filter,
        None => match project {
            Some(filter) => filter,
            None => "tsndt=info"@,
        },
    }
}

/// `directories::ProjectDirs`, the platform's directories for one project.
/// Its content is not looked into.
#[verifier::external_type_specification]
#[verifier::external_body]
pub struct ExProjectDirs(directories::ProjectDirs);

/// The directories of the project with the given names, from
/// `directories::ProjectDirs::from`. Whether there are any depends on the
/// user's environment, so nothing is claimed of the result.
#[verifier::external_body]
fn project_directory(
    qualifier: &str,
    organization: &str,
    application: &str,
) -> Option<directories::ProjectDirs> {
    directories::ProjectDirs::from(qualifier, organization, application)
}

/// The project's local data directory, from
/// `directories::ProjectDirs::data_local_dir`, as an owned path. Nothing is
/// claimed of the result.
#[verifier::external_body]
fn data_local_dir(dirs: &directories::ProjectDirs) -> std::path::PathBuf {
    dirs.data_local_dir().to_path_buf()
}

/// The name of the environment variable that overrides the data directory.
pub fn data_folder_env() -> (name: String)
    ensures
        name@ == "TSNDT_DATA"@,
{
    "TSNDT_DATA".to_owned()
}

/// The name of the environment variable that sets the project's log filter.
pub fn log_env() -> (name: String)
    ensures
        name@ == "TSNDT_LOGLEVEL"@,
{
    "TSNDT_LOGLEVEL".to_owned()
}

/// The name of the log file within the data directory.
pub fn log_file() -> (name: String)
    ensures
        name@ == "tsndt.log"@,
{
    "tsndt.log".to_owned()
}

/// The text of the fallback directory.
pub fn fallback_data_dir() -> (dir: String)
    ensures
        dir@ == "./.data"@,
{
    "./.data".to_owned()
}

/// Chooses the data directory from the override and the platform directory.
pub fn resolve_data_dir(data_folder: Option<String>, project_dir: Option<std::path::PathBuf>) -> (dir:
    DataDir)
    ensures
        dir == resolved_data_dir(data_folder, project_dir),
{
    match data_folder {
        Some(dir) => DataDir::Override(dir),
        None => match project_dir {
            Some(dir) => DataDir::Project(dir),
            None => DataDir::Fallback,
        },
    }
}

/// The data directory: the override `data_folder` where it is given, else
/// the platform's local data directory of the project where there is one,
/// else the fallback. Whether the platform has such a directory depends on
/// the user's environment; `resolve_data_dir` says how the choice is made.
pub fn get_data_dir(data_folder: Option<String>) -> (dir: DataDir)
    ensures
        data_folder matches Some(folder) ==> dir == DataDir::Override(folder),
        data_folder is None ==> dir is Project || dir is Fallback,
{
    if data_folder.is_some() {
        return resolve_data_dir(data_folder, None);
    }
    let project_dir = match project_directory("com", "gth828r", "tsndt") {
        Some(dirs) => Some(data_local_dir(&dirs)),
        None => None,
    };
    resolve_data_dir(None, project_dir)
}

/// Chooses the log filter from the general and the project's own setting.
pub fn resolve_log_filter(general: Option<String>, project: Option<String>) -> (filter: String)
    ensures
        filter@ == resolved_log_filter(opt_view(general), opt_view(project)),
{
    match general {
        Some(filter) => filter,
        None => match project {
            Some(filter) => filter,
            None => "tsndt=info".to_owned(),
        },
    }
}

/// The hexadecimal digit of a value below sixteen.
pub open spec fn hex_digit(n: int) -> char {
    "0123456789abcdef"@[n]
}

/// The text of a hardware address: its six bytes as two lower-case
/// hexadecimal digits each, separated by colons.
pub open spec fn mac_string(mac: Seq<u8>) -> Seq<char> {
    Seq::new(
        17,
        |i: int|
            if i % 3 == 2 {
                ':'
            } else if i % 3 == 0 {
                hex_digit(mac[i / 3] as int / 16)
            } else {
                hex_digit(mac[i / 3] as int % 16)
            },
    )
}

/// The text of one hexadecimal digit.
fn hex_str(n: u8) -> (s: &'static str)
    requires
        n < 16,
    ensures
        s@ == seq![hex_digit(n as int)],
{
    proof {
        reveal_strlit("0123456789abcdef");
        reveal_strlit("0");
        reveal_strlit("1");
        reveal_strlit("2");
        reveal_strlit("3");
        reveal_strlit("4");
        reveal_strlit("5");
        reveal_strlit("6");
        reveal_strlit("7");
        reveal_strlit("8");
        reveal_strlit("9");
        reveal_strlit("a");
        reveal_strlit("b");
        reveal_strlit("c");
        reveal_strlit("d");
        reveal_strlit("e");
        reveal_strlit("f");
    }
    let s = if n == 0 {
        "0"
    } else if n == 1 {
        "1"
    } else if n == 2 {
        "2"
    } else if n == 3 {
        "3"
    } else if n == 4 {
        "4"
    } else if n == 5 {
        "5"
    } else if n == 6 {
        "6"
    } else if n == 7 {
        "7"
    } else if n == 8 {
        "8"
    } else if n == 9 {
        "9"
    } else if n == 10 {
        "a"
    } else if n == 11 {
        "b"
    } else if n == 12 {
        "c"
    } else if n == 13 {
        "d"
    } else if n == 14 {
        "e"
    } else {
        "f"
    };
    assert(s@ =~= seq![hex_digit(n as int)]);
    s
}

/// Writes a hardware address as text.
pub fn get_mac_string(mac: &[u8; 6]) -> (text: String)
    ensures
        text@ == mac_string(mac@),
{
    let mut text = String::new();
    let mut i: usize = 0;
    while i < 6
        invariant
            i <= 6,
            text@.len() == (if i == 0 { 0 } else { 3 * i - 1 }),
            forall|k: int| 0 <= k < text@.len() ==> text@[k] == mac_string(mac@)[k],
        decreases 6 - i,
    {
        proof {
            reveal_strlit(":");
        }
        let ghost before = text@;
        if i > 0 {
            text.append(":");
        }
        let ghost middle = text@;
        let octet = mac[i];
        text.append(hex_str(octet / 16));
        text.append(hex_str(octet % 16));
        proof {
            let start = 3 * i as int;
            assert(middle.len() == start);
            assert(text@ =~= middle + seq![hex_digit(octet as int / 16)] + seq![
                hex_digit(octet as int % 16),
            ]);
            assert forall|k: int| 0 <= k < text@.len() implies text@[k] == mac_string(mac@)[k] by {
                if k < before.len() {
                    assert(text@[k] == before[k]);
                } else if k < start {
                    assert(text@[k] == ':');
                    assert(k % 3 == 2);
                } else if k == start {
                    assert(k % 3 == 0 && k / 3 == i);
                } else {
                    assert(k % 3 == 1 && k / 3 == i);
                }
            }
        }
        i += 1;
    }
    proof {
        assert(text@ =~= mac_string(mac@));
    }
    text
}

/// Whether the application goes on.
#[derive(Clone, Copy, Debug, PartialEq, Eq, Structural)]
pub enum AppRunState {
    Running,
    Stopped,
}

/// The first key whose read failed during a tick.
#[derive(Clone, Copy, Debug, PartialEq, Eq)]
pub enum TickError {
    /// The counter of this interface could not be read.
    Interface(u32),
    /// The counter of this address could not be read.
    Address([u8; 6]),
}

/// What a tick hands back to its caller: the first interface whose read
/// failed, or else the first address whose read failed.
pub open spec fn tick_result(
    interfaces: Seq<crate::counter::Observation<u32>>,
    addresses: Seq<crate::counter::Observation<[u8; 6]>>,
) -> Result<(), TickError> {
    match first_failure(interfaces) {
        Some(index) => Err(TickError::Interface(index)),
        None => match first_failure(addresses) {
            Some(mac) => Err(TickError::Address(mac)),
            None => Ok(()),
        },
    }
}

/// What is left to do outside the application after a key press.
#[derive(Clone, Copy, Debug, PartialEq, Eq, Structural)]
pub enum AppOutcome {
    /// The application was asked to stop; no context saw the key.
    Quit,
    /// The context that was on display handled the key with this outcome.
    Context { context_id: usize, outcome: KeyOutcome },
}

/// The context after `selected` in a round of `count` contexts.
pub open spec fn next_context(selected: usize, count: usize) -> usize {
    if selected + 1 < count {
        (selected + 1) as usize
    } else {
        0
    }
}

/// The context before `selected` in a round of `count` contexts.
pub open spec fn previous_context(selected: usize, count: usize) -> usize {
    if selected > 0 {
        (selected - 1) as usize
    } else {
        (count - 1) as usize
    }
}

/// The context on display after a key press: the arrows right and left,
/// pressed without a modifier, go round the contexts.
pub open spec fn context_after_key(selected: usize, key: KeyEvent) -> usize {
    if key.code == KeyCode::Right && key.modifiers.is_none() {
        next_context(selected, NUM_CONTEXTS)
    } else if key.code == KeyCode::Left && key.modifiers.is_none() {
        previous_context(selected, NUM_CONTEXTS)
    } else {
        selected
    }
}

/// How long to wait for a key press: what is left of the tick period.
pub open spec fn remaining_wait(tick_rate: u64, elapsed: u64) -> u64 {
    if elapsed >= tick_rate {
        0
    } else {
        (tick_rate - elapsed) as u64
    }
}

/// Computes how long to wait for a key press before the next tick is due.
pub fn poll_timeout(tick_rate: u64, elapsed: u64) -> (timeout: u64)
    ensures
        timeout == remaining_wait(tick_rate, elapsed),
        timeout <= tick_rate,
{
    tick_rate.saturating_sub(elapsed)
}

/// Whether the tick period has elapsed, so that an aggregation pass is due.
pub fn tick_due(tick_rate: u64, elapsed: u64) -> (due: bool)
    ensures
        due == (elapsed >= tick_rate),
        due == (remaining_wait(tick_rate, elapsed) == 0 as u64),
{
    elapsed >= tick_rate
}

/// The application: the two contexts, the one on display, and the run state.
#[derive(Debug)]
pub struct App {
    pub network_interfaces: NetworkInterfaceContext,
    pub ethernet: EthernetContext,
    /// The context on display.
    pub selected_context_id: usize,
    /// Whether the application goes on.
    pub run_state: AppRunState,
}

impl App {
    /// Both models are well formed and a context is on display.
    pub open spec fn wf(&self) -> bool {
        &&& self.network_interfaces.model.wf()
        &&& self.ethernet.model.wf()
        &&& self.selected_context_id < NUM_CONTEXTS
    }

    /// The application at startup, running, with the interface context on
    /// display. Every listed interface is known, by ascending index, with
    /// nothing counted, both series at the zero point and collection
    /// switched on; no address is tracked yet; both views are the initial one.
    pub fn new(interfaces: &Vec<NetworkInterface>) -> (app: App)
        ensures
            app.wf(),
            app.selected_context_id == DEFAULT_CONTEXT_ID,
            app.run_state == AppRunState::Running,
            app.network_interfaces.view == ViewState::initial(),
            app.ethernet.view == ViewState::initial(),
            app.network_interfaces.model@.tick == 0,
            app.network_interfaces.model@.window == DEFAULT_WINDOW_SIZE,
            forall|index: u32|
                app.network_interfaces.model@.knows(index) <==> first_with_index(
                    interfaces@,
                    index,
                ) is Some,
            forall|i: int|
                0 <= i < app.network_interfaces.model@.interfaces.len()
                    ==> #[trigger] app.network_interfaces.model@.interfaces[i] == initial_state(
                    first_with_index(
                        interfaces@,
                        app.network_interfaces.model@.interfaces[i].index,
                    )->Some_0,
                    DEFAULT_WINDOW_SIZE as nat,
                ),
            app.ethernet.model@ == (EthernetModelView {
                addresses: Seq::empty(),
                displaying: Set::empty(),
                tick: 0,
                window: DEFAULT_WINDOW_SIZE as nat,
                idle_timeout: IDLE_MAC_ADDR_TIMEOUT_NUM_TICKS,
            }),
    {
        App {
            network_interfaces: NetworkInterfaceContext::new(interfaces),
            ethernet: EthernetContext::new(),
            selected_context_id: DEFAULT_CONTEXT_ID,
            run_state: AppRunState::Running,
        }
    }

    /// The titles of the tabs, one for each context.
    pub fn tab_titles(&self) -> (titles: Vec<String>)
        ensures
            titles@.len() == NUM_CONTEXTS,
            titles@[0]@ == "Network Interfaces"@,
            titles@[1]@ == "Ethernet"@,
    {
        let mut titles: Vec<String> = Vec::new();
        titles.push(self.network_interfaces.get_context_name());
        titles.push(self.ethernet.get_context_name());
        titles
    }

    /// Applies a key press. `q` stops the application. Any other key goes to
    /// the context that was on display when it was pressed, after the arrows
    /// right and left, pressed without a modifier, have moved the display
    /// to the next or the previous context.
    pub fn handle_key_event(&mut self, key: KeyEvent) -> (outcome: AppOutcome)
        requires
            old(self).wf(),
        ensures
            final(self).wf(),
            key.code == KeyCode::Char('q') ==> {
                &&& outcome == AppOutcome::Quit
                &&& final(self).run_state == AppRunState::Stopped
                &&& final(self).selected_context_id == old(self).selected_context_id
                &&& final(self).network_interfaces == old(self).network_interfaces
                &&& final(self).ethernet == old(self).ethernet
            },
            key.code != KeyCode::Char('q') ==> {
                &&& final(self).run_state == old(self).run_state
                &&& final(self).selected_context_id == context_after_key(
                    old(self).selected_context_id,
                    key,
                )
                &&& outcome matches AppOutcome::Context { context_id, outcome: handled }
                &&& context_id == old(self).selected_context_id
                &&& if context_id == 0 {
                    &&& final(self).ethernet == old(self).ethernet
                    &&& final(self).network_interfaces.model@ == old(self).network_interfaces.model@
                    &&& final(self).network_interfaces.view == old(
                        self,
                    ).network_interfaces.view.after_key(
                        key,
                        old(self).network_interfaces.model@.interfaces.len(),
                    )
                    &&& handled == old(self).network_interfaces.key_outcome(key)
                } else {
                    &&& final(self).network_interfaces == old(self).network_interfaces
                    &&& old(self).ethernet.handles_key(key, final(self).ethernet, handled)
                }
            },
    {
        match key.code {
            KeyCode::Char(c) => {
                if c == 'q' {
                    self.run_state = AppRunState::Stopped;
                    return AppOutcome::Quit;
                }
            },
            _ => {},
        }
        let context_id = self.selected_context_id;
        match key.code {
            KeyCode::Right => {
                if key.modifiers.is_empty() {
                    if self.selected_context_id + 1 < NUM_CONTEXTS {
                        self.selected_context_id = self.selected_context_id + 1;
                    } else {
                        self.selected_context_id = 0;
                    }
                }
            },
            KeyCode::Left => {
                if key.modifiers.is_empty() {
                    if self.selected_context_id > 0 {
                        self.selected_context_id = self.selected_context_id - 1;
                    } else {
                        self.selected_context_id = NUM_CONTEXTS - 1;
                    }
                }
            },
            _ => {},
        }
        let outcome = if context_id == 0 {
            self.network_interfaces.handle_key_event(key)
        } else {
            self.ethernet.handle_key_event(key)
        };
        AppOutcome::Context { context_id, outcome }
    }

    /// Takes one tick in every context, not only the one on display.
    /// Returns the evicted addresses, whose table entries are to be deleted,
    /// and the first key whose read failed, if any did; every other key is
    /// taken in all the same.
    pub fn handle_tick(
        &mut self,
        interface_readings: &Vec<Reading<u32>>,
        address_readings: &Vec<Reading<[u8; 6]>>,
    ) -> (report: (Vec<[u8; 6]>, Result<(), TickError>))
        requires
            old(self).wf(),
            old(self).network_interfaces.model@.tick < u64::MAX,
            old(self).ethernet.model@.tick < u64::MAX,
        ensures
            final(self).wf(),
            final(self).selected_context_id == old(self).selected_context_id,
            final(self).run_state == old(self).run_state,
            final(self).network_interfaces.model@ == old(self).network_interfaces.model@.ticked(
                observations(interface_readings@),
            ),
            final(self).network_interfaces.view == old(self).network_interfaces.view,
            final(self).ethernet.model@ == old(self).ethernet.model@.ticked(
                observations(address_readings@),
            ),
            final(self).ethernet.view == old(self).ethernet.view,
            report.0@ == old(self).ethernet.model@.evicted_by(observations(address_readings@)),
            report.1 == tick_result(
                observations(interface_readings@),
                observations(address_readings@),
            ),
    {
        let interfaces = self.network_interfaces.handle_tick(interface_readings);
        let (evicted, addresses) = self.ethernet.handle_tick(address_readings);
        let result = match interfaces {
            Err(failure) => Err(TickError::Interface(failure.key)),
            Ok(_) => match addresses {
                Err(failure) => Err(TickError::Address(failure.key)),
                Ok(_) => Ok(()),
            },
        };
        (evicted, result)
    }
}

} // verus!
