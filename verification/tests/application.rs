use std::path::PathBuf;

use tsndt::app::{
    data_folder_env, fallback_data_dir, get_data_dir, get_mac_string, log_env, log_file,
    poll_timeout, resolve_data_dir, resolve_log_filter, tick_due, App, AppOutcome, AppRunState,
    DataDir, TickError, DEFAULT_CONTEXT_ID, TICK_RATE_MS,
};
use tsndt::context::{EthernetContext, KeyOutcome, NetworkInterfaceContext, DEFAULT_WINDOW_SIZE};
use tsndt::counter::{Counter, CounterInit, ReadFailure, Reading};
use tsndt::network_interface::{AttachmentError, HookRequest, LinkHandle, NetworkInterface};
use tsndt::view::{KeyCode, KeyEvent, KeyModifiers, ViewState, ZoomContext, ZoomStep};

const NONE: KeyModifiers = KeyModifiers { shift: false, control: false, alt: false, other: false };
const CTRL: KeyModifiers = KeyModifiers { shift: false, control: true, alt: false, other: false };
const SHIFT: KeyModifiers = KeyModifiers { shift: true, control: false, alt: false, other: false };

fn press(code: KeyCode) -> KeyEvent {
    KeyEvent { code, modifiers: NONE }
}

fn ctrl(code: KeyCode) -> KeyEvent {
    KeyEvent { code, modifiers: CTRL }
}

fn interfaces() -> Vec<NetworkInterface> {
    vec![
        NetworkInterface { index: 1, name: "lo".to_string() },
        NetworkInterface { index: 2, name: "eth0".to_string() },
        NetworkInterface { index: 3, name: "wlan0".to_string() },
    ]
}

fn address_reading(mac: [u8; 6], packets: u32) -> Reading<[u8; 6]> {
    Reading { key: mac, slots: Some(vec![Counter { bytes: 0, packets }]) }
}

#[test]
fn mac_string_is_lower_case_hex_with_colons() {
    assert_eq!(get_mac_string(&[0xaa, 0xbb, 0xcc, 0xdd, 0xee, 0xff]), "aa:bb:cc:dd:ee:ff");
    assert_eq!(get_mac_string(&[0x00, 0x01, 0x0a, 0x10, 0xff, 0x7f]), "00:01:0a:10:ff:7f");
    assert_eq!(get_mac_string(&[0x12, 0x34, 0x56, 0x78, 0x9a, 0xbc]), "12:34:56:78:9a:bc");
    assert_eq!(get_mac_string(&[0xde, 0xf0, 0, 0, 0, 0]), "de:f0:00:00:00:00");
}

#[test]
fn data_dir_override_wins() {
    assert!(matches!(
        get_data_dir(Some("/tmp/tsndt".to_string())),
        DataDir::Override(dir) if dir == "/tmp/tsndt"
    ));
    assert!(matches!(
        resolve_data_dir(Some("/a".to_string()), Some(PathBuf::from("/b"))),
        DataDir::Override(dir) if dir == "/a"
    ));
}

#[test]
fn data_dir_falls_back() {
    assert!(matches!(
        resolve_data_dir(None, Some(PathBuf::from("/b"))),
        DataDir::Project(dir) if dir == PathBuf::from("/b")
    ));
    assert!(matches!(resolve_data_dir(None, None), DataDir::Fallback));
    assert!(matches!(get_data_dir(None), DataDir::Project(_) | DataDir::Fallback));
    assert_eq!(fallback_data_dir(), "./.data");
}

#[test]
fn log_filter_falls_back() {
    assert_eq!(
        resolve_log_filter(Some("debug".to_string()), Some("warn".to_string())),
        "debug"
    );
    assert_eq!(resolve_log_filter(None, Some("warn".to_string())), "warn");
    assert_eq!(resolve_log_filter(None, None), "tsndt=info");
}

#[test]
fn configuration_names() {
    assert_eq!(data_folder_env(), "TSNDT_DATA");
    assert_eq!(log_env(), "TSNDT_LOGLEVEL");
    assert_eq!(log_file(), "tsndt.log");
    assert_eq!(TICK_RATE_MS, 200);
    assert_eq!(DEFAULT_WINDOW_SIZE, 50);
}

#[test]
fn wait_is_what_is_left_of_the_tick_period() {
    assert_eq!(poll_timeout(200, 0), 200);
    assert_eq!(poll_timeout(200, 150), 50);
    assert_eq!(poll_timeout(200, 200), 0);
    assert_eq!(poll_timeout(200, 1000), 0);
    assert!(!tick_due(200, 199));
    assert!(tick_due(200, 200));
    assert!(tick_due(200, 201));
}

#[test]
fn view_starts_with_defaults() {
    let v = ViewState::new();
    assert_eq!(v.selected, Some(0));
    assert_eq!(v.histogram_width_percentage, 25);
    assert_eq!(v.byte_counter_height_percentage, 50);
    assert_eq!(v.zoom_context, ZoomContext::Packet);
    assert!(v.autoscale_packets && v.autoscale_bytes);
}

#[test]
fn view_selection_moves_within_the_list() {
    let mut v = ViewState::new();
    assert_eq!(v.handle_key(press(KeyCode::Up), 3), None);
    assert_eq!(v.selected, Some(0));
    v.handle_key(press(KeyCode::Down), 3);
    assert_eq!(v.selected, Some(1));
    v.handle_key(press(KeyCode::Down), 3);
    assert_eq!(v.selected, Some(2));
    v.handle_key(press(KeyCode::Down), 3);
    assert_eq!(v.selected, Some(2));
    v.handle_key(press(KeyCode::Up), 3);
    assert_eq!(v.selected, Some(1));
    let mut empty = ViewState::new();
    empty.handle_key(press(KeyCode::Down), 0);
    assert_eq!(empty.selected, Some(0));
    empty.selected = None;
    empty.handle_key(press(KeyCode::Down), 2);
    assert_eq!(empty.selected, Some(1));
    empty.selected = None;
    empty.handle_key(press(KeyCode::Up), 2);
    assert_eq!(empty.selected, Some(0));
}

#[test]
fn view_selects_the_first_key_of_a_filled_list() {
    let mut v = ViewState::new();
    v.selected = None;
    v.ensure_selection(0);
    assert_eq!(v.selected, None);
    v.ensure_selection(2);
    assert_eq!(v.selected, Some(0));
    v.selected = Some(1);
    v.ensure_selection(2);
    assert_eq!(v.selected, Some(1));
}

#[test]
fn view_layout_shares_stay_percentages() {
    let mut v = ViewState::new();
    for _ in 0..60 {
        v.handle_key(ctrl(KeyCode::Up), 0);
    }
    assert_eq!(v.byte_counter_height_percentage, 100);
    for _ in 0..130 {
        v.handle_key(ctrl(KeyCode::Down), 0);
    }
    assert_eq!(v.byte_counter_height_percentage, 0);
    for _ in 0..30 {
        v.handle_key(ctrl(KeyCode::Right), 0);
    }
    assert_eq!(v.histogram_width_percentage, 0);
    v.handle_key(ctrl(KeyCode::Left), 0);
    assert_eq!(v.histogram_width_percentage, 1);
    for _ in 0..130 {
        v.handle_key(ctrl(KeyCode::Left), 0);
    }
    assert_eq!(v.histogram_width_percentage, 100);
    v.handle_key(press(KeyCode::Left), 0);
    v.handle_key(press(KeyCode::Right), 0);
    assert_eq!(v.histogram_width_percentage, 100);
    assert_eq!(v.selected, Some(0));
}

#[test]
fn view_zoom_and_autoscale_keys() {
    let mut v = ViewState::new();
    assert_eq!(
        v.handle_key(press(KeyCode::Char('-')), 0),
        Some((ZoomContext::Packet, ZoomStep::Out))
    );
    assert_eq!(
        v.handle_key(press(KeyCode::Char('+')), 0),
        Some((ZoomContext::Packet, ZoomStep::In))
    );
    v.handle_key(press(KeyCode::Char('a')), 0);
    assert!(!v.autoscale_packets && v.autoscale_bytes);
    v.handle_key(press(KeyCode::Char('b')), 0);
    assert_eq!(v.zoom_context, ZoomContext::Byte);
    assert_eq!(
        v.handle_key(press(KeyCode::Char('-')), 0),
        Some((ZoomContext::Byte, ZoomStep::Out))
    );
    v.handle_key(press(KeyCode::Char('a')), 0);
    assert!(!v.autoscale_packets && !v.autoscale_bytes);
    v.handle_key(press(KeyCode::Char('p')), 0);
    assert_eq!(v.zoom_context, ZoomContext::Packet);
    v.handle_key(press(KeyCode::Char('a')), 0);
    assert!(v.autoscale_packets && !v.autoscale_bytes);
    let before = v;
    assert_eq!(v.handle_key(press(KeyCode::Char('x')), 0), None);
    assert_eq!(v.handle_key(press(KeyCode::Other), 0), None);
    assert_eq!(v, before);
}

#[test]
fn context_names_and_help() {
    let e = EthernetContext::new();
    assert_eq!(e.get_context_name(), "Ethernet");
    assert_eq!(
        e.get_command_help(),
        vec!["(↑/↓) Select address, (t) Toggle address monitoring, (s) Sort address values"]
    );
    let n = NetworkInterfaceContext::new(&interfaces());
    assert_eq!(n.get_context_name(), "Network Interfaces");
    assert_eq!(
        n.get_command_help(),
        vec![
            "(↑/↓) Select interface, (t) Toggle interface monitoring",
            "(b/p) Select plot zoom context, (a) Toggle autoscaling, (+/-) Y axis zoom",
            "(Ctrl + ←/→): Change plot widths, (Ctrl + ↑/↓): Change plot heights",
        ]
    );
}

#[test]
fn ethernet_context_toggles_the_selected_address() {
    let mut c = EthernetContext::new();
    assert_eq!(c.handle_key_event(press(KeyCode::Char('t'))), KeyOutcome::NothingSelected);
    let a = [0u8, 0, 0, 0, 0, 2];
    let b = [0u8, 0, 0, 0, 0, 1];
    let (evicted, result) = c.handle_tick(&vec![address_reading(a, 1), address_reading(b, 1)]);
    assert!(evicted.is_empty());
    assert_eq!(result, Ok(()));
    assert_eq!(c.handle_key_event(press(KeyCode::Down)), KeyOutcome::Handled);
    assert_eq!(c.view.selected, Some(1));
    assert_eq!(c.handle_key_event(press(KeyCode::Char('t'))), KeyOutcome::Handled);
    assert!(c.model.is_displaying(&b));
    assert!(!c.model.is_displaying(&a));
    assert_eq!(c.handle_key_event(press(KeyCode::Char('s'))), KeyOutcome::Handled);
    assert_eq!(c.model.entries()[0].mac(), b);
    assert_eq!(c.model.entries()[1].mac(), a);
    assert_eq!(c.view.selected, Some(1));
    assert_eq!(c.handle_key_event(press(KeyCode::Char('t'))), KeyOutcome::Handled);
    assert!(c.model.is_displaying(&a));
    assert_eq!(
        c.handle_key_event(press(KeyCode::Char('+'))),
        KeyOutcome::Zoom(ZoomContext::Packet, ZoomStep::In)
    );
}

#[test]
fn interface_context_asks_for_the_hook_work() {
    let mut c = NetworkInterfaceContext::new(&interfaces());
    assert_eq!(
        c.handle_key_event(press(KeyCode::Char('t'))),
        KeyOutcome::Refused(AttachmentError::NotAttached)
    );
    assert_eq!(
        c.model.attach_ebpf_program(2, Some(LinkHandle { id: 4 })),
        Ok(CounterInit { interface_index: 2, overwrite: false })
    );
    c.handle_key_event(press(KeyCode::Down));
    assert_eq!(
        c.handle_key_event(press(KeyCode::Char('t'))),
        KeyOutcome::Hook { interface_index: 2, request: HookRequest::Remove(LinkHandle { id: 4 }) }
    );
    assert!(c.model.entries()[1].collecting());
    assert_eq!(
        c.model.toggle_ebpf_program(2, tsndt::network_interface::HookReply::Removed),
        Ok(CounterInit { interface_index: 2, overwrite: true })
    );
    assert_eq!(
        c.handle_key_event(press(KeyCode::Char('t'))),
        KeyOutcome::Hook { interface_index: 2, request: HookRequest::Install }
    );
    c.view.selected = Some(7);
    assert_eq!(c.handle_key_event(press(KeyCode::Char('t'))), KeyOutcome::NothingSelected);
    assert_eq!(
        c.handle_key_event(press(KeyCode::Char('-'))),
        KeyOutcome::Zoom(ZoomContext::Packet, ZoomStep::Out)
    );
}

#[test]
fn app_goes_round_the_contexts() {
    let mut app = App::new(&interfaces());
    assert_eq!(app.selected_context_id, DEFAULT_CONTEXT_ID);
    assert_eq!(app.run_state, AppRunState::Running);
    assert_eq!(app.tab_titles(), vec!["Network Interfaces", "Ethernet"]);
    assert_eq!(
        app.handle_key_event(press(KeyCode::Right)),
        AppOutcome::Context { context_id: 0, outcome: KeyOutcome::Handled }
    );
    assert_eq!(app.selected_context_id, 1);
    assert_eq!(
        app.handle_key_event(press(KeyCode::Right)),
        AppOutcome::Context { context_id: 1, outcome: KeyOutcome::Handled }
    );
    assert_eq!(app.selected_context_id, 0);
    app.handle_key_event(press(KeyCode::Left));
    assert_eq!(app.selected_context_id, 1);
    app.handle_key_event(press(KeyCode::Left));
    assert_eq!(app.selected_context_id, 0);
    app.handle_key_event(ctrl(KeyCode::Left));
    assert_eq!(app.selected_context_id, 0);
    assert_eq!(app.network_interfaces.view.histogram_width_percentage, 26);
    assert_eq!(app.ethernet.view.histogram_width_percentage, 25);
    app.handle_key_event(KeyEvent { code: KeyCode::Right, modifiers: SHIFT });
    assert_eq!(app.selected_context_id, 0);
}

#[test]
fn app_sends_keys_to_the_context_on_display() {
    let mut app = App::new(&interfaces());
    app.handle_key_event(press(KeyCode::Down));
    assert_eq!(app.network_interfaces.view.selected, Some(1));
    assert_eq!(app.ethernet.view.selected, Some(0));
    app.handle_key_event(press(KeyCode::Right));
    app.handle_key_event(press(KeyCode::Char('b')));
    assert_eq!(app.ethernet.view.zoom_context, ZoomContext::Byte);
    assert_eq!(app.network_interfaces.view.zoom_context, ZoomContext::Packet);
}

#[test]
fn app_stops_on_q() {
    let mut app = App::new(&interfaces());
    assert_eq!(app.handle_key_event(press(KeyCode::Char('q'))), AppOutcome::Quit);
    assert_eq!(app.run_state, AppRunState::Stopped);
    assert_eq!(app.selected_context_id, 0);
}

#[test]
fn app_ticks_every_context() {
    let mut app = App::new(&interfaces());
    let mac = [1u8, 2, 3, 4, 5, 6];
    let (evicted, result) = app.handle_tick(
        &vec![Reading { key: 2u32, slots: Some(vec![Counter { bytes: 100, packets: 1 }]) }],
        &vec![address_reading(mac, 3)],
    );
    assert!(evicted.is_empty());
    assert_eq!(result, Ok(()));
    assert_eq!(app.network_interfaces.model.tick_count(), 1);
    assert_eq!(app.ethernet.model.tick_count(), 1);
    assert_eq!(app.network_interfaces.model.entries()[1].entity().cumulative().packets, 1);
    assert_eq!(app.ethernet.model.entries()[0].entity().cumulative().packets, 3);
}

#[test]
fn app_hands_back_the_first_failed_read() {
    let mut app = App::new(&interfaces());
    let mac = [1u8, 2, 3, 4, 5, 6];
    let (_, result) = app.handle_tick(
        &vec![Reading { key: 3u32, slots: None }],
        &vec![Reading { key: mac, slots: None }],
    );
    assert_eq!(result, Err(TickError::Interface(3)));
    let (_, result) = app.handle_tick(&Vec::new(), &vec![Reading { key: mac, slots: None }]);
    assert_eq!(result, Err(TickError::Address(mac)));
    assert_eq!(app.ethernet.model.tick_count(), 2);
    let mut context = EthernetContext::new();
    let (_, result) = context.handle_tick(&vec![Reading { key: mac, slots: None }]);
    assert_eq!(result, Err(ReadFailure { key: mac }));
}

#[test]
fn app_starts_with_every_interface_known_and_collecting() {
    let app = App::new(&interfaces());
    assert_eq!(app.network_interfaces.view, ViewState::new());
    assert_eq!(app.ethernet.view, ViewState::new());
    assert_eq!(app.network_interfaces.model.tick_count(), 0);
    assert_eq!(app.network_interfaces.model.len(), 3);
    for (entry, index) in app.network_interfaces.model.entries().iter().zip([1u32, 2, 3]) {
        assert_eq!(entry.interface().index, index);
        assert!(entry.collecting());
        assert_eq!(entry.link(), None);
        assert_eq!(entry.entity().packet_series().capacity(), DEFAULT_WINDOW_SIZE);
        assert_eq!(entry.entity().packet_series().len(), 1);
    }
    assert_eq!(app.ethernet.model.len(), 0);
    assert_eq!(app.ethernet.model.tick_count(), 0);
    assert_eq!(app.ethernet.model.window(), (0, 50));
}
