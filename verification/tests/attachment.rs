use tsndt::counter::{sum_slots, Counter, CounterInit, Reading, Totals};
use tsndt::network_interface::{
    AttachmentError, HookReply, HookRequest, LinkHandle, NetworkInterface, NetworkInterfaceModel,
    StartupError, StartupHook,
};
use tsndt::program::{xdp_tsndt, Datapath, XdpContext};
use tsndt::series::Point;
use tsndt::table::PerCpuTable;

fn model() -> NetworkInterfaceModel {
    NetworkInterfaceModel::new(
        &vec![
            NetworkInterface { index: 1, name: "lo".to_string() },
            NetworkInterface { index: 2, name: "eth0".to_string() },
        ],
        50,
    )
}

fn zero_series() -> Vec<Point> {
    vec![Point { tick: 0, delta: 0 }]
}

#[test]
fn find_interface_by_index() {
    let m = model();
    let found = m.find_interface(2).unwrap();
    assert_eq!(found.index, 2);
    assert_eq!(found.name, "eth0");
    assert!(m.find_interface(3).is_none());
}

#[test]
fn attach_records_the_handle() {
    let mut m = model();
    assert_eq!(
        m.attach_ebpf_program(2, Some(LinkHandle { id: 7 })),
        Ok(CounterInit { interface_index: 2, overwrite: false })
    );
    assert_eq!(m.entries()[1].link(), Some(LinkHandle { id: 7 }));
    assert_eq!(m.entries()[0].link(), None);
}

#[test]
fn attach_to_an_unknown_interface_fails() {
    let mut m = model();
    assert_eq!(
        m.attach_ebpf_program(9, Some(LinkHandle { id: 7 })),
        Err(AttachmentError::InterfaceNotFound)
    );
    assert_eq!(m.entries()[0].link(), None);
    assert_eq!(m.entries()[1].link(), None);
}

#[test]
fn attach_without_a_hook_fails_and_changes_nothing() {
    let mut m = model();
    assert_eq!(m.attach_ebpf_program(2, None), Err(AttachmentError::AttachFailed));
    assert_eq!(m.entries()[1].link(), None);
    assert_eq!(
        m.attach_ebpf_program(2, Some(LinkHandle { id: 1 })),
        Ok(CounterInit { interface_index: 2, overwrite: false })
    );
    assert_eq!(m.attach_ebpf_program(2, None), Err(AttachmentError::AttachFailed));
    assert_eq!(m.entries()[1].link(), Some(LinkHandle { id: 1 }));
}

#[test]
fn detach_without_attachment_fails() {
    let mut m = model();
    assert_eq!(m.detach_ebpf_program(2, true), Err(AttachmentError::NotAttached));
    assert_eq!(m.detach_ebpf_program(9, true), Err(AttachmentError::NotAttached));
}

#[test]
fn detach_resets_the_series_and_drops_the_handle() {
    let mut m = model();
    assert_eq!(
        m.attach_ebpf_program(2, Some(LinkHandle { id: 7 })),
        Ok(CounterInit { interface_index: 2, overwrite: false })
    );
    let _ = m.on_tick(&vec![Reading { key: 2u32, slots: Some(vec![Counter { bytes: 900, packets: 9 }]) }]);
    let _ = m.on_tick(&vec![Reading { key: 2u32, slots: Some(vec![Counter { bytes: 1200, packets: 12 }]) }]);
    assert_eq!(m.entries()[1].entity().packet_series().len(), 3);
    assert_eq!(m.detach_ebpf_program(2, true), Ok(CounterInit { interface_index: 2, overwrite: true }));
    assert_eq!(m.entries()[1].link(), None);
    assert_eq!(m.entries()[1].entity().packet_series().points(), &zero_series());
    assert_eq!(m.entries()[1].entity().byte_series().points(), &zero_series());
    assert_eq!(m.entries()[1].entity().cumulative(), Totals { packets: 0, bytes: 0 });
    assert_eq!(m.detach_ebpf_program(2, true), Err(AttachmentError::NotAttached));
}

#[test]
fn failed_detach_changes_nothing() {
    let mut m = model();
    assert_eq!(
        m.attach_ebpf_program(2, Some(LinkHandle { id: 7 })),
        Ok(CounterInit { interface_index: 2, overwrite: false })
    );
    let _ = m.on_tick(&vec![Reading { key: 2u32, slots: Some(vec![Counter { bytes: 900, packets: 9 }]) }]);
    assert_eq!(m.detach_ebpf_program(2, false), Err(AttachmentError::DetachFailed));
    assert_eq!(m.entries()[1].link(), Some(LinkHandle { id: 7 }));
    assert_eq!(m.entries()[1].entity().packet_series().len(), 2);
    assert_eq!(m.entries()[1].entity().cumulative(), Totals { packets: 9, bytes: 900 });
    assert_eq!(m.detach_ebpf_program(2, true), Ok(CounterInit { interface_index: 2, overwrite: true }));
}

#[test]
fn reattach_starts_from_zero() {
    let mut m = model();
    let mut tables = Datapath::new(4);
    let write = m.attach_ebpf_program(2, Some(LinkHandle { id: 1 })).unwrap();
    assert_eq!(tables.interface_rx_counters.initialise(write), Ok(()));
    let mut data = vec![0u8; 100];
    data[6..12].copy_from_slice(&[1, 2, 3, 4, 5, 6]);
    for cpu in 0..3 {
        let ctx = XdpContext { ingress_ifindex: 2, cpu, data: data.clone() };
        assert_eq!(xdp_tsndt(&mut tables, &ctx), 2);
    }
    let _ = m.on_tick(&tables.interface_rx_counters.readings());
    assert_eq!(m.entries()[1].entity().cumulative(), Totals { packets: 3, bytes: 300 });
    let reset = m.detach_ebpf_program(2, true).unwrap();
    assert_eq!(reset, CounterInit { interface_index: 2, overwrite: true });
    assert_eq!(tables.interface_rx_counters.initialise(reset), Ok(()));
    let write = m.attach_ebpf_program(2, Some(LinkHandle { id: 2 })).unwrap();
    assert_eq!(write, CounterInit { interface_index: 2, overwrite: false });
    assert_eq!(tables.interface_rx_counters.initialise(write), Ok(()));
    assert_eq!(m.entries()[1].link(), Some(LinkHandle { id: 2 }));
    assert_eq!(m.entries()[1].entity().cumulative(), Totals { packets: 0, bytes: 0 });
    assert_eq!(m.entries()[1].entity().packet_series().points(), &zero_series());
    assert_eq!(m.entries()[1].entity().byte_series().points(), &zero_series());
    let slots = tables.interface_rx_counters.get(&2).unwrap();
    assert_eq!(slots, vec![Counter::zero(); 4]);
    assert_eq!(sum_slots(&slots), Totals { packets: 0, bytes: 0 });
}

#[test]
fn attach_keeps_a_counter_that_the_table_holds() {
    let mut m = model();
    let mut table: PerCpuTable<u32> = PerCpuTable::new(8, 2, false);
    assert_eq!(table.count(1, 2, 500), Ok(()));
    let write = m.attach_ebpf_program(2, Some(LinkHandle { id: 1 })).unwrap();
    assert_eq!(table.initialise(write), Ok(()));
    assert_eq!(table.get(&2), Some(vec![Counter::zero(), Counter::first(500)]));
    let write = m.attach_ebpf_program(1, Some(LinkHandle { id: 2 })).unwrap();
    assert_eq!(table.initialise(write), Ok(()));
    assert_eq!(table.get(&1), Some(vec![Counter::zero(), Counter::zero()]));
}

#[test]
fn toggle_detaches_a_collecting_interface() {
    let mut m = model();
    assert_eq!(
        m.attach_ebpf_program(2, Some(LinkHandle { id: 5 })),
        Ok(CounterInit { interface_index: 2, overwrite: false })
    );
    assert_eq!(m.toggle_request(2), Ok(HookRequest::Remove(LinkHandle { id: 5 })));
    assert_eq!(m.toggle_ebpf_program(2, HookReply::Removed), Ok(CounterInit { interface_index: 2, overwrite: true }));
    assert!(!m.entries()[1].collecting());
    assert_eq!(m.entries()[1].link(), None);
    assert_eq!(m.toggle_request(2), Ok(HookRequest::Install));
    assert_eq!(
        m.toggle_ebpf_program(2, HookReply::Installed(LinkHandle { id: 6 })),
        Ok(CounterInit { interface_index: 2, overwrite: false })
    );
    assert!(m.entries()[1].collecting());
    assert_eq!(m.entries()[1].link(), Some(LinkHandle { id: 6 }));
    assert!(m.entries()[0].collecting());
}

#[test]
fn toggle_flips_the_flag_only_on_success() {
    let mut m = model();
    assert_eq!(
        m.attach_ebpf_program(2, Some(LinkHandle { id: 5 })),
        Ok(CounterInit { interface_index: 2, overwrite: false })
    );
    assert_eq!(
        m.toggle_ebpf_program(2, HookReply::Failed),
        Err(AttachmentError::DetachFailed)
    );
    assert!(m.entries()[1].collecting());
    assert_eq!(m.entries()[1].link(), Some(LinkHandle { id: 5 }));
    assert_eq!(m.toggle_ebpf_program(2, HookReply::Removed), Ok(CounterInit { interface_index: 2, overwrite: true }));
    assert_eq!(
        m.toggle_ebpf_program(2, HookReply::Failed),
        Err(AttachmentError::AttachFailed)
    );
    assert!(!m.entries()[1].collecting());
    assert_eq!(
        m.toggle_ebpf_program(2, HookReply::Removed),
        Err(AttachmentError::AttachFailed)
    );
    assert!(!m.entries()[1].collecting());
}

#[test]
fn toggle_of_an_unknown_interface_is_an_error() {
    let mut m = model();
    assert_eq!(m.toggle_request(9), Err(AttachmentError::InterfaceNotFound));
    assert_eq!(
        m.toggle_ebpf_program(9, HookReply::Removed),
        Err(AttachmentError::InterfaceNotFound)
    );
}

#[test]
fn toggle_of_a_collecting_interface_without_attachment() {
    let mut m = model();
    assert_eq!(m.toggle_request(1), Err(AttachmentError::NotAttached));
    assert_eq!(
        m.toggle_ebpf_program(1, HookReply::Removed),
        Err(AttachmentError::NotAttached)
    );
    assert!(m.entries()[0].collecting());
}

fn every_interface() -> Vec<CounterInit> {
    vec![
        CounterInit { interface_index: 1, overwrite: false },
        CounterInit { interface_index: 2, overwrite: false },
    ]
}

#[test]
fn startup_attaches_every_interface() {
    let mut m = model();
    let hooks = vec![
        StartupHook { interface_index: 2, link: Some(LinkHandle { id: 20 }) },
        StartupHook { interface_index: 1, link: Some(LinkHandle { id: 10 }) },
    ];
    assert_eq!(m.init_ebpf_programs(&hooks, Some(4)), Ok(every_interface()));
    assert_eq!(m.entries()[0].link(), Some(LinkHandle { id: 10 }));
    assert_eq!(m.entries()[1].link(), Some(LinkHandle { id: 20 }));
    assert!(m.entries()[0].collecting() && m.entries()[1].collecting());
    assert!(m.any_attached());
}

#[test]
fn startup_initialises_the_counter_of_every_interface() {
    let mut m = model();
    let mut table: PerCpuTable<u32> = PerCpuTable::new(8, 3, false);
    assert_eq!(table.count(0, 2, 70), Ok(()));
    let hooks = vec![
        StartupHook { interface_index: 1, link: Some(LinkHandle { id: 10 }) },
        StartupHook { interface_index: 2, link: Some(LinkHandle { id: 20 }) },
    ];
    let inits = m.init_ebpf_programs(&hooks, Some(3)).unwrap();
    for init in inits {
        assert_eq!(table.initialise(init), Ok(()));
    }
    assert_eq!(table.get(&1), Some(vec![Counter::zero(); 3]));
    assert_eq!(
        table.get(&2),
        Some(vec![Counter::first(70), Counter::zero(), Counter::zero()])
    );
    assert_eq!(table.len(), 2);
}

#[test]
fn startup_fails_without_the_cpu_count() {
    let mut m = model();
    let hooks = vec![
        StartupHook { interface_index: 1, link: Some(LinkHandle { id: 10 }) },
        StartupHook { interface_index: 2, link: None },
    ];
    assert_eq!(m.init_ebpf_programs(&hooks, None), Err(StartupError::CpuCountUnavailable));
    assert_eq!(m.entries()[0].link(), None);
    assert!(m.entries()[0].collecting() && m.entries()[1].collecting());
    assert!(!m.any_attached());
}

#[test]
fn startup_goes_on_past_a_failed_installation() {
    let mut m = model();
    let hooks = vec![
        StartupHook { interface_index: 2, link: None },
        StartupHook { interface_index: 5, link: Some(LinkHandle { id: 50 }) },
        StartupHook { interface_index: 1, link: Some(LinkHandle { id: 10 }) },
    ];
    assert_eq!(m.init_ebpf_programs(&hooks, Some(1)), Ok(every_interface()));
    assert_eq!(m.entries()[0].link(), Some(LinkHandle { id: 10 }));
    assert!(m.entries()[0].collecting());
    assert_eq!(m.entries()[1].link(), None);
    assert!(!m.entries()[1].collecting());
    assert_eq!(m.toggle_request(2), Ok(HookRequest::Install));
}

#[test]
fn startup_fails_when_no_interface_is_usable() {
    let mut m = model();
    assert!(!m.any_attached());
    let hooks = vec![
        StartupHook { interface_index: 1, link: None },
        StartupHook { interface_index: 2, link: None },
    ];
    assert_eq!(m.init_ebpf_programs(&hooks, Some(2)), Err(StartupError::NoUsableInterface));
    assert!(!m.entries()[0].collecting() && !m.entries()[1].collecting());
    let mut unknown = model();
    let hooks = vec![StartupHook { interface_index: 5, link: Some(LinkHandle { id: 1 }) }];
    assert_eq!(
        unknown.init_ebpf_programs(&hooks, Some(2)),
        Err(StartupError::NoUsableInterface)
    );
    let mut none = model();
    assert_eq!(none.init_ebpf_programs(&Vec::new(), Some(2)), Ok(every_interface()));
}

#[test]
fn detached_interface_starts_again_from_nothing() {
    let mut tables = Datapath::new(2);
    let mut m = model();
    let write = m.attach_ebpf_program(2, Some(LinkHandle { id: 1 })).unwrap();
    assert_eq!(tables.interface_rx_counters.initialise(write), Ok(()));
    let mut data = vec![0u8; 100];
    data[6..12].copy_from_slice(&[1, 2, 3, 4, 5, 6]);
    let ctx = XdpContext { ingress_ifindex: 2, cpu: 0, data };
    for _ in 0..3 {
        assert_eq!(xdp_tsndt(&mut tables, &ctx), 2);
    }
    let _ = m.on_tick(&tables.interface_rx_counters.readings());
    assert_eq!(m.entries()[1].entity().cumulative(), Totals { packets: 3, bytes: 300 });
    let reset = m.detach_ebpf_program(2, true).unwrap();
    assert_eq!(tables.interface_rx_counters.initialise(reset), Ok(()));
    let _ = m.on_tick(&tables.interface_rx_counters.readings());
    assert_eq!(
        m.entries()[1].entity().packet_series().points(),
        &vec![Point { tick: 0, delta: 0 }, Point { tick: 2, delta: 0 }]
    );
    assert_eq!(m.entries()[1].entity().cumulative(), Totals { packets: 0, bytes: 0 });
}

#[test]
fn startup_without_installations_leaves_every_interface_to_a_toggle() {
    let mut m = model();
    assert_eq!(m.init_ebpf_programs(&Vec::new(), Some(2)), Ok(every_interface()));
    assert!(!m.entries()[0].collecting() && !m.entries()[1].collecting());
    assert_eq!(m.toggle_request(1), Ok(HookRequest::Install));
    assert_eq!(
        m.toggle_ebpf_program(1, HookReply::Installed(LinkHandle { id: 3 })),
        Ok(CounterInit { interface_index: 1, overwrite: false })
    );
    assert!(m.entries()[0].collecting());
    let mut partly = model();
    let hooks = vec![StartupHook { interface_index: 2, link: Some(LinkHandle { id: 20 }) }];
    assert_eq!(partly.init_ebpf_programs(&hooks, Some(2)), Ok(every_interface()));
    assert!(!partly.entries()[0].collecting());
    assert!(partly.entries()[1].collecting());
    assert_eq!(partly.toggle_request(1), Ok(HookRequest::Install));
}
