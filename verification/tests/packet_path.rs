use tsndt::counter::{sum_slots, Counter, CounterInit, Totals};
use tsndt::frame::{ptr_at, source_address, BoundsError, ETH_HEADER_LEN};
use tsndt::program::{
    first_step, next_step, try_xdp_tsndt, verdict, xdp_tsndt, Datapath, PacketError, PacketStep,
    XdpContext, MAX_NUM_INTERFACES, MAX_NUM_MAC_ADDRS,
};
use tsndt::table::{PerCpuTable, TableWriteError};

fn frame(src: [u8; 6], len: usize) -> Vec<u8> {
    let mut data = vec![0u8; len];
    for i in 0..6 {
        if i < len {
            data[i] = 0x10 + i as u8;
        }
        if 6 + i < len {
            data[6 + i] = src[i];
        }
    }
    data
}

const MAC: [u8; 6] = [0xaa, 0xbb, 0xcc, 0xdd, 0xee, 0xff];

#[test]
fn header_length_is_fourteen() {
    assert_eq!(ETH_HEADER_LEN, 14);
    assert_eq!(source_address(&frame(MAC, 13)), Err(BoundsError {}));
    assert_eq!(source_address(&frame(MAC, 14)), Ok(MAC));
}

#[test]
fn source_address_is_read_from_the_header() {
    let data = frame([1, 2, 3, 4, 5, 6], 64);
    assert_eq!(source_address(&data), Ok([1, 2, 3, 4, 5, 6]));
}

#[test]
fn source_address_refuses_short_buffers() {
    assert_eq!(source_address(&[]), Err(BoundsError {}));
    assert_eq!(source_address(&[0u8; 6]), Err(BoundsError {}));
    assert_eq!(source_address(&[0u8; 12]), Err(BoundsError {}));
}

#[test]
fn ptr_at_checks_the_whole_read() {
    let data = [0u8; 20];
    assert_eq!(ptr_at(&data, 0, 14), Ok(0));
    assert_eq!(ptr_at(&data, 6, 14), Ok(6));
    assert_eq!(ptr_at(&data, 7, 14), Err(BoundsError {}));
    assert_eq!(ptr_at(&data, 20, 0), Ok(20));
    assert_eq!(ptr_at(&data, 21, 0), Err(BoundsError {}));
    assert_eq!(ptr_at(&data, 1, usize::MAX), Err(BoundsError {}));
}

#[test]
fn tables_have_their_fixed_sizes() {
    let tables = Datapath::new(4);
    assert_eq!(MAX_NUM_INTERFACES, 1024);
    assert_eq!(MAX_NUM_MAC_ADDRS, 8192);
    assert_eq!(tables.interface_rx_counters.max_entries(), 1024);
    assert_eq!(tables.src_mac_rx_counters.max_entries(), 8192);
    assert_eq!(tables.interface_rx_counters.num_cpus(), 4);
    assert_eq!(tables.src_mac_rx_counters.len(), 0);
}

#[test]
fn a_packet_is_counted_for_interface_and_address() {
    let mut tables = Datapath::new(2);
    let ctx = XdpContext { ingress_ifindex: 2, cpu: 1, data: frame(MAC, 100) };
    assert_eq!(xdp_tsndt(&mut tables, &ctx), 2);
    let iface = tables.interface_rx_counters.get(&2).unwrap();
    assert_eq!(
        iface,
        vec![Counter { bytes: 0, packets: 0 }, Counter { bytes: 100, packets: 1 }]
    );
    let addr = tables.src_mac_rx_counters.get(&MAC).unwrap();
    assert_eq!(
        addr,
        vec![Counter { bytes: 0, packets: 0 }, Counter { bytes: 100, packets: 1 }]
    );
}

#[test]
fn each_cpu_writes_its_own_slot() {
    let mut tables = Datapath::new(3);
    for (cpu, len) in [(0usize, 60usize), (2, 70), (0, 80), (1, 90), (2, 100)] {
        let ctx = XdpContext { ingress_ifindex: 7, cpu, data: frame(MAC, len) };
        assert_eq!(try_xdp_tsndt(&mut tables, &ctx), Ok(2));
    }
    let slots = tables.interface_rx_counters.get(&7).unwrap();
    assert_eq!(
        slots,
        vec![
            Counter { bytes: 140, packets: 2 },
            Counter { bytes: 90, packets: 1 },
            Counter { bytes: 170, packets: 2 },
        ]
    );
    assert_eq!(sum_slots(&slots), Totals { packets: 5, bytes: 400 });
    let by_mac = tables.src_mac_rx_counters.get(&MAC).unwrap();
    assert_eq!(sum_slots(&by_mac), Totals { packets: 5, bytes: 400 });
}

#[test]
fn cumulative_counts_are_exact_for_many_packets() {
    let mut tables = Datapath::new(4);
    let mut bytes: u64 = 0;
    for n in 0..1000usize {
        let len = 14 + (n % 200);
        bytes += len as u64;
        let ctx = XdpContext { ingress_ifindex: 3, cpu: n % 4, data: frame(MAC, len) };
        assert_eq!(xdp_tsndt(&mut tables, &ctx), 2);
    }
    let slots = tables.src_mac_rx_counters.get(&MAC).unwrap();
    assert_eq!(sum_slots(&slots), Totals { packets: 1000, bytes });
}

#[test]
fn a_short_packet_is_aborted_after_the_interface_count() {
    let mut tables = Datapath::new(1);
    let ctx = XdpContext { ingress_ifindex: 9, cpu: 0, data: vec![0u8; 10] };
    assert_eq!(try_xdp_tsndt(&mut tables, &ctx), Err(PacketError::Bounds));
    assert_eq!(
        tables.interface_rx_counters.get(&9),
        Some(vec![Counter { bytes: 10, packets: 1 }])
    );
    assert_eq!(tables.src_mac_rx_counters.len(), 0);
    assert_eq!(xdp_tsndt(&mut tables, &ctx), 0);
    assert_eq!(
        tables.interface_rx_counters.get(&9),
        Some(vec![Counter { bytes: 20, packets: 2 }])
    );
}

#[test]
fn a_packet_on_an_unknown_cpu_is_aborted_untouched() {
    let mut tables = Datapath::new(2);
    let ctx = XdpContext { ingress_ifindex: 1, cpu: 2, data: frame(MAC, 64) };
    assert_eq!(
        try_xdp_tsndt(&mut tables, &ctx),
        Err(PacketError::TableWrite(TableWriteError::NoSuchCpu))
    );
    assert_eq!(xdp_tsndt(&mut tables, &ctx), 0);
    assert_eq!(tables.interface_rx_counters.len(), 0);
    assert_eq!(tables.src_mac_rx_counters.len(), 0);
}

#[test]
fn a_full_interface_table_aborts_new_interfaces_only() {
    let mut tables = Datapath {
        interface_rx_counters: PerCpuTable::new(2, 1, false),
        src_mac_rx_counters: PerCpuTable::new(8, 1, true),
    };
    for ifindex in [1u32, 2] {
        let ctx = XdpContext { ingress_ifindex: ifindex, cpu: 0, data: frame(MAC, 64) };
        assert_eq!(xdp_tsndt(&mut tables, &ctx), 2);
    }
    let third = XdpContext { ingress_ifindex: 3, cpu: 0, data: frame(MAC, 64) };
    assert_eq!(
        try_xdp_tsndt(&mut tables, &third),
        Err(PacketError::TableWrite(TableWriteError::Full))
    );
    assert_eq!(tables.interface_rx_counters.get(&3), None);
    assert_eq!(
        tables.src_mac_rx_counters.get(&MAC),
        Some(vec![Counter { bytes: 128, packets: 2 }])
    );
    let again = XdpContext { ingress_ifindex: 1, cpu: 0, data: frame(MAC, 36) };
    assert_eq!(xdp_tsndt(&mut tables, &again), 2);
    assert_eq!(
        tables.interface_rx_counters.get(&1),
        Some(vec![Counter { bytes: 100, packets: 2 }])
    );
}

#[test]
fn the_address_table_pushes_out_the_least_recently_touched() {
    let mut tables = Datapath {
        interface_rx_counters: PerCpuTable::new(4, 1, false),
        src_mac_rx_counters: PerCpuTable::new(2, 1, true),
    };
    let a = [1u8, 0, 0, 0, 0, 1];
    let b = [1u8, 0, 0, 0, 0, 2];
    let c = [1u8, 0, 0, 0, 0, 3];
    for mac in [a, b, a, c] {
        let ctx = XdpContext { ingress_ifindex: 1, cpu: 0, data: frame(mac, 64) };
        assert_eq!(xdp_tsndt(&mut tables, &ctx), 2);
    }
    assert_eq!(tables.src_mac_rx_counters.len(), 2);
    assert_eq!(tables.src_mac_rx_counters.get(&b), None);
    assert_eq!(
        tables.src_mac_rx_counters.get(&a),
        Some(vec![Counter { bytes: 128, packets: 2 }])
    );
    assert_eq!(
        tables.src_mac_rx_counters.get(&c),
        Some(vec![Counter { bytes: 64, packets: 1 }])
    );
    let ctx = XdpContext { ingress_ifindex: 1, cpu: 0, data: frame(b, 70) };
    assert_eq!(xdp_tsndt(&mut tables, &ctx), 2);
    assert_eq!(tables.src_mac_rx_counters.get(&a), None);
    assert_eq!(
        tables.src_mac_rx_counters.get(&b),
        Some(vec![Counter { bytes: 70, packets: 1 }])
    );
}

#[test]
fn table_insert_and_remove() {
    let mut table: PerCpuTable<u32> = PerCpuTable::new(2, 2, false);
    assert_eq!(
        table.insert(5, vec![Counter::zero()]),
        Err(TableWriteError::SlotCount)
    );
    assert_eq!(table.insert(5, vec![Counter::zero(), Counter::first(9)]), Ok(()));
    assert_eq!(table.get(&5), Some(vec![Counter::zero(), Counter::first(9)]));
    assert_eq!(table.insert(5, vec![Counter::first(1), Counter::zero()]), Ok(()));
    assert_eq!(table.get(&5), Some(vec![Counter::first(1), Counter::zero()]));
    assert_eq!(table.insert(6, vec![Counter::zero(), Counter::zero()]), Ok(()));
    assert_eq!(
        table.insert(7, vec![Counter::zero(), Counter::zero()]),
        Err(TableWriteError::Full)
    );
    assert!(table.remove(&5));
    assert!(!table.remove(&5));
    assert_eq!(table.get(&5), None);
    assert_eq!(table.len(), 1);
    assert_eq!(table.insert(7, vec![Counter::zero(), Counter::zero()]), Ok(()));
}

#[test]
fn table_zero_initialise_keeps_existing_counts() {
    let mut table: PerCpuTable<u32> = PerCpuTable::new(1, 2, false);
    assert_eq!(table.zero_initialise(4), Ok(()));
    assert_eq!(table.get(&4), Some(vec![Counter::zero(), Counter::zero()]));
    assert_eq!(table.count(1, 4, 120), Ok(()));
    assert_eq!(table.zero_initialise(4), Ok(()));
    assert_eq!(table.get(&4), Some(vec![Counter::zero(), Counter::first(120)]));
    assert_eq!(table.zero_initialise(5), Err(TableWriteError::Full));
    assert_eq!(table.get(&5), None);
}

#[test]
fn table_without_room_refuses_every_key() {
    let mut table: PerCpuTable<u32> = PerCpuTable::new(0, 1, true);
    assert_eq!(table.count(0, 1, 10), Err(TableWriteError::Full));
    assert_eq!(table.len(), 0);
}

#[test]
fn table_readings_follow_the_order_of_touch() {
    let mut table: PerCpuTable<u32> = PerCpuTable::new(4, 1, false);
    assert_eq!(table.count(0, 10, 1), Ok(()));
    assert_eq!(table.count(0, 20, 2), Ok(()));
    assert_eq!(table.count(0, 10, 3), Ok(()));
    let readings = table.readings();
    assert_eq!(readings.len(), 2);
    assert_eq!(readings[0].key, 20);
    assert_eq!(readings[0].slots, Some(vec![Counter { bytes: 2, packets: 1 }]));
    assert_eq!(readings[1].key, 10);
    assert_eq!(readings[1].slots, Some(vec![Counter { bytes: 4, packets: 2 }]));
}

#[test]
fn table_initialise_writes_what_it_is_told() {
    let mut table: PerCpuTable<u32> = PerCpuTable::new(1, 2, false);
    let keep = CounterInit { interface_index: 4, overwrite: false };
    let reset = CounterInit { interface_index: 4, overwrite: true };
    assert_eq!(table.initialise(keep), Ok(()));
    assert_eq!(table.get(&4), Some(vec![Counter::zero(), Counter::zero()]));
    assert_eq!(table.count(0, 4, 90), Ok(()));
    assert_eq!(table.initialise(keep), Ok(()));
    assert_eq!(table.get(&4), Some(vec![Counter::first(90), Counter::zero()]));
    assert_eq!(table.initialise(reset), Ok(()));
    assert_eq!(table.get(&4), Some(vec![Counter::zero(), Counter::zero()]));
    let other = CounterInit { interface_index: 5, overwrite: true };
    assert_eq!(table.initialise(other), Err(TableWriteError::Full));
    assert_eq!(table.get(&5), None);
}

#[test]
fn the_program_is_a_chain_of_two_writes() {
    let data = frame(MAC, 64);
    let first = first_step(7);
    assert_eq!(first, PacketStep::CountInterface(7));
    let second = next_step(first, Ok(()), &data);
    assert_eq!(second, PacketStep::CountAddress(MAC));
    let third = next_step(second, Ok(()), &data);
    assert_eq!(third, PacketStep::Done(Ok(2)));
    assert_eq!(next_step(third, Ok(()), &data), third);
}

#[test]
fn a_refused_write_or_a_short_buffer_ends_the_program() {
    let data = frame(MAC, 64);
    let refused = Err(TableWriteError::Refused(-7));
    assert_eq!(
        next_step(first_step(1), refused, &data),
        PacketStep::Done(Err(PacketError::TableWrite(TableWriteError::Refused(-7))))
    );
    assert_eq!(
        next_step(first_step(1), Ok(()), &data[..13]),
        PacketStep::Done(Err(PacketError::Bounds))
    );
    assert_eq!(
        next_step(PacketStep::CountAddress(MAC), Err(TableWriteError::Full), &data),
        PacketStep::Done(Err(PacketError::TableWrite(TableWriteError::Full)))
    );
}

#[test]
fn verdict_is_pass_or_aborted() {
    assert_eq!(verdict(Ok(2)), 2);
    assert_eq!(verdict(Err(PacketError::Bounds)), 0);
    assert_eq!(verdict(Err(PacketError::TableWrite(TableWriteError::Full))), 0);
}
