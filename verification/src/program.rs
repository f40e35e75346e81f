//! The counting program that runs once for every packet received on an
//! attached interface: it counts the packet for its ingress interface and for
//! its source hardware address, and hands down a verdict.

use vstd::prelude::*;
use crate::frame::{source_address, source_address_of, ETH_HEADER_LEN};
use crate::counter::{zero_slots, Counter};
use crate::table::{lemma_with_new_row, PerCpuTable, Row, TableView, TableWriteError};

verus! {

/// The size of the interface table.
pub const MAX_NUM_INTERFACES: usize = 1024;

/// The size of the source-address table.
pub const MAX_NUM_MAC_ADDRS: usize = 8192;

/// The verdict that lets a packet go on.
pub open spec fn pass_verdict() -> u32 {
    2
}

/// The verdict that ends the processing of a packet after a failure.
pub open spec fn aborted_verdict() -> u32 {
    0
}

/// The verdict code `aya_ebpf::bindings::xdp_action::XDP_PASS`.
#[verifier::external_body]
fn xdp_pass() -> (code: u32)
    ensures
        code == pass_verdict(),
{
    aya_ebpf::bindings::xdp_action::XDP_PASS
}

/// The verdict code `aya_ebpf::bindings::xdp_action::XDP_ABORTED`.
#[verifier::external_body]
fn xdp_aborted() -> (code: u32)
    ensures
        code == aborted_verdict(),
{
    aya_ebpf::bindings::xdp_action::XDP_ABORTED
}

/// Why a packet was aborted.
#[derive(Clone, Copy, Debug, PartialEq, Eq, Structural)]
pub enum PacketError {
    /// The packet buffer is shorter than the link-layer header.
    Bounds,
    /// A counter table refused the write.
    TableWrite(TableWriteError),
}

/// What the counting program does next for a packet. The program is a
/// short chain of table writes; each write is carried out by whoever
/// holds the tables, and its outcome decides the next step.
#[derive(Clone, Copy, Debug, PartialEq, Eq)]
pub enum PacketStep {
    /// Count the packet in the interface table, under this interface index.
    CountInterface(u32),
    /// Count the packet in the address table, under this source address.
    CountAddress([u8; 6]),
    /// The program has ended with this result.
    Done(Result<u32, PacketError>),
}

/// The first step for a packet that arrived on the interface `ifindex`.
pub open spec fn first_step_of(ifindex: u32) -> PacketStep {
    PacketStep::CountInterface(ifindex)
}

/// The step that follows `previous`, whose write ended with `written`, for
/// a packet with the buffer `data`. After the interface is counted the
/// header is looked at: a buffer too short for it ends the program, another
/// one gives the source address to count. A refused write ends the program,
/// and so does the count of the address.
pub open spec fn next_step_of(
    previous: PacketStep,
    written: Result<(), TableWriteError>,
    data: Seq<u8>,
) -> PacketStep {
    match previous {
        PacketStep::CountInterface(_) => match written {
            Err(e) => PacketStep::Done(Err(PacketError::TableWrite(e))),
            Ok(_) => if data.len() < ETH_HEADER_LEN {
                PacketStep::Done(Err(PacketError::Bounds))
            } else {
                PacketStep::CountAddress(source_address_of(data))
            },
        },
        PacketStep::CountAddress(_) => match written {
            Err(e) => PacketStep::Done(Err(PacketError::TableWrite(e))),
            Ok(_) => PacketStep::Done(Ok(pass_verdict())),
        },
        PacketStep::Done(result) => PacketStep::Done(result),
    }
}

/// The number of writes that are still to come at most.
pub open spec fn steps_left(step: PacketStep) -> nat {
    match step {
        PacketStep::CountInterface(_) => 2,
        PacketStep::CountAddress(_) => 1,
        PacketStep::Done(_) => 0,
    }
}

/// The first step for a packet that arrived on the interface `ifindex`.
pub fn first_step(ifindex: u32) -> (step: PacketStep)
    ensures
        step == first_step_of(ifindex),
{
    PacketStep::CountInterface(ifindex)
}

/// The step that follows `previous`, whose write ended with `written`.
pub fn next_step(previous: PacketStep, written: Result<(), TableWriteError>, data: &[u8]) -> (step:
    PacketStep)
    ensures
        step == next_step_of(previous, written, data@),
        steps_left(step) < steps_left(previous) || previous is Done,
{
    match previous {
        PacketStep::CountInterface(_) => match written {
            Err(e) => PacketStep::Done(Err(PacketError::TableWrite(e))),
            Ok(_) => match source_address(data) {
                Err(_) => PacketStep::Done(Err(PacketError::Bounds)),
                Ok(mac) => PacketStep::CountAddress(mac),
            },
        },
        PacketStep::CountAddress(_) => match written {
            Err(e) => PacketStep::Done(Err(PacketError::TableWrite(e))),
            Ok(_) => PacketStep::Done(Ok(xdp_pass())),
        },
        PacketStep::Done(result) => PacketStep::Done(result),
    }
}

/// What the counting program reads of a received packet.
#[derive(Debug)]
pub struct XdpContext {
    /// The index of the interface on which the packet arrived.
    pub ingress_ifindex: u32,
    /// The CPU that received the packet and runs the program for it.
    pub cpu: usize,
    /// The packet buffer, starting with the link-layer header.
    pub data: Vec<u8>,
}

/// The two counter tables that the program writes.
#[derive(Debug)]
pub struct Datapath {
    /// Counters by interface index; this table never evicts.
    pub interface_rx_counters: PerCpuTable<u32>,
    /// Counters by source hardware address; the least recently touched
    /// address gives way when the table is full.
    pub src_mac_rx_counters: PerCpuTable<[u8; 6]>,
}

/// The mathematical content of the two tables.
pub struct DatapathView {
    pub interfaces: TableView<u32>,
    pub addresses: TableView<[u8; 6]>,
}

impl DatapathView {
    /// How the program ends for a packet: it passes when both counts were
    /// made, and is aborted when the interface table refuses the write, when
    /// the buffer is too short for the header, or when the address table
    /// refuses the write, whichever comes first.
    pub open spec fn packet_result(self, ifindex: u32, cpu: nat, data: Seq<u8>) -> Result<
        u32,
        PacketError,
    > {
        match self.interfaces.count_result(cpu, ifindex) {
            Err(e) => Err(PacketError::TableWrite(e)),
            Ok(_) => if data.len() < ETH_HEADER_LEN {
                Err(PacketError::Bounds)
            } else {
                match self.addresses.count_result(cpu, source_address_of(data)) {
                    Err(e) => Err(PacketError::TableWrite(e)),
                    Ok(_) => Ok(pass_verdict()),
                }
            },
        }
    }

    /// The tables after the program ran for a packet. The interface is
    /// counted first; the address table is written only if that succeeded and
    /// the buffer holds a whole header. A refused write changes nothing.
    pub open spec fn after_packet(self, ifindex: u32, cpu: nat, data: Seq<u8>) -> DatapathView {
        let len = data.len() as u64;
        if self.interfaces.count_result(cpu, ifindex) is Err {
            self
        } else if data.len() < ETH_HEADER_LEN {
            DatapathView { interfaces: self.interfaces.counted(cpu, ifindex, len), ..self }
        } else {
            DatapathView {
                interfaces: self.interfaces.counted(cpu, ifindex, len),
                addresses: self.addresses.counted(cpu, source_address_of(data), len),
            }
        }
    }
}

/// A source address that the address table does not hold is first sight,
/// not a failure: where the interface is counted and the buffer holds a
/// whole header, the program passes the packet and enters the address with
/// one packet of the packet's length in the slot of the receiving CPU and
/// empty slots elsewhere. It makes no difference whether the address was
/// never seen, pushed out by the table, or deleted from outside.
pub proof fn lemma_first_sight_is_entered(
    tables: DatapathView,
    ifindex: u32,
    cpu: nat,
    data: Seq<u8>,
)
    requires
        tables.interfaces.inv(),
        tables.addresses.inv(),
        tables.interfaces.count_result(cpu, ifindex) is Ok,
        data.len() >= ETH_HEADER_LEN,
        !tables.addresses.contains(source_address_of(data)),
        tables.addresses.count_result(cpu, source_address_of(data)) is Ok,
    ensures
        tables.packet_result(ifindex, cpu, data) == Ok::<u32, PacketError>(pass_verdict()),
        tables.after_packet(ifindex, cpu, data).addresses.inv(),
        tables.after_packet(ifindex, cpu, data).addresses.contains(source_address_of(data)),
        tables.after_packet(ifindex, cpu, data).addresses.slots_of(source_address_of(data))
            == zero_slots(tables.addresses.num_cpus).update(
            cpu as int,
            Counter { bytes: data.len() as u64, packets: 1 },
        ),
{
    let mac = source_address_of(data);
    lemma_with_new_row(
        tables.addresses,
        Row {
            key: mac,
            slots: zero_slots(tables.addresses.num_cpus).update(
                cpu as int,
                Counter { bytes: data.len() as u64, packets: 1 },
            ),
        },
    );
}

impl View for Datapath {
    type V = DatapathView;

    open spec fn view(&self) -> DatapathView {
        DatapathView {
            interfaces: self.interface_rx_counters@,
            addresses: self.src_mac_rx_counters@,
        }
    }
}

impl Datapath {
    /// Both tables are well formed.
    pub open spec fn wf(&self) -> bool {
        self.interface_rx_counters.wf() && self.src_mac_rx_counters.wf()
    }

    /// Two empty tables of the sizes fixed at load time, for `num_cpus` CPUs.
    pub fn new(num_cpus: usize) -> (tables: Datapath)
        ensures
            tables.wf(),
            tables@.interfaces == (TableView::<u32> {
                rows: Seq::empty(),
                max_entries: MAX_NUM_INTERFACES as nat,
                num_cpus: num_cpus as nat,
                evicts: false,
            }),
            tables@.addresses == (TableView::<[u8; 6]> {
                rows: Seq::empty(),
                max_entries: MAX_NUM_MAC_ADDRS as nat,
                num_cpus: num_cpus as nat,
                evicts: true,
            }),
    {
        Datapath {
            interface_rx_counters: PerCpuTable::new(MAX_NUM_INTERFACES, num_cpus, false),
            src_mac_rx_counters: PerCpuTable::new(MAX_NUM_MAC_ADDRS, num_cpus, true),
        }
    }
}

/// Runs the counting program for one packet and reports how it ended.
pub fn try_xdp_tsndt(tables: &mut Datapath, ctx: &XdpContext) -> (result: Result<u32, PacketError>)
    requires
        old(tables).wf(),
    ensures
        final(tables).wf(),
        result == old(tables)@.packet_result(ctx.ingress_ifindex, ctx.cpu as nat, ctx.data@),
        final(tables)@ == old(tables)@.after_packet(
            ctx.ingress_ifindex,
            ctx.cpu as nat,
            ctx.data@,
        ),
{
    let packet_byte_count = ctx.data.len() as u64;
    let ghost before = tables@;
    let ghost cpu = ctx.cpu as nat;
    let mut step = first_step(ctx.ingress_ifindex);
    loop
        invariant
            tables.wf(),
            before == old(tables)@,
            cpu == ctx.cpu as nat,
            packet_byte_count == ctx.data@.len() as u64,
            match step {
                PacketStep::CountInterface(index) => index == ctx.ingress_ifindex && tables@
                    == before,
                PacketStep::CountAddress(mac) => {
                    &&& before.interfaces.count_result(cpu, ctx.ingress_ifindex) is Ok
                    &&& ctx.data@.len() >= ETH_HEADER_LEN
                    &&& mac == source_address_of(ctx.data@)
                    &&& tables@ == (DatapathView {
                        interfaces: before.interfaces.counted(
                            cpu,
                            ctx.ingress_ifindex,
                            packet_byte_count,
                        ),
                        ..before
                    })
                },
                PacketStep::Done(result) => {
                    &&& result == before.packet_result(ctx.ingress_ifindex, cpu, ctx.data@)
                    &&& tables@ == before.after_packet(ctx.ingress_ifindex, cpu, ctx.data@)
                },
            },
        decreases steps_left(step),
    {
        let written = match step {
            PacketStep::CountInterface(index) => tables.interface_rx_counters.count(
                ctx.cpu,
                index,
                packet_byte_count,
            ),
            PacketStep::CountAddress(mac) => tables.src_mac_rx_counters.count(
                ctx.cpu,
                mac,
                packet_byte_count,
            ),
            PacketStep::Done(result) => {
                return result;
            },
        };
        step = next_step(step, written, ctx.data.as_slice());
    }
}

/// The verdict for a run of the program that ended with `result`.
pub open spec fn verdict_of(result: Result<u32, PacketError>) -> u32 {
    match result {
        Ok(verdict) => verdict,
        Err(_) => aborted_verdict(),
    }
}

/// The verdict for a run of the program that ended with `result`.
pub fn verdict(result: Result<u32, PacketError>) -> (code: u32)
    ensures
        code == verdict_of(result),
{
    match result {
        Ok(ret) => ret,
        Err(_) => xdp_aborted(),
    }
}

/// The counting program: counts the packet and returns its verdict, pass when
/// both tables were written and aborted otherwise.
pub fn xdp_tsndt(tables: &mut Datapath, ctx: &XdpContext) -> (verdict: u32)
    requires
        old(tables).wf(),
    ensures
        final(tables).wf(),
        verdict == verdict_of(
            old(tables)@.packet_result(ctx.ingress_ifindex, ctx.cpu as nat, ctx.data@),
        ),
        final(tables)@ == old(tables)@.after_packet(
            ctx.ingress_ifindex,
            ctx.cpu as nat,
            ctx.data@,
        ),
{
    verdict(try_xdp_tsndt(tables, ctx))
}

} // verus!
