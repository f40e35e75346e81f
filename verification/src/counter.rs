//! The counter record shared by the packet path and the aggregator, and the
//! arithmetic on it.

use vstd::prelude::*;

verus! {

/// Cumulative traffic seen for one key on one CPU.
///
/// The field order and widths are the layout of the record in the kernel
/// tables: an 8-byte byte count followed by a 4-byte packet count.
#[derive(Clone, Copy, Debug, PartialEq, Eq, Structural)]
pub struct Counter {
    pub bytes: u64,
    pub packets: u32,
}

/// Cumulative traffic seen for one key, summed over every CPU.
#[derive(Clone, Copy, Debug, PartialEq, Eq, Structural)]
pub struct Totals {
    pub packets: u64,
    pub bytes: u64,
}

/// The outcome of reading one key from a table: its per-CPU slots, or
/// nothing where the read failed.
#[derive(Debug)]
pub struct Reading<K> {
    pub key: K,
    pub slots: Option<Vec<Counter>>,
}

/// What the aggregator takes from a reading: the key and its totals over
/// all CPUs, or nothing where the read failed.
pub struct Observation<K> {
    pub key: K,
    pub totals: Option<Totals>,
}

/// A key whose read failed during a tick.
#[derive(Debug, PartialEq, Eq)]
pub struct ReadFailure<K> {
    pub key: K,
}

/// What the aggregator takes from one reading.
pub open spec fn observation<K>(reading: Reading<K>) -> Observation<K> {
    Observation {
        key: reading.key,
        totals: match reading.slots {
            Some(slots) => Some(totals_of(slots@)),
            None => None,
        },
    }
}

/// What the aggregator takes from a list of readings.
pub open spec fn observations<K>(readings: Seq<Reading<K>>) -> Seq<Observation<K>> {
    readings.map_values(|r: Reading<K>| observation(r))
}

/// The key of the first reading that failed, if any did.
pub open spec fn first_failure<K>(readings: Seq<Observation<K>>) -> Option<K>
    decreases readings.len(),
{
    if readings.len() == 0 {
        None
    } else {
        match first_failure(readings.drop_last()) {
            Some(key) => Some(key),
            None => if readings.last().totals is None {
                Some(readings.last().key)
            } else {
                None
            },
        }
    }
}

/// What a tick hands back to its caller: the first key whose read failed.
/// The other keys are taken in all the same.
pub open spec fn read_result<K>(readings: Seq<Observation<K>>) -> Result<(), ReadFailure<K>> {
    match first_failure(readings) {
        Some(key) => Err(ReadFailure { key }),
        None => Ok(()),
    }
}

/// What is to be written to the counter entry of an interface: empty slots
/// for every CPU, either only where the table holds no entry for the
/// interface, or whether or not it holds one.
#[derive(Clone, Copy, Debug, PartialEq, Eq, Structural)]
pub struct CounterInit {
    pub interface_index: u32,
    /// Whether an entry that the table holds is overwritten.
    pub overwrite: bool,
}

impl CounterInit {
    /// The values to write, given whether the table holds an entry for the
    /// interface: nothing where an entry is held and kept.
    pub fn slots(&self, present: bool, num_cpus: usize) -> (slots: Option<Vec<Counter>>)
        ensures
            present && !self.overwrite ==> slots is None,
            !present || self.overwrite ==> (slots matches Some(zeros) && zeros@ == zero_slots(
                num_cpus as nat,
            )),
    {
        initial_slots(present && !self.overwrite, num_cpus)
    }
}

/// `n` as a 64-bit value, held at the largest one when it does not fit.
pub open spec fn capped(n: nat) -> u64 {
    if n > u64::MAX {
        u64::MAX
    } else {
        n as u64
    }
}

/// The number of packets recorded in `slots`, all CPUs together.
pub open spec fn packet_sum(slots: Seq<Counter>) -> nat
    decreases slots.len(),
{
    if slots.len() == 0 {
        0
    } else {
        packet_sum(slots.drop_last()) + slots.last().packets as nat
    }
}

/// The number of bytes recorded in `slots`, all CPUs together.
pub open spec fn byte_sum(slots: Seq<Counter>) -> nat
    decreases slots.len(),
{
    if slots.len() == 0 {
        0
    } else {
        byte_sum(slots.drop_last()) + slots.last().bytes as nat
    }
}

/// What the aggregator reads from one key's per-CPU slots.
pub open spec fn totals_of(slots: Seq<Counter>) -> Totals {
    Totals { packets: capped(packet_sum(slots)), bytes: capped(byte_sum(slots)) }
}

/// A per-CPU array of `num_cpus` empty records.
pub open spec fn zero_slots(num_cpus: nat) -> Seq<Counter> {
    Seq::new(num_cpus, |i: int| Counter { bytes: 0, packets: 0 })
}

impl Counter {
    /// The record of a key that is initialised without traffic.
    pub fn zero() -> (c: Counter)
        ensures
            c == (Counter { bytes: 0, packets: 0 }),
    {
        Counter { bytes: 0, packets: 0 }
    }

    /// The record a key starts from when its first packet, `len` bytes long, is counted.
    pub fn first(len: u64) -> (c: Counter)
        ensures
            c == (Counter { bytes: len, packets: 1 }),
    {
        Counter { bytes: len, packets: 1 }
    }

    /// This record after one more packet of `len` bytes. Both fields stop at
    /// their largest value, so a record never decreases.
    pub open spec fn counted(self, len: u64) -> Counter {
        Counter {
            bytes: if self.bytes + len > u64::MAX {
                u64::MAX
            } else {
                (self.bytes + len) as u64
            },
            packets: if self.packets == u32::MAX {
                u32::MAX
            } else {
                (self.packets + 1) as u32
            },
        }
    }

    /// The slot of a key on one CPU after a packet of `len` bytes: a slot
    /// that exists counts one more packet, a key without one starts with it.
    pub open spec fn after_packet(existing: Option<Counter>, len: u64) -> Counter {
        match existing {
            Some(counter) => counter.counted(len),
            None => Counter { bytes: len, packets: 1 },
        }
    }

    /// Counts a packet of `len` bytes for a key whose slot on the receiving
    /// CPU is `existing`, or which the table does not hold yet.
    pub fn count(existing: Option<Counter>, len: u64) -> (c: Counter)
        ensures
            c == Counter::after_packet(existing, len),
    {
        match existing {
            Some(counter) => counter.record(len),
            None => Counter::first(len),
        }
    }

    /// Counts one more packet of `len` bytes.
    pub fn record(self, len: u64) -> (c: Counter)
        ensures
            c == self.counted(len),
            c.packets >= self.packets,
            c.bytes >= self.bytes,
    {
        Counter { bytes: self.bytes.saturating_add(len), packets: self.packets.saturating_add(1) }
    }
}

/// Dropping the last slot of a longer prefix gives the shorter prefix.
proof fn lemma_take_step(slots: Seq<Counter>, i: int)
    requires
        0 <= i < slots.len(),
    ensures
        slots.take(i + 1).drop_last() == slots.take(i),
        slots.take(i + 1).last() == slots[i],
{
    assert(slots.take(i + 1).drop_last() =~= slots.take(i));
}

/// Sums the per-CPU slots of one key into its cumulative totals.
pub fn sum_slots(slots: &Vec<Counter>) -> (totals: Totals)
    ensures
        totals == totals_of(slots@),
{
    let mut packets: u64 = 0;
    let mut bytes: u64 = 0;
    let mut i: usize = 0;
    while i < slots.len()
        invariant
            i <= slots.len(),
            packets == capped(packet_sum(slots@.take(i as int))),
            bytes == capped(byte_sum(slots@.take(i as int))),
        decreases slots.len() - i,
    {
        proof {
            lemma_take_step(slots@, i as int);
        }
        let slot = slots[i];
        packets = packets.saturating_add(slot.packets as u64);
        bytes = bytes.saturating_add(slot.bytes);
        i += 1;
    }
    proof {
        assert(slots@.take(slots.len() as int) =~= slots@);
    }
    Totals { packets, bytes }
}

/// The totals read from the slots of a key are the sums over all CPUs,
/// as long as the sums fit.
pub proof fn lemma_totals_are_the_sums(slots: Seq<Counter>)
    requires
        packet_sum(slots) <= u64::MAX,
        byte_sum(slots) <= u64::MAX,
    ensures
        totals_of(slots).packets == packet_sum(slots),
        totals_of(slots).bytes == byte_sum(slots),
{
}

/// Builds the per-CPU array that initialises a key without traffic.
pub fn zeroed_slots(num_cpus: usize) -> (slots: Vec<Counter>)
    ensures
        slots@ == zero_slots(num_cpus as nat),
{
    let mut slots: Vec<Counter> = Vec::new();
    let mut i: usize = 0;
    while i < num_cpus
        invariant
            i <= num_cpus,
            slots@ == zero_slots(i as nat),
        decreases num_cpus - i,
    {
        slots.push(Counter::zero());
        i += 1;
        assert(slots@ =~= zero_slots(i as nat));
    }
    slots
}

/// The values to write for a key when its counter is initialised: empty
/// slots for every CPU where the table does not hold the key, nothing where
/// it does.
pub fn initial_slots(present: bool, num_cpus: usize) -> (slots: Option<Vec<Counter>>)
    ensures
        present ==> slots is None,
        !present ==> (slots matches Some(zeros) && zeros@ == zero_slots(num_cpus as nat)),
{
    if present {
        None
    } else {
        Some(zeroed_slots(num_cpus))
    }
}

/// Replacing one slot changes the packet sum by the difference of the two records.
pub proof fn lemma_packet_sum_update(slots: Seq<Counter>, cpu: int, c: Counter)
    requires
        0 <= cpu < slots.len(),
    ensures
        packet_sum(slots.update(cpu, c)) == packet_sum(slots) - slots[cpu].packets + c.packets,
    decreases slots.len(),
{
    let updated = slots.update(cpu, c);
    if cpu == slots.len() - 1 {
        assert(updated.drop_last() =~= slots.drop_last());
    } else {
        assert(updated.drop_last() =~= slots.drop_last().update(cpu, c));
        lemma_packet_sum_update(slots.drop_last(), cpu, c);
    }
}

/// Replacing one slot changes the byte sum by the difference of the two records.
pub proof fn lemma_byte_sum_update(slots: Seq<Counter>, cpu: int, c: Counter)
    requires
        0 <= cpu < slots.len(),
    ensures
        byte_sum(slots.update(cpu, c)) == byte_sum(slots) - slots[cpu].bytes + c.bytes,
    decreases slots.len(),
{
    let updated = slots.update(cpu, c);
    if cpu == slots.len() - 1 {
        assert(updated.drop_last() =~= slots.drop_last());
    } else {
        assert(updated.drop_last() =~= slots.drop_last().update(cpu, c));
        lemma_byte_sum_update(slots.drop_last(), cpu, c);
    }
}

/// An array of empty records sums to nothing.
pub proof fn lemma_zero_slots_sum(num_cpus: nat)
    ensures
        packet_sum(zero_slots(num_cpus)) == 0,
        byte_sum(zero_slots(num_cpus)) == 0,
        totals_of(zero_slots(num_cpus)) == (Totals { packets: 0, bytes: 0 }),
    decreases num_cpus,
{
    if num_cpus > 0 {
        assert(zero_slots(num_cpus).drop_last() =~= zero_slots((num_cpus - 1) as nat));
        lemma_zero_slots_sum((num_cpus - 1) as nat);
    }
}

} // verus!
