//! A model of the bounded per-CPU counter tables that the packet path writes
//! and the aggregator reads: one array of per-CPU slots per key, a fixed
//! maximum number of keys, and eviction of the least recently touched key
//! where the table is made to evict.

use vstd::prelude::*;
use crate::counter::{
    byte_sum, lemma_byte_sum_update, lemma_packet_sum_update, lemma_zero_slots_sum, packet_sum,
    initial_slots, observations, totals_of, zero_slots, zeroed_slots, Counter, CounterInit,
    Observation, Reading, Totals,
};
use crate::key::TableKey;

verus! {

/// Why a write to a table did not take place.
#[derive(Clone, Copy, Debug, PartialEq, Eq, Structural)]
pub enum TableWriteError {
    /// The table holds its maximum number of keys and does not evict.
    Full,
    /// The CPU has no slot in the table.
    NoSuchCpu,
    /// The values do not hold one slot per CPU.
    SlotCount,
    /// The table refused the write for another reason, told by this code.
    Refused(i64),
}

/// The mathematical content of one table entry.
pub struct Row<K> {
    pub key: K,
    pub slots: Seq<Counter>,
}

/// The mathematical content of a table.
pub struct TableView<K> {
    /// The entries, the least recently touched first.
    pub rows: Seq<Row<K>>,
    /// The maximum number of entries.
    pub max_entries: nat,
    /// The number of slots of every entry.
    pub num_cpus: nat,
    /// Whether a new key may push out the least recently touched one.
    pub evicts: bool,
}

impl<K> TableView<K> {
    /// Whether the table holds an entry for `key`.
    pub open spec fn contains(self, key: K) -> bool {
        exists|i: int| 0 <= i < self.rows.len() && (#[trigger] self.rows[i]).key == key
    }

    /// The place of the entry for `key`.
    pub open spec fn index_of(self, key: K) -> int {
        choose|i: int| 0 <= i < self.rows.len() && (#[trigger] self.rows[i]).key == key
    }

    /// The per-CPU slots of `key`.
    pub open spec fn slots_of(self, key: K) -> Seq<Counter> {
        self.rows[self.index_of(key)].slots
    }

    /// No key occurs twice, the table is within its maximum size, and every
    /// entry has one slot per CPU.
    pub open spec fn inv(self) -> bool {
        &&& forall|i: int, j: int|
            0 <= i < j < self.rows.len() ==> (#[trigger] self.rows[i]).key != (
            #[trigger] self.rows[j]).key
        &&& self.rows.len() <= self.max_entries
        &&& forall|i: int|
            0 <= i < self.rows.len() ==> (#[trigger] self.rows[i]).slots.len() == self.num_cpus
    }

    /// Whether a key that the table does not hold can be entered.
    pub open spec fn admits_new_key(self) -> bool {
        self.rows.len() < self.max_entries || (self.evicts && self.max_entries > 0)
    }

    /// The table after the entry `row`, whose key it does not hold, was
    /// entered as the most recently touched one. A table at its maximum size
    /// loses its least recently touched entry.
    pub open spec fn with_new_row(self, row: Row<K>) -> TableView<K> {
        TableView {
            rows: if self.rows.len() < self.max_entries {
                self.rows.push(row)
            } else {
                self.rows.remove(0).push(row)
            },
            ..self
        }
    }

    /// The table after the entry of `key` got the slots `slots` and became
    /// the most recently touched one.
    pub open spec fn with_touched_row(self, key: K, slots: Seq<Counter>) -> TableView<K> {
        TableView { rows: self.rows.remove(self.index_of(key)).push(Row { key, slots }), ..self }
    }

    /// The outcome of counting a packet for `key` on the CPU `cpu`.
    pub open spec fn count_result(self, cpu: nat, key: K) -> Result<(), TableWriteError> {
        if cpu >= self.num_cpus {
            Err(TableWriteError::NoSuchCpu)
        } else if self.contains(key) || self.admits_new_key() {
            Ok(())
        } else {
            Err(TableWriteError::Full)
        }
    }

    /// The table after a packet of `len` bytes for `key` was counted on the
    /// CPU `cpu`. A key that the table holds has only this CPU's slot
    /// increased; a new key starts with its first packet in this CPU's slot
    /// and empty slots elsewhere. A failed write changes nothing.
    pub open spec fn counted(self, cpu: nat, key: K, len: u64) -> TableView<K> {
        if self.count_result(cpu, key) is Err {
            self
        } else if self.contains(key) {
            let slots = self.slots_of(key);
            self.with_touched_row(key, slots.update(cpu as int, slots[cpu as int].counted(len)))
        } else {
            self.with_new_row(
                Row {
                    key,
                    slots: zero_slots(self.num_cpus).update(
                        cpu as int,
                        Counter { bytes: len, packets: 1 },
                    ),
                },
            )
        }
    }

    /// The outcome of writing the values `slots` for `key` from outside the packet path.
    pub open spec fn insert_result(self, key: K, slots: Seq<Counter>) -> Result<
        (),
        TableWriteError,
    > {
        if slots.len() != self.num_cpus {
            Err(TableWriteError::SlotCount)
        } else if self.contains(key) || self.admits_new_key() {
            Ok(())
        } else {
            Err(TableWriteError::Full)
        }
    }

    /// The table after the values `slots` were written for `key`, which is
    /// created if the table does not hold it. A failed write changes nothing.
    pub open spec fn inserted(self, key: K, slots: Seq<Counter>) -> TableView<K> {
        if self.insert_result(key, slots) is Err {
            self
        } else if self.contains(key) {
            self.with_touched_row(key, slots)
        } else {
            self.with_new_row(Row { key, slots })
        }
    }

    /// The table after `key` was initialised with empty slots if it was absent.
    pub open spec fn zero_initialised(self, key: K) -> TableView<K> {
        if self.contains(key) {
            self
        } else {
            self.inserted(key, zero_slots(self.num_cpus))
        }
    }

    /// Whether a write of empty slots for `key` can take place.
    pub open spec fn accepts(self, key: K) -> bool {
        self.contains(key) || self.admits_new_key()
    }

    /// The table without the entry of `key`.
    pub open spec fn removed(self, key: K) -> TableView<K> {
        if self.contains(key) {
            TableView { rows: self.rows.remove(self.index_of(key)), ..self }
        } else {
            self
        }
    }

    /// The table without the entries of `keys`.
    pub open spec fn removed_all(self, keys: Seq<K>) -> TableView<K>
        decreases keys.len(),
    {
        if keys.len() == 0 {
            self
        } else {
            self.removed_all(keys.drop_last()).removed(keys.last())
        }
    }
}

impl TableView<u32> {
    /// The interface table after the write `init` was carried out: empty
    /// slots for the interface, where the table held no entry for it or
    /// where the entry is to be overwritten. A refused write changes nothing.
    pub open spec fn initialised(self, init: CounterInit) -> TableView<u32> {
        if init.overwrite {
            self.inserted(init.interface_index, zero_slots(self.num_cpus))
        } else {
            self.zero_initialised(init.interface_index)
        }
    }

    /// The interface table after the writes `inits` were carried out, in order.
    pub open spec fn initialised_all(self, inits: Seq<CounterInit>) -> TableView<u32>
        decreases inits.len(),
    {
        if inits.len() == 0 {
            self
        } else {
            self.initialised_all(inits.drop_last()).initialised(inits.last())
        }
    }
}

/// One packet for a key: the CPU that received it and its length in bytes.
pub struct Arrival {
    pub cpu: nat,
    pub len: u64,
}

/// The bytes of a sequence of packets, all together.
pub open spec fn arrival_bytes(arrivals: Seq<Arrival>) -> nat
    decreases arrivals.len(),
{
    if arrivals.len() == 0 {
        0
    } else {
        arrival_bytes(arrivals.drop_last()) + arrivals.last().len as nat
    }
}

impl<K> TableView<K> {
    /// The table after every packet of `arrivals` was counted for `key`, in order.
    pub open spec fn counted_all(self, key: K, arrivals: Seq<Arrival>) -> TableView<K>
        decreases arrivals.len(),
    {
        if arrivals.len() == 0 {
            self
        } else {
            self.counted_all(key, arrivals.drop_last()).counted(
                arrivals.last().cpu,
                key,
                arrivals.last().len,
            )
        }
    }
}

/// Entering a new key keeps the table well formed and gives the key its
/// slots. Every other key that is still held has its slots unchanged, and
/// while the table has room no key is lost.
pub proof fn lemma_with_new_row<K>(table: TableView<K>, row: Row<K>)
    requires
        table.inv(),
        table.admits_new_key(),
        !table.contains(row.key),
        row.slots.len() == table.num_cpus,
    ensures
        table.with_new_row(row).inv(),
        table.with_new_row(row).contains(row.key),
        table.with_new_row(row).slots_of(row.key) == row.slots,
        forall|other: K|
            other != row.key && #[trigger] table.with_new_row(row).contains(other)
                ==> table.contains(other) && table.with_new_row(row).slots_of(other)
                == table.slots_of(other),
        table.rows.len() < table.max_entries ==> forall|other: K|
            table.contains(other) ==> #[trigger] table.with_new_row(row).contains(other),
{
    let after = table.with_new_row(row);
    let shift: int = if table.rows.len() < table.max_entries { 0 } else { 1 };
    let last = after.rows.len() - 1;
    assert forall|i: int| 0 <= i < last implies #[trigger] after.rows[i] == table.rows[i
        + shift] by {}
    assert(after.rows[last] == row);
    assert forall|i: int, j: int| 0 <= i < j < after.rows.len() implies (
    #[trigger] after.rows[i]).key != (#[trigger] after.rows[j]).key by {
        assert(after.rows[i] == table.rows[i + shift]);
        if j < last {
            assert(after.rows[j] == table.rows[j + shift]);
        }
    }
    assert forall|i: int| 0 <= i < after.rows.len() implies (#[trigger] after.rows[i]).slots.len()
        == after.num_cpus by {
        if i < last {
            assert(after.rows[i] == table.rows[i + shift]);
        }
    }
    assert(after.contains(row.key));
    lemma_index_of(after, row.key, last);
    assert forall|other: K| other != row.key && #[trigger] after.contains(other) implies table.contains(
        other,
    ) && after.slots_of(other) == table.slots_of(other) by {
        let k = after.index_of(other);
        assert(after.rows[k].key == other);
        assert(after.rows[k] == table.rows[k + shift]);
        lemma_index_of(table, other, k + shift);
    }
    if table.rows.len() < table.max_entries {
        assert forall|other: K| table.contains(other) implies #[trigger] after.contains(other) by {
            let k = table.index_of(other);
            assert(table.rows[k].key == other);
            assert(after.rows[k] == table.rows[k]);
        }
    }
}

/// In a well-formed table a key has one place only.
pub proof fn lemma_index_of<K>(table: TableView<K>, key: K, i: int)
    requires
        table.inv(),
        0 <= i < table.rows.len(),
        table.rows[i].key == key,
    ensures
        table.contains(key),
        table.index_of(key) == i,
{
    let k = table.index_of(key);
    assert(table.rows[k].key == key);
}

/// Touching a key that the table holds keeps the table well formed, gives the
/// key its new slots, and leaves every other key and its slots as they were.
pub proof fn lemma_with_touched_row<K>(table: TableView<K>, key: K, slots: Seq<Counter>)
    requires
        table.inv(),
        table.contains(key),
        slots.len() == table.num_cpus,
    ensures
        table.with_touched_row(key, slots).inv(),
        table.with_touched_row(key, slots).contains(key),
        table.with_touched_row(key, slots).slots_of(key) == slots,
        forall|other: K|
            #[trigger] table.with_touched_row(key, slots).contains(other) == table.contains(other),
        forall|other: K|
            other != key && table.contains(other) ==> #[trigger] table.with_touched_row(
                key,
                slots,
            ).slots_of(other) == table.slots_of(other),
{
    let after = table.with_touched_row(key, slots);
    let at = table.index_of(key);
    assert(table.rows[at].key == key);
    let last = after.rows.len() - 1;
    assert forall|i: int| 0 <= i < last implies #[trigger] after.rows[i] == table.rows[if i
        < at {
        i
    } else {
        i + 1
    }] by {}
    assert(after.rows[last] == Row { key, slots });
    assert forall|i: int, j: int| 0 <= i < j < after.rows.len() implies (
    #[trigger] after.rows[i]).key != (#[trigger] after.rows[j]).key by {
        assert(after.rows[i] == table.rows[if i < at { i } else { i + 1 }]);
        if j < last {
            assert(after.rows[j] == table.rows[if j < at { j } else { j + 1 }]);
        }
    }
    assert forall|i: int| 0 <= i < after.rows.len() implies (#[trigger] after.rows[i]).slots.len()
        == after.num_cpus by {
        if i < last {
            assert(after.rows[i] == table.rows[if i < at { i } else { i + 1 }]);
        }
    }
    lemma_index_of(after, key, last);
    assert forall|other: K| #[trigger] after.contains(other) == table.contains(other) by {
        if after.contains(other) {
            let k = after.index_of(other);
            assert(after.rows[k].key == other);
            if k < last {
                assert(after.rows[k] == table.rows[if k < at { k } else { k + 1 }]);
            }
        }
        if table.contains(other) && other != key {
            let k = table.index_of(other);
            assert(table.rows[k].key == other);
            let to = if k < at { k } else { k - 1 };
            assert(after.rows[to] == table.rows[k]);
        }
    }
    assert forall|other: K| other != key && table.contains(other) implies #[trigger] after.slots_of(
        other,
    ) == table.slots_of(other) by {
        let k = table.index_of(other);
        assert(table.rows[k].key == other);
        let to = if k < at { k } else { k - 1 };
        assert(after.rows[to] == table.rows[k]);
        lemma_index_of(after, other, to);
    }
}

/// A CPU writes its own slot only: counting a packet on one CPU leaves the
/// slots of every other CPU, and every other key that the table still holds,
/// as they were.
pub proof fn lemma_only_own_slot_is_written<K>(table: TableView<K>, cpu: nat, key: K, len: u64)
    requires
        table.inv(),
        table.count_result(cpu, key) is Ok,
    ensures
        table.counted(cpu, key, len).inv(),
        table.counted(cpu, key, len).contains(key),
        table.counted(cpu, key, len).slots_of(key).len() == table.num_cpus,
        forall|other_cpu: int|
            0 <= other_cpu < table.num_cpus && other_cpu != cpu ==> #[trigger] table.counted(
                cpu,
                key,
                len,
            ).slots_of(key)[other_cpu] == (if table.contains(key) {
                table.slots_of(key)[other_cpu]
            } else {
                Counter { bytes: 0, packets: 0 }
            }),
        forall|other: K|
            other != key && #[trigger] table.counted(cpu, key, len).contains(other)
                ==> table.contains(other) && table.counted(cpu, key, len).slots_of(other)
                == table.slots_of(other),
{
    if table.contains(key) {
        let slots = table.slots_of(key);
        let at = table.index_of(key);
        assert(table.rows[at].key == key);
        lemma_with_touched_row(
            table,
            key,
            slots.update(cpu as int, slots[cpu as int].counted(len)),
        );
    } else {
        lemma_with_new_row(
            table,
            Row {
                key,
                slots: zero_slots(table.num_cpus).update(
                    cpu as int,
                    Counter { bytes: len, packets: 1 },
                ),
            },
        );
    }
}

/// No slot holds more packets or bytes than all slots together.
pub proof fn lemma_slot_within_sum(slots: Seq<Counter>, cpu: int)
    requires
        0 <= cpu < slots.len(),
    ensures
        slots[cpu].packets <= packet_sum(slots),
        slots[cpu].bytes <= byte_sum(slots),
    decreases slots.len(),
{
    if cpu < slots.len() - 1 {
        lemma_slot_within_sum(slots.drop_last(), cpu);
    }
}

/// The counts of a key are exact: after any sequence of packets to a key
/// that the table did not hold before, the slots of the key, summed over all
/// CPUs, hold the number of those packets and the number of their bytes.
/// This holds as long as both numbers fit their fields.
pub proof fn lemma_counts_are_exact<K>(table: TableView<K>, key: K, arrivals: Seq<Arrival>)
    requires
        table.inv(),
        !table.contains(key),
        table.admits_new_key(),
        arrivals.len() > 0,
        forall|i: int| 0 <= i < arrivals.len() ==> (#[trigger] arrivals[i]).cpu < table.num_cpus,
        arrivals.len() <= u32::MAX,
        arrival_bytes(arrivals) <= u64::MAX,
    ensures
        table.counted_all(key, arrivals).inv(),
        table.counted_all(key, arrivals).num_cpus == table.num_cpus,
        table.counted_all(key, arrivals).contains(key),
        packet_sum(table.counted_all(key, arrivals).slots_of(key)) == arrivals.len(),
        byte_sum(table.counted_all(key, arrivals).slots_of(key)) == arrival_bytes(arrivals),
        totals_of(table.counted_all(key, arrivals).slots_of(key)) == (Totals {
            packets: arrivals.len() as u64,
            bytes: arrival_bytes(arrivals) as u64,
        }),
    decreases arrivals.len(),
{
    let earlier = arrivals.drop_last();
    let packet = arrivals.last();
    let before = table.counted_all(key, earlier);
    assert(packet == arrivals[arrivals.len() - 1]);
    assert(packet.cpu < table.num_cpus);
    if earlier.len() == 0 {
        assert(before == table);
        let slots = zero_slots(table.num_cpus).update(
            packet.cpu as int,
            Counter { bytes: packet.len, packets: 1 },
        );
        lemma_with_new_row(table, Row { key, slots });
        lemma_zero_slots_sum(table.num_cpus);
        lemma_packet_sum_update(
            zero_slots(table.num_cpus),
            packet.cpu as int,
            Counter { bytes: packet.len, packets: 1 },
        );
        lemma_byte_sum_update(
            zero_slots(table.num_cpus),
            packet.cpu as int,
            Counter { bytes: packet.len, packets: 1 },
        );
        assert(arrival_bytes(earlier) == 0);
    } else {
        assert forall|i: int| 0 <= i < earlier.len() implies (#[trigger] earlier[i]).cpu
            < table.num_cpus by {
            assert(earlier[i] == arrivals[i]);
        }
        lemma_counts_are_exact(table, key, earlier);
        let slots = before.slots_of(key);
        let at = before.index_of(key);
        assert(before.rows[at].key == key);
        assert(slots.len() == before.num_cpus);
        let cpu = packet.cpu as int;
        lemma_slot_within_sum(slots, cpu);
        let updated = slots.update(cpu, slots[cpu].counted(packet.len));
        lemma_with_touched_row(before, key, updated);
        lemma_packet_sum_update(slots, cpu, slots[cpu].counted(packet.len));
        lemma_byte_sum_update(slots, cpu, slots[cpu].counted(packet.len));
    }
}

/// One entry of a table.
#[derive(Debug)]
pub struct TableRow<K> {
    key: K,
    slots: Vec<Counter>,
}

impl<K> View for TableRow<K> {
    type V = Row<K>;

    closed spec fn view(&self) -> Row<K> {
        Row { key: self.key, slots: self.slots@ }
    }
}

/// The views of a list of entries.
pub open spec fn row_views<K>(rows: Seq<TableRow<K>>) -> Seq<Row<K>> {
    rows.map_values(|r: TableRow<K>| r@)
}

/// What the aggregator takes from the entries of a table, read in order.
pub open spec fn row_observations<K>(rows: Seq<Row<K>>) -> Seq<Observation<K>> {
    rows.map_values(|r: Row<K>| Observation { key: r.key, totals: Some(totals_of(r.slots)) })
}

/// Whether `readings` holds the entries `rows`, in order.
pub open spec fn readings_match<K>(readings: Seq<Reading<K>>, rows: Seq<Row<K>>) -> bool {
    &&& readings.len() == rows.len()
    &&& forall|i: int|
        0 <= i < rows.len() ==> (#[trigger] readings[i]).key == rows[i].key && (
        readings[i].slots matches Some(slots) && slots@ == rows[i].slots)
}

/// A bounded per-CPU counter table.
#[derive(Debug)]
pub struct PerCpuTable<K> {
    rows: Vec<TableRow<K>>,
    max_entries: usize,
    num_cpus: usize,
    evicts: bool,
}

impl<K> View for PerCpuTable<K> {
    type V = TableView<K>;

    closed spec fn view(&self) -> TableView<K> {
        TableView {
            rows: row_views(self.rows@),
            max_entries: self.max_entries as nat,
            num_cpus: self.num_cpus as nat,
            evicts: self.evicts,
        }
    }
}

/// Copies a per-CPU array.
fn copy_slots(slots: &Vec<Counter>) -> (copy: Vec<Counter>)
    ensures
        copy@ == slots@,
{
    let mut copy: Vec<Counter> = Vec::new();
    let mut i: usize = 0;
    while i < slots.len()
        invariant
            i <= slots.len(),
            copy@ == slots@.take(i as int),
        decreases slots.len() - i,
    {
        copy.push(slots[i]);
        i += 1;
        assert(copy@ =~= slots@.take(i as int));
    }
    assert(slots@.take(slots.len() as int) =~= slots@);
    copy
}

impl PerCpuTable<u32> {
    /// Carries out a write to the counter entry of an interface.
    pub fn initialise(&mut self, init: CounterInit) -> (result: Result<(), TableWriteError>)
        requires
            old(self).wf(),
        ensures
            final(self).wf(),
            final(self)@ == old(self)@.initialised(init),
            result == (if old(self)@.accepts(init.interface_index) {
                Ok::<(), TableWriteError>(())
            } else {
                Err::<(), TableWriteError>(TableWriteError::Full)
            }),
    {
        let present = self.position(&init.interface_index).is_some();
        match init.slots(present, self.num_cpus) {
            None => Ok(()),
            Some(slots) => self.insert(init.interface_index, slots),
        }
    }
}

impl<K: TableKey> PerCpuTable<K> {
    /// The table's invariant holds.
    pub closed spec fn wf(&self) -> bool {
        self@.inv()
    }

    /// A well-formed table has a well-formed view.
    pub proof fn lemma_view_inv(&self)
        requires
            self.wf(),
        ensures
            self@.inv(),
    {
    }

    /// An empty table for at most `max_entries` keys with `num_cpus` slots
    /// each. With `evicts`, a new key pushes out the least recently touched
    /// one once the table is full; without, it is refused.
    pub fn new(max_entries: usize, num_cpus: usize, evicts: bool) -> (table: PerCpuTable<K>)
        ensures
            table.wf(),
            table@ == (TableView::<K> {
                rows: Seq::empty(),
                max_entries: max_entries as nat,
                num_cpus: num_cpus as nat,
                evicts,
            }),
    {
        let table = PerCpuTable { rows: Vec::new(), max_entries, num_cpus, evicts };
        proof {
            assert(table@.rows =~= Seq::empty());
        }
        table
    }

    /// Where `key` is held, if it is.
    fn position(&self, key: &K) -> (r: Option<usize>)
        requires
            self.wf(),
        ensures
            match r {
                Some(i) => i < self.rows.len() && self@.contains(*key) && self@.index_of(*key)
                    == i,
                None => !self@.contains(*key),
            },
    {
        let mut i: usize = 0;
        while i < self.rows.len()
            invariant
                self.wf(),
                i <= self.rows.len(),
                forall|j: int| 0 <= j < i ==> (#[trigger] self@.rows[j]).key != *key,
            decreases self.rows.len() - i,
        {
            if self.rows[i].key.same(key) {
                proof {
                    assert(self@.rows[i as int].key == *key);
                    let k = self@.index_of(*key);
                    assert(self@.rows[k].key == *key);
                }
                return Some(i);
            }
            i += 1;
        }
        None
    }

    /// Enters a row whose key the table does not hold, if it can be entered.
    fn enter(&mut self, key: K, slots: Vec<Counter>) -> (result: Result<(), TableWriteError>)
        requires
            old(self).wf(),
            !old(self)@.contains(key),
            slots@.len() == old(self)@.num_cpus,
        ensures
            final(self).wf(),
            result == (if old(self)@.admits_new_key() {
                Ok::<(), TableWriteError>(())
            } else {
                Err::<(), TableWriteError>(TableWriteError::Full)
            }),
            result is Ok ==> final(self)@ == old(self)@.with_new_row(Row { key, slots: slots@ }),
            result is Err ==> final(self)@ == old(self)@,
    {
        let ghost before = self@;
        let ghost row = Row { key, slots: slots@ };
        if self.rows.len() >= self.max_entries {
            if !self.evicts || self.max_entries == 0 {
                return Err(TableWriteError::Full);
            }
            self.rows.remove(0);
            proof {
                assert(self@.rows =~= before.rows.remove(0));
            }
        }
        let ghost middle = self@;
        self.rows.push(TableRow { key, slots });
        proof {
            assert(self@.rows =~= middle.rows.push(row));
            lemma_with_new_row(before, row);
        }
        Ok(())
    }

    /// Gives the entry at `i` the slots `slots` and makes it the most recently touched one.
    fn touch(&mut self, i: usize, slots: Vec<Counter>)
        requires
            old(self).wf(),
            i < old(self).rows.len(),
            slots@.len() == old(self)@.num_cpus,
        ensures
            final(self).wf(),
            final(self)@ == old(self)@.with_touched_row(old(self)@.rows[i as int].key, slots@),
    {
        let ghost before = self@;
        let ghost key = before.rows[i as int].key;
        proof {
            let k = before.index_of(key);
            assert(before.rows[k].key == key);
        }
        let row = self.rows.remove(i);
        proof {
            assert(self@.rows =~= before.rows.remove(i as int));
        }
        let ghost middle = self@;
        self.rows.push(TableRow { key: row.key, slots });
        proof {
            assert(self@.rows =~= middle.rows.push(Row { key, slots: slots@ }));
            lemma_with_touched_row(before, key, slots@);
        }
    }

    /// Counts one packet of `len` bytes for `key`, received on the CPU `cpu`.
    /// Only that CPU's slot is written.
    pub fn count(&mut self, cpu: usize, key: K, len: u64) -> (result: Result<(), TableWriteError>)
        requires
            old(self).wf(),
        ensures
            final(self).wf(),
            result == old(self)@.count_result(cpu as nat, key),
            final(self)@ == old(self)@.counted(cpu as nat, key, len),
    {
        if cpu >= self.num_cpus {
            return Err(TableWriteError::NoSuchCpu);
        }
        match self.position(&key) {
            Some(i) => {
                let mut slots = copy_slots(&self.rows[i].slots);
                proof {
                    assert(self@.rows[i as int].slots == slots@);
                }
                let updated = Counter::count(Some(slots[cpu]), len);
                slots[cpu] = updated;
                self.touch(i, slots);
                Ok(())
            },
            None => {
                let mut slots = zeroed_slots(self.num_cpus);
                slots[cpu] = Counter::count(None, len);
                self.enter(key, slots)
            },
        }
    }

    /// Reads the per-CPU slots of `key`.
    pub fn get(&self, key: &K) -> (slots: Option<Vec<Counter>>)
        requires
            self.wf(),
        ensures
            match slots {
                Some(slots) => self@.contains(*key) && slots@ == self@.slots_of(*key),
                None => !self@.contains(*key),
            },
    {
        match self.position(key) {
            Some(i) => {
                let slots = copy_slots(&self.rows[i].slots);
                proof {
                    assert(self@.rows[i as int].slots == slots@);
                }
                Some(slots)
            },
            None => None,
        }
    }

    /// Writes the values of `key` from outside the packet path; the key is
    /// created if the table does not hold it.
    pub fn insert(&mut self, key: K, slots: Vec<Counter>) -> (result: Result<(), TableWriteError>)
        requires
            old(self).wf(),
        ensures
            final(self).wf(),
            result == old(self)@.insert_result(key, slots@),
            final(self)@ == old(self)@.inserted(key, slots@),
    {
        if slots.len() != self.num_cpus {
            return Err(TableWriteError::SlotCount);
        }
        match self.position(&key) {
            Some(i) => {
                self.touch(i, slots);
                Ok(())
            },
            None => self.enter(key, slots),
        }
    }

    /// Initialises `key` with empty slots if the table does not hold it.
    pub fn zero_initialise(&mut self, key: K) -> (result: Result<(), TableWriteError>)
        requires
            old(self).wf(),
        ensures
            final(self).wf(),
            final(self)@ == old(self)@.zero_initialised(key),
            result == (if old(self)@.contains(key) || old(self)@.admits_new_key() {
                Ok::<(), TableWriteError>(())
            } else {
                Err::<(), TableWriteError>(TableWriteError::Full)
            }),
    {
        let present = self.position(&key).is_some();
        match initial_slots(present, self.num_cpus) {
            None => Ok(()),
            Some(slots) => self.insert(key, slots),
        }
    }

    /// Deletes the entry of `key`. Returns whether there was one; deleting an
    /// absent key changes nothing.
    pub fn remove(&mut self, key: &K) -> (found: bool)
        requires
            old(self).wf(),
        ensures
            final(self).wf(),
            found == old(self)@.contains(*key),
            final(self)@ == old(self)@.removed(*key),
            !final(self)@.contains(*key),
            forall|other: K| #[trigger] final(self)@.contains(other) ==> old(self)@.contains(other),
    {
        let ghost before = self@;
        match self.position(key) {
            Some(i) => {
                self.rows.remove(i);
                proof {
                    assert(self@.rows =~= before.rows.remove(i as int));
                    assert forall|a: int| 0 <= a < self@.rows.len() implies (
                    #[trigger] self@.rows[a]) == before.rows[if a < i { a } else { a + 1 }] by {}
                    assert forall|a: int, b: int| 0 <= a < b < self@.rows.len() implies (
                    #[trigger] self@.rows[a]).key != (#[trigger] self@.rows[b]).key by {
                        assert(self@.rows[a] == before.rows[if a < i { a } else { a + 1 }]);
                        assert(self@.rows[b] == before.rows[if b < i { b } else { b + 1 }]);
                    }
                    assert forall|a: int| 0 <= a < self@.rows.len() implies (
                    #[trigger] self@.rows[a]).slots.len() == self@.num_cpus by {
                        assert(self@.rows[a] == before.rows[if a < i { a } else { a + 1 }]);
                    }
                    if self@.contains(*key) {
                        let k = self@.index_of(*key);
                        assert(self@.rows[k].key == *key);
                        assert(self@.rows[k] == before.rows[if k < i { k } else { k + 1 }]);
                    }
                    assert forall|other: K| #[trigger] self@.contains(other) implies before.contains(
                        other,
                    ) by {
                        let k = self@.index_of(other);
                        assert(self@.rows[k].key == other);
                        assert(self@.rows[k] == before.rows[if k < i { k } else { k + 1 }]);
                    }
                }
                true
            },
            None => false,
        }
    }

    /// Reads every entry of the table, in its order.
    pub fn readings(&self) -> (readings: Vec<Reading<K>>)
        requires
            self.wf(),
        ensures
            readings_match(readings@, self@.rows),
            observations(readings@) == row_observations(self@.rows),
    {
        let mut readings: Vec<Reading<K>> = Vec::new();
        let mut i: usize = 0;
        while i < self.rows.len()
            invariant
                i <= self.rows.len(),
                readings_match(readings@, self@.rows.take(i as int)),
            decreases self.rows.len() - i,
        {
            let slots = copy_slots(&self.rows[i].slots);
            let ghost before = readings@;
            readings.push(Reading { key: self.rows[i].key, slots: Some(slots) });
            proof {
                let rows = self@.rows.take(i + 1);
                assert forall|j: int| 0 <= j < rows.len() implies (#[trigger] readings@[j]).key
                    == rows[j].key && (readings@[j].slots matches Some(slots) && slots@
                    == rows[j].slots) by {
                    if j < i {
                        assert(readings@[j] == before[j]);
                        assert(rows[j] == self@.rows.take(i as int)[j]);
                    } else {
                        assert(rows[j] == self.rows[i as int]@);
                    }
                }
            }
            i += 1;
        }
        proof {
            assert(self@.rows.take(self.rows.len() as int) =~= self@.rows);
            assert(observations(readings@) =~= row_observations(self@.rows));
        }
        readings
    }

    /// The number of entries.
    pub fn len(&self) -> (n: usize)
        ensures
            n == self@.rows.len(),
    {
        self.rows.len()
    }

    /// The maximum number of entries.
    pub fn max_entries(&self) -> (n: usize)
        ensures
            n == self@.max_entries,
    {
        self.max_entries
    }

    /// The number of slots of every entry.
    pub fn num_cpus(&self) -> (n: usize)
        ensures
            n == self@.num_cpus,
    {
        self.num_cpus
    }
}

} // verus!
