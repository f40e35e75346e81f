//! Properties that relate the interface model to the interface table.

use vstd::prelude::*;
use crate::counter::{lemma_zero_slots_sum, totals_of, zero_slots, CounterInit, Totals};
use crate::network_interface::{
    lemma_with_state, InterfaceState, LinkHandle, NetworkInterfaceModelView,
};
use crate::series::zero_point;
use crate::table::{
    lemma_only_own_slot_is_written, lemma_with_new_row, lemma_with_touched_row, Row, TableView,
};

verus! {

/// A write to the counter entry of an interface that the table accepts
/// leaves the table well formed with an entry for the interface: empty
/// slots where the table held none or where the entry is overwritten, the
/// slots it had otherwise.
pub proof fn lemma_initialised(table: TableView<u32>, init: CounterInit)
    requires
        table.inv(),
        table.accepts(init.interface_index),
    ensures
        table.initialised(init).inv(),
        table.initialised(init).contains(init.interface_index),
        table.initialised(init).num_cpus == table.num_cpus,
        table.initialised(init).slots_of(init.interface_index) == (if init.overwrite
            || !table.contains(init.interface_index) {
            zero_slots(table.num_cpus)
        } else {
            table.slots_of(init.interface_index)
        }),
{
    let index = init.interface_index;
    if table.contains(index) {
        if init.overwrite {
            lemma_with_touched_row(table, index, zero_slots(table.num_cpus));
        }
    } else {
        lemma_with_new_row(table, Row { key: index, slots: zero_slots(table.num_cpus) });
    }
}

/// Whether the interface table holds a counter for every known interface
/// and for no other.
pub open spec fn holds_the_known_interfaces(
    table: TableView<u32>,
    model: NetworkInterfaceModelView,
) -> bool {
    forall|index: u32| #[trigger] table.contains(index) <==> model.knows(index)
}

/// The interface table keeps its keys: once it holds a counter for every
/// known interface and for no other, a packet on a known interface is
/// counted without a failure and leaves the set of keys as it was.
pub proof fn lemma_interface_table_keeps_its_keys(
    table: TableView<u32>,
    model: NetworkInterfaceModelView,
    cpu: nat,
    index: u32,
    len: u64,
)
    requires
        table.inv(),
        holds_the_known_interfaces(table, model),
        model.knows(index),
        cpu < table.num_cpus,
    ensures
        table.count_result(cpu, index) is Ok,
        table.counted(cpu, index, len).inv(),
        table.counted(cpu, index, len).rows.len() == table.rows.len(),
        holds_the_known_interfaces(table.counted(cpu, index, len), model),
{
    assert(table.contains(index));
    lemma_only_own_slot_is_written(table, cpu, index, len);
    let after = table.counted(cpu, index, len);
    let at = table.index_of(index);
    assert(table.rows[at].key == index);
    assert forall|other: u32| #[trigger] after.contains(other) <==> model.knows(other) by {
        if other != index && table.contains(other) {
            let slots = table.slots_of(index);
            lemma_with_touched_row(
                table,
                index,
                slots.update(cpu as int, slots[cpu as int].counted(len)),
            );
        }
    }
}

/// Whether the table has room for an entry for every known interface.
pub open spec fn has_room_for(table: TableView<u32>, model: NetworkInterfaceModelView) -> bool {
    table.rows.len() + model.interfaces.len() <= table.max_entries
}

/// The writes that the startup hands back for the first `n` interfaces,
/// carried out on a table with room for them, give each of these interfaces
/// an entry, with empty slots where the table held none, and leave every
/// entry that the table held as it was.
proof fn lemma_startup_writes(model: NetworkInterfaceModelView, table: TableView<u32>, n: int)
    requires
        model.inv(),
        table.inv(),
        has_room_for(table, model),
        0 <= n <= model.interfaces.len(),
    ensures
        ({
            let after = table.initialised_all(model.startup_inits().take(n));
            &&& after.inv()
            &&& after.num_cpus == table.num_cpus
            &&& after.max_entries == table.max_entries
            &&& after.rows.len() <= table.rows.len() + n
            &&& forall|key: u32|
                table.contains(key) ==> #[trigger] after.contains(key) && after.slots_of(key)
                    == table.slots_of(key)
            &&& forall|key: u32|
                #[trigger] after.contains(key) ==> table.contains(key) || exists|i: int|
                    0 <= i < n && (#[trigger] model.interfaces[i]).index == key
            &&& forall|i: int|
                0 <= i < n ==> after.contains((#[trigger] model.interfaces[i]).index) && (
                !table.contains(model.interfaces[i].index) ==> after.slots_of(
                    model.interfaces[i].index,
                ) == zero_slots(table.num_cpus))
        }),
    decreases n,
{
    let inits = model.startup_inits().take(n);
    if n > 0 {
        lemma_startup_writes(model, table, n - 1);
        assert(inits.drop_last() =~= model.startup_inits().take(n - 1));
        let before = table.initialised_all(inits.drop_last());
        let index = model.interfaces[n - 1].index;
        let init = CounterInit { interface_index: index, overwrite: false };
        assert(inits.last() == init);
        let after = before.initialised(init);
        assert(after == table.initialised_all(inits));
        if before.contains(index) {
            if !table.contains(index) {
                let i = choose|i: int| 0 <= i < n - 1 && (#[trigger] model.interfaces[i]).index == index;
                assert(model.interfaces[i].index < model.interfaces[n - 1].index);
            }
        } else {
            lemma_with_new_row(before, Row { key: index, slots: zero_slots(before.num_cpus) });
            assert forall|key: u32| table.contains(key) implies #[trigger] after.contains(key)
                && after.slots_of(key) == table.slots_of(key) by {
                assert(before.contains(key));
            }
            assert forall|i: int| 0 <= i < n implies after.contains(
                (#[trigger] model.interfaces[i]).index,
            ) && (!table.contains(model.interfaces[i].index) ==> after.slots_of(
                model.interfaces[i].index,
            ) == zero_slots(table.num_cpus)) by {
                if i < n - 1 {
                    assert(model.interfaces[i].index < model.interfaces[n - 1].index);
                    assert(before.contains(model.interfaces[i].index));
                }
            }
        }
    } else {
        assert(inits =~= Seq::empty());
    }
}

/// After the startup every known interface has a counter entry: the
/// writes that the startup hands back, carried out on a table with room for
/// them, give an interface empty slots where the table held no entry for
/// it, and leave the entry as it was otherwise.
pub proof fn lemma_startup_initialises_every_interface(
    model: NetworkInterfaceModelView,
    table: TableView<u32>,
    index: u32,
)
    requires
        model.inv(),
        table.inv(),
        has_room_for(table, model),
        model.knows(index),
    ensures
        table.initialised_all(model.startup_inits()).inv(),
        table.initialised_all(model.startup_inits()).contains(index),
        table.initialised_all(model.startup_inits()).slots_of(index) == (if table.contains(index) {
            table.slots_of(index)
        } else {
            zero_slots(table.num_cpus)
        }),
{
    let n = model.interfaces.len() as int;
    lemma_startup_writes(model, table, n);
    assert(model.startup_inits().take(n) =~= model.startup_inits());
    let at = model.index_of(index);
    assert(model.interfaces[at].index == index);
}

/// Attaching, detaching and attaching again, each followed by the write to
/// the counter entry that it hands back, leaves the interface attached with
/// nothing counted: its cumulative totals are zero, both series hold the
/// zero point alone, and its counter entry holds empty slots, whatever was
/// counted before. The table must accept a write for the interface.
pub proof fn lemma_reattach_starts_from_zero(
    model: NetworkInterfaceModelView,
    table: TableView<u32>,
    index: u32,
    first: LinkHandle,
    second: LinkHandle,
)
    requires
        model.inv(),
        model.knows(index),
        table.inv(),
        table.accepts(index),
    ensures
        ({
            let attached = model.after_attach(index, Some(first));
            let detached = attached.after_detach(index, true);
            let again = detached.after_attach(index, Some(second));
            let first_write = model.attach_result(index, Some(first));
            let reset = attached.detach_result(index, true);
            let second_write = detached.attach_result(index, Some(second));
            let counters = table.initialised(first_write->Ok_0).initialised(
                reset->Ok_0,
            ).initialised(second_write->Ok_0);
            &&& first_write is Ok
            &&& reset is Ok
            &&& second_write is Ok
            &&& again.inv()
            &&& again.state_of(index).link == Some(second)
            &&& again.state_of(index).entity.packets == 0
            &&& again.state_of(index).entity.bytes == 0
            &&& again.state_of(index).entity.packet_series == seq![zero_point()]
            &&& again.state_of(index).entity.byte_series == seq![zero_point()]
            &&& counters.inv()
            &&& counters.contains(index)
            &&& counters.slots_of(index) == zero_slots(table.num_cpus)
            &&& totals_of(counters.slots_of(index)) == (Totals { packets: 0, bytes: 0 })
        }),
{
    let state = model.state_of(index);
    let at = model.index_of(index);
    assert(model.interfaces[at].index == index);
    let state1 = InterfaceState { link: Some(first), ..state };
    lemma_with_state(model, index, state1);
    let attached = model.after_attach(index, Some(first));
    let state2 = InterfaceState { link: None, entity: state1.entity.cleared(), ..state1 };
    lemma_with_state(attached, index, state2);
    let detached = attached.after_detach(index, true);
    let state3 = InterfaceState { link: Some(second), ..state2 };
    lemma_with_state(detached, index, state3);
    let write = CounterInit { interface_index: index, overwrite: false };
    let reset = CounterInit { interface_index: index, overwrite: true };
    lemma_initialised(table, write);
    let once = table.initialised(write);
    lemma_initialised(once, reset);
    lemma_initialised(once.initialised(reset), write);
    lemma_zero_slots_sum(table.num_cpus);
}

} // verus!
