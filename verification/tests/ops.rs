use lark_type_check::ops::{Op, Scheduler};
use lark_type_check::ty::{Base, Node, Perm, Ty};
use lark_type_check::unify::UnificationTable;

fn op(name: u32) -> Op {
    let ty = Ty { perm: Perm { index: 0 }, base: Base { index: 0 } };
    Op::FieldAccess { owner: ty, name, target: ty, cause: Node { index: name } }
}

#[test]
fn operations_are_released_in_the_order_of_registration() {
    let mut table = UnificationTable::new();
    let v = table.new_variable();
    let mut scheduler = Scheduler::new();
    let first = scheduler.suspend(&table, &vec![v], op(1)).unwrap();
    let second = scheduler.suspend(&table, &vec![v], op(2)).unwrap();
    let third = scheduler.suspend(&table, &vec![v], op(3)).unwrap();
    assert_eq!(scheduler.blocked_count(v), 3);
    table.assign(v, Base { index: 5 }).unwrap();
    let ready = scheduler.trigger(&table, v);
    assert_eq!(ready, vec![(first, op(1)), (second, op(2)), (third, op(3))]);
    assert_eq!(scheduler.released(), 3);
    assert_eq!(scheduler.issued(), 3);
    assert_eq!(scheduler.blocked_count(v), 0);
}

#[test]
fn an_operation_on_two_variables_runs_once() {
    let mut table = UnificationTable::new();
    let v = table.new_variable();
    let w = table.new_variable();
    let mut scheduler = Scheduler::new();
    let both = scheduler.suspend(&table, &vec![v, w], op(1)).unwrap();
    let only_w = scheduler.suspend(&table, &vec![w], op(2)).unwrap();
    table.assign(v, Base { index: 5 }).unwrap();
    assert_eq!(scheduler.trigger(&table, v), vec![(both, op(1))]);
    table.assign(w, Base { index: 6 }).unwrap();
    // the entry of the first operation is stale by now
    assert_eq!(scheduler.trigger(&table, w), vec![(only_w, op(2))]);
    assert_eq!(scheduler.trigger(&table, w), vec![]);
    assert_eq!(scheduler.released(), 2);
}

#[test]
fn a_resolved_variable_is_not_registered_against() {
    let mut table = UnificationTable::new();
    let v = table.new_variable();
    let w = table.new_variable();
    table.assign(v, Base { index: 5 }).unwrap();
    let mut scheduler = Scheduler::new();
    let at = scheduler.suspend(&table, &vec![v, w], op(1)).unwrap();
    assert_eq!(scheduler.blocked_count(v), 0);
    assert_eq!(scheduler.blocked_count(w), 1);
    assert_eq!(scheduler.trigger(&table, v), vec![]);
    table.assign(w, Base { index: 5 }).unwrap();
    assert_eq!(scheduler.trigger(&table, w), vec![(at, op(1))]);
}

#[test]
fn an_index_is_not_handed_out_again_after_its_release() {
    let mut table = UnificationTable::new();
    let v = table.new_variable();
    let w = table.new_variable();
    let mut scheduler = Scheduler::new();
    let first = scheduler.suspend(&table, &vec![v, w], op(1)).unwrap();
    table.assign(v, Base { index: 5 }).unwrap();
    assert_eq!(scheduler.trigger(&table, v), vec![(first, op(1))]);
    // the slot is free again, but the new index differs from the stale one
    let second = scheduler.suspend(&table, &vec![w], op(2)).unwrap();
    assert_ne!(first, second);
    table.assign(w, Base { index: 6 }).unwrap();
    assert_eq!(scheduler.trigger(&table, w), vec![(second, op(2))]);
}
