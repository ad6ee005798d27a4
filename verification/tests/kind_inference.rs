use lark_type_check::intern::TyInterners;
use lark_type_check::kind_inference::{classify_rows, inference, saturate};
use lark_type_check::ty::{Node, Perm, PermData, PermKind, PermVar, Placeholder, Universe, BoundVar};

fn node(index: u32) -> Node {
    Node { index }
}

fn inferred(tables: &mut TyInterners, index: u32) -> Perm {
    tables.intern_perm(PermData::Inferred(PermVar { index }))
}

#[test]
fn own_flows_along_a_chain() {
    let mut tables = TyInterners::new();
    let own = tables.intern_perm(PermData::Known(PermKind::Own));
    let near = inferred(&mut tables, 2);
    let far = inferred(&mut tables, 3);
    let base = vec![(own, near, node(0)), (near, far, node(1))];
    let kinds = inference(&mut tables, &base, &[]);
    assert_eq!(kinds.get(PermVar { index: 2 }), Some(PermKind::Own));
    assert_eq!(kinds.get(PermVar { index: 3 }), Some(PermKind::Own));
    assert_eq!(kinds.len(), 2);
}

#[test]
fn an_unproven_guard_activates_nothing() {
    let mut tables = TyInterners::new();
    let pc = inferred(&mut tables, 0);
    let pa = inferred(&mut tables, 1);
    let pb = inferred(&mut tables, 2);
    let guarded = vec![(pc, pa, pb, node(0))];
    let kinds = inference(&mut tables, &[], &guarded);
    assert_eq!(kinds.len(), 0);
    assert_eq!(kinds.get(PermVar { index: 0 }), None);
    assert_eq!(kinds.get(PermVar { index: 1 }), None);
    assert_eq!(kinds.get(PermVar { index: 2 }), None);
}

#[test]
fn borrow_flows_and_own_wins() {
    let mut tables = TyInterners::new();
    let own = tables.intern_perm(PermData::Known(PermKind::Own));
    let borrow = tables.intern_perm(PermData::Known(PermKind::Borrow));
    let a = inferred(&mut tables, 10);
    let b = inferred(&mut tables, 11);
    let c = inferred(&mut tables, 12);
    // borrow <= a, a <= b, own <= b, c untouched
    let base = vec![(borrow, a, node(0)), (a, b, node(1)), (own, b, node(2))];
    let kinds = inference(&mut tables, &base, &[]);
    assert_eq!(kinds.get(PermVar { index: 10 }), Some(PermKind::Borrow));
    assert_eq!(kinds.get(PermVar { index: 11 }), Some(PermKind::Own));
    assert_eq!(kinds.get(PermVar { index: 12 }), None);
    assert_eq!(tables.untern_perm(c), PermData::Inferred(PermVar { index: 12 }));
    // listed by permission key
    assert_eq!(kinds.entry(0), (PermVar { index: 10 }, PermKind::Borrow));
    assert_eq!(kinds.entry(1), (PermVar { index: 11 }, PermKind::Own));
}

#[test]
fn guard_that_is_borrowed_activates_its_edge() {
    let mut tables = TyInterners::new();
    let own = tables.intern_perm(PermData::Known(PermKind::Own));
    let borrow = tables.intern_perm(PermData::Known(PermKind::Borrow));
    let guard = inferred(&mut tables, 0);
    let from = inferred(&mut tables, 1);
    let to = inferred(&mut tables, 2);
    let base = vec![(borrow, guard, node(0)), (own, from, node(1))];
    let guarded = vec![(guard, from, to, node(2))];
    let kinds = inference(&mut tables, &base, &guarded);
    assert_eq!(kinds.get(PermVar { index: 0 }), Some(PermKind::Borrow));
    assert_eq!(kinds.get(PermVar { index: 1 }), Some(PermKind::Own));
    assert_eq!(kinds.get(PermVar { index: 2 }), Some(PermKind::Own));
}

#[test]
fn known_and_placeholder_permissions_are_not_listed() {
    let mut tables = TyInterners::new();
    let own = tables.intern_perm(PermData::Known(PermKind::Own));
    let share = tables.intern_perm(PermData::Known(PermKind::Share));
    let rigid = tables.intern_perm(PermData::Placeholder(Placeholder {
        universe: Universe { depth: 1 },
        bound_var: BoundVar { index: 0 },
    }));
    let base = vec![(own, share, node(0)), (own, rigid, node(1))];
    let kinds = inference(&mut tables, &base, &[]);
    assert_eq!(kinds.len(), 0);
}

#[test]
fn inference_twice_gives_the_same_map() {
    let mut tables = TyInterners::new();
    let a = inferred(&mut tables, 1);
    let b = inferred(&mut tables, 2);
    let own = tables.intern_perm(PermData::Known(PermKind::Own));
    let base = vec![(own, a, node(0)), (a, b, node(1))];
    let first = inference(&mut tables, &base, &[]);
    let count = tables.perm_count();
    let second = inference(&mut tables, &base, &[]);
    assert_eq!(tables.perm_count(), count);
    assert_eq!(first.len(), second.len());
    for i in 0..first.len() {
        assert_eq!(first.entry(i), second.entry(i));
    }
}

#[test]
fn saturate_sorts_and_drops_repeated_rows() {
    let (borrow, owned) = saturate(
        vec![(5, 3), (5, 3), (3, 1)],
        vec![(1, (7, 9))],
        vec![5, 5],
        vec![7],
    );
    // 5 -> 3 -> 1 are borrowed; the guard 1 activates 7 <= 9; 7 is not borrowed
    assert_eq!(borrow, vec![1, 3, 5]);
    assert_eq!(owned, vec![7, 9]);
}

#[test]
fn classify_rows_appends_owned_keys_that_were_not_borrowed() {
    let mut tables = TyInterners::new();
    let a = inferred(&mut tables, 1);
    let b = inferred(&mut tables, 2);
    let kinds = classify_rows(&tables, &vec![a.index], &vec![b.index]);
    assert_eq!(kinds.entry(0), (PermVar { index: 1 }, PermKind::Borrow));
    assert_eq!(kinds.entry(1), (PermVar { index: 2 }, PermKind::Own));
}
