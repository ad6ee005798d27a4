use lark_type_check::kind_map::KindMap;
use lark_type_check::results::{Error, TypeCheckResults};
use lark_type_check::ty::{Base, Entity, Node, Perm, PermKind, PermVar, Ty};

fn ty(base: u32) -> Ty {
    Ty { perm: Perm { index: 0 }, base: Base { index: base } }
}

#[test]
fn results_keep_what_is_recorded() {
    let mut results = TypeCheckResults::default();
    assert_eq!(results, TypeCheckResults::new());
    assert_eq!(results.get_ty(Node { index: 3 }), None);
    results.record_ty(Node { index: 3 }, ty(7));
    results.record_ty(Node { index: 1 }, ty(8));
    results.record_entity(Node { index: 3 }, Entity { index: 9 });
    results.record_error(Node { index: 1 });
    results.record_error(Node { index: 0 });
    assert_eq!(results.ty(Node { index: 3 }), ty(7));
    assert_eq!(results.ty(Node { index: 1 }), ty(8));
    assert_eq!(results.get_ty(Node { index: 2 }), None);
    assert_eq!(results.entity(Node { index: 3 }), Some(Entity { index: 9 }));
    assert_eq!(results.entity(Node { index: 1 }), None);
    assert_eq!(results.error_count(), 2);
    assert_eq!(results.error(0), Error { location: Node { index: 1 } });
    assert_eq!(results.error(1), Error { location: Node { index: 0 } });
    assert_ne!(results.clone(), TypeCheckResults::new());
}

#[test]
fn a_kind_map_keeps_the_order_of_first_insertion() {
    let mut map = KindMap::new();
    map.insert(PermVar { index: 5 }, PermKind::Borrow);
    map.insert(PermVar { index: 2 }, PermKind::Borrow);
    map.insert(PermVar { index: 5 }, PermKind::Own);
    assert_eq!(map.len(), 2);
    assert_eq!(map.entry(0), (PermVar { index: 5 }, PermKind::Own));
    assert_eq!(map.entry(1), (PermVar { index: 2 }, PermKind::Borrow));
    assert_eq!(map.get(PermVar { index: 2 }), Some(PermKind::Borrow));
    assert_eq!(map.get(PermVar { index: 3 }), None);
}
