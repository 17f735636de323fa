//! Objects, capability tables, grants and revocations.

use lythos::cap::{
    cap_cascade_revoke, cap_grant, cap_inherit, cap_revoke, create_object, create_root_cap,
    destroy_object, get_object, CapError, CapHandle, CapIds, CapKind, CapRights, CapSpace,
    Capability, CapabilityTable, KernelObject, KernelObjectRef, KoTable, TaskCaps,
};

fn all() -> CapRights {
    CapRights(CapRights::ALL)
}

fn plain(id: u64, kind: CapKind, rights: u8) -> Capability {
    Capability {
        id,
        kind,
        rights: CapRights(rights),
        object: KernelObjectRef(0),
        parent_id: None,
        children: Vec::new(),
    }
}

#[test]
fn rights_are_bits() {
    assert_eq!(CapRights::READ, 1);
    assert_eq!(CapRights::WRITE, 2);
    assert_eq!(CapRights::GRANT, 4);
    assert_eq!(CapRights::REVOKE, 8);
    assert!(all().has(CapRights(CapRights::GRANT)));
    assert!(CapRights(3).has(CapRights(CapRights::NONE)));
    assert!(!CapRights(3).has(CapRights(4)));
    assert!(!CapRights(4).has(CapRights(6)));
    assert_eq!(CapRights(0x0E).intersect(CapRights(0x13)).0, 2);
}

#[test]
fn an_object_slot_is_used_again_under_a_new_generation() {
    let mut t = KoTable::new();
    let a = create_object(&mut t, KernelObject::Rollback).unwrap();
    let b = create_object(&mut t, KernelObject::Ipc { endpoint_idx: 7 }).unwrap();
    assert_eq!(a.0, 0);
    assert_eq!(b.0, 1);
    assert_eq!(destroy_object(&mut t, a), Ok(()));
    assert!(get_object(&t, a).is_none());
    let c = create_object(&mut t, KernelObject::Filesystem).unwrap();
    assert_eq!(c.0, 1 << 32);
    assert!(get_object(&t, a).is_none());
    assert!(get_object(&t, c) == Some(&KernelObject::Filesystem));
    assert!(get_object(&t, b) == Some(&KernelObject::Ipc { endpoint_idx: 7 }));
    assert_eq!(destroy_object(&mut t, a), Err(CapError::GenerationMismatch));
    assert_eq!(destroy_object(&mut t, KernelObjectRef(2)), Err(CapError::InvalidHandle));
}

#[test]
fn handles_find_what_was_inserted() {
    let mut t = CapabilityTable::new();
    let a = t.insert(plain(1, CapKind::Memory, 3));
    let b = t.insert(plain(2, CapKind::Ipc, 1));
    assert_eq!(a.0, 0);
    assert_eq!(b.0, 1);
    assert_eq!(t.get(a).unwrap().id, 1);
    assert_eq!(t.get(b).unwrap().id, 2);
    let gone = t.take(a).ok().unwrap();
    assert_eq!(gone.id, 1);
    assert_eq!(t.get(a).err(), Some(CapError::InvalidHandle));
    let c = t.insert(plain(3, CapKind::Device, 15));
    assert_eq!(c.0, 1 << 32);
    assert_eq!(t.get(a).err(), Some(CapError::GenerationMismatch));
    assert_eq!(t.get(c).unwrap().id, 3);
    assert_eq!(t.get(b).unwrap().id, 2);
    assert_eq!(t.get(CapHandle(9)).err(), Some(CapError::InvalidHandle));
    assert!(t.take(CapHandle(9)).is_err());
    t.get_mut(b).ok().unwrap().rights = CapRights(0);
    assert_eq!(t.get(b).unwrap().rights.0, 0);
    assert!(t.get_mut(CapHandle(5 << 32)).is_err());
}

#[test]
fn kinds_and_rights_are_looked_up() {
    let mut t = CapabilityTable::new();
    t.insert(plain(1, CapKind::Memory, CapRights::READ));
    assert!(t.has_kind(CapKind::Memory));
    assert!(!t.has_kind(CapKind::Rollback));
    assert!(t.has_kind_with_rights(CapKind::Memory, CapRights(CapRights::READ)));
    assert!(!t.has_kind_with_rights(CapKind::Memory, CapRights(CapRights::WRITE)));
}

#[test]
fn a_grant_never_adds_rights() {
    let mut ids = CapIds::new();
    let mut a = CapabilityTable::new();
    let mut b = CapabilityTable::new();
    let mut c = CapabilityTable::new();
    let root = create_root_cap(&mut ids, &mut a, CapKind::Memory, CapRights(0x0D), KernelObjectRef(4));
    let child = cap_grant(&mut ids, &mut a, root, 2, &mut b, all()).unwrap();
    assert_eq!(b.get(child).unwrap().rights.0, 0x0D);
    let grandchild = cap_grant(&mut ids, &mut b, child, 3, &mut c, CapRights(6)).unwrap();
    assert_eq!(c.get(grandchild).unwrap().rights.0, 4);
    assert_eq!(c.get(grandchild).unwrap().object.0, 4);
    assert_eq!(c.get(grandchild).unwrap().parent_id, Some(b.get(child).unwrap().id));
    assert_eq!(a.get(root).unwrap().children, vec![(2, child)]);
    assert_eq!(b.find_children(a.get(root).unwrap().id), vec![child]);
    assert!(b.find_children(77).is_empty());
    assert_eq!(
        cap_grant(&mut ids, &mut a, CapHandle(3), 2, &mut b, all()),
        Err(CapError::InvalidHandle)
    );
}

#[test]
fn inheriting_leaves_no_link() {
    let mut ids = CapIds::new();
    let mut a = CapabilityTable::new();
    let mut b = CapabilityTable::new();
    let root = create_root_cap(&mut ids, &mut a, CapKind::Ipc, CapRights(1), KernelObjectRef(9));
    let h = cap_inherit(&mut ids, &a, root, &mut b).unwrap();
    let got = b.get(h).unwrap();
    assert_eq!((got.kind, got.rights.0, got.object.0, got.parent_id), (CapKind::Ipc, 1, 9, None));
    assert!(got.id != a.get(root).unwrap().id);
    assert!(a.get(root).unwrap().children.is_empty());
    assert_eq!(cap_inherit(&mut ids, &a, CapHandle(1), &mut b), Err(CapError::InvalidHandle));
}

#[test]
fn revoking_needs_the_right() {
    let mut ids = CapIds::new();
    let mut a = CapabilityTable::new();
    let h = create_root_cap(&mut ids, &mut a, CapKind::Ipc, CapRights(7), KernelObjectRef(9));
    assert_eq!(cap_revoke(&mut a, h), Err(CapError::NoRevoke));
    assert!(a.get(h).is_ok());
    assert_eq!(cap_revoke(&mut a, CapHandle(1 << 32)), Err(CapError::GenerationMismatch));
    let mut s = CapSpace { tasks: vec![TaskCaps { task_id: 5, table: a }] };
    assert_eq!(s.find(5), Some(0));
    assert_eq!(s.find(6), None);
    assert_eq!(cap_cascade_revoke(&mut s, 5, h), Err(CapError::NoRevoke));
    assert!(s.tasks[0].table.get(h).is_ok());
    assert_eq!(cap_cascade_revoke(&mut s, 5, CapHandle(8)), Err(CapError::InvalidHandle));
}

#[test]
fn a_cascade_follows_grants_and_nothing_else() {
    let mut ids = CapIds::new();
    let mut a = CapabilityTable::new();
    let mut b = CapabilityTable::new();
    let mut c = CapabilityTable::new();
    let root = create_root_cap(&mut ids, &mut a, CapKind::Memory, all(), KernelObjectRef(0));
    let other = create_root_cap(&mut ids, &mut a, CapKind::Ipc, all(), KernelObjectRef(1));
    let child = cap_grant(&mut ids, &mut a, root, 2, &mut b, all()).unwrap();
    let kept = cap_grant(&mut ids, &mut a, other, 2, &mut b, all()).unwrap();
    let grandchild = cap_grant(&mut ids, &mut b, child, 3, &mut c, CapRights(1)).unwrap();
    let mut s = CapSpace {
        tasks: vec![
            TaskCaps { task_id: 1, table: a },
            TaskCaps { task_id: 2, table: b },
            TaskCaps { task_id: 3, table: c },
        ],
    };
    assert_eq!(cap_cascade_revoke(&mut s, 1, root), Ok(()));
    assert!(s.tasks[0].table.get(root).is_err());
    assert!(s.tasks[1].table.get(child).is_err());
    assert!(s.tasks[2].table.get(grandchild).is_err());
    assert!(s.tasks[0].table.get(other).is_ok());
    assert!(s.tasks[1].table.get(kept).is_ok());
}

#[test]
fn identities_differ() {
    let mut ids = CapIds::new();
    let a = ids.alloc_cap_id();
    let b = ids.alloc_cap_id();
    assert_eq!((a, b), (1, 2));
}

#[test]
fn a_stale_handle_stays_refused() {
    let mut t = CapabilityTable::new();
    let first = t.insert(plain(1, CapKind::Memory, 3));
    let other = t.insert(plain(2, CapKind::Ipc, 3));
    assert!(t.take(first).is_ok());
    let mut given = vec![first, other];
    for k in 0..100u64 {
        let h = t.insert(plain(3 + k, CapKind::Ipc, 1));
        assert!(!given.contains(&h));
        given.push(h);
        assert!(t.get(first).is_err());
        assert_eq!(t.get(h).unwrap().id, 3 + k);
        assert_eq!(t.get(other).unwrap().id, 2);
        if k % 3 != 0 {
            assert!(t.take(h).is_ok());
            assert!(t.get(h).is_err());
        }
    }
}

#[test]
fn every_capability_has_an_identity_of_its_own() {
    let mut ids = CapIds::new();
    let mut a = CapabilityTable::new();
    let mut b = CapabilityTable::new();
    let mut c = CapabilityTable::new();
    let r = create_root_cap(&mut ids, &mut a, CapKind::Memory, all(), KernelObjectRef(0));
    let g = cap_grant(&mut ids, &mut a, r, 2, &mut b, all()).unwrap();
    let i = cap_inherit(&mut ids, &b, g, &mut c).unwrap();
    let found = [a.get(r).unwrap().id, b.get(g).unwrap().id, c.get(i).unwrap().id];
    assert_eq!(found, [1, 2, 3]);
    assert_eq!(ids.next, 4);
}
