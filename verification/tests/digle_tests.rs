use libjp::{Change, Changes, Digle, NodeId, Storage, UnidentifiedPatch};

fn insert_patch() -> libjp::Patch {
    let mut cs = Changes::new();
    cs.push(Change::NewNode { id: NodeId::cur(0), contents: b"a\n".to_vec() });
    cs.push(Change::NewNode { id: NodeId::cur(1), contents: b"b\n".to_vec() });
    cs.push(Change::NewEdge { src: NodeId::cur(0), dst: NodeId::cur(1) });
    let up = UnidentifiedPatch::new("me".to_string(), "base".to_string(), cs);
    up.write_out().0
}

#[test]
fn apply_then_unapply_restores_digle() {
    let patch = insert_patch();
    let n0 = NodeId { patch: patch.id.dup(), node: 0 };
    let n1 = NodeId { patch: patch.id.dup(), node: 1 };

    let mut digle = Digle::new();
    patch.apply_to_digle(&mut digle);
    assert_eq!(digle.node_state(&n0), Some(true));
    assert_eq!(digle.node_state(&n1), Some(true));
    assert!(digle.has_edge(&n0, &n1));
    assert!(!digle.has_edge(&n1, &n0));

    patch.unapply_to_digle(&mut digle);
    assert!(!digle.has_node(&n0));
    assert!(!digle.has_node(&n1));
    assert!(!digle.has_edge(&n0, &n1));
}

#[test]
fn delete_marks_and_restore_revives() {
    let base = insert_patch();
    let n0 = NodeId { patch: base.id.dup(), node: 0 };

    let mut cs = Changes::new();
    cs.push(Change::DeleteNode { id: n0.dup() });
    let up = UnidentifiedPatch::new("me".to_string(), "delete".to_string(), cs);
    assert_eq!(up.deps, vec![base.id.dup()]);
    let del = up.write_out().0;

    let mut digle = Digle::new();
    base.apply_to_digle(&mut digle);
    del.apply_to_digle(&mut digle);
    assert_eq!(digle.node_state(&n0), Some(false));

    del.unapply_to_digle(&mut digle);
    assert_eq!(digle.node_state(&n0), Some(true));
}

#[test]
fn storage_refcounts_round_trip() {
    let mut cs = Changes::new();
    cs.push(Change::NewNode { id: NodeId::cur(0), contents: b"a\n".to_vec() });
    cs.push(Change::NewNode { id: NodeId::cur(1), contents: b"a\n".to_vec() });
    cs.push(Change::NewNode { id: NodeId::cur(2), contents: b"b\n".to_vec() });
    let patch = UnidentifiedPatch::new("me".to_string(), "s".to_string(), cs).write_out().0;

    let mut storage = Storage::new();
    patch.store_new_contents(&mut storage);
    assert_eq!(storage.ref_count(&b"a\n".to_vec()), 2);
    assert_eq!(storage.ref_count(&b"b\n".to_vec()), 1);
    assert_eq!(storage.ref_count(&b"c\n".to_vec()), 0);

    patch.unstore_new_contents(&mut storage);
    assert_eq!(storage.ref_count(&b"a\n".to_vec()), 0);
    assert_eq!(storage.ref_count(&b"b\n".to_vec()), 0);
}
