use base64::Engine;
use libjp::{Change, Changes, Error, NodeId, Patch, PatchId, UnidentifiedPatch};
use sha2::Digest;

fn pid(byte: u8) -> PatchId {
    PatchId::from_bytes(vec![byte; 32]).unwrap()
}

#[test]
fn placeholder_id() {
    let cur = PatchId::cur();
    assert!(cur.is_cur());
    assert!(!pid(1).is_cur());
}

#[test]
fn token_round_trip() {
    for byte in [0u8, 1, 7, 255] {
        let id = pid(byte);
        let tok = id.filename();
        assert!(!tok.contains('/'));
        let back = PatchId::from_filename(&tok).unwrap();
        assert_eq!(back, id);
    }
}

#[test]
fn token_wrong_length() {
    let short = base64::engine::general_purpose::URL_SAFE.encode([5u8; 31]);
    assert_eq!(PatchId::from_filename(&short), Err(Error::MalformedId));
    let long = base64::engine::general_purpose::URL_SAFE.encode([5u8; 33]);
    assert_eq!(PatchId::from_filename(&long), Err(Error::MalformedId));
}

#[test]
fn token_bad_alphabet() {
    assert_eq!(PatchId::from_filename("@@@@"), Err(Error::MalformedId));
}

fn sample_changes() -> Changes {
    let x = pid(1);
    let y = pid(2);
    let mut cs = Changes::new();
    cs.push(Change::NewNode { id: NodeId::cur(0), contents: b"a\n".to_vec() });
    cs.push(Change::DeleteNode { id: NodeId { patch: x.dup(), node: 0 } });
    cs.push(Change::NewEdge {
        src: NodeId { patch: y.dup(), node: 1 },
        dst: NodeId::cur(0),
    });
    cs.push(Change::DeleteNode { id: NodeId { patch: x, node: 2 } });
    cs
}

#[test]
fn deps_minimal() {
    let up = UnidentifiedPatch::new("me".to_string(), "d".to_string(), sample_changes());
    assert_eq!(up.deps.len(), 2);
    assert!(up.deps.contains(&pid(1)));
    assert!(up.deps.contains(&pid(2)));
    assert!(up.deps.iter().all(|d| !d.is_cur()));
}

#[test]
fn deps_empty_for_inserts() {
    let mut cs = Changes::new();
    cs.push(Change::NewNode { id: NodeId::cur(0), contents: b"a\n".to_vec() });
    cs.push(Change::NewNode { id: NodeId::cur(1), contents: b"b\n".to_vec() });
    let up = UnidentifiedPatch::new("me".to_string(), "d".to_string(), cs);
    assert!(up.deps.is_empty());
}

#[test]
fn id_stable() {
    let up1 = UnidentifiedPatch::new("me".to_string(), "d".to_string(), sample_changes());
    let up2 = UnidentifiedPatch::new("me".to_string(), "d".to_string(), sample_changes());
    let (p1, bytes1) = up1.write_out();
    let (p2, bytes2) = up2.write_out();
    assert_eq!(bytes1, bytes2);
    assert_eq!(p1.id, p2.id);

    let other = UnidentifiedPatch::new("you".to_string(), "d".to_string(), sample_changes());
    let (p3, _) = other.write_out();
    assert_ne!(p1.id, p3.id);

    let digest = sha2::Sha256::digest(&bytes1);
    assert_eq!(p1.id.bytes().as_slice(), digest.as_slice());
}

#[test]
fn serialized_layout() {
    let mut cs = Changes::new();
    cs.push(Change::NewNode { id: NodeId::cur(0), contents: b"x".to_vec() });
    let up = UnidentifiedPatch::new("me".to_string(), "d".to_string(), cs);
    let (_, bytes) = up.write_out();
    // author: length 2, little endian, then "me"
    assert_eq!(&bytes[0..8], &[2, 0, 0, 0, 0, 0, 0, 0]);
    assert_eq!(&bytes[8..10], b"me");
    // description: length 1, then "d"
    assert_eq!(&bytes[10..18], &[1, 0, 0, 0, 0, 0, 0, 0]);
    assert_eq!(&bytes[18..19], b"d");
    // one change: the insert tag, a placeholder reference to node 0,
    // one content byte "x"
    assert_eq!(&bytes[19..27], &[1, 0, 0, 0, 0, 0, 0, 0]);
    assert_eq!(bytes[27], 1);
    assert_eq!(&bytes[28..60], &[0u8; 32]);
    assert_eq!(&bytes[60..68], &[0, 0, 0, 0, 0, 0, 0, 0]);
    assert_eq!(&bytes[68..76], &[1, 0, 0, 0, 0, 0, 0, 0]);
    assert_eq!(bytes[76], b'x');
    // no dependencies
    assert_eq!(&bytes[77..85], &[0, 0, 0, 0, 0, 0, 0, 0]);
    assert_eq!(bytes.len(), 85);
}

#[test]
fn placeholder_resolved() {
    let up = UnidentifiedPatch::new("me".to_string(), "d".to_string(), sample_changes());
    let (patch, _) = up.write_out();
    assert!(!patch.id.is_cur());
    match &patch.changes.changes[0] {
        Change::NewNode { id, .. } => {
            assert_eq!(id.patch, patch.id);
            assert!(!id.patch.is_cur());
        }
        _ => panic!("first change should be an insert"),
    }
    match &patch.changes.changes[1] {
        Change::DeleteNode { id } => assert_eq!(id.patch, pid(1)),
        _ => panic!("second change should be a delete"),
    }
    match &patch.changes.changes[2] {
        Change::NewEdge { src, dst } => {
            assert_eq!(src.patch, pid(2));
            assert_eq!(dst.patch, patch.id);
        }
        _ => panic!("third change should be an edge"),
    }
}

#[test]
fn serialization_round_trip() {
    let up = UnidentifiedPatch::new("me".to_string(), "desc".to_string(), sample_changes());
    let (patch, bytes) = up.write_out();
    let back = Patch::from_reader(&bytes, patch.id.dup()).unwrap();
    assert_eq!(back, patch);
    assert_eq!(patch.write_out(), bytes);
}

#[test]
fn from_reader_malformed() {
    let r = Patch::from_reader(&vec![1u8, 2, 3], pid(3));
    assert_eq!(r, Err(Error::MalformedPatch));
}

#[test]
fn error_messages() {
    assert_eq!(Error::MalformedId.message(), "malformed patch id");
    assert_eq!(Error::MalformedPatch.message(), "malformed patch file");
}
