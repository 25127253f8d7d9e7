use crate::change::{sub_bytes, Change, ChangeV, Changes, NodeId, NodeIdV};
use crate::error::Error;
use crate::patch::{deps_wf, PatchHeader, PatchId, UPView, UnidentifiedPatch};
use vstd::prelude::*;
use vstd::utf8::{decode_utf8, encode_utf8, valid_utf8};

verus! {

/// The canonical patch-file format: every field is emitted in a fixed
/// order, variable-sized parts carry a little-endian 64-bit length prefix,
/// and node references into the patch itself keep the placeholder id. The
/// encoding is a pure function of the patch content, so hashing it yields a
/// stable identity.
///
/// Layout: author, description (length-prefixed UTF-8); change count, then
/// per change a tag byte (1 insert, 2 delete, 3 edge) and its fields; the
/// dependency count, then each dependency as 32 raw bytes. A node reference
/// is 32 patch-id bytes followed by the local index.
#[verifier::opaque]
pub open spec fn u64_le(x: u64) -> Seq<u8> {
    seq![
        (x & 0xff) as u8,
        ((x >> 8) & 0xff) as u8,
        ((x >> 16) & 0xff) as u8,
        ((x >> 24) & 0xff) as u8,
        ((x >> 32) & 0xff) as u8,
        ((x >> 40) & 0xff) as u8,
        ((x >> 48) & 0xff) as u8,
        ((x >> 56) & 0xff) as u8,
    ]
}

/// A 64-bit length prefix always occupies eight bytes.
pub proof fn lemma_u64_le_len(x: u64)
    ensures
        u64_le(x).len() == 8,
{
    reveal(u64_le);
}

/// A length-prefixed UTF-8 rendering of a text field.
pub open spec fn encode_str(s: Seq<char>) -> Seq<u8> {
    u64_le(encode_utf8(s).len() as u64) + encode_utf8(s)
}

/// A node reference: its patch id's 32 bytes, then its local index.
pub open spec fn encode_nid(n: NodeIdV) -> Seq<u8> {
    n.patch + u64_le(n.node)
}

/// One change, under its tag byte.
pub open spec fn encode_change(c: ChangeV) -> Seq<u8> {
    match c {
        ChangeV::NewNode { id, contents } => seq![1u8] + encode_nid(id) + u64_le(
            contents.len() as u64,
        ) + contents,
        ChangeV::DeleteNode { id } => seq![2u8] + encode_nid(id),
        ChangeV::NewEdge { src, dst } => seq![3u8] + encode_nid(src) + encode_nid(dst),
    }
}

/// The change list, in order.
pub open spec fn encode_changes(cs: Seq<ChangeV>) -> Seq<u8>
    decreases cs.len(),
{
    if cs.len() == 0 {
        Seq::empty()
    } else {
        encode_changes(cs.drop_last()) + encode_change(cs.last())
    }
}

/// The dependency list, in order, 32 bytes each.
pub open spec fn encode_deps(ds: Seq<Seq<u8>>) -> Seq<u8>
    decreases ds.len(),
{
    if ds.len() == 0 {
        Seq::empty()
    } else {
        encode_deps(ds.drop_last()) + ds.last()
    }
}

/// The serialized form of an unidentified patch.
pub open spec fn encode_spec(u: UPView) -> Seq<u8> {
    encode_str(u.author) + encode_str(u.description) + u64_le(u.changes.len() as u64)
        + encode_changes(u.changes) + u64_le(u.deps.len() as u64) + encode_deps(u.deps)
}

fn push_u64(out: &mut Vec<u8>, x: u64)
    ensures
        final(out)@ == old(out)@ + u64_le(x),
{
    proof {
        reveal(u64_le);
        assert((x & 0xff) < 256 && ((x >> 8) & 0xff) < 256 && ((x >> 16) & 0xff) < 256 && ((x
            >> 24) & 0xff) < 256 && ((x >> 32) & 0xff) < 256 && ((x >> 40) & 0xff) < 256 && ((x
            >> 48) & 0xff) < 256 && ((x >> 56) & 0xff) < 256) by (bit_vector);
    }
    out.push((x & 0xff) as u8);
    out.push(((x >> 8) & 0xff) as u8);
    out.push(((x >> 16) & 0xff) as u8);
    out.push(((x >> 24) & 0xff) as u8);
    out.push(((x >> 32) & 0xff) as u8);
    out.push(((x >> 40) & 0xff) as u8);
    out.push(((x >> 48) & 0xff) as u8);
    out.push(((x >> 56) & 0xff) as u8);
    proof {
        assert(out@ =~= old(out)@ + u64_le(x));
    }
}

fn push_bytes(out: &mut Vec<u8>, v: &Vec<u8>)
    ensures
        final(out)@ == old(out)@ + v@,
{
    let n = v.len();
    let mut i: usize = 0;
    while i < n
        invariant
            n == v@.len(),
            i <= n,
            out@ =~= old(out)@ + v@.take(i as int),
        decreases n - i,
    {
        out.push(v[i]);
        proof {
            assert(out@ =~= old(out)@ + v@.take(i + 1));
        }
        i += 1;
    }
    proof {
        assert(v@.take(n as int) =~= v@);
    }
}

fn push_str(out: &mut Vec<u8>, s: &String)
    ensures
        final(out)@ == old(out)@ + encode_str(s@),
{
    let bytes = s.as_str().as_bytes_vec();
    push_u64(out, bytes.len() as u64);
    push_bytes(out, &bytes);
    proof {
        assert(out@ =~= old(out)@ + encode_str(s@));
    }
}

fn push_nid(out: &mut Vec<u8>, n: &NodeId)
    requires
        n.wf(),
    ensures
        final(out)@ == old(out)@ + encode_nid(n@),
{
    push_bytes(out, n.patch.bytes());
    push_u64(out, n.node);
    proof {
        assert(out@ =~= old(out)@ + encode_nid(n@));
    }
}

fn push_change(out: &mut Vec<u8>, c: &Change)
    requires
        c.wf(),
    ensures
        final(out)@ == old(out)@ + encode_change(c@),
{
    match c {
        Change::NewNode { id, contents } => {
            out.push(1u8);
            push_nid(out, id);
            push_u64(out, contents.len() as u64);
            push_bytes(out, contents);
        },
        Change::DeleteNode { id } => {
            out.push(2u8);
            push_nid(out, id);
        },
        Change::NewEdge { src, dst } => {
            out.push(3u8);
            push_nid(out, src);
            push_nid(out, dst);
        },
    }
    proof {
        assert(out@ =~= old(out)@ + encode_change(c@));
    }
}

/// Serializes an unidentified patch to its canonical byte form.
pub fn encode(up: &UnidentifiedPatch) -> (r: Vec<u8>)
    requires
        up.wf(),
    ensures
        r@ == encode_spec(up@),
{
    let mut out: Vec<u8> = Vec::new();
    push_str(&mut out, &up.header.author);
    push_str(&mut out, &up.header.description);
    let n = up.changes.changes.len();
    proof {
        assert(up@.changes.len() == n);
    }
    push_u64(&mut out, n as u64);
    let ghost pre_changes = out@;
    let mut i: usize = 0;
    while i < n
        invariant
            up.wf(),
            n == up.changes.changes@.len(),
            up@.changes.len() == n,
            i <= n,
            out@ == pre_changes + encode_changes(up@.changes.take(i as int)),
        decreases n - i,
    {
        proof {
            assert(up@.changes[i as int] == up.changes.changes@[i as int]@);
        }
        push_change(&mut out, &up.changes.changes[i]);
        proof {
            assert(up@.changes.take(i + 1).drop_last() =~= up@.changes.take(i as int));
            assert(up@.changes.take(i + 1).last() == up@.changes[i as int]);
            assert(out@ =~= pre_changes + encode_changes(up@.changes.take(i + 1)));
        }
        i += 1;
    }
    proof {
        assert(up@.changes.take(n as int) =~= up@.changes);
    }
    let m = up.deps.len();
    proof {
        assert(up@.deps.len() == m);
    }
    push_u64(&mut out, m as u64);
    let ghost pre_deps = out@;
    let mut j: usize = 0;
    while j < m
        invariant
            up.wf(),
            m == up.deps@.len(),
            up@.deps.len() == m,
            j <= m,
            out@ == pre_deps + encode_deps(up@.deps.take(j as int)),
        decreases m - j,
    {
        proof {
            assert(up@.deps[j as int] == up.deps@[j as int].deep_view());
        }
        push_bytes(&mut out, up.deps[j].bytes());
        proof {
            assert(up@.deps.take(j + 1).drop_last() =~= up@.deps.take(j as int));
            assert(up@.deps.take(j + 1).last() == up@.deps[j as int]);
            assert(out@ =~= pre_deps + encode_deps(up@.deps.take(j + 1)));
        }
        j += 1;
    }
    proof {
        assert(up@.deps.take(m as int) =~= up@.deps);
        assert(out@ =~= encode_spec(up@));
    }
    out
}

/// The little-endian 64-bit value held at position `p`.
pub open spec fn word_at(b: Seq<u8>, p: int) -> u64 {
    (b[p] as u64) | ((b[p + 1] as u64) << 8) | ((b[p + 2] as u64) << 16) | ((b[p + 3] as u64)
        << 24) | ((b[p + 4] as u64) << 32) | ((b[p + 5] as u64) << 40) | ((b[p + 6] as u64) << 48)
        | ((b[p + 7] as u64) << 56)
}

/// Parses a 64-bit length or index at `p`; the parsed value and the next
/// position, or nothing when the input ends too soon.
pub open spec fn p_u64(b: Seq<u8>, p: int) -> Option<(u64, int)> {
    if p + 8 <= b.len() {
        Some((word_at(b, p), p + 8))
    } else {
        None
    }
}

/// Parses a length-prefixed byte field at `p`.
pub open spec fn p_bytes(b: Seq<u8>, p: int) -> Option<(Seq<u8>, int)> {
    match p_u64(b, p) {
        Some((n, p2)) => if p2 + n <= b.len() {
            Some((b.subrange(p2, p2 + n), p2 + n))
        } else {
            None
        },
        None => None,
    }
}

/// Parses a length-prefixed UTF-8 text field at `p`.
pub open spec fn p_str(b: Seq<u8>, p: int) -> Option<(Seq<char>, int)> {
    match p_bytes(b, p) {
        Some((v, p2)) => if valid_utf8(v) {
            Some((decode_utf8(v), p2))
        } else {
            None
        },
        None => None,
    }
}

/// Parses a node reference at `p`: 32 patch-id bytes, then the local index.
pub open spec fn p_nid(b: Seq<u8>, p: int) -> Option<(NodeIdV, int)> {
    if p + 32 <= b.len() {
        let patch = b.subrange(p, p + 32);
        match p_u64(b, p + 32) {
            Some((node, p2)) => Some((NodeIdV { patch, node }, p2)),
            None => None,
        }
    } else {
        None
    }
}

/// Parses one tagged change at `p`.
pub open spec fn p_change(b: Seq<u8>, p: int) -> Option<(ChangeV, int)> {
    if p < b.len() {
        let tag = b[p];
        if tag == 1u8 {
            match p_nid(b, p + 1) {
                Some((id, p2)) => match p_bytes(b, p2) {
                    Some((contents, p3)) => Some((ChangeV::NewNode { id, contents }, p3)),
                    None => None,
                },
                None => None,
            }
        } else if tag == 2u8 {
            match p_nid(b, p + 1) {
                Some((id, p2)) => Some((ChangeV::DeleteNode { id }, p2)),
                None => None,
            }
        } else if tag == 3u8 {
            match p_nid(b, p + 1) {
                Some((src, p2)) => match p_nid(b, p2) {
                    Some((dst, p3)) => Some((ChangeV::NewEdge { src, dst }, p3)),
                    None => None,
                },
                None => None,
            }
        } else {
            None
        }
    } else {
        None
    }
}

/// Parses `n` changes in sequence from `p`.
pub open spec fn p_changes(b: Seq<u8>, p: int, n: nat) -> Option<(Seq<ChangeV>, int)>
    decreases n,
{
    if n == 0 {
        Some((Seq::empty(), p))
    } else {
        match p_change(b, p) {
            Some((c, p2)) => match p_changes(b, p2, (n - 1) as nat) {
                Some((cs, p3)) => Some((seq![c] + cs, p3)),
                None => None,
            },
            None => None,
        }
    }
}

/// Parses `n` dependencies of 32 raw bytes each from `p`.
pub open spec fn p_deps(b: Seq<u8>, p: int, n: nat) -> Option<(Seq<Seq<u8>>, int)>
    decreases n,
{
    if n == 0 {
        Some((Seq::empty(), p))
    } else if p + 32 <= b.len() {
        match p_deps(b, p + 32, (n - 1) as nat) {
            Some((ds, p2)) => Some((seq![b.subrange(p, p + 32)] + ds, p2)),
            None => None,
        }
    } else {
        None
    }
}

/// What decoding a serialized patch document yields: the document's
/// content, or nothing when any field is truncated, ill-tagged, not valid
/// UTF-8 where text is expected, followed by trailing bytes, or carries a
/// dependency list with a duplicate, a placeholder or an ill-formed id.
pub open spec fn decode_spec(b: Seq<u8>) -> Option<UPView> {
    match p_str(b, 0) {
        Some((author, p1)) => match p_str(b, p1) {
            Some((description, p2)) => match p_u64(b, p2) {
                Some((nc, p3)) => match p_changes(b, p3, nc as nat) {
                    Some((changes, p4)) => match p_u64(b, p4) {
                        Some((nd, p5)) => match p_deps(b, p5, nd as nat) {
                            Some((deps, p6)) => if p6 == b.len() && deps_wf(deps) {
                                Some(UPView { author, description, changes, deps })
                            } else {
                                None
                            },
                            None => None,
                        },
                        None => None,
                    },
                    None => None,
                },
                None => None,
            },
            None => None,
        },
        None => None,
    }
}

/// Relies on String::from_utf8: it succeeds exactly on valid UTF-8 input
/// and returns the string of those bytes.
#[verifier::external_body]
fn string_from_utf8(v: Vec<u8>) -> (r: Option<String>)
    ensures
        match r {
            Some(s) => valid_utf8(v@) && s@ == decode_utf8(v@),
            None => !valid_utf8(v@),
        },
{
    match String::from_utf8(v) {
        Ok(s) => Some(s),
        Err(_) => None,
    }
}

fn read_word(b: &Vec<u8>, p: usize) -> (r: u64)
    requires
        p + 8 <= b@.len(),
    ensures
        r == word_at(b@, p as int),
{
    let n = b.len();
    proof {
        assert(p + 8 <= n);
    }
    (b[p] as u64) | ((b[p + 1] as u64) << 8u64) | ((b[p + 2] as u64) << 16u64) | ((b[p + 3] as u64)
        << 24u64) | ((b[p + 4] as u64) << 32u64) | ((b[p + 5] as u64) << 40u64) | ((b[p
        + 6] as u64) << 48u64) | ((b[p + 7] as u64) << 56u64)
}

fn parse_u64(b: &Vec<u8>, p: usize) -> (r: Option<(u64, usize)>)
    requires
        p <= b@.len(),
    ensures
        match r {
            Some((v, p2)) => p_u64(b@, p as int) == Some((v, p2 as int)) && p2 <= b@.len(),
            None => p_u64(b@, p as int) is None,
        },
{
    if b.len() - p >= 8 {
        Some((read_word(b, p), p + 8))
    } else {
        None
    }
}

fn parse_bytes(b: &Vec<u8>, p: usize) -> (r: Option<(Vec<u8>, usize)>)
    requires
        p <= b@.len(),
    ensures
        match r {
            Some((v, p2)) => p_bytes(b@, p as int) == Some((v@, p2 as int)) && p2 <= b@.len(),
            None => p_bytes(b@, p as int) is None,
        },
{
    match parse_u64(b, p) {
        Some((n, p2)) => {
            if n <= (b.len() - p2) as u64 {
                let len = n as usize;
                let v = sub_bytes(b, p2, p2 + len);
                Some((v, p2 + len))
            } else {
                None
            }
        },
        None => None,
    }
}

fn parse_str(b: &Vec<u8>, p: usize) -> (r: Option<(String, usize)>)
    requires
        p <= b@.len(),
    ensures
        match r {
            Some((v, p2)) => p_str(b@, p as int) == Some((v@, p2 as int)) && p2 <= b@.len(),
            None => p_str(b@, p as int) is None,
        },
{
    match parse_bytes(b, p) {
        Some((v, p2)) => match string_from_utf8(v) {
            Some(s) => Some((s, p2)),
            None => None,
        },
        None => None,
    }
}

fn parse_nid(b: &Vec<u8>, p: usize) -> (r: Option<(NodeId, usize)>)
    requires
        p <= b@.len(),
    ensures
        match r {
            Some((v, p2)) => p_nid(b@, p as int) == Some((v@, p2 as int)) && p2 <= b@.len()
                && v.wf(),
            None => p_nid(b@, p as int) is None,
        },
{
    if b.len() - p >= 32 {
        let patch_bytes = sub_bytes(b, p, p + 32);
        match parse_u64(b, p + 32) {
            Some((node, p2)) => {
                match PatchId::from_bytes(patch_bytes) {
                    Some(patch) => Some((NodeId { patch, node }, p2)),
                    None => {
                        proof {
                            assert(false);
                        }
                        None
                    },
                }
            },
            None => None,
        }
    } else {
        None
    }
}

fn parse_change(b: &Vec<u8>, p: usize) -> (r: Option<(Change, usize)>)
    requires
        p <= b@.len(),
    ensures
        match r {
            Some((v, p2)) => p_change(b@, p as int) == Some((v@, p2 as int)) && p2 <= b@.len()
                && v.wf(),
            None => p_change(b@, p as int) is None,
        },
{
    if p < b.len() {
        let tag = b[p];
        if tag == 1u8 {
            match parse_nid(b, p + 1) {
                Some((id, p2)) => match parse_bytes(b, p2) {
                    Some((contents, p3)) => Some((Change::NewNode { id, contents }, p3)),
                    None => None,
                },
                None => None,
            }
        } else if tag == 2u8 {
            match parse_nid(b, p + 1) {
                Some((id, p2)) => Some((Change::DeleteNode { id }, p2)),
                None => None,
            }
        } else if tag == 3u8 {
            match parse_nid(b, p + 1) {
                Some((src, p2)) => match parse_nid(b, p2) {
                    Some((dst, p3)) => Some((Change::NewEdge { src, dst }, p3)),
                    None => None,
                },
                None => None,
            }
        } else {
            None
        }
    } else {
        None
    }
}

/// Deserializes a canonical patch document; `MalformedPatch` on any input
/// that `decode_spec` rejects.
#[verifier::loop_isolation(false)]
pub fn decode(input: &Vec<u8>) -> (r: Result<UnidentifiedPatch, Error>)
    ensures
        match r {
            Ok(up) => decode_spec(input@) == Some(up@) && up.wf(),
            Err(e) => decode_spec(input@) is None && e == Error::MalformedPatch,
        },
{
    let author;
    let p1;
    match parse_str(input, 0) {
        Some((s, p)) => {
            author = s;
            p1 = p;
        },
        None => {
            return Err(Error::MalformedPatch);
        },
    }
    let description;
    let p2;
    match parse_str(input, p1) {
        Some((s, p)) => {
            description = s;
            p2 = p;
        },
        None => {
            return Err(Error::MalformedPatch);
        },
    }
    let nc;
    let p3;
    match parse_u64(input, p2) {
        Some((n, p)) => {
            nc = n;
            p3 = p;
        },
        None => {
            return Err(Error::MalformedPatch);
        },
    }
    let mut changes: Vec<Change> = Vec::new();
    let mut cur: usize = p3;
    let mut i: u64 = 0;
    while i < nc
        invariant
            i <= nc,
            cur <= input@.len(),
            changes@.len() == i,
            forall|j: int| 0 <= j < changes@.len() ==> (#[trigger] changes@[j]).wf(),
            p_changes(input@, p3 as int, nc as nat) == (match p_changes(
                input@,
                cur as int,
                (nc - i) as nat,
            ) {
                Some((cs, pe)) => Some(
                    (changes@.map_values(|c: Change| c@) + cs, pe),
                ),
                None => None::<(Seq<ChangeV>, int)>,
            }),
        decreases nc - i,
    {
        match parse_change(input, cur) {
            Some((c, p)) => {
                let ghost pre = changes@;
                let ghost pre_cur = cur as int;
                let ghost cv = c@;
                changes.push(c);
                cur = p;
                proof {
                    let f = |c: Change| c@;
                    assert(changes@.drop_last() =~= pre);
                    assert(changes@.map_values(f) =~= pre.map_values(f).push(cv));
                    let rest = (nc - i - 1) as nat;
                    assert(p_changes(input@, pre_cur, (nc - i) as nat) == (match p_changes(
                        input@,
                        cur as int,
                        rest,
                    ) {
                        Some((cs, pe)) => Some((seq![cv] + cs, pe)),
                        None => None::<(Seq<ChangeV>, int)>,
                    }));
                    if p_changes(input@, cur as int, rest) is Some {
                        let (cs, pe) = p_changes(input@, cur as int, rest)->Some_0;
                        assert(pre.map_values(f) + (seq![cv] + cs) =~= changes@.map_values(f)
                            + cs);
                    }
                }
                i += 1;
            },
            None => {
                proof {
                    assert(p_changes(input@, cur as int, (nc - i) as nat) is None);
                    assert(p_changes(input@, p3 as int, nc as nat) is None);
                    assert(decode_spec(input@) is None);
                }
                return Err(Error::MalformedPatch);
            },
        }
    }
    proof {
        assert(p_changes(input@, cur as int, 0nat) == Some(
            (Seq::<ChangeV>::empty(), cur as int),
        ));
        assert(changes@.map_values(|c: Change| c@) + Seq::<ChangeV>::empty() =~= changes@
            .map_values(|c: Change| c@));
    }
    let nd;
    let p5;
    match parse_u64(input, cur) {
        Some((n, p)) => {
            nd = n;
            p5 = p;
        },
        None => {
            return Err(Error::MalformedPatch);
        },
    }
    let mut deps: Vec<PatchId> = Vec::new();
    let mut dcur: usize = p5;
    let mut k: u64 = 0;
    while k < nd
        invariant
            k <= nd,
            dcur <= input@.len(),
            deps@.len() == k,
            forall|j: int| 0 <= j < deps@.len() ==> (#[trigger] deps@[j]).wf(),
            p_deps(input@, p5 as int, nd as nat) == (match p_deps(
                input@,
                dcur as int,
                (nd - k) as nat,
            ) {
                Some((ds, pe)) => Some((deps.deep_view() + ds, pe)),
                None => None::<(Seq<Seq<u8>>, int)>,
            }),
        decreases nd - k,
    {
        if input.len() - dcur >= 32 {
            let bytes = sub_bytes(input, dcur, dcur + 32);
            let ghost pre = deps.deep_view();
            let ghost pre_cur = dcur as int;
            match PatchId::from_bytes(bytes) {
                Some(pid) => {
                    deps.push(pid);
                },
                None => {
                    proof {
                        assert(false);
                    }
                },
            }
            dcur = dcur + 32;
            proof {
                assert(deps.deep_view() =~= pre.push(input@.subrange(pre_cur, pre_cur + 32)));
                let rest = (nd - k - 1) as nat;
                assert(p_deps(input@, pre_cur, (nd - k) as nat) == (match p_deps(
                    input@,
                    dcur as int,
                    rest,
                ) {
                    Some((ds, pe)) => Some(
                        (seq![input@.subrange(pre_cur, pre_cur + 32)] + ds, pe),
                    ),
                    None => None::<(Seq<Seq<u8>>, int)>,
                }));
                if p_deps(input@, dcur as int, rest) is Some {
                    let (ds, pe) = p_deps(input@, dcur as int, rest)->Some_0;
                    assert(pre + (seq![input@.subrange(pre_cur, pre_cur + 32)] + ds)
                        =~= deps.deep_view() + ds);
                }
            }
            k += 1;
        } else {
            proof {
                assert(p_deps(input@, dcur as int, (nd - k) as nat) is None);
                assert(p_deps(input@, p5 as int, nd as nat) is None);
                assert(decode_spec(input@) is None);
            }
            return Err(Error::MalformedPatch);
        }
    }
    proof {
        assert(p_deps(input@, dcur as int, 0nat) == Some((Seq::<Seq<u8>>::empty(), dcur as int)));
        assert(deps.deep_view() + Seq::<Seq<u8>>::empty() =~= deps.deep_view());
    }
    if dcur != input.len() {
        return Err(Error::MalformedPatch);
    }
    if !deps_list_wf(&deps) {
        return Err(Error::MalformedPatch);
    }
    let up = UnidentifiedPatch {
        header: PatchHeader { author, description },
        changes: Changes { changes },
        deps,
    };
    proof {
        assert(decode_spec(input@) == Some(up@));
    }
    Ok(up)
}

/// True when the dependency list holds pairwise distinct, well-formed,
/// non-placeholder ids.
fn deps_list_wf(deps: &Vec<PatchId>) -> (r: bool)
    requires
        forall|j: int| 0 <= j < deps@.len() ==> (#[trigger] deps@[j]).wf(),
    ensures
        r == deps_wf(deps.deep_view()),
{
    let n = deps.len();
    let mut i: usize = 0;
    while i < n
        invariant
            n == deps@.len(),
            i <= n,
            forall|j: int| 0 <= j < deps@.len() ==> (#[trigger] deps@[j]).wf(),
            forall|p: int, q: int|
                0 <= p < q < n && p < i ==> deps.deep_view()[p] != deps.deep_view()[q],
            forall|p: int|
                0 <= p < i ==> deps.deep_view()[p] != crate::patch::zero_id()
                    && deps.deep_view()[p].len() == 32,
        decreases n - i,
    {
        if deps[i].is_cur() {
            proof {
                assert(deps.deep_view()[i as int] == crate::patch::zero_id());
            }
            return false;
        }
        let mut q: usize = i + 1;
        while q < n
            invariant
                n == deps@.len(),
                i < n,
                i + 1 <= q <= n,
                forall|j: int| 0 <= j < deps@.len() ==> (#[trigger] deps@[j]).wf(),
                forall|t: int| i < t < q ==> deps.deep_view()[i as int] != deps.deep_view()[t],
            decreases n - q,
        {
            if deps[i].eq_id(&deps[q]) {
                proof {
                    assert(deps.deep_view()[i as int] == deps.deep_view()[q as int]);
                }
                return false;
            }
            q += 1;
        }
        i += 1;
    }
    proof {
        assert(deps_wf(deps.deep_view()));
    }
    true
}

/// Views on which the codec is total: every node reference carries a full
/// 32-byte patch id and every variable-sized field fits its 64-bit length
/// prefix.
pub open spec fn encodable_change(c: ChangeV) -> bool {
    match c {
        ChangeV::NewNode { id, contents } => id.patch.len() == 32 && contents.len() <= u64::MAX,
        ChangeV::DeleteNode { id } => id.patch.len() == 32,
        ChangeV::NewEdge { src, dst } => src.patch.len() == 32 && dst.patch.len() == 32,
    }
}

pub open spec fn encodable(u: UPView) -> bool {
    &&& forall|i: int| 0 <= i < u.changes.len() ==> encodable_change(#[trigger] u.changes[i])
    &&& deps_wf(u.deps)
    &&& encode_utf8(u.author).len() <= u64::MAX
    &&& encode_utf8(u.description).len() <= u64::MAX
    &&& u.changes.len() <= u64::MAX
    &&& u.deps.len() <= u64::MAX
}

proof fn lemma_seq_assoc<A>(x: Seq<A>, y: Seq<A>, z: Seq<A>)
    ensures
        (x + y) + z == x + (y + z),
{
    assert((x + y) + z =~= x + (y + z));
}

proof fn lemma_word_rt(pre: Seq<u8>, x: u64, rest: Seq<u8>)
    ensures
        p_u64(pre + u64_le(x) + rest, pre.len() as int) == Some((x, pre.len() as int + 8)),
{
    reveal(u64_le);
    let b = pre + u64_le(x) + rest;
    let p = pre.len() as int;
    assert(b.len() == pre.len() + 8 + rest.len());
    assert(forall|i: int| 0 <= i < 8 ==> b[p + i] == u64_le(x)[i]);
    assert((x & 0xff) < 256 && ((x >> 8) & 0xff) < 256 && ((x >> 16) & 0xff) < 256 && ((x >> 24)
        & 0xff) < 256 && ((x >> 32) & 0xff) < 256 && ((x >> 40) & 0xff) < 256 && ((x >> 48)
        & 0xff) < 256 && ((x >> 56) & 0xff) < 256) by (bit_vector);
    assert(b[p] as u64 == (x & 0xff));
    assert(b[p + 1] as u64 == ((x >> 8) & 0xff));
    assert(b[p + 2] as u64 == ((x >> 16) & 0xff));
    assert(b[p + 3] as u64 == ((x >> 24) & 0xff));
    assert(b[p + 4] as u64 == ((x >> 32) & 0xff));
    assert(b[p + 5] as u64 == ((x >> 40) & 0xff));
    assert(b[p + 6] as u64 == ((x >> 48) & 0xff));
    assert(b[p + 7] as u64 == ((x >> 56) & 0xff));
    assert((x & 0xff) | (((x >> 8) & 0xff) << 8) | (((x >> 16) & 0xff) << 16) | (((x >> 24)
        & 0xff) << 24) | (((x >> 32) & 0xff) << 32) | (((x >> 40) & 0xff) << 40) | (((x >> 48)
        & 0xff) << 48) | (((x >> 56) & 0xff) << 56) == x) by (bit_vector);
    assert(word_at(b, p) == x);
}

proof fn lemma_bytes_rt(pre: Seq<u8>, v: Seq<u8>, rest: Seq<u8>)
    requires
        v.len() <= u64::MAX,
    ensures
        p_bytes(pre + (u64_le(v.len() as u64) + v) + rest, pre.len() as int) == Some(
            (v, pre.len() as int + 8 + v.len()),
        ),
{
    lemma_u64_le_len(v.len() as u64);
    let b = pre + (u64_le(v.len() as u64) + v) + rest;
    let p = pre.len() as int;
    assert(b =~= pre + u64_le(v.len() as u64) + (v + rest));
    lemma_word_rt(pre, v.len() as u64, v + rest);
    assert(p_u64(b, p) == Some((v.len() as u64, p + 8)));
    assert(v.len() as u64 as int == v.len());
    assert(b.subrange(p + 8, p + 8 + v.len()) =~= v);
}

#[verifier::rlimit(100)]
proof fn lemma_str_rt(pre: Seq<u8>, t: Seq<char>, rest: Seq<u8>)
    requires
        encode_utf8(t).len() <= u64::MAX,
    ensures
        p_str(pre + encode_str(t) + rest, pre.len() as int) == Some(
            (t, pre.len() as int + encode_str(t).len()),
        ),
{
    let v = encode_utf8(t);
    lemma_u64_le_len(v.len() as u64);
    assert(valid_utf8(v) && decode_utf8(v) == t) by {
        vstd::utf8::encode_utf8_valid_utf8(t);
        vstd::utf8::encode_utf8_decode_utf8(t);
    };
    let b = pre + (u64_le(v.len() as u64) + v) + rest;
    lemma_bytes_rt(pre, v, rest);
    assert(p_bytes(b, pre.len() as int) == Some((v, pre.len() as int + 8 + v.len())));
    assert(p_str(b, pre.len() as int) == Some((t, pre.len() as int + 8 + v.len())));
    assert(encode_str(t) == u64_le(v.len() as u64) + v);
    assert(pre + encode_str(t) + rest == b);
    assert(encode_str(t).len() == 8 + v.len());
}

proof fn lemma_nid_rt(pre: Seq<u8>, n: NodeIdV, rest: Seq<u8>)
    requires
        n.patch.len() == 32,
    ensures
        p_nid(pre + encode_nid(n) + rest, pre.len() as int) == Some(
            (n, pre.len() as int + encode_nid(n).len()),
        ),
{
    lemma_u64_le_len(n.node);
    let b = pre + encode_nid(n) + rest;
    let p = pre.len() as int;
    assert(b.subrange(p, p + 32) =~= n.patch);
    assert(b =~= (pre + n.patch) + u64_le(n.node) + rest);
    lemma_word_rt(pre + n.patch, n.node, rest);
    assert(p_u64(b, p + 32) == Some((n.node, p + 40)));
}

#[verifier::rlimit(100)]
proof fn lemma_nn_head(pre: Seq<u8>, id: NodeIdV, contents: Seq<u8>, rest: Seq<u8>)
    requires
        id.patch.len() == 32,
    ensures
        (pre + encode_change(ChangeV::NewNode { id, contents }) + rest)[pre.len() as int]
            == 1u8,
        p_nid(pre + encode_change(ChangeV::NewNode { id, contents }) + rest, pre.len() as int + 1)
            == Some((id, pre.len() as int + 41)),
{
    let c = ChangeV::NewNode { id, contents };
    lemma_u64_le_len(contents.len() as u64);
    lemma_u64_le_len(id.node);
    let b = pre + encode_change(c) + rest;
    let e1 = seq![1u8];
    let e2 = encode_nid(id);
    let e3 = u64_le(contents.len() as u64);
    let e4 = contents;
    let q = pre + e1 + e2;
    assert(encode_change(c) == e1 + e2 + e3 + e4);
    assert(b == ((pre + e1) + e2) + ((e3 + e4) + rest)) by {
        lemma_seq_assoc(pre, (e1 + e2) + e3, e4);
        lemma_seq_assoc(pre, e1 + e2, e3);
        lemma_seq_assoc(pre, e1, e2);
        lemma_seq_assoc(q + e3, e4, rest);
        lemma_seq_assoc(q, e3, e4 + rest);
        lemma_seq_assoc(e3, e4, rest);
    };
    lemma_nid_rt(pre + e1, id, (e3 + e4) + rest);
    assert(b[pre.len() as int] == 1u8);
}

#[verifier::rlimit(100)]
proof fn lemma_nn_payload(pre: Seq<u8>, id: NodeIdV, contents: Seq<u8>, rest: Seq<u8>)
    requires
        id.patch.len() == 32,
        contents.len() <= u64::MAX,
    ensures
        p_bytes(pre + encode_change(ChangeV::NewNode { id, contents }) + rest, pre.len() as int
            + 41) == Some((contents, pre.len() as int + 49 + contents.len())),
{
    let c = ChangeV::NewNode { id, contents };
    lemma_u64_le_len(contents.len() as u64);
    lemma_u64_le_len(id.node);
    let b = pre + encode_change(c) + rest;
    let e1 = seq![1u8];
    let e2 = encode_nid(id);
    let e3 = u64_le(contents.len() as u64);
    let e4 = contents;
    let q = pre + e1 + e2;
    assert(encode_change(c) == e1 + e2 + e3 + e4);
    assert(b == q + (e3 + e4) + rest) by {
        lemma_seq_assoc(pre, (e1 + e2) + e3, e4);
        lemma_seq_assoc(pre, e1 + e2, e3);
        lemma_seq_assoc(pre, e1, e2);
        lemma_seq_assoc(q + e3, e4, rest);
        lemma_seq_assoc(q, e3, e4 + rest);
        lemma_seq_assoc(q, e3 + e4, rest);
        lemma_seq_assoc(e3, e4, rest);
    };
    lemma_bytes_rt(q, contents, rest);
    assert(q.len() == pre.len() + 41);
}

#[verifier::rlimit(100)]
proof fn lemma_newnode_rt(pre: Seq<u8>, c: ChangeV, rest: Seq<u8>)
    requires
        encodable_change(c),
        c is NewNode,
    ensures
        p_change(pre + encode_change(c) + rest, pre.len() as int) == Some(
            (c, pre.len() as int + encode_change(c).len()),
        ),
{
    let b = pre + encode_change(c) + rest;
    let p = pre.len() as int;
    let id = c->NewNode_id;
    let contents = c->NewNode_contents;
    lemma_u64_le_len(contents.len() as u64);
    lemma_u64_le_len(id.node);
    lemma_nn_head(pre, id, contents, rest);
    lemma_nn_payload(pre, id, contents, rest);
    assert(encode_change(c).len() == 49 + contents.len()) by {
        assert(encode_change(c) == seq![1u8] + encode_nid(id) + u64_le(contents.len() as u64)
            + contents);
    };
}

#[verifier::rlimit(100)]
proof fn lemma_delete_rt(pre: Seq<u8>, c: ChangeV, rest: Seq<u8>)
    requires
        encodable_change(c),
        c is DeleteNode,
    ensures
        p_change(pre + encode_change(c) + rest, pre.len() as int) == Some(
            (c, pre.len() as int + encode_change(c).len()),
        ),
{
    let b = pre + encode_change(c) + rest;
    let p = pre.len() as int;
    let id = c->DeleteNode_id;
    lemma_u64_le_len(id.node);
    let e1 = seq![2u8];
    let e2 = encode_nid(id);
    assert(encode_change(c) == e1 + e2);
    assert(b == ((pre + e1) + e2) + rest) by {
        lemma_seq_assoc(pre, e1, e2);
    };
    assert(p_nid(b, p + 1) == Some((id, p + 1 + e2.len() as int))) by {
        lemma_nid_rt(pre + e1, id, rest);
    };
    assert(b[p] == 2u8);
}

#[verifier::rlimit(100)]
proof fn lemma_edge_rt(pre: Seq<u8>, c: ChangeV, rest: Seq<u8>)
    requires
        encodable_change(c),
        c is NewEdge,
    ensures
        p_change(pre + encode_change(c) + rest, pre.len() as int) == Some(
            (c, pre.len() as int + encode_change(c).len()),
        ),
{
    let b = pre + encode_change(c) + rest;
    let p = pre.len() as int;
    let src = c->NewEdge_src;
    let dst = c->NewEdge_dst;
    lemma_u64_le_len(src.node);
    lemma_u64_le_len(dst.node);
    let e1 = seq![3u8];
    let e2 = encode_nid(src);
    let e3 = encode_nid(dst);
    let q = pre + e1 + e2;
    assert(encode_change(c) == e1 + e2 + e3);
    assert(b == ((pre + e1) + e2) + (e3 + rest)) by {
        lemma_seq_assoc(pre, e1 + e2, e3);
        lemma_seq_assoc(pre, e1, e2);
        lemma_seq_assoc(q, e3, rest);
    };
    assert(p_nid(b, p + 1) == Some((src, p + 1 + e2.len() as int))) by {
        lemma_nid_rt(pre + e1, src, e3 + rest);
    };
    assert(p_nid(b, q.len() as int) == Some((dst, q.len() as int + e3.len()))) by {
        lemma_seq_assoc(pre, e1 + e2, e3);
        lemma_seq_assoc(pre, e1, e2);
        lemma_seq_assoc(q, e3, rest);
        assert(b == q + e3 + rest);
        lemma_nid_rt(q, dst, rest);
    };
    assert(b[p] == 3u8);
}

proof fn lemma_change_rt(pre: Seq<u8>, c: ChangeV, rest: Seq<u8>)
    requires
        encodable_change(c),
    ensures
        p_change(pre + encode_change(c) + rest, pre.len() as int) == Some(
            (c, pre.len() as int + encode_change(c).len()),
        ),
{
    match c {
        ChangeV::NewNode { id, contents } => lemma_newnode_rt(pre, c, rest),
        ChangeV::DeleteNode { id } => lemma_delete_rt(pre, c, rest),
        ChangeV::NewEdge { src, dst } => lemma_edge_rt(pre, c, rest),
    }
}

proof fn lemma_enc_changes_first(cs: Seq<ChangeV>)
    requires
        cs.len() > 0,
    ensures
        encode_changes(cs) == encode_change(cs.first()) + encode_changes(cs.drop_first()),
    decreases cs.len(),
{
    if cs.len() == 1 {
        assert(cs.drop_last() =~= Seq::<ChangeV>::empty());
        assert(cs.drop_first() =~= Seq::<ChangeV>::empty());
        assert(cs.first() == cs.last());
        assert(encode_changes(cs) =~= encode_change(cs.first()) + encode_changes(
            cs.drop_first(),
        ));
    } else {
        lemma_enc_changes_first(cs.drop_last());
        assert(cs.drop_last().first() == cs.first());
        assert(cs.drop_last().drop_first() =~= cs.drop_first().drop_last());
        assert(cs.drop_first().last() == cs.last());
        assert(encode_changes(cs) == encode_changes(cs.drop_last()) + encode_change(cs.last()));
        assert(encode_changes(cs.drop_first()) == encode_changes(cs.drop_first().drop_last())
            + encode_change(cs.last()));
        assert(encode_changes(cs) =~= encode_change(cs.first()) + encode_changes(
            cs.drop_first(),
        ));
    }
}

proof fn lemma_changes_assemble(
    b: Seq<u8>,
    p: int,
    c: ChangeV,
    p2: int,
    tail: Seq<ChangeV>,
    p3: int,
    n: nat,
)
    requires
        p_change(b, p) == Some((c, p2)),
        p_changes(b, p2, n) == Some((tail, p3)),
    ensures
        p_changes(b, p, n + 1) == Some((seq![c] + tail, p3)),
{
}

#[verifier::rlimit(100)]
proof fn lemma_changes_rt(pre: Seq<u8>, cs: Seq<ChangeV>, rest: Seq<u8>)
    requires
        forall|i: int| 0 <= i < cs.len() ==> encodable_change(#[trigger] cs[i]),
    ensures
        p_changes(pre + encode_changes(cs) + rest, pre.len() as int, cs.len() as nat) == Some(
            (cs, pre.len() as int + encode_changes(cs).len()),
        ),
    decreases cs.len(),
{
    let b = pre + encode_changes(cs) + rest;
    let p = pre.len() as int;
    if cs.len() == 0 {
        assert(cs =~= Seq::<ChangeV>::empty());
        assert(p_changes(b, p, 0nat) == Some((Seq::<ChangeV>::empty(), p)));
    } else {
        lemma_enc_changes_first(cs);
        let c = cs.first();
        let tail = cs.drop_first();
        let ec = encode_change(c);
        let ect = encode_changes(tail);
        let pre2 = pre + ec;
        assert(p_change(b, p) == Some((c, p + ec.len() as int))) by {
            lemma_seq_assoc(pre, ec, ect);
            lemma_seq_assoc(pre + ec, ect, rest);
            assert(b == (pre + ec) + (ect + rest));
            lemma_change_rt(pre, c, ect + rest);
        };
        assert(p_changes(b, pre2.len() as int, tail.len() as nat) == Some(
            (tail, pre2.len() as int + ect.len()),
        )) by {
            lemma_seq_assoc(pre, ec, ect);
            assert(b == (pre2 + ect) + rest);
            assert(forall|i: int| 0 <= i < tail.len() ==> encodable_change(#[trigger] tail[i]));
            lemma_changes_rt(pre2, tail, rest);
        };
        lemma_changes_assemble(
            b,
            p,
            c,
            p + ec.len() as int,
            tail,
            pre2.len() as int + ect.len() as int,
            tail.len() as nat,
        );
        assert(seq![c] + tail =~= cs);
    }
}

proof fn lemma_enc_deps_first(ds: Seq<Seq<u8>>)
    requires
        ds.len() > 0,
    ensures
        encode_deps(ds) == ds.first() + encode_deps(ds.drop_first()),
    decreases ds.len(),
{
    if ds.len() == 1 {
        assert(ds.drop_last() =~= Seq::<Seq<u8>>::empty());
        assert(ds.drop_first() =~= Seq::<Seq<u8>>::empty());
        assert(ds.first() == ds.last());
        assert(encode_deps(ds) =~= ds.first() + encode_deps(ds.drop_first()));
    } else {
        lemma_enc_deps_first(ds.drop_last());
        assert(ds.drop_last().first() == ds.first());
        assert(ds.drop_last().drop_first() =~= ds.drop_first().drop_last());
        assert(ds.drop_first().last() == ds.last());
        assert(encode_deps(ds) == encode_deps(ds.drop_last()) + ds.last());
        assert(encode_deps(ds.drop_first()) == encode_deps(ds.drop_first().drop_last())
            + ds.last());
        assert(encode_deps(ds) =~= ds.first() + encode_deps(ds.drop_first()));
    }
}

proof fn lemma_deps_rt(pre: Seq<u8>, ds: Seq<Seq<u8>>, rest: Seq<u8>)
    requires
        forall|i: int| 0 <= i < ds.len() ==> (#[trigger] ds[i]).len() == 32,
    ensures
        p_deps(pre + encode_deps(ds) + rest, pre.len() as int, ds.len() as nat) == Some(
            (ds, pre.len() as int + encode_deps(ds).len()),
        ),
    decreases ds.len(),
{
    let b = pre + encode_deps(ds) + rest;
    let p = pre.len() as int;
    if ds.len() == 0 {
        assert(ds =~= Seq::<Seq<u8>>::empty());
        assert(p_deps(b, p, 0nat) == Some((Seq::<Seq<u8>>::empty(), p)));
    } else {
        lemma_enc_deps_first(ds);
        let d = ds.first();
        let tail = ds.drop_first();
        assert(b =~= pre + d + (encode_deps(tail) + rest));
        assert(b.subrange(p, p + 32) =~= d);
        let pre2 = pre + d;
        assert(b =~= pre2 + encode_deps(tail) + rest);
        lemma_deps_rt(pre2, tail, rest);
        assert(p_deps(b, pre2.len() as int, tail.len() as nat) == Some(
            (tail, pre2.len() as int + encode_deps(tail).len()),
        ));
        assert(seq![d] + tail =~= ds);
    }
}

/// Decoding is the exact inverse of encoding: every patch document that the
/// encoder can emit is decoded back to the identical content.
#[verifier::rlimit(100)]
pub proof fn lemma_codec_round_trip(u: UPView)
    requires
        encodable(u),
    ensures
        decode_spec(encode_spec(u)) == Some(u),
{
    lemma_u64_le_len(u.changes.len() as u64);
    lemma_u64_le_len(u.deps.len() as u64);
    lemma_u64_le_len(encode_utf8(u.author).len() as u64);
    lemma_u64_le_len(encode_utf8(u.description).len() as u64);
    let b = encode_spec(u);
    let ea = encode_str(u.author);
    let ed = encode_str(u.description);
    let enc = u64_le(u.changes.len() as u64);
    let ecs = encode_changes(u.changes);
    let end_ = u64_le(u.deps.len() as u64);
    let eds = encode_deps(u.deps);
    let p1 = ea;
    let p2 = p1 + ed;
    let p3 = p2 + enc;
    let p4 = p3 + ecs;
    let p5 = p4 + end_;
    assert(p_str(b, 0) == Some((u.author, ea.len() as int))) by {
        assert(b =~= Seq::<u8>::empty() + ea + (ed + enc + ecs + end_ + eds));
        lemma_str_rt(Seq::empty(), u.author, ed + enc + ecs + end_ + eds);
    };
    assert(p_str(b, p1.len() as int) == Some((u.description, p1.len() as int + ed.len()))) by {
        assert(b =~= p1 + ed + (enc + ecs + end_ + eds));
        lemma_str_rt(p1, u.description, enc + ecs + end_ + eds);
    };
    assert(p_u64(b, p2.len() as int) == Some((u.changes.len() as u64, p2.len() as int + 8))) by {
        assert(b =~= p2 + enc + (ecs + end_ + eds));
        lemma_word_rt(p2, u.changes.len() as u64, ecs + end_ + eds);
    };
    assert(u.changes.len() as u64 as nat == u.changes.len());
    assert(p_changes(b, p3.len() as int, u.changes.len() as nat) == Some(
        (u.changes, p3.len() as int + ecs.len()),
    )) by {
        assert(b =~= p3 + ecs + (end_ + eds));
        lemma_changes_rt(p3, u.changes, end_ + eds);
    };
    assert(p_u64(b, p4.len() as int) == Some((u.deps.len() as u64, p4.len() as int + 8))) by {
        assert(b =~= p4 + end_ + eds);
        lemma_word_rt(p4, u.deps.len() as u64, eds);
    };
    assert(u.deps.len() as u64 as nat == u.deps.len());
    assert(p_deps(b, p5.len() as int, u.deps.len() as nat) == Some(
        (u.deps, p5.len() as int + eds.len()),
    )) by {
        assert(b =~= p5 + eds + Seq::<u8>::empty());
        lemma_deps_rt(p5, u.deps, Seq::empty());
    };
    assert(p5.len() + eds.len() == b.len());
}

} // verus!
