use crate::patch::{zero_id, PatchId};
use vstd::prelude::*;

verus! {

/// Mathematical form of a node reference: the originating patch's id bytes
/// and the node's local index within that patch.
pub ghost struct NodeIdV {
    pub patch: Seq<u8>,
    pub node: u64,
}

/// A reference to one node of a digle: the patch that introduced the node,
/// and the node's local index within that patch. A reference whose patch
/// component is the all-zero placeholder points at a node introduced earlier
/// in the same, not yet identified, patch.
#[derive(Debug, PartialEq, Eq, Hash)]
pub struct NodeId {
    pub patch: PatchId,
    pub node: u64,
}

impl View for NodeId {
    type V = NodeIdV;

    open spec fn view(&self) -> NodeIdV {
        NodeIdV { patch: self.patch@, node: self.node }
    }
}

impl NodeId {
    pub open spec fn wf(&self) -> bool {
        self.patch.wf()
    }

    /// A reference to node `node` of the patch currently being built.
    pub fn cur(node: u64) -> (r: NodeId)
        ensures
            r@ == (NodeIdV { patch: zero_id(), node }),
            r.wf(),
    {
        NodeId { patch: PatchId::cur(), node }
    }

    /// An exact copy.
    pub fn dup(&self) -> (r: NodeId)
        ensures
            r@ == self@,
            r.wf() == self.wf(),
    {
        NodeId { patch: self.patch.dup(), node: self.node }
    }

    /// Byte-for-byte equality of the two references.
    pub fn eq_id(&self, other: &NodeId) -> (r: bool)
        ensures
            r == (self@ == other@),
    {
        self.node == other.node && self.patch.eq_id(&other.patch)
    }
}

/// Mathematical form of one graph-mutation operation.
pub ghost enum ChangeV {
    NewNode { id: NodeIdV, contents: Seq<u8> },
    DeleteNode { id: NodeIdV },
    NewEdge { src: NodeIdV, dst: NodeIdV },
}

/// One atomic graph-mutation operation carried by a patch.
#[derive(Debug, PartialEq, Eq)]
pub enum Change {
    /// Introduce a node holding one line of content.
    NewNode { id: NodeId, contents: Vec<u8> },
    /// Mark an existing node as deleted (the node is retained for history).
    DeleteNode { id: NodeId },
    /// Introduce an ordering/adjacency relation between two nodes.
    NewEdge { src: NodeId, dst: NodeId },
}

impl View for Change {
    type V = ChangeV;

    open spec fn view(&self) -> ChangeV {
        match self {
            Change::NewNode { id, contents } => ChangeV::NewNode { id: id@, contents: contents@ },
            Change::DeleteNode { id } => ChangeV::DeleteNode { id: id@ },
            Change::NewEdge { src, dst } => ChangeV::NewEdge { src: src@, dst: dst@ },
        }
    }
}

impl Change {
    pub open spec fn wf(&self) -> bool {
        match self {
            Change::NewNode { id, contents } => id.wf(),
            Change::DeleteNode { id } => id.wf(),
            Change::NewEdge { src, dst } => src.wf() && dst.wf(),
        }
    }
}

/// Substitution of the placeholder patch id by a concrete one, on one node
/// reference.
pub open spec fn subst_nid(n: NodeIdV, id: Seq<u8>) -> NodeIdV {
    if n.patch == zero_id() {
        NodeIdV { patch: id, node: n.node }
    } else {
        n
    }
}

/// Substitution of the placeholder patch id by a concrete one, on one change.
pub open spec fn subst_change(c: ChangeV, id: Seq<u8>) -> ChangeV {
    match c {
        ChangeV::NewNode { id: nid, contents } => ChangeV::NewNode {
            id: subst_nid(nid, id),
            contents,
        },
        ChangeV::DeleteNode { id: nid } => ChangeV::DeleteNode { id: subst_nid(nid, id) },
        ChangeV::NewEdge { src, dst } => ChangeV::NewEdge {
            src: subst_nid(src, id),
            dst: subst_nid(dst, id),
        },
    }
}

/// True when no node reference of the change uses the placeholder patch id.
pub open spec fn no_placeholder(c: ChangeV) -> bool {
    match c {
        ChangeV::NewNode { id, contents } => id.patch != zero_id(),
        ChangeV::DeleteNode { id } => id.patch != zero_id(),
        ChangeV::NewEdge { src, dst } => src.patch != zero_id() && dst.patch != zero_id(),
    }
}

/// The ordered sequence of changes that one patch carries. Later entries may
/// reference nodes created by earlier entries of the same patch.
#[derive(Debug, PartialEq, Eq)]
pub struct Changes {
    pub changes: Vec<Change>,
}

impl View for Changes {
    type V = Seq<ChangeV>;

    open spec fn view(&self) -> Seq<ChangeV> {
        self.changes@.map_values(|c: Change| c@)
    }
}

impl Changes {
    pub open spec fn wf(&self) -> bool {
        forall|i: int| 0 <= i < self.changes@.len() ==> (#[trigger] self.changes@[i]).wf()
    }

    /// An empty change sequence.
    pub fn new() -> (r: Changes)
        ensures
            r@ =~= Seq::<ChangeV>::empty(),
            r.wf(),
    {
        Changes { changes: Vec::new() }
    }

    /// Appends one change.
    pub fn push(&mut self, c: Change)
        requires
            old(self).wf(),
            c.wf(),
        ensures
            final(self)@ =~= old(self)@.push(c@),
            final(self).wf(),
    {
        self.changes.push(c);
        proof {
            assert(final(self)@ =~= old(self)@.push(c@));
        }
    }

    /// Rewrites, in every node reference of every change, the placeholder
    /// patch id to `id`. References to other patches are left untouched.
    pub fn set_patch_id(&mut self, id: &PatchId)
        requires
            old(self).wf(),
            id.wf(),
        ensures
            final(self)@ =~= old(self)@.map_values(|c: ChangeV| subst_change(c, id@)),
            final(self).wf(),
    {
        let n = self.changes.len();
        let mut out: Vec<Change> = Vec::new();
        let mut i: usize = 0;
        while i < n
            invariant
                n == self.changes@.len(),
                self == old(self),
                old(self).wf(),
                id.wf(),
                i <= n,
                out@.len() == i,
                forall|j: int|
                    0 <= j < i ==> (#[trigger] out@[j])@ == subst_change(old(self)@[j], id@),
                forall|j: int| 0 <= j < out@.len() ==> (#[trigger] out@[j]).wf(),
            decreases n - i,
        {
            proof {
                assert(old(self)@[i as int] == self.changes@[i as int]@);
            }
            let c = subst_change_exec(&self.changes[i], id);
            out.push(c);
            i += 1;
        }
        self.changes = out;
        proof {
            assert(final(self)@ =~= old(self)@.map_values(|c: ChangeV| subst_change(c, id@)));
        }
    }
}

/// One change with the placeholder patch id replaced by `id`.
fn subst_change_exec(c: &Change, id: &PatchId) -> (r: Change)
    requires
        c.wf(),
        id.wf(),
    ensures
        r@ == subst_change(c@, id@),
        r.wf(),
{
    match c {
        Change::NewNode { id: nid, contents } => Change::NewNode {
            id: subst_nid_exec(nid, id),
            contents: dup_bytes(contents),
        },
        Change::DeleteNode { id: nid } => Change::DeleteNode { id: subst_nid_exec(nid, id) },
        Change::NewEdge { src, dst } => Change::NewEdge {
            src: subst_nid_exec(src, id),
            dst: subst_nid_exec(dst, id),
        },
    }
}

/// One node reference with the placeholder patch id replaced by `id`.
fn subst_nid_exec(n: &NodeId, id: &PatchId) -> (r: NodeId)
    requires
        n.wf(),
        id.wf(),
    ensures
        r@ == subst_nid(n@, id@),
        r.wf(),
{
    if n.patch.is_cur() {
        NodeId { patch: id.dup(), node: n.node }
    } else {
        n.dup()
    }
}

/// An exact copy of a byte vector.
pub fn dup_bytes(v: &Vec<u8>) -> (r: Vec<u8>)
    ensures
        r@ == v@,
{
    let mut r: Vec<u8> = Vec::new();
    let mut i: usize = 0;
    while i < v.len()
        invariant
            i <= v@.len(),
            r@ =~= v@.take(i as int),
        decreases v@.len() - i,
    {
        r.push(v[i]);
        proof {
            assert(r@ =~= v@.take(i + 1));
        }
        i += 1;
    }
    proof {
        assert(v@.take(v@.len() as int) =~= v@);
    }
    r
}

/// No placeholder reference survives substitution by a non-placeholder id,
/// in any change of a sequence.
pub proof fn lemma_no_placeholder_after_subst(cs: Seq<ChangeV>, id: Seq<u8>)
    requires
        id != zero_id(),
    ensures
        forall|i: int|
            0 <= i < cs.len() ==> no_placeholder(
                #[trigger] subst_change(cs[i], id),
            ),
{
    assert forall|i: int| 0 <= i < cs.len() implies no_placeholder(
        #[trigger] subst_change(cs[i], id),
    ) by {
        match cs[i] {
            ChangeV::NewNode { id: nid, contents } => {}
            ChangeV::DeleteNode { id: nid } => {}
            ChangeV::NewEdge { src, dst } => {}
        }
    }
}

/// Substitution of a concrete patch id by the placeholder, on one node
/// reference: the inverse rewriting used when an identified patch is
/// serialized.
pub open spec fn unset_nid(n: NodeIdV, id: Seq<u8>) -> NodeIdV {
    if n.patch == id {
        NodeIdV { patch: zero_id(), node: n.node }
    } else {
        n
    }
}

/// Substitution of a concrete patch id by the placeholder, on one change.
pub open spec fn unset_change(c: ChangeV, id: Seq<u8>) -> ChangeV {
    match c {
        ChangeV::NewNode { id: nid, contents } => ChangeV::NewNode {
            id: unset_nid(nid, id),
            contents,
        },
        ChangeV::DeleteNode { id: nid } => ChangeV::DeleteNode { id: unset_nid(nid, id) },
        ChangeV::NewEdge { src, dst } => ChangeV::NewEdge {
            src: unset_nid(src, id),
            dst: unset_nid(dst, id),
        },
    }
}

impl Changes {
    /// A copy of the change sequence with every reference to patch `id`
    /// rewritten back to the placeholder.
    pub fn dup_without_id(&self, id: &PatchId) -> (r: Changes)
        requires
            self.wf(),
        ensures
            r@ =~= self@.map_values(|c: ChangeV| unset_change(c, id@)),
            r.wf(),
    {
        let n = self.changes.len();
        let mut out: Vec<Change> = Vec::new();
        let mut i: usize = 0;
        while i < n
            invariant
                self.wf(),
                n == self.changes@.len(),
                i <= n,
                out@.len() == i,
                forall|j: int|
                    0 <= j < i ==> (#[trigger] out@[j])@ == unset_change(self@[j], id@),
                forall|j: int| 0 <= j < out@.len() ==> (#[trigger] out@[j]).wf(),
            decreases n - i,
        {
            proof {
                assert(self@[i as int] == self.changes@[i as int]@);
            }
            let c = unset_change_exec(&self.changes[i], id);
            out.push(c);
            i += 1;
        }
        let r = Changes { changes: out };
        proof {
            assert(r@ =~= self@.map_values(|c: ChangeV| unset_change(c, id@)));
        }
        r
    }
}

/// One change with references to patch `id` rewritten to the placeholder.
fn unset_change_exec(c: &Change, id: &PatchId) -> (r: Change)
    requires
        c.wf(),
    ensures
        r@ == unset_change(c@, id@),
        r.wf(),
{
    match c {
        Change::NewNode { id: nid, contents } => Change::NewNode {
            id: unset_nid_exec(nid, id),
            contents: dup_bytes(contents),
        },
        Change::DeleteNode { id: nid } => Change::DeleteNode { id: unset_nid_exec(nid, id) },
        Change::NewEdge { src, dst } => Change::NewEdge {
            src: unset_nid_exec(src, id),
            dst: unset_nid_exec(dst, id),
        },
    }
}

/// One node reference with patch `id` rewritten to the placeholder.
fn unset_nid_exec(n: &NodeId, id: &PatchId) -> (r: NodeId)
    requires
        n.wf(),
    ensures
        r@ == unset_nid(n@, id@),
        r.wf(),
{
    if n.patch.eq_id(id) {
        NodeId { patch: PatchId::cur(), node: n.node }
    } else {
        n.dup()
    }
}

/// Byte-for-byte equality of two byte vectors.
pub fn bytes_eq(x: &Vec<u8>, y: &Vec<u8>) -> (r: bool)
    ensures
        r == (x@ == y@),
{
    if x.len() != y.len() {
        proof {
            assert(x@.len() != y@.len());
        }
        return false;
    }
    let n = x.len();
    let mut k: usize = 0;
    while k < n
        invariant
            n == x@.len(),
            n == y@.len(),
            k <= n,
            forall|t: int| 0 <= t < k ==> x@[t] == y@[t],
        decreases n - k,
    {
        if x[k] != y[k] {
            return false;
        }
        k += 1;
    }
    proof {
        assert(x@ =~= y@);
    }
    true
}

/// The bytes of `v` from `from` (inclusive) to `to` (exclusive).
pub fn sub_bytes(v: &Vec<u8>, from: usize, to: usize) -> (r: Vec<u8>)
    requires
        from <= to <= v@.len(),
    ensures
        r@ == v@.subrange(from as int, to as int),
{
    let mut r: Vec<u8> = Vec::new();
    let mut k: usize = from;
    while k < to
        invariant
            from <= k <= to <= v@.len(),
            r@ =~= v@.subrange(from as int, k as int),
        decreases to - k,
    {
        r.push(v[k]);
        proof {
            assert(r@ =~= v@.subrange(from as int, k + 1));
        }
        k += 1;
    }
    r
}

/// True when some node reference of the change names patch `id` outright.
pub open spec fn mentions_patch(c: ChangeV, id: Seq<u8>) -> bool {
    match c {
        ChangeV::NewNode { id: n, contents } => n.patch == id,
        ChangeV::DeleteNode { id: n } => n.patch == id,
        ChangeV::NewEdge { src, dst } => src.patch == id || dst.patch == id,
    }
}

/// Resolving the placeholders of a change and then writing them back as
/// placeholders is the identity, as long as the change did not already name
/// the id being substituted.
pub proof fn lemma_subst_unset(c: ChangeV, id: Seq<u8>)
    requires
        !mentions_patch(c, id),
    ensures
        unset_change(subst_change(c, id), id) == c,
{
}

/// Writing a fully resolved change in placeholder form and resolving it
/// again is the identity.
pub proof fn lemma_unset_subst(c: ChangeV, id: Seq<u8>)
    requires
        no_placeholder(c),
    ensures
        subst_change(unset_change(c, id), id) == c,
{
}

} // verus!
