use crate::change::{Change, ChangeV, Changes, NodeId, NodeIdV};
use vstd::prelude::*;

verus! {

/// One node of a digle: the stable identifier of a line insertion and a
/// soft-delete flag. Deleted nodes are retained so that deletions can be
/// reversed and conflicts tracked.
pub struct DigleNode {
    pub id: NodeId,
    pub live: bool,
}

/// One ordering/adjacency edge of a digle.
pub struct DigleEdge {
    pub src: NodeId,
    pub dst: NodeId,
}

/// Mathematical form of an edge.
pub ghost struct EdgeV {
    pub src: NodeIdV,
    pub dst: NodeIdV,
}

pub open spec fn edge_v(e: DigleEdge) -> EdgeV {
    EdgeV { src: e.src@, dst: e.dst@ }
}

/// Mathematical form of a digle: which nodes exist, whether each is live,
/// and which edges exist.
pub ghost struct DigleV {
    pub nodes: Map<NodeIdV, bool>,
    pub edges: Set<EdgeV>,
}

/// Every edge of a digle joins nodes that exist.
pub open spec fn digle_inv(d: DigleV) -> bool {
    forall|e: EdgeV|
        #[trigger] d.edges.contains(e) ==> d.nodes.contains_key(e.src) && d.nodes.contains_key(
            e.dst,
        )
}

pub open spec fn unique_ids(s: Seq<DigleNode>) -> bool {
    forall|p: int, q: int| 0 <= p < q < s.len() ==> s[p].id@ != s[q].id@
}

pub open spec fn unique_edges(s: Seq<DigleEdge>) -> bool {
    forall|p: int, q: int| 0 <= p < q < s.len() ==> edge_v(s[p]) != edge_v(s[q])
}

pub closed spec fn nmap(s: Seq<DigleNode>) -> Map<NodeIdV, bool>
    decreases s.len(),
{
    if s.len() == 0 {
        Map::empty()
    } else {
        nmap(s.drop_last()).insert(s.last().id@, s.last().live)
    }
}

pub closed spec fn eset(s: Seq<DigleEdge>) -> Set<EdgeV>
    decreases s.len(),
{
    if s.len() == 0 {
        Set::empty()
    } else {
        eset(s.drop_last()).insert(edge_v(s.last()))
    }
}

proof fn lemma_nmap_char(s: Seq<DigleNode>)
    ensures
        forall|k: NodeIdV| #![auto]
            nmap(s).contains_key(k) <==> exists|i: int| 0 <= i < s.len() && s[i].id@ == k,
    decreases s.len(),
{
    if s.len() > 0 {
        lemma_nmap_char(s.drop_last());
        assert forall|k: NodeIdV| #![auto] nmap(s).contains_key(k) implies exists|i: int|
            0 <= i < s.len() && s[i].id@ == k by {
            if k == s.last().id@ {
                assert(s[s.len() - 1].id@ == k);
            } else {
                assert(nmap(s.drop_last()).contains_key(k));
                let i = choose|i: int| 0 <= i < s.drop_last().len() && s.drop_last()[i].id@ == k;
                assert(s[i].id@ == k);
            }
        }
        assert forall|k: NodeIdV| #![auto]
            (exists|i: int| 0 <= i < s.len() && s[i].id@ == k) implies nmap(s).contains_key(
            k,
        ) by {
            let i = choose|i: int| 0 <= i < s.len() && s[i].id@ == k;
            assert(nmap(s) == nmap(s.drop_last()).insert(s.last().id@, s.last().live));
            if i < s.len() - 1 {
                assert(s.drop_last()[i].id@ == k);
                assert(nmap(s.drop_last()).contains_key(k));
            } else {
                assert(k == s.last().id@);
            }
        }
    }
}

proof fn lemma_nmap_value(s: Seq<DigleNode>)
    requires
        unique_ids(s),
    ensures
        forall|i: int|
            0 <= i < s.len() ==> nmap(s).contains_key(#[trigger] s[i].id@) && nmap(s)[s[i].id@]
                == s[i].live,
    decreases s.len(),
{
    if s.len() > 0 {
        lemma_nmap_value(s.drop_last());
        assert forall|i: int| 0 <= i < s.len() implies nmap(s).contains_key(
            #[trigger] s[i].id@,
        ) && nmap(s)[s[i].id@] == s[i].live by {
            if i < s.len() - 1 {
                assert(s.drop_last()[i] == s[i]);
                assert(s[i].id@ != s.last().id@);
            }
        }
    }
}

proof fn lemma_eset_char(s: Seq<DigleEdge>)
    ensures
        forall|e: EdgeV| #![auto]
            eset(s).contains(e) <==> exists|i: int| 0 <= i < s.len() && edge_v(s[i]) == e,
    decreases s.len(),
{
    if s.len() > 0 {
        lemma_eset_char(s.drop_last());
        assert forall|e: EdgeV| #![auto] eset(s).contains(e) implies exists|i: int|
            0 <= i < s.len() && edge_v(s[i]) == e by {
            if e == edge_v(s.last()) {
                assert(edge_v(s[s.len() - 1]) == e);
            } else {
                assert(eset(s.drop_last()).contains(e));
                let i = choose|i: int|
                    0 <= i < s.drop_last().len() && edge_v(s.drop_last()[i]) == e;
                assert(edge_v(s[i]) == e);
            }
        }
        assert forall|e: EdgeV| #![auto]
            (exists|i: int| 0 <= i < s.len() && edge_v(s[i]) == e) implies eset(s).contains(
            e,
        ) by {
            let i = choose|i: int| 0 <= i < s.len() && edge_v(s[i]) == e;
            assert(eset(s) == eset(s.drop_last()).insert(edge_v(s.last())));
            if i < s.len() - 1 {
                assert(edge_v(s.drop_last()[i]) == e);
                assert(eset(s.drop_last()).contains(e));
            } else {
                assert(e == edge_v(s.last()));
            }
        }
    }
}

/// The persistent per-file graph-history structure: an arena of nodes keyed
/// by stable (patch, index) identifiers, plus an edge table. Soft deletion
/// keeps identifiers valid across apply/unapply cycles.
pub struct Digle {
    nodes: Vec<DigleNode>,
    edges: Vec<DigleEdge>,
}

impl View for Digle {
    type V = DigleV;

    closed spec fn view(&self) -> DigleV {
        DigleV { nodes: nmap(self.nodes@), edges: eset(self.edges@) }
    }
}

impl Digle {
    pub closed spec fn wf(&self) -> bool {
        unique_ids(self.nodes@) && unique_edges(self.edges@)
    }

    /// The empty digle.
    pub fn new() -> (r: Digle)
        ensures
            r.wf(),
            r@.nodes =~= Map::<NodeIdV, bool>::empty(),
            r@.edges =~= Set::<EdgeV>::empty(),
    {
        Digle { nodes: Vec::new(), edges: Vec::new() }
    }

    fn find_node(&self, id: &NodeId) -> (r: Option<usize>)
        ensures
            match r {
                Some(i) => i < self.nodes@.len() && self.nodes@[i as int].id@ == id@,
                None => forall|j: int| 0 <= j < self.nodes@.len() ==> self.nodes@[j].id@ != id@,
            },
    {
        let n = self.nodes.len();
        let mut i: usize = 0;
        while i < n
            invariant
                n == self.nodes@.len(),
                i <= n,
                forall|j: int| 0 <= j < i ==> self.nodes@[j].id@ != id@,
            decreases n - i,
        {
            if self.nodes[i].id.eq_id(id) {
                return Some(i);
            }
            i += 1;
        }
        None
    }

    fn find_edge(&self, src: &NodeId, dst: &NodeId) -> (r: Option<usize>)
        ensures
            match r {
                Some(i) => i < self.edges@.len() && edge_v(self.edges@[i as int]) == (EdgeV {
                    src: src@,
                    dst: dst@,
                }),
                None => forall|j: int|
                    0 <= j < self.edges@.len() ==> edge_v(self.edges@[j]) != (EdgeV {
                        src: src@,
                        dst: dst@,
                    }),
            },
    {
        let n = self.edges.len();
        let mut i: usize = 0;
        while i < n
            invariant
                n == self.edges@.len(),
                i <= n,
                forall|j: int|
                    0 <= j < i ==> edge_v(self.edges@[j]) != (EdgeV { src: src@, dst: dst@ }),
            decreases n - i,
        {
            if self.edges[i].src.eq_id(src) && self.edges[i].dst.eq_id(dst) {
                return Some(i);
            }
            i += 1;
        }
        None
    }

    /// True when a node with this identifier exists, live or deleted.
    pub fn has_node(&self, id: &NodeId) -> (r: bool)
        ensures
            r == self@.nodes.contains_key(id@),
    {
        proof {
            lemma_nmap_char(self.nodes@);
        }
        match self.find_node(id) {
            Some(_) => true,
            None => false,
        }
    }

    /// Whether the node exists, and if so whether it is live.
    pub fn node_state(&self, id: &NodeId) -> (r: Option<bool>)
        requires
            self.wf(),
        ensures
            match r {
                Some(live) => self@.nodes.contains_key(id@) && self@.nodes[id@] == live,
                None => !self@.nodes.contains_key(id@),
            },
    {
        proof {
            lemma_nmap_char(self.nodes@);
            lemma_nmap_value(self.nodes@);
        }
        match self.find_node(id) {
            Some(i) => Some(self.nodes[i].live),
            None => None,
        }
    }

    /// True when the digle holds this exact edge.
    pub fn has_edge(&self, src: &NodeId, dst: &NodeId) -> (r: bool)
        ensures
            r == self@.edges.contains(EdgeV { src: src@, dst: dst@ }),
    {
        proof {
            lemma_eset_char(self.edges@);
        }
        match self.find_edge(src, dst) {
            Some(_) => true,
            None => false,
        }
    }

    fn add_node(&mut self, id: NodeId)
        requires
            old(self).wf(),
            !old(self)@.nodes.contains_key(id@),
        ensures
            final(self).wf(),
            final(self)@.nodes == old(self)@.nodes.insert(id@, true),
            final(self)@.edges == old(self)@.edges,
    {
        proof {
            lemma_nmap_char(self.nodes@);
        }
        let ghost pre = self.nodes@;
        self.nodes.push(DigleNode { id, live: true });
        proof {
            assert(self.nodes@.drop_last() =~= pre);
            assert(forall|j: int| 0 <= j < pre.len() ==> pre[j].id@ != self.nodes@.last().id@);
        }
    }

    fn set_live(&mut self, id: &NodeId, live: bool)
        requires
            old(self).wf(),
            old(self)@.nodes.contains_key(id@),
        ensures
            final(self).wf(),
            final(self)@.nodes == old(self)@.nodes.insert(id@, live),
            final(self)@.edges == old(self)@.edges,
    {
        proof {
            lemma_nmap_char(self.nodes@);
        }
        match self.find_node(id) {
            Some(i) => {
                let ghost pre = self.nodes@;
                let nid = self.nodes[i].id.dup();
                self.nodes[i] = DigleNode { id: nid, live };
                proof {
                    let post = self.nodes@;
                    assert(post =~= pre.update(i as int, DigleNode { id: self.nodes@[i as int].id, live }));
                    assert(forall|j: int| 0 <= j < post.len() ==> post[j].id@ == pre[j].id@);
                    lemma_nmap_value(pre);
                    lemma_nmap_value(post);
                    lemma_nmap_char(post);
                    assert(nmap(post) =~= nmap(pre).insert(id@, live)) by {
                        lemma_nmap_char(pre);
                        lemma_nmap_char(post);
                        assert forall|k: NodeIdV| #![auto] nmap(post).contains_key(k) implies nmap(
                            pre,
                        ).insert(id@, live).contains_key(k) by {
                            let j = choose|j: int| 0 <= j < post.len() && post[j].id@ == k;
                            assert(pre[j].id@ == k);
                        }
                        assert forall|k: NodeIdV| #![auto]
                            nmap(pre).insert(id@, live).contains_key(k) implies nmap(
                            post,
                        ).contains_key(k) by {
                            if k == id@ {
                                assert(post[i as int].id@ == k);
                            } else {
                                let j = choose|j: int| 0 <= j < pre.len() && pre[j].id@ == k;
                                assert(post[j].id@ == k);
                            }
                        }
                        assert forall|k: NodeIdV| #![auto] nmap(post).contains_key(k) implies nmap(
                            post,
                        )[k] == nmap(pre).insert(id@, live)[k] by {
                            let j = choose|j: int| 0 <= j < post.len() && post[j].id@ == k;
                            if k == id@ {
                                assert(j == i) by {
                                    if j != i {
                                        assert(pre[j].id@ == pre[i as int].id@);
                                    }
                                }
                            } else {
                                assert(pre[j].id@ == k);
                            }
                        }
                    }
                }
            },
            None => {
                proof {
                    assert(false);
                }
            },
        }
    }

    fn remove_node(&mut self, id: &NodeId)
        requires
            old(self).wf(),
            old(self)@.nodes.contains_key(id@),
        ensures
            final(self).wf(),
            final(self)@.nodes == old(self)@.nodes.remove(id@),
            final(self)@.edges == old(self)@.edges,
    {
        proof {
            lemma_nmap_char(self.nodes@);
        }
        match self.find_node(id) {
            Some(i) => {
                let ghost pre = self.nodes@;
                self.nodes.swap_remove(i);
                proof {
                    let post = self.nodes@;
                    assert(post =~= pre.update(i as int, pre.last()).drop_last());
                    assert(forall|j: int|
                        0 <= j < post.len() ==> post[j] == (if j == i {
                            pre.last()
                        } else {
                            pre[j]
                        }));
                    assert forall|p: int, q: int| 0 <= p < q < post.len() implies post[p].id@
                        != post[q].id@ by {
                        assert(q != pre.len() - 1);
                        assert(p != pre.len() - 1);
                    }
                    lemma_nmap_char(pre);
                    lemma_nmap_char(post);
                    lemma_nmap_value(pre);
                    lemma_nmap_value(post);
                    assert(nmap(post) =~= nmap(pre).remove(id@)) by {
                        assert forall|k: NodeIdV| #![auto] nmap(post).contains_key(k) implies (nmap(
                            pre,
                        ).contains_key(k) && k != id@) by {
                            let j = choose|j: int| 0 <= j < post.len() && post[j].id@ == k;
                            if j == i {
                                assert(pre[pre.len() - 1].id@ == k);
                                assert(k != pre[i as int].id@);
                            } else {
                                assert(pre[j].id@ == k);
                                assert(k != pre[i as int].id@);
                            }
                        }
                        assert forall|k: NodeIdV| #![auto]
                            nmap(pre).contains_key(k) && k != id@ implies nmap(
                            post,
                        ).contains_key(k) by {
                            let j = choose|j: int| 0 <= j < pre.len() && pre[j].id@ == k;
                            if j == pre.len() - 1 {
                                assert(i < pre.len() - 1);
                                assert(post[i as int].id@ == k);
                            } else {
                                assert(j != i);
                                assert(post[j].id@ == k);
                            }
                        }
                        assert forall|k: NodeIdV| #![auto] nmap(post).contains_key(k) implies nmap(
                            post,
                        )[k] == nmap(pre)[k] by {
                            let j = choose|j: int| 0 <= j < post.len() && post[j].id@ == k;
                            if j == i {
                                assert(nmap(pre)[pre[pre.len() - 1].id@] == pre[pre.len()
                                    - 1].live);
                            } else {
                                assert(nmap(pre)[pre[j].id@] == pre[j].live);
                            }
                        }
                    }
                }
            },
            None => {
                proof {
                    assert(false);
                }
            },
        }
    }

    fn add_edge(&mut self, src: NodeId, dst: NodeId)
        requires
            old(self).wf(),
            !old(self)@.edges.contains(EdgeV { src: src@, dst: dst@ }),
        ensures
            final(self).wf(),
            final(self)@.nodes == old(self)@.nodes,
            final(self)@.edges == old(self)@.edges.insert(EdgeV { src: src@, dst: dst@ }),
    {
        proof {
            lemma_eset_char(self.edges@);
        }
        let ghost pre = self.edges@;
        self.edges.push(DigleEdge { src, dst });
        proof {
            assert(self.edges@.drop_last() =~= pre);
            assert(forall|j: int|
                0 <= j < pre.len() ==> edge_v(pre[j]) != edge_v(self.edges@.last()));
        }
    }

    fn remove_edge(&mut self, src: &NodeId, dst: &NodeId)
        requires
            old(self).wf(),
            old(self)@.edges.contains(EdgeV { src: src@, dst: dst@ }),
        ensures
            final(self).wf(),
            final(self)@.nodes == old(self)@.nodes,
            final(self)@.edges == old(self)@.edges.remove(EdgeV { src: src@, dst: dst@ }),
    {
        proof {
            lemma_eset_char(self.edges@);
        }
        match self.find_edge(src, dst) {
            Some(i) => {
                let ghost pre = self.edges@;
                let ghost ev = EdgeV { src: src@, dst: dst@ };
                self.edges.swap_remove(i);
                proof {
                    let post = self.edges@;
                    assert(post =~= pre.update(i as int, pre.last()).drop_last());
                    assert(forall|j: int|
                        0 <= j < post.len() ==> post[j] == (if j == i {
                            pre.last()
                        } else {
                            pre[j]
                        }));
                    assert forall|p: int, q: int| 0 <= p < q < post.len() implies edge_v(post[p])
                        != edge_v(post[q]) by {
                        assert(q != pre.len() - 1);
                        assert(p != pre.len() - 1);
                    }
                    lemma_eset_char(pre);
                    lemma_eset_char(post);
                    assert(eset(post) =~= eset(pre).remove(ev)) by {
                        assert forall|e: EdgeV| #![auto] eset(post).contains(e) implies (eset(
                            pre,
                        ).contains(e) && e != ev) by {
                            let j = choose|j: int| 0 <= j < post.len() && edge_v(post[j]) == e;
                            if j == i {
                                assert(edge_v(pre[pre.len() - 1]) == e);
                                assert(e != edge_v(pre[i as int]));
                            } else {
                                assert(edge_v(pre[j]) == e);
                                assert(e != edge_v(pre[i as int]));
                            }
                        }
                        assert forall|e: EdgeV| #![auto]
                            eset(pre).contains(e) && e != ev implies eset(post).contains(e) by {
                            let j = choose|j: int| 0 <= j < pre.len() && edge_v(pre[j]) == e;
                            if j == pre.len() - 1 {
                                assert(i < pre.len() - 1);
                                assert(edge_v(post[i as int]) == e);
                            } else {
                                assert(j != i);
                                assert(edge_v(post[j]) == e);
                            }
                        }
                    }
                }
            },
            None => {
                proof {
                    assert(false);
                }
            },
        }
    }
}

/// What one change demands of the digle it is applied to.
pub open spec fn apply_pre(d: DigleV, c: ChangeV) -> bool {
    match c {
        ChangeV::NewNode { id, contents } => !d.nodes.contains_key(id),
        ChangeV::DeleteNode { id } => d.nodes.contains_key(id) && d.nodes[id] == true,
        ChangeV::NewEdge { src, dst } => d.nodes.contains_key(src) && d.nodes.contains_key(dst)
            && !d.edges.contains(EdgeV { src, dst }),
    }
}

/// The digle after one change.
pub open spec fn apply_change(d: DigleV, c: ChangeV) -> DigleV {
    match c {
        ChangeV::NewNode { id, contents } => DigleV {
            nodes: d.nodes.insert(id, true),
            edges: d.edges,
        },
        ChangeV::DeleteNode { id } => DigleV { nodes: d.nodes.insert(id, false), edges: d.edges },
        ChangeV::NewEdge { src, dst } => DigleV {
            nodes: d.nodes,
            edges: d.edges.insert(EdgeV { src, dst }),
        },
    }
}

/// What undoing one change demands of the digle: the inserted node must be
/// live and unreferenced, the deleted node present and deleted, the edge
/// present.
pub open spec fn unapply_pre(d: DigleV, c: ChangeV) -> bool {
    match c {
        ChangeV::NewNode { id, contents } => d.nodes.contains_key(id) && d.nodes[id] == true
            && forall|e: EdgeV| #[trigger] d.edges.contains(e) ==> e.src != id && e.dst != id,
        ChangeV::DeleteNode { id } => d.nodes.contains_key(id) && d.nodes[id] == false,
        ChangeV::NewEdge { src, dst } => d.edges.contains(EdgeV { src, dst }),
    }
}

/// The digle after undoing one change.
pub open spec fn unapply_change(d: DigleV, c: ChangeV) -> DigleV {
    match c {
        ChangeV::NewNode { id, contents } => DigleV { nodes: d.nodes.remove(id), edges: d.edges },
        ChangeV::DeleteNode { id } => DigleV { nodes: d.nodes.insert(id, true), edges: d.edges },
        ChangeV::NewEdge { src, dst } => DigleV {
            nodes: d.nodes,
            edges: d.edges.remove(EdgeV { src, dst }),
        },
    }
}

/// The digle after a whole change sequence, applied in order.
pub open spec fn apply_seq(d: DigleV, cs: Seq<ChangeV>) -> DigleV
    decreases cs.len(),
{
    if cs.len() == 0 {
        d
    } else {
        apply_change(apply_seq(d, cs.drop_last()), cs.last())
    }
}

/// Every change of the sequence finds its demands met when its turn comes.
pub open spec fn apply_pre_seq(d: DigleV, cs: Seq<ChangeV>) -> bool
    decreases cs.len(),
{
    if cs.len() == 0 {
        true
    } else {
        apply_pre_seq(d, cs.drop_last()) && apply_pre(apply_seq(d, cs.drop_last()), cs.last())
    }
}

/// The digle after undoing a whole change sequence, last change first.
pub open spec fn unapply_seq(d: DigleV, cs: Seq<ChangeV>) -> DigleV
    decreases cs.len(),
{
    if cs.len() == 0 {
        d
    } else {
        unapply_seq(unapply_change(d, cs.last()), cs.drop_last())
    }
}

/// Every change of the sequence finds its demands met when its turn to be
/// undone comes, last change first.
pub open spec fn unapply_pre_seq(d: DigleV, cs: Seq<ChangeV>) -> bool
    decreases cs.len(),
{
    if cs.len() == 0 {
        true
    } else {
        unapply_pre(d, cs.last()) && unapply_pre_seq(unapply_change(d, cs.last()), cs.drop_last())
    }
}

/// Undoing one change exactly reverses applying it, and application keeps
/// the digle's edge invariant.
pub proof fn lemma_change_inverse(d: DigleV, c: ChangeV)
    requires
        digle_inv(d),
        apply_pre(d, c),
    ensures
        digle_inv(apply_change(d, c)),
        unapply_pre(apply_change(d, c), c),
        unapply_change(apply_change(d, c), c) == d,
{
    let d2 = apply_change(d, c);
    match c {
        ChangeV::NewNode { id, contents } => {
            assert(d2.nodes.remove(id) =~= d.nodes);
        },
        ChangeV::DeleteNode { id } => {
            assert(d2.nodes.insert(id, true) =~= d.nodes);
        },
        ChangeV::NewEdge { src, dst } => {
            assert(d2.edges.remove(EdgeV { src, dst }) =~= d.edges);
        },
    }
}

/// Undoing a whole change sequence exactly reverses applying it: the digle
/// returns to its starting state, nodes, edges and liveness alike.
pub proof fn lemma_apply_unapply_seq(d: DigleV, cs: Seq<ChangeV>)
    requires
        digle_inv(d),
        apply_pre_seq(d, cs),
    ensures
        digle_inv(apply_seq(d, cs)),
        unapply_pre_seq(apply_seq(d, cs), cs),
        unapply_seq(apply_seq(d, cs), cs) == d,
    decreases cs.len(),
{
    if cs.len() > 0 {
        let d1 = apply_seq(d, cs.drop_last());
        lemma_apply_unapply_seq(d, cs.drop_last());
        lemma_change_inverse(d1, cs.last());
    }
}

/// A shorter prefix of an applicable change sequence is itself applicable.
pub proof fn lemma_apply_pre_prefix(d: DigleV, cs: Seq<ChangeV>, k: int)
    requires
        apply_pre_seq(d, cs),
        0 <= k <= cs.len(),
    ensures
        apply_pre_seq(d, cs.take(k)),
    decreases cs.len() - k,
{
    if k == cs.len() {
        assert(cs.take(k) =~= cs);
    } else {
        lemma_apply_pre_prefix(d, cs, k + 1);
        assert(cs.take(k + 1).drop_last() =~= cs.take(k));
    }
}

proof fn lemma_unapply_seq_first(d: DigleV, cs: Seq<ChangeV>)
    requires
        cs.len() > 0,
    ensures
        unapply_seq(d, cs) == unapply_change(unapply_seq(d, cs.drop_first()), cs.first()),
    decreases cs.len(),
{
    if cs.len() == 1 {
        assert(cs.drop_first() =~= Seq::<ChangeV>::empty());
        assert(cs.drop_last() =~= Seq::<ChangeV>::empty());
        assert(cs.first() == cs.last());
        assert(unapply_seq(d, cs) == unapply_seq(unapply_change(d, cs.last()), cs.drop_last()));
        assert(unapply_seq(unapply_change(d, cs.last()), cs.drop_last()) == unapply_change(
            d,
            cs.last(),
        ));
        assert(unapply_seq(d, cs.drop_first()) == d);
    } else {
        let d1 = unapply_change(d, cs.last());
        lemma_unapply_seq_first(d1, cs.drop_last());
        assert(cs.drop_last().first() == cs.first());
        assert(cs.drop_last().drop_first() =~= cs.drop_first().drop_last());
        assert(cs.drop_first().last() == cs.last());
        assert(unapply_seq(d, cs) == unapply_change(
            unapply_seq(d1, cs.drop_last().drop_first()),
            cs.first(),
        ));
        assert(cs.drop_first().len() > 0);
        assert(unapply_seq(d, cs.drop_first()) == unapply_seq(
            unapply_change(d, cs.drop_first().last()),
            cs.drop_first().drop_last(),
        ));
        assert(unapply_seq(d, cs.drop_first()) == unapply_seq(d1, cs.drop_last().drop_first()));
    }
}

impl Changes {
    /// Applies the change sequence, in order, to a digle.
    pub fn apply_to_digle(&self, digle: &mut Digle)
        requires
            self.wf(),
            old(digle).wf(),
            apply_pre_seq(old(digle)@, self@),
        ensures
            final(digle).wf(),
            final(digle)@ == apply_seq(old(digle)@, self@),
    {
        let ghost d0 = digle@;
        let ghost cs = self@;
        let n = self.changes.len();
        proof {
            assert(cs.len() == n);
        }
        let mut i: usize = 0;
        proof {
            assert(cs.take(0) =~= Seq::<ChangeV>::empty());
        }
        while i < n
            invariant
                self.wf(),
                n == self.changes@.len(),
                cs == self@,
                cs.len() == n,
                i <= n,
                apply_pre_seq(d0, cs),
                digle.wf(),
                digle@ == apply_seq(d0, cs.take(i as int)),
            decreases n - i,
        {
            proof {
                assert(cs[i as int] == self.changes@[i as int]@);
                lemma_apply_pre_prefix(d0, cs, i + 1);
                assert(cs.take(i + 1).drop_last() =~= cs.take(i as int));
                assert(cs.take(i + 1).last() == cs[i as int]);
            }
            match &self.changes[i] {
                Change::NewNode { id, contents } => {
                    digle.add_node(id.dup());
                },
                Change::DeleteNode { id } => {
                    digle.set_live(id, false);
                },
                Change::NewEdge { src, dst } => {
                    digle.add_edge(src.dup(), dst.dup());
                },
            }
            proof {
                assert(digle@ =~~= apply_seq(d0, cs.take(i + 1)));
            }
            i += 1;
        }
        proof {
            assert(cs.take(n as int) =~= cs);
        }
    }

    /// Undoes the change sequence, last change first, on a digle.
    pub fn unapply_to_digle(&self, digle: &mut Digle)
        requires
            self.wf(),
            old(digle).wf(),
            unapply_pre_seq(old(digle)@, self@),
        ensures
            final(digle).wf(),
            final(digle)@ == unapply_seq(old(digle)@, self@),
    {
        let ghost d0 = digle@;
        let ghost cs = self@;
        let n = self.changes.len();
        proof {
            assert(cs.len() == n);
        }
        let mut i: usize = n;
        proof {
            assert(cs.skip(n as int) =~= Seq::<ChangeV>::empty());
            assert(cs.take(n as int) =~= cs);
        }
        while i > 0
            invariant
                self.wf(),
                n == self.changes@.len(),
                cs == self@,
                cs.len() == n,
                i <= n,
                digle.wf(),
                digle@ == unapply_seq(d0, cs.skip(i as int)),
                unapply_pre_seq(digle@, cs.take(i as int)),
            decreases i,
        {
            proof {
                assert(cs[i - 1] == self.changes@[i - 1]@);
                assert(cs.take(i as int).last() == cs[i - 1]);
                assert(cs.take(i as int).drop_last() =~= cs.take(i - 1));
            }
            match &self.changes[i - 1] {
                Change::NewNode { id, contents } => {
                    digle.remove_node(id);
                },
                Change::DeleteNode { id } => {
                    digle.set_live(id, true);
                },
                Change::NewEdge { src, dst } => {
                    digle.remove_edge(src, dst);
                },
            }
            proof {
                assert(digle@ =~~= unapply_change(unapply_seq(d0, cs.skip(i as int)), cs[i - 1]));
                lemma_unapply_seq_first(d0, cs.skip(i - 1));
                assert(cs.skip(i - 1).first() == cs[i - 1]);
                assert(cs.skip(i - 1).drop_first() =~= cs.skip(i as int));
                assert(digle@ =~~= unapply_seq(d0, cs.skip(i - 1)));
            }
            i -= 1;
        }
        proof {
            assert(cs.skip(0) =~= cs);
        }
    }
}

} // verus!
