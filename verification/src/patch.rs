use crate::change::{
    mentions_patch, no_placeholder, subst_change, unset_change, Change, ChangeV, Changes,
};
use crate::digle::{
    apply_pre_seq, apply_seq, digle_inv, unapply_pre_seq, unapply_seq, Digle, DigleV,
};
use crate::error::Error;
use crate::storage::{store_seq, store_wf, unstore_pre_seq, unstore_seq, Storage};
use vstd::prelude::*;

verus! {

/// A global identifier for a patch: 32 bytes derived from hashing the
/// patch's serialized contents. The all-zero value is reserved as a
/// placeholder meaning "the patch currently being built".
#[derive(Debug, PartialEq, Eq, Hash)]
pub struct PatchId {
    data: Vec<u8>,
}

impl View for PatchId {
    type V = Seq<u8>;

    closed spec fn view(&self) -> Seq<u8> {
        self.data@
    }
}

/// The reserved placeholder value: 32 zero bytes.
pub open spec fn zero_id() -> Seq<u8> {
    Seq::new(32, |i: int| 0u8)
}

impl PatchId {
    /// A well-formed id holds exactly 256 bits.
    pub open spec fn wf(&self) -> bool {
        self@.len() == 32
    }

    /// The placeholder id standing for the patch under construction.
    pub fn cur() -> (r: PatchId)
        ensures
            r@ == zero_id(),
            r.wf(),
    {
        let mut data: Vec<u8> = Vec::new();
        let mut i: usize = 0;
        while i < 32
            invariant
                i <= 32,
                data@ =~= Seq::new(i as nat, |j: int| 0u8),
            decreases 32 - i,
        {
            data.push(0u8);
            i += 1;
        }
        proof {
            assert(data@ =~= zero_id());
        }
        PatchId { data }
    }

    /// Tests for the placeholder.
    pub fn is_cur(&self) -> (r: bool)
        requires
            self.wf(),
        ensures
            r == (self@ == zero_id()),
    {
        let mut i: usize = 0;
        while i < 32
            invariant
                i <= 32,
                self.wf(),
                forall|j: int| 0 <= j < i ==> self@[j] == 0u8,
            decreases 32 - i,
        {
            if *self.data_at(i) != 0u8 {
                proof {
                    assert(self@[i as int] != zero_id()[i as int]);
                }
                return false;
            }
            i += 1;
        }
        proof {
            assert(self@ =~= zero_id());
        }
        true
    }

    fn data_at(&self, i: usize) -> (r: &u8)
        requires
            i < self@.len(),
        ensures
            *r == self@[i as int],
    {
        &self.data[i]
    }

    /// An id built from exactly 32 bytes; `None` on any other length.
    pub fn from_bytes(data: Vec<u8>) -> (r: Option<PatchId>)
        ensures
            data@.len() == 32 ==> (r matches Some(p) && p@ == data@ && p.wf()),
            data@.len() != 32 ==> r is None,
    {
        if data.len() == 32 {
            Some(PatchId { data })
        } else {
            None
        }
    }

    /// The raw 256 bits of the id.
    pub fn bytes(&self) -> (r: &Vec<u8>)
        ensures
            r@ == self@,
    {
        &self.data
    }

    /// An exact copy.
    pub fn dup(&self) -> (r: PatchId)
        ensures
            r@ == self@,
            r.wf() == self.wf(),
    {
        PatchId { data: crate::change::dup_bytes(&self.data) }
    }

    /// Byte-for-byte equality of the two ids.
    pub fn eq_id(&self, other: &PatchId) -> (r: bool)
        ensures
            r == (self@ == other@),
    {
        if self.data.len() != other.data.len() {
            proof {
                assert(self@.len() != other@.len());
            }
            return false;
        }
        let n = self.data.len();
        let mut i: usize = 0;
        while i < n
            invariant
                n == self@.len(),
                n == other@.len(),
                i <= n,
                forall|j: int| 0 <= j < i ==> self@[j] == other@[j],
            decreases n - i,
        {
            if *self.data_at(i) != *other.data_at(i) {
                return false;
            }
            i += 1;
        }
        proof {
            assert(self@ =~= other@);
        }
        true
    }
}

impl DeepView for PatchId {
    type V = Seq<u8>;

    open spec fn deep_view(&self) -> Seq<u8> {
        self@
    }
}

/// What one token of base64's URL_SAFE alphabet encodes.
pub uninterp spec fn b64_of(bytes: Seq<u8>) -> Seq<char>;

/// What base64's URL_SAFE decoder yields: the decoded bytes for a
/// well-formed token, nothing otherwise.
pub uninterp spec fn b64_decode_of(token: Seq<char>) -> Option<Seq<u8>>;

/// What SHA-256 yields for a byte sequence.
pub uninterp spec fn sha256_of(bytes: Seq<u8>) -> Seq<u8>;

/// Relies on base64's URL_SAFE engine: `Engine::encode` depends on the input
/// bytes alone, decoding its result gives the input back, and the URL_SAFE
/// alphabet holds no path separator.
#[verifier::external_body]
fn b64_encode(data: &Vec<u8>) -> (r: String)
    ensures
        r@ == b64_of(data@),
        b64_decode_of(r@) == Some(data@),
        forall|i: int| 0 <= i < r@.len() ==> r@[i] != '/',
{
    base64::Engine::encode(&base64::engine::general_purpose::URL_SAFE, data.as_slice())
}

/// Relies on base64's URL_SAFE engine: `Engine::decode` depends on the input
/// alone and yields bytes exactly for the well-formed tokens of that
/// alphabet.
#[verifier::external_body]
fn b64_decode(token: &str) -> (r: Option<Vec<u8>>)
    ensures
        match r {
            Some(v) => b64_decode_of(token@) == Some(v@),
            None => b64_decode_of(token@) is None,
        },
{
    match base64::Engine::decode(&base64::engine::general_purpose::URL_SAFE, token.as_bytes()) {
        Ok(v) => Some(v),
        Err(_) => None,
    }
}

/// Relies on sha2's `Sha256`: `Digest::digest` depends on the input bytes
/// alone and always yields a 32-byte digest.
#[verifier::external_body]
pub(crate) fn sha256(data: &Vec<u8>) -> (r: Vec<u8>)
    ensures
        r@ == sha256_of(data@),
        r@.len() == 32,
{
    let d = <sha2::Sha256 as sha2::Digest>::digest(data.as_slice());
    d.as_slice().to_vec()
}

/// What decoding a textual patch-id token yields: the 32 decoded bytes, or
/// nothing when the token is malformed or decodes to the wrong length.
pub open spec fn from_token_spec(token: Seq<char>) -> Option<Seq<u8>> {
    match b64_decode_of(token) {
        Some(d) => if d.len() == 32 {
            Some(d)
        } else {
            None
        },
        None => None,
    }
}

impl PatchId {
    /// The filesystem-safe textual token of this id. Decoding the token
    /// gives the id back, and the token never holds a path separator.
    pub fn filename(&self) -> (r: String)
        requires
            self.wf(),
        ensures
            r@ == b64_of(self@),
            from_token_spec(r@) == Some(self@),
            forall|i: int| 0 <= i < r@.len() ==> r@[i] != '/',
    {
        b64_encode(&self.data)
    }

    /// The id whose token is `name`; `MalformedId` when the token is not
    /// well-formed base64 or does not decode to exactly 256 bits.
    pub fn from_filename(name: &str) -> (r: Result<PatchId, Error>)
        ensures
            match r {
                Ok(p) => from_token_spec(name@) == Some(p@) && p.wf(),
                Err(e) => from_token_spec(name@) is None && e == Error::MalformedId,
            },
    {
        match b64_decode(name) {
            Some(data) => {
                if data.len() == 32 {
                    Ok(PatchId { data })
                } else {
                    Err(Error::MalformedId)
                }
            },
            None => Err(Error::MalformedId),
        }
    }
}

/// Purely descriptive information about a patch.
#[derive(Debug, PartialEq, Eq, Hash)]
pub struct PatchHeader {
    pub author: String,
    pub description: String,
}

/// The patch-id sets that one change references: every concrete (non
/// placeholder) patch component among the node references of delete and
/// edge operations. Insert operations reference no existing node.
pub open spec fn change_refs(c: ChangeV) -> Set<Seq<u8>> {
    match c {
        ChangeV::NewNode { id, contents } => Set::empty(),
        ChangeV::DeleteNode { id } => if id.patch == zero_id() {
            Set::empty()
        } else {
            set![id.patch]
        },
        ChangeV::NewEdge { src, dst } => {
            let s = if src.patch == zero_id() {
                Set::<Seq<u8>>::empty()
            } else {
                set![src.patch]
            };
            let d = if dst.patch == zero_id() {
                Set::<Seq<u8>>::empty()
            } else {
                set![dst.patch]
            };
            s.union(d)
        },
    }
}

/// The set of other patches that a change sequence references.
pub open spec fn referenced(cs: Seq<ChangeV>) -> Set<Seq<u8>>
    decreases cs.len(),
{
    if cs.len() == 0 {
        Set::empty()
    } else {
        referenced(cs.drop_last()).union(change_refs(cs.last()))
    }
}

/// A correct dependency list for a change sequence: as a set it is exactly
/// the patches the changes reference, with no duplicate, no placeholder and
/// no ill-formed id.
pub open spec fn deps_ok(deps: Seq<Seq<u8>>, cs: Seq<ChangeV>) -> bool {
    &&& forall|x: Seq<u8>| deps.contains(x) <==> referenced(cs).contains(x)
    &&& forall|i: int, j: int| 0 <= i < j < deps.len() ==> deps[i] != deps[j]
    &&& forall|i: int| 0 <= i < deps.len() ==> deps[i] != zero_id() && deps[i].len() == 32
}

/// Invariant of a dependency list under construction.
pub open spec fn deps_wf(deps: Seq<Seq<u8>>) -> bool {
    &&& forall|i: int, j: int| 0 <= i < j < deps.len() ==> deps[i] != deps[j]
    &&& forall|i: int| 0 <= i < deps.len() ==> deps[i] != zero_id() && deps[i].len() == 32
}

/// True when `deps` holds `x` at some position.
fn contains_pid(deps: &Vec<PatchId>, p: &PatchId) -> (r: bool)
    ensures
        r == deps.deep_view().contains(p@),
{
    let ghost dv = deps.deep_view();
    let n = deps.len();
    let mut i: usize = 0;
    while i < n
        invariant
            dv == deps.deep_view(),
            n == deps@.len(),
            dv.len() == n,
            i <= n,
            forall|j: int| 0 <= j < i ==> dv[j] != p@,
        decreases n - i,
    {
        if deps[i].eq_id(p) {
            proof {
                assert(dv[i as int] == p@);
            }
            return true;
        }
        i += 1;
    }
    proof {
        if dv.contains(p@) {
            let j = choose|j: int| 0 <= j < dv.len() && dv[j] == p@;
            assert(false);
        }
    }
    false
}

/// Adds `p` to the dependency list unless it is the placeholder or already
/// listed.
fn maybe_add_dep(deps: &mut Vec<PatchId>, p: &PatchId)
    requires
        p.wf(),
        deps_wf(old(deps).deep_view()),
    ensures
        deps_wf(final(deps).deep_view()),
        forall|x: Seq<u8>|
            final(deps).deep_view().contains(x) <==> (old(deps).deep_view().contains(x) || (p@
                != zero_id() && x == p@)),
{
    if !p.is_cur() && !contains_pid(deps, p) {
        let ghost dv = deps.deep_view();
        deps.push(p.dup());
        proof {
            assert(final(deps).deep_view() =~= dv.push(p@));
            assert forall|x: Seq<u8>| #[trigger]
                final(deps).deep_view().contains(x) implies (dv.contains(x) || x == p@) by {
                let j = choose|j: int|
                    0 <= j < dv.push(p@).len() && dv.push(p@)[j] == x;
                if j < dv.len() {
                    assert(dv[j] == x);
                }
            };
            assert forall|x: Seq<u8>| dv.contains(x) implies #[trigger]
                final(deps).deep_view().contains(x) by {
                let j = choose|j: int| 0 <= j < dv.len() && dv[j] == x;
                assert(dv.push(p@)[j] == x);
            };
            assert(dv.push(p@)[dv.len() as int] == p@);
        }
    }
}

/// A patch without an identity yet. Node references into the patch itself
/// use the all-zero placeholder; such a patch cannot be applied, but it can
/// be serialized, hashed, and turned into an identified `Patch`.
#[derive(Debug, PartialEq, Eq)]
pub struct UnidentifiedPatch {
    pub header: PatchHeader,
    pub changes: Changes,
    pub deps: Vec<PatchId>,
}

/// Mathematical form of an unidentified patch.
pub ghost struct UPView {
    pub author: Seq<char>,
    pub description: Seq<char>,
    pub changes: Seq<ChangeV>,
    pub deps: Seq<Seq<u8>>,
}

impl View for UnidentifiedPatch {
    type V = UPView;

    open spec fn view(&self) -> UPView {
        UPView {
            author: self.header.author@,
            description: self.header.description@,
            changes: self.changes@,
            deps: self.deps.deep_view(),
        }
    }
}

impl UnidentifiedPatch {
    pub open spec fn wf(&self) -> bool {
        self.changes.wf() && deps_wf(self.deps.deep_view())
    }

    /// Builds an unidentified patch from a header and a change sequence,
    /// inferring as its dependency list exactly the set of other patches
    /// the changes reference.
    pub fn new(author: String, description: String, changes: Changes) -> (r: UnidentifiedPatch)
        requires
            changes.wf(),
        ensures
            r.header.author@ == author@,
            r.header.description@ == description@,
            r.changes == changes,
            r.wf(),
            deps_ok(r.deps.deep_view(), changes@),
    {
        let mut deps: Vec<PatchId> = Vec::new();
        let n = changes.changes.len();
        let mut i: usize = 0;
        while i < n
            invariant
                changes.wf(),
                n == changes.changes@.len(),
                changes@.len() == n,
                i <= n,
                deps_wf(deps.deep_view()),
                forall|x: Seq<u8>|
                    deps.deep_view().contains(x) <==> referenced(
                        changes@.take(i as int),
                    ).contains(x),
            decreases n - i,
        {
            let ghost pre = deps.deep_view();
            proof {
                assert(changes@[i as int] == changes.changes@[i as int]@);
            }
            match &changes.changes[i] {
                Change::NewNode { id, contents } => {},
                Change::DeleteNode { id } => {
                    maybe_add_dep(&mut deps, &id.patch);
                },
                Change::NewEdge { src, dst } => {
                    maybe_add_dep(&mut deps, &src.patch);
                    maybe_add_dep(&mut deps, &dst.patch);
                },
            }
            proof {
                assert(changes@.take(i + 1).drop_last() =~= changes@.take(i as int));
                assert(changes@.take(i + 1).last() == changes@[i as int]);
                assert forall|x: Seq<u8>| #![auto]
                    deps.deep_view().contains(x) <==> referenced(changes@.take(i + 1)).contains(
                    x,
                ) by {
                    assert(referenced(changes@.take(i + 1)) == referenced(
                        changes@.take(i as int),
                    ).union(change_refs(changes@[i as int])));
                };
            }
            i += 1;
        }
        proof {
            assert(changes@.take(n as int) =~= changes@);
        }
        UnidentifiedPatch { header: PatchHeader { author, description }, changes, deps }
    }

    /// Stamps the patch with its identity: every placeholder node reference
    /// in the changes is rewritten to `id`.
    pub fn set_id(self, id: PatchId) -> (r: Patch)
        requires
            self.wf(),
            id.wf(),
        ensures
            r.id@ == id@,
            r.header == self.header,
            r.changes@ =~= self.changes@.map_values(|c: ChangeV| subst_change(c, id@)),
            r.deps == self.deps,
            r.wf(),
    {
        let mut ret = Patch { id, header: self.header, changes: self.changes, deps: self.deps };
        let id2 = ret.id.dup();
        ret.changes.set_patch_id(&id2);
        ret
    }
}

/// The identity that a patch content hashes to: the digest of its
/// canonical serialized form. A pure function of the content, so equal
/// contents always mint equal ids.
pub open spec fn id_of(u: UPView) -> Seq<u8> {
    sha256_of(crate::codec::encode_spec(u))
}

impl UnidentifiedPatch {
    /// Finalizes the patch: serializes it (placeholders intact), hashes the
    /// serialized form to mint the id, and rewrites every placeholder node
    /// reference to that id. Returns the finished patch together with the
    /// exact bytes that were hashed, which are what must reach durable
    /// storage.
    pub fn write_out(self) -> (r: (Patch, Vec<u8>))
        requires
            self.wf(),
        ensures
            r.1@ == crate::codec::encode_spec(self@),
            r.0.id@ == id_of(self@),
            r.0.header == self.header,
            r.0.changes@ =~= self.changes@.map_values(
                |c: ChangeV| subst_change(c, id_of(self@)),
            ),
            r.0.deps == self.deps,
            r.0.wf(),
    {
        let bytes = crate::codec::encode(&self);
        let digest = sha256(&bytes);
        let id = PatchId { data: digest };
        let patch = self.set_id(id);
        (patch, bytes)
    }
}

/// Identical patch content always hashes to the identical id.
pub proof fn lemma_id_deterministic(a: UPView, b: UPView)
    requires
        a == b,
    ensures
        id_of(a) == id_of(b),
{
}

/// Once a patch is identified by an id other than the placeholder, no
/// placeholder node reference remains in its rewritten changes; references
/// to other patches are untouched by the rewriting.
pub proof fn lemma_write_out_resolves(u: UPView)
    requires
        id_of(u) != zero_id(),
    ensures
        forall|i: int|
            0 <= i < u.changes.len() ==> crate::change::no_placeholder(
                #[trigger] subst_change(u.changes[i], id_of(u)),
            ),
{
    crate::change::lemma_no_placeholder_after_subst(u.changes, id_of(u));
}

/// An immutable, fully identified patch: every placeholder node reference
/// of its changes has been rewritten to its id.
#[derive(Debug, PartialEq, Eq)]
pub struct Patch {
    pub id: PatchId,
    pub header: PatchHeader,
    pub changes: Changes,
    pub deps: Vec<PatchId>,
}

impl Patch {
    pub open spec fn wf(&self) -> bool {
        self.id.wf() && self.changes.wf() && deps_wf(self.deps.deep_view())
    }

    /// The patch in its serialized shape: self-references restored to the
    /// placeholder, everything else as held in memory.
    pub open spec fn unidentified_view(&self) -> UPView {
        UPView {
            author: self.header.author@,
            description: self.header.description@,
            changes: self.changes@.map_values(|c: ChangeV| unset_change(c, self.id@)),
            deps: self.deps.deep_view(),
        }
    }

    /// Stores one reference to every line content the patch inserts.
    pub fn store_new_contents(&self, storage: &mut Storage)
        requires
            self.wf(),
            old(storage).wf(),
            forall|k: Seq<u8>|
                #[trigger] old(storage)@.contains_key(k) ==> old(storage)@[k]
                    + self.changes@.len() <= u64::MAX,
        ensures
            final(storage).wf(),
            final(storage)@ == store_seq(old(storage)@, self.changes@),
    {
        self.changes.store_new_contents(storage)
    }

    /// Drops the content references the patch holds, last change first.
    pub fn unstore_new_contents(&self, storage: &mut Storage)
        requires
            self.wf(),
            old(storage).wf(),
            unstore_pre_seq(old(storage)@, self.changes@),
        ensures
            final(storage).wf(),
            final(storage)@ == unstore_seq(old(storage)@, self.changes@),
    {
        self.changes.unstore_new_contents(storage)
    }

    /// Applies the patch's changes, in order, to a digle.
    pub fn apply_to_digle(&self, digle: &mut Digle)
        requires
            self.wf(),
            old(digle).wf(),
            apply_pre_seq(old(digle)@, self.changes@),
        ensures
            final(digle).wf(),
            final(digle)@ == apply_seq(old(digle)@, self.changes@),
    {
        self.changes.apply_to_digle(digle)
    }

    /// Undoes the patch's changes, last change first, on a digle.
    pub fn unapply_to_digle(&self, digle: &mut Digle)
        requires
            self.wf(),
            old(digle).wf(),
            unapply_pre_seq(old(digle)@, self.changes@),
        ensures
            final(digle).wf(),
            final(digle)@ == unapply_seq(old(digle)@, self.changes@),
    {
        self.changes.unapply_to_digle(digle)
    }

    /// The patch read back from its serialized bytes, under an id the
    /// caller knows from elsewhere (such as the filename). The file itself
    /// is not verified against the id: a mismatching document is accepted
    /// under the claimed id.
    pub fn from_reader(input: &Vec<u8>, id: PatchId) -> (r: Result<Patch, Error>)
        requires
            id.wf(),
        ensures
            match r {
                Ok(p) => {
                    &&& crate::codec::decode_spec(input@) matches Some(u)
                    &&& p.id@ == id@
                    &&& p.header.author@ == u.author
                    &&& p.header.description@ == u.description
                    &&& p.changes@ == u.changes.map_values(|c: ChangeV| subst_change(c, id@))
                    &&& p.deps.deep_view() == u.deps
                    &&& p.wf()
                },
                Err(e) => crate::codec::decode_spec(input@) is None && e == Error::MalformedPatch,
            },
    {
        match crate::codec::decode(input) {
            Ok(up) => Ok(up.set_id(id)),
            Err(e) => Err(e),
        }
    }

    /// Serializes the patch in its on-wire form: every self-reference is
    /// written as the placeholder, so that hashing the written bytes
    /// re-derives the patch's id.
    pub fn write_out(&self) -> (r: Vec<u8>)
        requires
            self.wf(),
        ensures
            r@ == crate::codec::encode_spec(self.unidentified_view()),
    {
        let mut deps: Vec<PatchId> = Vec::new();
        let n = self.deps.len();
        let mut i: usize = 0;
        while i < n
            invariant
                self.wf(),
                n == self.deps@.len(),
                i <= n,
                deps@.len() == i,
                forall|j: int| 0 <= j < i ==> (#[trigger] deps@[j])@ == self.deps@[j]@,
            decreases n - i,
        {
            deps.push(self.deps[i].dup());
            i += 1;
        }
        let up = UnidentifiedPatch {
            header: PatchHeader {
                author: self.header.author.as_str().to_owned(),
                description: self.header.description.as_str().to_owned(),
            },
            changes: self.changes.dup_without_id(&self.id),
            deps,
        };
        proof {
            assert(up.deps.deep_view() =~= self.deps.deep_view());
            assert(up@ =~~= self.unidentified_view());
            assert(deps_wf(up.deps.deep_view()));
        }
        crate::codec::encode(&up)
    }
}

/// Applying a patch's changes and then unapplying them returns both the
/// digle and the content store to their starting states: the same nodes
/// with the same liveness, the same edges, and the same reference counts.
pub proof fn lemma_patch_apply_unapply(d: DigleV, m: Map<Seq<u8>, int>, cs: Seq<ChangeV>)
    requires
        digle_inv(d),
        apply_pre_seq(d, cs),
        store_wf(m),
    ensures
        unapply_pre_seq(apply_seq(d, cs), cs),
        unapply_seq(apply_seq(d, cs), cs) == d,
        crate::storage::unstore_pre_seq(store_seq(m, cs), cs),
        unstore_seq(store_seq(m, cs), cs) == m,
    decreases cs.len(),
{
    crate::digle::lemma_apply_unapply_seq(d, cs);
    crate::storage::lemma_store_unstore_seq(m, cs);
}

/// The hash is re-derivable from storage: rewriting a patch's placeholders
/// to its minted id and writing them back as placeholders reproduces the
/// serialized form that was hashed, as long as no change already named the
/// minted id outright.
pub proof fn lemma_serialized_form_stable(u: UPView)
    requires
        forall|i: int| 0 <= i < u.changes.len() ==> !mentions_patch(#[trigger] u.changes[i], id_of(u)),
    ensures
        u.changes.map_values(|c: ChangeV| subst_change(c, id_of(u))).map_values(
            |c: ChangeV| unset_change(c, id_of(u)),
        ) == u.changes,
{
    let id = id_of(u);
    let rewritten = u.changes.map_values(|c: ChangeV| subst_change(c, id));
    assert forall|i: int| 0 <= i < u.changes.len() implies unset_change(
        #[trigger] rewritten[i],
        id,
    ) == u.changes[i] by {
        crate::change::lemma_subst_unset(u.changes[i], id);
    }
    assert(rewritten.map_values(|c: ChangeV| unset_change(c, id)) =~= u.changes);
}

/// A patch file decodes back to what was written: the serialized form of a
/// finalized patch decodes to its exact content, and resolving the decoded
/// placeholders under the patch's id restores its changes.
pub proof fn lemma_patch_file_round_trip(p: Patch)
    requires
        p.wf(),
        crate::codec::encodable(p.unidentified_view()),
        forall|i: int| 0 <= i < p.changes@.len() ==> no_placeholder(#[trigger] p.changes@[i]),
    ensures
        crate::codec::decode_spec(crate::codec::encode_spec(p.unidentified_view())) == Some(
            p.unidentified_view(),
        ),
        p.unidentified_view().changes.map_values(|c: ChangeV| subst_change(c, p.id@))
            == p.changes@,
{
    crate::codec::lemma_codec_round_trip(p.unidentified_view());
    let written = p.unidentified_view().changes;
    assert forall|i: int| 0 <= i < p.changes@.len() implies subst_change(
        #[trigger] written[i],
        p.id@,
    ) == p.changes@[i] by {
        crate::change::lemma_unset_subst(p.changes@[i], p.id@);
    }
    assert(written.map_values(|c: ChangeV| subst_change(c, p.id@)) =~= p.changes@);
}

} // verus!
