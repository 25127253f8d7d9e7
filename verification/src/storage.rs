use crate::change::{bytes_eq, dup_bytes, Change, ChangeV, Changes};
use vstd::prelude::*;

verus! {

/// One stored line content and the number of live references to it.
pub struct StoreEntry {
    pub contents: Vec<u8>,
    pub count: u64,
}

pub open spec fn unique_contents(s: Seq<StoreEntry>) -> bool {
    forall|p: int, q: int| 0 <= p < q < s.len() ==> s[p].contents@ != s[q].contents@
}

pub closed spec fn smap(s: Seq<StoreEntry>) -> Map<Seq<u8>, int>
    decreases s.len(),
{
    if s.len() == 0 {
        Map::empty()
    } else {
        smap(s.drop_last()).insert(s.last().contents@, s.last().count as int)
    }
}

proof fn lemma_smap_char(s: Seq<StoreEntry>)
    ensures
        forall|k: Seq<u8>| #![auto]
            smap(s).contains_key(k) <==> exists|i: int| 0 <= i < s.len() && s[i].contents@ == k,
    decreases s.len(),
{
    if s.len() > 0 {
        lemma_smap_char(s.drop_last());
        assert forall|k: Seq<u8>| #![auto] smap(s).contains_key(k) implies exists|i: int|
            0 <= i < s.len() && s[i].contents@ == k by {
            if k == s.last().contents@ {
                assert(s[s.len() - 1].contents@ == k);
            } else {
                assert(smap(s.drop_last()).contains_key(k));
                let i = choose|i: int|
                    0 <= i < s.drop_last().len() && s.drop_last()[i].contents@ == k;
                assert(s[i].contents@ == k);
            }
        }
        assert forall|k: Seq<u8>| #![auto]
            (exists|i: int| 0 <= i < s.len() && s[i].contents@ == k) implies smap(
            s,
        ).contains_key(k) by {
            let i = choose|i: int| 0 <= i < s.len() && s[i].contents@ == k;
            assert(smap(s) == smap(s.drop_last()).insert(s.last().contents@, s.last().count as int));
            if i < s.len() - 1 {
                assert(s.drop_last()[i].contents@ == k);
                assert(smap(s.drop_last()).contains_key(k));
            } else {
                assert(k == s.last().contents@);
            }
        }
    }
}

proof fn lemma_smap_value(s: Seq<StoreEntry>)
    requires
        unique_contents(s),
    ensures
        forall|i: int|
            0 <= i < s.len() ==> smap(s).contains_key(#[trigger] s[i].contents@) && smap(
                s,
            )[s[i].contents@] == s[i].count as int,
    decreases s.len(),
{
    if s.len() > 0 {
        lemma_smap_value(s.drop_last());
        assert forall|i: int| 0 <= i < s.len() implies smap(s).contains_key(
            #[trigger] s[i].contents@,
        ) && smap(s)[s[i].contents@] == s[i].count as int by {
            if i < s.len() - 1 {
                assert(s.drop_last()[i] == s[i]);
                assert(s[i].contents@ != s.last().contents@);
            }
        }
    }
}

/// Reference counts are positive: an unreferenced content is not stored.
pub open spec fn store_wf(m: Map<Seq<u8>, int>) -> bool {
    forall|k: Seq<u8>| #[trigger] m.contains_key(k) ==> m[k] >= 1
}

/// The content-addressed store of line contents, with one reference count
/// per distinct content.
pub struct Storage {
    entries: Vec<StoreEntry>,
}

impl View for Storage {
    type V = Map<Seq<u8>, int>;

    closed spec fn view(&self) -> Map<Seq<u8>, int> {
        smap(self.entries@)
    }
}

/// The store after one more reference to `c`.
pub open spec fn store_put(m: Map<Seq<u8>, int>, c: Seq<u8>) -> Map<Seq<u8>, int> {
    if m.contains_key(c) {
        m.insert(c, m[c] + 1)
    } else {
        m.insert(c, 1)
    }
}

/// The store after one reference to `c` is dropped; the content leaves the
/// store when no reference remains.
pub open spec fn store_drop(m: Map<Seq<u8>, int>, c: Seq<u8>) -> Map<Seq<u8>, int> {
    if m.contains_key(c) && m[c] > 1 {
        m.insert(c, m[c] - 1)
    } else {
        m.remove(c)
    }
}

/// The store contribution of one change: an insert operation references its
/// contents once, other operations touch no content.
pub open spec fn store_step(m: Map<Seq<u8>, int>, c: ChangeV) -> Map<Seq<u8>, int> {
    match c {
        ChangeV::NewNode { id, contents } => store_put(m, contents),
        ChangeV::DeleteNode { id } => m,
        ChangeV::NewEdge { src, dst } => m,
    }
}

pub open spec fn unstore_step(m: Map<Seq<u8>, int>, c: ChangeV) -> Map<Seq<u8>, int> {
    match c {
        ChangeV::NewNode { id, contents } => store_drop(m, contents),
        ChangeV::DeleteNode { id } => m,
        ChangeV::NewEdge { src, dst } => m,
    }
}

pub open spec fn unstore_pre(m: Map<Seq<u8>, int>, c: ChangeV) -> bool {
    match c {
        ChangeV::NewNode { id, contents } => m.contains_key(contents),
        ChangeV::DeleteNode { id } => true,
        ChangeV::NewEdge { src, dst } => true,
    }
}

/// The store after every insert of a change sequence, in order.
pub open spec fn store_seq(m: Map<Seq<u8>, int>, cs: Seq<ChangeV>) -> Map<Seq<u8>, int>
    decreases cs.len(),
{
    if cs.len() == 0 {
        m
    } else {
        store_step(store_seq(m, cs.drop_last()), cs.last())
    }
}

/// The store after the references of a change sequence are dropped, last
/// change first.
pub open spec fn unstore_seq(m: Map<Seq<u8>, int>, cs: Seq<ChangeV>) -> Map<Seq<u8>, int>
    decreases cs.len(),
{
    if cs.len() == 0 {
        m
    } else {
        unstore_seq(unstore_step(m, cs.last()), cs.drop_last())
    }
}

/// Every insert of the sequence finds its content stored when its turn to
/// be dropped comes, last change first.
pub open spec fn unstore_pre_seq(m: Map<Seq<u8>, int>, cs: Seq<ChangeV>) -> bool
    decreases cs.len(),
{
    if cs.len() == 0 {
        true
    } else {
        unstore_pre(m, cs.last()) && unstore_pre_seq(unstore_step(m, cs.last()), cs.drop_last())
    }
}

/// Dropping one reference exactly reverses adding it.
pub proof fn lemma_store_step_inverse(m: Map<Seq<u8>, int>, c: ChangeV)
    requires
        store_wf(m),
    ensures
        store_wf(store_step(m, c)),
        unstore_pre(store_step(m, c), c),
        unstore_step(store_step(m, c), c) == m,
{
    match c {
        ChangeV::NewNode { id, contents } => {
            let m2 = store_step(m, c);
            if m.contains_key(contents) {
                assert(m2[contents] == m[contents] + 1);
                assert(m2[contents] > 1);
                assert(m2.insert(contents, m[contents]) =~= m);
            } else {
                assert(m2[contents] == 1);
                assert(m2.remove(contents) =~= m);
            }
        },
        ChangeV::DeleteNode { id } => {},
        ChangeV::NewEdge { src, dst } => {},
    }
}

/// Dropping the references of a whole change sequence exactly reverses
/// storing them: the store returns to its starting state, contents and
/// reference counts alike.
pub proof fn lemma_store_unstore_seq(m: Map<Seq<u8>, int>, cs: Seq<ChangeV>)
    requires
        store_wf(m),
    ensures
        store_wf(store_seq(m, cs)),
        unstore_pre_seq(store_seq(m, cs), cs),
        unstore_seq(store_seq(m, cs), cs) == m,
    decreases cs.len(),
{
    if cs.len() > 0 {
        let m1 = store_seq(m, cs.drop_last());
        lemma_store_unstore_seq(m, cs.drop_last());
        lemma_store_step_inverse(m1, cs.last());
    }
}

proof fn lemma_unstore_seq_first(m: Map<Seq<u8>, int>, cs: Seq<ChangeV>)
    requires
        cs.len() > 0,
    ensures
        unstore_seq(m, cs) == unstore_step(unstore_seq(m, cs.drop_first()), cs.first()),
    decreases cs.len(),
{
    if cs.len() == 1 {
        assert(cs.drop_first() =~= Seq::<ChangeV>::empty());
        assert(cs.drop_last() =~= Seq::<ChangeV>::empty());
        assert(cs.first() == cs.last());
        assert(unstore_seq(m, cs) == unstore_seq(unstore_step(m, cs.last()), cs.drop_last()));
        assert(unstore_seq(unstore_step(m, cs.last()), cs.drop_last()) == unstore_step(
            m,
            cs.last(),
        ));
        assert(unstore_seq(m, cs.drop_first()) == m);
    } else {
        let m1 = unstore_step(m, cs.last());
        lemma_unstore_seq_first(m1, cs.drop_last());
        assert(cs.drop_last().first() == cs.first());
        assert(cs.drop_last().drop_first() =~= cs.drop_first().drop_last());
        assert(cs.drop_first().last() == cs.last());
        assert(unstore_seq(m, cs) == unstore_step(
            unstore_seq(m1, cs.drop_last().drop_first()),
            cs.first(),
        ));
        assert(cs.drop_first().len() > 0);
        assert(unstore_seq(m, cs.drop_first()) == unstore_seq(
            unstore_step(m, cs.drop_first().last()),
            cs.drop_first().drop_last(),
        ));
        assert(unstore_seq(m, cs.drop_first()) == unstore_seq(m1, cs.drop_last().drop_first()));
    }
}

impl Storage {
    pub closed spec fn wf(&self) -> bool {
        unique_contents(self.entries@) && forall|i: int|
            0 <= i < self.entries@.len() ==> (#[trigger] self.entries@[i]).count >= 1
    }

    /// The store's view holds only positive reference counts.
    pub proof fn lemma_wf_view(&self)
        requires
            self.wf(),
        ensures
            store_wf(self@),
    {
        lemma_smap_char(self.entries@);
        lemma_smap_value(self.entries@);
        assert forall|k: Seq<u8>| #[trigger] self@.contains_key(k) implies self@[k] >= 1 by {
            let i = choose|i: int|
                0 <= i < self.entries@.len() && self.entries@[i].contents@ == k;
            assert(smap(self.entries@)[self.entries@[i].contents@] == self.entries@[i].count as int);
        }
    }

    /// The empty store.
    pub fn new() -> (r: Storage)
        ensures
            r.wf(),
            r@ =~= Map::<Seq<u8>, int>::empty(),
    {
        Storage { entries: Vec::new() }
    }

    fn find_entry(&self, contents: &Vec<u8>) -> (r: Option<usize>)
        ensures
            match r {
                Some(i) => i < self.entries@.len() && self.entries@[i as int].contents@
                    == contents@,
                None => forall|j: int|
                    0 <= j < self.entries@.len() ==> self.entries@[j].contents@ != contents@,
            },
    {
        let n = self.entries.len();
        let mut i: usize = 0;
        while i < n
            invariant
                n == self.entries@.len(),
                i <= n,
                forall|j: int| 0 <= j < i ==> self.entries@[j].contents@ != contents@,
            decreases n - i,
        {
            if bytes_eq(&self.entries[i].contents, contents) {
                return Some(i);
            }
            i += 1;
        }
        None
    }

    /// The number of live references to this exact content; zero when it is
    /// not stored.
    pub fn ref_count(&self, contents: &Vec<u8>) -> (r: u64)
        requires
            self.wf(),
        ensures
            self@.contains_key(contents@) ==> r as int == self@[contents@],
            !self@.contains_key(contents@) ==> r == 0,
    {
        proof {
            lemma_smap_char(self.entries@);
            lemma_smap_value(self.entries@);
        }
        match self.find_entry(contents) {
            Some(i) => self.entries[i].count,
            None => 0,
        }
    }

    fn put(&mut self, contents: &Vec<u8>)
        requires
            old(self).wf(),
            old(self)@.contains_key(contents@) ==> old(self)@[contents@] < u64::MAX,
        ensures
            final(self).wf(),
            final(self)@ == store_put(old(self)@, contents@),
    {
        proof {
            lemma_smap_char(self.entries@);
            lemma_smap_value(self.entries@);
        }
        match self.find_entry(contents) {
            Some(i) => {
                let ghost pre = self.entries@;
                let c = dup_bytes(&self.entries[i].contents);
                let n = self.entries[i].count;
                self.entries[i] = StoreEntry { contents: c, count: n + 1 };
                proof {
                    let post = self.entries@;
                    assert(forall|j: int|
                        0 <= j < post.len() ==> post[j].contents@ == pre[j].contents@);
                    lemma_smap_char(post);
                    lemma_smap_value(post);
                    assert(smap(post) =~= smap(pre).insert(contents@, pre[i as int].count + 1))
                        by {
                        assert forall|k: Seq<u8>| #![auto] smap(post).contains_key(k) implies smap(
                            pre,
                        ).insert(contents@, pre[i as int].count + 1).contains_key(k) by {
                            let j = choose|j: int| 0 <= j < post.len() && post[j].contents@ == k;
                            assert(pre[j].contents@ == k);
                        }
                        assert forall|k: Seq<u8>| #![auto]
                            smap(pre).insert(
                                contents@,
                                pre[i as int].count + 1,
                            ).contains_key(k) implies smap(post).contains_key(k) by {
                            if k == contents@ {
                                assert(post[i as int].contents@ == k);
                            } else {
                                let j = choose|j: int| 0 <= j < pre.len() && pre[j].contents@ == k;
                                assert(post[j].contents@ == k);
                            }
                        }
                        assert forall|k: Seq<u8>| #![auto] smap(post).contains_key(k) implies smap(
                            post,
                        )[k] == smap(pre).insert(contents@, pre[i as int].count + 1)[k] by {
                            let j = choose|j: int| 0 <= j < post.len() && post[j].contents@ == k;
                            if k == contents@ {
                                assert(j == i) by {
                                    if j != i {
                                        assert(pre[j].contents@ == pre[i as int].contents@);
                                    }
                                }
                            } else {
                                assert(pre[j].contents@ == k);
                            }
                        }
                    }
                }
            },
            None => {
                let ghost pre = self.entries@;
                self.entries.push(StoreEntry { contents: dup_bytes(contents), count: 1 });
                proof {
                    assert(self.entries@.drop_last() =~= pre);
                    assert(forall|j: int|
                        0 <= j < pre.len() ==> pre[j].contents@ != self.entries@.last().contents@);
                }
            },
        }
    }

    fn drop_ref(&mut self, contents: &Vec<u8>)
        requires
            old(self).wf(),
            old(self)@.contains_key(contents@),
        ensures
            final(self).wf(),
            final(self)@ == store_drop(old(self)@, contents@),
    {
        proof {
            lemma_smap_char(self.entries@);
            lemma_smap_value(self.entries@);
        }
        match self.find_entry(contents) {
            Some(i) => {
                let count = self.entries[i].count;
                if count > 1 {
                    let ghost pre = self.entries@;
                    let c = dup_bytes(&self.entries[i].contents);
                    self.entries[i] = StoreEntry { contents: c, count: count - 1 };
                    proof {
                        let post = self.entries@;
                        assert(forall|j: int|
                            0 <= j < post.len() ==> post[j].contents@ == pre[j].contents@);
                        lemma_smap_char(post);
                        lemma_smap_value(post);
                        assert(smap(post) =~= smap(pre).insert(
                            contents@,
                            pre[i as int].count - 1,
                        )) by {
                            assert forall|k: Seq<u8>| #![auto]
                                smap(post).contains_key(k) implies smap(pre).insert(
                                contents@,
                                pre[i as int].count - 1,
                            ).contains_key(k) by {
                                let j = choose|j: int|
                                    0 <= j < post.len() && post[j].contents@ == k;
                                assert(pre[j].contents@ == k);
                            }
                            assert forall|k: Seq<u8>| #![auto]
                                smap(pre).insert(
                                    contents@,
                                    pre[i as int].count - 1,
                                ).contains_key(k) implies smap(post).contains_key(k) by {
                                if k == contents@ {
                                    assert(post[i as int].contents@ == k);
                                } else {
                                    let j = choose|j: int|
                                        0 <= j < pre.len() && pre[j].contents@ == k;
                                    assert(post[j].contents@ == k);
                                }
                            }
                            assert forall|k: Seq<u8>| #![auto]
                                smap(post).contains_key(k) implies smap(post)[k] == smap(
                                pre,
                            ).insert(contents@, pre[i as int].count - 1)[k] by {
                                let j = choose|j: int|
                                    0 <= j < post.len() && post[j].contents@ == k;
                                if k == contents@ {
                                    assert(j == i) by {
                                        if j != i {
                                            assert(pre[j].contents@ == pre[i as int].contents@);
                                        }
                                    }
                                } else {
                                    assert(pre[j].contents@ == k);
                                }
                            }
                        }
                        assert(store_drop(smap(pre), contents@) == smap(pre).insert(
                            contents@,
                            smap(pre)[contents@] - 1,
                        ));
                    }
                } else {
                    let ghost pre = self.entries@;
                    self.entries.swap_remove(i);
                    proof {
                        let post = self.entries@;
                        assert(post =~= pre.update(i as int, pre.last()).drop_last());
                        assert(forall|j: int|
                            0 <= j < post.len() ==> post[j] == (if j == i {
                                pre.last()
                            } else {
                                pre[j]
                            }));
                        assert forall|p: int, q: int|
                            0 <= p < q < post.len() implies post[p].contents@
                            != post[q].contents@ by {
                            assert(q != pre.len() - 1);
                            assert(p != pre.len() - 1);
                        }
                        lemma_smap_char(post);
                        lemma_smap_value(post);
                        assert(smap(pre)[contents@] == 1);
                        assert(smap(post) =~= smap(pre).remove(contents@)) by {
                            assert forall|k: Seq<u8>| #![auto]
                                smap(post).contains_key(k) implies (smap(pre).contains_key(k) && k
                                != contents@) by {
                                let j = choose|j: int|
                                    0 <= j < post.len() && post[j].contents@ == k;
                                if j == i {
                                    assert(pre[pre.len() - 1].contents@ == k);
                                    assert(k != pre[i as int].contents@);
                                } else {
                                    assert(pre[j].contents@ == k);
                                    assert(k != pre[i as int].contents@);
                                }
                            }
                            assert forall|k: Seq<u8>| #![auto]
                                smap(pre).contains_key(k) && k != contents@ implies smap(
                                post,
                            ).contains_key(k) by {
                                let j = choose|j: int| 0 <= j < pre.len() && pre[j].contents@ == k;
                                if j == pre.len() - 1 {
                                    assert(i < pre.len() - 1);
                                    assert(post[i as int].contents@ == k);
                                } else {
                                    assert(j != i);
                                    assert(post[j].contents@ == k);
                                }
                            }
                            assert forall|k: Seq<u8>| #![auto]
                                smap(post).contains_key(k) implies smap(post)[k] == smap(pre)[k] by {
                                let j = choose|j: int|
                                    0 <= j < post.len() && post[j].contents@ == k;
                                if j == i {
                                    assert(smap(pre)[pre[pre.len() - 1].contents@] == pre[pre.len()
                                        - 1].count as int);
                                } else {
                                    assert(smap(pre)[pre[j].contents@] == pre[j].count as int);
                                }
                            }
                        }
                    }
                }
            },
            None => {
                proof {
                    assert(false);
                }
            },
        }
    }
}

impl Changes {
    /// Stores one reference to every line content that the change sequence
    /// inserts, in order.
    pub fn store_new_contents(&self, storage: &mut Storage)
        requires
            self.wf(),
            old(storage).wf(),
            forall|k: Seq<u8>|
                #[trigger] old(storage)@.contains_key(k) ==> old(storage)@[k] + self@.len()
                    <= u64::MAX,
        ensures
            final(storage).wf(),
            final(storage)@ == store_seq(old(storage)@, self@),
    {
        let ghost m0 = storage@;
        let ghost cs = self@;
        let n = self.changes.len();
        proof {
            assert(cs.len() == n);
            assert(cs.take(0) =~= Seq::<ChangeV>::empty());
            assert(usize::MAX as int <= u64::MAX as int);
        }
        let mut i: usize = 0;
        while i < n
            invariant
                self.wf(),
                n == self.changes@.len(),
                cs == self@,
                cs.len() == n,
                i <= n,
                storage.wf(),
                storage@ == store_seq(m0, cs.take(i as int)),
                forall|k: Seq<u8>|
                    #[trigger] storage@.contains_key(k) ==> storage@[k] + (n - i) <= u64::MAX,
            decreases n - i,
        {
            proof {
                assert(cs[i as int] == self.changes@[i as int]@);
                assert(cs.take(i + 1).drop_last() =~= cs.take(i as int));
                assert(cs.take(i + 1).last() == cs[i as int]);
            }
            let ghost pre = storage@;
            match &self.changes[i] {
                Change::NewNode { id, contents } => {
                    storage.put(contents);
                    proof {
                        assert forall|k: Seq<u8>| #[trigger]
                            storage@.contains_key(k) implies storage@[k] + (n - i - 1)
                            <= u64::MAX by {
                            if k == contents@ {
                                if pre.contains_key(k) {
                                    assert(storage@[k] == pre[k] + 1);
                                } else {
                                    assert(storage@[k] == 1);
                                }
                            } else {
                                assert(pre.contains_key(k));
                                assert(storage@[k] == pre[k]);
                            }
                        }
                    }
                },
                Change::DeleteNode { id } => {},
                Change::NewEdge { src, dst } => {},
            }
            proof {
                assert(storage@ =~~= store_seq(m0, cs.take(i + 1)));
            }
            i += 1;
        }
        proof {
            assert(cs.take(n as int) =~= cs);
        }
    }

    /// Drops the reference that each insert of the change sequence holds,
    /// last change first; contents left unreferenced leave the store.
    pub fn unstore_new_contents(&self, storage: &mut Storage)
        requires
            self.wf(),
            old(storage).wf(),
            unstore_pre_seq(old(storage)@, self@),
        ensures
            final(storage).wf(),
            final(storage)@ == unstore_seq(old(storage)@, self@),
    {
        let ghost m0 = storage@;
        let ghost cs = self@;
        let n = self.changes.len();
        proof {
            assert(cs.len() == n);
            assert(cs.skip(n as int) =~= Seq::<ChangeV>::empty());
            assert(cs.take(n as int) =~= cs);
        }
        let mut i: usize = n;
        while i > 0
            invariant
                self.wf(),
                n == self.changes@.len(),
                cs == self@,
                cs.len() == n,
                i <= n,
                storage.wf(),
                storage@ == unstore_seq(m0, cs.skip(i as int)),
                unstore_pre_seq(storage@, cs.take(i as int)),
            decreases i,
        {
            proof {
                assert(cs[i - 1] == self.changes@[i - 1]@);
                assert(cs.take(i as int).last() == cs[i - 1]);
                assert(cs.take(i as int).drop_last() =~= cs.take(i - 1));
            }
            match &self.changes[i - 1] {
                Change::NewNode { id, contents } => {
                    storage.drop_ref(contents);
                },
                Change::DeleteNode { id } => {},
                Change::NewEdge { src, dst } => {},
            }
            proof {
                assert(storage@ =~~= unstore_step(unstore_seq(m0, cs.skip(i as int)), cs[i - 1]));
                lemma_unstore_seq_first(m0, cs.skip(i - 1));
                assert(cs.skip(i - 1).first() == cs[i - 1]);
                assert(cs.skip(i - 1).drop_first() =~= cs.skip(i as int));
                assert(storage@ =~~= unstore_seq(m0, cs.skip(i - 1)));
            }
            i -= 1;
        }
        proof {
            assert(cs.skip(0) =~= cs);
        }
    }
}

} // verus!
