//! A model of the destination-namespace state of the cluster: the secrets
//! stored under `(namespace, name)`, the server-side apply write, and the
//! owner-reference cascade the cluster's garbage collector performs. The
//! controller itself only issues apply writes; this model is what the
//! convergence, idempotence and cascading-deletion laws are stated against,
//! and what the tests drive.

use vstd::prelude::*;
use crate::replicate::{ReplicaSecret, ReplicaSecretView};
use crate::secret::{clone_data, clone_opt_string, clone_string_data};

verus! {

/// Where an applied replica is stored: its destination namespace and name.
pub open spec fn write_key(w: ReplicaSecretView) -> (Seq<char>, Seq<char>) {
    (w.namespace, w.name)
}

/// One idempotent apply write: the stored secret under the write's key now
/// equals the write, wholesale.
pub open spec fn apply_one(
    m: Map<(Seq<char>, Seq<char>), ReplicaSecretView>,
    w: ReplicaSecretView,
) -> Map<(Seq<char>, Seq<char>), ReplicaSecretView> {
    m.insert(write_key(w), w)
}

/// A batch of apply writes, performed in order.
pub open spec fn apply_writes(
    m: Map<(Seq<char>, Seq<char>), ReplicaSecretView>,
    ws: Seq<ReplicaSecretView>,
) -> Map<(Seq<char>, Seq<char>), ReplicaSecretView>
    decreases ws.len(),
{
    if ws.len() == 0 {
        m
    } else {
        apply_one(apply_writes(m, ws.drop_last()), ws.last())
    }
}

/// What the garbage collector leaves once the directive with uid `uid` is
/// deleted: every stored secret whose owner reference names that uid is gone,
/// everything else stays.
pub open spec fn collect_directive(
    m: Map<(Seq<char>, Seq<char>), ReplicaSecretView>,
    uid: Seq<char>,
) -> Map<(Seq<char>, Seq<char>), ReplicaSecretView> {
    Map::new(
        |k: (Seq<char>, Seq<char>)| m.dom().contains(k) && m[k].owner.uid != uid,
        |k: (Seq<char>, Seq<char>)| m[k],
    )
}

/// Does some write of `ws` target the key `k`?
pub open spec fn has_write(ws: Seq<ReplicaSecretView>, k: (Seq<char>, Seq<char>)) -> bool {
    exists|l: int| 0 <= l < ws.len() && write_key(#[trigger] ws[l]) == k
}

/// What a batch of writes leaves at one key: some write that targeted it, or
/// whatever was there if none did.
pub proof fn lemma_apply_writes_at(
    m: Map<(Seq<char>, Seq<char>), ReplicaSecretView>,
    ws: Seq<ReplicaSecretView>,
    k: (Seq<char>, Seq<char>),
)
    ensures
        has_write(ws, k) ==> apply_writes(m, ws).dom().contains(k) && exists|l: int|
            0 <= l < ws.len() && write_key(#[trigger] ws[l]) == k && apply_writes(m, ws)[k] == ws[l],
        !has_write(ws, k) ==> apply_writes(m, ws).dom().contains(k) == m.dom().contains(k) && (
        m.dom().contains(k) ==> apply_writes(m, ws)[k] == m[k]),
    decreases ws.len(),
{
    if ws.len() > 0 {
        lemma_apply_writes_at(m, ws.drop_last(), k);
        let last = ws.last();
        if write_key(last) == k {
            assert(write_key(ws[ws.len() - 1]) == k);
            assert(apply_writes(m, ws)[k] == ws[ws.len() - 1]);
        } else {
            assert forall|l: int|
                0 <= l < ws.drop_last().len() && write_key(#[trigger] ws.drop_last()[l]) == k
                implies write_key(ws[l]) == k by {}
            if has_write(ws, k) {
                let l = choose|l: int| 0 <= l < ws.len() && write_key(#[trigger] ws[l]) == k;
                assert(ws.drop_last()[l] == ws[l]);
                assert(has_write(ws.drop_last(), k));
                let l2 = choose|l2: int|
                    0 <= l2 < ws.drop_last().len() && write_key(#[trigger] ws.drop_last()[l2]) == k
                        && apply_writes(m, ws.drop_last())[k] == ws.drop_last()[l2];
                assert(apply_writes(m, ws)[k] == ws[l2]);
            } else {
                if has_write(ws.drop_last(), k) {
                    let l = choose|l: int|
                        0 <= l < ws.drop_last().len() && write_key(#[trigger] ws.drop_last()[l]) == k;
                    assert(write_key(ws[l]) == k);
                }
            }
        }
    }
}

/// A batch of writes settles the state: what it leaves depends only on the
/// writes at the keys they target, and on the prior state elsewhere.
pub proof fn lemma_apply_writes_union(
    m: Map<(Seq<char>, Seq<char>), ReplicaSecretView>,
    ws: Seq<ReplicaSecretView>,
)
    ensures
        apply_writes(m, ws) == m.union_prefer_right(
            apply_writes(Map::<(Seq<char>, Seq<char>), ReplicaSecretView>::empty(), ws),
        ),
    decreases ws.len(),
{
    let empty = Map::<(Seq<char>, Seq<char>), ReplicaSecretView>::empty();
    if ws.len() == 0 {
        assert(apply_writes(m, ws) =~= m.union_prefer_right(empty));
    } else {
        lemma_apply_writes_union(m, ws.drop_last());
        assert(apply_writes(m, ws) =~= m.union_prefer_right(apply_writes(empty, ws)));
    }
}

/// Do the stored secrets of `s` all sit under distinct keys?
pub open spec fn keys_unique(s: Seq<ReplicaSecretView>) -> bool {
    forall|i: int, j: int| 0 <= i < j < s.len() ==> write_key(s[i]) != write_key(s[j])
}

/// Does some stored secret of `s` sit under the key `k`?
pub open spec fn has_stored_key(s: Seq<ReplicaSecretView>, k: (Seq<char>, Seq<char>)) -> bool {
    exists|i: int| 0 <= i < s.len() && write_key(#[trigger] s[i]) == k
}

/// The map from key to stored secret that a sequence of stored secrets
/// denotes; on a duplicated key the later entry wins.
pub open spec fn stored_map(s: Seq<ReplicaSecretView>) -> Map<
    (Seq<char>, Seq<char>),
    ReplicaSecretView,
>
    decreases s.len(),
{
    if s.len() == 0 {
        Map::empty()
    } else {
        stored_map(s.drop_last()).insert(write_key(s.last()), s.last())
    }
}

proof fn lemma_keys_unique_drop_last(s: Seq<ReplicaSecretView>)
    requires
        keys_unique(s),
        s.len() > 0,
    ensures
        keys_unique(s.drop_last()),
{
    assert forall|i: int, j: int|
        0 <= i < j < s.drop_last().len() implies write_key(s.drop_last()[i]) != write_key(
        s.drop_last()[j],
    ) by {
        assert(write_key(s[i]) != write_key(s[j]));
    }
}

proof fn lemma_stored_map_dom(s: Seq<ReplicaSecretView>)
    ensures
        forall|k: (Seq<char>, Seq<char>)|
            #[trigger] stored_map(s).dom().contains(k) <==> has_stored_key(s, k),
    decreases s.len(),
{
    if s.len() > 0 {
        lemma_stored_map_dom(s.drop_last());
        assert forall|k: (Seq<char>, Seq<char>)|
            #[trigger] stored_map(s).dom().contains(k) implies has_stored_key(s, k) by {
            if k == write_key(s.last()) {
                assert(write_key(s[s.len() - 1]) == k);
            } else {
                assert(stored_map(s.drop_last()).dom().contains(k));
                assert(has_stored_key(s.drop_last(), k));
                let i = choose|i: int|
                    0 <= i < s.drop_last().len() && write_key(#[trigger] s.drop_last()[i]) == k;
                assert(write_key(s[i]) == k);
            }
        }
        assert forall|k: (Seq<char>, Seq<char>)|
            has_stored_key(s, k) implies #[trigger] stored_map(s).dom().contains(k) by {
            let i = choose|i: int| 0 <= i < s.len() && write_key(#[trigger] s[i]) == k;
            if i < s.len() - 1 {
                assert(write_key(s.drop_last()[i]) == k);
                assert(has_stored_key(s.drop_last(), k));
                assert(stored_map(s.drop_last()).dom().contains(k));
            } else {
                assert(k == write_key(s.last()));
            }
        }
    }
}

proof fn lemma_stored_map_pairs(s: Seq<ReplicaSecretView>)
    requires
        keys_unique(s),
    ensures
        forall|i: int|
            0 <= i < s.len() ==> stored_map(s).contains_pair(write_key(#[trigger] s[i]), s[i]),
    decreases s.len(),
{
    if s.len() > 0 {
        lemma_keys_unique_drop_last(s);
        lemma_stored_map_pairs(s.drop_last());
        assert forall|i: int|
            0 <= i < s.len() implies stored_map(s).contains_pair(
            write_key(#[trigger] s[i]),
            s[i],
        ) by {
            if i < s.len() - 1 {
                assert(stored_map(s.drop_last()).contains_pair(
                    write_key(s.drop_last()[i]),
                    s.drop_last()[i],
                ));
                assert(write_key(s[i]) != write_key(s.last()));
            }
        }
    }
}

proof fn lemma_stored_map_update(s: Seq<ReplicaSecretView>, i: int, v: ReplicaSecretView)
    requires
        keys_unique(s),
        0 <= i < s.len(),
        write_key(s[i]) == write_key(v),
    ensures
        stored_map(s.update(i, v)) == stored_map(s).insert(write_key(v), v),
        keys_unique(s.update(i, v)),
    decreases s.len(),
{
    let t = s.update(i, v);
    assert forall|a: int, b: int|
        0 <= a < b < t.len() implies write_key(t[a]) != write_key(t[b]) by {
        assert(write_key(s[a]) != write_key(s[b]));
    }
    if i == s.len() - 1 {
        assert(t.drop_last() =~= s.drop_last());
        assert(t.last() == v);
        assert(stored_map(t) =~= stored_map(s).insert(write_key(v), v));
    } else {
        assert(t.drop_last() =~= s.drop_last().update(i, v));
        assert(t.last() == s.last());
        lemma_keys_unique_drop_last(s);
        assert(s.drop_last()[i] == s[i]);
        lemma_stored_map_update(s.drop_last(), i, v);
        assert(write_key(s[i]) != write_key(s.last()));
        assert(stored_map(t) =~= stored_map(s).insert(write_key(v), v));
    }
}

proof fn lemma_stored_map_len(s: Seq<ReplicaSecretView>)
    requires
        keys_unique(s),
    ensures
        stored_map(s).dom().finite(),
        stored_map(s).dom().len() == s.len(),
    decreases s.len(),
{
    if s.len() > 0 {
        lemma_keys_unique_drop_last(s);
        lemma_stored_map_len(s.drop_last());
        lemma_stored_map_dom(s.drop_last());
        let k = write_key(s.last());
        assert(!has_stored_key(s.drop_last(), k)) by {
            if has_stored_key(s.drop_last(), k) {
                let j = choose|j: int|
                    0 <= j < s.drop_last().len() && write_key(#[trigger] s.drop_last()[j]) == k;
                assert(write_key(s[j]) == write_key(s[s.len() - 1]));
            }
        }
        assert(!stored_map(s.drop_last()).dom().contains(k));
        assert(stored_map(s).dom() =~= stored_map(s.drop_last()).dom().insert(k));
    }
}

/// The stored destination-namespace secrets of the modelled cluster, keyed by
/// `(namespace, name)`. Its abstract state is the map from key to stored
/// secret; [`ClusterSecrets::apply`] is the server-side apply write and
/// [`ClusterSecrets::cascade_delete`] is the garbage collector's
/// owner-reference cascade.
pub struct ClusterSecrets {
    entries: Vec<ReplicaSecret>,
}

impl View for ClusterSecrets {
    type V = Map<(Seq<char>, Seq<char>), ReplicaSecretView>;

    closed spec fn view(&self) -> Map<(Seq<char>, Seq<char>), ReplicaSecretView> {
        stored_map(self.entries.deep_view())
    }
}

impl ClusterSecrets {
    #[verifier::type_invariant]
    spec fn wf(self) -> bool {
        keys_unique(self.entries.deep_view())
    }

    /// A cluster with no stored destination secrets.
    pub fn new() -> (r: ClusterSecrets)
        ensures
            r@ == Map::<(Seq<char>, Seq<char>), ReplicaSecretView>::empty(),
    {
        let r = ClusterSecrets { entries: Vec::new() };
        proof {
            assert(r.entries.deep_view() =~= Seq::<ReplicaSecretView>::empty());
            assert(r@ =~= Map::<(Seq<char>, Seq<char>), ReplicaSecretView>::empty());
        }
        r
    }

    /// One apply write: the stored secret under the write's key now equals the
    /// write. Applying the identical write again changes nothing.
    pub fn apply(&mut self, w: ReplicaSecret)
        ensures
            final(self)@ == apply_one(old(self)@, w@),
    {
        proof {
            use_type_invariant(&*self);
        }
        let mut entries: Vec<ReplicaSecret> = Vec::new();
        std::mem::swap(&mut entries, &mut self.entries);
        let ghost s = entries.deep_view();
        let mut idx: Option<usize> = None;
        let mut i: usize = 0;
        while i < entries.len()
            invariant
                i <= entries.len(),
                entries.deep_view() == s,
                match idx {
                    Some(l) => l < i && write_key(s[l as int]) == write_key(w@),
                    None => forall|j: int| 0 <= j < i ==> write_key(s[j]) != write_key(w@),
                },
            decreases entries.len() - i,
        {
            if idx.is_none() && entries[i].namespace == w.namespace && entries[i].name == w.name {
                idx = Some(i);
            }
            i = i + 1;
        }
        match idx {
            Some(l) => {
                entries[l] = w;
                proof {
                    lemma_stored_map_update(s, l as int, w@);
                    assert(entries.deep_view() =~= s.update(l as int, w@));
                }
            },
            None => {
                entries.push(w);
                proof {
                    assert(entries.deep_view().drop_last() =~= s);
                    assert forall|a: int, b: int|
                        0 <= a < b < entries.deep_view().len()
                        implies write_key(entries.deep_view()[a]) != write_key(
                        entries.deep_view()[b],
                    ) by {
                        assert(entries.deep_view()[a] == s[a]);
                        if b < s.len() {
                            assert(write_key(s[a]) != write_key(s[b]));
                        } else {
                            assert(entries.deep_view()[b] == w@);
                            assert(write_key(s[a]) != write_key(w@));
                        }
                    }
                }
            },
        }
        self.entries = entries;
    }

    /// A batch of apply writes, performed in order.
    pub fn apply_batch(&mut self, ws: &Vec<ReplicaSecret>)
        ensures
            final(self)@ == apply_writes(old(self)@, ws.deep_view()),
    {
        let ghost m0 = self@;
        let ghost dv = ws.deep_view();
        let mut i: usize = 0;
        while i < ws.len()
            invariant
                i <= ws.len(),
                dv == ws.deep_view(),
                self@ == apply_writes(m0, dv.take(i as int)),
            decreases ws.len() - i,
        {
            let w = crate::replicate::clone_replica(&ws[i]);
            self.apply(w);
            proof {
                assert(dv.take(i + 1).drop_last() =~= dv.take(i as int));
                assert(dv.take(i + 1).last() == dv[i as int]);
            }
            i = i + 1;
        }
        proof {
            assert(dv.take(ws.len() as int) =~= dv);
        }
    }

    /// The stored secret under `(namespace, name)`, if any.
    pub fn get(&self, namespace: &String, name: &String) -> (r: Option<&ReplicaSecret>)
        ensures
            match r {
                Some(w) => self@.contains_pair((namespace@, name@), w@),
                None => !self@.dom().contains((namespace@, name@)),
            },
    {
        proof {
            use_type_invariant(&*self);
            lemma_stored_map_pairs(self.entries.deep_view());
            lemma_stored_map_dom(self.entries.deep_view());
        }
        let ghost s = self.entries.deep_view();
        let mut i: usize = 0;
        while i < self.entries.len()
            invariant
                i <= self.entries.len(),
                s == self.entries.deep_view(),
                forall|j: int| 0 <= j < i ==> write_key(#[trigger] s[j]) != (namespace@, name@),
                forall|j: int|
                    0 <= j < s.len() ==> stored_map(s).contains_pair(write_key(#[trigger] s[j]), s[j]),
                forall|k: (Seq<char>, Seq<char>)|
                    #[trigger] stored_map(s).dom().contains(k) <==> has_stored_key(s, k),
            decreases self.entries.len() - i,
        {
            if self.entries[i].namespace == *namespace && self.entries[i].name == *name {
                assert(write_key(s[i as int]) == (namespace@, name@));
                return Some(&self.entries[i]);
            }
            i = i + 1;
        }
        proof {
            assert(!has_stored_key(s, (namespace@, name@))) by {
                if has_stored_key(s, (namespace@, name@)) {
                    let j = choose|j: int|
                        0 <= j < s.len() && write_key(#[trigger] s[j]) == (namespace@, name@);
                }
            }
        }
        None
    }

    /// How many destination secrets are stored.
    pub fn len(&self) -> (r: usize)
        ensures
            r == self@.dom().len(),
    {
        proof {
            use_type_invariant(&*self);
            lemma_stored_map_len(self.entries.deep_view());
        }
        self.entries.len()
    }

    /// The garbage collector's cascade once the directive with uid `uid` is
    /// deleted: every stored secret whose owner reference names that uid is
    /// removed; nothing else changes.
    pub fn cascade_delete(&mut self, uid: &String)
        ensures
            final(self)@ == collect_directive(old(self)@, uid@),
    {
        proof {
            use_type_invariant(&*self);
        }
        let mut entries: Vec<ReplicaSecret> = Vec::new();
        std::mem::swap(&mut entries, &mut self.entries);
        let ghost s = entries.deep_view();
        proof {
            lemma_stored_map_dom(s);
        }
        let mut kept: Vec<ReplicaSecret> = Vec::new();
        let mut i: usize = 0;
        while i < entries.len()
            invariant
                i <= entries.len(),
                entries.deep_view() == s,
                keys_unique(s),
                forall|k: (Seq<char>, Seq<char>)|
                    #[trigger] stored_map(s).dom().contains(k) <==> has_stored_key(s, k),
                keys_unique(kept.deep_view()),
                stored_map(kept.deep_view()) == collect_directive(
                    stored_map(s.take(i as int)),
                    uid@,
                ),
                forall|j: int|
                    0 <= j < kept.deep_view().len() ==> has_stored_key(
                        s.take(i as int),
                        write_key(#[trigger] kept.deep_view()[j]),
                    ),
            decreases entries.len() - i,
        {
            let ghost t = s.take(i as int);
            let ghost t2 = s.take(i + 1);
            proof {
                assert(t2.drop_last() =~= t);
                assert(t2.last() == s[i as int]);
                lemma_stored_map_dom(t);
                assert(!has_stored_key(t, write_key(s[i as int]))) by {
                    if has_stored_key(t, write_key(s[i as int])) {
                        let j = choose|j: int|
                            0 <= j < t.len() && write_key(#[trigger] t[j]) == write_key(
                                s[i as int],
                            );
                        assert(write_key(s[j]) == write_key(s[i as int]));
                    }
                }
                assert(!stored_map(t).dom().contains(write_key(s[i as int])));
            }
            if entries[i].owner.uid == *uid {
                proof {
                    assert(stored_map(kept.deep_view()) =~= collect_directive(
                        stored_map(t2),
                        uid@,
                    ));
                }
            } else {
                let ghost kdv = kept.deep_view();
                let w = crate::replicate::clone_replica(&entries[i]);
                kept.push(w);
                proof {
                    assert(kept.deep_view().drop_last() =~= kdv);
                    assert(kept.deep_view().last() == s[i as int]);
                    assert forall|a: int, b: int|
                        0 <= a < b < kept.deep_view().len()
                        implies write_key(kept.deep_view()[a]) != write_key(
                        kept.deep_view()[b],
                    ) by {
                        assert(kept.deep_view()[a] == kdv[a]);
                        if b < kdv.len() {
                            assert(write_key(kdv[a]) != write_key(kdv[b]));
                        } else {
                            assert(kept.deep_view()[b] == s[i as int]);
                            assert(has_stored_key(t, write_key(kdv[a])));
                        }
                    }
                    assert(stored_map(kept.deep_view()) =~= collect_directive(
                        stored_map(t2),
                        uid@,
                    ));
                    assert forall|j: int|
                        0 <= j < kept.deep_view().len() implies has_stored_key(
                        t2,
                        write_key(#[trigger] kept.deep_view()[j]),
                    ) by {
                        if j < kdv.len() {
                            let l = choose|l: int|
                                0 <= l < t.len() && write_key(#[trigger] t[l]) == write_key(
                                    kdv[j],
                                );
                            assert(write_key(t2[l]) == write_key(kept.deep_view()[j]));
                        } else {
                            assert(write_key(t2[i as int]) == write_key(kept.deep_view()[j]));
                        }
                    }
                }
            }
            proof {
                if s[i as int].owner.uid != uid@ {
                } else {
                    assert forall|j: int|
                        0 <= j < kept.deep_view().len() implies has_stored_key(
                        t2,
                        write_key(#[trigger] kept.deep_view()[j]),
                    ) by {
                        let l = choose|l: int|
                            0 <= l < t.len() && write_key(#[trigger] t[l]) == write_key(
                                kept.deep_view()[j],
                            );
                        assert(write_key(t2[l]) == write_key(kept.deep_view()[j]));
                    }
                }
            }
            i = i + 1;
        }
        proof {
            assert(s.take(entries.len() as int) =~= s);
        }
        self.entries = kept;
    }
}

} // verus!
