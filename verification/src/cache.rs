//! The object cache: an in-memory mirror of the current directive objects,
//! keyed by directive name, written by the directive watch loop and read as a
//! whole snapshot by the secret reconciliation loop.

use vstd::prelude::*;
use crate::crds::{SyncSecret, SyncSecretView};

verus! {

/// Do the directives of `s` all carry distinct names?
pub open spec fn names_unique(s: Seq<SyncSecretView>) -> bool {
    forall|i: int, j: int| 0 <= i < j < s.len() ==> s[i].name != s[j].name
}

/// Does some directive of `s` carry the name `k`?
pub open spec fn has_directive_name(s: Seq<SyncSecretView>, k: Seq<char>) -> bool {
    exists|i: int| 0 <= i < s.len() && s[i].name == k
}

/// The map from directive name to directive that a sequence of directives
/// denotes; on a duplicated name the later entry wins.
pub open spec fn directives_map(s: Seq<SyncSecretView>) -> Map<Seq<char>, SyncSecretView>
    decreases s.len(),
{
    if s.len() == 0 {
        Map::empty()
    } else {
        directives_map(s.drop_last()).insert(s.last().name, s.last())
    }
}

/// Is `snap` a faithful listing of the cache state `m`: every listed directive
/// stands in `m` under its name, and every name of `m` is listed?
pub open spec fn snapshot_of(snap: Seq<SyncSecretView>, m: Map<Seq<char>, SyncSecretView>) -> bool {
    &&& forall|i: int| 0 <= i < snap.len() ==> m.contains_pair(#[trigger] snap[i].name, snap[i])
    &&& forall|k: Seq<char>| #[trigger] m.dom().contains(k) ==> has_directive_name(snap, k)
}

proof fn lemma_names_unique_drop_last(s: Seq<SyncSecretView>)
    requires
        names_unique(s),
        s.len() > 0,
    ensures
        names_unique(s.drop_last()),
{
    assert forall|i: int, j: int|
        0 <= i < j < s.drop_last().len() implies s.drop_last()[i].name != s.drop_last()[j].name by {
        assert(s[i].name != s[j].name);
    }
}

proof fn lemma_directives_map_dom(s: Seq<SyncSecretView>)
    ensures
        forall|k: Seq<char>|
            #[trigger] directives_map(s).dom().contains(k) <==> has_directive_name(s, k),
    decreases s.len(),
{
    if s.len() == 0 {
        assert forall|k: Seq<char>| !has_directive_name(s, k) by {}
    } else {
        lemma_directives_map_dom(s.drop_last());
        assert forall|k: Seq<char>|
            #[trigger] directives_map(s).dom().contains(k) implies has_directive_name(s, k) by {
            if k == s.last().name {
                assert(s[s.len() - 1].name == k);
            } else {
                assert(directives_map(s.drop_last()).dom().contains(k));
                assert(has_directive_name(s.drop_last(), k));
                let i = choose|i: int| 0 <= i < s.drop_last().len() && s.drop_last()[i].name == k;
                assert(s[i].name == k);
            }
        }
        assert forall|k: Seq<char>|
            has_directive_name(s, k) implies #[trigger] directives_map(s).dom().contains(k) by {
            let i = choose|i: int| 0 <= i < s.len() && s[i].name == k;
            if i < s.len() - 1 {
                assert(s.drop_last()[i].name == k);
                assert(has_directive_name(s.drop_last(), k));
                assert(directives_map(s.drop_last()).dom().contains(k));
            } else {
                assert(k == s.last().name);
            }
        }
    }
}

proof fn lemma_directives_map_pairs(s: Seq<SyncSecretView>)
    requires
        names_unique(s),
    ensures
        forall|i: int|
            0 <= i < s.len() ==> directives_map(s).contains_pair(#[trigger] s[i].name, s[i]),
    decreases s.len(),
{
    if s.len() > 0 {
        lemma_names_unique_drop_last(s);
        lemma_directives_map_pairs(s.drop_last());
        assert forall|i: int|
            0 <= i < s.len() implies directives_map(s).contains_pair(#[trigger] s[i].name, s[i]) by {
            if i < s.len() - 1 {
                assert(directives_map(s.drop_last()).contains_pair(
                    s.drop_last()[i].name,
                    s.drop_last()[i],
                ));
                assert(s[i].name != s.last().name);
            }
        }
    }
}

proof fn lemma_directives_map_len(s: Seq<SyncSecretView>)
    requires
        names_unique(s),
    ensures
        directives_map(s).dom().finite(),
        directives_map(s).dom().len() == s.len(),
    decreases s.len(),
{
    if s.len() > 0 {
        lemma_names_unique_drop_last(s);
        lemma_directives_map_len(s.drop_last());
        lemma_directives_map_dom(s.drop_last());
        let k = s.last().name;
        assert(!has_directive_name(s.drop_last(), k)) by {
            if has_directive_name(s.drop_last(), k) {
                let j = choose|j: int|
                    0 <= j < s.drop_last().len() && s.drop_last()[j].name == k;
                assert(s[j].name == s[s.len() - 1].name);
            }
        }
        assert(!directives_map(s.drop_last()).dom().contains(k));
        assert(directives_map(s).dom() =~= directives_map(s.drop_last()).dom().insert(k));
    }
}

proof fn lemma_directives_map_update(s: Seq<SyncSecretView>, i: int, v: SyncSecretView)
    requires
        names_unique(s),
        0 <= i < s.len(),
        s[i].name == v.name,
    ensures
        directives_map(s.update(i, v)) == directives_map(s).insert(v.name, v),
    decreases s.len(),
{
    let t = s.update(i, v);
    if i == s.len() - 1 {
        assert(t.drop_last() =~= s.drop_last());
        assert(t.last() == v);
        assert(directives_map(t) =~= directives_map(s).insert(v.name, v));
    } else {
        assert(t.drop_last() =~= s.drop_last().update(i, v));
        assert(t.last() == s.last());
        lemma_names_unique_drop_last(s);
        assert(s.drop_last()[i] == s[i]);
        lemma_directives_map_update(s.drop_last(), i, v);
        assert(s[i].name != s.last().name);
        assert(directives_map(t) =~= directives_map(s).insert(v.name, v));
    }
}

proof fn lemma_directives_map_remove(s: Seq<SyncSecretView>, i: int)
    requires
        names_unique(s),
        0 <= i < s.len(),
    ensures
        directives_map(s.remove(i)) == directives_map(s).remove(s[i].name),
        names_unique(s.remove(i)),
    decreases s.len(),
{
    let t = s.remove(i);
    assert forall|a: int, b: int| 0 <= a < b < t.len() implies t[a].name != t[b].name by {
        let a0: int = if a < i { a } else { a + 1 };
        let b0: int = if b < i { b } else { b + 1 };
        assert(t[a] == s[a0] && t[b] == s[b0]);
        assert(s[a0].name != s[b0].name);
    }
    if i == s.len() - 1 {
        assert(t =~= s.drop_last());
        lemma_directives_map_dom(s.drop_last());
        assert(!has_directive_name(s.drop_last(), s[i].name)) by {
            if has_directive_name(s.drop_last(), s[i].name) {
                let j = choose|j: int|
                    0 <= j < s.drop_last().len() && s.drop_last()[j].name == s[i].name;
                assert(s[j].name == s[i].name);
            }
        }
        assert(directives_map(t) =~= directives_map(s).remove(s[i].name));
    } else {
        assert(t.drop_last() =~= s.drop_last().remove(i));
        assert(t.last() == s.last());
        lemma_names_unique_drop_last(s);
        assert(s.drop_last()[i] == s[i]);
        lemma_directives_map_remove(s.drop_last(), i);
        assert(s[i].name != s.last().name);
        assert(directives_map(t) =~= directives_map(s).remove(s[i].name));
    }
}

/// The object cache. One producer applies directive change events through
/// [`DirectiveCache::upsert`] and [`DirectiveCache::remove`]; the
/// reconciliation loop reads a point-in-time listing through
/// [`DirectiveCache::snapshot`]. Its abstract state is the map from directive
/// name to directive.
pub struct DirectiveCache {
    entries: Vec<SyncSecret>,
}

impl View for DirectiveCache {
    type V = Map<Seq<char>, SyncSecretView>;

    closed spec fn view(&self) -> Map<Seq<char>, SyncSecretView> {
        directives_map(self.entries.deep_view())
    }
}

impl DirectiveCache {
    #[verifier::type_invariant]
    spec fn wf(self) -> bool {
        names_unique(self.entries.deep_view())
    }

    /// An empty cache: the state before the first directive list completes.
    pub fn new() -> (r: DirectiveCache)
        ensures
            r@ == Map::<Seq<char>, SyncSecretView>::empty(),
    {
        let r = DirectiveCache { entries: Vec::new() };
        proof {
            assert(r.entries.deep_view() =~= Seq::<SyncSecretView>::empty());
            assert(r@ =~= Map::<Seq<char>, SyncSecretView>::empty());
        }
        r
    }

    /// Applies one "directive applied" event: the directive now stands in the
    /// cache under its name, replacing any previous incarnation.
    pub fn upsert(&mut self, d: SyncSecret)
        ensures
            final(self)@ == old(self)@.insert(d@.name, d@),
    {
        proof {
            use_type_invariant(&*self);
        }
        let mut entries: Vec<SyncSecret> = Vec::new();
        std::mem::swap(&mut entries, &mut self.entries);
        let ghost s = entries.deep_view();
        let mut idx: Option<usize> = None;
        let mut i: usize = 0;
        while i < entries.len()
            invariant
                i <= entries.len(),
                entries.deep_view() == s,
                match idx {
                    Some(l) => l < i && s[l as int].name == d@.name,
                    None => forall|j: int| 0 <= j < i ==> s[j].name != d@.name,
                },
            decreases entries.len() - i,
        {
            if idx.is_none() && entries[i].name == d.name {
                idx = Some(i);
            }
            i = i + 1;
        }
        match idx {
            Some(l) => {
                entries[l] = d;
                proof {
                    lemma_directives_map_update(s, l as int, d@);
                    assert forall|a: int, b: int|
                        0 <= a < b < entries.deep_view().len()
                        implies entries.deep_view()[a].name != entries.deep_view()[b].name by {
                        assert(s[a].name != s[b].name);
                    }
                    assert(entries.deep_view() =~= s.update(l as int, d@));
                }
            },
            None => {
                entries.push(d);
                proof {
                    assert(entries.deep_view().drop_last() =~= s);
                    lemma_directives_map_dom(s);
                    assert forall|a: int, b: int|
                        0 <= a < b < entries.deep_view().len()
                        implies entries.deep_view()[a].name != entries.deep_view()[b].name by {
                        assert(entries.deep_view()[a] == s[a]);
                        if b < s.len() {
                            assert(s[a].name != s[b].name);
                        } else {
                            assert(entries.deep_view()[b] == d@);
                            assert(s[a].name != d@.name);
                        }
                    }
                }
            },
        }
        self.entries = entries;
    }

    /// Applies one "directive removed" event: no directive of that name stands
    /// in the cache afterwards. Removing a name the cache does not hold leaves
    /// it unchanged.
    pub fn remove(&mut self, name: &String)
        ensures
            final(self)@ == old(self)@.remove(name@),
    {
        proof {
            use_type_invariant(&*self);
        }
        let mut entries: Vec<SyncSecret> = Vec::new();
        std::mem::swap(&mut entries, &mut self.entries);
        let ghost s = entries.deep_view();
        let mut idx: Option<usize> = None;
        let mut i: usize = 0;
        while i < entries.len()
            invariant
                i <= entries.len(),
                entries.deep_view() == s,
                match idx {
                    Some(l) => l < i && s[l as int].name == name@,
                    None => forall|j: int| 0 <= j < i ==> s[j].name != name@,
                },
            decreases entries.len() - i,
        {
            if idx.is_none() && entries[i].name == *name {
                idx = Some(i);
            }
            i = i + 1;
        }
        match idx {
            Some(l) => {
                entries.remove(l);
                proof {
                    lemma_directives_map_remove(s, l as int);
                    assert(entries.deep_view() =~= s.remove(l as int));
                }
            },
            None => {
                proof {
                    lemma_directives_map_dom(s);
                    assert(!has_directive_name(s, name@)) by {
                        if has_directive_name(s, name@) {
                            let j = choose|j: int| 0 <= j < s.len() && s[j].name == name@;
                        }
                    }
                    assert(directives_map(s).remove(name@) =~= directives_map(s));
                }
            },
        }
        self.entries = entries;
    }

    /// Replaces the whole cache content at once, as a full resync asks: the
    /// new state holds exactly the listed directives under their names; on a
    /// name listed twice the later entry wins.
    pub fn replace_all(&mut self, ds: Vec<SyncSecret>)
        ensures
            final(self)@ == directives_map(ds.deep_view()),
    {
        let ghost dv = ds.deep_view();
        let mut fresh = DirectiveCache::new();
        let mut rest = ds;
        while rest.len() > 0
            invariant
                rest.deep_view().len() <= dv.len(),
                rest.deep_view() =~= dv.subrange(
                    dv.len() - rest.deep_view().len(),
                    dv.len() as int,
                ),
                fresh@ == directives_map(dv.take(dv.len() - rest.deep_view().len())),
            decreases rest.len(),
        {
            let ghost before = rest.deep_view();
            let ghost done = dv.len() - before.len();
            let d = rest.remove(0);
            proof {
                assert(rest.deep_view() =~= before.drop_first());
                assert(d@ == before[0]);
                assert(before[0] == dv.subrange(done, dv.len() as int)[0]);
                assert(before[0] == dv[done]);
                assert(rest.deep_view() =~= dv.subrange(done + 1, dv.len() as int));
            }
            fresh.upsert(d);
            proof {
                assert(dv.take(done + 1).drop_last() =~= dv.take(done));
                assert(dv.take(done + 1).last() == dv[done]);
            }
        }
        proof {
            assert(dv.take(dv.len() as int) =~= dv);
        }
        *self = fresh;
    }

    /// A point-in-time listing of every directive in the cache. The order is
    /// unspecified; the listing and the cache state name exactly the same
    /// directives.
    pub fn snapshot(&self) -> (r: &Vec<SyncSecret>)
        ensures
            snapshot_of(r.deep_view(), self@),
            names_unique(r.deep_view()),
            r.deep_view().len() == self@.dom().len(),
    {
        proof {
            use_type_invariant(&*self);
            lemma_directives_map_pairs(self.entries.deep_view());
            lemma_directives_map_dom(self.entries.deep_view());
            lemma_directives_map_len(self.entries.deep_view());
        }
        &self.entries
    }
}

} // verus!
