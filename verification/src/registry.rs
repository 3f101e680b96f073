//! The in-memory registry: a mapping from model name to model record.
//!
//! The registry is held as a sequence of records with pairwise distinct
//! names; its mathematical value is the map from each record's name to the
//! record itself.

use vstd::prelude::*;
use vstd::pervasive::VecAdditionalExecFns;

verus! {

/// One managed data model: a unique name and the last-known location of the
/// directory backing the model on disk.
pub struct Record {
    pub name: String,
    pub path: String,
}

/// The mathematical value of a `Record`: name and path as character
/// sequences.
pub struct RecordView {
    pub name: Seq<char>,
    pub path: Seq<char>,
}

impl View for Record {
    type V = RecordView;

    open spec fn view(&self) -> RecordView {
        RecordView { name: self.name@, path: self.path@ }
    }
}

impl Clone for Record {
    fn clone(&self) -> (r: Record)
        ensures
            r@ == self@,
    {
        Record { name: self.name.clone(), path: self.path.clone() }
    }
}

/// The mapping denoted by a sequence of records: each record is keyed by its
/// name, and a later record shadows an earlier one with the same name.
pub open spec fn map_of(s: Seq<RecordView>) -> Map<Seq<char>, RecordView>
    decreases s.len(),
{
    if s.len() == 0 {
        Map::empty()
    } else {
        map_of(s.drop_last()).insert(s.last().name, s.last())
    }
}

/// A name is in the mapping exactly when some record carries it.
pub proof fn lemma_map_of_contains(s: Seq<RecordView>, name: Seq<char>)
    ensures
        map_of(s).contains_key(name) <==> exists|i: int| 0 <= i < s.len() && s[i].name == name,
    decreases s.len(),
{
    if s.len() > 0 {
        lemma_map_of_contains(s.drop_last(), name);
        if s.last().name == name {
            assert(s[s.len() - 1].name == name);
        } else {
            assert(forall|i: int| 0 <= i < s.len() - 1 ==> s.drop_last()[i] == s[i]);
            if exists|i: int| 0 <= i < s.len() && s[i].name == name {
                let i = choose|i: int| 0 <= i < s.len() && s[i].name == name;
                assert(s.drop_last()[i] == s[i]);
            }
        }
    }
}

/// A record whose name no later record repeats is what the mapping holds
/// under that name.
pub proof fn lemma_map_of_index(s: Seq<RecordView>, i: int)
    requires
        0 <= i < s.len(),
        forall|j: int| i < j < s.len() ==> s[j].name != s[i].name,
    ensures
        map_of(s).contains_key(s[i].name),
        map_of(s)[s[i].name] == s[i],
    decreases s.len(),
{
    if i == s.len() - 1 {
        assert(s.last() == s[i]);
    } else {
        assert(forall|j: int| 0 <= j < s.len() - 1 ==> s.drop_last()[j] == s[j]);
        lemma_map_of_index(s.drop_last(), i);
    }
}

/// Replacing the one record that carries a name, by a record with the same
/// name, is insertion on the mapping.
pub proof fn lemma_map_of_update(s: Seq<RecordView>, i: int, r: RecordView)
    requires
        0 <= i < s.len(),
        forall|j: int| 0 <= j < s.len() && j != i ==> s[j].name != s[i].name,
        r.name == s[i].name,
    ensures
        map_of(s.update(i, r)) == map_of(s).insert(r.name, r),
    decreases s.len(),
{
    let t = s.update(i, r);
    if i == s.len() - 1 {
        assert(t.drop_last() =~= s.drop_last());
        assert(t.last() == r);
        assert(map_of(s.drop_last()).insert(s.last().name, s.last()).insert(r.name, r) =~= map_of(
            s.drop_last(),
        ).insert(r.name, r));
    } else {
        assert(forall|j: int| 0 <= j < s.len() - 1 ==> s.drop_last()[j] == s[j]);
        lemma_map_of_update(s.drop_last(), i, r);
        assert(t.drop_last() =~= s.drop_last().update(i, r));
        assert(t.last() == s.last());
        assert(map_of(s.drop_last()).insert(r.name, r).insert(s.last().name, s.last()) =~= map_of(
            s.drop_last(),
        ).insert(s.last().name, s.last()).insert(r.name, r));
    }
}

/// Removing the one record that carries a name is removal on the mapping.
pub proof fn lemma_map_of_remove(s: Seq<RecordView>, i: int)
    requires
        0 <= i < s.len(),
        forall|j: int| 0 <= j < s.len() && j != i ==> s[j].name != s[i].name,
    ensures
        map_of(s.remove(i)) == map_of(s).remove(s[i].name),
    decreases s.len(),
{
    let t = s.remove(i);
    if i == s.len() - 1 {
        assert(t =~= s.drop_last());
        lemma_map_of_contains(s.drop_last(), s[i].name);
        assert(forall|j: int| 0 <= j < s.len() - 1 ==> s.drop_last()[j] == s[j]);
        assert(!map_of(s.drop_last()).contains_key(s[i].name));
        assert(map_of(s.drop_last()).insert(s[i].name, s[i]).remove(s[i].name) =~= map_of(
            s.drop_last(),
        ));
        assert(s.last() == s[i]);
    } else {
        assert(forall|j: int| 0 <= j < s.len() - 1 ==> s.drop_last()[j] == s[j]);
        lemma_map_of_remove(s.drop_last(), i);
        assert(t.drop_last() =~= s.drop_last().remove(i));
        assert(t.last() == s.last());
        assert(map_of(s.drop_last()).remove(s[i].name).insert(s.last().name, s.last()) =~= map_of(
            s.drop_last(),
        ).insert(s.last().name, s.last()).remove(s[i].name));
    }
}

/// The in-memory registry, loaded from the registry file at process start
/// and flushed back after each mutating operation.
pub struct Registry {
    records: Vec<Record>,
}

impl View for Registry {
    type V = Seq<RecordView>;

    closed spec fn view(&self) -> Seq<RecordView> {
        self.records@.map_values(|r: Record| r@)
    }
}

impl Registry {
    /// Names are pairwise distinct: the registry really is a mapping.
    pub open spec fn wf(&self) -> bool {
        forall|i: int, j: int| 0 <= i < j < self@.len() ==> self@[i].name != self@[j].name
    }

    /// The mapping from model name to record that this registry denotes.
    pub open spec fn as_map(&self) -> Map<Seq<char>, RecordView> {
        map_of(self@)
    }

    /// An empty registry.
    pub fn new() -> (r: Registry)
        ensures
            r.wf(),
            r@ == Seq::<RecordView>::empty(),
            r.as_map() == Map::<Seq<char>, RecordView>::empty(),
    {
        let r = Registry { records: Vec::new() };
        proof {
            assert(r@ =~= Seq::<RecordView>::empty());
        }
        r
    }

    /// How many records the registry holds.
    pub fn len(&self) -> (n: usize)
        ensures
            n == self@.len(),
    {
        self.records.len()
    }

    /// The record at a position, for walking the registry in order.
    pub fn record_at(&self, i: usize) -> (r: &Record)
        requires
            i < self@.len(),
        ensures
            r@ == self@[i as int],
    {
        &self.records[i]
    }

    fn find(&self, name: &String) -> (r: Option<usize>)
        ensures
            match r {
                Some(i) => i < self@.len() && self@[i as int].name == name@,
                None => forall|i: int| 0 <= i < self@.len() ==> self@[i].name != name@,
            },
    {
        let mut i: usize = 0;
        while i < self.records.len()
            invariant
                i <= self.records.len(),
                forall|j: int| 0 <= j < i ==> self@[j].name != name@,
            decreases self.records.len() - i,
        {
            if self.records[i].name == *name {
                return Some(i);
            }
            i += 1;
        }
        None
    }

    /// Look a name up; `Some` exactly when the mapping contains the name.
    pub fn get(&self, name: &String) -> (r: Option<&Record>)
        requires
            self.wf(),
        ensures
            match r {
                Some(rec) => self.as_map().contains_key(name@) && rec@ == self.as_map()[name@],
                None => !self.as_map().contains_key(name@),
            },
    {
        proof {
            lemma_map_of_contains(self@, name@);
        }
        match self.find(name) {
            Some(i) => {
                proof {
                    lemma_map_of_index(self@, i as int);
                }
                Some(&self.records[i])
            },
            None => None,
        }
    }

    /// Insert a record, replacing any record of the same name: insertion on
    /// the mapping. A record with a fresh name is appended at the end.
    pub fn upsert(&mut self, rec: Record)
        requires
            old(self).wf(),
        ensures
            final(self).wf(),
            final(self).as_map() == old(self).as_map().insert(rec@.name, rec@),
            !old(self).as_map().contains_key(rec@.name) ==> final(self)@ == old(self)@.push(rec@),
    {
        let ghost s0 = self@;
        let ghost rv = rec@;
        proof {
            lemma_map_of_contains(s0, rv.name);
        }
        match self.find(&rec.name) {
            Some(i) => {
                proof {
                    lemma_map_of_index(s0, i as int);
                    lemma_map_of_update(s0, i as int, rv);
                }
                self.records.set(i, rec);
                proof {
                    assert(self@ =~= s0.update(i as int, rv));
                }
            },
            None => {
                self.records.push(rec);
                proof {
                    assert(self@ =~= s0.push(rv));
                    assert(self@.drop_last() =~= s0);
                }
            },
        }
    }

    /// Re-point the record of a present name at a new path: insertion of the
    /// renamed record on the mapping.
    pub fn set_path(&mut self, name: &String, dest: &String)
        requires
            old(self).wf(),
            old(self).as_map().contains_key(name@),
        ensures
            final(self).wf(),
            final(self).as_map() == old(self).as_map().insert(
                name@,
                RecordView { name: name@, path: dest@ },
            ),
            final(self)@.len() == old(self)@.len(),
    {
        let ghost s0 = self@;
        proof {
            lemma_map_of_contains(s0, name@);
        }
        match self.find(name) {
            Some(i) => {
                let rec = Record { name: name.clone(), path: dest.clone() };
                let ghost rv = rec@;
                proof {
                    lemma_map_of_update(s0, i as int, rv);
                }
                self.records.set(i, rec);
                proof {
                    assert(self@ =~= s0.update(i as int, rv));
                }
            },
            None => {
                proof {
                    assert(false);
                }
            },
        }
    }

    /// Remove a name: removal on the mapping. Returns the removed record,
    /// or `None` (leaving the registry untouched) when the name is absent.
    pub fn remove(&mut self, name: &String) -> (r: Option<Record>)
        requires
            old(self).wf(),
        ensures
            final(self).wf(),
            final(self).as_map() == old(self).as_map().remove(name@),
            match r {
                Some(rec) => old(self).as_map().contains_key(name@) && rec@ == old(
                    self,
                ).as_map()[name@],
                None => !old(self).as_map().contains_key(name@) && final(self)@ == old(self)@,
            },
    {
        let ghost s0 = self@;
        proof {
            lemma_map_of_contains(s0, name@);
        }
        match self.find(name) {
            Some(i) => {
                proof {
                    lemma_map_of_index(s0, i as int);
                    lemma_map_of_remove(s0, i as int);
                }
                let rec = self.records.remove(i);
                proof {
                    assert(self@ =~= s0.remove(i as int));
                }
                Some(rec)
            },
            None => {
                proof {
                    assert(map_of(s0).remove(name@) =~= map_of(s0));
                }
                None
            },
        }
    }
}

} // verus!
