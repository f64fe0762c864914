//! The named-profile mapping: profile name to stored identity, with unique
//! names. Backed by a vector of entries so that the persisted order of the
//! profile file is kept; viewed as a finite map from name to identity.

use vstd::prelude::*;
use crate::config::{UserConfig, UserView};

verus! {

/// The map denoted by a sequence of (name, identity) entries; a later entry
/// with the same name wins.
pub open spec fn map_of(entries: Seq<(Seq<char>, UserView)>) -> Map<Seq<char>, UserView>
    decreases entries.len(),
{
    if entries.len() == 0 {
        Map::empty()
    } else {
        map_of(entries.drop_last()).insert(entries.last().0, entries.last().1)
    }
}

/// No two entries share a name.
pub open spec fn unique_keys(entries: Seq<(Seq<char>, UserView)>) -> bool {
    forall|i: int, j: int| 0 <= i < j < entries.len() ==> entries[i].0 != entries[j].0
}

pub proof fn lemma_map_of_contains(entries: Seq<(Seq<char>, UserView)>, k: Seq<char>)
    ensures
        map_of(entries).contains_key(k) <==> exists|i: int|
            0 <= i < entries.len() && entries[i].0 == k,
    decreases entries.len(),
{
    if entries.len() > 0 {
        lemma_map_of_contains(entries.drop_last(), k);
        if entries.last().0 == k {
            assert(entries[entries.len() - 1].0 == k);
        } else {
            if map_of(entries).contains_key(k) {
                let i = choose|i: int| 0 <= i < entries.drop_last().len()
                    && entries.drop_last()[i].0 == k;
                assert(entries[i].0 == k);
            }
            if exists|i: int| 0 <= i < entries.len() && entries[i].0 == k {
                let i = choose|i: int| 0 <= i < entries.len() && entries[i].0 == k;
                assert(entries.drop_last()[i].0 == k);
            }
        }
    }
}

proof fn lemma_map_of_index(entries: Seq<(Seq<char>, UserView)>, i: int)
    requires
        unique_keys(entries),
        0 <= i < entries.len(),
    ensures
        map_of(entries).contains_key(entries[i].0),
        map_of(entries)[entries[i].0] == entries[i].1,
    decreases entries.len(),
{
    if i == entries.len() - 1 {
    } else {
        lemma_map_of_index(entries.drop_last(), i);
        assert(entries.drop_last()[i] == entries[i]);
        assert(entries[i].0 != entries.last().0);
    }
}

proof fn lemma_map_of_finite(entries: Seq<(Seq<char>, UserView)>)
    ensures
        map_of(entries).dom().finite(),
    decreases entries.len(),
{
    if entries.len() > 0 {
        lemma_map_of_finite(entries.drop_last());
    }
}

proof fn lemma_map_of_len(entries: Seq<(Seq<char>, UserView)>)
    requires
        unique_keys(entries),
    ensures
        map_of(entries).dom().finite(),
        map_of(entries).len() == entries.len(),
    decreases entries.len(),
{
    lemma_map_of_finite(entries);
    if entries.len() > 0 {
        let prefix = entries.drop_last();
        lemma_map_of_len(prefix);
        lemma_map_of_contains(prefix, entries.last().0);
        assert(forall|i: int| 0 <= i < prefix.len() ==> prefix[i].0 != entries.last().0);
        assert(!map_of(prefix).contains_key(entries.last().0));
        vstd::set::axiom_set_insert_len(map_of(prefix).dom(), entries.last().0);
        assert(map_of(entries).dom() =~= map_of(prefix).dom().insert(entries.last().0));
    }
}

/// The named-profile mapping.
#[derive(Debug)]
pub struct Profiles {
    entries: Vec<(String, UserConfig)>,
}

impl Profiles {
    /// The entries in storage order, as character sequences.
    pub closed spec fn entries_seq(&self) -> Seq<(Seq<char>, UserView)> {
        self.entries@.map_values(|p: (String, UserConfig)| (p.0@, p.1@))
    }

    /// Every profile name occurs at most once.
    pub open spec fn wf(&self) -> bool {
        unique_keys(self.entries_seq())
    }

    pub fn new() -> (r: Profiles)
        ensures
            r.wf(),
            r@ == Map::<Seq<char>, UserView>::empty(),
            r.entries_seq() == Seq::<(Seq<char>, UserView)>::empty(),
    {
        Profiles { entries: Vec::new() }
    }

    /// The position of the entry named `name`, if one exists.
    fn index_of(&self, name: &String) -> (r: Option<usize>)
        ensures
            match r {
                Some(i) => i < self.entries_seq().len() && self.entries_seq()[i as int].0
                    == name@,
                None => forall|j: int|
                    0 <= j < self.entries_seq().len() ==> self.entries_seq()[j].0 != name@,
            },
    {
        let mut i: usize = 0;
        while i < self.entries.len()
            invariant
                i <= self.entries.len(),
                self.entries_seq().len() == self.entries.len(),
                forall|j: int| 0 <= j < i ==> self.entries_seq()[j].0 != name@,
            decreases self.entries.len() - i,
        {
            if self.entries[i].0 == *name {
                return Some(i);
            }
            i += 1;
        }
        None
    }

    pub fn contains(&self, name: &String) -> (r: bool)
        ensures
            r == self@.contains_key(name@),
    {
        proof {
            lemma_map_of_contains(self.entries_seq(), name@);
        }
        self.index_of(name).is_some()
    }

    pub fn get(&self, name: &String) -> (r: Option<&UserConfig>)
        requires
            self.wf(),
        ensures
            match r {
                Some(u) => self@.contains_key(name@) && u@ == self@[name@],
                None => !self@.contains_key(name@),
            },
    {
        proof {
            lemma_map_of_contains(self.entries_seq(), name@);
        }
        match self.index_of(name) {
            Some(i) => {
                proof {
                    lemma_map_of_index(self.entries_seq(), i as int);
                }
                Some(&self.entries[i].1)
            },
            None => None,
        }
    }

    /// Add the profile, or replace the one already stored under `name`.
    pub fn insert(&mut self, name: &String, user: UserConfig)
        requires
            old(self).wf(),
        ensures
            final(self).wf(),
            final(self)@ == old(self)@.insert(name@, user@),
    {
        let ghost old_seq = self.entries_seq();
        match self.index_of(name) {
            Some(i) => {
                let ghost uv = user@;
                self.entries.set(i, (name.clone(), user));
                proof {
                    assert(self.entries_seq() =~= old_seq.update(i as int, (name@, uv)));
                    lemma_map_of_update(old_seq, i as int, uv);
                }
            },
            None => {
                let ghost uv = user@;
                self.entries.push((name.clone(), user));
                proof {
                    assert(self.entries_seq() =~= old_seq.push((name@, uv)));
                    assert(self.entries_seq().drop_last() =~= old_seq);
                }
            },
        }
    }

    /// Remove the profile stored under `name`; reports whether one was there.
    pub fn remove(&mut self, name: &String) -> (r: bool)
        requires
            old(self).wf(),
        ensures
            final(self).wf(),
            r == old(self)@.contains_key(name@),
            final(self)@ == old(self)@.remove(name@),
    {
        proof {
            lemma_map_of_contains(self.entries_seq(), name@);
        }
        let ghost old_seq = self.entries_seq();
        match self.index_of(name) {
            Some(i) => {
                self.entries.remove(i);
                proof {
                    assert(self.entries_seq() =~= old_seq.remove(i as int));
                    lemma_map_of_remove(old_seq, i as int);
                }
                true
            },
            None => {
                proof {
                    lemma_map_of_remove_absent(old_seq, name@);
                }
                false
            },
        }
    }

    pub fn len(&self) -> (r: usize)
        requires
            self.wf(),
        ensures
            r == self@.len(),
            r == self.entries_seq().len(),
    {
        proof {
            lemma_map_of_len(self.entries_seq());
        }
        self.entries.len()
    }

    pub fn is_empty(&self) -> (r: bool)
        requires
            self.wf(),
        ensures
            r == (self@.len() == 0),
    {
        self.len() == 0
    }

    /// How many entries are stored, duplicates or not.
    pub fn entry_count(&self) -> (r: usize)
        ensures
            r == self.entries_seq().len(),
    {
        self.entries.len()
    }

    /// The name stored at position `i`.
    pub fn key_at(&self, i: usize) -> (r: &String)
        requires
            i < self.entries_seq().len(),
        ensures
            r@ == self.entries_seq()[i as int].0,
    {
        &self.entries[i].0
    }

    /// The identity stored at position `i`.
    pub fn user_at(&self, i: usize) -> (r: &UserConfig)
        requires
            i < self.entries_seq().len(),
        ensures
            r@ == self.entries_seq()[i as int].1,
    {
        &self.entries[i].1
    }

}

impl View for Profiles {
    type V = Map<Seq<char>, UserView>;

    open spec fn view(&self) -> Map<Seq<char>, UserView> {
        map_of(self.entries_seq())
    }
}

impl Clone for Profiles {
    fn clone(&self) -> (r: Self)
        ensures
            r.entries_seq() == self.entries_seq(),
            r@ == self@,
            r.wf() == self.wf(),
    {
        let mut out: Vec<(String, UserConfig)> = Vec::new();
        let mut i: usize = 0;
        while i < self.entries.len()
            invariant
                i <= self.entries.len(),
                out@.len() == i,
                forall|j: int| 0 <= j < i ==> #[trigger] out@[j].0@ == self.entries@[j].0@
                    && out@[j].1@ == self.entries@[j].1@,
            decreases self.entries.len() - i,
        {
            let e = &self.entries[i];
            out.push((e.0.clone(), e.1.clone()));
            i += 1;
        }
        let r = Profiles { entries: out };
        proof {
            assert(r.entries_seq() =~= self.entries_seq());
        }
        r
    }
}

proof fn lemma_map_of_update(entries: Seq<(Seq<char>, UserView)>, i: int, v: UserView)
    requires
        unique_keys(entries),
        0 <= i < entries.len(),
    ensures
        unique_keys(entries.update(i, (entries[i].0, v))),
        map_of(entries.update(i, (entries[i].0, v))) == map_of(entries).insert(entries[i].0, v),
    decreases entries.len(),
{
    let k = entries[i].0;
    let updated = entries.update(i, (k, v));
    assert(forall|j: int| 0 <= j < entries.len() && j != i ==> updated[j] == entries[j]);
    if i == entries.len() - 1 {
        assert(updated.drop_last() =~= entries.drop_last());
        assert(map_of(updated) == map_of(entries.drop_last()).insert(k, v));
        assert(map_of(entries).insert(k, v)
            =~= map_of(entries.drop_last()).insert(k, v));
    } else {
        lemma_map_of_update(entries.drop_last(), i, v);
        assert(entries.drop_last()[i] == entries[i]);
        assert(updated.drop_last() =~= entries.drop_last().update(i, (k, v)));
        assert(updated.last() == entries.last());
        assert(map_of(updated) == map_of(entries.drop_last()).insert(k, v).insert(
            entries.last().0,
            entries.last().1,
        ));
        assert(entries.last().0 != k);
        assert(map_of(entries.drop_last()).insert(k, v).insert(entries.last().0, entries.last().1)
            =~= map_of(entries.drop_last()).insert(entries.last().0, entries.last().1).insert(
            k,
            v,
        ));
    }
}

proof fn lemma_map_of_remove(entries: Seq<(Seq<char>, UserView)>, i: int)
    requires
        unique_keys(entries),
        0 <= i < entries.len(),
    ensures
        unique_keys(entries.remove(i)),
        map_of(entries.remove(i)) == map_of(entries).remove(entries[i].0),
    decreases entries.len(),
{
    let k = entries[i].0;
    let shorter = entries.remove(i);
    if i == entries.len() - 1 {
        assert(shorter =~= entries.drop_last());
        lemma_map_of_contains(entries.drop_last(), k);
        assert(!map_of(entries.drop_last()).contains_key(k));
        assert(map_of(entries).remove(k)
            =~= map_of(entries.drop_last()));
    } else {
        lemma_map_of_remove(entries.drop_last(), i);
        assert(entries.drop_last()[i] == entries[i]);
        assert(shorter.drop_last() =~= entries.drop_last().remove(i));
        assert(shorter.last() == entries.last());
        assert(map_of(shorter) == map_of(entries.drop_last().remove(i)).insert(
            entries.last().0,
            entries.last().1,
        ));
        assert(entries.last().0 != k);
        assert(map_of(entries.drop_last()).remove(k).insert(entries.last().0, entries.last().1)
            =~= map_of(entries.drop_last()).insert(entries.last().0, entries.last().1).remove(k));
    }
}

proof fn lemma_map_of_remove_absent(entries: Seq<(Seq<char>, UserView)>, k: Seq<char>)
    requires
        forall|j: int| 0 <= j < entries.len() ==> entries[j].0 != k,
    ensures
        map_of(entries).remove(k) == map_of(entries),
{
    lemma_map_of_contains(entries, k);
    assert(map_of(entries).remove(k) =~= map_of(entries));
}

} // verus!
