//! The stored values, the per-database key-value store with its pending
//! command queue, and the registry of numbered databases.

use vstd::prelude::*;

use crate::command::Command;
use std::collections::VecDeque;

verus! {

/// The ghost shape of a stored value.
pub enum ValueModel {
    Scalar(Seq<char>),
    List(Seq<Seq<char>>),
}

/// A value held at a key: a single scalar string, or an ordered,
/// double-ended list of strings. The two shapes are mutually exclusive.
pub enum Data {
    Scalar(String),
    List(VecDeque<String>),
}

impl View for Data {
    type V = ValueModel;

    open spec fn view(&self) -> ValueModel {
        match self {
            Data::Scalar(s) => ValueModel::Scalar(s@),
            Data::List(l) => ValueModel::List(l.deep_view()),
        }
    }
}

/// The key-value mapping described by an entry list: a later entry for the
/// same key overrides an earlier one, though a well-formed store never holds
/// two entries for one key.
pub open spec fn store_map(entries: Seq<(String, Data)>) -> Map<Seq<char>, ValueModel>
    decreases entries.len(),
{
    if entries.len() == 0 {
        Map::empty()
    } else {
        store_map(entries.drop_last()).insert(entries.last().0@, entries.last().1@)
    }
}

/// No two entries name the same key.
pub open spec fn unique_keys(entries: Seq<(String, Data)>) -> bool {
    forall|i: int, j: int|
        0 <= i < j < entries.len() ==> (#[trigger] entries[i]).0@ != (#[trigger] entries[j]).0@
}

pub proof fn lemma_store_map_contains(entries: Seq<(String, Data)>, k: Seq<char>)
    ensures
        store_map(entries).contains_key(k) <==> (exists|j: int|
            0 <= j < entries.len() && (#[trigger] entries[j]).0@ == k),
    decreases entries.len(),
{
    if entries.len() > 0 {
        lemma_store_map_contains(entries.drop_last(), k);
        if entries.last().0@ == k {
            assert(entries[entries.len() - 1].0@ == k);
        } else if store_map(entries).contains_key(k) {
            let j = choose|j: int|
                0 <= j < entries.drop_last().len() && (#[trigger] entries.drop_last()[j]).0@
                    == k;
            assert(entries[j].0@ == k);
        } else {
            if exists|j: int| 0 <= j < entries.len() && (#[trigger] entries[j]).0@ == k {
                let j = choose|j: int|
                    0 <= j < entries.len() && (#[trigger] entries[j]).0@ == k;
                assert(entries.drop_last()[j].0@ == k);
            }
        }
    }
}

pub proof fn lemma_store_map_index(entries: Seq<(String, Data)>, i: int)
    requires
        unique_keys(entries),
        0 <= i < entries.len(),
    ensures
        store_map(entries).contains_key(entries[i].0@),
        store_map(entries)[entries[i].0@] == entries[i].1@,
    decreases entries.len(),
{
    if i == entries.len() - 1 {
    } else {
        assert(entries[i].0@ != entries.last().0@);
        assert(entries.drop_last()[i] == entries[i]);
        lemma_store_map_index(entries.drop_last(), i);
    }
}

pub proof fn lemma_store_map_update(entries: Seq<(String, Data)>, i: int, e: (String, Data))
    requires
        unique_keys(entries),
        0 <= i < entries.len(),
        e.0@ == entries[i].0@,
    ensures
        store_map(entries.update(i, e)) == store_map(entries).insert(e.0@, e.1@),
        unique_keys(entries.update(i, e)),
    decreases entries.len(),
{
    let u = entries.update(i, e);
    assert(unique_keys(u)) by {
        assert forall|a: int, b: int| 0 <= a < b < u.len() implies (#[trigger] u[a]).0@ != (
        #[trigger] u[b]).0@ by {
            assert(u[a].0@ == entries[a].0@);
            assert(u[b].0@ == entries[b].0@);
        }
    }
    if i == entries.len() - 1 {
        assert(u.drop_last() =~= entries.drop_last());
        assert(store_map(u) == store_map(entries.drop_last()).insert(e.0@, e.1@));
        assert(store_map(entries.drop_last()).insert(entries.last().0@, entries.last().1@).insert(
            e.0@,
            e.1@,
        ) =~= store_map(entries.drop_last()).insert(e.0@, e.1@));
    } else {
        assert(u.drop_last() =~= entries.drop_last().update(i, e));
        assert(u.last() == entries.last());
        assert(entries.drop_last()[i] == entries[i]);
        lemma_store_map_update(entries.drop_last(), i, e);
        assert(store_map(u) == store_map(entries.drop_last()).insert(e.0@, e.1@).insert(
            entries.last().0@,
            entries.last().1@,
        ));
        assert(e.0@ != entries.last().0@);
        assert(store_map(entries.drop_last()).insert(e.0@, e.1@).insert(
            entries.last().0@,
            entries.last().1@,
        ) =~= store_map(entries.drop_last()).insert(entries.last().0@, entries.last().1@).insert(
            e.0@,
            e.1@,
        ));
    }
}

/// A numbered database: its key-value store and its queue of pending
/// commands.
pub struct Database {
    pub data: Vec<(String, Data)>,
    pub queue: VecDeque<Command>,
}

impl Database {
    /// The mapping from key to value that the store holds.
    pub open spec fn store(&self) -> Map<Seq<char>, ValueModel> {
        store_map(self.data@)
    }

    /// Well-formed: no key appears twice.
    pub open spec fn wf(&self) -> bool {
        unique_keys(self.data@)
    }

    /// `key` holds a non-empty list.
    pub open spec fn list_ready(&self, key: Seq<char>) -> bool {
        self.store().contains_key(key) && (match self.store()[key] {
            ValueModel::List(l) => l.len() > 0,
            ValueModel::Scalar(_) => false,
        })
    }

    pub fn new() -> (d: Database)
        ensures
            d.store() == Map::<Seq<char>, ValueModel>::empty(),
            d.queue@ == Seq::<Command>::empty(),
            d.wf(),
    {
        Database { data: Vec::new(), queue: VecDeque::new() }
    }

    /// Position of the entry for `key`, if one exists.
    fn find(&self, key: &String) -> (r: Option<usize>)
        requires
            self.wf(),
        ensures
            (match r {
                Some(i) => i < self.data@.len() && self.data@[i as int].0@ == key@
                    && self.store().contains_key(key@) && self.store()[key@]
                    == self.data@[i as int].1@,
                None => !self.store().contains_key(key@),
            }),
    {
        let n = self.data.len();
        let mut i: usize = 0;
        while i < n
            invariant
                0 <= i <= n,
                n == self.data@.len(),
                self.wf(),
                forall|j: int| 0 <= j < i ==> (#[trigger] self.data@[j]).0@ != key@,
            decreases n - i,
        {
            if self.data[i].0 == *key {
                proof {
                    lemma_store_map_index(self.data@, i as int);
                }
                return Some(i);
            }
            i = i + 1;
        }
        proof {
            lemma_store_map_contains(self.data@, key@);
        }
        None
    }

    /// Reads the value at `key`.
    pub fn get_data(&self, key: &String) -> (r: Option<&Data>)
        requires
            self.wf(),
        ensures
            (match r {
                Some(d) => self.store().contains_key(key@) && d@ == self.store()[key@],
                None => !self.store().contains_key(key@),
            }),
    {
        match self.find(key) {
            Some(i) => Some(&self.data[i].1),
            None => None,
        }
    }

    /// Stores `d` at `key`, overwriting whatever was there.
    pub fn upsert(&mut self, key: String, d: Data)
        requires
            old(self).wf(),
        ensures
            final(self).wf(),
            final(self).store() == old(self).store().insert(key@, d@),
            final(self).queue == old(self).queue,
    {
        match self.find(&key) {
            Some(i) => {
                let ghost entries = self.data@;
                self.data.remove(i);
                self.data.insert(i, (key, d));
                proof {
                    assert(self.data@ =~= entries.update(i as int, self.data@[i as int]));
                    lemma_store_map_update(entries, i as int, self.data@[i as int]);
                }
            },
            None => {
                let ghost entries = self.data@;
                self.data.push((key, d));
                proof {
                    assert(self.data@.drop_last() =~= entries);
                    lemma_store_map_contains(entries, self.data@.last().0@);
                    assert forall|a: int, b: int| 0 <= a < b < self.data@.len() implies (
                    #[trigger] self.data@[a]).0@ != (#[trigger] self.data@[b]).0@ by {
                        if b < self.data@.len() - 1 {
                            assert(entries[a] == self.data@[a]);
                            assert(entries[b] == self.data@[b]);
                        } else {
                            assert(entries[a] == self.data@[a]);
                        }
                    }
                }
            },
        }
    }
    /// The list at `key` after pushing `values` at the tail, in order.
    pub open spec fn rpush_result(old_list: Seq<Seq<char>>, values: Seq<Seq<char>>) -> Seq<
        Seq<char>,
    > {
        old_list + values
    }

    /// The list at `key` after pushing `values` at the head one at a time:
    /// each value becomes the new head, so they end up reversed.
    pub open spec fn lpush_result(old_list: Seq<Seq<char>>, values: Seq<Seq<char>>) -> Seq<
        Seq<char>,
    > {
        values.reverse() + old_list
    }

    /// The list `key` holds, or the empty list where the key is absent.
    pub open spec fn list_at(&self, key: Seq<char>) -> Seq<Seq<char>> {
        if self.store().contains_key(key) {
            match self.store()[key] {
                ValueModel::List(l) => l,
                ValueModel::Scalar(_) => Seq::empty(),
            }
        } else {
            Seq::empty()
        }
    }

    /// `key` may take list pushes: it is absent or already holds a list.
    pub open spec fn pushable(&self, key: Seq<char>) -> bool {
        self.store().contains_key(key) ==> self.store()[key] is List
    }

    /// Appends `values` to the list at `key`, creating an empty list first
    /// where the key is absent; with `front` the values are pushed at the
    /// head one at a time, else at the tail in order. A key holding a scalar
    /// refuses the push and nothing changes.
    pub fn push_list(&mut self, key: &String, values: &Vec<String>, front: bool) -> (r: Result<
        usize,
        &'static str,
    >)
        requires
            old(self).wf(),
        ensures
            final(self).wf(),
            final(self).queue == old(self).queue,
            (match r {
                Ok(len) => {
                    let newlist = if front {
                        Self::lpush_result(old(self).list_at(key@), values.deep_view())
                    } else {
                        Self::rpush_result(old(self).list_at(key@), values.deep_view())
                    };
                    &&& old(self).pushable(key@)
                    &&& len == newlist.len()
                    &&& final(self).store() == old(self).store().insert(
                        key@,
                        ValueModel::List(newlist),
                    )
                },
                Err(e) => {
                    &&& !old(self).pushable(key@)
                    &&& e@ == "Key is not a list"@
                    &&& final(self).data@ == old(self).data@
                },
            }),
    {
        let found = self.find(key);
        let mut list: VecDeque<String> = VecDeque::new();
        let mut at: usize = 0;
        let ghost entries = self.data@;
        match found {
            Some(i) => {
                let (k0, d0) = self.data.remove(i);
                match d0 {
                    Data::Scalar(s) => {
                        self.data.insert(i, (k0, Data::Scalar(s)));
                        proof {
                            assert(self.data@ =~= entries);
                        }
                        return Err("Key is not a list");
                    },
                    Data::List(l) => {
                        list = l;
                        at = i;
                        // The entry comes back below, with the values
                        // appended.
                    },
                }
            },
            None => {
                at = self.data.len();
            },
        }
        let ghost oldlist = list.deep_view();
        proof {
            if found is Some {
                assert(oldlist == old(self).list_at(key@));
            } else {
                assert(oldlist =~= old(self).list_at(key@));
            }
        }
        let n = values.len();
        let mut i: usize = 0;
        while i < n
            invariant
                i <= n,
                n == values.len(),
                list.deep_view() == (if front {
                    values.deep_view().take(i as int).reverse() + oldlist
                } else {
                    oldlist + values.deep_view().take(i as int)
                }),
            decreases n - i,
        {
            let v = values[i].clone();
            proof {
                let dv = values.deep_view();
                assert(dv[i as int] == values@[i as int]@);
                if front {
                    assert(dv.take(i + 1).reverse() =~= seq![dv[i as int]] + dv.take(
                        i as int,
                    ).reverse());
                } else {
                    assert(dv.take(i + 1) =~= dv.take(i as int).push(dv[i as int]));
                }
            }
            if front {
                push_front_dv(&mut list, v);
                proof {
                    let dv = values.deep_view();
                    assert(list.deep_view() =~= dv.take(i + 1).reverse() + oldlist);
                }
            } else {
                push_back_dv(&mut list, v);
                proof {
                    let dv = values.deep_view();
                    assert(list.deep_view() =~= oldlist + dv.take(i + 1));
                }
            }
            i = i + 1;
        }
        proof {
            assert(values.deep_view().take(n as int) =~= values.deep_view());
        }
        let len = list.len();
        let entry = (key.clone(), Data::List(list));
        let ghost removed = self.data@;
        self.data.insert(at, entry);
        proof {
            let dv = values.deep_view();
            let newmodel = if front {
                ValueModel::List(Self::lpush_result(oldlist, dv))
            } else {
                ValueModel::List(Self::rpush_result(oldlist, dv))
            };
            if found is Some {
                let i = found->Some_0 as int;
                assert(removed =~= entries.remove(i));
                assert(self.data@ =~= entries.update(i, (entry.0, entry.1)));
                lemma_store_map_update(entries, i, (entry.0, entry.1));
            } else {
                assert(self.data@ =~= entries.push((entry.0, entry.1)));
                assert(self.data@.drop_last() =~= entries);
                lemma_store_map_contains(entries, key@);
                assert forall|a: int, b: int| 0 <= a < b < self.data@.len() implies (
                #[trigger] self.data@[a]).0@ != (#[trigger] self.data@[b]).0@ by {
                    if b < self.data@.len() - 1 {
                        assert(entries[a] == self.data@[a]);
                        assert(entries[b] == self.data@[b]);
                    } else {
                        assert(entries[a] == self.data@[a]);
                    }
                }
            }
        }
        Ok(len)
    }

    /// Pops one element from the list at `key`: from the head unless
    /// `from_back`. Yields nothing, and changes nothing, unless the key
    /// holds a non-empty list.
    pub fn pop_list(&mut self, key: &String, from_back: bool) -> (r: Option<String>)
        requires
            old(self).wf(),
        ensures
            final(self).wf(),
            final(self).queue == old(self).queue,
            (match r {
                Some(v) => {
                    let l = old(self).list_at(key@);
                    &&& old(self).list_ready(key@)
                    &&& v@ == (if from_back {
                        l.last()
                    } else {
                        l.first()
                    })
                    &&& final(self).store() == old(self).store().insert(
                        key@,
                        ValueModel::List(
                            if from_back {
                                l.drop_last()
                            } else {
                                l.drop_first()
                            },
                        ),
                    )
                },
                None => !old(self).list_ready(key@) && final(self).data@ == old(self).data@,
            }),
    {
        let ghost entries = self.data@;
        match self.find(key) {
            None => None,
            Some(i) => {
                let (k0, d0) = self.data.remove(i);
                match d0 {
                    Data::Scalar(s) => {
                        self.data.insert(i, (k0, Data::Scalar(s)));
                        proof {
                            assert(self.data@ =~= entries);
                        }
                        None
                    },
                    Data::List(mut l) => {
                        if l.len() == 0 {
                            self.data.insert(i, (k0, Data::List(l)));
                            proof {
                                assert(self.data@ =~= entries);
                            }
                            return None;
                        }
                        let v = if from_back {
                            l.pop_back()
                        } else {
                            l.pop_front()
                        };
                        self.data.insert(i, (k0, Data::List(l)));
                        proof {
                            assert(self.data@ =~= entries.update(
                                i as int,
                                self.data@[i as int],
                            ));
                            lemma_store_map_update(entries, i as int, self.data@[i as int]);
                            let oldl = old(self).list_at(key@);
                            if from_back {
                                assert(l.deep_view() =~~= oldl.drop_last());
                            } else {
                                assert(l.deep_view() =~~= oldl.drop_first());
                            }
                        }
                        match v {
                            Some(v) => Some(v),
                            None => None,
                        }
                    },
                }
            },
        }
    }
}


fn push_front_dv(list: &mut VecDeque<String>, v: String)
    ensures
        final(list).deep_view() == seq![v@] + old(list).deep_view(),
{
    list.push_front(v);
    proof {
        let target = seq![v@] + old(list).deep_view();
        assert forall|j: int| 0 <= j < list.deep_view().len() implies list.deep_view()[j]
            == target[j] by {
            if j == 0 {
                assert(list@[0] == v);
            } else {
                assert(list@[j] == old(list)@[j - 1]);
            }
        }
        assert(list.deep_view() =~= target);
    }
}

fn push_back_dv(list: &mut VecDeque<String>, v: String)
    ensures
        final(list).deep_view() == old(list).deep_view().push(v@),
{
    list.push_back(v);
    proof {
        let target = old(list).deep_view().push(v@);
        assert forall|j: int| 0 <= j < list.deep_view().len() implies list.deep_view()[j]
            == target[j] by {
            if j == list.deep_view().len() - 1 {
                assert(list@[j] == v);
            } else {
                assert(list@[j] == old(list)@[j]);
            }
        }
        assert(list.deep_view() =~= target);
    }
}


// ---------------------------------------------------------------------------
// The registry of numbered databases
// ---------------------------------------------------------------------------

/// The database the entry list holds under `id`: the first entry wins,
/// though a well-formed registry never numbers two databases alike.
pub open spec fn reg_find(entries: Seq<(u8, Database)>, id: u8) -> Option<Database>
    decreases entries.len(),
{
    if entries.len() == 0 {
        None
    } else if entries[0].0 == id {
        Some(entries[0].1)
    } else {
        reg_find(entries.drop_first(), id)
    }
}

/// No two entries carry the same database id.
pub open spec fn unique_ids(entries: Seq<(u8, Database)>) -> bool {
    forall|i: int, j: int|
        0 <= i < j < entries.len() ==> (#[trigger] entries[i]).0 != (#[trigger] entries[j]).0
}

pub proof fn lemma_reg_find_absent(entries: Seq<(u8, Database)>, id: u8)
    ensures
        reg_find(entries, id) is None <==> (forall|j: int|
            0 <= j < entries.len() ==> (#[trigger] entries[j]).0 != id),
    decreases entries.len(),
{
    if entries.len() > 0 && entries[0].0 != id {
        lemma_reg_find_absent(entries.drop_first(), id);
        if reg_find(entries, id) is None {
            assert forall|j: int| 0 <= j < entries.len() implies (#[trigger] entries[j]).0
                != id by {
                if j > 0 {
                    assert(entries.drop_first()[j - 1] == entries[j]);
                }
            }
        } else {
            let j = choose|j: int|
                0 <= j < entries.drop_first().len() && (#[trigger] entries.drop_first()[j]).0
                    == id;
            assert(entries[j + 1].0 == id);
        }
    }
}

pub proof fn lemma_reg_find_first(entries: Seq<(u8, Database)>, id: u8, i: int)
    requires
        0 <= i < entries.len(),
        entries[i].0 == id,
        forall|j: int| 0 <= j < i ==> (#[trigger] entries[j]).0 != id,
    ensures
        reg_find(entries, id) == Some(entries[i].1),
    decreases i,
{
    if i > 0 {
        assert forall|j: int| 0 <= j < i - 1 implies (#[trigger] entries.drop_first()[j]).0
            != id by {
            assert(entries.drop_first()[j] == entries[j + 1]);
        }
        assert(entries.drop_first()[i - 1] == entries[i]);
        lemma_reg_find_first(entries.drop_first(), id, i - 1);
    }
}

pub proof fn lemma_reg_find_remove(entries: Seq<(u8, Database)>, i: int, o: u8)
    requires
        0 <= i < entries.len(),
        entries[i].0 != o,
    ensures
        reg_find(entries.remove(i), o) == reg_find(entries, o),
    decreases i,
{
    if i == 0 {
        assert(entries.remove(0) =~= entries.drop_first());
    } else {
        if entries[0].0 == o {
            assert(entries.remove(i)[0] == entries[0]);
        } else {
            assert(entries.remove(i).drop_first() =~= entries.drop_first().remove(i - 1));
            assert(entries.drop_first()[i - 1] == entries[i]);
            lemma_reg_find_remove(entries.drop_first(), i - 1, o);
            assert(entries.remove(i)[0] == entries[0]);
        }
    }
}

pub proof fn lemma_reg_find_push(entries: Seq<(u8, Database)>, e: (u8, Database), o: u8)
    ensures
        reg_find(entries.push(e), o) == (if reg_find(entries, o) is Some {
            reg_find(entries, o)
        } else if e.0 == o {
            Some(e.1)
        } else {
            None
        }),
    decreases entries.len(),
{
    if entries.len() == 0 {
        assert(entries.push(e)[0] == e);
        if e.0 != o {
            assert(entries.push(e).drop_first() =~= Seq::<(u8, Database)>::empty());
            assert(reg_find(entries.push(e).drop_first(), o) is None);
        }
    } else {
        assert(entries.push(e)[0] == entries[0]);
        if entries[0].0 != o {
            assert(entries.push(e).drop_first() =~= entries.drop_first().push(e));
            lemma_reg_find_push(entries.drop_first(), e, o);
        }
    }
}

pub proof fn lemma_reg_find_wf(entries: Seq<(u8, Database)>, id: u8)
    requires
        forall|i: int| 0 <= i < entries.len() ==> (#[trigger] entries[i]).1.wf(),
        reg_find(entries, id) is Some,
    ensures
        reg_find(entries, id)->Some_0.wf(),
    decreases entries.len(),
{
    if entries.len() > 0 && entries[0].0 != id {
        assert forall|i: int| 0 <= i < entries.drop_first().len() implies (
        #[trigger] entries.drop_first()[i]).1.wf() by {
            assert(entries.drop_first()[i] == entries[i + 1]);
        }
        lemma_reg_find_wf(entries.drop_first(), id);
    }
}

/// The shared collection of all databases, keyed by database id. It is the
/// process's one shared mutable resource: callers that share it across
/// connections guard every access with one mutual-exclusion lock.
pub struct Registry {
    pub databases: Vec<(u8, Database)>,
}

impl Registry {
    /// The database registered under `id`, if any.
    pub open spec fn spec_db(&self, id: u8) -> Option<Database> {
        reg_find(self.databases@, id)
    }

    pub open spec fn has_db(&self, id: u8) -> bool {
        self.spec_db(id) is Some
    }

    pub open spec fn db(&self, id: u8) -> Database {
        self.spec_db(id)->Some_0
    }

    /// Well-formed: ids are unique and every database is well-formed.
    pub open spec fn wf(&self) -> bool {
        unique_ids(self.databases@) && (forall|i: int|
            0 <= i < self.databases@.len() ==> (#[trigger] self.databases@[i]).1.wf())
    }

    /// A fresh registry holding only the default database 0, empty.
    pub fn new() -> (r: Registry)
        ensures
            r.wf(),
            r.has_db(0),
            r.db(0).store() == Map::<Seq<char>, ValueModel>::empty(),
            r.db(0).queue@ == Seq::<Command>::empty(),
            forall|o: u8| o != 0 ==> !r.has_db(o),
    {
        let mut databases: Vec<(u8, Database)> = Vec::new();
        databases.push((0, Database::new()));
        let r = Registry { databases };
        proof {
            assert(r.databases@[0].0 == 0);
            assert(r.databases@.drop_first() =~= Seq::<(u8, Database)>::empty());
            assert forall|o: u8| o != 0 implies !r.has_db(o) by {
                assert(reg_find(r.databases@.drop_first(), o) is None);
            }
        }
        r
    }

    /// Position of the entry for `id`, if one exists.
    fn find_index(&self, id: u8) -> (r: Option<usize>)
        ensures
            (match r {
                Some(i) => i < self.databases@.len() && self.databases@[i as int].0 == id
                    && self.spec_db(id) == Some(self.databases@[i as int].1),
                None => !self.has_db(id),
            }),
    {
        let n = self.databases.len();
        let mut i: usize = 0;
        while i < n
            invariant
                0 <= i <= n,
                n == self.databases@.len(),
                forall|j: int| 0 <= j < i ==> (#[trigger] self.databases@[j]).0 != id,
            decreases n - i,
        {
            if self.databases[i].0 == id {
                proof {
                    lemma_reg_find_first(self.databases@, id, i as int);
                }
                return Some(i);
            }
            i = i + 1;
        }
        proof {
            lemma_reg_find_absent(self.databases@, id);
        }
        None
    }

    /// Reads the database under `id`.
    pub fn get_db(&self, id: u8) -> (r: Option<&Database>)
        ensures
            (match r {
                Some(d) => self.spec_db(id) == Some(*d),
                None => !self.has_db(id),
            }),
    {
        match self.find_index(id) {
            Some(i) => Some(&self.databases[i].1),
            None => None,
        }
    }

    /// Whether a database is registered under `id`.
    pub fn contains_db(&self, id: u8) -> (r: bool)
        ensures
            r == self.has_db(id),
    {
        self.find_index(id).is_some()
    }

    /// Removes and returns the database under `id`, leaving every other
    /// database in place; its partner is `put_db`.
    pub fn take_db(&mut self, id: u8) -> (r: Option<Database>)
        requires
            old(self).wf(),
        ensures
            final(self).wf(),
            (match r {
                Some(d) => {
                    &&& old(self).spec_db(id) == Some(d)
                    &&& d.wf()
                    &&& !final(self).has_db(id)
                    &&& forall|o: u8|
                        o != id ==> final(self).spec_db(o) == old(self).spec_db(o)
                },
                None => !old(self).has_db(id) && final(self).databases@ == old(
                    self,
                ).databases@,
            }),
    {
        match self.find_index(id) {
            None => None,
            Some(i) => {
                let ghost entries = self.databases@;
                let (_, d) = self.databases.remove(i);
                proof {
                    assert(self.databases@ =~= entries.remove(i as int));
                    assert forall|a: int, b: int|
                        0 <= a < b < self.databases@.len() implies (
                    #[trigger] self.databases@[a]).0 != (#[trigger] self.databases@[b]).0 by {
                        let aa = if a < i {
                            a
                        } else {
                            a + 1
                        };
                        let bb = if b < i {
                            b
                        } else {
                            b + 1
                        };
                        assert(self.databases@[a] == entries[aa]);
                        assert(self.databases@[b] == entries[bb]);
                    }
                    assert forall|j: int| 0 <= j < self.databases@.len() implies (
                    #[trigger] self.databases@[j]).1.wf() by {
                        let jj = if j < i {
                            j
                        } else {
                            j + 1
                        };
                        assert(self.databases@[j] == entries[jj]);
                    }
                    assert forall|j: int| 0 <= j < self.databases@.len() implies (
                    #[trigger] self.databases@[j]).0 != id by {
                        let jj = if j < i {
                            j
                        } else {
                            j + 1
                        };
                        assert(self.databases@[j] == entries[jj]);
                    }
                    lemma_reg_find_absent(self.databases@, id);
                    assert forall|o: u8| o != id implies final(self).spec_db(o) == old(
                        self,
                    ).spec_db(o) by {
                        lemma_reg_find_remove(entries, i as int, o);
                    }
                }
                Some(d)
            },
        }
    }

    /// Registers `d` under the unused id `id`; its partner is `take_db`.
    pub fn put_db(&mut self, id: u8, d: Database)
        requires
            old(self).wf(),
            !old(self).has_db(id),
            d.wf(),
        ensures
            final(self).wf(),
            final(self).spec_db(id) == Some(d),
            forall|o: u8| o != id ==> final(self).spec_db(o) == old(self).spec_db(o),
    {
        let ghost entries = self.databases@;
        proof {
            lemma_reg_find_absent(entries, id);
        }
        self.databases.push((id, d));
        proof {
            assert(self.databases@ =~= entries.push((id, d)));
            assert forall|a: int, b: int| 0 <= a < b < self.databases@.len() implies (
            #[trigger] self.databases@[a]).0 != (#[trigger] self.databases@[b]).0 by {
                if b < self.databases@.len() - 1 {
                    assert(self.databases@[a] == entries[a]);
                    assert(self.databases@[b] == entries[b]);
                } else {
                    assert(self.databases@[a] == entries[a]);
                }
            }
            assert forall|j: int| 0 <= j < self.databases@.len() implies (
            #[trigger] self.databases@[j]).1.wf() by {
                if j < self.databases@.len() - 1 {
                    assert(self.databases@[j] == entries[j]);
                }
            }
            assert forall|o: u8| #![auto] true implies reg_find(self.databases@, o) == (
                if reg_find(entries, o) is Some {
                reg_find(entries, o)
            } else if id == o {
                Some(d)
            } else {
                None
            }) by {
                lemma_reg_find_push(entries, (id, d), o);
            }
        }
    }
}

} // verus!
