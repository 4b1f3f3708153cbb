//! A small verified association table from keys to values, modelled as a
//! `Map` over the keys' abstract values. Every store of the engine (contexts,
//! commands, threads, worker registries) is such a table keyed by strings.

use vstd::prelude::*;

verus! {

/// A key type for [`Table`]: equality and cloning agree with the key's
/// abstract value.
pub trait TableKey: DeepView + Sized {
    fn key_eq(&self, other: &Self) -> (r: bool)
        ensures
            r == (self.deep_view() == other.deep_view()),
    ;
}

impl TableKey for String {
    fn key_eq(&self, other: &Self) -> (r: bool)
        ensures
            r == (self.deep_view() == other.deep_view()),
    {
        self.eq(other)
    }
}

/// The abstract contents of a pair of key and value columns.
pub open spec fn table_model<K: TableKey, V: DeepView>(keys: Seq<K>, vals: Seq<V>) -> Map<
    K::V,
    V::V,
>
    decreases keys.len(),
{
    if keys.len() == 0 || vals.len() == 0 {
        Map::empty()
    } else {
        table_model(keys.drop_last(), vals.drop_last()).insert(
            keys.last().deep_view(),
            vals.last().deep_view(),
        )
    }
}

#[derive(Debug, PartialEq, Eq)]
pub struct Table<K, V> {
    keys: Vec<K>,
    vals: Vec<V>,
}

impl<K: TableKey, V: DeepView> Table<K, V> {
    /// Columns have equal length and no two keys share an abstract value.
    pub closed spec fn wf(&self) -> bool {
        &&& self.keys.len() == self.vals.len()
        &&& forall|i: int, j: int|
            0 <= i < j < self.keys.len() ==> self.keys[i].deep_view() != self.keys[j].deep_view()
    }

    /// The stored values themselves, keyed by abstract key.
    pub closed spec fn stored(&self) -> Map<K::V, V> {
        stored_model(self.keys@, self.vals@)
    }

    /// The abstract map is the stored map through each value's deep view.
    pub proof fn lemma_view_stored(&self)
        ensures
            self@.dom() == self.stored().dom(),
            forall|k: K::V| #[trigger]
                self.stored().contains_key(k) ==> self@[k] == self.stored()[k].deep_view(),
            forall|k: K::V| self@.contains_key(k) == self.stored().contains_key(k),
    {
        if self.keys@.len() == self.vals@.len() {
            lemma_model_is_deep_of_stored(self.keys@, self.vals@);
        } else {
            lemma_unequal_cols_empty::<K, V>(self.keys@, self.vals@);
        }
        assert forall|k: K::V|
            self@.contains_key(k) == self.stored().contains_key(k) by {
            assert(self@.dom() == self.stored().dom());
        }
    }
}

/// With columns of unequal length both folds bottom out together.
proof fn lemma_unequal_cols_empty<K: TableKey, V: DeepView>(keys: Seq<K>, vals: Seq<V>)
    requires
        keys.len() != vals.len(),
    ensures
        table_model(keys, vals).dom() == stored_model(keys, vals).dom(),
        forall|k: K::V| #[trigger]
            stored_model(keys, vals).contains_key(k) ==> table_model(keys, vals)[k]
                == stored_model(keys, vals)[k].deep_view(),
    decreases keys.len() + vals.len(),
{
    if keys.len() == 0 || vals.len() == 0 {
        assert(table_model(keys, vals).dom() =~= stored_model(keys, vals).dom());
    } else {
        lemma_unequal_cols_empty::<K, V>(keys.drop_last(), vals.drop_last());
        assert(table_model(keys, vals).dom() =~= stored_model(keys, vals).dom());
    }
}

impl<K: TableKey, V: DeepView> View for Table<K, V> {
    type V = Map<K::V, V::V>;

    closed spec fn view(&self) -> Map<K::V, V::V> {
        table_model(self.keys@, self.vals@)
    }
}

impl<K: TableKey, V: DeepView> DeepView for Table<K, V> {
    type V = Map<K::V, V::V>;

    open spec fn deep_view(&self) -> Map<K::V, V::V> {
        self@
    }
}

pub proof fn lemma_model_contains<K: TableKey, V: DeepView>(keys: Seq<K>, vals: Seq<V>, k: K::V)
    requires
        keys.len() == vals.len(),
    ensures
        table_model(keys, vals).contains_key(k) <==> exists|i: int|
            0 <= i < keys.len() && keys[i].deep_view() == k,
    decreases keys.len(),
{
    if keys.len() > 0 {
        lemma_model_contains(keys.drop_last(), vals.drop_last(), k);
        if keys.last().deep_view() == k {
            assert(keys[keys.len() - 1].deep_view() == k);
        } else {
            if table_model(keys, vals).contains_key(k) {
                let i = choose|i: int|
                    0 <= i < keys.len() - 1 && keys.drop_last()[i].deep_view() == k;
                assert(keys[i].deep_view() == k);
            }
            if exists|i: int| 0 <= i < keys.len() && keys[i].deep_view() == k {
                let i = choose|i: int| 0 <= i < keys.len() && keys[i].deep_view() == k;
                assert(i < keys.len() - 1);
                assert(keys.drop_last()[i].deep_view() == k);
            }
        }
    }
}

pub proof fn lemma_model_index<K: TableKey, V: DeepView>(keys: Seq<K>, vals: Seq<V>, i: int)
    requires
        keys.len() == vals.len(),
        forall|p: int, q: int|
            0 <= p < q < keys.len() ==> keys[p].deep_view() != keys[q].deep_view(),
        0 <= i < keys.len(),
    ensures
        table_model(keys, vals).contains_key(keys[i].deep_view()),
        table_model(keys, vals)[keys[i].deep_view()] == vals[i].deep_view(),
    decreases keys.len(),
{
    if i < keys.len() - 1 {
        lemma_model_index(keys.drop_last(), vals.drop_last(), i);
        assert(keys.drop_last()[i] == keys[i]);
        assert(keys[i].deep_view() != keys.last().deep_view());
    }
}

pub proof fn lemma_model_remove<K: TableKey, V: DeepView>(keys: Seq<K>, vals: Seq<V>, i: int)
    requires
        keys.len() == vals.len(),
        forall|p: int, q: int|
            0 <= p < q < keys.len() ==> keys[p].deep_view() != keys[q].deep_view(),
        0 <= i < keys.len(),
    ensures
        table_model(keys.remove(i), vals.remove(i)) == table_model(keys, vals).remove(
            keys[i].deep_view(),
        ),
    decreases keys.len(),
{
    let k = keys[i].deep_view();
    let full = table_model(keys, vals);
    if i == keys.len() - 1 {
        assert(keys.remove(i) =~= keys.drop_last());
        assert(vals.remove(i) =~= vals.drop_last());
        let rest = table_model(keys.drop_last(), vals.drop_last());
        lemma_model_contains(keys.drop_last(), vals.drop_last(), k);
        assert(!rest.contains_key(k));
        assert(rest =~= full.remove(k));
    } else {
        lemma_model_remove(keys.drop_last(), vals.drop_last(), i);
        assert(keys.remove(i).drop_last() =~= keys.drop_last().remove(i));
        assert(vals.remove(i).drop_last() =~= vals.drop_last().remove(i));
        assert(keys.remove(i).last() == keys.last());
        assert(vals.remove(i).last() == vals.last());
        let rest = table_model(keys.drop_last(), vals.drop_last());
        assert(table_model(keys.remove(i), vals.remove(i)) == rest.remove(k).insert(
            keys.last().deep_view(),
            vals.last().deep_view(),
        ));
        assert(keys.last().deep_view() != k);
        assert(rest.remove(k).insert(keys.last().deep_view(), vals.last().deep_view())
            =~= full.remove(k));
    }
}

pub proof fn lemma_model_update<K: TableKey, V: DeepView>(keys: Seq<K>, vals: Seq<V>, i: int, v: V)
    requires
        keys.len() == vals.len(),
        forall|p: int, q: int|
            0 <= p < q < keys.len() ==> keys[p].deep_view() != keys[q].deep_view(),
        0 <= i < keys.len(),
    ensures
        table_model(keys, vals.update(i, v)) == table_model(keys, vals).insert(
            keys[i].deep_view(),
            v.deep_view(),
        ),
    decreases keys.len(),
{
    let k = keys[i].deep_view();
    let full = table_model(keys, vals);
    if i == keys.len() - 1 {
        assert(vals.update(i, v).drop_last() =~= vals.drop_last());
        assert(vals.update(i, v).last() == v);
        assert(table_model(keys, vals.update(i, v)) =~= full.insert(k, v.deep_view()));
    } else {
        lemma_model_update(keys.drop_last(), vals.drop_last(), i, v);
        assert(vals.update(i, v).drop_last() =~= vals.drop_last().update(i, v));
        assert(vals.update(i, v).last() == vals.last());
        let rest = table_model(keys.drop_last(), vals.drop_last());
        assert(table_model(keys, vals.update(i, v)) == rest.insert(k, v.deep_view()).insert(
            keys.last().deep_view(),
            vals.last().deep_view(),
        ));
        assert(keys.last().deep_view() != k);
        assert(rest.insert(k, v.deep_view()).insert(
            keys.last().deep_view(),
            vals.last().deep_view(),
        ) =~= full.insert(k, v.deep_view()));
    }
}

/// The stored values of a pair of key and value columns, keyed like
/// [`table_model`] but keeping the values themselves.
pub open spec fn stored_model<K: TableKey, V>(keys: Seq<K>, vals: Seq<V>) -> Map<K::V, V>
    decreases keys.len(),
{
    if keys.len() == 0 || vals.len() == 0 {
        Map::empty()
    } else {
        stored_model(keys.drop_last(), vals.drop_last()).insert(
            keys.last().deep_view(),
            vals.last(),
        )
    }
}

pub proof fn lemma_stored_contains<K: TableKey, V>(keys: Seq<K>, vals: Seq<V>, k: K::V)
    requires
        keys.len() == vals.len(),
    ensures
        stored_model(keys, vals).contains_key(k) <==> exists|i: int|
            0 <= i < keys.len() && keys[i].deep_view() == k,
    decreases keys.len(),
{
    if keys.len() > 0 {
        lemma_stored_contains(keys.drop_last(), vals.drop_last(), k);
        if keys.last().deep_view() == k {
            assert(keys[keys.len() - 1].deep_view() == k);
        } else {
            if stored_model(keys, vals).contains_key(k) {
                let i = choose|i: int|
                    0 <= i < keys.len() - 1 && keys.drop_last()[i].deep_view() == k;
                assert(keys[i].deep_view() == k);
            }
            if exists|i: int| 0 <= i < keys.len() && keys[i].deep_view() == k {
                let i = choose|i: int| 0 <= i < keys.len() && keys[i].deep_view() == k;
                assert(i < keys.len() - 1);
                assert(keys.drop_last()[i].deep_view() == k);
            }
        }
    }
}

pub proof fn lemma_stored_index<K: TableKey, V>(keys: Seq<K>, vals: Seq<V>, i: int)
    requires
        keys.len() == vals.len(),
        forall|p: int, q: int|
            0 <= p < q < keys.len() ==> keys[p].deep_view() != keys[q].deep_view(),
        0 <= i < keys.len(),
    ensures
        stored_model(keys, vals).contains_key(keys[i].deep_view()),
        stored_model(keys, vals)[keys[i].deep_view()] == vals[i],
    decreases keys.len(),
{
    if i < keys.len() - 1 {
        lemma_stored_index(keys.drop_last(), vals.drop_last(), i);
        assert(keys.drop_last()[i] == keys[i]);
        assert(keys[i].deep_view() != keys.last().deep_view());
    }
}

pub proof fn lemma_stored_remove<K: TableKey, V>(keys: Seq<K>, vals: Seq<V>, i: int)
    requires
        keys.len() == vals.len(),
        forall|p: int, q: int|
            0 <= p < q < keys.len() ==> keys[p].deep_view() != keys[q].deep_view(),
        0 <= i < keys.len(),
    ensures
        stored_model(keys.remove(i), vals.remove(i)) == stored_model(keys, vals).remove(
            keys[i].deep_view(),
        ),
    decreases keys.len(),
{
    let k = keys[i].deep_view();
    let full = stored_model(keys, vals);
    if i == keys.len() - 1 {
        assert(keys.remove(i) =~= keys.drop_last());
        assert(vals.remove(i) =~= vals.drop_last());
        let rest = stored_model(keys.drop_last(), vals.drop_last());
        lemma_stored_contains(keys.drop_last(), vals.drop_last(), k);
        assert(!rest.contains_key(k));
        assert(rest =~= full.remove(k));
    } else {
        lemma_stored_remove(keys.drop_last(), vals.drop_last(), i);
        assert(keys.remove(i).drop_last() =~= keys.drop_last().remove(i));
        assert(vals.remove(i).drop_last() =~= vals.drop_last().remove(i));
        assert(keys.remove(i).last() == keys.last());
        assert(vals.remove(i).last() == vals.last());
        let rest = stored_model(keys.drop_last(), vals.drop_last());
        assert(stored_model(keys.remove(i), vals.remove(i)) == rest.remove(k).insert(
            keys.last().deep_view(),
            vals.last(),
        ));
        assert(keys.last().deep_view() != k);
        assert(rest.remove(k).insert(keys.last().deep_view(), vals.last()) =~= full.remove(k));
    }
}

pub proof fn lemma_stored_update<K: TableKey, V>(keys: Seq<K>, vals: Seq<V>, i: int, v: V)
    requires
        keys.len() == vals.len(),
        forall|p: int, q: int|
            0 <= p < q < keys.len() ==> keys[p].deep_view() != keys[q].deep_view(),
        0 <= i < keys.len(),
    ensures
        stored_model(keys, vals.update(i, v)) == stored_model(keys, vals).insert(
            keys[i].deep_view(),
            v,
        ),
    decreases keys.len(),
{
    let k = keys[i].deep_view();
    let full = stored_model(keys, vals);
    if i == keys.len() - 1 {
        assert(vals.update(i, v).drop_last() =~= vals.drop_last());
        assert(vals.update(i, v).last() == v);
        assert(stored_model(keys, vals.update(i, v)) =~= full.insert(k, v));
    } else {
        lemma_stored_update(keys.drop_last(), vals.drop_last(), i, v);
        assert(vals.update(i, v).drop_last() =~= vals.drop_last().update(i, v));
        assert(vals.update(i, v).last() == vals.last());
        let rest = stored_model(keys.drop_last(), vals.drop_last());
        assert(stored_model(keys, vals.update(i, v)) == rest.insert(k, v).insert(
            keys.last().deep_view(),
            vals.last(),
        ));
        assert(keys.last().deep_view() != k);
        assert(rest.insert(k, v).insert(keys.last().deep_view(), vals.last()) =~= full.insert(
            k,
            v,
        ));
    }
}

/// The abstract map is the stored map seen through each value's deep view.
pub proof fn lemma_model_is_deep_of_stored<K: TableKey, V: DeepView>(keys: Seq<K>, vals: Seq<V>)
    requires
        keys.len() == vals.len(),
    ensures
        table_model(keys, vals).dom() == stored_model(keys, vals).dom(),
        forall|k: K::V| #[trigger]
            stored_model(keys, vals).contains_key(k) ==> table_model(keys, vals)[k]
                == stored_model(keys, vals)[k].deep_view(),
    decreases keys.len(),
{
    if keys.len() > 0 {
        lemma_model_is_deep_of_stored(keys.drop_last(), vals.drop_last());
        assert(table_model(keys, vals).dom() =~= stored_model(keys, vals).dom());
    } else {
        assert(table_model(keys, vals).dom() =~= stored_model(keys, vals).dom());
    }
}

impl<K: TableKey, V: DeepView> Table<K, V> {
    pub fn new() -> (r: Self)
        ensures
            r.wf(),
            r@ == Map::<K::V, V::V>::empty(),
            r.stored() == Map::<K::V, V>::empty(),
    {
        Table { keys: Vec::new(), vals: Vec::new() }
    }

    fn find(&self, k: &K) -> (r: Option<usize>)
        requires
            self.wf(),
        ensures
            match r {
                Some(i) => 0 <= i < self.keys@.len() && self.keys@[i as int].deep_view()
                    == k.deep_view(),
                None => forall|i: int|
                    0 <= i < self.keys@.len() ==> self.keys@[i].deep_view() != k.deep_view(),
            },
    {
        let mut i: usize = 0;
        while i < self.keys.len()
            invariant
                i <= self.keys@.len(),
                forall|j: int| 0 <= j < i ==> self.keys@[j].deep_view() != k.deep_view(),
            decreases self.keys@.len() - i,
        {
            if self.keys[i].key_eq(k) {
                return Some(i);
            }
            i = i + 1;
        }
        None
    }

    pub fn contains_key(&self, k: &K) -> (r: bool)
        requires
            self.wf(),
        ensures
            r == self@.contains_key(k.deep_view()),
    {
        proof {
            lemma_model_contains(self.keys@, self.vals@, k.deep_view());
        }
        self.find(k).is_some()
    }

    pub fn get(&self, k: &K) -> (r: Option<&V>)
        requires
            self.wf(),
        ensures
            match r {
                Some(v) => self@.contains_key(k.deep_view()) && v.deep_view()
                    == self@[k.deep_view()] && self.stored().contains_key(k.deep_view()) && *v
                    == self.stored()[k.deep_view()],
                None => !self@.contains_key(k.deep_view()) && !self.stored().contains_key(
                    k.deep_view(),
                ),
            },
    {
        proof {
            lemma_model_contains(self.keys@, self.vals@, k.deep_view());
            lemma_stored_contains(self.keys@, self.vals@, k.deep_view());
        }
        match self.find(k) {
            Some(i) => {
                proof {
                    lemma_model_index(self.keys@, self.vals@, i as int);
                    lemma_stored_index(self.keys@, self.vals@, i as int);
                }
                Some(&self.vals[i])
            },
            None => None,
        }
    }

    pub fn insert(&mut self, k: K, v: V)
        requires
            old(self).wf(),
        ensures
            final(self).wf(),
            final(self)@ == old(self)@.insert(k.deep_view(), v.deep_view()),
            final(self).stored() == old(self).stored().insert(k.deep_view(), v),
    {
        match self.find(&k) {
            Some(i) => {
                proof {
                    lemma_model_update(self.keys@, self.vals@, i as int, v);
                    lemma_stored_update(self.keys@, self.vals@, i as int, v);
                }
                self.vals[i] = v;
                proof {
                    assert(self.vals@ == old(self).vals@.update(i as int, v));
                    assert(self@ == old(self)@.insert(self.keys@[i as int].deep_view(), v.deep_view()));
                    assert(self@ == old(self)@.insert(k.deep_view(), v.deep_view()));
                    assert(self.stored() == old(self).stored().insert(k.deep_view(), v));
                }
            },
            None => {
                self.keys.push(k);
                self.vals.push(v);
                proof {
                    assert(self.keys@.drop_last() =~= old(self).keys@);
                    assert(self.vals@.drop_last() =~= old(self).vals@);
                    assert(forall|p: int, q: int|
                        0 <= p < q < self.keys@.len() ==> self.keys@[p].deep_view()
                            != self.keys@[q].deep_view());
                }
            },
        }
    }

    pub fn remove(&mut self, k: &K) -> (r: Option<V>)
        requires
            old(self).wf(),
        ensures
            final(self).wf(),
            final(self)@ == old(self)@.remove(k.deep_view()),
            final(self).stored() == old(self).stored().remove(k.deep_view()),
            match r {
                Some(v) => old(self)@.contains_key(k.deep_view()) && v.deep_view() == old(
                    self,
                )@[k.deep_view()] && old(self).stored().contains_key(k.deep_view()) && v == old(
                    self,
                ).stored()[k.deep_view()],
                None => !old(self)@.contains_key(k.deep_view()) && !old(
                    self,
                ).stored().contains_key(k.deep_view()),
            },
    {
        proof {
            lemma_model_contains(self.keys@, self.vals@, k.deep_view());
            lemma_stored_contains(self.keys@, self.vals@, k.deep_view());
        }
        match self.find(k) {
            Some(i) => {
                proof {
                    lemma_model_index(self.keys@, self.vals@, i as int);
                    lemma_model_remove(self.keys@, self.vals@, i as int);
                    lemma_stored_index(self.keys@, self.vals@, i as int);
                    lemma_stored_remove(self.keys@, self.vals@, i as int);
                }
                let _ = self.keys.remove(i);
                let v = self.vals.remove(i);
                proof {
                    assert(forall|p: int, q: int|
                        0 <= p < q < self.keys@.len() ==> self.keys@[p].deep_view()
                            != self.keys@[q].deep_view());
                }
                Some(v)
            },
            None => {
                proof {
                    assert(self@ =~= self@.remove(k.deep_view()));
                    assert(self.stored() =~= self.stored().remove(k.deep_view()));
                }
                None
            },
        }
    }
}

} // verus!
