//! Values filed under names, in the order in which their names first came.
//!
//! The names are held by an `indexmap::IndexSet<String>`, which finds a name's position by
//! hashing; the values sit in a `Vec` at the positions of their names.
use vstd::prelude::*;
use indexmap::IndexSet;

verus! {

#[verifier::external_type_specification]
#[verifier::external_body]
#[verifier::reject_recursive_types(T)]
#[verifier::reject_recursive_types(S)]
pub struct ExIndexSet<T, S>(IndexSet<T, S>);

/// The names that an index holds, in the order in which they were first inserted.
pub uninterp spec fn index_names(s: IndexSet<String>) -> Seq<Seq<char>>;

/// `IndexSet::new`: a set that holds no name.
#[verifier::external_body]
fn index_new() -> (r: IndexSet<String>)
    ensures
        index_names(r) == Seq::<Seq<char>>::empty(),
{
    IndexSet::new()
}

/// `IndexSet::get_index_of`: the position of a name, if the set holds it.
#[verifier::external_body]
fn index_find(s: &IndexSet<String>, name: &str) -> (r: Option<usize>)
    ensures
        match r {
            Some(i) => i < index_names(*s).len() && index_names(*s)[i as int] == name@,
            None => !index_names(*s).contains(name@),
        },
{
    s.get_index_of(name)
}

/// `IndexSet::insert_full`: a name that the set holds keeps its position and the set is
/// unchanged; another is appended. Returns the position and whether the name was new.
#[verifier::external_body]
fn index_insert(s: &mut IndexSet<String>, name: String) -> (r: (usize, bool))
    ensures
        index_names(*old(s)).contains(name@) ==> {
            &&& !r.1
            &&& r.0 < index_names(*old(s)).len()
            &&& index_names(*old(s))[r.0 as int] == name@
            &&& index_names(*final(s)) == index_names(*old(s))
        },
        !index_names(*old(s)).contains(name@) ==> {
            &&& r.1
            &&& r.0 == index_names(*old(s)).len()
            &&& index_names(*final(s)) == index_names(*old(s)).push(name@)
        },
{
    s.insert_full(name)
}

/// `IndexSet`'s indexing by position.
#[verifier::external_body]
fn index_name_at(s: &IndexSet<String>, i: usize) -> (r: &String)
    requires
        i < index_names(*s).len(),
    ensures
        r@ == index_names(*s)[i as int],
{
    &s[i]
}

/// Whether some entry of `e` is filed under `k`.
pub open spec fn has_key<W>(e: Seq<(Seq<char>, W)>, k: Seq<char>) -> bool {
    exists|i: int| 0 <= i < e.len() && #[trigger] e[i].0 == k
}

/// The position of the entry filed under `k`, where there is one.
pub open spec fn key_pos<W>(e: Seq<(Seq<char>, W)>, k: Seq<char>) -> int {
    choose|i: int| 0 <= i < e.len() && #[trigger] e[i].0 == k
}

/// No two entries are filed under one name.
pub open spec fn keys_distinct<W>(e: Seq<(Seq<char>, W)>) -> bool {
    forall|i: int, j: int| 0 <= i < e.len() && 0 <= j < e.len() && i != j ==> #[trigger] e[i].0 != #[trigger] e[j].0
}

/// The value filed under `k`, if any.
pub open spec fn lookup<W>(e: Seq<(Seq<char>, W)>, k: Seq<char>) -> Option<W> {
    if has_key(e, k) {
        Some(e[key_pos(e, k)].1)
    } else {
        None
    }
}

/// Files `w` under `k`: an entry already filed under `k` gets the new value in its place,
/// otherwise the entry is appended.
pub open spec fn insert_entry<W>(e: Seq<(Seq<char>, W)>, k: Seq<char>, w: W) -> Seq<(Seq<char>, W)> {
    if has_key(e, k) {
        e.update(key_pos(e, k), (k, w))
    } else {
        e.push((k, w))
    }
}

/// Files each entry of `more` in turn.
pub open spec fn insert_all<W>(e: Seq<(Seq<char>, W)>, more: Seq<(Seq<char>, W)>) -> Seq<(Seq<char>, W)>
    decreases more.len(),
{
    if more.len() == 0 {
        e
    } else {
        insert_entry(insert_all(e, more.drop_last()), more.last().0, more.last().1)
    }
}

/// With distinct names, the entry filed under `k` is the one at any position that holds `k`.
pub proof fn lemma_key_pos_unique<W>(e: Seq<(Seq<char>, W)>, i: int)
    requires
        keys_distinct(e),
        0 <= i < e.len(),
    ensures
        has_key(e, e[i].0),
        key_pos(e, e[i].0) == i,
{
    assert(e[i].0 == e[i].0);
}

/// Filing keeps names distinct.
pub proof fn lemma_insert_entry_distinct<W>(e: Seq<(Seq<char>, W)>, k: Seq<char>, w: W)
    requires
        keys_distinct(e),
    ensures
        keys_distinct(insert_entry(e, k, w)),
        has_key(insert_entry(e, k, w), k),
        lookup(insert_entry(e, k, w), k) == Some(w),
{
    let r = insert_entry(e, k, w);
    if has_key(e, k) {
        let p = key_pos(e, k);
        assert(r[p].0 == k);
        lemma_key_pos_unique(r, p);
    } else {
        assert(r[e.len() as int].0 == k);
        lemma_key_pos_unique(r, e.len() as int);
    }
}

/// Filing `w` and then replacing the entry filed under `k` by `x` files `x`.
pub proof fn lemma_insert_then_update<W>(e: Seq<(Seq<char>, W)>, k: Seq<char>, w: W, x: W, i: int)
    requires
        keys_distinct(e),
        0 <= i < insert_entry(e, k, w).len(),
        insert_entry(e, k, w)[i].0 == k,
    ensures
        insert_entry(e, k, w).update(i, (k, x)) == insert_entry(e, k, x),
{
    let r = insert_entry(e, k, w);
    lemma_insert_entry_distinct(e, k, w);
    if has_key(e, k) {
        let p = key_pos(e, k);
        assert(r[p].0 == k);
        assert(i == p);
        assert(r.update(i, (k, x)) =~= e.update(p, (k, x)));
    } else {
        assert(r[e.len() as int].0 == k);
        assert(i == e.len());
        assert(r.update(i, (k, x)) =~= e.push((k, x)));
    }
}

/// Values filed under names, in the order in which their names first came.
pub struct NamedMap<V> {
    names: IndexSet<String>,
    values: Vec<V>,
}

impl<V: View> View for NamedMap<V> {
    type V = Seq<(Seq<char>, V::V)>;

    closed spec fn view(&self) -> Seq<(Seq<char>, V::V)> {
        Seq::new(self.values@.len(), |i: int| (index_names(self.names)[i], self.values@[i]@))
    }
}

impl<V: View> NamedMap<V> {
    /// The names and values line up, and no name occurs twice.
    pub closed spec fn wf(&self) -> bool {
        &&& index_names(self.names).len() == self.values@.len()
        &&& forall|i: int, j: int|
            0 <= i < self.values@.len() && 0 <= j < self.values@.len() && i != j
                ==> #[trigger] index_names(self.names)[i] != #[trigger] index_names(self.names)[j]
    }

    /// The value at position `i`.
    pub closed spec fn value(&self, i: int) -> V {
        self.values@[i]
    }

    /// The view of each entry holds the view of its value.
    pub proof fn lemma_view_value(&self, i: int)
        requires
            self.wf(),
            0 <= i < self@.len(),
        ensures
            self@[i].1 == self.value(i)@,
    {
    }

    /// A well-formed map files no two entries under one name.
    pub proof fn lemma_wf_distinct(&self)
        requires
            self.wf(),
        ensures
            keys_distinct(self@),
    {
        assert forall|i: int, j: int| 0 <= i < self@.len() && 0 <= j < self@.len() && i != j implies
            #[trigger] self@[i].0 != #[trigger] self@[j].0 by {
            assert(self@[i].0 == index_names(self.names)[i]);
            assert(self@[j].0 == index_names(self.names)[j]);
        }
    }

    /// An empty map.
    pub fn new() -> (r: NamedMap<V>)
        ensures
            r.wf(),
            r@ == Seq::<(Seq<char>, V::V)>::empty(),
    {
        let r = NamedMap { names: index_new(), values: Vec::new() };
        assert(r@ =~= Seq::<(Seq<char>, V::V)>::empty());
        r
    }

    /// The number of entries.
    pub fn len(&self) -> (r: usize)
        requires
            self.wf(),
        ensures
            r == self@.len(),
    {
        self.values.len()
    }

    /// The position of the entry filed under `name`, if any.
    pub fn find(&self, name: &str) -> (r: Option<usize>)
        requires
            self.wf(),
        ensures
            match r {
                Some(i) => i < self@.len() && self@[i as int].0 == name@ && has_key(self@, name@)
                    && key_pos(self@, name@) == i,
                None => !has_key(self@, name@),
            },
    {
        proof {
            self.lemma_wf_distinct();
        }
        let r = index_find(&self.names, name);
        match r {
            Some(i) => {
                assert(self@[i as int].0 == name@);
                proof {
                    lemma_key_pos_unique(self@, i as int);
                }
            },
            None => {
                assert forall|i: int| 0 <= i < self@.len() implies #[trigger] self@[i].0 != name@ by {
                    assert(self@[i].0 == index_names(self.names)[i]);
                }
            },
        }
        r
    }

    /// The name of the entry at position `i`.
    pub fn name_at(&self, i: usize) -> (r: &String)
        requires
            self.wf(),
            i < self@.len(),
        ensures
            r@ == self@[i as int].0,
    {
        index_name_at(&self.names, i)
    }

    /// The value of the entry at position `i`.
    pub fn value_at(&self, i: usize) -> (r: &V)
        requires
            self.wf(),
            i < self@.len(),
        ensures
            r@ == self@[i as int].1,
            *r == self.value(i as int),
    {
        &self.values[i]
    }

    /// The value filed under `name`, if any.
    pub fn get(&self, name: &str) -> (r: Option<&V>)
        requires
            self.wf(),
        ensures
            match lookup(self@, name@) {
                Some(w) => r matches Some(v) && v@ == w,
                None => r is None,
            },
    {
        match self.find(name) {
            Some(i) => Some(&self.values[i]),
            None => None,
        }
    }

    /// Files `value` under `name` (see [`insert_entry`]) and returns its position.
    pub fn insert(&mut self, name: String, value: V) -> (r: usize)
        requires
            old(self).wf(),
        ensures
            final(self).wf(),
            final(self)@ == insert_entry(old(self)@, name@, value@),
            r < final(self)@.len(),
            final(self)@[r as int].0 == name@,
            final(self).value(r as int) == value,
            forall|j: int| 0 <= j < final(self)@.len() && j != r ==> #[trigger] final(self).value(j) == old(self).value(j),
    {
        proof {
            self.lemma_wf_distinct();
        }
        let ghost k = name@;
        let (i, fresh) = index_insert(&mut self.names, name);
        if fresh {
            self.values.push(value);
            assert forall|a: int| 0 <= a < old(self)@.len() implies #[trigger] old(self)@[a].0 != k by {
                assert(old(self)@[a].0 == index_names(old(self).names)[a]);
            }
            assert(self@ =~= old(self)@.push((k, value@)));
        } else {
            assert(old(self)@[i as int].0 == k);
            proof {
                lemma_key_pos_unique(old(self)@, i as int);
            }
            self.values.set(i, value);
            assert(self@ =~= old(self)@.update(i as int, (k, value@)));
        }
        i
    }

    /// The value at position `i`, to be changed in place.
    pub fn value_mut(&mut self, i: usize) -> (r: &mut V)
        requires
            old(self).wf(),
            i < old(self)@.len(),
        ensures
            (*r)@ == old(self)@[i as int].1,
            final(self).wf(),
            final(self)@ == old(self)@.update(i as int, (old(self)@[i as int].0, (*final(r))@)),
            *r == old(self).value(i as int),
            final(self).value(i as int) == *final(r),
            forall|j: int| 0 <= j < final(self)@.len() && j != i ==> #[trigger] final(self).value(j) == old(self).value(j),
    {
        &mut self.values[i]
    }
}

} // verus!
