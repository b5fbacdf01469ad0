//! Collections keyed by name, which remember the order in which their names came in.
use crate::text::views;
use vstd::hash_map::StringHashMap;
use vstd::hash_set::StringHashSet;
use vstd::prelude::*;
use vstd::string::*;

verus! {

/// A further element of a sequence is a further member of the set of its elements.
pub proof fn lemma_push_to_set(s: Seq<Seq<char>>, x: Seq<char>)
    ensures
        s.push(x).to_set() == s.to_set().insert(x),
{
    let after = s.push(x);
    assert forall|y: Seq<char>| s.to_set().insert(x).contains(y) implies after.to_set().contains(
        y,
    ) by {
        if y == x {
            assert(after[s.len() as int] == y);
        } else {
            let i = choose|i: int| 0 <= i < s.len() && s[i] == y;
            assert(after[i] == y);
        }
    }
    assert(after.to_set() =~= s.to_set().insert(x));
}

/// Of names that are listed once each, the one at place `i` adds one to those that are kept
/// among the names before it, where it is kept itself.
pub proof fn lemma_next_kept(
    names: Seq<Seq<char>>,
    i: int,
    keep: spec_fn(Seq<char>) -> bool,
)
    requires
        0 <= i < names.len(),
        names.no_duplicates(),
        names.take(i).to_set().filter(keep).finite(),
    ensures
        names.take(i + 1).to_set().filter(keep) == if keep(names[i]) {
            names.take(i).to_set().filter(keep).insert(names[i])
        } else {
            names.take(i).to_set().filter(keep)
        },
        names.take(i + 1).to_set().filter(keep).finite(),
        names.take(i + 1).to_set().filter(keep).len() == names.take(i).to_set().filter(keep).len()
            + if keep(names[i]) {
            1nat
        } else {
            0
        },
{
    let done = names.take(i);
    assert(names.take(i + 1) =~= done.push(names[i]));
    lemma_push_to_set(done, names[i]);
    assert(!done.contains(names[i]));
    if keep(names[i]) {
        assert(names.take(i + 1).to_set().filter(keep) =~= done.to_set().filter(keep).insert(
            names[i],
        ));
    } else {
        assert(names.take(i + 1).to_set().filter(keep) =~= done.to_set().filter(keep));
    }
}

/// A set of names, listed once each.
pub struct NameSet {
    names: Vec<String>,
    index: StringHashSet,
}

impl View for NameSet {
    type V = Set<Seq<char>>;

    open spec fn view(&self) -> Set<Seq<char>> {
        self.order().to_set()
    }
}

impl NameSet {
    /// The members, in the order in which they came in.
    pub closed spec fn order(&self) -> Seq<Seq<char>> {
        views(self.names@)
    }

    #[verifier::type_invariant]
    spec fn listed_once(&self) -> bool {
        &&& self.order().no_duplicates()
        &&& self.index@ == self.order().to_set()
    }

    /// The set without members.
    pub fn new() -> (r: NameSet)
        ensures
            r@ == Set::<Seq<char>>::empty(),
            r.order() == Seq::<Seq<char>>::empty(),
    {
        let names: Vec<String> = Vec::new();
        let index = StringHashSet::new();
        assert(views(names@) =~= Seq::<Seq<char>>::empty());
        assert(index@ =~= views(names@).to_set());
        NameSet { names, index }
    }

    /// The number of members.
    pub fn len(&self) -> (r: usize)
        ensures
            r == self.order().len(),
            r == self@.len(),
            self@.finite(),
            self.order().no_duplicates(),
    {
        proof {
            use_type_invariant(self);
            self.order().unique_seq_to_set();
            vstd::seq_lib::seq_to_set_is_finite(self.order());
        }
        self.names.len()
    }

    /// The member that came in at place `i`.
    pub fn get(&self, i: usize) -> (r: &str)
        requires
            i < self.order().len(),
        ensures
            r@ == self.order()[i as int],
            self@.contains(r@),
    {
        let r = self.names[i].as_str();
        assert(self.order()[i as int] == r@);
        r
    }

    /// Whether `name` is a member.
    pub fn contains(&self, name: &str) -> (r: bool)
        ensures
            r == self@.contains(name@),
    {
        proof {
            use_type_invariant(self);
        }
        self.index.contains(name)
    }

    /// Makes `name` a member. Returns whether it was not one before.
    pub fn insert(&mut self, name: &str) -> (r: bool)
        ensures
            r == !old(self)@.contains(name@),
            final(self)@ == old(self)@.insert(name@),
            final(self).order() == if r {
                old(self).order().push(name@)
            } else {
                old(self).order()
            },
    {
        if self.contains(name) {
            assert(self@.insert(name@) =~= self@);
            return false;
        }
        let mut taken = NameSet::new();
        std::mem::swap(self, &mut taken);
        proof {
            use_type_invariant(&taken);
        }
        let ghost before = taken.order();
        let NameSet { mut names, mut index } = taken;
        names.push(name.to_owned());
        index.insert(name.to_owned());
        proof {
            let after = views(names@);
            assert(after =~= before.push(name@));
            assert(!before.contains(name@));
            assert(after.to_set() =~= before.to_set().insert(name@)) by {
                assert forall|x: Seq<char>| before.to_set().insert(name@).contains(x) implies after
                    .to_set().contains(x) by {
                    if x == name@ {
                        assert(after[after.len() - 1] == x);
                    } else {
                        let i = choose|i: int| 0 <= i < before.len() && before[i] == x;
                        assert(after[i] == x);
                    }
                }
            }
        }
        *self = NameSet { names, index };
        true
    }
}

/// A map from names to values. A name keeps the place at which it first came in.
#[verifier::reject_recursive_types(V)]
pub struct NameMap<V> {
    keys: Vec<String>,
    values: Vec<V>,
    index: StringHashMap<usize>,
}

impl<V> View for NameMap<V> {
    type V = Map<Seq<char>, V>;

    open spec fn view(&self) -> Map<Seq<char>, V> {
        Map::new(
            |k: Seq<char>| self.order().contains(k),
            |k: Seq<char>| self.contents()[self.order().index_of(k)],
        )
    }
}

impl<V> NameMap<V> {
    /// The names, in the order in which they came in.
    pub closed spec fn order(&self) -> Seq<Seq<char>> {
        views(self.keys@)
    }

    /// The values, in the order of their names.
    pub closed spec fn contents(&self) -> Seq<V> {
        self.values@
    }

    spec fn indexed(keys: Seq<Seq<char>>, index: Map<Seq<char>, usize>) -> bool {
        &&& forall|k: Seq<char>| #[trigger]
            index.contains_key(k) ==> index[k] < keys.len() && keys[index[k] as int] == k
        &&& forall|i: int|
            0 <= i < keys.len() ==> index.contains_key(#[trigger] keys[i]) && index[keys[i]] == i
    }

    #[verifier::type_invariant]
    spec fn consistent(&self) -> bool {
        &&& self.keys@.len() == self.values@.len()
        &&& Self::indexed(self.order(), self.index@)
    }

    /// The map without entries.
    pub fn new() -> (r: NameMap<V>)
        ensures
            r@ == Map::<Seq<char>, V>::empty(),
            r.order() == Seq::<Seq<char>>::empty(),
            r.contents() == Seq::<V>::empty(),
    {
        let r = NameMap { keys: Vec::new(), values: Vec::new(), index: StringHashMap::new() };
        assert(r.order() =~= Seq::<Seq<char>>::empty());
        r
    }

    /// The number of entries.
    pub fn len(&self) -> (r: usize)
        ensures
            r == self.order().len(),
            r == self.contents().len(),
            self.order().no_duplicates(),
    {
        proof {
            use_type_invariant(self);
        }
        self.keys.len()
    }

    /// The name that came in at place `i`.
    pub fn key(&self, i: usize) -> (r: &str)
        requires
            i < self.order().len(),
        ensures
            r@ == self.order()[i as int],
            self@.contains_key(r@),
    {
        let r = self.keys[i].as_str();
        assert(self.order()[i as int] == r@);
        r
    }

    /// The place of `name`, where it has an entry.
    fn place(&self, name: &str) -> (r: Option<usize>)
        ensures
            match r {
                Some(i) => i < self.order().len() && i < self.contents().len()
                    && self.order()[i as int] == name@ && self@.contains_key(name@)
                    && self@[name@] == self.contents()[i as int],
                None => !self@.contains_key(name@),
            },
    {
        proof {
            use_type_invariant(self);
        }
        match self.index.get(name) {
            Some(i) => {
                assert(self.order()[*i as int] == name@);
                assert(self.order().index_of(name@) == *i);
                Some(*i)
            },
            None => None,
        }
    }

    /// The value that `name` maps to, where it has an entry.
    pub fn get(&self, name: &str) -> (r: Option<&V>)
        ensures
            match r {
                Some(v) => self@.contains_key(name@) && *v == self@[name@],
                None => !self@.contains_key(name@),
            },
    {
        match self.place(name) {
            Some(i) => Some(&self.values[i]),
            None => None,
        }
    }

    /// Whether `name` has an entry.
    pub fn contains_key(&self, name: &str) -> (r: bool)
        ensures
            r == self@.contains_key(name@),
    {
        match self.place(name) {
            Some(_) => true,
            None => false,
        }
    }

    /// Maps `name` to `value`, in place of what it mapped to before.
    pub fn insert(&mut self, name: &str, value: V)
        ensures
            final(self)@ == old(self)@.insert(name@, value),
            final(self).order() == if old(self)@.contains_key(name@) {
                old(self).order()
            } else {
                old(self).order().push(name@)
            },
    {
        let place = self.place(name);
        let mut taken = NameMap::new();
        std::mem::swap(self, &mut taken);
        proof {
            use_type_invariant(&taken);
        }
        let ghost before = taken;
        let NameMap { mut keys, mut values, mut index } = taken;
        match place {
            Some(i) => {
                values.set(i, value);
                *self = NameMap { keys, values, index };
                proof {
                    assert(self.order() == before.order());
                    assert forall|k: Seq<char>| self.order().contains(k) implies self@[k]
                        == before@.insert(name@, value)[k] by {
                        let j = before.order().index_of(k);
                        assert(before.order()[j] == k);
                    }
                    assert(self@ =~= before@.insert(name@, value));
                }
            },
            None => {
                let n: usize = keys.len();
                keys.push(name.to_owned());
                values.push(value);
                index.insert(name.to_owned(), n);
                assert(views(keys@) =~= before.order().push(name@));
                *self = NameMap { keys, values, index };
                proof {
                    let after = self.order();
                    assert(after == before.order().push(name@));
                    assert forall|k: Seq<char>| after.contains(k) implies self@[k]
                        == before@.insert(name@, value)[k] && before@.insert(
                        name@,
                        value,
                    ).contains_key(k) by {
                        let j = after.index_of(k);
                        assert(after[j] == k);
                        if k == name@ {
                            assert(after[n as int] == k);
                            assert(j == n);
                        } else {
                            assert(before.order()[j] == k);
                            assert(before.order().index_of(k) == j);
                        }
                    }
                    assert forall|k: Seq<char>|
                        before@.insert(name@, value).contains_key(k) implies after.contains(k) by {
                        if k == name@ {
                            assert(after[n as int] == k);
                        } else {
                            let j = before.order().index_of(k);
                            assert(after[j] == k);
                        }
                    }
                    assert(self@ =~= before@.insert(name@, value));
                }
            },
        }
    }
}

/// The set that `name` maps to; the empty set where it has no entry.
pub open spec fn members(map: Map<Seq<char>, NameSet>, name: Seq<char>) -> Set<Seq<char>> {
    if map.contains_key(name) {
        map[name]@
    } else {
        Set::empty()
    }
}

/// The list that `name` maps to; the empty list where it has no entry.
pub open spec fn listed<T>(map: Map<Seq<char>, Vec<T>>, name: Seq<char>) -> Seq<T> {
    if map.contains_key(name) {
        map[name]@
    } else {
        Seq::empty()
    }
}

impl NameMap<NameSet> {
    /// Makes `member` a member of the set that `name` maps to, which starts out empty.
    pub fn add_member(&mut self, name: &str, member: &str)
        ensures
            final(self)@.dom() == old(self)@.dom().insert(name@),
            forall|k: Seq<char>| #[trigger]
                members(final(self)@, k) == if k == name@ {
                    members(old(self)@, k).insert(member@)
                } else {
                    members(old(self)@, k)
                },
    {
        match self.place(name) {
            Some(i) => {
                let mut taken = NameMap::new();
                std::mem::swap(self, &mut taken);
                proof {
                    use_type_invariant(&taken);
                }
                let ghost before = taken;
                let NameMap { keys, mut values, index } = taken;
                values[i].insert(member);
                *self = NameMap { keys, values, index };
                proof {
                    assert(self.order() == before.order());
                    assert(self@.dom() =~= before@.dom().insert(name@));
                    assert forall|k: Seq<char>| #[trigger]
                        members(self@, k) == if k == name@ {
                            members(before@, k).insert(member@)
                        } else {
                            members(before@, k)
                        } by {
                        if self.order().contains(k) {
                            let j = self.order().index_of(k);
                            assert(self.order()[j] == k);
                        }
                    }
                }
            },
            None => {
                let mut fresh = NameSet::new();
                fresh.insert(member);
                self.insert(name, fresh);
                assert(self@.dom() =~= old(self)@.dom().insert(name@));
            },
        }
    }
}

impl<T> NameMap<Vec<T>> {
    /// Appends `item` to the list that `name` maps to, which starts out empty.
    pub fn append_item(&mut self, name: &str, item: T)
        ensures
            final(self)@.dom() == old(self)@.dom().insert(name@),
            final(self).order() == if old(self)@.contains_key(name@) {
                old(self).order()
            } else {
                old(self).order().push(name@)
            },
            forall|k: Seq<char>| #[trigger]
                listed(final(self)@, k) == if k == name@ {
                    listed(old(self)@, k).push(item)
                } else {
                    listed(old(self)@, k)
                },
    {
        match self.place(name) {
            Some(i) => {
                let mut taken = NameMap::new();
                std::mem::swap(self, &mut taken);
                proof {
                    use_type_invariant(&taken);
                }
                let ghost before = taken;
                let NameMap { keys, mut values, index } = taken;
                values[i].push(item);
                *self = NameMap { keys, values, index };
                proof {
                    assert(self.order() == before.order());
                    assert(self@.dom() =~= before@.dom().insert(name@));
                    assert forall|k: Seq<char>| #[trigger]
                        listed(self@, k) == if k == name@ {
                            listed(before@, k).push(item)
                        } else {
                            listed(before@, k)
                        } by {
                        if self.order().contains(k) {
                            let j = self.order().index_of(k);
                            assert(self.order()[j] == k);
                        }
                    }
                }
            },
            None => {
                let mut fresh: Vec<T> = Vec::new();
                fresh.push(item);
                self.insert(name, fresh);
                proof {
                    assert(self@.dom() =~= old(self)@.dom().insert(name@));
                    assert(fresh@ =~= Seq::<T>::empty().push(item));
                }
            },
        }
    }
}

} // verus!
