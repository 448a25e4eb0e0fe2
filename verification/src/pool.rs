//! The identifier/arena layer: append-only pools that issue dense,
//! monotonically increasing logical ids, and name maps binding strings to
//! those ids.
//!
//! A logical id is a small integer assigned once per pool and never reused;
//! because ids are dense they double as bit-vector indices. The arena handle
//! (the storage slot behind an id) is looked up through the pool, so handles
//! may be reorganised without disturbing the ids that the rest of the model
//! holds on to.

use vstd::prelude::*;

verus! {

broadcast use vstd::std_specs::vec::group_vec_axioms;

/// An append-only arena paired with a monotonic logical-id generator.
///
/// Ids run from `first_id()` upwards with no gaps; `get_id` translates a
/// logical id to the arena handle of its entity.
pub struct Pool<T> {
    origin: usize,
    items: Vec<T>,
}

impl<T> Pool<T> {
    /// The stored entities, in allocation order (handle order).
    pub closed spec fn entries(&self) -> Seq<T> {
        self.items@
    }

    /// The first logical id this pool issues.
    pub closed spec fn first_id(&self) -> int {
        self.origin as int
    }

    /// The logical id the next insertion will receive.
    pub open spec fn next_id(&self) -> int {
        self.first_id() + self.entries().len()
    }

    /// Whether `id` has been issued by this pool.
    pub open spec fn valid_id(&self, id: int) -> bool {
        self.first_id() <= id < self.next_id()
    }

    /// The entity a logical id refers to.
    pub open spec fn at_id(&self, id: int) -> T
        recommends
            self.valid_id(id),
    {
        self.entries()[id - self.first_id()]
    }

    /// The handle (arena slot) behind a logical id.
    pub open spec fn handle_of(&self, id: int) -> int
        recommends
            self.valid_id(id),
    {
        id - self.first_id()
    }

    pub fn new(origin: usize) -> (p: Self)
        ensures
            p.first_id() == origin,
            p.entries() =~= Seq::<T>::empty(),
    {
        Pool { origin, items: Vec::new() }
    }

    pub fn len(&self) -> (n: usize)
        ensures
            n == self.entries().len(),
    {
        self.items.len()
    }

    /// The logical id the next insertion will receive.
    pub fn peek_next_id(&self) -> (id: usize)
        requires
            self.next_id() <= usize::MAX,
        ensures
            id == self.next_id(),
    {
        self.origin + self.items.len()
    }

    /// Allocate the next logical id for `item` without binding any name.
    /// Returns the pair (logical id, arena handle).
    pub fn insert(&mut self, item: T) -> (r: (usize, usize))
        requires
            old(self).next_id() < usize::MAX,
        ensures
            r.0 == old(self).next_id(),
            r.1 == old(self).entries().len(),
            final(self).entries() == old(self).entries().push(item),
            final(self).first_id() == old(self).first_id(),
    {
        let handle = self.items.len();
        let name_id = self.origin + handle;
        self.items.push(item);
        (name_id, handle)
    }

    /// Translate a logical id to its arena handle, if the id was issued here.
    pub fn get_id(&self, name_id: usize) -> (r: Option<usize>)
        ensures
            match r {
                Some(h) => self.valid_id(name_id as int) && h == self.handle_of(name_id as int),
                None => !self.valid_id(name_id as int),
            },
    {
        if name_id >= self.origin && name_id - self.origin < self.items.len() {
            Some(name_id - self.origin)
        } else {
            None
        }
    }

    /// Read the entity at an arena handle.
    pub fn get(&self, handle: usize) -> (r: &T)
        requires
            handle < self.entries().len(),
        ensures
            *r == self.entries()[handle as int],
    {
        &self.items[handle]
    }

    /// Mutable access to the entity at an arena handle.
    pub fn get_mut(&mut self, handle: usize) -> (r: &mut T)
        requires
            handle < old(self).entries().len(),
        ensures
            *r == old(self).entries()[handle as int],
            final(self).entries() == old(self).entries().update(handle as int, *final(r)),
            final(self).first_id() == old(self).first_id(),
    {
        &mut self.items[handle]
    }
}

/// Logical ids are issued in strictly increasing order and never reused:
/// every id a pool has issued so far is strictly below the id that the next
/// insertion returns, whichever name map sharing the pool asks for it.
pub proof fn lemma_id_monotonicity<T>(p: Pool<T>, id: int)
    requires
        p.valid_id(id),
    ensures
        id < p.next_id(),
        forall|other: int|
            p.valid_id(other) && other != id ==> p.handle_of(other) != p.handle_of(id),
{
}

/// The mathematical content of a name map: later bindings shadow earlier
/// ones (last bind wins). Keys are compared by their models, so two strings
/// (or two constant values) with equal content are the same key.
pub open spec fn assoc_view<K: View>(s: Seq<(K, usize)>) -> Map<<K as View>::V, usize>
    decreases s.len(),
{
    if s.len() == 0 {
        Map::empty()
    } else {
        assoc_view(s.drop_last()).insert(s.last().0@, s.last().1 as usize)
    }
}

pub broadcast proof fn lemma_assoc_contains<K: View>(s: Seq<(K, usize)>, k: <K as View>::V)
    ensures
        #[trigger] assoc_view(s).contains_key(k) <==> exists|i: int|
            0 <= i < s.len() && s[i].0@ == k,
    decreases s.len(),
{
    if s.len() > 0 {
        lemma_assoc_contains(s.drop_last(), k);
        if s.last().0@ != k && assoc_view(s).contains_key(k) {
            let i = choose|i: int| 0 <= i < s.len() - 1 && s.drop_last()[i].0@ == k;
            assert(s[i].0@ == k);
        }
        if exists|i: int| 0 <= i < s.len() && s[i].0@ == k {
            let i = choose|i: int| 0 <= i < s.len() && s[i].0@ == k;
            if i < s.len() - 1 {
                assert(s.drop_last()[i].0@ == k);
            }
        }
    }
}

pub proof fn lemma_assoc_get<K: View>(s: Seq<(K, usize)>, k: <K as View>::V, i: int)
    requires
        0 <= i < s.len(),
        s[i].0@ == k,
        forall|j: int| i < j < s.len() ==> (#[trigger] s[j].0)@ != k,
    ensures
        assoc_view(s).contains_key(k),
        assoc_view(s)[k] == s[i].1,
    decreases s.len(),
{
    if i == s.len() - 1 {
    } else {
        assert(s.drop_last()[i].0@ == k);
        lemma_assoc_get(s.drop_last(), k, i);
    }
}

/// A name map: binds human-readable names to logical ids issued by a shared
/// pool. Binding policy: last bind wins (a rebinding shadows the old one).
pub struct NameMap {
    bindings: Vec<(String, usize)>,
}

impl View for NameMap {
    type V = Map<Seq<char>, usize>;

    closed spec fn view(&self) -> Map<Seq<char>, usize> {
        assoc_view(self.bindings@)
    }
}

impl NameMap {
    /// The bound ids, in binding order (used to iterate a scope's entities).
    pub closed spec fn binding_seq(&self) -> Seq<(String, usize)> {
        self.bindings@
    }

    pub fn new() -> (m: Self)
        ensures
            m@ =~= Map::<Seq<char>, usize>::empty(),
            m.binding_seq() =~= Seq::<(String, usize)>::empty(),
    {
        NameMap { bindings: Vec::new() }
    }

    /// Associate `name` with an existing logical id; a later bind for the
    /// same name wins over an earlier one.
    pub fn bind(&mut self, name: String, id: usize)
        ensures
            final(self)@ == old(self)@.insert(name@, id),
            final(self).binding_seq() == old(self).binding_seq().push((name, id)),
    {
        self.bindings.push((name, id));
        proof {
            assert(self.bindings@.drop_last() =~= old(self).binding_seq());
        }
    }

    /// Look the name up; `None` when it was never bound.
    pub fn get(&self, name: &String) -> (r: Option<usize>)
        ensures
            match r {
                Some(id) => self@.contains_key(name@) && self@[name@] == id,
                None => !self@.contains_key(name@),
            },
    {
        let ghost s = self.bindings@;
        let mut i: usize = self.bindings.len();
        while i > 0
            invariant
                i <= s.len(),
                s == self.bindings@,
                forall|j: int| i <= j < s.len() ==> (#[trigger] s[j].0)@ != name@,
            decreases i,
        {
            i = i - 1;
            let entry = &self.bindings[i];
            if entry.0 == *name {
                proof {
                    lemma_assoc_get(s, name@, i as int);
                }
                return Some(entry.1);
            }
        }
        proof {
            lemma_assoc_contains(s, name@);
        }
        None
    }

    /// Number of bindings made so far (rebindings included).
    pub fn binding_count(&self) -> (n: usize)
        ensures
            n == self.binding_seq().len(),
    {
        self.bindings.len()
    }

    /// The binding at position `k`, in binding order.
    pub fn binding_at(&self, k: usize) -> (r: (String, usize))
        requires
            k < self.binding_seq().len(),
        ensures
            r.0@ == self.binding_seq()[k as int].0@,
            r.1 == self.binding_seq()[k as int].1,
    {
        let entry = &self.bindings[k];
        (entry.0.clone(), entry.1)
    }
}

} // verus!
