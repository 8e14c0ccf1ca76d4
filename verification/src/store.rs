//! Objects held in memory, found by their address.

use crate::bytes::bytes_eq;
use crate::error::Error;
use crate::object::{object_id, Object, ObjectView};
use vstd::prelude::*;

verus! {

/// The first of the objects `known` whose address is `hash`.
pub open spec fn lookup(known: Seq<ObjectView>, hash: Seq<u8>) -> Option<ObjectView>
    decreases known.len(),
{
    if known.len() == 0 {
        None
    } else {
        match lookup(known.drop_last(), hash) {
            Some(found) => Some(found),
            None => if object_id(known.last().kind, known.last().payload) == hash {
                Some(known.last())
            } else {
                None
            },
        }
    }
}

/// An object with its address.
struct Slot {
    id: Vec<u8>,
    object: Object,
}

/// Objects held in memory, each with its address, in the order in which
/// they were put in.
pub struct ObjectSet {
    slots: Vec<Slot>,
}

impl ObjectSet {
    /// Whether each object held can be stored and is held with its address.
    /// Every set that the functions of this type give is so.
    pub closed spec fn wf(&self) -> bool {
        forall|i: int|
            0 <= i < self.slots@.len() ==> {
                &&& (#[trigger] self.slots@[i]).object.well_formed()
                &&& self.slots@[i].id@ == object_id(
                    self.slots@[i].object.kind,
                    self.slots@[i].object.payload@,
                )
            }
    }

    /// The objects held, in the order in which they were put in.
    pub closed spec fn view(&self) -> Seq<ObjectView> {
        self.slots@.map_values(|slot: Slot| slot.object@)
    }

    /// A set that holds nothing.
    pub fn new() -> (set: ObjectSet)
        ensures
            set.wf(),
            set@ == Seq::<ObjectView>::empty(),
    {
        let set = ObjectSet { slots: Vec::new() };
        assert(set@ =~= Seq::<ObjectView>::empty());
        set
    }

    /// The number of objects held.
    pub fn len(&self) -> (n: usize)
        ensures
            n == self@.len(),
    {
        self.slots.len()
    }

    /// The object that was put in as number `i`.
    pub fn get(&self, i: usize) -> (object: &Object)
        requires
            self.wf(),
            i < self@.len(),
        ensures
            object@ == self@[i as int],
            object.well_formed(),
    {
        &self.slots[i].object
    }

    /// Puts an object in and gives its address. Fails as `Object::id` does,
    /// and then holds what it held.
    pub fn insert(&mut self, object: Object) -> (r: Result<Vec<u8>, Error>)
        requires
            old(self).wf(),
        ensures
            final(self).wf(),
            match r {
                Ok(hash) => {
                    &&& object.well_formed()
                    &&& hash@ == object_id(object.kind, object.payload@)
                    &&& final(self)@ == old(self)@.push(object@)
                },
                Err(e) => {
                    &&& final(self)@ == old(self)@
                    &&& if !object.kind.is_stored() {
                        e == Error::Unsupported
                    } else {
                        e == Error::SizeMismatch && object.payload@.len() != object.expected_size
                    }
                },
            },
    {
        let id = object.id()?;
        let hash = id.clone();
        assert(hash@ =~= id@);
        let ghost before = self.slots@;
        self.slots.push(Slot { id, object });
        assert(self@ =~= old(self)@.push(object@));
        Ok(hash)
    }

    /// Finds the first object held whose address is `hash`.
    pub fn find(&self, hash: &[u8]) -> (r: Option<&Object>)
        requires
            self.wf(),
        ensures
            match r {
                Some(object) => lookup(self@, hash@) == Some(object@) && object.well_formed(),
                None => lookup(self@, hash@) is None,
            },
    {
        let mut i: usize = 0;
        assert(self@.take(0) =~= Seq::<ObjectView>::empty());
        while i < self.slots.len()
            invariant
                i <= self.slots@.len(),
                self.wf(),
                lookup(self@.take(i as int), hash@) is None,
            decreases self.slots.len() - i,
        {
            proof {
                let ghost next = self@.take(i + 1);
                assert(next.drop_last() =~= self@.take(i as int));
                assert(next.last() == self.slots@[i as int].object@);
                lemma_lookup_extends(next, self@, hash@);
            }
            if bytes_eq(self.slots[i].id.as_slice(), hash) {
                return Some(&self.slots[i].object);
            }
            i = i + 1;
        }
        assert(self@.take(i as int) =~= self@);
        None
    }
}

/// What is found among the first objects is found among all of them.
pub proof fn lemma_lookup_extends(first: Seq<ObjectView>, all: Seq<ObjectView>, hash: Seq<u8>)
    requires
        first.len() <= all.len(),
        first == all.take(first.len() as int),
    ensures
        lookup(first, hash) is Some ==> lookup(all, hash) == lookup(first, hash),
    decreases all.len() - first.len(),
{
    if first.len() < all.len() {
        let shorter = all.drop_last();
        assert(shorter.take(first.len() as int) =~= first);
        lemma_lookup_extends(first, shorter, hash);
    } else {
        assert(first =~= all);
    }
}

} // verus!
