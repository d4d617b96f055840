//! The workload generator: it hands out elements under ids that count up
//! from 1, remembers which of them are still live, and turns them into
//! insertions, deletions and searches.

use vstd::prelude::*;
use crate::{Element, Key, ID};
use crate::random::{random_10_7, random_issued_id, RANDOM_MAX};

verus! {

/// One step of a workload.
#[derive(Clone, Copy)]
pub enum Action {
    Insertion(Element),
    Deletion(Key),
    Search(Key),
}

/// The generator's memory: for every id handed out so far, the key that
/// went with it, or nothing once a deletion was generated for it.
pub struct DataGenerator {
    generated: Vec<Option<Key>>,
    next_id: ID,
}

impl View for DataGenerator {
    type V = Seq<Option<Key>>;

    /// The key handed out under each id, the id `i + 1` at place `i`, or
    /// `None` where a deletion was generated for it.
    closed spec fn view(&self) -> Seq<Option<Key>> {
        self.generated@
    }
}

impl DataGenerator {
    #[verifier::type_invariant]
    spec fn well_formed(self) -> bool {
        self.next_id == self.generated@.len() + 1
    }

    /// The id that the next element gets.
    pub open spec fn next_id(self) -> nat {
        self@.len() + 1
    }

    /// A generator that has handed out nothing.
    pub fn new() -> (g: Self)
        ensures
            g@ == Seq::<Option<Key>>::empty(),
    {
        Self { next_id: 1, generated: Vec::new() }
    }

    fn gen_key(&self) -> (k: Key)
        ensures
            k <= RANDOM_MAX,
    {
        random_10_7()
    }

    /// A new element: the next id with a random key.
    pub fn gen_element(&mut self) -> (e: Element)
        requires
            old(self).next_id() < u64::MAX,
        ensures
            e.0 == old(self).next_id(),
            e.1 <= RANDOM_MAX,
            final(self)@ == old(self)@.push(Some(e.1)),
    {
        proof {
            use_type_invariant(&*self);
        }
        let e = (self.next_id, self.gen_key());
        let mut taken = Self::new();
        std::mem::swap(self, &mut taken);
        let Self { mut generated, next_id } = taken;
        generated.push(Some(e.1));
        *self = Self { generated, next_id: next_id + 1 };
        e
    }

    /// The insertion of a new element.
    pub fn gen_insertion(&mut self) -> (a: Action)
        requires
            old(self).next_id() < u64::MAX,
        ensures
            a matches Action::Insertion(e) && e.0 == old(self).next_id() && e.1 <= RANDOM_MAX
                && final(self)@ == old(self)@.push(Some(e.1)),
    {
        Action::Insertion(self.gen_element())
    }

    /// Forgets the key that went with `id` and returns it, if `id` was
    /// handed out and no deletion was generated for it yet.
    pub fn retire(&mut self, id: ID) -> (k: Option<Key>)
        ensures
            1 <= id < old(self).next_id() ==> {
                &&& k == old(self)@[id - 1]
                &&& final(self)@ == old(self)@.update(id - 1, None)
            },
            !(1 <= id < old(self).next_id()) ==> k is None && final(self)@ == old(self)@,
    {
        proof {
            use_type_invariant(&*self);
            assert(self.generated.len() == self.generated@.len());
        }
        if 1 <= id && id < self.next_id {
            let at = (id - 1) as usize;
            let k = self.generated[at];
            self.generated[at] = None;
            k
        } else {
            None
        }
    }

    /// The deletion of an element picked at random among all handed out so
    /// far: of its key if it is still live, which it then no longer is, and
    /// of a random key otherwise.
    pub fn gen_deletion(&mut self) -> (a: Action)
        requires
            old(self)@.len() > 0,
        ensures
            exists|i: int|
                0 <= i < old(self)@.len() && final(self)@ == old(self)@.update(i, None) && (match (
                #[trigger] old(self)@[i]) {
                    Some(k) => a == Action::Deletion(k),
                    None => a matches Action::Deletion(k) && k <= RANDOM_MAX,
                }),
    {
        proof {
            use_type_invariant(&*self);
        }
        let id = random_issued_id(self.next_id);
        if let Some(k) = self.retire(id) {
            Action::Deletion(k)
        } else {
            Action::Deletion(self.gen_key())
        }
    }

    /// The search for a random key.
    pub fn gen_search(&self) -> (a: Action)
        ensures
            a matches Action::Search(k) && k <= RANDOM_MAX,
    {
        Action::Search(self.gen_key())
    }
}

} // verus!
