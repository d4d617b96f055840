//! A buffer of fixed capacity that is replaced by one of twice the size when
//! it is full and by one of half the size when it is less than a quarter
//! full. It offers the treap's three operations by linear scan.

use vstd::prelude::*;
use crate::{Element, Key};
use crate::data_generator::Action;

verus! {

/// `n` is 1, 2, 4, 8, ...
pub open spec fn is_power_of_two(n: nat) -> bool
    decreases n,
{
    n == 1 || (n >= 2 && n % 2 == 0 && is_power_of_two(n / 2))
}

/// The first place in `s` that holds the key `k`, or the length of `s` if
/// none does.
pub open spec fn first_index(s: Seq<Element>, k: Key) -> int
    decreases s.len(),
{
    if s.len() == 0 {
        0
    } else if s[0].1 == k {
        0
    } else {
        1 + first_index(s.drop_first(), k)
    }
}

/// `s` with the element at `i` replaced by the last one, and the last place
/// given up.
pub open spec fn swap_removed(s: Seq<Element>, i: int) -> Seq<Element>
    recommends
        0 <= i < s.len(),
{
    s.update(i, s.last()).drop_last()
}

/// The capacity that follows `capacity` once `len` elements are left after
/// a removal: half of it if that leaves the buffer less than a quarter
/// full, though never less than one slot.
pub open spec fn shrunk(capacity: nat, len: nat) -> nat {
    if len * 4 < capacity && capacity >= 2 {
        capacity / 2
    } else {
        capacity
    }
}

/// The element that a scan for the key `k` returns: the first that has it.
pub open spec fn first_with_key(s: Seq<Element>, k: Key) -> Option<Element> {
    if first_index(s, k) < s.len() {
        Some(s[first_index(s, k)])
    } else {
        None
    }
}

/// `s` without the first element that has the key `k`, if there is one.
pub open spec fn without_key(s: Seq<Element>, k: Key) -> Seq<Element> {
    if first_index(s, k) < s.len() {
        swap_removed(s, first_index(s, k))
    } else {
        s
    }
}

/// `after` is what the action `a` makes of an array that holds `before`.
pub open spec fn applied(before: Seq<Element>, a: Action, after: Seq<Element>) -> bool {
    match a {
        Action::Insertion(x) => after == before.push(x),
        Action::Deletion(k) => after == without_key(before, k),
        Action::Search(_) => after == before,
    }
}

/// The elements held, in their places, and the buffer that holds them.
pub struct DynamicArray {
    arr: Vec<Element>,
    len: usize,
}

impl View for DynamicArray {
    type V = Seq<Element>;

    /// The elements held, in their places.
    closed spec fn view(&self) -> Seq<Element> {
        self.arr@.subrange(0, self.len as int)
    }
}

impl DynamicArray {
    /// The number of slots in the buffer.
    pub closed spec fn capacity(self) -> nat {
        self.arr@.len()
    }

    #[verifier::type_invariant]
    spec fn well_formed(self) -> bool {
        &&& self.len <= self.arr@.len()
        &&& is_power_of_two(self.arr@.len())
    }

    /// The elements fit the buffer, whose capacity is a power of two.
    pub open spec fn is_valid(self) -> bool {
        &&& self@.len() <= self.capacity()
        &&& is_power_of_two(self.capacity())
    }

    /// An empty array with one slot.
    pub fn new() -> (a: Self)
        ensures
            a@ == Seq::<Element>::empty(),
            a.capacity() == 1,
            a.is_valid(),
    {
        let a = Self { len: 0, arr: vec![(0, 0)] };
        assert(a@ =~= Seq::<Element>::empty());
        a
    }

    /// Appends `x`, in a buffer of twice the capacity if this one is full.
    pub fn insert(&mut self, x: Element)
        requires
            old(self)@.len() == old(self).capacity() ==> 2 * old(self).capacity() <= usize::MAX,
        ensures
            final(self)@ == old(self)@.push(x),
            final(self).capacity() == if old(self)@.len() == old(self).capacity() {
                2 * old(self).capacity()
            } else {
                old(self).capacity()
            },
            final(self).is_valid(),
    {
        proof {
            use_type_invariant(&*self);
        }
        if self.len == self.arr.len() {
            self.resize(self.arr.len() * 2);
        }
        proof {
            use_type_invariant(&*self);
        }
        self.arr[self.len] = x;
        self.len += 1;
        assert(self@ =~= old(self)@.push(x));
    }

    /// Moves the elements into a fresh buffer of `new_len` slots.
    fn resize(&mut self, new_len: usize)
        requires
            new_len >= old(self)@.len(),
            is_power_of_two(new_len as nat),
        ensures
            final(self)@ == old(self)@,
            final(self).capacity() == new_len,
    {
        proof {
            use_type_invariant(&*self);
        }
        let mut fresh: Vec<Element> = vec![(0, 0); new_len];
        let mut i: usize = 0;
        while i < self.len
            invariant
                i <= self.len <= self.arr@.len(),
                self.len <= new_len,
                fresh@.len() == new_len,
                forall|j: int| 0 <= j < i ==> fresh@[j] == self.arr@[j],
            decreases self.len - i,
        {
            fresh[i] = self.arr[i];
            i += 1;
        }
        std::mem::swap(&mut self.arr, &mut fresh);
        assert(self@ =~= old(self)@);
    }

    /// Removes the first element with the key `k`, if there is one: the last
    /// element takes its place. Then halves the capacity if fewer than a
    /// quarter of the slots are left in use.
    pub fn delete(&mut self, k: Key)
        ensures
            final(self)@ == without_key(old(self)@, k),
            final(self).capacity() == if first_with_key(old(self)@, k) is Some {
                shrunk(old(self).capacity(), final(self)@.len())
            } else {
                old(self).capacity()
            },
            final(self).is_valid(),
    {
        proof {
            use_type_invariant(&*self);
        }
        let mut i: usize = 0;
        while i < self.len
            invariant
                *self == *old(self),
                i <= self.len <= self.arr@.len(),
                is_power_of_two(self.arr@.len()),
                forall|j: int| 0 <= j < i ==> self@[j].1 != k,
            decreases self.len - i,
        {
            if self.arr[i].1 == k {
                proof {
                    lemma_first_index(self@, k, i as int);
                }
                let last = self.arr[self.len - 1];
                self.arr[i] = last;
                self.len -= 1;
                assert(self@ =~= swap_removed(old(self)@, i as int));
                if self.len <= (self.arr.len() - 1) / 4 && self.arr.len() >= 2 {
                    self.resize(self.arr.len() / 2);
                }
                return ;
            }
            i += 1;
        }
        proof {
            lemma_first_index(self@, k, self.len as int);
        }
    }

    /// The first element with the key `k`, if there is one.
    pub fn search(&self, k: Key) -> (r: Option<Element>)
        ensures
            r == first_with_key(self@, k),
    {
        proof {
            use_type_invariant(self);
        }
        let mut i: usize = 0;
        while i < self.len
            invariant
                i <= self.len <= self.arr@.len(),
                forall|j: int| 0 <= j < i ==> self@[j].1 != k,
            decreases self.len - i,
        {
            if self.arr[i].1 == k {
                proof {
                    lemma_first_index(self@, k, i as int);
                }
                return Some(self.arr[i]);
            }
            i += 1;
        }
        proof {
            lemma_first_index(self@, k, self.len as int);
        }
        None
    }

    /// Does one action of a workload, and returns what a search found.
    pub fn apply(&mut self, action: Action) -> (found: Option<Element>)
        requires
            action is Insertion && old(self)@.len() == old(self).capacity()
                ==> 2 * old(self).capacity() <= usize::MAX,
        ensures
            final(self).is_valid(),
            applied(old(self)@, action, final(self)@),
            found == match action {
                Action::Search(k) => first_with_key(old(self)@, k),
                _ => None,
            },
    {
        match action {
            Action::Insertion(e) => {
                self.insert(e);
                None
            },
            Action::Deletion(k) => {
                self.delete(k);
                None
            },
            Action::Search(k) => {
                proof {
                    use_type_invariant(&*self);
                }
                self.search(k)
            },
        }
    }
}

/// `first_index` is the place before which no element has the key and at
/// which, if it is a place of the sequence, one has.
pub proof fn lemma_first_index(s: Seq<Element>, k: Key, i: int)
    requires
        0 <= i <= s.len(),
        forall|j: int| 0 <= j < i ==> s[j].1 != k,
        i < s.len() ==> s[i].1 == k,
    ensures
        first_index(s, k) == i,
    decreases s.len(),
{
    if s.len() == 0 {
    } else if i == 0 {
    } else {
        let t = s.drop_first();
        assert forall|j: int| 0 <= j < i - 1 implies t[j].1 != k by {
            assert(t[j] == s[j + 1]);
        }
        lemma_first_index(t, k, i - 1);
    }
}

} // verus!
