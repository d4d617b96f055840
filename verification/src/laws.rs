//! Laws that relate the treap's operations to one another, over the views
//! that their contracts speak of.

use vstd::prelude::*;
use vstd::relations::injective_on;
use vstd::set_lib::lemma_map_size;
use crate::{Element, Key};
use crate::data_generator::Action;
use crate::lemmas::lemma_shape_unique;
use crate::model::{applied, first_match, has_key, inserted, is_first_match, rank_of, without};
use crate::order::rank_lt;
use crate::treap::Treap;

verus! {

/// The keys under which a search finds something.
pub open spec fn keys(m: Map<Element, u32>) -> Set<Key> {
    m.dom().map(|e: Element| e.1)
}

/// No two elements share a key.
pub open spec fn distinct_keys(m: Map<Element, u32>) -> bool {
    forall|a: Element, b: Element|
        #![trigger m.dom().contains(a), m.dom().contains(b)]
        m.dom().contains(a) && m.dom().contains(b) && a.1 == b.1 ==> a == b
}

/// Among the elements with one key, one ranks above all others.
pub proof fn lemma_first_match_exists(m: Map<Element, u32>, k: Key, e: Element)
    requires
        m.dom().contains(e),
        e.1 == k,
    ensures
        exists|f: Element| is_first_match(m, k, f),
    decreases m[e], e.0,
{
    if !is_first_match(m, k, e) {
        let o = choose|o: Element|
            #[trigger] m.dom().contains(o) && o.1 == k && rank_lt(rank_of(m, o), rank_of(m, e));
        lemma_first_match_exists(m, k, o);
    }
}

/// `first_match` is the element of highest rank among those with the key,
/// and nothing exactly where no element has the key.
pub proof fn lemma_first_match(m: Map<Element, u32>, k: Key)
    ensures
        first_match(m, k) matches Some(e) ==> is_first_match(m, k, e),
        first_match(m, k) is None <==> !has_key(m, k),
{
    if has_key(m, k) {
        let e = choose|e: Element| #[trigger] m.dom().contains(e) && e.1 == k;
        lemma_first_match_exists(m, k, e);
    }
}

/// Round trip, first half: once `x` is inserted, a search for its key
/// returns an element with that key.
pub proof fn lemma_search_after_insert(before: Map<Element, u32>, after: Map<Element, u32>, x: Element)
    requires
        inserted(before, after, x),
    ensures
        first_match(after, x.1) matches Some(e) && e.1 == x.1,
{
    assert(after.dom().contains(x) && x.1 == x.1);
    lemma_first_match(after, x.1);
}

/// Round trip, second half: once the key `k` is deleted from a treap in
/// which at most one element has it, a search for `k` returns nothing.
pub proof fn lemma_search_after_delete(m: Map<Element, u32>, k: Key)
    requires
        forall|a: Element, b: Element|
            #![trigger m.dom().contains(a), m.dom().contains(b)]
            m.dom().contains(a) && m.dom().contains(b) && a.1 == k && b.1 == k ==> a == b,
    ensures
        first_match(without(m, first_match(m, k)), k) is None,
{
    lemma_first_match(m, k);
    let after = without(m, first_match(m, k));
    if let Some(e) = first_match(m, k) {
        assert forall|o: Element| after.dom().contains(o) implies o.1 != k by {
            assert(m.dom().contains(o) && m.dom().contains(e));
        }
    }
    lemma_first_match(after, k);
}

/// Deleting a key that no element has changes nothing, however often.
pub proof fn lemma_delete_absent(m: Map<Element, u32>, k: Key)
    requires
        !has_key(m, k),
    ensures
        without(m, first_match(m, k)) == m,
{
    lemma_first_match(m, k);
}

/// Where no two elements share a key, there are as many keys as elements.
pub proof fn lemma_keys_len(m: Map<Element, u32>)
    requires
        m.dom().finite(),
        distinct_keys(m),
    ensures
        keys(m).finite(),
        keys(m).len() == m.dom().len(),
{
    let f = |e: Element| e.1;
    assert(injective_on(f, m.dom())) by {
        assert forall|a: Element, b: Element|
            m.dom().contains(a) && m.dom().contains(b) && #[trigger] f(a) == #[trigger] f(
                b,
            ) implies a == b by {}
    }
    lemma_map_size(m.dom(), keys(m), f);
}

/// A search finds something exactly under the keys of `keys`.
pub proof fn lemma_keys(m: Map<Element, u32>, k: Key)
    ensures
        keys(m).contains(k) <==> first_match(m, k) is Some,
{
    if has_key(m, k) {
        let e = choose|e: Element| #[trigger] m.dom().contains(e) && e.1 == k;
        assert(m.dom().contains(e) && k == (|e: Element| e.1)(e));
    }
}

/// `a` inserts an element whose key is new to `before`, deletes a key that
/// is in `before`, or searches.
pub open spec fn keeps_keys_apart(before: Map<Element, u32>, a: Action) -> bool {
    match a {
        Action::Insertion(x) => !has_key(before, x.1),
        Action::Deletion(k) => has_key(before, k),
        Action::Search(_) => true,
    }
}

/// `after` is what `a` makes of `before`, where `a` inserts an element
/// whose key is new or deletes a key that is there.
pub open spec fn follows(before: Map<Element, u32>, a: Action, after: Map<Element, u32>) -> bool {
    keeps_keys_apart(before, a) && applied(before, a, after)
}

/// `states` are the views that a treap goes through, from the empty one,
/// as the actions `ops` are done to it one after the other.
pub open spec fn is_run(states: Seq<Map<Element, u32>>, ops: Seq<Action>) -> bool {
    &&& states.len() == ops.len() + 1
    &&& states[0] == Map::<Element, u32>::empty()
    &&& forall|i: int| 0 <= i < ops.len() ==> follows(states[i], #[trigger] ops[i], states[i + 1])
}

/// How many of `ops` are insertions.
pub open spec fn insertions(ops: Seq<Action>) -> nat
    decreases ops.len(),
{
    if ops.len() == 0 {
        0
    } else {
        insertions(ops.drop_last()) + if ops.last() is Insertion { 1nat } else { 0nat }
    }
}

/// How many of `ops` are deletions.
pub open spec fn deletions(ops: Seq<Action>) -> nat
    decreases ops.len(),
{
    if ops.len() == 0 {
        0
    } else {
        deletions(ops.drop_last()) + if ops.last() is Deletion { 1nat } else { 0nat }
    }
}

/// Size conservation: after `n` insertions of elements with keys that were
/// not there and `d` deletions of keys that were, a search succeeds for
/// exactly `n - d` keys.
pub proof fn lemma_size_conservation(states: Seq<Map<Element, u32>>, ops: Seq<Action>)
    requires
        is_run(states, ops),
    ensures
        states.last().dom().finite(),
        distinct_keys(states.last()),
        keys(states.last()).finite(),
        keys(states.last()).len() == insertions(ops) - deletions(ops),
    decreases ops.len(),
{
    let last = states.last();
    if ops.len() == 0 {
        assert(keys(last) =~= Set::<Key>::empty());
    } else {
        let before = states[ops.len() - 1];
        let earlier = states.drop_last();
        let done = ops.drop_last();
        assert(is_run(earlier, done)) by {
            assert forall|i: int| 0 <= i < done.len() implies follows(
                earlier[i],
                #[trigger] done[i],
                earlier[i + 1],
            ) by {
                assert(follows(states[i], ops[i], states[i + 1]));
            }
        }
        assert(earlier.last() == before);
        lemma_size_conservation(earlier, done);
        lemma_keys_len(before);
        assert(follows(before, ops[ops.len() - 1], last));
        match ops.last() {
            Action::Insertion(x) => {
                assert(!before.dom().contains(x));
                assert(last.dom() =~= before.dom().insert(x));
                assert(distinct_keys(last)) by {
                    assert forall|a: Element, b: Element|
                        #![trigger last.dom().contains(a), last.dom().contains(b)]
                        last.dom().contains(a) && last.dom().contains(b) && a.1 == b.1 implies a
                        == b by {
                        if a != x {
                            assert(before.dom().contains(a));
                        }
                        if b != x {
                            assert(before.dom().contains(b));
                        }
                    }
                }
            },
            Action::Deletion(k) => {
                lemma_first_match(before, k);
                let e = first_match(before, k).unwrap();
                assert(last.dom() =~= before.dom().remove(e));
            },
            Action::Search(_) => {},
        }
        lemma_keys_len(last);
    }
}

/// The elements and their priorities settle the shape: two treaps with the
/// same view are the same tree, whatever was done to either.
pub proof fn lemma_view_settles_shape(a: Treap, b: Treap)
    requires
        a.is_valid(),
        b.is_valid(),
        a@ == b@,
    ensures
        a.tree() == b.tree(),
{
    lemma_shape_unique(a.tree(), b.tree());
}

} // verus!
