//! What a run of successful grants and revokes leaves on an access list.
//!
//! A step is a pair `(grant, key)`: `grant` is true for a successful
//! `add_access` of `key` and false for a successful `remove_access` of it.
//! Each step changes the list exactly as those operations' contracts say.
use vstd::prelude::*;

use crate::access_list::{
    all_keys_wide, strictly_sorted, with_key, without_key, lemma_strictly_sorted_no_duplicates,
    lemma_with_key_contains, lemma_with_key_len, lemma_with_key_strictly_sorted,
    lemma_without_key_contains, lemma_without_key_strictly_sorted,
};
use crate::key::KEY_LEN;

verus! {

/// The list after one step.
pub open spec fn apply_step(s: Seq<Seq<u8>>, step: (bool, Seq<u8>)) -> Seq<Seq<u8>> {
    if step.0 {
        with_key(s, step.1)
    } else {
        without_key(s, step.1)
    }
}

/// The list after all of `steps`, in order, starting from `s`.
pub open spec fn replay(s: Seq<Seq<u8>>, steps: Seq<(bool, Seq<u8>)>) -> Seq<Seq<u8>>
    decreases steps.len(),
{
    if steps.len() == 0 {
        s
    } else {
        apply_step(replay(s, steps.drop_last()), steps.last())
    }
}

/// Every step names a key of `KEY_LEN` bytes.
pub open spec fn steps_wide(steps: Seq<(bool, Seq<u8>)>) -> bool {
    forall|i: int| 0 <= i < steps.len() ==> (#[trigger] steps[i]).1.len() == KEY_LEN
}

/// No step grants a key that is on the list at that point.
pub open spec fn grants_fresh(s: Seq<Seq<u8>>, steps: Seq<(bool, Seq<u8>)>) -> bool
    decreases steps.len(),
{
    steps.len() == 0 || {
        &&& grants_fresh(s, steps.drop_last())
        &&& (steps.last().0 ==> !replay(s, steps.drop_last()).contains(steps.last().1))
    }
}

/// Whether the last step that names `q` is a grant (false where none names it).
pub open spec fn last_granted(steps: Seq<(bool, Seq<u8>)>, q: Seq<u8>) -> bool
    decreases steps.len(),
{
    if steps.len() == 0 {
        false
    } else if steps.last().1 == q {
        steps.last().0
    } else {
        last_granted(steps.drop_last(), q)
    }
}

/// Every step is a grant.
pub open spec fn all_grants(steps: Seq<(bool, Seq<u8>)>) -> bool {
    forall|i: int| 0 <= i < steps.len() ==> (#[trigger] steps[i]).0
}

/// Starting from an empty list, after any run of grants and revokes in which
/// no key is granted while present, the list is strictly ascending.
pub proof fn lemma_replay_strictly_sorted(steps: Seq<(bool, Seq<u8>)>)
    requires
        steps_wide(steps),
        grants_fresh(Seq::empty(), steps),
    ensures
        strictly_sorted(replay(Seq::empty(), steps)),
        all_keys_wide(replay(Seq::empty(), steps)),
    decreases steps.len(),
{
    if steps.len() > 0 {
        let prev = steps.drop_last();
        assert(steps_wide(prev)) by {
            assert forall|i: int| 0 <= i < prev.len() implies (#[trigger] prev[i]).1.len()
                == KEY_LEN by {
                assert(prev[i] == steps[i]);
            }
        }
        lemma_replay_strictly_sorted(prev);
        let s = replay(Seq::empty(), prev);
        let step = steps.last();
        assert(step == steps[steps.len() - 1]);
        if step.0 {
            lemma_with_key_strictly_sorted(s, step.1);
        } else {
            lemma_without_key_strictly_sorted(s, step.1);
        }
    }
}

/// Starting from an empty list, after any run of grants and revokes in which
/// no key is granted while present, a key is on the list exactly when the
/// last step that names it granted it.
pub proof fn lemma_replay_membership(steps: Seq<(bool, Seq<u8>)>, q: Seq<u8>)
    requires
        steps_wide(steps),
        grants_fresh(Seq::empty(), steps),
    ensures
        replay(Seq::empty(), steps).contains(q) == last_granted(steps, q),
    decreases steps.len(),
{
    if steps.len() > 0 {
        let prev = steps.drop_last();
        assert(steps_wide(prev)) by {
            assert forall|i: int| 0 <= i < prev.len() implies (#[trigger] prev[i]).1.len()
                == KEY_LEN by {
                assert(prev[i] == steps[i]);
            }
        }
        lemma_replay_membership(prev, q);
        lemma_replay_strictly_sorted(prev);
        let s = replay(Seq::empty(), prev);
        let step = steps.last();
        if step.0 {
            lemma_with_key_contains(s, step.1, q);
        } else {
            lemma_strictly_sorted_no_duplicates(s);
            lemma_without_key_contains(s, step.1, q);
        }
    }
}

/// Each grant adds one entry, so a run of `n` grants from an empty list leaves
/// `n` entries: after `MAX_ADDRS` of them the list is at capacity.
pub proof fn lemma_grants_fill(s: Seq<Seq<u8>>, steps: Seq<(bool, Seq<u8>)>)
    requires
        all_grants(steps),
    ensures
        replay(s, steps).len() == s.len() + steps.len(),
    decreases steps.len(),
{
    if steps.len() > 0 {
        let prev = steps.drop_last();
        assert(all_grants(prev)) by {
            assert forall|i: int| 0 <= i < prev.len() implies (#[trigger] prev[i]).0 by {
                assert(prev[i] == steps[i]);
            }
        }
        lemma_grants_fill(s, prev);
        assert(steps.last().0);
        lemma_with_key_len(replay(s, prev), steps.last().1);
    }
}

} // verus!
