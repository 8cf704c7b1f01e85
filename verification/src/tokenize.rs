//! Tokenization: the automaton walk over input text and the counting of
//! emitted feature indices.
//!
//! The walk starts in state 0. Each input character's code point is used
//! directly as the symbol index: the next state is
//! `tk_nextmove[state * 256 + code]`. An index outside the transition table
//! is treated as a transition to the sink state 0 with no emission, so the
//! walk is total on every model and every text. On entering a state, the
//! state's emission list (absent = empty) is appended to the running list
//! of fired feature indices.

use vstd::prelude::*;
use std::collections::HashMap;

verus! {

/// How often `k` occurs in `s`.
pub open spec fn count_of(s: Seq<i32>, k: i32) -> nat
    decreases s.len(),
{
    if s.len() == 0 {
        0
    } else {
        count_of(s.drop_last(), k) + (if s.last() == k {
            1nat
        } else {
            0nat
        })
    }
}

/// A count clipped to what a 16-bit slot can hold.
pub open spec fn sat16(n: nat) -> u16 {
    if n > 0xffff {
        0xffff
    } else {
        n as u16
    }
}

/// Counting a sequence one element longer extends the counts by its last
/// element.
pub proof fn lemma_count_take_step(s: Seq<i32>, i: int, k: i32)
    requires
        0 <= i < s.len(),
    ensures
        count_of(s.take(i + 1), k) == count_of(s.take(i), k) + (if s[i] == k {
            1nat
        } else {
            0nat
        }),
{
    assert(s.take(i + 1).drop_last() =~= s.take(i));
    assert(s.take(i + 1).last() == s[i]);
}

/// Occurrence counts of the given feature indices, saturating at
/// `u16::MAX`. Every key of the result occurs in the input, and each
/// occurring value is a key.
pub fn counter(indexes: &Vec<i32>) -> (counts: HashMap<i32, u16>)
    ensures
        forall|k: i32| counts@.contains_key(k) <==> count_of(indexes@, k) > 0,
        forall|k: i32| #[trigger]
            counts@.contains_key(k) ==> counts@[k] == sat16(count_of(indexes@, k)),
{
    let mut counts: HashMap<i32, u16> = HashMap::new();
    let n = indexes.len();
    let mut i: usize = 0;
    while i < n
        invariant
            n == indexes@.len(),
            i <= n,
            forall|k: i32| counts@.contains_key(k) <==> count_of(indexes@.take(i as int), k) > 0,
            forall|k: i32| #[trigger]
                counts@.contains_key(k) ==> counts@[k] == sat16(
                    count_of(indexes@.take(i as int), k),
                ),
        decreases n - i,
    {
        let e = indexes[i];
        let next: u16 = match counts.get(&e) {
            Some(v) => if *v == 0xffff {
                0xffff
            } else {
                *v + 1
            },
            None => 1,
        };
        counts.insert(e, next);
        proof {
            assert forall|k: i32| #[trigger] count_of(indexes@.take(i + 1 as int), k) == count_of(
                indexes@.take(i as int),
                k,
            ) + (if indexes@[i as int] == k {
                1nat
            } else {
                0nat
            }) by {
                lemma_count_take_step(indexes@, i as int, k);
            }
        }
        i = i + 1;
    }
    proof {
        assert(indexes@.take(n as int) =~= indexes@);
    }
    counts
}

/// The state reached from `state` on reading character `c`: a lookup at
/// `state * 256 + code`, with out-of-table lookups going to the sink
/// state 0.
pub open spec fn spec_step(nextmove: Seq<u16>, state: u16, c: char) -> u16 {
    let idx = (state as int) * 256 + (c as u32);
    if idx < nextmove.len() {
        nextmove[idx]
    } else {
        0
    }
}

/// The feature indices fired on entering `state`.
pub open spec fn spec_emit(output: Map<u16, Seq<i32>>, state: u16) -> Seq<i32> {
    if output.contains_key(state) {
        output[state]
    } else {
        Seq::empty()
    }
}

/// The automaton state after walking `text` from state 0.
pub open spec fn spec_state_after(nextmove: Seq<u16>, text: Seq<char>) -> u16
    decreases text.len(),
{
    if text.len() == 0 {
        0
    } else {
        spec_step(nextmove, spec_state_after(nextmove, text.drop_last()), text.last())
    }
}

/// All feature indices fired while walking `text` from state 0, in order.
pub open spec fn spec_emitted(nextmove: Seq<u16>, output: Map<u16, Seq<i32>>, text: Seq<char>) -> Seq<
    i32,
>
    decreases text.len(),
{
    if text.len() == 0 {
        Seq::empty()
    } else {
        spec_emitted(nextmove, output, text.drop_last()) + spec_emit(
            output,
            spec_step(nextmove, spec_state_after(nextmove, text.drop_last()), text.last()),
        )
    }
}

/// The feature vector of `text`: for each feature index, how often the
/// walk fired it (saturating at `u16::MAX`). Fired indices outside
/// `[0, numfeats)` have no slot and are dropped.
pub open spec fn spec_feature_vector(
    nextmove: Seq<u16>,
    output: Map<u16, Seq<i32>>,
    numfeats: nat,
    text: Seq<char>,
) -> Seq<u16> {
    Seq::new(
        numfeats as nat,
        |j: int|
            if j <= 0x7fff_ffff {
                sat16(count_of(spec_emitted(nextmove, output, text), j as i32))
            } else {
                0
            },
    )
}

/// Law: on empty input the walk fires nothing, so every feature count is
/// zero and a score reduces to the class prior alone.
pub proof fn lemma_empty_text_features(nextmove: Seq<u16>, output: Map<u16, Seq<i32>>, numfeats: nat)
    ensures
        spec_emitted(nextmove, output, Seq::empty()).len() == 0,
        spec_feature_vector(nextmove, output, numfeats, Seq::empty()).len() == numfeats,
        forall|j: int|
            0 <= j < numfeats ==> spec_feature_vector(nextmove, output, numfeats, Seq::empty())[j]
                == 0,
{
}

/// Law: the feature vector is a function of the automaton tables and the
/// text alone: equal texts give equal feature vectors.
pub proof fn lemma_feature_vector_deterministic(
    nextmove: Seq<u16>,
    output: Map<u16, Seq<i32>>,
    numfeats: nat,
    t1: Seq<char>,
    t2: Seq<char>,
)
    requires
        t1 == t2,
    ensures
        spec_feature_vector(nextmove, output, numfeats, t1) == spec_feature_vector(
            nextmove,
            output,
            numfeats,
            t2,
        ),
{
}

/// A text one character longer fires the previous indices and then the
/// emission of the newly entered state.
pub proof fn lemma_walk_take_step(
    nextmove: Seq<u16>,
    output: Map<u16, Seq<i32>>,
    text: Seq<char>,
    i: int,
)
    requires
        0 <= i < text.len(),
    ensures
        spec_state_after(nextmove, text.take(i + 1)) == spec_step(
            nextmove,
            spec_state_after(nextmove, text.take(i)),
            text[i],
        ),
        spec_emitted(nextmove, output, text.take(i + 1)) == spec_emitted(
            nextmove,
            output,
            text.take(i),
        ) + spec_emit(
            output,
            spec_step(nextmove, spec_state_after(nextmove, text.take(i)), text[i]),
        ),
{
    assert(text.take(i + 1).drop_last() =~= text.take(i));
    assert(text.take(i + 1).last() == text[i]);
}

} // verus!
