//! Encoding of a sentence into a stream of concatenated codes, under the
//! encoder's length policy: short sentences only, and a bounded code stream.

use crate::lookup::all_coded;
use std::collections::HashMap;
use vstd::prelude::*;

verus! {

broadcast use vstd::std_specs::hash::group_hash_axioms;

/// Longest sentence the encoder accepts, in characters.
pub const MAX_SENTENCE_CHARS: usize = 20;

/// Longest accepted code stream, in characters, before its terminator.
pub const MAX_CODE_CHARS: usize = 99;

/// The concatenation of the codes of the characters of `s`.
pub open spec fn encoded(s: Seq<char>, m: Map<u32, Vec<char>>) -> Seq<char>
    decreases s.len(),
{
    if s.len() == 0 {
        Seq::empty()
    } else {
        encoded(s.drop_last(), m) + m[s.last() as u32]@
    }
}

/// A longer sentence only ever encodes to a longer stream.
pub proof fn lemma_encoded_prefix_len(s: Seq<char>, m: Map<u32, Vec<char>>, l: int)
    requires
        0 <= l <= s.len(),
    ensures
        encoded(s.take(l), m).len() <= encoded(s, m).len(),
    decreases s.len() - l,
{
    if l == s.len() {
        assert(s.take(l) =~= s);
    } else {
        assert(s.drop_last().take(l) =~= s.take(l));
        lemma_encoded_prefix_len(s.drop_last(), m, l);
    }
}

/// Encode one sentence with the lookup. Accepts, and returns the
/// concatenation of the characters' codes, exactly when the sentence has at
/// most `MAX_SENTENCE_CHARS` characters, every character has a code, and the
/// concatenated codes have at most `MAX_CODE_CHARS` characters; rejected
/// sentences yield nothing, never a partial encode.
pub fn encode_sentence(sentence: &Vec<char>, lookup: &HashMap<u32, Vec<char>>) -> (r: Option<
    Vec<char>,
>)
    ensures
        match r {
            Some(code) => {
                &&& sentence@.len() <= MAX_SENTENCE_CHARS
                &&& all_coded(sentence@, lookup@)
                &&& code@ == encoded(sentence@, lookup@)
                &&& code@.len() <= MAX_CODE_CHARS
            },
            None => {
                ||| sentence@.len() > MAX_SENTENCE_CHARS
                ||| !all_coded(sentence@, lookup@)
                ||| encoded(sentence@, lookup@).len() > MAX_CODE_CHARS
            },
        },
{
    if sentence.len() > MAX_SENTENCE_CHARS {
        return None;
    }
    let mut code: Vec<char> = Vec::new();
    let mut i: usize = 0;
    while i < sentence.len()
        invariant
            i <= sentence@.len(),
            forall|j: int| 0 <= j < i ==> lookup@.contains_key(#[trigger] sentence@[j] as u32),
            code@ == encoded(sentence@.take(i as int), lookup@),
            code@.len() <= MAX_CODE_CHARS,
        decreases sentence@.len() - i,
    {
        proof {
            assert(sentence@.take(i + 1).drop_last() =~= sentence@.take(i as int));
            assert(sentence@.take(i + 1).last() == sentence@[i as int]);
        }
        match lookup.get(&(sentence[i] as u32)) {
            None => {
                assert(!all_coded(sentence@, lookup@));
                return None;
            },
            Some(c) => {
                code.extend_from_slice(c.as_slice());
            },
        }
        if code.len() > MAX_CODE_CHARS {
            proof {
                if all_coded(sentence@, lookup@) {
                    lemma_encoded_prefix_len(sentence@, lookup@, i + 1);
                }
            }
            return None;
        }
        i = i + 1;
    }
    proof {
        assert(sentence@.take(sentence@.len() as int) =~= sentence@);
    }
    Some(code)
}

} // verus!
