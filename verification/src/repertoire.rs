//! The character repertoire and the per-character usage weights, derived
//! from plain records: one record per candidate character with its codepoint
//! and a membership flag, and one (word, weight) pair per corpus word.

use std::collections::HashMap;
use vstd::prelude::*;

verus! {

broadcast use vstd::std_specs::hash::group_hash_axioms, vstd::utf8::char_u32_cast;

/// One record of the repertoire source: a codepoint and whether the
/// character belongs to the target scheme.
#[derive(Clone, Copy, PartialEq, Eq, Structural, Debug)]
pub struct RepertoireEntry {
    pub unicode: u32,
    pub gb2312: bool,
}

/// Whether `u` is a Unicode scalar value, so that a character carries it.
pub open spec fn is_scalar_value(u: u32) -> bool {
    u < 0xD800 || (0xE000 <= u && u <= 0x10FFFF)
}

/// Relies on char::from_u32: it returns the character with the given
/// codepoint exactly when that codepoint is a Unicode scalar value (below
/// the surrogate range, or between it and the last codepoint).
#[verifier::external_body]
fn char_from_u32(u: u32) -> (r: Option<char>)
    ensures
        match r {
            Some(c) => c as u32 == u,
            None => !is_scalar_value(u),
        },
        is_scalar_value(u) ==> r is Some,
{
    char::from_u32(u)
}

/// The characters of the flagged records, in record order.
pub open spec fn flagged_chars(entries: Seq<RepertoireEntry>) -> Seq<char>
    decreases entries.len(),
{
    if entries.len() == 0 {
        Seq::empty()
    } else {
        let rest = flagged_chars(entries.drop_last());
        if entries.last().gb2312 {
            rest.push(entries.last().unicode as char)
        } else {
            rest
        }
    }
}

/// The in-scope repertoire: the character of every record flagged as a
/// member, in record order.
pub fn get_gb2312(entries: &Vec<RepertoireEntry>) -> (r: Vec<char>)
    requires
        forall|i: int|
            0 <= i < entries@.len() && (#[trigger] entries@[i]).gb2312 ==> is_scalar_value(
                entries@[i].unicode,
            ),
    ensures
        r@ == flagged_chars(entries@),
{
    let mut r: Vec<char> = Vec::new();
    let mut i: usize = 0;
    while i < entries.len()
        invariant
            i <= entries@.len(),
            forall|t: int|
                0 <= t < entries@.len() && (#[trigger] entries@[t]).gb2312 ==> is_scalar_value(
                    entries@[t].unicode,
                ),
            r@ == flagged_chars(entries@.take(i as int)),
        decreases entries@.len() - i,
    {
        proof {
            assert(entries@.take(i + 1).drop_last() =~= entries@.take(i as int));
            assert(entries@.take(i + 1).last() == entries@[i as int]);
        }
        let e = entries[i];
        if e.gb2312 {
            match char_from_u32(e.unicode) {
                Some(c) => {
                    proof {
                        vstd::utf8::char_u32_cast(c, entries@[i as int].unicode);
                    }
                    r.push(c);
                },
                None => {
                    proof {
                        assert(is_scalar_value(entries@[i as int].unicode));
                    }
                    unreached()
                },
            }
        }
        i = i + 1;
    }
    proof {
        assert(entries@.take(entries@.len() as int) =~= entries@);
    }
    r
}

/// What one word of weight `v` contributes to the weight of codepoint `k`:
/// `v` for each occurrence of the character in the word.
pub open spec fn word_weight(word: Seq<char>, v: u64, k: u32) -> int
    decreases word.len(),
{
    if word.len() == 0 {
        0
    } else {
        word_weight(word.drop_last(), v, k) + if word.last() as u32 == k {
            v as int
        } else {
            0
        }
    }
}

/// The weight of codepoint `k`: every word's contribution, summed.
pub open spec fn total_weight(words: Seq<(Vec<char>, u64)>, k: u32) -> int
    decreases words.len(),
{
    if words.len() == 0 {
        0
    } else {
        total_weight(words.drop_last(), k) + word_weight(words.last().0@, words.last().1, k)
    }
}

/// Whether the character with codepoint `k` occurs in the word.
pub open spec fn occurs_in_word(word: Seq<char>, k: u32) -> bool {
    exists|j: int| 0 <= j < word.len() && (#[trigger] word[j]) as u32 == k
}

/// Whether the character with codepoint `k` occurs in any word.
pub open spec fn occurs(words: Seq<(Vec<char>, u64)>, k: u32) -> bool {
    exists|i: int| 0 <= i < words.len() && occurs_in_word((#[trigger] words[i]).0@, k)
}

/// A word's contribution is never negative.
pub proof fn lemma_word_weight_nonneg(word: Seq<char>, v: u64, k: u32)
    ensures
        word_weight(word, v, k) >= 0,
    decreases word.len(),
{
    if word.len() != 0 {
        lemma_word_weight_nonneg(word.drop_last(), v, k);
    }
}

/// A word prefix contributes no more than the whole word.
pub proof fn lemma_word_weight_take(word: Seq<char>, v: u64, k: u32, c: int)
    requires
        0 <= c <= word.len(),
    ensures
        word_weight(word.take(c), v, k) <= word_weight(word, v, k),
    decreases word.len() - c,
{
    if c == word.len() {
        assert(word.take(c) =~= word);
    } else {
        assert(word.drop_last().take(c) =~= word.take(c));
        lemma_word_weight_take(word.drop_last(), v, k, c);
        lemma_word_weight_nonneg(word, v, k);
    }
}

/// A total weight is never negative.
pub proof fn lemma_total_weight_nonneg(words: Seq<(Vec<char>, u64)>, k: u32)
    ensures
        total_weight(words, k) >= 0,
    decreases words.len(),
{
    if words.len() != 0 {
        lemma_total_weight_nonneg(words.drop_last(), k);
        lemma_word_weight_nonneg(words.last().0@, words.last().1, k);
    }
}

/// The weight over the first words never exceeds the weight over all.
pub proof fn lemma_total_weight_take(words: Seq<(Vec<char>, u64)>, l: int, k: u32)
    requires
        0 <= l <= words.len(),
    ensures
        total_weight(words.take(l), k) <= total_weight(words, k),
    decreases words.len() - l,
{
    if l == words.len() {
        assert(words.take(l) =~= words);
    } else {
        assert(words.drop_last().take(l) =~= words.take(l));
        lemma_total_weight_take(words.drop_last(), l, k);
        lemma_word_weight_nonneg(words.last().0@, words.last().1, k);
    }
}

/// A word without the character contributes nothing to it.
pub proof fn lemma_word_weight_absent(word: Seq<char>, v: u64, k: u32)
    requires
        !occurs_in_word(word, k),
    ensures
        word_weight(word, v, k) == 0,
    decreases word.len(),
{
    if word.len() != 0 {
        assert(!occurs_in_word(word.drop_last(), k)) by {
            if occurs_in_word(word.drop_last(), k) {
                let j = choose|j: int|
                    0 <= j < word.drop_last().len() && (#[trigger] word.drop_last()[j]) as u32
                        == k;
                assert(word[j] as u32 == k);
            }
        }
        assert(word.last() as u32 != k) by {
            if word.last() as u32 == k {
                assert(word[word.len() - 1] as u32 == k);
            }
        }
        lemma_word_weight_absent(word.drop_last(), v, k);
    }
}

/// A character that occurs in no word has weight zero.
pub proof fn lemma_absent_weight_zero(words: Seq<(Vec<char>, u64)>, k: u32)
    requires
        !occurs(words, k),
    ensures
        total_weight(words, k) == 0,
    decreases words.len(),
{
    if words.len() != 0 {
        assert(!occurs(words.drop_last(), k)) by {
            if occurs(words.drop_last(), k) {
                let i = choose|i: int|
                    0 <= i < words.drop_last().len() && occurs_in_word(
                        (#[trigger] words.drop_last()[i]).0@,
                        k,
                    );
                assert(occurs_in_word(words[i].0@, k));
            }
        }
        assert(!occurs_in_word(words.last().0@, k)) by {
            if occurs_in_word(words.last().0@, k) {
                assert(occurs_in_word(words[words.len() - 1].0@, k));
            }
        }
        lemma_absent_weight_zero(words.drop_last(), k);
        lemma_word_weight_absent(words.last().0@, words.last().1, k);
    }
}

/// Derive the per-character weights: each word's weight is added once for
/// every occurrence of a character in it. A character is recorded exactly
/// when it occurs in some word, with its total weight; when some total does
/// not fit a 64-bit weight, nothing is returned.
pub fn build_frequency(words: &Vec<(Vec<char>, u64)>) -> (r: Option<HashMap<u32, u64>>)
    ensures
        match r {
            Some(m) => {
                &&& forall|k: u32| m@.contains_key(k) <==> occurs(words@, k)
                &&& forall|k: u32| m@.contains_key(k) ==> m@[k] == total_weight(words@, k)
                &&& forall|k: u32| 0 <= #[trigger] total_weight(words@, k) <= u64::MAX
            },
            None => exists|k: u32| total_weight(words@, k) > u64::MAX,
        },
{
    let mut m: HashMap<u32, u64> = HashMap::new();
    let mut w: usize = 0;
    while w < words.len()
        invariant
            w <= words@.len(),
            forall|k: u32| m@.contains_key(k) <==> occurs(words@.take(w as int), k),
            forall|k: u32|
                m@.contains_key(k) ==> m@[k] == total_weight(words@.take(w as int), k),
        decreases words@.len() - w,
    {
        let word = &words[w].0;
        let value = words[w].1;
        let ghost prefix_total = |k: u32| total_weight(words@.take(w as int), k);
        let mut c: usize = 0;
        while c < word.len()
            invariant
                c <= word@.len(),
                w < words@.len(),
                word@ == words@[w as int].0@,
                value == words@[w as int].1,
                forall|k: u32|
                    m@.contains_key(k) <==> (occurs(words@.take(w as int), k) || occurs_in_word(
                        word@.take(c as int),
                        k,
                    )),
                forall|k: u32|
                    m@.contains_key(k) ==> m@[k] == total_weight(words@.take(w as int), k)
                        + word_weight(word@.take(c as int), value, k),
            decreases word@.len() - c,
        {
            let k = word[c] as u32;
            proof {
                assert(word@.take(c + 1).drop_last() =~= word@.take(c as int));
                assert(word@.take(c + 1).last() == word@[c as int]);
                lemma_total_weight_nonneg(words@.take(w as int), k);
                lemma_word_weight_nonneg(word@.take(c as int), value, k);
                if !m@.contains_key(k) {
                    assert(!occurs_in_word(word@.take(c as int), k));
                    lemma_word_weight_absent(word@.take(c as int), value, k);
                    lemma_absent_weight_zero(words@.take(w as int), k);
                }
            }
            let cur: u64 = match m.get(&k) {
                Some(v) => *v,
                None => 0,
            };
            let next = match cur.checked_add(value) {
                Some(next) => next,
                None => {
                    proof {
                        // The running value already counts this word's prefix;
                        // one more occurrence pushes the total past the range.
                        assert(cur + value > u64::MAX);
                        assert(word@.take(word@.len() as int) =~= word@);
                        lemma_word_weight_take(word@, value, k, c + 1);
                        assert(words@.take(w + 1).drop_last() =~= words@.take(w as int));
                        assert(words@.take(w + 1).last() == words@[w as int]);
                        lemma_total_weight_take(words@, w + 1, k);
                        assert(total_weight(words@, k) > u64::MAX);
                    }
                    return None;
                },
            };
            m.insert(k, next);
            proof {
                assert(occurs_in_word(word@.take(c + 1), k)) by {
                    assert(word@.take(c + 1)[c as int] as u32 == k);
                }
                assert forall|q: u32| m@.contains_key(q) <==> (occurs(
                    words@.take(w as int),
                    q,
                ) || occurs_in_word(word@.take(c + 1), q)) by {
                    if q != k {
                        assert(occurs_in_word(word@.take(c + 1), q) <==> occurs_in_word(
                            word@.take(c as int),
                            q,
                        )) by {
                            if occurs_in_word(word@.take(c + 1), q) {
                                let j = choose|j: int|
                                    0 <= j < word@.take(c + 1).len() && (#[trigger] word@.take(
                                        c + 1,
                                    )[j]) as u32 == q;
                                assert(j != c);
                                assert(word@.take(c as int)[j] as u32 == q);
                            }
                            if occurs_in_word(word@.take(c as int), q) {
                                let j = choose|j: int|
                                    0 <= j < word@.take(c as int).len() && (#[trigger] word@.take(
                                        c as int,
                                    )[j]) as u32 == q;
                                assert(word@.take(c + 1)[j] as u32 == q);
                            }
                        }
                    }
                }
            }
            c = c + 1;
        }
        proof {
            assert(words@.take(w + 1).drop_last() =~= words@.take(w as int));
            assert(words@.take(w + 1).last() == words@[w as int]);
            assert(word@.take(word@.len() as int) =~= word@);
            assert forall|q: u32| m@.contains_key(q) <==> occurs(words@.take(w + 1), q) by {
                if occurs(words@.take(w + 1), q) {
                    let i = choose|i: int|
                        0 <= i < words@.take(w + 1).len() && occurs_in_word(
                            (#[trigger] words@.take(w + 1)[i]).0@,
                            q,
                        );
                    if i < w {
                        assert(occurs_in_word(words@.take(w as int)[i].0@, q));
                        assert(occurs(words@.take(w as int), q));
                    } else {
                        assert(occurs_in_word(word@, q));
                    }
                }
                if occurs(words@.take(w as int), q) {
                    let i = choose|i: int|
                        0 <= i < words@.take(w as int).len() && occurs_in_word(
                            (#[trigger] words@.take(w as int)[i]).0@,
                            q,
                        );
                    assert(occurs_in_word(words@.take(w + 1)[i].0@, q));
                }
                if occurs_in_word(word@, q) {
                    assert(occurs_in_word(words@.take(w + 1)[w as int].0@, q));
                }
            }
        }
        w = w + 1;
    }
    proof {
        assert(w == words@.len());
        assert(words@.take(w as int) =~= words@);
        assert forall|k: u32| 0 <= #[trigger] total_weight(words@, k) <= u64::MAX by {
            lemma_total_weight_nonneg(words@, k);
            if m@.contains_key(k) {
                assert(m@[k] == total_weight(words@.take(w as int), k));
                assert(total_weight(words@, k) == m@[k]);
            } else {
                assert(!occurs(words@.take(w as int), k));
                assert(!occurs(words@, k));
                lemma_absent_weight_zero(words@, k);
            }
        }
    }
    Some(m)
}

} // verus!
