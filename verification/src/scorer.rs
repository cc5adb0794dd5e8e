//! Scoring of decoded sentences against their references: segmentation
//! check, outcome classification, and accumulation into length-bucketed
//! statistics.

use crate::distance::{lemma_lev_le_max, lemma_lev_nonneg, lev, levenshtein_distance};
use crate::lookup::{all_coded, code_len_seq};
use crate::stats::{add_view, StatView, Statistics};
use std::collections::HashMap;
use vstd::prelude::*;

verus! {

broadcast use vstd::std_specs::hash::group_hash_axioms;

/// The outcome of scoring one decoded sentence against its reference.
#[derive(Clone, Copy, PartialEq, Eq, Structural, Debug)]
pub enum Classification {
    /// Decoded exactly: edit distance zero.
    Success,
    /// Right code boundaries, wrong character choice.
    TranslationError,
    /// Code boundaries differ from the reference.
    SegmentationError,
}

/// Classification policy: distance zero is a success; otherwise a correct
/// segmentation makes it a translation error, a wrong one a segmentation
/// error.
pub open spec fn spec_classify(distance: int, segmentation_ok: bool) -> Classification {
    if distance == 0 {
        Classification::Success
    } else if segmentation_ok {
        Classification::TranslationError
    } else {
        Classification::SegmentationError
    }
}

/// What one scored pair adds to a bucket it falls in: one sentence, the
/// reference's characters, the edit distance, and a one in exactly one of
/// the three outcome counters.
pub open spec fn pair_delta(reference_len: int, distance: int, outcome: Classification) -> StatView {
    StatView {
        length: 0,
        sentences: 1,
        characters: reference_len,
        distances: distance,
        successes: if outcome is Success {
            1
        } else {
            0
        },
        translation_errors: if outcome is TranslationError {
            1
        } else {
            0
        },
        segmentation_errors: if outcome is SegmentationError {
            1
        } else {
            0
        },
    }
}

/// Classification is exhaustive and mutually exclusive: whatever the
/// distance and segmentation verdict, a scored pair increments exactly one
/// of the three outcome counters.
pub proof fn lemma_classification_exclusive(reference_len: int, distance: int, segmentation_ok: bool)
    ensures
        ({
            let d = pair_delta(reference_len, distance, spec_classify(distance, segmentation_ok));
            &&& d.successes + d.translation_errors + d.segmentation_errors == 1
            &&& (d.successes == 0 || d.successes == 1)
            &&& (d.translation_errors == 0 || d.translation_errors == 1)
            &&& (d.segmentation_errors == 0 || d.segmentation_errors == 1)
        }),
{
}

/// Whether a bucket takes a reference of this length: the all-lengths bucket
/// takes every pair, the others only their own length.
pub open spec fn bucket_applies(v: StatView, reference_len: int) -> bool {
    v.length == 0 || v.length == reference_len
}

/// The expected code length of each character of `chars` under the lookup.
pub fn code_lengths(chars: &Vec<char>, lookup: &HashMap<u32, Vec<char>>) -> (r: Vec<usize>)
    requires
        all_coded(chars@, lookup@),
    ensures
        r@.len() == chars@.len(),
        forall|i: int| 0 <= i < chars@.len() ==> r@[i] == code_len_seq(chars@, lookup@)[i],
{
    let mut r: Vec<usize> = Vec::new();
    let mut i: usize = 0;
    while i < chars.len()
        invariant
            i <= chars@.len(),
            all_coded(chars@, lookup@),
            r@.len() == i,
            forall|j: int| 0 <= j < i ==> r@[j] == code_len_seq(chars@, lookup@)[j],
        decreases chars@.len() - i,
    {
        let code = match lookup.get(&(chars[i] as u32)) {
            Some(code) => code,
            None => {
                proof {
                    assert(lookup@.contains_key(chars@[i as int] as u32));
                }
                unreached()
            },
        };
        r.push(code.len());
        i = i + 1;
    }
    r
}

/// Whether two per-character code-length sequences agree position by
/// position.
pub fn segmentation_correct(a: &Vec<usize>, b: &Vec<usize>) -> (r: bool)
    ensures
        r == (a@.map_values(|x: usize| x as int) == b@.map_values(|x: usize| x as int)),
{
    let ghost av = a@.map_values(|x: usize| x as int);
    let ghost bv = b@.map_values(|x: usize| x as int);
    if a.len() != b.len() {
        assert(av.len() != bv.len());
        return false;
    }
    let mut i: usize = 0;
    while i < a.len()
        invariant
            i <= a@.len(),
            a@.len() == b@.len(),
            av == a@.map_values(|x: usize| x as int),
            bv == b@.map_values(|x: usize| x as int),
            forall|j: int| 0 <= j < i ==> a@[j] == b@[j],
        decreases a@.len() - i,
    {
        if a[i] != b[i] {
            assert(av[i as int] != bv[i as int]);
            return false;
        }
        i = i + 1;
    }
    proof {
        assert(av =~= bv);
    }
    true
}

/// Classify one scored pair from its edit distance and segmentation verdict.
pub fn classify(distance: usize, segmentation_ok: bool) -> (r: Classification)
    ensures
        r == spec_classify(distance as int, segmentation_ok),
{
    if distance == 0 {
        Classification::Success
    } else if segmentation_ok {
        Classification::TranslationError
    } else {
        Classification::SegmentationError
    }
}

/// Headroom for one more scored pair in every bucket, so that no counter
/// can overflow the machine word.
pub open spec fn can_take_pair(v: StatView, reference_len: int, decoded_len: int) -> bool {
    &&& v.sentences + 1 <= usize::MAX
    &&& v.characters + reference_len <= usize::MAX
    &&& v.distances + vstd::math::max(decoded_len, reference_len) <= usize::MAX
    &&& v.successes + 1 <= usize::MAX
    &&& v.translation_errors + 1 <= usize::MAX
    &&& v.segmentation_errors + 1 <= usize::MAX
}

/// Score one decoded sentence against its reference and accumulate the
/// outcome: every bucket whose key is 0 or the reference's length gains one
/// sentence, the reference's character count, the edit distance, and a one
/// in the counter of the pair's classification; every other bucket is left
/// unchanged.
pub fn accumulate(
    stats: &mut Vec<Statistics>,
    decoded: &Vec<char>,
    reference: &Vec<char>,
    lookup: &HashMap<u32, Vec<char>>,
) -> (outcome: Classification)
    requires
        all_coded(decoded@, lookup@),
        all_coded(reference@, lookup@),
        decoded@.len() < usize::MAX,
        reference@.len() < usize::MAX,
        forall|i: int|
            0 <= i < old(stats)@.len() ==> can_take_pair(
                #[trigger] old(stats)@[i]@,
                reference@.len() as int,
                decoded@.len() as int,
            ),
    ensures
        final(stats)@.len() == old(stats)@.len(),
        outcome == spec_classify(
            lev(decoded@, reference@),
            code_len_seq(decoded@, lookup@) == code_len_seq(reference@, lookup@),
        ),
        forall|i: int|
            0 <= i < old(stats)@.len() ==> final(stats)@[i]@ == (if bucket_applies(
                old(stats)@[i]@,
                reference@.len() as int,
            ) {
                add_view(
                    old(stats)@[i]@,
                    pair_delta(reference@.len() as int, lev(decoded@, reference@), outcome),
                )
            } else {
                old(stats)@[i]@
            }),
{
    let decoded_seg = code_lengths(decoded, lookup);
    let reference_seg = code_lengths(reference, lookup);
    let seg_ok = segmentation_correct(&decoded_seg, &reference_seg);
    proof {
        assert(decoded_seg@.map_values(|x: usize| x as int) =~= code_len_seq(decoded@, lookup@));
        assert(reference_seg@.map_values(|x: usize| x as int) =~= code_len_seq(
            reference@,
            lookup@,
        ));
    }
    let distance = levenshtein_distance(decoded.as_slice(), reference.as_slice());
    proof {
        lemma_lev_nonneg(decoded@, reference@);
        lemma_lev_le_max(decoded@, reference@);
    }
    let outcome = classify(distance, seg_ok);
    let reference_len = reference.len();
    let mut i: usize = 0;
    while i < stats.len()
        invariant
            i <= stats@.len(),
            stats@.len() == old(stats)@.len(),
            distance == lev(decoded@, reference@),
            0 <= distance <= vstd::math::max(decoded@.len() as int, reference@.len() as int),
            reference_len == reference@.len(),
            outcome == spec_classify(
                lev(decoded@, reference@),
                code_len_seq(decoded@, lookup@) == code_len_seq(reference@, lookup@),
            ),
            forall|j: int|
                0 <= j < old(stats)@.len() ==> can_take_pair(
                    #[trigger] old(stats)@[j]@,
                    reference@.len() as int,
                    decoded@.len() as int,
                ),
            forall|j: int|
                i <= j < old(stats)@.len() ==> stats@[j] == old(stats)@[j],
            forall|j: int|
                0 <= j < i ==> stats@[j]@ == (if bucket_applies(
                    old(stats)@[j]@,
                    reference@.len() as int,
                ) {
                    add_view(
                        old(stats)@[j]@,
                        pair_delta(reference@.len() as int, lev(decoded@, reference@), outcome),
                    )
                } else {
                    old(stats)@[j]@
                }),
        decreases stats@.len() - i,
    {
        let b = stats[i];
        proof {
            assert(stats@[i as int] == old(stats)@[i as int]);
            assert(can_take_pair(
                old(stats)@[i as int]@,
                reference@.len() as int,
                decoded@.len() as int,
            ));
        }
        if b.length == 0 || b.length == reference_len {
            let new_b = Statistics {
                length: b.length,
                sentences: b.sentences + 1,
                characters: b.characters + reference_len,
                distances: b.distances + distance,
                successes: b.successes + (if matches!(outcome, Classification::Success) {
                    1
                } else {
                    0
                }),
                translation_errors: b.translation_errors + (if matches!(
                    outcome,
                    Classification::TranslationError,
                ) {
                    1
                } else {
                    0
                }),
                segmentation_errors: b.segmentation_errors + (if matches!(
                    outcome,
                    Classification::SegmentationError,
                ) {
                    1
                } else {
                    0
                }),
            };
            stats.set(i, new_b);
        }
        i = i + 1;
    }
    outcome
}

} // verus!
