//! Code-table synthesis: random fixed-length candidate codes for a character
//! repertoire, then frequency-ranked greedy truncation into variable-length
//! short codes.

use crate::lookup::Table;
use crate::random::random_index;
use std::collections::HashMap;
use vstd::prelude::*;

verus! {

broadcast use vstd::std_specs::hash::group_hash_axioms, vstd::seq_lib::group_to_multiset_ensures;

/// Whether `c` is a lowercase Latin letter.
pub open spec fn is_lower(c: char) -> bool {
    97 <= c as u32 <= 122
}

/// Whether a code consists of lowercase Latin letters only.
pub open spec fn lower_code(code: Seq<char>) -> bool {
    forall|i: int| 0 <= i < code.len() ==> is_lower(#[trigger] code[i])
}

/// The characters of a table, in table order.
pub open spec fn chars_of(t: Seq<(char, Vec<char>)>) -> Seq<char> {
    t.map_values(|p: (char, Vec<char>)| p.0)
}

/// The recorded usage weight of a character; zero when none is recorded.
pub open spec fn freq_of(m: Map<u32, u64>, c: char) -> u64 {
    if m.contains_key(c as u32) {
        m[c as u32]
    } else {
        0u64
    }
}

/// Whether a table is ordered by non-increasing character weight.
pub open spec fn sorted_desc(t: Seq<(char, Vec<char>)>, m: Map<u32, u64>) -> bool {
    forall|i: int, j: int|
        0 <= i < j < t.len() ==> freq_of(m, t[i].0) >= freq_of(m, t[j].0)
}

/// Whether `e` carries the character and code of some entry of `t`.
pub open spec fn entry_from(t: Seq<(char, Vec<char>)>, e: (char, Vec<char>)) -> bool {
    exists|j: int| 0 <= j < t.len() && e.0 == t[j].0 && e.1@ == t[j].1@
}

/// Whether `e` carries the character of some entry of `t` together with that
/// entry's code, either whole or cut to its leading two letters.
pub open spec fn derived_from(t: Seq<(char, Vec<char>)>, e: (char, Vec<char>)) -> bool {
    exists|j: int|
        0 <= j < t.len() && e.0 == t[j].0 && (e.1@ == t[j].1@ || e.1@ == t[j].1@.take(2))
}

/// The recorded weight of a character, read from the frequency table.
fn frequency_of(frequency: &HashMap<u32, u64>, c: char) -> (r: u64)
    ensures
        r == freq_of(frequency@, c),
{
    match frequency.get(&(c as u32)) {
        Some(v) => *v,
        None => 0,
    }
}

/// Order a table by non-increasing character weight, repeatedly moving the
/// first heaviest remaining entry over. Characters are conserved as a
/// multiset, and every entry still carries a character-code pair of the
/// input.
fn sort_by_frequency(table: Table, frequency: &HashMap<u32, u64>) -> (r: Table)
    ensures
        r@.len() == table@.len(),
        sorted_desc(r@, frequency@),
        chars_of(r@).to_multiset() == chars_of(table@).to_multiset(),
        forall|i: int| 0 <= i < r@.len() ==> entry_from(table@, #[trigger] r@[i]),
{
    let ghost orig = table@;
    let mut rest = table;
    let mut sorted: Table = Vec::new();
    proof {
        assert(chars_of(sorted@).to_multiset().add(chars_of(rest@).to_multiset()) =~= chars_of(
            orig,
        ).to_multiset());
        assert(forall|i: int|
            0 <= i < rest@.len() ==> entry_from(orig, #[trigger] rest@[i]));
    }
    while rest.len() > 0
        invariant
            sorted@.len() + rest@.len() == orig.len(),
            chars_of(sorted@).to_multiset().add(chars_of(rest@).to_multiset()) == chars_of(
                orig,
            ).to_multiset(),
            sorted_desc(sorted@, frequency@),
            forall|a: int, b: int|
                0 <= a < sorted@.len() && 0 <= b < rest@.len() ==> freq_of(
                    frequency@,
                    sorted@[a].0,
                ) >= freq_of(frequency@, rest@[b].0),
            forall|i: int| 0 <= i < sorted@.len() ==> entry_from(orig, #[trigger] sorted@[i]),
            forall|i: int| 0 <= i < rest@.len() ==> entry_from(orig, #[trigger] rest@[i]),
        decreases rest@.len(),
    {
        let mut best: usize = 0;
        let mut best_key: u64 = frequency_of(frequency, rest[0].0);
        let mut k: usize = 1;
        while k < rest.len()
            invariant
                1 <= k <= rest@.len(),
                best < k,
                best_key == freq_of(frequency@, rest@[best as int].0),
                forall|t: int| 0 <= t < k ==> best_key >= freq_of(frequency@, rest@[t].0),
            decreases rest@.len() - k,
        {
            let key = frequency_of(frequency, rest[k].0);
            if key > best_key {
                best = k;
                best_key = key;
            }
            k = k + 1;
        }
        let ghost old_rest = rest@;
        let ghost old_sorted = sorted@;
        let e = rest.remove(best);
        sorted.push(e);
        proof {
            let x = e.0;
            assert(chars_of(old_rest)[best as int] == x);
            assert(chars_of(old_rest).contains(x));
            assert(chars_of(rest@) =~= chars_of(old_rest).remove(best as int));
            assert(chars_of(sorted@) =~= chars_of(old_sorted).push(x));
            assert(chars_of(sorted@).to_multiset().add(chars_of(rest@).to_multiset())
                =~= chars_of(old_sorted).to_multiset().add(chars_of(old_rest).to_multiset()));
        }
    }
    sorted
}

/// Greedy short-code disambiguation. The table is ordered by non-increasing
/// character weight; walking it once, an entry whose leading two letters are
/// not yet claimed gives up its trailing letter and claims them, and every
/// other entry keeps its three-letter code. The characters come back as a
/// permutation of the input's; every two-letter code of the result has a
/// two-letter prefix of its own.
pub fn arrange_short_code(full: &Table, frequency: &HashMap<u32, u64>) -> (short: Table)
    requires
        forall|i: int| 0 <= i < full@.len() ==> (#[trigger] full@[i].1)@.len() == 3,
    ensures
        short@.len() == full@.len(),
        chars_of(short@).to_multiset() == chars_of(full@).to_multiset(),
        sorted_desc(short@, frequency@),
        forall|i: int|
            0 <= i < short@.len() ==> ((#[trigger] short@[i].1)@.len() == 2 || short@[i].1@.len()
                == 3),
        forall|i: int| 0 <= i < short@.len() ==> derived_from(full@, #[trigger] short@[i]),
        forall|i: int, j: int|
            0 <= i < short@.len() && 0 <= j < short@.len() && i != j && (#[trigger] short@[i].1)@.len()
                == 2 && (#[trigger] short@[j].1)@.len() == 2 ==> short@[i].1@ != short@[j].1@,
        forall|i: int|
            0 <= i < short@.len() ==> ((#[trigger] short@[i].1)@.len() == 3 <==> exists|j: int|
                0 <= j < i && (#[trigger] short@[j].1)@.len() == 2 && short@[j].1@
                    == short@[i].1@.take(2)),
{
    let mut work: Table = Vec::new();
    let mut w: usize = 0;
    while w < full.len()
        invariant
            w <= full@.len(),
            work@.len() == w,
            forall|i: int|
                0 <= i < w ==> (#[trigger] work@[i]).0 == full@[i].0 && work@[i].1@
                    == full@[i].1@,
        decreases full@.len() - w,
    {
        let entry = &full[w];
        work.push((entry.0, entry.1.clone()));
        w = w + 1;
    }
    proof {
        assert(chars_of(work@) =~= chars_of(full@));
        assert(forall|i: int|
            0 <= i < work@.len() ==> entry_from(full@, #[trigger] work@[i]));
    }
    let ghost workv = work@;
    let sorted = sort_by_frequency(work, frequency);
    proof {
        assert forall|i: int| 0 <= i < sorted@.len() implies entry_from(
            full@,
            #[trigger] sorted@[i],
        ) by {
            let j = choose|j: int|
                0 <= j < workv.len() && sorted@[i].0 == workv[j].0 && sorted@[i].1@
                    == workv[j].1@;
            assert(workv[j].0 == full@[j].0 && workv[j].1@ == full@[j].1@);
        }
        assert forall|i: int| 0 <= i < sorted@.len() implies (#[trigger] sorted@[i].1)@.len()
            == 3 by {
            let j = choose|j: int|
                0 <= j < full@.len() && sorted@[i].0 == full@[j].0 && sorted@[i].1@
                    == full@[j].1@;
        }
    }
    let mut known: Vec<(char, char)> = Vec::new();
    let mut short: Table = Vec::new();
    // For each claimed prefix, the index of the two-letter entry that claimed
    // it; for each kept three-letter entry, the index of its claimant.
    let ghost mut claimants: Seq<int> = Seq::empty();
    let ghost mut prefix_owner: Seq<int> = Seq::empty();
    let mut i: usize = 0;
    while i < sorted.len()
        invariant
            i <= sorted@.len(),
            short@.len() == i,
            forall|t: int| 0 <= t < sorted@.len() ==> (#[trigger] sorted@[t].1)@.len() == 3,
            forall|t: int| 0 <= t < sorted@.len() ==> entry_from(full@, #[trigger] sorted@[t]),
            forall|t: int| 0 <= t < i ==> (#[trigger] short@[t]).0 == sorted@[t].0,
            forall|t: int|
                0 <= t < i ==> ((#[trigger] short@[t]).1@ == sorted@[t].1@ || short@[t].1@
                    == sorted@[t].1@.take(2)),
            forall|t: int|
                0 <= t < i ==> ((#[trigger] short@[t].1)@.len() == 2 || short@[t].1@.len() == 3),
            forall|t: int|
                0 <= t < i && (#[trigger] short@[t].1)@.len() == 2 ==> known@.contains(
                    (short@[t].1@[0], short@[t].1@[1]),
                ),
            forall|t: int, u: int|
                0 <= t < i && 0 <= u < i && t != u && (#[trigger] short@[t].1)@.len() == 2 && (
                #[trigger] short@[u].1)@.len() == 2 ==> short@[t].1@ != short@[u].1@,
            claimants.len() == known@.len(),
            forall|w: int|
                0 <= w < known@.len() ==> 0 <= #[trigger] claimants[w] < i,
            forall|w: int|
                0 <= w < known@.len() ==> short@[#[trigger] claimants[w]].1@.len() == 2
                    && short@[claimants[w]].1@ == seq![known@[w].0, known@[w].1],
            prefix_owner.len() == i,
            forall|t: int|
                0 <= t < i && (#[trigger] short@[t].1)@.len() == 3 ==> 0 <= #[trigger] prefix_owner[t]
                    < t && short@[prefix_owner[t]].1@.len() == 2 && short@[prefix_owner[t]].1@
                    == short@[t].1@.take(2),
        decreases sorted@.len() - i,
    {
        let entry = &sorted[i];
        let p0 = entry.1[0];
        let p1 = entry.1[1];
        if contains_prefix(&known, p0, p1) {
            short.push((entry.0, entry.1.clone()));
            proof {
                // The kept three-letter code's prefix was claimed by an
                // earlier two-letter code: record the claimant.
                assert(short@[i as int].1@ =~= sorted@[i as int].1@);
                assert(short@[i as int].1@.take(2) =~= seq![p0, p1]);
                let w = choose|w: int| 0 <= w < known@.len() && known@[w] == (p0, p1);
                let j = claimants[w];
                assert(short@[j].1@ == seq![known@[w].0, known@[w].1]);
                assert(short@[j].1@ == short@[i as int].1@.take(2));
                prefix_owner = prefix_owner.push(j);
            }
        } else {
            let ghost old_known = known@;
            known.push((p0, p1));
            proof {
                assert(known@ =~= old_known.push((p0, p1)));
                assert forall|t: int|
                    0 <= t < i && (#[trigger] short@[t].1)@.len() == 2 implies known@.contains(
                    (short@[t].1@[0], short@[t].1@[1]),
                ) by {
                    let w2 = choose|w2: int|
                        0 <= w2 < old_known.len() && old_known[w2] == (
                        short@[t].1@[0],
                        short@[t].1@[1],
                        );
                    assert(known@[w2] == (short@[t].1@[0], short@[t].1@[1]));
                }
            }
            let mut sc: Vec<char> = Vec::new();
            sc.push(p0);
            sc.push(p1);
            proof {
                assert(known@[old_known.len() as int] == (p0, p1));
                assert(known@.contains((p0, p1)));
                assert(sc@ =~= sorted@[i as int].1@.take(2));
                // The fresh two-letter code differs from every earlier one:
                // each of those has its letters claimed, and this one's were
                // not claimed before this step.
                assert forall|t: int|
                    0 <= t < i && (#[trigger] short@[t].1)@.len() == 2 implies short@[t].1@
                    != sc@ by {
                    if short@[t].1@ == sc@ {
                        assert((short@[t].1@[0], short@[t].1@[1]) == (p0, p1));
                        assert(old_known.contains((p0, p1)));
                    }
                }
            }
            short.push((entry.0, sc));
            proof {
                assert(short@[i as int].1@ == sc@);
                assert(short@[i as int].1@.len() == 2);
                claimants = claimants.push(i as int);
                prefix_owner = prefix_owner.push(0);
                assert(claimants[known@.len() - 1] == i as int);
                assert(short@[i as int].1@ =~= seq![p0, p1]);
            }
        }
        i = i + 1;
    }
    proof {
        // The two directions of the claim relation: a kept three-letter code
        // has an earlier two-letter claimant of its prefix, and a two-letter
        // code has none, since all two-letter codes differ.
        assert forall|t: int| 0 <= t < short@.len() implies ((#[trigger] short@[t].1)@.len() == 3
            <==> exists|j: int|
            0 <= j < t && (#[trigger] short@[j].1)@.len() == 2 && short@[j].1@
                == short@[t].1@.take(2)) by {
            if short@[t].1@.len() == 3 {
                let j = prefix_owner[t];
                assert(0 <= j < t && short@[j].1@.len() == 2 && short@[j].1@
                    == short@[t].1@.take(2));
            } else {
                assert(short@[t].1@.len() == 2);
                assert(short@[t].1@.take(2) =~= short@[t].1@);
                if exists|j: int|
                    0 <= j < t && (#[trigger] short@[j].1)@.len() == 2 && short@[j].1@
                        == short@[t].1@.take(2) {
                    let j = choose|j: int|
                        0 <= j < t && (#[trigger] short@[j].1)@.len() == 2 && short@[j].1@
                            == short@[t].1@.take(2);
                    assert(short@[j].1@ != short@[t].1@);
                }
            }
        }
        assert(chars_of(short@) =~= chars_of(sorted@));
        assert forall|t: int| 0 <= t < short@.len() implies derived_from(
            full@,
            #[trigger] short@[t],
        ) by {
            assert(entry_from(full@, sorted@[t]));
            let j = choose|j: int|
                0 <= j < full@.len() && sorted@[t].0 == full@[j].0 && sorted@[t].1@
                    == full@[j].1@;
            assert(0 <= j < full@.len() && short@[t].0 == full@[j].0 && (short@[t].1@
                == full@[j].1@ || short@[t].1@ == full@[j].1@.take(2)));
        }
    }
    short
}

/// How candidate codes are drawn.
#[derive(Clone, Copy, PartialEq, Eq, Structural, Debug)]
pub enum Mode {
    /// Three independent draws from the full 26-letter alphabet.
    PatternFree,
    /// Positional draws: a late letter, any letter, an early letter —
    /// modelling a phonetic-shape constraint.
    Ermading,
}

/// The `count` consecutive characters starting at code `first`.
fn letter_block(first: u8, count: u8) -> (r: Vec<char>)
    requires
        first + count <= 127,
    ensures
        r@.len() == count,
        forall|i: int| 0 <= i < count ==> (#[trigger] r@[i]) as u32 == first + i,
{
    let mut r: Vec<char> = Vec::new();
    let mut k: u8 = 0;
    while k < count
        invariant
            k <= count,
            first + count <= 127,
            r@.len() == k,
            forall|i: int| 0 <= i < k ==> (#[trigger] r@[i]) as u32 == first + i,
        decreases count - k,
    {
        r.push((first + k) as char);
        k = k + 1;
    }
    r
}

/// One uniform draw from a non-empty letter set.
fn pick_letter(set: &Vec<char>) -> (r: char)
    requires
        set@.len() >= 1,
    ensures
        set@.contains(r),
{
    let i = random_index(set.len());
    let c = set[i];
    proof {
        assert(set@[i as int] == c);
    }
    c
}

/// Generate a full code table for the repertoire: one random three-letter
/// candidate code per character, drawn as the mode prescribes, then
/// frequency-ranked short-code disambiguation. Which letters are drawn is
/// left to chance; whatever comes back, the table holds the repertoire's
/// characters exactly once each, in non-increasing weight order, with
/// lowercase codes of two or three letters whose two-letter codes never
/// collide.
pub fn generate_tables(gb2312: &Vec<char>, frequency: &HashMap<u32, u64>, mode: &Mode) -> (r:
    Table)
    ensures
        r@.len() == gb2312@.len(),
        chars_of(r@).to_multiset() == gb2312@.to_multiset(),
        sorted_desc(r@, frequency@),
        forall|i: int|
            0 <= i < r@.len() ==> ((#[trigger] r@[i].1)@.len() == 2 || r@[i].1@.len() == 3),
        forall|i: int| 0 <= i < r@.len() ==> lower_code((#[trigger] r@[i].1)@),
        forall|i: int, j: int|
            0 <= i < r@.len() && 0 <= j < r@.len() && i != j && (#[trigger] r@[i].1)@.len() == 2
                && (#[trigger] r@[j].1)@.len() == 2 ==> r@[i].1@ != r@[j].1@,
        forall|i: int|
            0 <= i < r@.len() ==> ((#[trigger] r@[i].1)@.len() == 3 <==> exists|j: int|
                0 <= j < i && (#[trigger] r@[j].1)@.len() == 2 && r@[j].1@ == r@[i].1@.take(2)),
{
    let alphabet = letter_block(97, 26);
    let large_set = letter_block(105, 18);
    let small_set = letter_block(97, 8);
    let mut full: Table = Vec::new();
    let mut i: usize = 0;
    while i < gb2312.len()
        invariant
            i <= gb2312@.len(),
            full@.len() == i,
            alphabet@.len() == 26,
            large_set@.len() == 18,
            small_set@.len() == 8,
            forall|t: int| 0 <= t < 26 ==> is_lower(#[trigger] alphabet@[t]),
            forall|t: int| 0 <= t < 18 ==> is_lower(#[trigger] large_set@[t]),
            forall|t: int| 0 <= t < 8 ==> is_lower(#[trigger] small_set@[t]),
            forall|t: int| 0 <= t < i ==> (#[trigger] full@[t]).0 == gb2312@[t],
            forall|t: int| 0 <= t < i ==> (#[trigger] full@[t].1)@.len() == 3,
            forall|t: int| 0 <= t < i ==> lower_code((#[trigger] full@[t].1)@),
        decreases gb2312@.len() - i,
    {
        let mut code: Vec<char> = Vec::new();
        match mode {
            Mode::PatternFree => {
                code.push(pick_letter(&alphabet));
                code.push(pick_letter(&alphabet));
                code.push(pick_letter(&alphabet));
            },
            Mode::Ermading => {
                code.push(pick_letter(&large_set));
                code.push(pick_letter(&alphabet));
                code.push(pick_letter(&small_set));
            },
        }
        full.push((gb2312[i], code));
        i = i + 1;
    }
    let short = arrange_short_code(&full, frequency);
    proof {
        assert(chars_of(full@) =~= gb2312@);
        assert forall|t: int| 0 <= t < short@.len() implies lower_code(
            (#[trigger] short@[t].1)@,
        ) by {
            assert(derived_from(full@, short@[t]));
            let j = choose|j: int|
                0 <= j < full@.len() && short@[t].0 == full@[j].0 && (short@[t].1@
                    == full@[j].1@ || short@[t].1@ == full@[j].1@.take(2));
            assert(lower_code(full@[j].1@));
        }
    }
    short
}

/// Whether these two letters are already claimed.
fn contains_prefix(known: &Vec<(char, char)>, p0: char, p1: char) -> (r: bool)
    ensures
        r == known@.contains((p0, p1)),
{
    let mut k: usize = 0;
    while k < known.len()
        invariant
            k <= known@.len(),
            forall|t: int| 0 <= t < k ==> known@[t] != (p0, p1),
        decreases known@.len() - k,
    {
        let e = known[k];
        if e.0 == p0 && e.1 == p1 {
            assert(known@[k as int] == (p0, p1));
            return true;
        }
        k = k + 1;
    }
    false
}

} // verus!
