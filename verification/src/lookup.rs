//! The character-to-code lookup: a projection of a code table used by the
//! encoder and the scorer, keyed by Unicode scalar value.

use std::collections::HashMap;
use vstd::prelude::*;

verus! {

broadcast use vstd::std_specs::hash::group_hash_axioms;

/// A code table: each character paired with its code, a short sequence of
/// lowercase Latin letters. A character appears at most once.
pub type Table = Vec<(char, Vec<char>)>;

/// The character-to-code map described by a table, read left to right; a
/// later entry for the same character overrides an earlier one.
pub open spec fn lookup_of(t: Seq<(char, Vec<char>)>) -> Map<u32, Seq<char>>
    decreases t.len(),
{
    if t.len() == 0 {
        Map::empty()
    } else {
        lookup_of(t.drop_last()).insert(t.last().0 as u32, t.last().1@)
    }
}

/// A code lookup seen mathematically: each code as its character sequence.
pub open spec fn lookup_view(m: Map<u32, Vec<char>>) -> Map<u32, Seq<char>> {
    m.map_values(|v: Vec<char>| v@)
}

/// Whether the lookup has a code for every character of `s`.
pub open spec fn all_coded(s: Seq<char>, m: Map<u32, Vec<char>>) -> bool {
    forall|i: int| 0 <= i < s.len() ==> m.contains_key(#[trigger] s[i] as u32)
}

/// The per-character code lengths of `s` under the lookup.
pub open spec fn code_len_seq(s: Seq<char>, m: Map<u32, Vec<char>>) -> Seq<int> {
    Seq::new(s.len(), |i: int| m[s[i] as u32]@.len() as int)
}

/// Build the lookup of a table for constant-time code retrieval.
pub fn build_lookup(table: &Table) -> (m: HashMap<u32, Vec<char>>)
    ensures
        lookup_view(m@) == lookup_of(table@),
{
    let mut m: HashMap<u32, Vec<char>> = HashMap::new();
    proof {
        assert(lookup_view(m@) =~= lookup_of(table@.take(0)));
    }
    let mut i: usize = 0;
    while i < table.len()
        invariant
            i <= table@.len(),
            lookup_view(m@) == lookup_of(table@.take(i as int)),
        decreases table@.len() - i,
    {
        let entry = &table[i];
        m.insert(entry.0 as u32, entry.1.clone());
        proof {
            assert(table@.take(i + 1).drop_last() =~= table@.take(i as int));
            assert(table@.take(i + 1).last() == table@[i as int]);
            assert(lookup_view(m@) =~= lookup_of(table@.take(i + 1)));
        }
        i = i + 1;
    }
    proof {
        assert(table@.take(table@.len() as int) =~= table@);
    }
    m
}

} // verus!
