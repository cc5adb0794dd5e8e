//! Levenshtein edit distance between two character sequences, with unit
//! insert, delete and substitute costs.

use vstd::prelude::*;

verus! {

/// The smallest of three integers.
pub open spec fn min3(a: int, b: int, c: int) -> int {
    if a <= b && a <= c {
        a
    } else if b <= c {
        b
    } else {
        c
    }
}

/// Levenshtein distance: the least number of single-character insertions,
/// deletions and substitutions turning `s` into `t`, by the classic
/// recurrence on the last characters.
pub open spec fn lev(s: Seq<char>, t: Seq<char>) -> int
    decreases s.len() + t.len(),
{
    if s.len() == 0 {
        t.len() as int
    } else if t.len() == 0 {
        s.len() as int
    } else {
        let cost: int = if s.last() == t.last() {
            0
        } else {
            1
        };
        min3(
            lev(s.drop_last(), t) + 1,
            lev(s, t.drop_last()) + 1,
            lev(s.drop_last(), t.drop_last()) + cost,
        )
    }
}

/// The distance is never negative.
pub proof fn lemma_lev_nonneg(s: Seq<char>, t: Seq<char>)
    ensures
        lev(s, t) >= 0,
    decreases s.len() + t.len(),
{
    if s.len() != 0 && t.len() != 0 {
        lemma_lev_nonneg(s.drop_last(), t);
        lemma_lev_nonneg(s, t.drop_last());
        lemma_lev_nonneg(s.drop_last(), t.drop_last());
    }
}

/// The distance never exceeds the longer length: deleting the surplus and
/// substituting the rest always suffices.
pub proof fn lemma_lev_le_max(s: Seq<char>, t: Seq<char>)
    ensures
        lev(s, t) <= vstd::math::max(s.len() as int, t.len() as int),
    decreases s.len() + t.len(),
{
    if s.len() != 0 && t.len() != 0 {
        lemma_lev_le_max(s.drop_last(), t.drop_last());
        lemma_lev_nonneg(s.drop_last(), t);
        lemma_lev_nonneg(s, t.drop_last());
    }
}

/// A sequence is at distance zero from itself.
pub proof fn lemma_lev_self(s: Seq<char>)
    ensures
        lev(s, s) == 0,
    decreases s.len(),
{
    if s.len() != 0 {
        lemma_lev_self(s.drop_last());
        lemma_lev_nonneg(s.drop_last(), s);
        lemma_lev_nonneg(s, s.drop_last());
    }
}

/// The distance is symmetric in its two arguments.
pub proof fn lemma_lev_symmetric(s: Seq<char>, t: Seq<char>)
    ensures
        lev(s, t) == lev(t, s),
    decreases s.len() + t.len(),
{
    if s.len() != 0 && t.len() != 0 {
        lemma_lev_symmetric(s.drop_last(), t);
        lemma_lev_symmetric(s, t.drop_last());
        lemma_lev_symmetric(s.drop_last(), t.drop_last());
    }
}

/// The distance is at least the difference of the two lengths: each edit
/// changes the length by at most one.
pub proof fn lemma_lev_lower_bound(s: Seq<char>, t: Seq<char>)
    ensures
        lev(s, t) >= s.len() - t.len(),
        lev(s, t) >= t.len() - s.len(),
    decreases s.len() + t.len(),
{
    if s.len() != 0 && t.len() != 0 {
        lemma_lev_lower_bound(s.drop_last(), t);
        lemma_lev_lower_bound(s, t.drop_last());
        lemma_lev_lower_bound(s.drop_last(), t.drop_last());
    }
}

/// Edit distance by dynamic programming, keeping one row of prefix
/// distances at a time: after round `i`, entry `q` of the row holds the
/// distance between the first `i` characters of `s` and the first `q`
/// characters of `t`.
pub fn levenshtein_distance(s: &[char], t: &[char]) -> (r: usize)
    requires
        s@.len() < usize::MAX,
        t@.len() < usize::MAX,
    ensures
        r == lev(s@, t@),
{
    let n = s.len();
    let m = t.len();
    let mut prev: Vec<usize> = Vec::new();
    let mut q: usize = 0;
    while q <= m
        invariant
            q <= m + 1,
            m == t@.len(),
            m < usize::MAX,
            prev@.len() == q,
            forall|k: int| 0 <= k < q ==> prev@[k] == lev(Seq::<char>::empty(), t@.take(k)),
        decreases m + 1 - q,
    {
        proof {
            assert(t@.take(q as int).len() == q);
            assert(lev(Seq::<char>::empty(), t@.take(q as int)) == q);
        }
        prev.push(q);
        q = q + 1;
    }
    proof {
        assert(s@.take(0) =~= Seq::<char>::empty());
    }
    let mut i: usize = 1;
    while i <= n
        invariant
            1 <= i <= n + 1,
            n == s@.len(),
            m == t@.len(),
            n < usize::MAX,
            m < usize::MAX,
            prev@.len() == m + 1,
            forall|k: int| 0 <= k <= m ==> prev@[k] == lev(s@.take(i - 1), t@.take(k)),
        decreases n + 1 - i,
    {
        let mut cur: Vec<usize> = Vec::new();
        proof {
            assert(s@.take(i as int).len() == i);
            assert(t@.take(0).len() == 0);
            assert(lev(s@.take(i as int), t@.take(0)) == i);
        }
        cur.push(i);
        let mut j: usize = 1;
        while j <= m
            invariant
                1 <= j <= m + 1,
                1 <= i <= n,
                n == s@.len(),
                m == t@.len(),
                n < usize::MAX,
                m < usize::MAX,
                prev@.len() == m + 1,
                forall|k: int| 0 <= k <= m ==> prev@[k] == lev(s@.take(i - 1), t@.take(k)),
                cur@.len() == j,
                forall|k: int| 0 <= k < j ==> cur@[k] == lev(s@.take(i as int), t@.take(k)),
            decreases m + 1 - j,
        {
            let cost: usize = if s[i - 1] == t[j - 1] {
                0
            } else {
                1
            };
            proof {
                lemma_lev_nonneg(s@.take(i - 1), t@.take(j as int));
                lemma_lev_nonneg(s@.take(i as int), t@.take(j - 1));
                lemma_lev_nonneg(s@.take(i - 1), t@.take(j - 1));
                lemma_lev_le_max(s@.take(i - 1), t@.take(j as int));
                lemma_lev_le_max(s@.take(i as int), t@.take(j - 1));
                lemma_lev_le_max(s@.take(i - 1), t@.take(j - 1));
                assert(s@.take(i - 1).len() == i - 1);
                assert(t@.take(j as int).len() == j);
                assert(s@.take(i as int).len() == i);
                assert(t@.take(j - 1).len() == j - 1);
            }
            let del = prev[j] + 1;
            let ins = cur[j - 1] + 1;
            let sub = prev[j - 1] + cost;
            let mut best = del;
            if ins < best {
                best = ins;
            }
            if sub < best {
                best = sub;
            }
            proof {
                let sp = s@.take(i as int);
                let tp = t@.take(j as int);
                assert(sp.len() == i && tp.len() == j);
                assert(sp.drop_last() =~= s@.take(i - 1));
                assert(tp.drop_last() =~= t@.take(j - 1));
                assert(sp.last() == s@[i - 1]);
                assert(tp.last() == t@[j - 1]);
                assert(best == min3(
                    lev(sp.drop_last(), tp) + 1,
                    lev(sp, tp.drop_last()) + 1,
                    lev(sp.drop_last(), tp.drop_last()) + (if sp.last() == tp.last() {
                        0int
                    } else {
                        1int
                    }),
                ));
                assert(best == lev(sp, tp));
            }
            cur.push(best);
            j = j + 1;
        }
        prev = cur;
        i = i + 1;
    }
    proof {
        assert(s@.take(n as int) =~= s@);
        assert(t@.take(m as int) =~= t@);
    }
    prev[m]
}

} // verus!
