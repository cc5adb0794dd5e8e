//! Per-run evaluation statistics, bucketed by sentence length, and their
//! merge across independent runs.
//!
//! A run's statistics are a vector of `BUCKETS` buckets: bucket 0 covers all
//! sentences, bucket `k` (1 <= k < BUCKETS) only sentences of exactly `k`
//! characters. Buckets are only ever incremented; merging several runs adds
//! the six numeric fields bucket-wise.

use vstd::prelude::*;

verus! {

/// Number of length buckets in one run's statistics.
pub const BUCKETS: usize = 30;

/// One length bucket of evaluation counters.
#[derive(Clone, Copy, PartialEq, Eq, Structural, Debug)]
pub struct Statistics {
    /// Bucket key: 0 aggregates all sentence lengths, k aggregates length k.
    pub length: usize,
    /// Number of scored sentence pairs.
    pub sentences: usize,
    /// Total reference characters over those pairs.
    pub characters: usize,
    /// Total edit distance over those pairs.
    pub distances: usize,
    /// Pairs decoded exactly (distance 0).
    pub successes: usize,
    /// Pairs with correct segmentation but wrong characters.
    pub translation_errors: usize,
    /// Pairs with wrong segmentation.
    pub segmentation_errors: usize,
}

/// Mathematical image of one bucket: the same counters as unbounded integers.
pub ghost struct StatView {
    pub length: int,
    pub sentences: int,
    pub characters: int,
    pub distances: int,
    pub successes: int,
    pub translation_errors: int,
    pub segmentation_errors: int,
}

impl View for Statistics {
    type V = StatView;

    open spec fn view(&self) -> StatView {
        StatView {
            length: self.length as int,
            sentences: self.sentences as int,
            characters: self.characters as int,
            distances: self.distances as int,
            successes: self.successes as int,
            translation_errors: self.translation_errors as int,
            segmentation_errors: self.segmentation_errors as int,
        }
    }
}

/// The zeroed bucket with key `length`.
pub open spec fn zero_view(length: int) -> StatView {
    StatView {
        length: length,
        sentences: 0,
        characters: 0,
        distances: 0,
        successes: 0,
        translation_errors: 0,
        segmentation_errors: 0,
    }
}

/// Bucket-wise accumulation: adds every counter of `b` onto `a`. The bucket
/// key of the left operand is kept, as merging only ever combines buckets of
/// the same key.
pub open spec fn add_view(a: StatView, b: StatView) -> StatView {
    StatView {
        length: a.length,
        sentences: a.sentences + b.sentences,
        characters: a.characters + b.characters,
        distances: a.distances + b.distances,
        successes: a.successes + b.successes,
        translation_errors: a.translation_errors + b.translation_errors,
        segmentation_errors: a.segmentation_errors + b.segmentation_errors,
    }
}

/// Whether every counter of `v` fits the machine word, so that a bucket with
/// these values is representable.
pub open spec fn view_fits(v: StatView) -> bool {
    &&& 0 <= v.sentences <= usize::MAX
    &&& 0 <= v.characters <= usize::MAX
    &&& 0 <= v.distances <= usize::MAX
    &&& 0 <= v.successes <= usize::MAX
    &&& 0 <= v.translation_errors <= usize::MAX
    &&& 0 <= v.segmentation_errors <= usize::MAX
}

/// Accumulating buckets of one key is commutative.
pub proof fn lemma_add_view_commutative(a: StatView, b: StatView)
    requires
        a.length == b.length,
    ensures
        add_view(a, b) == add_view(b, a),
{
}

/// Accumulating buckets is associative.
pub proof fn lemma_add_view_associative(a: StatView, b: StatView, c: StatView)
    ensures
        add_view(add_view(a, b), c) == add_view(a, add_view(b, c)),
{
}

impl Default for Statistics {
    /// The zeroed bucket with key 0.
    fn default() -> (r: Self)
        ensures
            r@ == zero_view(0),
    {
        Statistics {
            length: 0,
            sentences: 0,
            characters: 0,
            distances: 0,
            successes: 0,
            translation_errors: 0,
            segmentation_errors: 0,
        }
    }
}

/// A fresh, zeroed run: `BUCKETS` buckets with keys 0 up to `BUCKETS - 1`.
pub fn new_statistics() -> (r: Vec<Statistics>)
    ensures
        r@.len() == BUCKETS,
        forall|i: int| 0 <= i < BUCKETS ==> r@[i]@ == zero_view(i),
{
    let mut data: Vec<Statistics> = Vec::new();
    let mut x: usize = 0;
    while x < BUCKETS
        invariant
            x <= BUCKETS,
            data@.len() == x,
            forall|i: int| 0 <= i < x ==> data@[i]@ == zero_view(i),
        decreases BUCKETS - x,
    {
        data.push(
            Statistics {
                length: x,
                sentences: 0,
                characters: 0,
                distances: 0,
                successes: 0,
                translation_errors: 0,
                segmentation_errors: 0,
            },
        );
        x = x + 1;
    }
    data
}

/// The runs of a list, each as a sequence of buckets.
pub open spec fn runs_view(inputs: Seq<Vec<Statistics>>) -> Seq<Seq<Statistics>> {
    inputs.map_values(|v: Vec<Statistics>| v@)
}

/// Bucket `i` of the merge of several runs: the zeroed bucket with key `i`,
/// accumulated with bucket `i` of every run in turn.
pub open spec fn merged_views(runs: Seq<Seq<Statistics>>, i: int) -> StatView
    decreases runs.len(),
{
    if runs.len() == 0 {
        zero_view(i)
    } else {
        add_view(merged_views(runs.drop_last(), i), runs.last()[i]@)
    }
}

/// Counters only grow as more runs are merged in.
pub proof fn lemma_merged_views_prefix(runs: Seq<Seq<Statistics>>, l: int, i: int)
    requires
        0 <= l <= runs.len(),
    ensures
        merged_views(runs.take(l), i).sentences <= merged_views(runs, i).sentences,
        merged_views(runs.take(l), i).characters <= merged_views(runs, i).characters,
        merged_views(runs.take(l), i).distances <= merged_views(runs, i).distances,
        merged_views(runs.take(l), i).successes <= merged_views(runs, i).successes,
        merged_views(runs.take(l), i).translation_errors <= merged_views(
            runs,
            i,
        ).translation_errors,
        merged_views(runs.take(l), i).segmentation_errors <= merged_views(
            runs,
            i,
        ).segmentation_errors,
    decreases runs.len() - l,
{
    if l == runs.len() {
        assert(runs.take(l) =~= runs);
    } else {
        assert(runs.drop_last().take(l) =~= runs.take(l));
        lemma_merged_views_prefix(runs.drop_last(), l, i);
    }
}

/// Merging two runs is commutative: either order accumulates to the same
/// buckets.
pub proof fn lemma_merge_two_commutative(x: Seq<Statistics>, y: Seq<Statistics>, i: int)
    requires
        0 <= i < x.len(),
        0 <= i < y.len(),
    ensures
        merged_views(seq![x, y], i) == merged_views(seq![y, x], i),
{
    let xy = seq![x, y];
    let yx = seq![y, x];
    assert(xy.len() == 2 && yx.len() == 2);
    assert(xy.last() == y && yx.last() == x);
    assert(seq![x].len() == 1 && seq![y].len() == 1);
    assert(seq![x].last() == x && seq![y].last() == y);
    assert(xy.drop_last() =~= seq![x]);
    assert(yx.drop_last() =~= seq![y]);
    assert(seq![x].drop_last() =~= Seq::<Seq<Statistics>>::empty());
    assert(seq![y].drop_last() =~= Seq::<Seq<Statistics>>::empty());
    assert(merged_views(Seq::<Seq<Statistics>>::empty(), i) == zero_view(i));
    assert(merged_views(seq![x], i) == add_view(zero_view(i), x[i]@));
    assert(merged_views(seq![y], i) == add_view(zero_view(i), y[i]@));
    assert(merged_views(xy, i) == add_view(add_view(zero_view(i), x[i]@), y[i]@));
    assert(merged_views(yx, i) == add_view(add_view(zero_view(i), y[i]@), x[i]@));
}

/// Merge the statistics of several runs into one aggregate: bucket-wise
/// addition of the six counters, over `BUCKETS` buckets keyed 0 up to
/// `BUCKETS - 1`. Returns nothing when some run does not have exactly
/// `BUCKETS` buckets, or when an aggregate counter would not fit the machine
/// word; otherwise every bucket of the result is pinned by `merged_views`.
pub fn reduce(inputs: &Vec<Vec<Statistics>>) -> (r: Option<Vec<Statistics>>)
    ensures
        match r {
            Some(out) => {
                &&& forall|k: int| 0 <= k < inputs@.len() ==> inputs@[k]@.len() == BUCKETS
                &&& forall|i: int|
                    0 <= i < BUCKETS ==> view_fits(merged_views(runs_view(inputs@), i))
                &&& out@.len() == BUCKETS
                &&& forall|i: int|
                    0 <= i < BUCKETS ==> out@[i]@ == merged_views(runs_view(inputs@), i)
            },
            None => {
                ||| exists|k: int| 0 <= k < inputs@.len() && inputs@[k]@.len() != BUCKETS
                ||| exists|i: int|
                    0 <= i < BUCKETS && !view_fits(merged_views(runs_view(inputs@), i))
            },
        },
{
    let ghost runs = runs_view(inputs@);
    let mut out = new_statistics();
    let mut k: usize = 0;
    while k < inputs.len()
        invariant
            k <= inputs@.len(),
            runs == runs_view(inputs@),
            runs.len() == inputs@.len(),
            forall|p: int| 0 <= p < inputs@.len() ==> runs[p] == inputs@[p]@,
            forall|p: int| 0 <= p < k ==> inputs@[p]@.len() == BUCKETS,
            out@.len() == BUCKETS,
            forall|i: int| 0 <= i < BUCKETS ==> out@[i]@ == merged_views(runs.take(k as int), i),
        decreases inputs@.len() - k,
    {
        if inputs[k].len() != BUCKETS {
            return None;
        }
        proof {
            assert(runs.take(k + 1).drop_last() =~= runs.take(k as int));
            assert(runs.take(k + 1).last() == runs[k as int]);
        }
        let mut i: usize = 0;
        while i < BUCKETS
            invariant
                i <= BUCKETS,
                k < inputs@.len(),
                runs == runs_view(inputs@),
                runs.len() == inputs@.len(),
                inputs@[k as int]@.len() == BUCKETS,
                forall|p: int| 0 <= p < inputs@.len() ==> runs[p] == inputs@[p]@,
                out@.len() == BUCKETS,
                forall|b: int| 0 <= b < i ==> out@[b]@ == merged_views(runs.take(k + 1), b),
                forall|b: int|
                    i <= b < BUCKETS ==> out@[b]@ == merged_views(runs.take(k as int), b),
            decreases BUCKETS - i,
        {
            proof {
                assert(runs.take(k + 1).len() == k + 1);
                assert(runs.take(k + 1).drop_last() =~= runs.take(k as int));
                assert(runs.take(k + 1).last() == runs[k as int]);
                assert(merged_views(runs.take(k + 1), i as int) == add_view(
                    merged_views(runs.take(k as int), i as int),
                    runs[k as int][i as int]@,
                ));
            }
            let acc = out[i];
            let add = inputs[k][i];
            if acc.sentences > usize::MAX - add.sentences || acc.characters > usize::MAX
                - add.characters || acc.distances > usize::MAX - add.distances || acc.successes
                > usize::MAX - add.successes || acc.translation_errors > usize::MAX
                - add.translation_errors || acc.segmentation_errors > usize::MAX
                - add.segmentation_errors {
                proof {
                    lemma_merged_views_prefix(runs, k + 1, i as int);
                    assert(!view_fits(merged_views(runs, i as int)));
                }
                return None;
            }
            out.set(
                i,
                Statistics {
                    length: acc.length,
                    sentences: acc.sentences + add.sentences,
                    characters: acc.characters + add.characters,
                    distances: acc.distances + add.distances,
                    successes: acc.successes + add.successes,
                    translation_errors: acc.translation_errors + add.translation_errors,
                    segmentation_errors: acc.segmentation_errors + add.segmentation_errors,
                },
            );
            i = i + 1;
        }
        k = k + 1;
    }
    proof {
        assert(runs.take(inputs@.len() as int) =~= runs);
    }
    Some(out)
}

} // verus!
