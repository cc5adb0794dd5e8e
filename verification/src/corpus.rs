//! Corpus preprocessing logic: cutting raw text into its maximal runs of
//! Chinese characters, and choosing which archive entries to read.

use vstd::prelude::*;

verus! {

/// Whether `c` lies in the unified CJK ideograph block.
pub open spec fn is_cjk(c: char) -> bool {
    0x4e00 <= c as u32 <= 0x9fff
}

/// The maximal runs of CJK characters in `s`, in order: a CJK character
/// extends the run of a CJK character just before it, and starts a new run
/// otherwise; all other characters separate runs.
pub open spec fn chinese_runs(s: Seq<char>) -> Seq<Seq<char>>
    decreases s.len(),
{
    if s.len() == 0 {
        Seq::empty()
    } else {
        let rest = chinese_runs(s.drop_last());
        if !is_cjk(s.last()) {
            rest
        } else if s.len() >= 2 && is_cjk(s[s.len() - 2]) {
            rest.update(rest.len() - 1, rest.last().push(s.last()))
        } else {
            rest.push(seq![s.last()])
        }
    }
}

/// The views of a list of runs.
pub open spec fn runs_of(r: Seq<Vec<char>>) -> Seq<Seq<char>> {
    r.map_values(|v: Vec<char>| v@)
}

/// Whether `suffix` ends `s`.
pub open spec fn ends_with(s: Seq<char>, suffix: Seq<char>) -> bool {
    s.len() >= suffix.len() && s.subrange(s.len() - suffix.len(), s.len() as int) == suffix
}

/// Whether `c` is a CJK character.
fn is_cjk_char(c: char) -> (r: bool)
    ensures
        r == is_cjk(c),
{
    let u = c as u32;
    0x4e00 <= u && u <= 0x9fff
}

/// Cut a text into its maximal runs of CJK characters, dropping everything
/// between them.
pub fn extract_chinese_runs(text: &Vec<char>) -> (r: Vec<Vec<char>>)
    ensures
        runs_of(r@) == chinese_runs(text@),
{
    let mut r: Vec<Vec<char>> = Vec::new();
    let mut cur: Vec<char> = Vec::new();
    let mut i: usize = 0;
    proof {
        assert(runs_of(r@) =~= chinese_runs(text@.take(0)));
    }
    while i < text.len()
        invariant
            i <= text@.len(),
            cur@.len() == 0 ==> (i == 0 || !is_cjk(text@[i - 1])) && runs_of(r@) == chinese_runs(
                text@.take(i as int),
            ),
            cur@.len() > 0 ==> i > 0 && is_cjk(text@[i - 1]) && runs_of(r@).push(cur@)
                == chinese_runs(text@.take(i as int)),
        decreases text@.len() - i,
    {
        let c = text[i];
        proof {
            assert(text@.take(i + 1).drop_last() =~= text@.take(i as int));
            assert(text@.take(i + 1).last() == text@[i as int]);
        }
        if is_cjk_char(c) {
            let ghost old_r = r@;
            let ghost old_cur = cur@;
            cur.push(c);
            proof {
                let s = text@.take(i + 1);
                if old_cur.len() == 0 {
                    assert(chinese_runs(s) =~= chinese_runs(text@.take(i as int)).push(
                        seq![c],
                    ));
                    assert(cur@ =~= seq![c]);
                    assert(runs_of(r@).push(cur@) =~= chinese_runs(s));
                } else {
                    assert(s.len() >= 2 && is_cjk(s[s.len() - 2]));
                    let prev = chinese_runs(text@.take(i as int));
                    assert(prev == runs_of(old_r).push(old_cur));
                    assert(prev.len() == runs_of(old_r).len() + 1);
                    assert(prev.last() == old_cur);
                    assert(chinese_runs(s) == prev.update(prev.len() - 1, old_cur.push(c)));
                    assert(runs_of(r@).push(cur@) =~= prev.update(
                        prev.len() - 1,
                        old_cur.push(c),
                    ));
                }
            }
        } else {
            if cur.len() > 0 {
                let ghost old_r = r@;
                let ghost old_cur = cur@;
                let finished = cur;
                cur = Vec::new();
                r.push(finished);
                proof {
                    assert(runs_of(r@) =~= runs_of(old_r).push(old_cur));
                }
            }
            proof {
                assert(chinese_runs(text@.take(i + 1)) == chinese_runs(text@.take(i as int)));
            }
        }
        i = i + 1;
    }
    proof {
        assert(text@.take(text@.len() as int) =~= text@);
    }
    if cur.len() > 0 {
        let ghost old_r = r@;
        let ghost old_cur = cur@;
        r.push(cur);
        proof {
            assert(runs_of(r@) =~= runs_of(old_r).push(old_cur));
        }
    }
    r
}

/// Whether `suffix` ends `name`.
fn has_suffix(name: &Vec<char>, suffix: &Vec<char>) -> (r: bool)
    ensures
        r == ends_with(name@, suffix@),
{
    if name.len() < suffix.len() {
        return false;
    }
    let start = name.len() - suffix.len();
    let mut k: usize = 0;
    while k < suffix.len()
        invariant
            k <= suffix@.len(),
            suffix@.len() <= name@.len(),
            name@.len() <= usize::MAX,
            start == name@.len() - suffix@.len(),
            forall|t: int| 0 <= t < k ==> name@[start + t] == suffix@[t],
        decreases suffix@.len() - k,
    {
        proof {
            assert(start + k < name@.len());
        }
        if name[start + k] != suffix[k] {
            assert(name@.subrange(
                name@.len() - suffix@.len(),
                name@.len() as int,
            )[k as int] != suffix@[k as int]);
            return false;
        }
        k = k + 1;
    }
    proof {
        assert(name@.subrange(name@.len() - suffix@.len(), name@.len() as int) =~= suffix@);
    }
    true
}

/// Whether an archive entry with this name is corpus text worth reading:
/// a text file that is not a metadata file.
pub fn keep_archive_entry(name: &Vec<char>) -> (r: bool)
    ensures
        r == (ends_with(name@, seq!['.', 't', 'x', 't']) && !ends_with(
            name@,
            seq!['m', 'e', 't', 'a', '.', 't', 'x', 't'],
        )),
{
    let mut txt: Vec<char> = Vec::new();
    txt.push('.');
    txt.push('t');
    txt.push('x');
    txt.push('t');
    let mut meta: Vec<char> = Vec::new();
    meta.push('m');
    meta.push('e');
    meta.push('t');
    meta.push('a');
    meta.push('.');
    meta.push('t');
    meta.push('x');
    meta.push('t');
    proof {
        assert(txt@ =~= seq!['.', 't', 'x', 't']);
        assert(meta@ =~= seq!['m', 'e', 't', 'a', '.', 't', 'x', 't']);
    }
    has_suffix(name, &txt) && !has_suffix(name, &meta)
}

} // verus!
