//! Range counter: counts character frequencies within one index range of a
//! text under a case-folding mode, together with the mathematical counting
//! function that every counting path of the crate is held to.

use vstd::prelude::*;

use crate::fold::spec_fold;
use crate::fold::fold_char;
use crate::fold::CaseSense;
use crate::freq_map::mcount;
use crate::freq_map::spec_merge;
use crate::freq_map::FrequencyMap;

verus! {

/// Why a counting operation failed.
#[derive(Clone, Copy, Debug, PartialEq, Eq, Structural)]
pub enum CountError {
    /// The `Insensitive` mode met a character whose lowercase form is not
    /// a single character, so the one-to-one fold cannot represent it.
    UnsupportedFold,
    /// A counting or merging thread terminated abnormally.
    TaskFailure,
}

/// How many characters of `s` fold to `c` under `case`.
pub open spec fn freq_in(s: Seq<char>, case: CaseSense, c: char) -> nat
    decreases s.len(),
{
    if s.len() == 0 {
        0
    } else {
        freq_in(s.drop_last(), case, c) + (if spec_fold(case, s.last()) == Some(c) {
            1nat
        } else {
            0nat
        })
    }
}

/// Every character of `s` has a single-character fold under `case`.
pub open spec fn fold_ok(s: Seq<char>, case: CaseSense) -> bool {
    forall|i: int| 0 <= i < s.len() ==> (#[trigger] spec_fold(case, s[i])) is Some
}

/// The frequency mapping of `s` under `case`: exactly the folded forms
/// that occur, each with its number of occurrences.
pub open spec fn spec_frequencies(s: Seq<char>, case: CaseSense) -> Map<char, nat> {
    Map::new(|c: char| freq_in(s, case, c) > 0, |c: char| freq_in(s, case, c))
}

/// The mapping of `s` counts `c` exactly `freq_in(s, case, c)` times.
pub proof fn lemma_mcount_frequencies(s: Seq<char>, case: CaseSense, c: char)
    ensures
        mcount(spec_frequencies(s, case), c) == freq_in(s, case, c),
{
}

proof fn lemma_freq_in_push(s: Seq<char>, case: CaseSense, x: char, c: char)
    ensures
        freq_in(s.push(x), case, c) == freq_in(s, case, c) + (if spec_fold(case, x) == Some(c) {
            1nat
        } else {
            0nat
        }),
{
    assert(s.push(x).drop_last() =~= s);
    assert(s.push(x).last() == x);
}

proof fn lemma_freq_in_concat(s1: Seq<char>, s2: Seq<char>, case: CaseSense, c: char)
    ensures
        freq_in(s1 + s2, case, c) == freq_in(s1, case, c) + freq_in(s2, case, c),
    decreases s2.len(),
{
    if s2.len() == 0 {
        assert(s1 + s2 =~= s1);
    } else {
        assert((s1 + s2).drop_last() =~= s1 + s2.drop_last());
        assert((s1 + s2).last() == s2.last());
        lemma_freq_in_concat(s1, s2.drop_last(), case, c);
    }
}

/// Folding succeeds on a concatenation exactly when it succeeds on both
/// halves.
pub proof fn lemma_fold_ok_concat(s1: Seq<char>, s2: Seq<char>, case: CaseSense)
    ensures
        fold_ok(s1 + s2, case) <==> (fold_ok(s1, case) && fold_ok(s2, case)),
{
    if fold_ok(s1 + s2, case) {
        assert forall|i: int| 0 <= i < s1.len() implies (#[trigger] spec_fold(case, s1[i]))
            is Some by {
            assert((s1 + s2)[i] == s1[i]);
        }
        assert forall|i: int| 0 <= i < s2.len() implies (#[trigger] spec_fold(case, s2[i]))
            is Some by {
            assert((s1 + s2)[s1.len() + i] == s2[i]);
        }
    }
    if fold_ok(s1, case) && fold_ok(s2, case) {
        assert forall|i: int| 0 <= i < (s1 + s2).len() implies (#[trigger] spec_fold(
            case,
            (s1 + s2)[i],
        )) is Some by {
            if i < s1.len() {
                assert((s1 + s2)[i] == s1[i]);
            } else {
                assert((s1 + s2)[i] == s2[i - s1.len()]);
            }
        }
    }
}

/// Counting two adjacent pieces of text and merging the results is the
/// same as counting the concatenation: the key fact behind splitting the
/// text across workers.
pub proof fn lemma_frequencies_concat(s1: Seq<char>, s2: Seq<char>, case: CaseSense)
    ensures
        spec_merge(spec_frequencies(s1, case), spec_frequencies(s2, case)) == spec_frequencies(
            s1 + s2,
            case,
        ),
{
    assert forall|c: char|
        freq_in(s1 + s2, case, c) == freq_in(s1, case, c) + freq_in(s2, case, c) by {
        lemma_freq_in_concat(s1, s2, case, c);
    }
    assert(spec_merge(spec_frequencies(s1, case), spec_frequencies(s2, case)) =~= spec_frequencies(
        s1 + s2,
        case,
    ));
}

/// The characters a range `(from, to)` of positions selects from `text`:
/// both ends inclusive, clamped to the end of the text, empty when `from`
/// lies past the end.
pub open spec fn counted_slice(text: Seq<char>, from: int, to: int) -> Seq<char> {
    if from >= text.len() {
        Seq::empty()
    } else if to >= text.len() - 1 {
        text.subrange(from, text.len() as int)
    } else {
        text.subrange(from, to + 1)
    }
}

/// Counts the frequencies of the characters of `text` at the positions
/// `from ..= to` (character positions, both inclusive, clamped to the end
/// of the text), folding each character under `case` first.
pub fn character_frequencies_range(text: &str, from: usize, to: usize, case: CaseSense) -> (r:
    Result<FrequencyMap, CountError>)
    requires
        from <= to,
    ensures
        match r {
            Ok(m) => {
                &&& m.wf()
                &&& m@ == spec_frequencies(counted_slice(text@, from as int, to as int), case)
                &&& m.total() == counted_slice(text@, from as int, to as int).len()
                &&& fold_ok(counted_slice(text@, from as int, to as int), case)
            },
            Err(e) => {
                &&& e == CountError::UnsupportedFold
                &&& !fold_ok(counted_slice(text@, from as int, to as int), case)
            },
        },
{
    let ghost slice = counted_slice(text@, from as int, to as int);
    let n = text.unicode_len();
    let mut m = FrequencyMap::new();
    if from >= n {
        proof {
            assert(slice =~= Seq::<char>::empty());
            assert(m@ =~= spec_frequencies(slice, case));
        }
        return Ok(m);
    }
    let end = if to >= n - 1 {
        n
    } else {
        to + 1
    };
    proof {
        assert(slice == text@.subrange(from as int, end as int));
    }
    let mut i = from;
    proof {
        assert(text@.subrange(from as int, from as int) =~= Seq::<char>::empty());
        assert(m@ =~= spec_frequencies(text@.subrange(from as int, from as int), case));
    }
    while i < end
        invariant
            from <= i <= end <= n,
            n == text@.len(),
            slice == counted_slice(text@, from as int, to as int),
            slice == text@.subrange(from as int, end as int),
            m.wf(),
            m@ == spec_frequencies(text@.subrange(from as int, i as int), case),
            m.total() == i - from,
            forall|j: int| from <= j < i ==> (#[trigger] spec_fold(case, text@[j])) is Some,
        decreases end - i,
    {
        let ch = text.get_char(i);
        match fold_char(ch, case) {
            Some(f) => {
                let ghost prev = text@.subrange(from as int, i as int);
                let ghost cur = text@.subrange(from as int, i + 1);
                proof {
                    assert(cur =~= prev.push(ch));
                    lemma_mcount_frequencies(prev, case, f);
                }
                m.add_count(f, 1);
                proof {
                    assert forall|c: char|
                        freq_in(cur, case, c) == freq_in(prev, case, c) + (if spec_fold(case, ch)
                            == Some(c) {
                            1nat
                        } else {
                            0nat
                        }) by {
                        lemma_freq_in_push(prev, case, ch, c);
                    }
                    assert(m@ =~= spec_frequencies(cur, case));
                }
            },
            None => {
                proof {
                    assert(slice[i - from] == text@[i as int]);
                    assert(!fold_ok(slice, case));
                }
                return Err(CountError::UnsupportedFold);
            },
        }
        i = i + 1;
    }
    proof {
        assert forall|j: int| 0 <= j < slice.len() implies (#[trigger] spec_fold(case, slice[j]))
            is Some by {
            assert(slice[j] == text@[from + j]);
        }
    }
    Ok(m)
}

/// Counts the whole text in one synchronous pass under the given mode:
/// the oracle that the parallel path is proved to agree with.
pub fn sequential_character_frequencies_w_case(text: &str, case: CaseSense) -> (r: Result<
    FrequencyMap,
    CountError,
>)
    ensures
        match r {
            Ok(m) => {
                &&& m.wf()
                &&& m@ == spec_frequencies(text@, case)
                &&& m.total() == text@.len()
                &&& fold_ok(text@, case)
            },
            Err(e) => {
                &&& e == CountError::UnsupportedFold
                &&& !fold_ok(text@, case)
            },
        },
{
    let n = text.unicode_len();
    if n == 0 {
        let m = FrequencyMap::new();
        proof {
            assert(m@ =~= spec_frequencies(text@, case));
        }
        return Ok(m);
    }
    let r = character_frequencies_range(text, 0, n - 1, case);
    proof {
        assert(counted_slice(text@, 0, n - 1) =~= text@);
    }
    r
}

/// Counts the whole text in one synchronous pass under the default mode,
/// ASCII-only case-insensitive. That mode folds every character, so this
/// cannot fail.
pub fn sequential_character_frequencies(text: &str) -> (r: FrequencyMap)
    ensures
        r.wf(),
        r@ == spec_frequencies(text@, CaseSense::InsensitiveASCIIOnly),
        r.total() == text@.len(),
{
    let r = sequential_character_frequencies_w_case(text, CaseSense::InsensitiveASCIIOnly);
    proof {
        assert(fold_ok(text@, CaseSense::InsensitiveASCIIOnly));
    }
    match r {
        Ok(m) => m,
        Err(_) => vstd::pervasive::unreached(),
    }
}

} // verus!
