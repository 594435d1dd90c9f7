//! Orchestrator: plans one contiguous range per worker, counts every range,
//! and merges the partial mappings into one result that is proved equal to
//! the mapping of a single sequential pass — the fact that lets the range
//! counts run on concurrent workers without changing the outcome.

use vstd::prelude::*;

use crate::counter::character_frequencies_range;
use crate::counter::counted_slice;
use crate::counter::fold_ok;
use crate::counter::lemma_fold_ok_concat;
use crate::counter::lemma_frequencies_concat;
use crate::counter::sequential_character_frequencies_w_case;
use crate::counter::spec_frequencies;
use crate::counter::CountError;
use crate::fold::spec_fold;
use crate::fold::CaseSense;
use crate::freq_map::add_frequencies;
use crate::freq_map::FrequencyMap;
use crate::planner::plan_ranges;

verus! {

/// Relies on `num_cpus::get`: the number of available logical CPUs of the
/// running system, which its documentation promises is at least one. Used
/// only as the default worker count.
#[verifier::external_body]
fn detected_cpu_count() -> (r: usize)
    ensures
        r >= 1,
{
    num_cpus::get()
}

/// A fold failure inside one planned range is a fold failure of the whole
/// text.
proof fn lemma_fold_failure_extends(tview: Seq<char>, rg: (usize, usize), case: CaseSense)
    requires
        rg.0 <= rg.1 < tview.len(),
        !fold_ok(counted_slice(tview, rg.0 as int, rg.1 as int), case),
    ensures
        !fold_ok(tview, case),
{
    let slice = counted_slice(tview, rg.0 as int, rg.1 as int);
    assert(exists|j: int| 0 <= j < slice.len() && !((#[trigger] spec_fold(case, slice[j])) is Some));
    let j = choose|j: int| 0 <= j < slice.len() && !((#[trigger] spec_fold(case, slice[j])) is Some);
    assert(slice[j] == tview[rg.0 + j]);
    assert(!(spec_fold(case, tview[rg.0 + j]) is Some));
}

/// Counts character frequencies split over the requested number of workers
/// under the given case mode.
///
/// Whatever the worker count, the result is pinned to the one mapping the
/// sequential pass produces: each folded character mapped to its number of
/// occurrences in the whole text, the counts summing to the text's
/// character length. `UnsupportedFold` comes back exactly when some
/// character of the text has no single-character fold under `case`.
#[verifier::rlimit(60)]
pub fn character_frequencies_with_n_threads_w_case(text: &str, threads: usize, case: CaseSense) -> (r:
    Result<FrequencyMap, CountError>)
    ensures
        match r {
            Ok(m) => {
                &&& m.wf()
                &&& m@ == spec_frequencies(text@, case)
                &&& m.total() == text@.len()
                &&& fold_ok(text@, case)
            },
            Err(e) => {
                &&& e == CountError::UnsupportedFold
                &&& !fold_ok(text@, case)
            },
        },
{
    if threads <= 1 {
        return sequential_character_frequencies_w_case(text, case);
    }
    let ghost tview = text@;
    let n = text.unicode_len();
    let ranges = plan_ranges(n, threads);
    let ghost te = ranges@.len() as int;

    let mut acc = FrequencyMap::new();
    let ghost mut covered: int = 0;
    proof {
        assert(tview.subrange(0, 0) =~= Seq::<char>::empty());
        assert(acc@ =~= spec_frequencies(tview.subrange(0, 0), case));
    }
    let mut i: usize = 0;
    while i < ranges.len()
        invariant
            0 <= i <= te,
            te == ranges@.len(),
            n == tview.len(),
            tview == text@,
            forall|h: int| 0 <= h < te ==> (#[trigger] ranges@[h]).0 <= ranges@[h].1 < n,
            te > 0 ==> ranges@[0].0 == 0,
            te > 0 ==> ranges@[te - 1].1 + 1 == n,
            forall|h: int| 0 <= h < te - 1 ==> (#[trigger] ranges@[h]).1 + 1 == ranges@[h + 1].0,
            covered == if i == 0 {
                0int
            } else {
                ranges@[i - 1].1 + 1
            },
            0 <= covered <= n,
            i == te ==> covered == n,
            acc.wf(),
            acc@ == spec_frequencies(tview.subrange(0, covered), case),
            acc.total() == covered,
            fold_ok(tview.subrange(0, covered), case),
        decreases te - i,
    {
        let rg = ranges[i];
        match character_frequencies_range(text, rg.0, rg.1, case) {
            Ok(m) => {
                let ghost prefix = tview.subrange(0, covered);
                let ghost slice = counted_slice(tview, rg.0 as int, rg.1 as int);
                proof {
                    assert(rg.0 == covered);
                    assert(slice == tview.subrange(rg.0 as int, rg.1 + 1));
                    assert(prefix + slice =~= tview.subrange(0, rg.1 + 1));
                    lemma_frequencies_concat(prefix, slice, case);
                    lemma_fold_ok_concat(prefix, slice, case);
                }
                acc = add_frequencies(acc, m);
                proof {
                    covered = rg.1 + 1;
                }
            },
            Err(_) => {
                proof {
                    lemma_fold_failure_extends(tview, rg, case);
                }
                return Err(CountError::UnsupportedFold);
            },
        }
        i = i + 1;
    }
    proof {
        assert(tview.subrange(0, n as int) =~= tview);
    }
    Ok(acc)
}

/// Counts character frequencies split over the requested number of workers
/// under the default mode, ASCII-only case-insensitive. That mode folds
/// every character, so this cannot fail.
pub fn character_frequencies_with_n_threads(text: &str, threads: usize) -> (r: FrequencyMap)
    ensures
        r.wf(),
        r@ == spec_frequencies(text@, CaseSense::InsensitiveASCIIOnly),
        r.total() == text@.len(),
{
    let r = character_frequencies_with_n_threads_w_case(
        text,
        threads,
        CaseSense::InsensitiveASCIIOnly,
    );
    proof {
        assert(fold_ok(text@, CaseSense::InsensitiveASCIIOnly));
    }
    match r {
        Ok(m) => m,
        Err(_) => vstd::pervasive::unreached(),
    }
}

/// Counts character frequencies with one worker per available CPU and the
/// given case mode.
pub fn character_frequencies_w_case(text: &str, case: CaseSense) -> (r: Result<
    FrequencyMap,
    CountError,
>)
    ensures
        match r {
            Ok(m) => {
                &&& m.wf()
                &&& m@ == spec_frequencies(text@, case)
                &&& m.total() == text@.len()
                &&& fold_ok(text@, case)
            },
            Err(e) => {
                &&& e == CountError::UnsupportedFold
                &&& !fold_ok(text@, case)
            },
        },
{
    let threads = detected_cpu_count();
    character_frequencies_with_n_threads_w_case(text, threads, case)
}

/// Counts character frequencies with one worker per available CPU under
/// the default mode, ASCII-only case-insensitive.
pub fn character_frequencies(text: &str) -> (r: FrequencyMap)
    ensures
        r.wf(),
        r@ == spec_frequencies(text@, CaseSense::InsensitiveASCIIOnly),
        r.total() == text@.len(),
{
    let threads = detected_cpu_count();
    character_frequencies_with_n_threads(text, threads)
}

} // verus!
