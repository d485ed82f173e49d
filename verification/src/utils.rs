//! Approximate lookup of a task by name, scored by an outside fuzzy
//! matcher.

use vstd::prelude::*;

use crate::task::forest_of;
use crate::task::Task;
use crate::task::TaskModel;

verus! {

/// The score that fuzzy_matcher's `SkimMatcherV2`, in its default
/// configuration, assigns to `choice` against `pattern`; `None` when the
/// pattern does not match at all.
pub uninterp spec fn skim_score(choice: Seq<char>, pattern: Seq<char>) -> Option<i64>;

/// Relies on fuzzy_matcher's `SkimMatcherV2::fuzzy_match`, called on a
/// default-configured matcher, so that the score is a function of the choice
/// and pattern strings alone.
#[verifier::external_body]
fn fuzzy_match_score(choice: &str, pattern: &str) -> (r: Option<i64>)
    ensures
        r == skim_score(choice@, pattern@),
{
    let matcher = fuzzy_matcher::skim::SkimMatcherV2::default();
    fuzzy_matcher::FuzzyMatcher::fuzzy_match(&matcher, choice, pattern)
}

/// The greatest score any of the first `n` choices reaches, and zero when
/// none scores; only scores above this floor can win.
pub open spec fn best_score(choices: Seq<TaskModel>, pattern: Seq<char>, n: int) -> i64
    decreases n,
{
    if n <= 0 {
        0
    } else {
        let prev = best_score(choices, pattern, n - 1);
        match skim_score(choices[n - 1].value, pattern) {
            Some(sc) => if sc > prev {
                sc
            } else {
                prev
            },
            None => prev,
        }
    }
}

/// The choice holding the strictly highest score among the first `n`, if
/// any scores above zero; the first seen wins ties.
pub open spec fn best_match(choices: Seq<TaskModel>, pattern: Seq<char>, n: int) -> Option<int>
    decreases n,
{
    if n <= 0 {
        None
    } else {
        let prev = best_match(choices, pattern, n - 1);
        match skim_score(choices[n - 1].value, pattern) {
            Some(sc) => if sc > best_score(choices, pattern, n - 1) {
                Some(n - 1)
            } else {
                prev
            },
            None => prev,
        }
    }
}

/// The task whose value scores strictly highest against `pattern`, the
/// first one on ties; `None` when no task scores above the zero floor.
pub fn find_matching_task<'a>(pattern: &str, choices: &'a Vec<Task>) -> (r: Option<&'a Task>)
    ensures
        (match best_match(forest_of(choices@), pattern@, choices@.len() as int) {
            None => r is None,
            Some(j) => r matches Some(t) && t@ == forest_of(choices@)[j],
        }),
{
    let ghost f = forest_of(choices@);
    let mut res: Option<&Task> = None;
    let mut best: i64 = 0;
    let n = choices.len();
    let mut i: usize = 0;
    while i < n
        invariant
            f == forest_of(choices@),
            n == choices@.len(),
            0 <= i <= n,
            best == best_score(f, pattern@, i as int),
            (match best_match(f, pattern@, i as int) {
                None => res is None,
                Some(j) => res matches Some(t) && t@ == f[j],
            }),
        decreases n - i,
    {
        let score = fuzzy_match_score(choices[i].value.as_str(), pattern);
        match score {
            Some(sc) => {
                if sc > best {
                    res = Some(&choices[i]);
                    best = sc;
                }
            },
            None => {},
        }
        i += 1;
    }
    res
}

} // verus!
