//! Labels used when reporting check pass rates.

use vstd::prelude::*;

use crate::eval::judge::CheckOutcome;
use crate::eval::outcome::{check_passed, passed_spec, Outcome};
use crate::logic::strseq::{sorted_set, sorted_set_of};
use crate::text::{join, join_strings};
use crate::tree::strings_view;

verus! {

/// The label a check is reported under.
pub open spec fn check_label(c: CheckOutcome) -> Seq<char> {
    match c {
        CheckOutcome::FileExists { path, .. } => "file_exists("@ + path@ + ")"@,
        CheckOutcome::CommandSucceeds { cmd, .. } => "command_succeeds("@ + join(strings_view(cmd@), " "@) + ")"@,
        CheckOutcome::RunnerCompleted { .. } => "runner_completed"@,
    }
}

/// `file_exists(<path>)`, `command_succeeds(<cmd ...>)` or `runner_completed`.
pub fn label_for_check(check: &CheckOutcome) -> (r: String)
    ensures
        r@ == check_label(*check),
{
    match check {
        CheckOutcome::FileExists { path, .. } => {
            let mut s = String::from_str("file_exists(");
            s.append(path.as_str());
            s.append(")");
            s
        },
        CheckOutcome::CommandSucceeds { cmd, .. } => {
            let mut s = String::from_str("command_succeeds(");
            s.append(join_strings(cmd, " ").as_str());
            s.append(")");
            s
        },
        CheckOutcome::RunnerCompleted { .. } => String::from_str("runner_completed"),
    }
}

/// How many checks of `cs` are reported under `label`.
pub open spec fn label_total(cs: Seq<CheckOutcome>, label: Seq<char>) -> nat
    decreases cs.len(),
{
    if cs.len() == 0 {
        0
    } else {
        label_total(cs.drop_last(), label) + (if check_label(cs.last()) == label { 1nat } else { 0nat })
    }
}

/// How many checks of `cs` reported under `label` passed.
pub open spec fn label_passed(cs: Seq<CheckOutcome>, label: Seq<char>) -> nat
    decreases cs.len(),
{
    if cs.len() == 0 {
        0
    } else {
        label_passed(cs.drop_last(), label) + (if check_label(cs.last()) == label && passed_spec(cs.last()) {
            1nat
        } else {
            0nat
        })
    }
}

/// The labels of `cs`, in order.
pub open spec fn check_labels(cs: Seq<CheckOutcome>) -> Seq<Seq<char>> {
    cs.map_values(|c: CheckOutcome| check_label(c))
}

proof fn lemma_label_counts_bounded(cs: Seq<CheckOutcome>, label: Seq<char>)
    ensures
        label_passed(cs, label) <= label_total(cs, label) <= cs.len(),
    decreases cs.len(),
{
    if cs.len() > 0 {
        lemma_label_counts_bounded(cs.drop_last(), label);
    }
}

/// Pass counts per check label over the checks of every run: each label
/// once, in `String` order, with how many of its checks passed and how many
/// there were.
pub fn tally_checks(checks: &Vec<CheckOutcome>) -> (r: Vec<(String, u64, u64)>)
    requires
        checks@.len() < u64::MAX,
    ensures
        r@.map_values(|t: (String, u64, u64)| t.0@) == sorted_set(check_labels(checks@)),
        forall|i: int| 0 <= i < r@.len() ==> #[trigger] r@[i].1 == label_passed(checks@, r@[i].0@) && r@[i].2 == label_total(
            checks@,
            r@[i].0@,
        ),
{
    let mut labels: Vec<String> = Vec::new();
    let mut i: usize = 0;
    while i < checks.len()
        invariant
            i <= checks@.len(),
            strings_view(labels@) == check_labels(checks@.take(i as int)),
        decreases checks@.len() - i,
    {
        labels.push(label_for_check(&checks[i]));
        proof {
            assert(check_labels(checks@.take(i + 1)) =~= check_labels(checks@.take(i as int)).push(check_label(checks@[i as int])));
        }
        i = i + 1;
    }
    proof {
        assert(checks@.take(checks@.len() as int) =~= checks@);
    }
    let keys = sorted_set_of(&labels);
    let mut out: Vec<(String, u64, u64)> = Vec::new();
    let mut k: usize = 0;
    while k < keys.len()
        invariant
            k <= keys@.len(),
            checks@.len() < u64::MAX,
            strings_view(keys@) == sorted_set(check_labels(checks@)),
            out@.len() == k,
            forall|a: int| 0 <= a < k ==> #[trigger] out@[a].0@ == keys@[a]@ && out@[a].1 == label_passed(checks@, keys@[a]@)
                && out@[a].2 == label_total(checks@, keys@[a]@),
        decreases keys@.len() - k,
    {
        let key = &keys[k];
        let mut passed: u64 = 0;
        let mut total: u64 = 0;
        let mut j: usize = 0;
        while j < checks.len()
            invariant
                j <= checks@.len(),
                checks@.len() < u64::MAX,
                passed == label_passed(checks@.take(j as int), key@),
                total == label_total(checks@.take(j as int), key@),
            decreases checks@.len() - j,
        {
            proof {
                lemma_label_counts_bounded(checks@.take(j as int), key@);
                assert(checks@.take(j + 1).drop_last() =~= checks@.take(j as int));
                assert(checks@.take(j + 1).last() == checks@[j as int]);
            }
            let label = label_for_check(&checks[j]);
            if crate::text::str_eq(label.as_str(), key.as_str()) {
                total = total + 1;
                if check_passed(&checks[j]) {
                    passed = passed + 1;
                }
            }
            j = j + 1;
        }
        proof {
            assert(checks@.take(checks@.len() as int) =~= checks@);
        }
        let ghost before = out@;
        let name = key.clone();
        out.push((name, passed, total));
        proof {
            assert forall|a: int| 0 <= a < k + 1 implies #[trigger] out@[a].0@ == keys@[a]@ && out@[a].1 == label_passed(
                checks@,
                keys@[a]@,
            ) && out@[a].2 == label_total(checks@, keys@[a]@) by {
                if a < k {
                    assert(out@[a] == before[a]);
                }
            }
        }
        k = k + 1;
    }
    proof {
        assert(out@.map_values(|t: (String, u64, u64)| t.0@) =~= strings_view(keys@));
    }
    out
}

/// How many outcomes are successes, failures, stuck and errors; a missing
/// outcome counts as an error.
pub open spec fn outcome_counts(os: Seq<Option<Outcome>>) -> (nat, nat, nat, nat)
    decreases os.len(),
{
    if os.len() == 0 {
        (0, 0, 0, 0)
    } else {
        let (s, f, st, e) = outcome_counts(os.drop_last());
        match os.last() {
            Some(Outcome::Success) => (s + 1, f, st, e),
            Some(Outcome::Fail) => (s, f + 1, st, e),
            Some(Outcome::Stuck) => (s, f, st + 1, e),
            _ => (s, f, st, e + 1),
        }
    }
}

proof fn lemma_outcome_counts_sum(os: Seq<Option<Outcome>>)
    ensures
        outcome_counts(os).0 + outcome_counts(os).1 + outcome_counts(os).2 + outcome_counts(os).3 == os.len(),
    decreases os.len(),
{
    if os.len() > 0 {
        lemma_outcome_counts_sum(os.drop_last());
    }
}

/// Counts the outcomes of recorded runs.
pub fn count_outcomes(outcomes: &Vec<Option<Outcome>>) -> (r: (u64, u64, u64, u64))
    requires
        outcomes@.len() < u64::MAX,
    ensures
        r.0 == outcome_counts(outcomes@).0,
        r.1 == outcome_counts(outcomes@).1,
        r.2 == outcome_counts(outcomes@).2,
        r.3 == outcome_counts(outcomes@).3,
{
    let mut s: u64 = 0;
    let mut f: u64 = 0;
    let mut st: u64 = 0;
    let mut e: u64 = 0;
    let mut i: usize = 0;
    while i < outcomes.len()
        invariant
            i <= outcomes@.len(),
            outcomes@.len() < u64::MAX,
            (s as nat, f as nat, st as nat, e as nat) == outcome_counts(outcomes@.take(i as int)),
        decreases outcomes@.len() - i,
    {
        proof {
            lemma_outcome_counts_sum(outcomes@.take(i as int));
            assert(outcomes@.take(i + 1).drop_last() =~= outcomes@.take(i as int));
            assert(outcomes@.take(i + 1).last() == outcomes@[i as int]);
        }
        match outcomes[i] {
            Some(Outcome::Success) => s = s + 1,
            Some(Outcome::Fail) => f = f + 1,
            Some(Outcome::Stuck) => st = st + 1,
            _ => e = e + 1,
        }
        i = i + 1;
    }
    proof {
        assert(outcomes@.take(outcomes@.len() as int) =~= outcomes@);
    }
    (s, f, st, e)
}

} // verus!
