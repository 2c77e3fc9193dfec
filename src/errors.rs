use vstd::prelude::*;
use vstd::string::{StrSliceExecFns, StringExecFns};

use crate::ratchet::{
    EvalResult, RatchetViolation, Violation, ViolationView, GATEKEEPER_TEST_NAME, violations_view,
};
use crate::status::{EntryView, StatusFile, TestState, record_names, sorted_names};
use crate::text::{decimal, decimal_string, strings_view};

verus! {

pub const SEPARATOR: &'static str = "───────────────────────────────────────────────────────────────";

pub const TDD_INTRO: &'static str = "tdd-ratchet: this project uses tdd-ratchet to enforce strict TDD.\n\n  New tests must be committed in a failing state first. The implementation\n  that makes them pass must be in a separate commit. Tests that fail on\n  creation are expected — tdd-ratchet considers that a successful run.\n";

pub const NEW_PASSED_HEADING: &'static str = "  New test passed without failing first:\n";

pub const SKIPPED_HEADING: &'static str = "  Test skipped the pending state in git history:\n";

pub const MARK: &'static str = "    ✗ ";

pub const PENDING_MARK: &'static str = "  ○ ";

pub const REMOVE_HINT: &'static str = "  If you removed it intentionally, also remove it from .test-status.json.\n";

pub const GATEKEEPER_HELP_START: &'static str = "tdd-ratchet: no gatekeeper test found.\n\n  tdd-ratchet requires a test named `";

pub const GATEKEEPER_HELP_MIDDLE: &'static str = "` that fails\n  when TDD_RATCHET is not set. This prevents running tests outside the\n  ratchet. Add this to your tests:\n\n    #[test]\n    fn ";

pub const GATEKEEPER_HELP_END: &'static str = "() {\n        if std::env::var(\"TDD_RATCHET\").is_err() {\n            panic!(\"Run tdd-ratchet instead of cargo test.\");\n        }\n    }\n";

/// One line per item: `mark`, the item, a line break.
pub open spec fn bullets(mark: Seq<char>, items: Seq<Seq<char>>) -> Seq<char>
    decreases items.len(),
{
    if items.len() == 0 {
        Seq::empty()
    } else {
        bullets(mark, items.drop_last()) + mark + items.last() + "\n"@
    }
}

/// The first eight characters of a commit identifier, or all of a shorter one.
pub open spec fn short_commit(c: Seq<char>) -> Seq<char> {
    if c.len() < 8 {
        c
    } else {
        c.subrange(0, 8)
    }
}

/// Names of the tests that passed on first appearance, in order.
pub open spec fn new_passed(vs: Seq<ViolationView>) -> Seq<Seq<char>>
    decreases vs.len(),
{
    if vs.len() == 0 {
        Seq::empty()
    } else {
        let r = new_passed(vs.drop_last());
        match vs.last() {
            ViolationView::NewTestPassed(t) => r.push(t),
            _ => r,
        }
    }
}

/// Each test that skipped the pending state, with its short commit.
pub open spec fn skipped_items(vs: Seq<ViolationView>) -> Seq<Seq<char>>
    decreases vs.len(),
{
    if vs.len() == 0 {
        Seq::empty()
    } else {
        let r = skipped_items(vs.drop_last());
        match vs.last() {
            ViolationView::SkippedPending(t, c) => r.push(
                t + " (commit "@ + short_commit(c) + ")"@,
            ),
            _ => r,
        }
    }
}

/// Names of the tests that disappeared, in order.
pub open spec fn disappeared_names(vs: Seq<ViolationView>) -> Seq<Seq<char>>
    decreases vs.len(),
{
    if vs.len() == 0 {
        Seq::empty()
    } else {
        let r = disappeared_names(vs.drop_last());
        match vs.last() {
            ViolationView::TestDisappeared(t) => r.push(t),
            _ => r,
        }
    }
}

pub open spec fn regression_count(vs: Seq<ViolationView>) -> nat
    decreases vs.len(),
{
    if vs.len() == 0 {
        0
    } else {
        regression_count(vs.drop_last()) + if vs.last() is Regression {
            1nat
        } else {
            0nat
        }
    }
}

pub open spec fn missing_gatekeeper(vs: Seq<ViolationView>) -> bool {
    exists|i: int| 0 <= i < vs.len() && #[trigger] vs[i] is MissingGatekeeper
}

/// How many of `names` are passing in `tests`.
pub open spec fn passing_count(names: Seq<Seq<char>>, tests: Map<Seq<char>, EntryView>) -> nat
    decreases names.len(),
{
    if names.len() == 0 {
        0
    } else {
        passing_count(names.drop_last(), tests) + if tests[names.last()].state
            == TestState::Passing {
            1nat
        } else {
            0nat
        }
    }
}

/// Those of `names` that are pending in `tests`, in order.
pub open spec fn pending_names(names: Seq<Seq<char>>, tests: Map<Seq<char>, EntryView>) -> Seq<
    Seq<char>,
>
    decreases names.len(),
{
    if names.len() == 0 {
        Seq::empty()
    } else {
        let r = pending_names(names.drop_last(), tests);
        if tests[names.last()].state == TestState::Pending {
            r.push(names.last())
        } else {
            r
        }
    }
}

/// The section on tests that did not fail first.
pub open spec fn tdd_section(np: Seq<Seq<char>>, sp: Seq<Seq<char>>) -> Seq<char> {
    if np.len() == 0 && sp.len() == 0 {
        Seq::empty()
    } else {
        SEPARATOR@ + "\n"@ + TDD_INTRO@ + (if np.len() > 0 {
            "\n"@ + NEW_PASSED_HEADING@ + bullets(MARK@, np)
        } else {
            Seq::empty()
        }) + (if sp.len() > 0 {
            "\n"@ + SKIPPED_HEADING@ + bullets(MARK@, sp)
        } else {
            Seq::empty()
        }) + SEPARATOR@ + "\n"@
    }
}

/// The section on tracked tests missing from the run.
pub open spec fn disappeared_section(dis: Seq<Seq<char>>) -> Seq<char> {
    if dis.len() == 0 {
        Seq::empty()
    } else {
        SEPARATOR@ + "\n"@ + "tdd-ratchet: "@ + decimal(dis.len()) + " test in .test-status.json "@
            + (if dis.len() == 1 {
            "was"@
        } else {
            "were"@
        }) + " not found in the test run.\n"@ + REMOVE_HINT@ + bullets(MARK@, dis) + SEPARATOR@
            + "\n"@
    }
}

/// The section that explains how to add the gatekeeper test.
pub open spec fn gatekeeper_section(missing: bool) -> Seq<char> {
    if missing {
        SEPARATOR@ + "\n"@ + GATEKEEPER_HELP_START@ + GATEKEEPER_TEST_NAME@ + GATEKEEPER_HELP_MIDDLE@
            + GATEKEEPER_TEST_NAME@ + GATEKEEPER_HELP_END@ + SEPARATOR@ + "\n"@
    } else {
        Seq::empty()
    }
}

/// The one-line mention of regressions.
pub open spec fn regression_line(count: nat) -> Seq<char> {
    if count == 0 {
        Seq::empty()
    } else {
        "tdd-ratchet: "@ + decimal(count) + " test"@ + (if count == 1 {
            Seq::empty()
        } else {
            "s"@
        }) + " failing unexpectedly\n"@
    }
}

/// The success summary, with the pending tests listed.
pub open spec fn ok_section(passing: nat, pending: Seq<Seq<char>>) -> Seq<char> {
    if pending.len() == 0 {
        "tdd-ratchet: ok ("@ + decimal(passing) + " passing)\n"@
    } else {
        "tdd-ratchet: ok ("@ + decimal(passing) + " passing, "@ + decimal(pending.len())
            + " pending)\n"@ + bullets(PENDING_MARK@, pending)
    }
}

/// The full report of an evaluation with violations `vs` and an updated
/// ledger with tests `tests`, listed in the order `names`.
pub open spec fn report_text(
    vs: Seq<ViolationView>,
    names: Seq<Seq<char>>,
    tests: Map<Seq<char>, EntryView>,
) -> Seq<char> {
    tdd_section(new_passed(vs), skipped_items(vs)) + disappeared_section(disappeared_names(vs))
        + gatekeeper_section(missing_gatekeeper(vs)) + regression_line(regression_count(vs)) + (
    if vs.len() == 0 {
        ok_section(passing_count(names, tests), pending_names(names, tests))
    } else {
        Seq::empty()
    })
}

/// Appends one line per item: `mark`, the item, a line break.
fn push_bullets(out: &mut String, mark: &str, items: &Vec<String>)
    ensures
        final(out)@ == old(out)@ + bullets(mark@, strings_view(items@)),
{
    let ghost start = out@;
    let ghost iv = strings_view(items@);
    assert(iv.take(0) =~= Seq::<Seq<char>>::empty());
    assert(start + Seq::<char>::empty() =~= start);
    let mut i: usize = 0;
    while i < items.len()
        invariant
            i <= items@.len(),
            iv == strings_view(items@),
            out@ == start + bullets(mark@, iv.take(i as int)),
        decreases items@.len() - i,
    {
        assert(iv.take(i + 1).drop_last() =~= iv.take(i as int));
        assert(iv.take(i + 1).last() == items@[i as int]@);
        let ghost before = out@;
        out.append(mark);
        out.append(items[i].as_str());
        out.append("\n");
        assert(out@ =~= start + bullets(mark@, iv.take(i + 1)));
        i = i + 1;
    }
    assert(iv.take(items@.len() as int) =~= iv);
}

/// The first eight characters of `commit`, or all of a shorter one.
fn short_commit_of(commit: &String) -> (r: String)
    ensures
        r@ == short_commit(commit@),
{
    let n = commit.as_str().unicode_len();
    if n < 8 {
        commit.clone()
    } else {
        let r = commit.as_str().substring_char(0, 8).to_owned();
        r
    }
}

fn tdd_section_of(np: &Vec<String>, sp: &Vec<String>) -> (r: String)
    ensures
        r@ == tdd_section(strings_view(np@), strings_view(sp@)),
{
    let mut out = String::new();
    if np.len() == 0 && sp.len() == 0 {
        assert(out@ =~= Seq::<char>::empty());
        return out;
    }
    out.append(SEPARATOR);
    out.append("\n");
    out.append(TDD_INTRO);
    let ghost a = out@;
    if np.len() > 0 {
        out.append("\n");
        out.append(NEW_PASSED_HEADING);
        push_bullets(&mut out, MARK, np);
        assert(out@ =~= a + ("\n"@ + NEW_PASSED_HEADING@ + bullets(MARK@, strings_view(np@))));
    } else {
        assert(out@ =~= a + Seq::<char>::empty());
    }
    let ghost b = out@;
    if sp.len() > 0 {
        out.append("\n");
        out.append(SKIPPED_HEADING);
        push_bullets(&mut out, MARK, sp);
        assert(out@ =~= b + ("\n"@ + SKIPPED_HEADING@ + bullets(MARK@, strings_view(sp@))));
    } else {
        assert(out@ =~= b + Seq::<char>::empty());
    }
    out.append(SEPARATOR);
    out.append("\n");
    assert(out@ =~= tdd_section(strings_view(np@), strings_view(sp@)));
    out
}

fn disappeared_section_of(dis: &Vec<String>) -> (r: String)
    ensures
        r@ == disappeared_section(strings_view(dis@)),
{
    let mut out = String::new();
    if dis.len() == 0 {
        assert(out@ =~= Seq::<char>::empty());
        return out;
    }
    out.append(SEPARATOR);
    out.append("\n");
    out.append("tdd-ratchet: ");
    let count = decimal_string(dis.len());
    out.append(count.as_str());
    out.append(" test in .test-status.json ");
    if dis.len() == 1 {
        out.append("was");
    } else {
        out.append("were");
    }
    out.append(" not found in the test run.\n");
    out.append(REMOVE_HINT);
    push_bullets(&mut out, MARK, dis);
    out.append(SEPARATOR);
    out.append("\n");
    assert(out@ =~= disappeared_section(strings_view(dis@)));
    out
}

fn gatekeeper_section_of(missing: bool) -> (r: String)
    ensures
        r@ == gatekeeper_section(missing),
{
    let mut out = String::new();
    if !missing {
        assert(out@ =~= Seq::<char>::empty());
        return out;
    }
    out.append(SEPARATOR);
    out.append("\n");
    out.append(GATEKEEPER_HELP_START);
    out.append(GATEKEEPER_TEST_NAME);
    out.append(GATEKEEPER_HELP_MIDDLE);
    out.append(GATEKEEPER_TEST_NAME);
    out.append(GATEKEEPER_HELP_END);
    out.append(SEPARATOR);
    out.append("\n");
    assert(out@ =~= gatekeeper_section(missing));
    out
}

fn regression_line_of(count: usize) -> (r: String)
    ensures
        r@ == regression_line(count as nat),
{
    let mut out = String::new();
    if count == 0 {
        assert(out@ =~= Seq::<char>::empty());
        return out;
    }
    out.append("tdd-ratchet: ");
    let digits = decimal_string(count);
    out.append(digits.as_str());
    out.append(" test");
    if count != 1 {
        out.append("s");
    }
    out.append(" failing unexpectedly\n");
    assert(out@ =~= regression_line(count as nat));
    out
}

fn ok_section_of(passing: usize, pending: &Vec<String>) -> (r: String)
    ensures
        r@ == ok_section(passing as nat, strings_view(pending@)),
{
    let mut out = String::new();
    out.append("tdd-ratchet: ok (");
    let digits = decimal_string(passing);
    out.append(digits.as_str());
    if pending.len() == 0 {
        out.append(" passing)\n");
    } else {
        out.append(" passing, ");
        let n = decimal_string(pending.len());
        out.append(n.as_str());
        out.append(" pending)\n");
        push_bullets(&mut out, PENDING_MARK, pending);
    }
    assert(out@ =~= ok_section(passing as nat, strings_view(pending@)));
    out
}

/// How many tests of the ledger are passing, and the pending ones in ledger
/// order.
pub fn ledger_summary(ledger: &StatusFile) -> (r: (usize, Vec<String>))
    ensures
        ledger.tests.names() == sorted_names(ledger@.tests.dom()),
        r.0 == passing_count(ledger.tests.names(), ledger@.tests),
        strings_view(r.1@) == pending_names(ledger.tests.names(), ledger@.tests),
{
    let recs = ledger.tests.records();
    proof {
        ledger.tests.lemma_view();
    }
    let ghost names = ledger.tests.names();
    let ghost tests = ledger@.tests;
    let mut passing: usize = 0;
    let mut pending: Vec<String> = Vec::new();
    assert(names.take(0) =~= Seq::<Seq<char>>::empty());
    assert(strings_view(pending@) =~= Seq::<Seq<char>>::empty());
    let mut j: usize = 0;
    while j < recs.len()
        invariant
            j <= recs@.len(),
            names == record_names(recs@),
            forall|k: int| 0 <= k < names.len() ==> #[trigger] tests[names[k]] == recs@[k].entry@,
            passing == passing_count(names.take(j as int), tests),
            passing <= j,
            strings_view(pending@) == pending_names(names.take(j as int), tests),
        decreases recs@.len() - j,
    {
        assert(names.take(j + 1).drop_last() =~= names.take(j as int));
        assert(names.take(j + 1).last() == names[j as int]);
        assert(names[j as int] == recs@[j as int].name@);
        let ghost p0 = pending@;
        match recs[j].entry.state() {
            TestState::Passing => {
                passing = passing + 1;
            },
            TestState::Pending => {
                pending.push(recs[j].name.clone());
                assert(strings_view(pending@) =~= strings_view(p0).push(names[j as int]));
            },
        }
        j = j + 1;
    }
    assert(names.take(recs@.len() as int) =~= names);
    (passing, pending)
}

/// The report of an evaluation: the tests that did not fail first, the
/// disappeared tests, the gatekeeper instructions, a mention of regressions,
/// and, when nothing was found, the counts of passing and pending tests.
pub fn format_report(result: &EvalResult) -> (r: String)
    ensures
        result.updated.tests.names() == sorted_names(result.updated@.tests.dom()),
        r@ == report_text(
            violations_view(result.violations@),
            result.updated.tests.names(),
            result.updated@.tests,
        ),
{
    let vs = &result.violations;
    let ghost vv = violations_view(vs@);
    let mut np: Vec<String> = Vec::new();
    let mut sp: Vec<String> = Vec::new();
    let mut dis: Vec<String> = Vec::new();
    let mut regressions: usize = 0;
    let mut missing = false;
    assert(vv.take(0) =~= Seq::<ViolationView>::empty());
    assert(strings_view(np@) =~= Seq::<Seq<char>>::empty());
    let mut i: usize = 0;
    while i < vs.len()
        invariant
            i <= vs@.len(),
            vv == violations_view(vs@),
            strings_view(np@) == new_passed(vv.take(i as int)),
            strings_view(sp@) == skipped_items(vv.take(i as int)),
            strings_view(dis@) == disappeared_names(vv.take(i as int)),
            regressions == regression_count(vv.take(i as int)),
            regressions <= i,
            missing == missing_gatekeeper(vv.take(i as int)),
        decreases vs@.len() - i,
    {
        let ghost pre = vv.take(i as int);
        let ghost cur = vv.take(i + 1);
        assert(cur.drop_last() =~= pre);
        assert(cur.last() == vs@[i as int]@);
        let ghost np0 = np@;
        let ghost sp0 = sp@;
        let ghost dis0 = dis@;
        match &vs[i] {
            Violation::NewTestPassed { test } => {
                np.push(test.clone());
                assert(strings_view(np@) =~= strings_view(np0).push(test@));
            },
            Violation::SkippedPending { test, commit } => {
                let mut item = test.clone();
                item.append(" (commit ");
                let short = short_commit_of(commit);
                item.append(short.as_str());
                item.append(")");
                sp.push(item);
                assert(strings_view(sp@) =~= strings_view(sp0).push(
                    test@ + " (commit "@ + short_commit(commit@) + ")"@,
                ));
            },
            Violation::TestDisappeared { test } => {
                dis.push(test.clone());
                assert(strings_view(dis@) =~= strings_view(dis0).push(test@));
            },
            Violation::Regression { .. } => {
                regressions = regressions + 1;
            },
            Violation::MissingGatekeeper => {
                missing = true;
            },
        }
        assert(strings_view(np@) == new_passed(cur));
        assert(strings_view(sp@) == skipped_items(cur));
        assert(strings_view(dis@) == disappeared_names(cur));
        assert(missing == missing_gatekeeper(cur)) by {
            if missing_gatekeeper(pre) {
                let k = choose|k: int| 0 <= k < pre.len() && #[trigger] pre[k] is MissingGatekeeper;
                assert(cur[k] == pre[k]);
            }
            if missing_gatekeeper(cur) && !(cur[i as int] is MissingGatekeeper) {
                let k = choose|k: int| 0 <= k < cur.len() && #[trigger] cur[k] is MissingGatekeeper;
                assert(pre[k] == cur[k]);
            }
            if cur[i as int] is MissingGatekeeper {
                assert(cur[i as int] is MissingGatekeeper);
            }
        }
        i = i + 1;
    }
    assert(vv.take(vs@.len() as int) =~= vv);
    let (passing, pending) = ledger_summary(&result.updated);
    proof {
        use_type_invariant(&result.updated.tests);
        result.updated.tests.lemma_view();
    }
    let mut out = tdd_section_of(&np, &sp);
    let section = disappeared_section_of(&dis);
    out.append(section.as_str());
    let section = gatekeeper_section_of(missing);
    out.append(section.as_str());
    let section = regression_line_of(regressions);
    out.append(section.as_str());
    if vs.len() == 0 {
        let section = ok_section_of(passing, &pending);
        out.append(section.as_str());
    } else {
        assert(out@ + Seq::<char>::empty() =~= out@);
    }
    out
}

/// The message for one violation of the per-run rules: what happened to the
/// test and what to do about it.
pub open spec fn violation_message(v: ViolationView) -> Seq<char> {
    match v {
        ViolationView::NewTestPassed(t) => "tdd-ratchet: new test `"@ + t
            + "` passed on first appearance.\nNew tests must fail first (pending state) before they can pass.\nWrite the test so it fails, commit, then implement to make it pass."@,
        ViolationView::Regression(t) => "tdd-ratchet: test `"@ + t
            + "` was passing but now fails (regression).\nA test marked as passing must continue to pass.\nFix the regression or, if the test is obsolete, remove it from both code and .test-status.json."@,
        ViolationView::TestDisappeared(t) => "tdd-ratchet: tracked test `"@ + t
            + "` is missing from the test run.\nA test in .test-status.json disappeared without being removed from the status file.\nIf you removed the test intentionally, also remove it from .test-status.json in the same commit."@,
        _ => Seq::empty(),
    }
}

/// Formats a violation of the per-run rules for the user.
pub fn format_violation(violation: &RatchetViolation) -> (r: String)
    ensures
        r@ == violation_message(violation@),
{
    let mut out = String::new();
    match violation {
        RatchetViolation::NewTestPassed { test } => {
            out.append("tdd-ratchet: new test `");
            out.append(test.as_str());
            out.append(
                "` passed on first appearance.\nNew tests must fail first (pending state) before they can pass.\nWrite the test so it fails, commit, then implement to make it pass.",
            );
        },
        RatchetViolation::Regression { test } => {
            out.append("tdd-ratchet: test `");
            out.append(test.as_str());
            out.append(
                "` was passing but now fails (regression).\nA test marked as passing must continue to pass.\nFix the regression or, if the test is obsolete, remove it from both code and .test-status.json.",
            );
        },
        RatchetViolation::TestDisappeared { test } => {
            out.append("tdd-ratchet: tracked test `");
            out.append(test.as_str());
            out.append(
                "` is missing from the test run.\nA test in .test-status.json disappeared without being removed from the status file.\nIf you removed the test intentionally, also remove it from .test-status.json in the same commit.",
            );
        },
    }
    assert(out@ =~= violation_message(violation@));
    out
}

} // verus!
