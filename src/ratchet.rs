use vstd::prelude::*;

use crate::history::{
    check_history_snapshots, history_violations_view, lemma_concat_contains, lemma_push_contains,
    skipped_pending, snapshots_view, HistorySnapshot, HistoryViolation, SnapshotView,
};
use crate::runner::{results_view, ResultView, TestOutcome, TestResult};
use crate::status::{EntryView, LedgerView, StatusFile, TestEntry, TestMap, TestState, record_names, sorted_names};
use crate::text::{ends_with, str_ends_with};

verus! {

/// The reserved name of the gatekeeper test. It may pass on its first
/// appearance, since only a run through the ratchet lets it pass at all.
pub const GATEKEEPER_TEST_NAME: &'static str = "tdd_ratchet_gatekeeper";

/// Whether a reported test name denotes the gatekeeper test.
pub open spec fn is_gatekeeper(name: Seq<char>) -> bool {
    ends_with(name, GATEKEEPER_TEST_NAME@)
}

/// Whether a reported test name denotes the gatekeeper test: it ends with
/// the reserved name.
pub fn is_gatekeeper_name(name: &str) -> (r: bool)
    ensures
        r == is_gatekeeper(name@),
{
    str_ends_with(name, GATEKEEPER_TEST_NAME)
}

/// What one live outcome does to a tracked test.
#[derive(Clone, Copy, Debug, PartialEq, Eq, Structural)]
pub enum Transition {
    /// The ledger keeps what it had.
    Unchanged,
    /// The ledger records the test in this state.
    Record(TestState),
    /// A test that nobody saw fail has passed.
    NewTestPassed,
    /// A test recorded as passing has failed.
    Regression,
}

/// The transition table: the prior state of a test (absent if untracked), its
/// live outcome, and whether it is the gatekeeper decide what happens to it.
pub open spec fn transition(prior: Option<TestState>, outcome: TestOutcome, gatekeeper: bool) -> Transition {
    match (prior, outcome) {
        (None, TestOutcome::Failed) => Transition::Record(TestState::Pending),
        (None, TestOutcome::Passed) => if gatekeeper {
            Transition::Record(TestState::Passing)
        } else {
            Transition::NewTestPassed
        },
        (Some(TestState::Pending), TestOutcome::Passed) => Transition::Record(TestState::Passing),
        (Some(TestState::Passing), TestOutcome::Failed) => Transition::Regression,
        _ => Transition::Unchanged,
    }
}

/// Looks up the transition table.
pub fn decide(prior: Option<TestState>, outcome: TestOutcome, gatekeeper: bool) -> (r: Transition)
    ensures
        r == transition(prior, outcome, gatekeeper),
{
    match (prior, outcome) {
        (None, TestOutcome::Failed) => Transition::Record(TestState::Pending),
        (None, TestOutcome::Passed) => if gatekeeper {
            Transition::Record(TestState::Passing)
        } else {
            Transition::NewTestPassed
        },
        (Some(TestState::Pending), TestOutcome::Passed) => Transition::Record(TestState::Passing),
        (Some(TestState::Passing), TestOutcome::Failed) => Transition::Regression,
        _ => Transition::Unchanged,
    }
}

/// The state a ledger records for `name`, if it tracks it.
pub open spec fn prior_state(tests: Map<Seq<char>, EntryView>, name: Seq<char>) -> Option<TestState> {
    if tests.contains_key(name) {
        Some(tests[name].state)
    } else {
        None
    }
}

/// What a live outcome does, looked up against the prior ledger.
pub open spec fn step(tests: Map<Seq<char>, EntryView>, r: ResultView) -> Transition {
    transition(prior_state(tests, r.name), r.outcome, is_gatekeeper(r.name))
}

/// The ledger after every outcome's transition, each looked up against the
/// prior ledger `tests`.
pub open spec fn applied(tests: Map<Seq<char>, EntryView>, results: Seq<ResultView>) -> Map<
    Seq<char>,
    EntryView,
>
    decreases results.len(),
{
    if results.len() == 0 {
        tests
    } else {
        let m = applied(tests, results.drop_last());
        let r = results.last();
        match step(tests, r) {
            Transition::Record(s) => m.insert(r.name, EntryView { state: s, baseline: None }),
            _ => m,
        }
    }
}

/// A violation as names and commits seen as characters.
pub ghost enum ViolationView {
    NewTestPassed(Seq<char>),
    Regression(Seq<char>),
    TestDisappeared(Seq<char>),
    SkippedPending(Seq<char>, Seq<char>),
    MissingGatekeeper,
}

/// The violations that the outcomes' transitions raise, in outcome order.
pub open spec fn flagged(tests: Map<Seq<char>, EntryView>, results: Seq<ResultView>) -> Seq<
    ViolationView,
>
    decreases results.len(),
{
    if results.len() == 0 {
        Seq::empty()
    } else {
        let v = flagged(tests, results.drop_last());
        let r = results.last();
        match step(tests, r) {
            Transition::NewTestPassed => v.push(ViolationView::NewTestPassed(r.name)),
            Transition::Regression => v.push(ViolationView::Regression(r.name)),
            _ => v,
        }
    }
}

/// Whether some outcome of the run carries `name`.
pub open spec fn named_in(results: Seq<ResultView>, name: Seq<char>) -> bool {
    exists|i: int| 0 <= i < results.len() && #[trigger] results[i].name == name
}

/// One `TestDisappeared` for each tracked name, in ledger order, that no
/// outcome carries.
pub open spec fn disappeared(names: Seq<Seq<char>>, results: Seq<ResultView>) -> Seq<ViolationView>
    decreases names.len(),
{
    if names.len() == 0 {
        Seq::empty()
    } else {
        let v = disappeared(names.drop_last(), results);
        if named_in(results, names.last()) {
            v
        } else {
            v.push(ViolationView::TestDisappeared(names.last()))
        }
    }
}

/// A breach of the ratchet's per-run rules.
#[derive(Clone, Debug, PartialEq, Eq)]
pub enum RatchetViolation {
    /// A new test passed without being pending first.
    NewTestPassed { test: String },
    /// A passing test now fails.
    Regression { test: String },
    /// A tracked test is missing from the run.
    TestDisappeared { test: String },
}

impl View for RatchetViolation {
    type V = ViolationView;

    open spec fn view(&self) -> ViolationView {
        match self {
            RatchetViolation::NewTestPassed { test } => ViolationView::NewTestPassed(test@),
            RatchetViolation::Regression { test } => ViolationView::Regression(test@),
            RatchetViolation::TestDisappeared { test } => ViolationView::TestDisappeared(test@),
        }
    }
}

pub open spec fn ratchet_violations_view(v: Seq<RatchetViolation>) -> Seq<ViolationView> {
    v.map_values(|x: RatchetViolation| x@)
}

/// What the per-run rules found: their violations and the ledger with every
/// accepted transition applied.
#[derive(Debug)]
pub struct RatchetOutcome {
    pub violations: Vec<RatchetViolation>,
    pub updated: StatusFile,
}

/// Whether some outcome of `results` carries `name`.
fn outcome_named(results: &[TestResult], name: &String) -> (r: bool)
    ensures
        r == named_in(results_view(results@), name@),
{
    let ghost rv = results_view(results@);
    let mut i: usize = 0;
    while i < results.len()
        invariant
            i <= results@.len(),
            rv == results_view(results@),
            forall|j: int| 0 <= j < i ==> rv[j].name != name@,
        decreases results@.len() - i,
    {
        if results[i].name == *name {
            assert(rv[i as int].name == name@);
            return true;
        }
        i = i + 1;
    }
    false
}

/// Applies each outcome's transition to a copy of `status`, and appends to
/// `violations` the violations the transitions raise.
fn apply_results(
    status: &StatusFile,
    results: &[TestResult],
    violations: &mut Vec<RatchetViolation>,
) -> (updated: StatusFile)
    ensures
        updated@ == (LedgerView {
            tests: applied(status@.tests, results_view(results@)),
            baseline: status@.baseline,
        }),
        ratchet_violations_view(final(violations)@) == ratchet_violations_view(old(violations)@)
            + flagged(status@.tests, results_view(results@)),
{
    let mut updated = status.copy();
    let ghost rv = results_view(results@);
    let ghost v0 = ratchet_violations_view(violations@);
    let mut i: usize = 0;
    while i < results.len()
        invariant
            i <= results@.len(),
            rv == results_view(results@),
            updated@ == (LedgerView {
                tests: applied(status@.tests, rv.take(i as int)),
                baseline: status@.baseline,
            }),
            ratchet_violations_view(violations@) == v0 + flagged(status@.tests, rv.take(i as int)),
        decreases results@.len() - i,
    {
        let r = &results[i];
        assert(rv.take(i + 1).drop_last() =~= rv.take(i as int));
        assert(rv.take(i + 1).last() == r@);
        let prior = match status.tests.get(r.name.as_str()) {
            Some(e) => Some(e.state()),
            None => None,
        };
        let gatekeeper = is_gatekeeper_name(r.name.as_str());
        let ghost before = violations@;
        match decide(prior, r.outcome, gatekeeper) {
            Transition::Record(s) => {
                updated.tests.insert(r.name.clone(), TestEntry::Simple(s));
            },
            Transition::NewTestPassed => {
                violations.push(RatchetViolation::NewTestPassed { test: r.name.clone() });
                assert(ratchet_violations_view(violations@) =~= ratchet_violations_view(
                    before,
                ).push(ViolationView::NewTestPassed(r.name@)));
            },
            Transition::Regression => {
                violations.push(RatchetViolation::Regression { test: r.name.clone() });
                assert(ratchet_violations_view(violations@) =~= ratchet_violations_view(
                    before,
                ).push(ViolationView::Regression(r.name@)));
            },
            Transition::Unchanged => {},
        }
        i = i + 1;
    }
    assert(rv.take(results@.len() as int) =~= rv);
    updated
}

/// Appends a `TestDisappeared` for each test of `status` that no outcome
/// carries, in ledger order.
fn push_disappeared(
    status: &StatusFile,
    results: &[TestResult],
    violations: &mut Vec<RatchetViolation>,
)
    ensures
        ratchet_violations_view(final(violations)@) == ratchet_violations_view(old(violations)@)
            + disappeared(status.tests.names(), results_view(results@)),
{
    let recs = status.tests.records();
    proof {
        status.tests.lemma_view();
    }
    let ghost names = status.tests.names();
    let ghost rv = results_view(results@);
    let ghost v0 = ratchet_violations_view(violations@);
    assert(names.take(0) =~= Seq::<Seq<char>>::empty());
    assert(v0 + Seq::<ViolationView>::empty() =~= v0);
    let mut i: usize = 0;
    while i < recs.len()
        invariant
            i <= recs@.len(),
            names == record_names(recs@),
            rv == results_view(results@),
            ratchet_violations_view(violations@) == v0 + disappeared(names.take(i as int), rv),
        decreases recs@.len() - i,
    {
        let name = &recs[i].name;
        assert(names.take(i + 1).drop_last() =~= names.take(i as int));
        assert(names.take(i + 1).last() == name@);
        if !outcome_named(results, name) {
            let ghost before = violations@;
            violations.push(RatchetViolation::TestDisappeared { test: name.clone() });
            assert(ratchet_violations_view(violations@) =~= ratchet_violations_view(before).push(
                ViolationView::TestDisappeared(name@),
            ));
        }
        i = i + 1;
    }
    assert(names.take(recs@.len() as int) =~= names);
}

/// Checks a run's outcomes against the ledger by the per-run rules alone:
/// each outcome's transition, then every tracked test the run did not report.
pub fn check_ratchet(status: &StatusFile, results: &[TestResult]) -> (r: RatchetOutcome)
    ensures
        r.updated@ == (LedgerView {
            tests: applied(status@.tests, results_view(results@)),
            baseline: status@.baseline,
        }),
        r.updated.tests.names() == sorted_names(r.updated@.tests.dom()),
        ratchet_violations_view(r.violations@) == flagged(status@.tests, results_view(results@))
            + disappeared(status.tests.names(), results_view(results@)),
{
    let mut violations: Vec<RatchetViolation> = Vec::new();
    assert(ratchet_violations_view(violations@) =~= Seq::<ViolationView>::empty());
    let updated = apply_results(status, results, &mut violations);
    push_disappeared(status, results, &mut violations);
    proof {
        use_type_invariant(&updated.tests);
        updated.tests.lemma_view();
    }
    RatchetOutcome { violations, updated }
}

/// A breach found by one evaluation: of the per-run rules, of the history
/// rule, or the absence of the gatekeeper test.
#[derive(Clone, Debug, PartialEq, Eq)]
pub enum Violation {
    /// A new test passed without being pending first.
    NewTestPassed { test: String },
    /// A passing test now fails.
    Regression { test: String },
    /// A tracked test is missing from the run.
    TestDisappeared { test: String },
    /// A test appeared as passing in the history without a prior pending state.
    SkippedPending { test: String, commit: String },
    /// The run reported no gatekeeper test.
    MissingGatekeeper,
}

impl View for Violation {
    type V = ViolationView;

    open spec fn view(&self) -> ViolationView {
        match self {
            Violation::NewTestPassed { test } => ViolationView::NewTestPassed(test@),
            Violation::Regression { test } => ViolationView::Regression(test@),
            Violation::TestDisappeared { test } => ViolationView::TestDisappeared(test@),
            Violation::SkippedPending { test, commit } => ViolationView::SkippedPending(
                test@,
                commit@,
            ),
            Violation::MissingGatekeeper => ViolationView::MissingGatekeeper,
        }
    }
}

pub open spec fn violations_view(v: Seq<Violation>) -> Seq<ViolationView> {
    v.map_values(|x: Violation| x@)
}

/// Everything one evaluation found, and the ledger with every accepted
/// transition applied.
#[derive(Debug)]
pub struct EvalResult {
    pub violations: Vec<Violation>,
    pub updated: StatusFile,
}

/// Whether some outcome of the run is the gatekeeper's.
pub open spec fn has_gatekeeper(results: Seq<ResultView>) -> bool {
    exists|i: int| 0 <= i < results.len() && is_gatekeeper(#[trigger] results[i].name)
}

/// History findings as violations.
pub open spec fn history_as_violations(f: Seq<(Seq<char>, Seq<char>)>) -> Seq<ViolationView> {
    f.map_values(|p: (Seq<char>, Seq<char>)| ViolationView::SkippedPending(p.0, p.1))
}

/// The violations of one evaluation, in order: a missing gatekeeper, the
/// outcomes' violations, the disappeared tests, then the history findings.
pub open spec fn eval_violations(
    status: LedgerView,
    names: Seq<Seq<char>>,
    results: Seq<ResultView>,
    snaps: Seq<SnapshotView>,
) -> Seq<ViolationView> {
    (if has_gatekeeper(results) {
        Seq::empty()
    } else {
        seq![ViolationView::MissingGatekeeper]
    }) + flagged(status.tests, results) + disappeared(names, results) + history_as_violations(
        skipped_pending(snaps, status.baseline is Some),
    )
}

fn any_gatekeeper(results: &[TestResult]) -> (r: bool)
    ensures
        r == has_gatekeeper(results_view(results@)),
{
    let ghost rv = results_view(results@);
    let mut i: usize = 0;
    while i < results.len()
        invariant
            i <= results@.len(),
            rv == results_view(results@),
            forall|j: int| 0 <= j < i ==> !is_gatekeeper(#[trigger] rv[j].name),
        decreases results@.len() - i,
    {
        if is_gatekeeper_name(results[i].name.as_str()) {
            assert(is_gatekeeper(rv[i as int].name));
            return true;
        }
        i = i + 1;
    }
    false
}

fn to_violation(v: &RatchetViolation) -> (r: Violation)
    ensures
        r@ == v@,
{
    match v {
        RatchetViolation::NewTestPassed { test } => Violation::NewTestPassed { test: test.clone() },
        RatchetViolation::Regression { test } => Violation::Regression { test: test.clone() },
        RatchetViolation::TestDisappeared { test } => Violation::TestDisappeared {
            test: test.clone(),
        },
    }
}

fn history_to_violation(v: &HistoryViolation) -> (r: Violation)
    ensures
        r@ == ViolationView::SkippedPending(v@.0, v@.1),
{
    match v {
        HistoryViolation::SkippedPending { test, commit } => Violation::SkippedPending {
            test: test.clone(),
            commit: commit.clone(),
        },
    }
}

/// Evaluates every ratchet rule on a run: the gatekeeper's presence, each
/// outcome's transition against the ledger `status`, the tests the run no
/// longer reports, and the history of ledger snapshots. The updated ledger
/// keeps every accepted transition whatever else was found.
pub fn evaluate(
    status: &StatusFile,
    results: &[TestResult],
    history_snapshots: &[HistorySnapshot],
) -> (r: EvalResult)
    ensures
        evaluation_of(*status, results@, history_snapshots@, r),
{
    let mut violations: Vec<Violation> = Vec::new();
    if !any_gatekeeper(results) {
        violations.push(Violation::MissingGatekeeper);
    }
    let ghost start = violations_view(violations@);
    assert(start =~= (if has_gatekeeper(results_view(results@)) {
        Seq::empty()
    } else {
        seq![ViolationView::MissingGatekeeper]
    }));
    let outcome = check_ratchet(status, results);
    let ghost rs = ratchet_violations_view(outcome.violations@);
    let mut i: usize = 0;
    while i < outcome.violations.len()
        invariant
            i <= outcome.violations@.len(),
            rs == ratchet_violations_view(outcome.violations@),
            violations_view(violations@) == start + rs.take(i as int),
        decreases outcome.violations@.len() - i,
    {
        let ghost before = violations@;
        violations.push(to_violation(&outcome.violations[i]));
        assert(violations_view(violations@) =~= violations_view(before).push(rs[i as int]));
        assert(rs.take(i + 1) =~= rs.take(i as int).push(rs[i as int]));
        i = i + 1;
    }
    assert(rs.take(rs.len() as int) =~= rs);
    let ghost mid = violations_view(violations@);
    let history = check_history_snapshots(history_snapshots, status.baseline.is_some());
    let ghost hs = history_as_violations(history_violations_view(history@));
    assert(mid + hs.take(0) =~= mid);
    let mut k: usize = 0;
    while k < history.len()
        invariant
            k <= history@.len(),
            hs == history_as_violations(history_violations_view(history@)),
            violations_view(violations@) == mid + hs.take(k as int),
        decreases history@.len() - k,
    {
        let ghost before = violations@;
        violations.push(history_to_violation(&history[k]));
        assert(violations_view(violations@) =~= violations_view(before).push(hs[k as int]));
        assert(hs.take(k + 1) =~= hs.take(k as int).push(hs[k as int]));
        k = k + 1;
    }
    assert(hs.take(hs.len() as int) =~= hs);
    assert(violations_view(violations@) =~= eval_of(*status, results@, history_snapshots@));
    EvalResult { violations, updated: outcome.updated }
}

/// The tests of a ledger started from a run: each test that passed is
/// passing, each that failed is pending, ignored ones are left out; a later
/// outcome of the same name wins.
pub open spec fn initial_tests(results: Seq<ResultView>) -> Map<Seq<char>, EntryView>
    decreases results.len(),
{
    if results.len() == 0 {
        Map::empty()
    } else {
        let m = initial_tests(results.drop_last());
        let r = results.last();
        match r.outcome {
            TestOutcome::Passed => m.insert(r.name, EntryView { state: TestState::Passing, baseline: None }),
            TestOutcome::Failed => m.insert(r.name, EntryView { state: TestState::Pending, baseline: None }),
            TestOutcome::Ignored => m,
        }
    }
}

/// The ledger with which the ratchet is adopted: the current outcomes of
/// the suite, so that tests that already pass are grandfathered, and the
/// adoption commit.
pub fn initial_status(results: &[TestResult], baseline: Option<String>) -> (r: StatusFile)
    ensures
        r@ == (LedgerView {
            tests: initial_tests(results_view(results@)),
            baseline: crate::status::opt_chars(baseline),
        }),
        r.tests.names() == sorted_names(r@.tests.dom()),
{
    let mut tests = TestMap::new();
    let ghost rv = results_view(results@);
    assert(rv.take(0) =~= Seq::<ResultView>::empty());
    let mut i: usize = 0;
    while i < results.len()
        invariant
            i <= results@.len(),
            rv == results_view(results@),
            tests@ == initial_tests(rv.take(i as int)),
        decreases results@.len() - i,
    {
        assert(rv.take(i + 1).drop_last() =~= rv.take(i as int));
        assert(rv.take(i + 1).last() == results@[i as int]@);
        let r = &results[i];
        match r.outcome {
            TestOutcome::Passed => tests.insert(r.name.clone(), TestEntry::Simple(TestState::Passing)),
            TestOutcome::Failed => tests.insert(r.name.clone(), TestEntry::Simple(TestState::Pending)),
            TestOutcome::Ignored => {},
        }
        i = i + 1;
    }
    assert(rv.take(results@.len() as int) =~= rv);
    proof {
        use_type_invariant(&tests);
        tests.lemma_view();
    }
    StatusFile::new(tests, baseline)
}

/// The violations `evaluate` reports for a ledger, a run and a history.
pub open spec fn eval_of(
    status: StatusFile,
    results: Seq<TestResult>,
    snapshots: Seq<HistorySnapshot>,
) -> Seq<ViolationView> {
    eval_violations(
        status@,
        status.tests.names(),
        results_view(results),
        snapshots_view(snapshots),
    )
}

/// The tests of the ledger `evaluate` returns for a ledger and a run.
pub open spec fn updated_of(status: StatusFile, results: Seq<TestResult>) -> Map<
    Seq<char>,
    EntryView,
> {
    applied(status@.tests, results_view(results))
}

/// Whether `r` is what `evaluate` returns for these inputs.
pub open spec fn evaluation_of(
    status: StatusFile,
    results: Seq<TestResult>,
    snapshots: Seq<HistorySnapshot>,
    r: EvalResult,
) -> bool {
    &&& r.updated@ == (LedgerView { tests: updated_of(status, results), baseline: status@.baseline })
    &&& r.updated.tests.names() == sorted_names(r.updated@.tests.dom())
    &&& violations_view(r.violations@) == eval_of(status, results, snapshots)
}

/// Whether the outcome at `i` is the only one that carries its name.
pub open spec fn named_once(results: Seq<ResultView>, i: int) -> bool {
    &&& 0 <= i < results.len()
    &&& forall|j: int| 0 <= j < results.len() && j != i ==> #[trigger] results[j].name != results[i].name
}

/// Whether the violations hold none of the per-run rules' violations for `name`.
pub open spec fn clear_for(v: Seq<ViolationView>, name: Seq<char>) -> bool {
    &&& !v.contains(ViolationView::NewTestPassed(name))
    &&& !v.contains(ViolationView::Regression(name))
    &&& !v.contains(ViolationView::TestDisappeared(name))
}

proof fn lemma_applied_absent(tests: Map<Seq<char>, EntryView>, results: Seq<ResultView>, n: Seq<char>)
    requires
        !named_in(results, n),
    ensures
        applied(tests, results).contains_key(n) == tests.contains_key(n),
        tests.contains_key(n) ==> applied(tests, results)[n] == tests[n],
        !flagged(tests, results).contains(ViolationView::NewTestPassed(n)),
        !flagged(tests, results).contains(ViolationView::Regression(n)),
    decreases results.len(),
{
    if results.len() > 0 {
        let rest = results.drop_last();
        assert(!named_in(rest, n)) by {
            if named_in(rest, n) {
                let k = choose|k: int| 0 <= k < rest.len() && #[trigger] rest[k].name == n;
                assert(results[k].name == n);
            }
        }
        assert(results.last().name != n) by {
            assert(results[results.len() - 1].name == results.last().name);
        }
        lemma_applied_absent(tests, rest, n);
        let v = flagged(tests, rest);
        lemma_push_contains(v, ViolationView::NewTestPassed(results.last().name), ViolationView::NewTestPassed(n));
        lemma_push_contains(v, ViolationView::Regression(results.last().name), ViolationView::NewTestPassed(n));
        lemma_push_contains(v, ViolationView::NewTestPassed(results.last().name), ViolationView::Regression(n));
        lemma_push_contains(v, ViolationView::Regression(results.last().name), ViolationView::Regression(n));
    }
}

proof fn lemma_applied_once(tests: Map<Seq<char>, EntryView>, results: Seq<ResultView>, i: int)
    requires
        named_once(results, i),
    ensures
        ({
            let n = results[i].name;
            let m = applied(tests, results);
            match step(tests, results[i]) {
                Transition::Record(s) => m.contains_key(n) && m[n] == EntryView {
                    state: s,
                    baseline: None,
                },
                _ => m.contains_key(n) == tests.contains_key(n) && (tests.contains_key(n) ==> m[n]
                    == tests[n]),
            }
        }),
        flagged(tests, results).contains(ViolationView::NewTestPassed(results[i].name)) <==> step(
            tests,
            results[i],
        ) == Transition::NewTestPassed,
        flagged(tests, results).contains(ViolationView::Regression(results[i].name)) <==> step(
            tests,
            results[i],
        ) == Transition::Regression,
    decreases results.len(),
{
    let n = results[i].name;
    let rest = results.drop_last();
    let last = results.last();
    let v = flagged(tests, rest);
    if i == results.len() - 1 {
        assert(!named_in(rest, n)) by {
            if named_in(rest, n) {
                let k = choose|k: int| 0 <= k < rest.len() && #[trigger] rest[k].name == n;
                assert(results[k].name == n);
            }
        }
        lemma_applied_absent(tests, rest, n);
        assert(last == results[i]);
    } else {
        assert(named_once(rest, i)) by {
            assert forall|j: int| 0 <= j < rest.len() && j != i implies #[trigger] rest[j].name
                != rest[i].name by {
                assert(rest[j] == results[j]);
            }
        }
        assert(last.name != n) by {
            assert(results[results.len() - 1] == last);
        }
        lemma_applied_once(tests, rest, i);
        assert(rest[i] == results[i]);
    }
    lemma_push_contains(v, ViolationView::NewTestPassed(last.name), ViolationView::NewTestPassed(n));
    lemma_push_contains(v, ViolationView::Regression(last.name), ViolationView::NewTestPassed(n));
    lemma_push_contains(v, ViolationView::NewTestPassed(last.name), ViolationView::Regression(n));
    lemma_push_contains(v, ViolationView::Regression(last.name), ViolationView::Regression(n));
}

proof fn lemma_flagged_kinds(tests: Map<Seq<char>, EntryView>, results: Seq<ResultView>, n: Seq<char>)
    ensures
        !flagged(tests, results).contains(ViolationView::TestDisappeared(n)),
    decreases results.len(),
{
    if results.len() > 0 {
        let v = flagged(tests, results.drop_last());
        let last = results.last();
        lemma_flagged_kinds(tests, results.drop_last(), n);
        lemma_push_contains(v, ViolationView::NewTestPassed(last.name), ViolationView::TestDisappeared(n));
        lemma_push_contains(v, ViolationView::Regression(last.name), ViolationView::TestDisappeared(n));
    }
}

proof fn lemma_disappeared_contains(names: Seq<Seq<char>>, results: Seq<ResultView>, n: Seq<char>)
    ensures
        disappeared(names, results).contains(ViolationView::TestDisappeared(n)) <==> (names.contains(
            n,
        ) && !named_in(results, n)),
        !disappeared(names, results).contains(ViolationView::NewTestPassed(n)),
        !disappeared(names, results).contains(ViolationView::Regression(n)),
    decreases names.len(),
{
    if names.len() > 0 {
        let rest = names.drop_last();
        let last = names.last();
        let v = disappeared(rest, results);
        lemma_disappeared_contains(rest, results, n);
        lemma_push_contains(v, ViolationView::TestDisappeared(last), ViolationView::TestDisappeared(n));
        lemma_push_contains(v, ViolationView::TestDisappeared(last), ViolationView::NewTestPassed(n));
        lemma_push_contains(v, ViolationView::TestDisappeared(last), ViolationView::Regression(n));
        assert(names.contains(n) <==> (rest.contains(n) || last == n)) by {
            lemma_push_contains(rest, last, n);
            assert(rest.push(last) =~= names);
        }
    }
}

/// The per-run violations of an evaluation are exactly those of the
/// outcomes' transitions and of the disappeared tests.
proof fn lemma_eval_contains(
    status: StatusFile,
    results: Seq<TestResult>,
    snapshots: Seq<HistorySnapshot>,
    n: Seq<char>,
)
    ensures
        ({
            let e = eval_of(status, results, snapshots);
            let f = flagged(status@.tests, results_view(results));
            let d = disappeared(status.tests.names(), results_view(results));
            &&& e.contains(ViolationView::NewTestPassed(n)) <==> f.contains(
                ViolationView::NewTestPassed(n),
            )
            &&& e.contains(ViolationView::Regression(n)) <==> f.contains(
                ViolationView::Regression(n),
            )
            &&& e.contains(ViolationView::TestDisappeared(n)) <==> d.contains(
                ViolationView::TestDisappeared(n),
            )
        }),
{
    let rv = results_view(results);
    let pre: Seq<ViolationView> = if has_gatekeeper(rv) {
        Seq::empty()
    } else {
        seq![ViolationView::MissingGatekeeper]
    };
    let f = flagged(status@.tests, rv);
    let d = disappeared(status.tests.names(), rv);
    let h = history_as_violations(skipped_pending(snapshots_view(snapshots), status@.baseline is Some));
    lemma_flagged_kinds(status@.tests, rv, n);
    lemma_disappeared_contains(status.tests.names(), rv, n);
    let kinds = seq![
        ViolationView::NewTestPassed(n),
        ViolationView::Regression(n),
        ViolationView::TestDisappeared(n),
    ];
    assert forall|x: ViolationView| kinds.contains(x) implies !pre.contains(x) && !h.contains(x) by {
        if h.contains(x) {
            let k = h.index_of(x);
            assert(h[k] is SkippedPending);
        }
        if pre.contains(x) {
            let k = pre.index_of(x);
            assert(pre[k] is MissingGatekeeper);
        }
    }
    assert(kinds.contains(kinds[0]));
    assert(kinds.contains(kinds[1]));
    assert(kinds.contains(kinds[2]));
    assert forall|x: ViolationView| kinds.contains(x) implies (((pre + f) + d) + h).contains(x) <==> (
    f.contains(x) || d.contains(x)) by {
        lemma_concat_contains(pre, f, x);
        lemma_concat_contains(pre + f, d, x);
        lemma_concat_contains((pre + f) + d, h, x);
    }
}

/// How many times `x` occurs in `v`.
pub open spec fn occurrences(v: Seq<ViolationView>, x: ViolationView) -> nat
    decreases v.len(),
{
    if v.len() == 0 {
        0
    } else {
        occurrences(v.drop_last(), x) + if v.last() == x {
            1nat
        } else {
            0nat
        }
    }
}

proof fn lemma_occurrences_push(v: Seq<ViolationView>, y: ViolationView, x: ViolationView)
    ensures
        occurrences(v.push(y), x) == occurrences(v, x) + if y == x {
            1nat
        } else {
            0nat
        },
{
    assert(v.push(y).drop_last() =~= v);
}

proof fn lemma_occurrences_concat(a: Seq<ViolationView>, b: Seq<ViolationView>, x: ViolationView)
    ensures
        occurrences(a + b, x) == occurrences(a, x) + occurrences(b, x),
    decreases b.len(),
{
    if b.len() == 0 {
        assert(a + b =~= a);
    } else {
        assert((a + b).drop_last() =~= a + b.drop_last());
        lemma_occurrences_concat(a, b.drop_last(), x);
    }
}

proof fn lemma_occurrences_contains(v: Seq<ViolationView>, x: ViolationView)
    ensures
        v.contains(x) <==> occurrences(v, x) > 0,
    decreases v.len(),
{
    if v.len() > 0 {
        lemma_occurrences_contains(v.drop_last(), x);
        lemma_push_contains(v.drop_last(), v.last(), x);
        assert(v.drop_last().push(v.last()) =~= v);
    }
}

proof fn lemma_flagged_count_once(tests: Map<Seq<char>, EntryView>, results: Seq<ResultView>, i: int)
    requires
        named_once(results, i),
    ensures
        occurrences(flagged(tests, results), ViolationView::NewTestPassed(results[i].name)) == if step(
            tests,
            results[i],
        ) == Transition::NewTestPassed {
            1nat
        } else {
            0nat
        },
        occurrences(flagged(tests, results), ViolationView::Regression(results[i].name)) == if step(
            tests,
            results[i],
        ) == Transition::Regression {
            1nat
        } else {
            0nat
        },
    decreases results.len(),
{
    let n = results[i].name;
    let rest = results.drop_last();
    let last = results.last();
    let v = flagged(tests, rest);
    lemma_occurrences_push(v, ViolationView::NewTestPassed(last.name), ViolationView::NewTestPassed(n));
    lemma_occurrences_push(v, ViolationView::Regression(last.name), ViolationView::NewTestPassed(n));
    lemma_occurrences_push(v, ViolationView::NewTestPassed(last.name), ViolationView::Regression(n));
    lemma_occurrences_push(v, ViolationView::Regression(last.name), ViolationView::Regression(n));
    if i == results.len() - 1 {
        assert(!named_in(rest, n)) by {
            if named_in(rest, n) {
                let k = choose|k: int| 0 <= k < rest.len() && #[trigger] rest[k].name == n;
                assert(results[k].name == n);
            }
        }
        lemma_flagged_count_absent(tests, rest, n);
        assert(results.last() == results[i]);
    } else {
        assert(named_once(rest, i)) by {
            assert forall|j: int| 0 <= j < rest.len() && j != i implies #[trigger] rest[j].name
                != rest[i].name by {
                assert(rest[j] == results[j]);
            }
        }
        assert(results.last().name != n) by {
            assert(results[results.len() - 1] == results.last());
        }
        lemma_flagged_count_once(tests, rest, i);
        assert(rest[i] == results[i]);
    }
}

proof fn lemma_flagged_count_absent(tests: Map<Seq<char>, EntryView>, results: Seq<ResultView>, n: Seq<char>)
    requires
        !named_in(results, n),
    ensures
        occurrences(flagged(tests, results), ViolationView::NewTestPassed(n)) == 0,
        occurrences(flagged(tests, results), ViolationView::Regression(n)) == 0,
    decreases results.len(),
{
    if results.len() > 0 {
        let rest = results.drop_last();
        assert(!named_in(rest, n)) by {
            if named_in(rest, n) {
                let k = choose|k: int| 0 <= k < rest.len() && #[trigger] rest[k].name == n;
                assert(results[k].name == n);
            }
        }
        assert(results.last().name != n) by {
            assert(results[results.len() - 1] == results.last());
        }
        lemma_flagged_count_absent(tests, rest, n);
        let last = results.last();
        let v = flagged(tests, rest);
        lemma_occurrences_push(v, ViolationView::NewTestPassed(last.name), ViolationView::NewTestPassed(n));
        lemma_occurrences_push(v, ViolationView::Regression(last.name), ViolationView::NewTestPassed(n));
        lemma_occurrences_push(v, ViolationView::NewTestPassed(last.name), ViolationView::Regression(n));
        lemma_occurrences_push(v, ViolationView::Regression(last.name), ViolationView::Regression(n));
    }
}

proof fn lemma_flagged_count_disappeared(
    tests: Map<Seq<char>, EntryView>,
    results: Seq<ResultView>,
    n: Seq<char>,
)
    ensures
        occurrences(flagged(tests, results), ViolationView::TestDisappeared(n)) == 0,
    decreases results.len(),
{
    if results.len() > 0 {
        lemma_flagged_count_disappeared(tests, results.drop_last(), n);
        let last = results.last();
        let v = flagged(tests, results.drop_last());
        lemma_occurrences_push(v, ViolationView::NewTestPassed(last.name), ViolationView::TestDisappeared(n));
        lemma_occurrences_push(v, ViolationView::Regression(last.name), ViolationView::TestDisappeared(n));
    }
}

proof fn lemma_disappeared_count(names: Seq<Seq<char>>, results: Seq<ResultView>, n: Seq<char>)
    requires
        names.no_duplicates(),
    ensures
        occurrences(disappeared(names, results), ViolationView::TestDisappeared(n)) == if names.contains(n)
            && !named_in(results, n) {
            1nat
        } else {
            0nat
        },
        occurrences(disappeared(names, results), ViolationView::NewTestPassed(n)) == 0,
        occurrences(disappeared(names, results), ViolationView::Regression(n)) == 0,
    decreases names.len(),
{
    if names.len() > 0 {
        let rest = names.drop_last();
        let last = names.last();
        assert(rest.no_duplicates()) by {
            assert forall|i: int, j: int| 0 <= i < rest.len() && 0 <= j < rest.len() && i != j implies rest[i]
                != rest[j] by {
                assert(rest[i] == names[i] && rest[j] == names[j]);
            }
        }
        lemma_disappeared_count(rest, results, n);
        let v = disappeared(rest, results);
        lemma_occurrences_push(v, ViolationView::TestDisappeared(last), ViolationView::TestDisappeared(n));
        lemma_occurrences_push(v, ViolationView::TestDisappeared(last), ViolationView::NewTestPassed(n));
        lemma_occurrences_push(v, ViolationView::TestDisappeared(last), ViolationView::Regression(n));
        assert(names.contains(n) <==> (rest.contains(n) || last == n)) by {
            lemma_push_contains(rest, last, n);
            assert(rest.push(last) =~= names);
        }
        if last == n && rest.contains(n) {
            let k = rest.index_of(n);
            assert(names[k] == names[names.len() - 1]);
        }
    }
}

/// The count of a per-run violation in an evaluation is its count among the
/// outcomes' violations plus among the disappeared tests.
proof fn lemma_eval_count(
    status: StatusFile,
    results: Seq<TestResult>,
    snapshots: Seq<HistorySnapshot>,
    x: ViolationView,
)
    requires
        x is NewTestPassed || x is Regression || x is TestDisappeared,
    ensures
        occurrences(eval_of(status, results, snapshots), x) == occurrences(
            flagged(status@.tests, results_view(results)),
            x,
        ) + occurrences(disappeared(status.tests.names(), results_view(results)), x),
{
    let rv = results_view(results);
    let pre: Seq<ViolationView> = if has_gatekeeper(rv) {
        Seq::empty()
    } else {
        seq![ViolationView::MissingGatekeeper]
    };
    let f = flagged(status@.tests, rv);
    let d = disappeared(status.tests.names(), rv);
    let h = history_as_violations(skipped_pending(snapshots_view(snapshots), status@.baseline is Some));
    lemma_occurrences_concat(pre, f, x);
    lemma_occurrences_concat(pre + f, d, x);
    lemma_occurrences_concat((pre + f) + d, h, x);
    lemma_occurrences_contains(pre, x);
    lemma_occurrences_contains(h, x);
    if h.contains(x) {
        let k = h.index_of(x);
        assert(h[k] is SkippedPending);
    }
    if pre.contains(x) {
        let k = pre.index_of(x);
        assert(pre[k] is MissingGatekeeper);
    }
}

/// A test the ledger does not track, reported once by the run: if it failed
/// it is recorded as pending and raises no violation; if it passed and is not
/// the gatekeeper it raises `NewTestPassed` and stays untracked.
pub proof fn lemma_untracked_test(
    status: StatusFile,
    results: Seq<TestResult>,
    snapshots: Seq<HistorySnapshot>,
    i: int,
)
    requires
        status.tests.wf(),
        named_once(results_view(results), i),
        !status@.tests.contains_key(results[i].name@),
    ensures
        results[i].outcome == TestOutcome::Failed ==> updated_of(status, results)[results[i].name@]
            == (EntryView { state: TestState::Pending, baseline: None }) && clear_for(
            eval_of(status, results, snapshots),
            results[i].name@,
        ),
        results[i].outcome == TestOutcome::Passed && !is_gatekeeper(results[i].name@) ==> eval_of(
            status,
            results,
            snapshots,
        ).contains(ViolationView::NewTestPassed(results[i].name@)) && occurrences(
            eval_of(status, results, snapshots),
            ViolationView::NewTestPassed(results[i].name@),
        ) == 1 && !updated_of(status, results).contains_key(results[i].name@),
{
    let rv = results_view(results);
    let n = results[i].name@;
    assert(rv[i] == results[i]@);
    status.tests.lemma_view();
    lemma_applied_once(status@.tests, rv, i);
    lemma_flagged_count_once(status@.tests, rv, i);
    lemma_disappeared_count(status.tests.names(), rv, n);
    lemma_eval_count(status, results, snapshots, ViolationView::NewTestPassed(n));
    lemma_eval_contains(status, results, snapshots, n);
    lemma_disappeared_contains(status.tests.names(), rv, n);
}

proof fn lemma_applied_all_failed(tests: Map<Seq<char>, EntryView>, results: Seq<ResultView>, n: Seq<char>)
    requires
        !tests.contains_key(n),
        forall|j: int| 0 <= j < results.len() && #[trigger] results[j].name == n ==> results[j].outcome
            == TestOutcome::Failed,
    ensures
        named_in(results, n) ==> applied(tests, results).contains_key(n) && applied(tests, results)[n]
            == (EntryView { state: TestState::Pending, baseline: None }),
        occurrences(flagged(tests, results), ViolationView::NewTestPassed(n)) == 0,
        occurrences(flagged(tests, results), ViolationView::Regression(n)) == 0,
    decreases results.len(),
{
    if results.len() > 0 {
        let rest = results.drop_last();
        let last = results.last();
        assert(last == results[results.len() - 1]);
        assert forall|j: int| 0 <= j < rest.len() && #[trigger] rest[j].name == n implies rest[j].outcome
            == TestOutcome::Failed by {
            assert(rest[j] == results[j]);
        }
        lemma_applied_all_failed(tests, rest, n);
        let v = flagged(tests, rest);
        lemma_occurrences_push(v, ViolationView::NewTestPassed(last.name), ViolationView::NewTestPassed(n));
        lemma_occurrences_push(v, ViolationView::Regression(last.name), ViolationView::NewTestPassed(n));
        lemma_occurrences_push(v, ViolationView::NewTestPassed(last.name), ViolationView::Regression(n));
        lemma_occurrences_push(v, ViolationView::Regression(last.name), ViolationView::Regression(n));
        if named_in(results, n) && last.name != n {
            let k = choose|k: int| 0 <= k < results.len() && #[trigger] results[k].name == n;
            assert(k < rest.len());
            assert(rest[k].name == n);
        }
    }
}

/// A test the ledger does not track, whose every outcome in the run failed
/// (it may be reported more than once), is recorded as pending and raises no
/// violation of the per-run rules.
pub proof fn lemma_untracked_failing_test(
    status: StatusFile,
    results: Seq<TestResult>,
    snapshots: Seq<HistorySnapshot>,
    name: Seq<char>,
)
    requires
        status.tests.wf(),
        !status@.tests.contains_key(name),
        exists|i: int| 0 <= i < results.len() && #[trigger] results[i].name@ == name,
        forall|j: int| 0 <= j < results.len() && #[trigger] results[j].name@ == name
            ==> results[j].outcome == TestOutcome::Failed,
    ensures
        updated_of(status, results).contains_key(name),
        updated_of(status, results)[name] == (EntryView { state: TestState::Pending, baseline: None }),
        clear_for(eval_of(status, results, snapshots), name),
{
    let rv = results_view(results);
    status.tests.lemma_view();
    assert forall|j: int| 0 <= j < rv.len() && #[trigger] rv[j].name == name implies rv[j].outcome
        == TestOutcome::Failed by {
        assert(rv[j] == results[j]@);
    }
    let i = choose|i: int| 0 <= i < results.len() && #[trigger] results[i].name@ == name;
    assert(rv[i] == results[i]@);
    assert(rv.len() == results.len());
    assert(rv[i].name == name);
    assert(named_in(rv, name));
    lemma_applied_all_failed(status@.tests, rv, name);
    lemma_disappeared_count(status.tests.names(), rv, name);
    lemma_flagged_count_disappeared(status@.tests, rv, name);
    let e = eval_of(status, results, snapshots);
    lemma_eval_count(status, results, snapshots, ViolationView::NewTestPassed(name));
    lemma_eval_count(status, results, snapshots, ViolationView::Regression(name));
    lemma_eval_count(status, results, snapshots, ViolationView::TestDisappeared(name));
    lemma_occurrences_contains(e, ViolationView::NewTestPassed(name));
    lemma_occurrences_contains(e, ViolationView::Regression(name));
    lemma_occurrences_contains(e, ViolationView::TestDisappeared(name));
}

/// A pending test reported once by the run: passing promotes it to passing,
/// failing leaves its entry as it was; neither raises a violation.
pub proof fn lemma_pending_test(
    status: StatusFile,
    results: Seq<TestResult>,
    snapshots: Seq<HistorySnapshot>,
    i: int,
)
    requires
        status.tests.wf(),
        named_once(results_view(results), i),
        status@.tests.contains_key(results[i].name@),
        status@.tests[results[i].name@].state == TestState::Pending,
    ensures
        results[i].outcome == TestOutcome::Passed ==> updated_of(status, results)[results[i].name@].state
            == TestState::Passing,
        results[i].outcome == TestOutcome::Failed ==> updated_of(status, results)[results[i].name@]
            == status@.tests[results[i].name@],
        results[i].outcome != TestOutcome::Ignored ==> clear_for(
            eval_of(status, results, snapshots),
            results[i].name@,
        ),
{
    let rv = results_view(results);
    let n = results[i].name@;
    assert(rv[i] == results[i]@);
    status.tests.lemma_view();
    lemma_applied_once(status@.tests, rv, i);
    lemma_eval_contains(status, results, snapshots, n);
    lemma_disappeared_contains(status.tests.names(), rv, n);
    assert(named_in(rv, n));
}

/// A passing test reported once by the run: failing raises exactly one
/// `Regression` and leaves its entry passing, since a regression is reported,
/// not recorded; passing raises no violation and leaves its entry as it was.
pub proof fn lemma_passing_test(
    status: StatusFile,
    results: Seq<TestResult>,
    snapshots: Seq<HistorySnapshot>,
    i: int,
)
    requires
        status.tests.wf(),
        named_once(results_view(results), i),
        status@.tests.contains_key(results[i].name@),
        status@.tests[results[i].name@].state == TestState::Passing,
    ensures
        results[i].outcome == TestOutcome::Failed ==> occurrences(
            eval_of(status, results, snapshots),
            ViolationView::Regression(results[i].name@),
        ) == 1,
        results[i].outcome == TestOutcome::Passed ==> !eval_of(status, results, snapshots).contains(
            ViolationView::Regression(results[i].name@),
        ),
        results[i].outcome != TestOutcome::Ignored ==> updated_of(status, results)[results[i].name@]
            == status@.tests[results[i].name@],
        results[i].outcome != TestOutcome::Ignored ==> !eval_of(status, results, snapshots).contains(
            ViolationView::NewTestPassed(results[i].name@),
        ) && !eval_of(status, results, snapshots).contains(
            ViolationView::TestDisappeared(results[i].name@),
        ),
{
    let rv = results_view(results);
    let n = results[i].name@;
    assert(rv[i] == results[i]@);
    status.tests.lemma_view();
    lemma_applied_once(status@.tests, rv, i);
    lemma_flagged_count_once(status@.tests, rv, i);
    lemma_disappeared_count(status.tests.names(), rv, n);
    lemma_eval_count(status, results, snapshots, ViolationView::Regression(n));
    lemma_eval_contains(status, results, snapshots, n);
    lemma_disappeared_contains(status.tests.names(), rv, n);
    assert(named_in(rv, n));
}

/// A test raises `TestDisappeared` exactly when the ledger tracks it and no
/// outcome of the run carries it, not even as ignored; and then exactly once.
pub proof fn lemma_missing_test_disappears(
    status: StatusFile,
    results: Seq<TestResult>,
    snapshots: Seq<HistorySnapshot>,
    name: Seq<char>,
)
    requires
        status.tests.wf(),
    ensures
        occurrences(eval_of(status, results, snapshots), ViolationView::TestDisappeared(name)) == if status@.tests.contains_key(name)
            && forall|j: int| 0 <= j < results.len() ==> #[trigger] results[j].name@ != name {
            1nat
        } else {
            0nat
        },
        eval_of(status, results, snapshots).contains(ViolationView::TestDisappeared(name)) <==> (
        status@.tests.contains_key(name) && forall|j: int|
            0 <= j < results.len() ==> #[trigger] results[j].name@ != name),
{
    let rv = results_view(results);
    status.tests.lemma_view();
    assert(named_in(rv, name) <==> !forall|j: int|
        0 <= j < results.len() ==> #[trigger] results[j].name@ != name) by {
        if named_in(rv, name) {
            let k = choose|k: int| 0 <= k < rv.len() && #[trigger] rv[k].name == name;
            assert(rv[k] == results[k]@);
            assert(results[k].name@ == name);
        } else {
            assert forall|j: int| 0 <= j < results.len() implies #[trigger] results[j].name@ != name by {
                assert(rv.len() == results.len());
                assert(rv[j] == results[j]@);
                assert(rv[j].name != name);
            }
        }
    }
    lemma_disappeared_count(status.tests.names(), rv, name);
    lemma_flagged_count_disappeared(status@.tests, rv, name);
    lemma_eval_count(status, results, snapshots, ViolationView::TestDisappeared(name));
    lemma_occurrences_contains(eval_of(status, results, snapshots), ViolationView::TestDisappeared(name));
}

/// Evaluating the same inputs twice gives the same result: the violations
/// and the updated ledger depend on the ledger, the run and the history alone.
pub proof fn lemma_evaluate_deterministic(
    status: StatusFile,
    results: Seq<TestResult>,
    snapshots: Seq<HistorySnapshot>,
    first: EvalResult,
    second: EvalResult,
)
    requires
        evaluation_of(status, results, snapshots, first),
        evaluation_of(status, results, snapshots, second),
    ensures
        first.updated@ == second.updated@,
        violations_view(first.violations@) == violations_view(second.violations@),
{
}

} // verus!
