use vstd::prelude::*;

use crate::json::{Json, decode_ledger, is_ledger_document};
use crate::ratchet::{is_gatekeeper, is_gatekeeper_name};
use crate::status::{EntryView, StatusFile, TestRecord, TestState, record_names, sorted_names};

verus! {

/// A test whose first recorded state in the commit history was passing.
#[derive(Clone, Debug, PartialEq, Eq)]
pub enum HistoryViolation {
    /// A test appeared as passing without ever being pending.
    SkippedPending { test: String, commit: String },
}

impl View for HistoryViolation {
    type V = (Seq<char>, Seq<char>);

    open spec fn view(&self) -> (Seq<char>, Seq<char>) {
        match self {
            HistoryViolation::SkippedPending { test, commit } => (test@, commit@),
        }
    }
}

pub open spec fn history_violations_view(v: Seq<HistoryViolation>) -> Seq<(Seq<char>, Seq<char>)> {
    v.map_values(|x: HistoryViolation| x@)
}

/// The ledger as it was recorded at one commit.
#[derive(Debug)]
pub struct HistorySnapshot {
    pub commit: String,
    pub status: StatusFile,
}

/// A snapshot seen as its commit, its tests and their order.
pub ghost struct SnapshotView {
    pub commit: Seq<char>,
    pub tests: Map<Seq<char>, EntryView>,
    pub names: Seq<Seq<char>>,
}

impl View for HistorySnapshot {
    type V = SnapshotView;

    open spec fn view(&self) -> SnapshotView {
        SnapshotView {
            commit: self.commit@,
            tests: self.status@.tests,
            names: self.status.tests.names(),
        }
    }
}

pub open spec fn snapshots_view(s: Seq<HistorySnapshot>) -> Seq<SnapshotView> {
    s.map_values(|h: HistorySnapshot| h@)
}

/// Whether `name` is tracked in a snapshot older than the one at `i`.
pub open spec fn seen_before(snaps: Seq<SnapshotView>, i: int, name: Seq<char>) -> bool {
    exists|j: int| 0 <= j < i && #[trigger] snaps[j].tests.contains_key(name)
}

/// Whether some snapshot at index `hi` or before was taken at `commit`.
pub open spec fn commit_within(snaps: Seq<SnapshotView>, commit: Seq<char>, hi: int) -> bool {
    exists|j: int| 0 <= j <= hi && j < snaps.len() && #[trigger] snaps[j].commit == commit
}

/// The per-test grandfather commit of `name`, read from the newest snapshot.
pub open spec fn per_test_baseline(snaps: Seq<SnapshotView>, name: Seq<char>) -> Option<Seq<char>> {
    if snaps.len() == 0 {
        None
    } else if snaps.last().tests.contains_key(name) {
        snaps.last().tests[name].baseline
    } else {
        None
    }
}

/// Whether the first appearance of `name`, in the snapshot at `i`, is exempt
/// from the fail-first rule: it predates the adoption of the ratchet, its own
/// grandfather commit lies at or before it (or outside the visible history),
/// or it is the gatekeeper.
pub open spec fn exempt(snaps: Seq<SnapshotView>, i: int, name: Seq<char>, has_baseline: bool) -> bool {
    ||| (has_baseline && snaps[i].commit == snaps[0].commit)
    ||| (match per_test_baseline(snaps, name) {
        Some(b) => !commit_within(snaps, b, snaps.len() - 1) || commit_within(snaps, b, i),
        None => false,
    })
    ||| is_gatekeeper(name)
}

/// The findings for the tests `names` of the snapshot at `i`, in that order:
/// each one that appears there first, as passing, without exemption.
pub open spec fn snapshot_findings(
    snaps: Seq<SnapshotView>,
    i: int,
    names: Seq<Seq<char>>,
    has_baseline: bool,
) -> Seq<(Seq<char>, Seq<char>)>
    decreases names.len(),
{
    if names.len() == 0 {
        Seq::empty()
    } else {
        let v = snapshot_findings(snaps, i, names.drop_last(), has_baseline);
        let n = names.last();
        if !seen_before(snaps, i, n) && snaps[i].tests[n].state == TestState::Passing && !exempt(
            snaps,
            i,
            n,
            has_baseline,
        ) {
            v.push((n, snaps[i].commit))
        } else {
            v
        }
    }
}

/// The findings of the `k` oldest snapshots, oldest first.
pub open spec fn history_findings(snaps: Seq<SnapshotView>, k: int, has_baseline: bool) -> Seq<
    (Seq<char>, Seq<char>),
>
    decreases k,
{
    if k <= 0 {
        Seq::empty()
    } else {
        history_findings(snaps, k - 1, has_baseline) + snapshot_findings(
            snaps,
            k - 1,
            snaps[k - 1].names,
            has_baseline,
        )
    }
}

/// All findings of a history, oldest snapshot first.
pub open spec fn skipped_pending(snaps: Seq<SnapshotView>, has_baseline: bool) -> Seq<
    (Seq<char>, Seq<char>),
> {
    history_findings(snaps, snaps.len() as int, has_baseline)
}

/// Whether `name` is among `names`.
fn name_listed(names: &Vec<String>, name: &String) -> (r: bool)
    ensures
        r == names_view(names@).contains(name@),
{
    let ghost vs = names_view(names@);
    let mut i: usize = 0;
    while i < names.len()
        invariant
            i <= names@.len(),
            vs == names_view(names@),
            forall|j: int| 0 <= j < i ==> vs[j] != name@,
        decreases names@.len() - i,
    {
        if names[i] == *name {
            assert(vs[i as int] == name@);
            return true;
        }
        i = i + 1;
    }
    false
}

/// The index of the oldest snapshot taken at `commit`.
fn commit_position(snapshots: &[HistorySnapshot], commit: &str) -> (r: Option<usize>)
    ensures
        r is Some ==> r->0 < snapshots@.len() && snapshots@[r->0 as int].commit@ == commit@
            && forall|j: int| 0 <= j < r->0 ==> snapshots@[j].commit@ != commit@,
        r is None ==> forall|j: int| 0 <= j < snapshots@.len() ==> snapshots@[j].commit@ != commit@,
{
    let key = commit.to_owned();
    let mut i: usize = 0;
    while i < snapshots.len()
        invariant
            i <= snapshots@.len(),
            key@ == commit@,
            forall|j: int| 0 <= j < i ==> snapshots@[j].commit@ != commit@,
        decreases snapshots@.len() - i,
    {
        if snapshots[i].commit == key {
            return Some(i);
        }
        i = i + 1;
    }
    None
}

pub open spec fn names_view(v: Seq<String>) -> Seq<Seq<char>> {
    v.map_values(|s: String| s@)
}

/// Scans the snapshot at `i`: records each of its tests in `seen`, and appends
/// to `out` the findings for those that appear there first.
fn scan_snapshot(
    snapshots: &[HistorySnapshot],
    i: usize,
    has_baseline: bool,
    seen: &mut Vec<String>,
    out: &mut Vec<HistoryViolation>,
)
    requires
        i < snapshots@.len(),
        forall|n: Seq<char>| #[trigger]
            names_view(old(seen)@).contains(n) <==> seen_before(
                snapshots_view(snapshots@),
                i as int,
                n,
            ),
    ensures
        forall|n: Seq<char>| #[trigger]
            names_view(final(seen)@).contains(n) <==> seen_before(
                snapshots_view(snapshots@),
                i + 1,
                n,
            ),
        history_violations_view(final(out)@) == history_violations_view(old(out)@)
            + snapshot_findings(
            snapshots_view(snapshots@),
            i as int,
            snapshots_view(snapshots@)[i as int].names,
            has_baseline,
        ),
{
    let ghost sv = snapshots_view(snapshots@);
    let snap = &snapshots[i];
    let recs = snap.status.tests.records();
    proof {
        snap.status.tests.lemma_view();
    }
    let ghost names = snap.status.tests.names();
    let ghost out0 = history_violations_view(out@);
    assert(sv[i as int] == snap@);
    assert(names.take(0) =~= Seq::<Seq<char>>::empty());
    assert(out0 + Seq::<(Seq<char>, Seq<char>)>::empty() =~= out0);
    let latest = &snapshots[snapshots.len() - 1];
    assert(sv.last() == latest@);
    let mut j: usize = 0;
    while j < recs.len()
        invariant
            i < snapshots@.len(),
            sv == snapshots_view(snapshots@),
            sv[i as int] == snap@,
            sv.last() == latest@,
            names == snap.status.tests.names(),
            names == record_names(recs@),
            names.no_duplicates(),
            forall|k: int| 0 <= k < names.len() ==> #[trigger] snap.status@.tests[names[k]]
                == recs@[k].entry@,
            forall|m: Seq<char>| #[trigger]
                snap.status@.tests.contains_key(m) <==> names.contains(m),
            j <= recs@.len(),
            forall|n: Seq<char>| #[trigger]
                names_view(seen@).contains(n) <==> (seen_before(sv, i as int, n) || names.take(
                    j as int,
                ).contains(n)),
            history_violations_view(out@) == out0 + snapshot_findings(
                sv,
                i as int,
                names.take(j as int),
                has_baseline,
            ),
        decreases recs@.len() - j,
    {
        let name = &recs[j].name;
        let ghost n = name@;
        assert(names[j as int] == n);
        assert(names.contains(n));
        let ghost out_before = history_violations_view(out@);
        let ghost f0 = snapshot_findings(sv, i as int, names.take(j as int), has_baseline);
        assert(names.take(j + 1).drop_last() =~= names.take(j as int));
        assert(names.take(j + 1).last() == n);
        assert(!names.take(j as int).contains(n)) by {
            if names.take(j as int).contains(n) {
                let k = names.take(j as int).index_of(n);
                assert(names[k] == names[j as int]);
            }
        }
        assert forall|m: Seq<char>| #[trigger] names.take(j + 1).contains(m) <==> (names.take(
            j as int,
        ).contains(m) || m == n) by {
            if m == n {
                assert(names.take(j + 1)[j as int] == n);
            }
            if names.take(j as int).contains(m) {
                let k = names.take(j as int).index_of(m);
                assert(names.take(j + 1)[k] == m);
            }
            if names.take(j + 1).contains(m) && m != n {
                let k = names.take(j + 1).index_of(m);
                assert(names.take(j as int)[k] == m);
            }
        }
        let ghost cond = !seen_before(sv, i as int, n) && sv[i as int].tests[n].state
            == TestState::Passing && !exempt(sv, i as int, n, has_baseline);
        let ghost mut pushed = false;
        if !name_listed(seen, name) {
            let ghost seen0 = seen@;
            seen.push(name.clone());
            assert(names_view(seen@) =~= names_view(seen0).push(n));
            assert forall|m: Seq<char>| #[trigger] names_view(seen@).contains(m) <==> (
            names_view(seen0).contains(m) || m == n) by {
                if m == n {
                    assert(names_view(seen@)[seen0.len() as int] == n);
                }
                if names_view(seen0).contains(m) {
                    let k = names_view(seen0).index_of(m);
                    assert(names_view(seen@)[k] == m);
                }
                if names_view(seen@).contains(m) && m != n {
                    let k = names_view(seen@).index_of(m);
                    assert(names_view(seen0)[k] == m);
                }
            }
            let state = recs[j].entry.state();
            assert(snap.status@.tests[n] == recs@[j as int].entry@);
            if state == TestState::Passing {
                let global = has_baseline && snap.commit == snapshots[0].commit;
                assert(sv[0] == snapshots@[0]@);
                let per_test = match latest.status.tests.get(name.as_str()) {
                    Some(e) => match e.baseline() {
                        Some(b) => match commit_position(snapshots, b) {
                            Some(k) => {
                                assert(sv[k as int] == snapshots@[k as int]@);
                                assert(sv.len() == snapshots@.len());
                                assert(sv[k as int].commit == b@);
                                if k <= i {
                                    assert(commit_within(sv, b@, i as int));
                                } else {
                                    assert(!commit_within(sv, b@, i as int)) by {
                                        if commit_within(sv, b@, i as int) {
                                            let w = choose|w: int|
                                                0 <= w <= i && w < sv.len() && #[trigger] sv[w].commit
                                                    == b@;
                                            assert(sv[w] == snapshots@[w]@);
                                        }
                                    }
                                }
                                assert(commit_within(sv, b@, sv.len() - 1));
                                k <= i
                            },
                            None => {
                                assert(!commit_within(sv, b@, sv.len() - 1)) by {
                                    if commit_within(sv, b@, sv.len() - 1) {
                                        let w = choose|w: int|
                                            0 <= w <= sv.len() - 1 && w < sv.len()
                                                && #[trigger] sv[w].commit == b@;
                                        assert(sv[w] == snapshots@[w]@);
                                    }
                                }
                                true
                            },
                        },
                        None => false,
                    },
                    None => false,
                };
                let gatekeeper = is_gatekeeper_name(name.as_str());
                assert(global == (has_baseline && sv[i as int].commit == sv[0].commit));
                assert(per_test == (match per_test_baseline(sv, n) {
                    Some(b) => !commit_within(sv, b, sv.len() - 1) || commit_within(sv, b, i as int),
                    None => false,
                }));
                assert((global || per_test || gatekeeper) == exempt(sv, i as int, n, has_baseline));
                if !global && !per_test && !gatekeeper {
                    let ghost out1 = out@;
                    out.push(
                        HistoryViolation::SkippedPending { test: name.clone(), commit: snap.commit.clone() },
                    );
                    assert(history_violations_view(out@) =~= history_violations_view(out1).push(
                        (n, snap.commit@),
                    ));
                    assert(out0 + f0.push((n, snap.commit@)) =~= (out0 + f0).push(
                        (n, snap.commit@),
                    ));
                    proof {
                        pushed = true;
                    }
                } else {
                    assert(!cond);
                }
            } else {
                assert(!cond);
            }
        } else {
            assert(seen_before(sv, i as int, n));
            assert(!cond);
        }
        proof {
            let f1 = snapshot_findings(sv, i as int, names.take(j + 1), has_baseline);
            assert(f1 == if cond {
                f0.push((n, sv[i as int].commit))
            } else {
                f0
            });
            if pushed {
                assert(cond);
                assert(history_violations_view(out@) == (out0 + f0).push((n, sv[i as int].commit)));
                assert(history_violations_view(out@) =~= out0 + f1);
            } else {
                assert(!cond);
                assert(history_violations_view(out@) == out_before);
                assert(history_violations_view(out@) =~= out0 + f1);
            }
        }
        j = j + 1;
    }
    assert(names.take(recs@.len() as int) =~= names);
    assert forall|n: Seq<char>| #[trigger]
        names_view(seen@).contains(n) <==> seen_before(sv, i + 1, n) by {
        if names.contains(n) {
            assert(sv[i as int].tests.contains_key(n));
        }
        if seen_before(sv, i + 1, n) && !seen_before(sv, i as int, n) {
            let w = choose|w: int| 0 <= w < i + 1 && #[trigger] sv[w].tests.contains_key(n);
            assert(w == i);
            assert(names.contains(n));
        }
        if seen_before(sv, i as int, n) {
            let w = choose|w: int| 0 <= w < i && #[trigger] sv[w].tests.contains_key(n);
            assert(0 <= w < i + 1 && sv[w].tests.contains_key(n));
        }
    }
}

/// Checks a history of ledger snapshots, oldest first, for tests whose first
/// recorded state was passing without exemption. `has_baseline` tells
/// whether the ratchet was adopted at the oldest snapshot.
pub fn check_history_snapshots(snapshots: &[HistorySnapshot], has_baseline: bool) -> (r: Vec<
    HistoryViolation,
>)
    ensures
        history_violations_view(r@) == skipped_pending(snapshots_view(snapshots@), has_baseline),
{
    let ghost sv = snapshots_view(snapshots@);
    let mut seen: Vec<String> = Vec::new();
    let mut out: Vec<HistoryViolation> = Vec::new();
    assert(history_violations_view(out@) =~= Seq::<(Seq<char>, Seq<char>)>::empty());
    let mut i: usize = 0;
    while i < snapshots.len()
        invariant
            i <= snapshots@.len(),
            sv == snapshots_view(snapshots@),
            forall|n: Seq<char>| #[trigger]
                names_view(seen@).contains(n) <==> seen_before(sv, i as int, n),
            history_violations_view(out@) == history_findings(sv, i as int, has_baseline),
        decreases snapshots@.len() - i,
    {
        scan_snapshot(snapshots, i, has_baseline, &mut seen, &mut out);
        i = i + 1;
    }
    out
}

pub proof fn lemma_push_contains<A>(v: Seq<A>, x: A, p: A)
    ensures
        v.push(x).contains(p) <==> (v.contains(p) || p == x),
{
    if v.push(x).contains(p) && p != x {
        let k = v.push(x).index_of(p);
        assert(k < v.len());
        assert(v[k] == p);
    }
    if v.contains(p) {
        let k = v.index_of(p);
        assert(v.push(x)[k] == p);
    }
    if p == x {
        assert(v.push(x)[v.len() as int] == x);
    }
}

pub proof fn lemma_concat_contains<A>(a: Seq<A>, b: Seq<A>, p: A)
    ensures
        (a + b).contains(p) <==> (a.contains(p) || b.contains(p)),
{
    if (a + b).contains(p) {
        let k = (a + b).index_of(p);
        if k < a.len() {
            assert(a[k] == p);
        } else {
            assert(b[k - a.len()] == p);
        }
    }
    if a.contains(p) {
        let k = a.index_of(p);
        assert((a + b)[k] == p);
    }
    if b.contains(p) {
        let k = b.index_of(p);
        assert((a + b)[a.len() + k] == p);
    }
}

/// Whether the snapshot at `i` is where `name` is first tracked.
pub open spec fn first_seen_at(snaps: Seq<SnapshotView>, i: int, name: Seq<char>) -> bool {
    0 <= i < snaps.len() && snaps[i].tests.contains_key(name) && !seen_before(snaps, i, name)
}

/// Each snapshot's table holds exactly its listed names.
pub open spec fn snapshots_valid(snaps: Seq<SnapshotView>) -> bool {
    forall|i: int, n: Seq<char>|
        0 <= i < snaps.len() ==> (#[trigger] snaps[i].tests.contains_key(n) <==> snaps[i].names.contains(n))
}

pub proof fn lemma_snapshots_valid(snapshots: Seq<HistorySnapshot>)
    requires
        forall|i: int| 0 <= i < snapshots.len() ==> #[trigger] snapshots[i].status.tests.wf(),
    ensures
        snapshots_valid(snapshots_view(snapshots)),
{
    let sv = snapshots_view(snapshots);
    assert forall|i: int, n: Seq<char>| 0 <= i < sv.len() implies (#[trigger] sv[i].tests.contains_key(
        n,
    ) <==> sv[i].names.contains(n)) by {
        assert(sv[i] == snapshots[i]@);
        assert(snapshots[i].status.tests.wf());
        snapshots[i].status.tests.lemma_view();
    }
}

/// A test is first tracked in at most one snapshot.
pub proof fn lemma_first_seen_unique(snaps: Seq<SnapshotView>, i: int, j: int, name: Seq<char>)
    requires
        first_seen_at(snaps, i, name),
        first_seen_at(snaps, j, name),
    ensures
        i == j,
{
    if i < j {
        assert(seen_before(snaps, j, name));
    }
    if j < i {
        assert(seen_before(snaps, i, name));
    }
}

proof fn lemma_snapshot_sound(
    snaps: Seq<SnapshotView>,
    i: int,
    names: Seq<Seq<char>>,
    has_baseline: bool,
    p: (Seq<char>, Seq<char>),
)
    requires
        snapshot_findings(snaps, i, names, has_baseline).contains(p),
    ensures
        names.contains(p.0),
        !seen_before(snaps, i, p.0),
        snaps[i].tests[p.0].state == TestState::Passing,
        !exempt(snaps, i, p.0, has_baseline),
        p.1 == snaps[i].commit,
    decreases names.len(),
{
    if names.len() > 0 {
        let v = snapshot_findings(snaps, i, names.drop_last(), has_baseline);
        let n = names.last();
        lemma_push_contains(v, (n, snaps[i].commit), p);
        if v.contains(p) {
            lemma_snapshot_sound(snaps, i, names.drop_last(), has_baseline, p);
            let k = names.drop_last().index_of(p.0);
            assert(names[k] == p.0);
        } else {
            assert(names[names.len() - 1] == n);
        }
    }
}

proof fn lemma_snapshot_complete(
    snaps: Seq<SnapshotView>,
    i: int,
    names: Seq<Seq<char>>,
    has_baseline: bool,
    n: Seq<char>,
)
    requires
        names.contains(n),
        !seen_before(snaps, i, n),
        snaps[i].tests[n].state == TestState::Passing,
        !exempt(snaps, i, n, has_baseline),
    ensures
        snapshot_findings(snaps, i, names, has_baseline).contains((n, snaps[i].commit)),
    decreases names.len(),
{
    let v = snapshot_findings(snaps, i, names.drop_last(), has_baseline);
    let last = names.last();
    if last == n {
        lemma_push_contains(v, (n, snaps[i].commit), (n, snaps[i].commit));
    } else {
        let k = names.index_of(n);
        assert(k < names.len() - 1);
        assert(names.drop_last()[k] == n);
        lemma_snapshot_complete(snaps, i, names.drop_last(), has_baseline, n);
        lemma_push_contains(v, (last, snaps[i].commit), (n, snaps[i].commit));
    }
}

proof fn lemma_history_sound(snaps: Seq<SnapshotView>, k: int, has_baseline: bool, p: (Seq<char>, Seq<char>))
    requires
        k <= snaps.len(),
        history_findings(snaps, k, has_baseline).contains(p),
    ensures
        exists|i: int|
            0 <= i < k && #[trigger] snaps[i].names.contains(p.0) && !seen_before(snaps, i, p.0)
                && snaps[i].tests[p.0].state == TestState::Passing && !exempt(
                snaps,
                i,
                p.0,
                has_baseline,
            ) && p.1 == snaps[i].commit,
    decreases k,
{
    if k > 0 {
        let a = history_findings(snaps, k - 1, has_baseline);
        let b = snapshot_findings(snaps, k - 1, snaps[k - 1].names, has_baseline);
        lemma_concat_contains(a, b, p);
        if a.contains(p) {
            lemma_history_sound(snaps, k - 1, has_baseline, p);
        } else {
            lemma_snapshot_sound(snaps, k - 1, snaps[k - 1].names, has_baseline, p);
            assert(snaps[k - 1].names.contains(p.0));
        }
    }
}

proof fn lemma_history_complete(
    snaps: Seq<SnapshotView>,
    k: int,
    has_baseline: bool,
    i: int,
    n: Seq<char>,
)
    requires
        0 <= i < k <= snaps.len(),
        snaps[i].names.contains(n),
        !seen_before(snaps, i, n),
        snaps[i].tests[n].state == TestState::Passing,
        !exempt(snaps, i, n, has_baseline),
    ensures
        history_findings(snaps, k, has_baseline).contains((n, snaps[i].commit)),
    decreases k,
{
    let a = history_findings(snaps, k - 1, has_baseline);
    let b = snapshot_findings(snaps, k - 1, snaps[k - 1].names, has_baseline);
    lemma_concat_contains(a, b, (n, snaps[i].commit));
    if i == k - 1 {
        lemma_snapshot_complete(snaps, i, snaps[i].names, has_baseline, n);
    } else {
        lemma_history_complete(snaps, k - 1, has_baseline, i, n);
    }
}

/// A history finding names a test at its first tracked appearance, where it
/// was passing without exemption, and that appearance's commit.
pub proof fn lemma_finding_is_first_appearance(
    snaps: Seq<SnapshotView>,
    has_baseline: bool,
    p: (Seq<char>, Seq<char>),
)
    requires
        snapshots_valid(snaps),
        skipped_pending(snaps, has_baseline).contains(p),
    ensures
        exists|i: int|
            #[trigger] first_seen_at(snaps, i, p.0) && snaps[i].tests[p.0].state
                == TestState::Passing && !exempt(snaps, i, p.0, has_baseline) && p.1
                == snaps[i].commit,
{
    lemma_history_sound(snaps, snaps.len() as int, has_baseline, p);
    let i = choose|i: int|
        0 <= i < snaps.len() && #[trigger] snaps[i].names.contains(p.0) && !seen_before(
            snaps,
            i,
            p.0,
        ) && snaps[i].tests[p.0].state == TestState::Passing && !exempt(
            snaps,
            i,
            p.0,
            has_baseline,
        ) && p.1 == snaps[i].commit;
    assert(snaps[i].tests.contains_key(p.0));
    assert(first_seen_at(snaps, i, p.0));
}

/// A test first tracked as passing, without exemption, is reported with the
/// commit of that first appearance.
pub proof fn lemma_first_appearance_passing_is_found(
    snaps: Seq<SnapshotView>,
    has_baseline: bool,
    i: int,
    name: Seq<char>,
)
    requires
        snapshots_valid(snaps),
        first_seen_at(snaps, i, name),
        snaps[i].tests[name].state == TestState::Passing,
        !exempt(snaps, i, name, has_baseline),
    ensures
        skipped_pending(snaps, has_baseline).contains((name, snaps[i].commit)),
{
    assert(snaps[i].names.contains(name));
    lemma_history_complete(snaps, snaps.len() as int, has_baseline, i, name);
}

/// Whether the findings name `name`.
pub open spec fn flags_test(findings: Seq<(Seq<char>, Seq<char>)>, name: Seq<char>) -> bool {
    exists|k: int| 0 <= k < findings.len() && #[trigger] findings[k].0 == name
}

/// A test first tracked as pending is never reported, whatever states it
/// takes in later snapshots, pending repeats and passing alike.
pub proof fn lemma_pending_first_never_flagged(
    snapshots: Seq<HistorySnapshot>,
    has_baseline: bool,
    i: int,
    j: int,
    name: Seq<char>,
)
    requires
        forall|k: int| 0 <= k < snapshots.len() ==> #[trigger] snapshots[k].status.tests.wf(),
        first_seen_at(snapshots_view(snapshots), i, name),
        snapshots_view(snapshots)[i].tests[name].state == TestState::Pending,
        i < j < snapshots.len(),
        snapshots_view(snapshots)[j].tests.contains_key(name),
        snapshots_view(snapshots)[j].tests[name].state == TestState::Passing,
    ensures
        !flags_test(skipped_pending(snapshots_view(snapshots), has_baseline), name),
{
    let sv = snapshots_view(snapshots);
    lemma_snapshots_valid(snapshots);
    let f = skipped_pending(sv, has_baseline);
    if flags_test(f, name) {
        let k = choose|k: int| 0 <= k < f.len() && #[trigger] f[k].0 == name;
        assert(f.contains(f[k]));
        lemma_finding_is_first_appearance(sv, has_baseline, f[k]);
        let w = choose|w: int|
            #[trigger] first_seen_at(sv, w, name) && sv[w].tests[name].state == TestState::Passing
                && !exempt(sv, w, name, has_baseline) && f[k].1 == sv[w].commit;
        lemma_first_seen_unique(sv, i, w, name);
    }
}

/// A test first tracked as passing in the oldest snapshot is grandfathered
/// when the ratchet was adopted there; without that adoption commit, and
/// with no other exemption, it is reported.
pub proof fn lemma_oldest_snapshot_grandfathered(snapshots: Seq<HistorySnapshot>, name: Seq<char>)
    requires
        forall|k: int| 0 <= k < snapshots.len() ==> #[trigger] snapshots[k].status.tests.wf(),
        snapshots.len() > 0,
        snapshots_view(snapshots)[0].tests.contains_key(name),
        snapshots_view(snapshots)[0].tests[name].state == TestState::Passing,
    ensures
        !flags_test(skipped_pending(snapshots_view(snapshots), true), name),
        !is_gatekeeper(name) && per_test_baseline(snapshots_view(snapshots), name) is None
            ==> skipped_pending(snapshots_view(snapshots), false).contains(
            (name, snapshots_view(snapshots)[0].commit),
        ),
{
    let sv = snapshots_view(snapshots);
    lemma_snapshots_valid(snapshots);
    assert(first_seen_at(sv, 0, name));
    let f = skipped_pending(sv, true);
    if flags_test(f, name) {
        let k = choose|k: int| 0 <= k < f.len() && #[trigger] f[k].0 == name;
        assert(f.contains(f[k]));
        lemma_finding_is_first_appearance(sv, true, f[k]);
        let w = choose|w: int|
            #[trigger] first_seen_at(sv, w, name) && sv[w].tests[name].state == TestState::Passing
                && !exempt(sv, w, name, true) && f[k].1 == sv[w].commit;
        lemma_first_seen_unique(sv, 0, w, name);
    }
    if !is_gatekeeper(name) && per_test_baseline(sv, name) is None {
        lemma_first_appearance_passing_is_found(sv, false, 0, name);
    }
}

/// A test whose per-test grandfather commit lies at or before its first
/// tracked appearance, or outside the visible history, is never reported,
/// with or without an adoption commit. The same history without that
/// per-test commit reports the test when it first appears as passing and
/// nothing else exempts it.
pub proof fn lemma_per_test_baseline_exempts(
    snapshots: Seq<HistorySnapshot>,
    has_baseline: bool,
    i: int,
    name: Seq<char>,
)
    requires
        forall|k: int| 0 <= k < snapshots.len() ==> #[trigger] snapshots[k].status.tests.wf(),
        first_seen_at(snapshots_view(snapshots), i, name),
    ensures
        ({
            let sv = snapshots_view(snapshots);
            per_test_baseline(sv, name) matches Some(b) && (commit_within(sv, b, i)
                || !commit_within(sv, b, sv.len() - 1)) ==> !flags_test(
                skipped_pending(sv, has_baseline),
                name,
            )
        }),
        ({
            let sv = snapshots_view(snapshots);
            per_test_baseline(sv, name) is None && sv[i].tests[name].state == TestState::Passing
                && !is_gatekeeper(name) && !(has_baseline && sv[i].commit == sv[0].commit)
                ==> skipped_pending(sv, has_baseline).contains((name, sv[i].commit))
        }),
{
    let sv = snapshots_view(snapshots);
    lemma_snapshots_valid(snapshots);
    let f = skipped_pending(sv, has_baseline);
    if per_test_baseline(sv, name) is Some && flags_test(f, name) {
        let k = choose|k: int| 0 <= k < f.len() && #[trigger] f[k].0 == name;
        assert(f.contains(f[k]));
        lemma_finding_is_first_appearance(sv, has_baseline, f[k]);
        let w = choose|w: int|
            #[trigger] first_seen_at(sv, w, name) && sv[w].tests[name].state == TestState::Passing
                && !exempt(sv, w, name, has_baseline) && f[k].1 == sv[w].commit;
        lemma_first_seen_unique(sv, i, w, name);
    }
    if per_test_baseline(sv, name) is None && sv[i].tests[name].state == TestState::Passing
        && !is_gatekeeper(name) && !(has_baseline && sv[i].commit == sv[0].commit) {
        lemma_first_appearance_passing_is_found(sv, has_baseline, i, name);
    }
}

/// One commit of a walk of the history, with the ledger document its tree
/// holds, if it holds one.
#[derive(Debug)]
pub struct CommitLedger {
    pub commit: String,
    pub document: Option<Json>,
}

/// Why a history could not be read.
#[derive(Clone, Debug, PartialEq, Eq)]
pub enum HistoryError {
    /// The adoption commit is not among the walked commits.
    BaselineNotFound { baseline: String },
    /// The ledger recorded at this commit does not follow the ledger schema.
    InvalidLedger { commit: String },
}

/// Whether the walk visits `commit`.
pub open spec fn walk_visits(walk: Seq<CommitLedger>, commit: Seq<char>) -> bool {
    exists|k: int| 0 <= k < walk.len() && #[trigger] walk[k].commit@ == commit
}

/// The first position at which the walk visits `commit`.
pub open spec fn first_visit(walk: Seq<CommitLedger>, commit: Seq<char>) -> int {
    choose|k: int|
        0 <= k < walk.len() && #[trigger] walk[k].commit@ == commit && forall|j: int|
            0 <= j < k ==> walk[j].commit@ != commit
}

/// Where the inspected part of the walk starts: at the adoption commit when
/// one is given, else at the oldest commit.
pub open spec fn walk_start(walk: Seq<CommitLedger>, baseline: Option<Seq<char>>) -> int {
    match baseline {
        Some(b) => first_visit(walk, b),
        None => 0,
    }
}

/// Whether position `k`, from `start` on, holds a ledger document that breaks
/// the ledger schema.
pub open spec fn invalid_at(walk: Seq<CommitLedger>, start: int, k: int) -> bool {
    &&& start <= k < walk.len()
    &&& match walk[k].document {
        Some(d) => !is_ledger_document(d),
        None => false,
    }
}

/// The snapshots of positions `start` up to `n` of the walk: one for each
/// commit that holds a ledger, oldest first.
pub open spec fn snapshots_of(walk: Seq<CommitLedger>, start: int, n: int) -> Seq<SnapshotView>
    decreases n - start,
{
    if n <= start {
        Seq::empty()
    } else {
        let prev = snapshots_of(walk, start, n - 1);
        match walk[n - 1].document {
            Some(d) => prev.push(
                SnapshotView {
                    commit: walk[n - 1].commit@,
                    tests: decode_ledger(d).tests,
                    names: sorted_names(decode_ledger(d).tests.dom()),
                },
            ),
            None => prev,
        }
    }
}

/// The adoption commit as characters.
pub open spec fn baseline_view(baseline: Option<&str>) -> Option<Seq<char>> {
    match baseline {
        Some(b) => Some(b@),
        None => None,
    }
}

/// Whether an adoption commit is given that the walk does not visit.
pub open spec fn baseline_missing(walk: Seq<CommitLedger>, baseline: Option<Seq<char>>) -> bool {
    match baseline {
        Some(b) => !walk_visits(walk, b),
        None => false,
    }
}

/// What reading the history from the walk gives when the adoption commit, if
/// any, is visited: the snapshots from the start on, or the error for the
/// oldest inspected ledger that breaks the schema.
pub open spec fn selected(walk: Seq<CommitLedger>, start: int, r: Result<Vec<HistorySnapshot>, HistoryError>) -> bool {
    &&& (r is Ok <==> forall|k: int| !invalid_at(walk, start, k))
    &&& (r is Ok ==> snapshots_view(r->Ok_0@) == snapshots_of(walk, start, walk.len() as int))
    &&& (r is Err ==> exists|k: int|
        #[trigger] invalid_at(walk, start, k) && r->Err_0 == HistoryError::InvalidLedger {
            commit: walk[k].commit,
        } && forall|j: int| j < k ==> !invalid_at(walk, start, j))
}

/// The first position at which the walk visits `commit`.
fn visit_position(walk: &[CommitLedger], commit: &str) -> (r: Option<usize>)
    ensures
        r is Some ==> r->0 == first_visit(walk@, commit@) && r->0 < walk@.len()
            && walk@[r->0 as int].commit@ == commit@,
        r is None ==> !walk_visits(walk@, commit@),
{
    let key = commit.to_owned();
    let mut i: usize = 0;
    while i < walk.len()
        invariant
            i <= walk@.len(),
            key@ == commit@,
            forall|j: int| 0 <= j < i ==> walk@[j].commit@ != commit@,
        decreases walk@.len() - i,
    {
        if walk[i].commit == key {
            proof {
                let k = first_visit(walk@, commit@);
                assert(0 <= i < walk@.len() && walk@[i as int].commit@ == commit@ && forall|j: int|
                    0 <= j < i ==> walk@[j].commit@ != commit@);
                if k < i {
                    assert(walk@[k].commit@ != commit@);
                }
                if k > i {
                    assert(walk@[i as int].commit@ != commit@);
                }
            }
            return Some(i);
        }
        i = i + 1;
    }
    None
}

/// Reads the history of the ledger from a walk of the commits, oldest first:
/// from the adoption commit on when one is given, one snapshot for each
/// commit whose tree holds a ledger. Fails when the adoption commit is not
/// visited, or at the oldest inspected ledger that breaks the schema.
pub fn select_snapshots(walk: &[CommitLedger], baseline: Option<&str>) -> (r: Result<
    Vec<HistorySnapshot>,
    HistoryError,
>)
    ensures
        baseline_missing(walk@, baseline_view(baseline)) ==> r is Err && r->Err_0
            is BaselineNotFound && r->Err_0->BaselineNotFound_baseline@ == baseline->0@,
        !baseline_missing(walk@, baseline_view(baseline)) ==> selected(
            walk@,
            walk_start(walk@, baseline_view(baseline)),
            r,
        ),
{
    let start: usize = match baseline {
        Some(b) => match visit_position(walk, b) {
            Some(k) => {
                assert(walk_visits(walk@, b@));
                k
            },
            None => return Err(HistoryError::BaselineNotFound { baseline: b.to_owned() }),
        },
        None => 0,
    };
    let ghost st = walk_start(walk@, baseline_view(baseline));
    assert(st == start);
    let mut out: Vec<HistorySnapshot> = Vec::new();
    assert(snapshots_view(out@) =~= Seq::<SnapshotView>::empty());
    let mut i: usize = start;
    while i < walk.len()
        invariant
            start <= i <= walk@.len(),
            st == start,
            st == walk_start(walk@, baseline_view(baseline)),
            !baseline_missing(walk@, baseline_view(baseline)),
            snapshots_view(out@) == snapshots_of(walk@, st, i as int),
            forall|k: int| k < i ==> !invalid_at(walk@, st, k),
        decreases walk@.len() - i,
    {
        match &walk[i].document {
            Some(d) => match StatusFile::from_json(d) {
                Ok(status) => {
                    let ghost out0 = out@;
                    out.push(HistorySnapshot { commit: walk[i].commit.clone(), status });
                    assert(snapshots_view(out@) =~= snapshots_view(out0).push(out@.last()@));
                },
                Err(_) => {
                    assert(invalid_at(walk@, st, i as int));
                    assert(!(forall|k: int| !invalid_at(walk@, st, k)));
                    return Err(HistoryError::InvalidLedger { commit: walk[i].commit.clone() });
                },
            },
            None => {},
        }
        assert(!invalid_at(walk@, st, i as int));
        i = i + 1;
    }
    Ok(out)
}

/// Reads the history of the ledger from a walk of the commits, oldest first,
/// and checks it: from the adoption commit on when one is given, in which
/// case the tests of its snapshot are grandfathered. Fails as
/// `select_snapshots` does.
pub fn check_history(walk: &[CommitLedger], baseline: Option<&str>) -> (r: Result<
    Vec<HistoryViolation>,
    HistoryError,
>)
    ensures
        baseline_missing(walk@, baseline_view(baseline)) ==> r is Err && r->Err_0
            is BaselineNotFound && r->Err_0->BaselineNotFound_baseline@ == baseline->0@,
        !baseline_missing(walk@, baseline_view(baseline)) ==> ({
            let start = walk_start(walk@, baseline_view(baseline));
            &&& (r is Ok <==> forall|k: int| !invalid_at(walk@, start, k))
            &&& (r is Ok ==> history_violations_view(r->Ok_0@) == skipped_pending(
                snapshots_of(walk@, start, walk@.len() as int),
                baseline is Some,
            ))
            &&& (r is Err ==> exists|k: int|
                #[trigger] invalid_at(walk@, start, k) && r->Err_0 == HistoryError::InvalidLedger {
                    commit: walk@[k].commit,
                } && forall|j: int| j < k ==> !invalid_at(walk@, start, j))
        }),
{
    match select_snapshots(walk, baseline) {
        Ok(snapshots) => Ok(check_history_snapshots(snapshots.as_slice(), baseline.is_some())),
        Err(e) => Err(e),
    }
}

} // verus!
