use vstd::prelude::*;
use vstd::string::StrSliceExecFns;

use crate::json::{
    Json, distinct_member_names, find_member, has_member, lemma_member_at, member, member_keys, text_is,
};
use crate::text::chars_of;

verus! {

/// How one test ended in a run of the suite.
#[derive(Clone, Copy, Debug, PartialEq, Eq, Structural)]
pub enum TestOutcome {
    Passed,
    Failed,
    Ignored,
}

/// The outcome of one named test in a run.
#[derive(Clone, Debug, PartialEq, Eq)]
pub struct TestResult {
    pub name: String,
    pub outcome: TestOutcome,
}

/// A test outcome with its name seen as characters.
pub ghost struct ResultView {
    pub name: Seq<char>,
    pub outcome: TestOutcome,
}

impl View for TestResult {
    type V = ResultView;

    open spec fn view(&self) -> ResultView {
        ResultView { name: self.name@, outcome: self.outcome }
    }
}

/// The outcomes of a run, seen as names and outcomes.
pub open spec fn results_view(results: Seq<TestResult>) -> Seq<ResultView> {
    results.map_values(|r: TestResult| r@)
}

/// The outcome an event word reports.
pub open spec fn outcome_of_event(e: Seq<char>) -> Option<TestOutcome> {
    if e == "ok"@ {
        Some(TestOutcome::Passed)
    } else if e == "failed"@ {
        Some(TestOutcome::Failed)
    } else if e == "ignored"@ {
        Some(TestOutcome::Ignored)
    } else {
        None
    }
}

/// Whether `k` is the first position of a `$` in `s`.
pub open spec fn first_dollar(s: Seq<char>, k: int) -> bool {
    0 <= k < s.len() && s[k] == '$' && forall|j: int| 0 <= j < k ==> s[j] != '$'
}

/// The test's own name within a reported name `binary$test`: what follows
/// the first `$`, or the whole name when it has none.
pub open spec fn short_name(full: Seq<char>) -> Seq<char> {
    if exists|k: int| first_dollar(full, k) {
        full.subrange((choose|k: int| first_dollar(full, k)) + 1, full.len() as int)
    } else {
        full
    }
}

/// Whether the member `key` of the object is a string.
pub open spec fn text_member(fs: Seq<(String, Json)>, key: Seq<char>) -> bool {
    has_member(fs, key) && member(fs, key) is Str
}

/// The result a harness event reports: a `test` event whose `event` is
/// `ok`, `failed` or `ignored` and that names its test. Other events, and
/// objects with a repeated member, report none.
pub open spec fn event_result(j: Json) -> Option<ResultView> {
    match j {
        Json::Object(fs) => {
            let fs = fs@;
            if member_keys(fs).no_duplicates() && text_member(fs, "type"@) && member(
                fs,
                "type"@,
            )->Str_0@ == "test"@ && text_member(fs, "event"@) && outcome_of_event(
                member(fs, "event"@)->Str_0@,
            ) is Some && text_member(fs, "name"@) {
                Some(
                    ResultView {
                        name: short_name(member(fs, "name"@)->Str_0@),
                        outcome: outcome_of_event(member(fs, "event"@)->Str_0@)->0,
                    },
                )
            } else {
                None
            }
        },
        _ => None,
    }
}

/// The results of a sequence of events, in order.
pub open spec fn events_results(events: Seq<Json>) -> Seq<ResultView>
    decreases events.len(),
{
    if events.len() == 0 {
        Seq::empty()
    } else {
        let r = events_results(events.drop_last());
        match event_result(events.last()) {
            Some(x) => r.push(x),
            None => r,
        }
    }
}

/// The test's own name within a reported name.
pub fn short_test_name(full: &String) -> (r: String)
    ensures
        r@ == short_name(full@),
{
    let cs = chars_of(full.as_str());
    let mut i: usize = 0;
    while i < cs.len()
        invariant
            cs@ == full@,
            i <= cs@.len(),
            forall|j: int| 0 <= j < i ==> cs@[j] != '$',
        decreases cs@.len() - i,
    {
        if cs[i] == '$' {
            proof {
                assert(first_dollar(full@, i as int));
                let k = choose|k: int| first_dollar(full@, k);
                if k < i {
                    assert(full@[k] != '$');
                }
                if k > i {
                    assert(full@[i as int] != '$');
                }
            }
            let n = full.as_str().unicode_len();
            return full.as_str().substring_char(i + 1, n).to_owned();
        }
        i = i + 1;
    }
    proof {
        if exists|k: int| first_dollar(full@, k) {
            let k = choose|k: int| first_dollar(full@, k);
            assert(cs@[k] != '$');
        }
    }
    full.clone()
}

fn outcome_from_event(e: &String) -> (r: Option<TestOutcome>)
    ensures
        r == outcome_of_event(e@),
{
    if text_is(e, "ok") {
        Some(TestOutcome::Passed)
    } else if text_is(e, "failed") {
        Some(TestOutcome::Failed)
    } else if text_is(e, "ignored") {
        Some(TestOutcome::Ignored)
    } else {
        None
    }
}

/// The result a harness event reports, if it reports one.
pub fn result_from_event(event: &Json) -> (r: Option<TestResult>)
    ensures
        r is Some <==> event_result(*event) is Some,
        r is Some ==> r->0@ == event_result(*event)->0,
{
    let fs = match event {
        Json::Object(fs) => fs,
        _ => return None,
    };
    if !distinct_member_names(fs) {
        return None;
    }
    let ti = match find_member(fs, "type") {
        Some(i) => i,
        None => return None,
    };
    let ei = match find_member(fs, "event") {
        Some(i) => i,
        None => return None,
    };
    let ni = match find_member(fs, "name") {
        Some(i) => i,
        None => return None,
    };
    proof {
        lemma_member_at(fs@, ti as int);
        lemma_member_at(fs@, ei as int);
        lemma_member_at(fs@, ni as int);
    }
    let kind = match &fs[ti].1 {
        Json::Str(k) => k,
        _ => return None,
    };
    let word = match &fs[ei].1 {
        Json::Str(w) => w,
        _ => return None,
    };
    let full = match &fs[ni].1 {
        Json::Str(n) => n,
        _ => return None,
    };
    if !text_is(kind, "test") {
        return None;
    }
    let outcome = match outcome_from_event(word) {
        Some(o) => o,
        None => return None,
    };
    Some(TestResult { name: short_test_name(full), outcome })
}

/// The results reported by a run's events, in order; events that report no
/// result are passed over.
pub fn results_from_events(events: &[Json]) -> (r: Vec<TestResult>)
    ensures
        results_view(r@) == events_results(events@),
{
    let mut out: Vec<TestResult> = Vec::new();
    assert(events@.take(0) =~= Seq::<Json>::empty());
    assert(results_view(out@) =~= Seq::<ResultView>::empty());
    let mut i: usize = 0;
    while i < events.len()
        invariant
            i <= events@.len(),
            results_view(out@) == events_results(events@.take(i as int)),
        decreases events@.len() - i,
    {
        assert(events@.take(i + 1).drop_last() =~= events@.take(i as int));
        assert(events@.take(i + 1).last() == events@[i as int]);
        let ghost out0 = out@;
        match result_from_event(&events[i]) {
            Some(res) => {
                out.push(res);
                assert(results_view(out@) =~= results_view(out0).push(out@.last()@));
            },
            None => {},
        }
        i = i + 1;
    }
    assert(events@.take(events@.len() as int) =~= events@);
    out
}

} // verus!
