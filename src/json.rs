use vstd::prelude::*;

use crate::status::{EntryView, LedgerView, StatusFile, TestEntry, TestMap, TestState, sorted_names};

verus! {

/// A JSON document as plain values. Numbers keep their textual form; an
/// object keeps its members in order.
#[derive(Debug)]
pub enum Json {
    Null,
    Bool(bool),
    Number(String),
    Str(String),
    Array(Vec<Json>),
    Object(Vec<(String, Json)>),
}

/// The schema identifier written into every saved ledger.
pub const SCHEMA_URL: &'static str = "https://tdd-ratchet.maxeonyx.com/schema/test-status.v1.json";

/// The ledger file does not follow the ledger schema.
#[derive(Clone, Copy, Debug, PartialEq, Eq, Structural)]
pub struct SchemaError;

pub open spec fn member_keys(fs: Seq<(String, Json)>) -> Seq<Seq<char>> {
    fs.map_values(|f: (String, Json)| f.0@)
}

pub open spec fn has_member(fs: Seq<(String, Json)>, key: Seq<char>) -> bool {
    exists|i: int| 0 <= i < fs.len() && #[trigger] fs[i].0@ == key
}

/// The position of a member named `key`, for an object that has one.
pub open spec fn member_index(fs: Seq<(String, Json)>, key: Seq<char>) -> int {
    choose|i: int| 0 <= i < fs.len() && #[trigger] fs[i].0@ == key
}

/// The value of the member named `key`, for an object that has one.
pub open spec fn member(fs: Seq<(String, Json)>, key: Seq<char>) -> Json {
    fs[member_index(fs, key)].1
}

/// Whether every member of the object is named by one of `allowed`.
pub open spec fn members_within(fs: Seq<(String, Json)>, allowed: Seq<Seq<char>>) -> bool {
    forall|i: int| 0 <= i < fs.len() ==> allowed.contains(#[trigger] fs[i].0@)
}

/// The state named by a ledger word.
pub open spec fn state_of_word(w: Seq<char>) -> Option<TestState> {
    if w == "pending"@ {
        Some(TestState::Pending)
    } else if w == "passing"@ {
        Some(TestState::Passing)
    } else {
        None
    }
}

pub open spec fn decode_state(v: Json) -> Option<TestState> {
    match v {
        Json::Str(s) => state_of_word(s@),
        _ => None,
    }
}

/// A ledger entry: a bare state word, or an object with exactly a `state`
/// word and a `baseline` commit.
pub open spec fn decode_entry(v: Json) -> Option<EntryView> {
    match v {
        Json::Str(s) => match state_of_word(s@) {
            Some(st) => Some(EntryView { state: st, baseline: None }),
            None => None,
        },
        Json::Object(fs) => {
            let fs = fs@;
            if member_keys(fs).no_duplicates() && members_within(fs, seq!["state"@, "baseline"@])
                && has_member(fs, "state"@) && has_member(fs, "baseline"@) && decode_state(
                member(fs, "state"@),
            ) is Some && member(fs, "baseline"@) is Str {
                Some(
                    EntryView {
                        state: decode_state(member(fs, "state"@))->0,
                        baseline: Some(member(fs, "baseline"@)->Str_0@),
                    },
                )
            } else {
                None
            }
        },
        _ => None,
    }
}

/// The tests of a ledger: every member decodes as an entry, each name once.
pub open spec fn decode_tests(fs: Seq<(String, Json)>) -> Option<Map<Seq<char>, EntryView>> {
    if member_keys(fs).no_duplicates() && forall|i: int|
        0 <= i < fs.len() ==> decode_entry(#[trigger] fs[i].1) is Some {
        Some(
            Map::new(
                |k: Seq<char>| has_member(fs, k),
                |k: Seq<char>| decode_entry(member(fs, k))->0,
            ),
        )
    } else {
        None
    }
}

/// An optional text: `null` or a string.
pub open spec fn decode_optional_text(v: Json) -> Option<Option<Seq<char>>> {
    match v {
        Json::Null => Some(None),
        Json::Str(s) => Some(Some(s@)),
        _ => None,
    }
}

/// Whether `j` is a ledger document: an object with a `tests` object, an
/// optional `$schema` and an optional `baseline`, and no other member.
pub open spec fn is_ledger_document(j: Json) -> bool {
    match j {
        Json::Object(fs) => {
            let fs = fs@;
            &&& member_keys(fs).no_duplicates()
            &&& members_within(fs, seq!["$schema"@, "tests"@, "baseline"@])
            &&& has_member(fs, "tests"@)
            &&& member(fs, "tests"@) matches Json::Object(tfs) && decode_tests(tfs@) is Some
            &&& has_member(fs, "$schema"@) ==> decode_optional_text(member(fs, "$schema"@)) is Some
            &&& has_member(fs, "baseline"@) ==> decode_optional_text(member(fs, "baseline"@)) is Some
        },
        _ => false,
    }
}

/// The ledger a ledger document describes.
pub open spec fn decode_ledger(j: Json) -> LedgerView
    recommends
        is_ledger_document(j),
{
    let fs = j->Object_0@;
    let tfs = member(fs, "tests"@)->Object_0@;
    LedgerView {
        tests: decode_tests(tfs)->0,
        baseline: if has_member(fs, "baseline"@) {
            decode_optional_text(member(fs, "baseline"@))->0
        } else {
            None
        },
    }
}

/// In an object with distinct member names, the member named like the one at
/// `i` is that one.
pub proof fn lemma_member_at(fs: Seq<(String, Json)>, i: int)
    requires
        member_keys(fs).no_duplicates(),
        0 <= i < fs.len(),
    ensures
        has_member(fs, fs[i].0@),
        member(fs, fs[i].0@) == fs[i].1,
{
    let key = fs[i].0@;
    assert(fs[i].0@ == key);
    let j = member_index(fs, key);
    assert(member_keys(fs)[j] == fs[j].0@);
    assert(member_keys(fs)[i] == fs[i].0@);
    assert(j == i);
}

pub(crate) fn text_is(a: &String, b: &str) -> (r: bool)
    ensures
        r == (a@ == b@),
{
    *a == b.to_owned()
}

fn state_from_word(w: &String) -> (r: Option<TestState>)
    ensures
        r == state_of_word(w@),
{
    if text_is(w, "pending") {
        Some(TestState::Pending)
    } else if text_is(w, "passing") {
        Some(TestState::Passing)
    } else {
        None
    }
}

/// The index of the member named `key`.
pub(crate) fn find_member(fs: &Vec<(String, Json)>, key: &str) -> (r: Option<usize>)
    ensures
        r is Some ==> r->0 < fs@.len() && fs@[r->0 as int].0@ == key@,
        r is None ==> !has_member(fs@, key@),
{
    let mut i: usize = 0;
    while i < fs.len()
        invariant
            i <= fs@.len(),
            forall|j: int| 0 <= j < i ==> fs@[j].0@ != key@,
        decreases fs@.len() - i,
    {
        if text_is(&fs[i].0, key) {
            return Some(i);
        }
        i = i + 1;
    }
    None
}

/// Whether no two members share a name.
pub fn distinct_member_names(fs: &Vec<(String, Json)>) -> (r: bool)
    ensures
        r == member_keys(fs@).no_duplicates(),
{
    let ghost keys = member_keys(fs@);
    let mut i: usize = 0;
    while i < fs.len()
        invariant
            i <= fs@.len(),
            keys == member_keys(fs@),
            forall|a: int, b: int| 0 <= a < i && 0 <= b < i && a != b ==> keys[a] != keys[b],
        decreases fs@.len() - i,
    {
        let mut j: usize = 0;
        while j < i
            invariant
                j <= i < fs@.len(),
                keys == member_keys(fs@),
                forall|a: int, b: int| 0 <= a < i && 0 <= b < i && a != b ==> keys[a] != keys[b],
                forall|b: int| 0 <= b < j ==> keys[i as int] != keys[b],
            decreases i - j,
        {
            if fs[i].0 == fs[j].0 {
                assert(keys[i as int] == keys[j as int]);
                return false;
            }
            j = j + 1;
        }
        i = i + 1;
    }
    true
}

/// Whether every member is named `first` or `second`, or `third` if given.
fn members_among(fs: &Vec<(String, Json)>, first: &str, second: &str, third: Option<&str>) -> (r:
    bool)
    ensures
        r == members_within(
            fs@,
            match third {
                Some(t) => seq![first@, second@, t@],
                None => seq![first@, second@],
            },
        ),
{
    let ghost allowed = match third {
        Some(t) => seq![first@, second@, t@],
        None => seq![first@, second@],
    };
    let mut i: usize = 0;
    while i < fs.len()
        invariant
            i <= fs@.len(),
            allowed == match third {
                Some(t) => seq![first@, second@, t@],
                None => seq![first@, second@],
            },
            forall|j: int| 0 <= j < i ==> allowed.contains(#[trigger] fs@[j].0@),
        decreases fs@.len() - i,
    {
        let k = &fs[i].0;
        let known = text_is(k, first) || text_is(k, second) || match third {
            Some(t) => text_is(k, t),
            None => false,
        };
        if !known {
            assert(!allowed.contains(fs@[i as int].0@));
            return false;
        }
        assert(k@ == allowed[0] || k@ == allowed[1] || (allowed.len() == 3 && k@ == allowed[2]));
        i = i + 1;
    }
    true
}

/// Reads a ledger entry: a state word, or an object with exactly a state and
/// a baseline.
fn entry_from_json(v: &Json) -> (r: Option<TestEntry>)
    ensures
        r is Some <==> decode_entry(*v) is Some,
        r is Some ==> r->0@ == decode_entry(*v)->0,
{
    match v {
        Json::Str(w) => match state_from_word(w) {
            Some(st) => Some(TestEntry::Simple(st)),
            None => None,
        },
        Json::Object(fs) => {
            if !distinct_member_names(fs) || !members_among(fs, "state", "baseline", None) {
                return None;
            }
            let si = match find_member(fs, "state") {
                Some(i) => i,
                None => return None,
            };
            let bi = match find_member(fs, "baseline") {
                Some(i) => i,
                None => return None,
            };
            proof {
                lemma_member_at(fs@, si as int);
                lemma_member_at(fs@, bi as int);
            }
            let st = match &fs[si].1 {
                Json::Str(w) => match state_from_word(w) {
                    Some(st) => st,
                    None => return None,
                },
                _ => return None,
            };
            match &fs[bi].1 {
                Json::Str(b) => Some(TestEntry::WithBaseline { state: st, baseline: b.clone() }),
                _ => None,
            }
        },
        _ => None,
    }
}

/// Reads the tests of a ledger, keeping the members' order.
fn tests_from_json(fs: &Vec<(String, Json)>) -> (r: Option<TestMap>)
    ensures
        r is Some <==> decode_tests(fs@) is Some,
        r is Some ==> r->0@ == decode_tests(fs@)->0,
{
    if !distinct_member_names(fs) {
        return None;
    }
    let ghost keys = member_keys(fs@);
    let mut m = TestMap::new();
    assert(keys.take(0) =~= Seq::<Seq<char>>::empty());
    let mut i: usize = 0;
    while i < fs.len()
        invariant
            i <= fs@.len(),
            keys == member_keys(fs@),
            keys.no_duplicates(),
            forall|j: int| 0 <= j < i ==> decode_entry(#[trigger] fs@[j].1) is Some,
            forall|j: int| 0 <= j < i ==> #[trigger] m@[keys[j]] == decode_entry(fs@[j].1)->0,
            forall|k: Seq<char>| #[trigger] m@.contains_key(k) <==> keys.take(i as int).contains(k),
        decreases fs@.len() - i,
    {
        let entry = match entry_from_json(&fs[i].1) {
            Some(e) => e,
            None => {
                assert(!(decode_entry(fs@[i as int].1) is Some));
                return None;
            },
        };
        let ghost k = fs@[i as int].0@;
        assert(keys[i as int] == k);
        assert(!keys.take(i as int).contains(k)) by {
            if keys.take(i as int).contains(k) {
                let w = keys.take(i as int).index_of(k);
                assert(keys[w] == keys[i as int]);
            }
        }
        let ghost m0 = m@;
        m.insert(fs[i].0.clone(), entry);
        proof {
            m.lemma_view();
            assert(keys.take(i + 1) =~= keys.take(i as int).push(k));
            assert forall|kk: Seq<char>| #[trigger] m@.contains_key(kk) <==> keys.take(i + 1).contains(
                kk,
            ) by {
                crate::history::lemma_push_contains(keys.take(i as int), k, kk);
            }
            assert forall|j: int| 0 <= j < i + 1 implies #[trigger] m@[keys[j]] == decode_entry(
                fs@[j].1,
            )->0 by {
                if j < i {
                    assert(keys[j] != k) by {
                        assert(keys.take(i as int)[j] == keys[j]);
                    }
                }
            }
        }
        i = i + 1;
    }
    assert(keys.take(fs@.len() as int) =~= keys);
    proof {
        let target = decode_tests(fs@)->0;
        assert forall|kk: Seq<char>| #[trigger] m@.contains_key(kk) <==> has_member(fs@, kk) by {
            if keys.contains(kk) {
                let w = keys.index_of(kk);
                assert(fs@[w].0@ == kk);
            }
            if has_member(fs@, kk) {
                let w = choose|w: int| 0 <= w < fs@.len() && #[trigger] fs@[w].0@ == kk;
                assert(keys[w] == kk);
            }
        }
        assert forall|kk: Seq<char>| m@.contains_key(kk) implies #[trigger] m@[kk] == target[kk] by {
            let w = keys.index_of(kk);
            assert(keys[w] == fs@[w].0@);
            lemma_member_at(fs@, w);
        }
        assert(m@ =~= target);
    }
    Some(m)
}

/// Reads an optional text: `null` or a string.
fn optional_text_from_json(v: &Json) -> (r: Option<Option<String>>)
    ensures
        r is Some <==> decode_optional_text(*v) is Some,
        r is Some ==> crate::status::opt_chars(r->0) == decode_optional_text(*v)->0,
{
    match v {
        Json::Null => Some(None),
        Json::Str(s) => Some(Some(s.clone())),
        _ => None,
    }
}

/// Whether `v` is the string `t`.
pub open spec fn text_value_is(v: Json, t: Seq<char>) -> bool {
    match v {
        Json::Str(s) => s@ == t,
        _ => false,
    }
}

/// Whether `v` encodes the entry `e`: a bare state word when it has no
/// baseline, else an object with the state and the baseline.
pub open spec fn entry_encoded_as(v: Json, e: EntryView) -> bool {
    match e.baseline {
        None => text_value_is(v, e.state.word()),
        Some(b) => match v {
            Json::Object(fs) => {
                &&& fs@.len() == 2
                &&& fs@[0].0@ == "state"@
                &&& text_value_is(fs@[0].1, e.state.word())
                &&& fs@[1].0@ == "baseline"@
                &&& text_value_is(fs@[1].1, b)
            },
            _ => false,
        },
    }
}

/// Whether `j` is the saved form of the ledger `x` with its tests in the
/// order `names`: the schema identifier, the tests, then the adoption commit
/// if there is one.
pub open spec fn ledger_encoded_as(j: Json, x: LedgerView, names: Seq<Seq<char>>) -> bool {
    match j {
        Json::Object(fs) => {
            &&& fs@.len() == if x.baseline is Some {
                3int
            } else {
                2int
            }
            &&& fs@[0].0@ == "$schema"@
            &&& text_value_is(fs@[0].1, SCHEMA_URL@)
            &&& fs@[1].0@ == "tests"@
            &&& match fs@[1].1 {
                Json::Object(tfs) => {
                    &&& member_keys(tfs@) == names
                    &&& forall|i: int|
                        0 <= i < tfs@.len() ==> entry_encoded_as(
                            #[trigger] tfs@[i].1,
                            x.tests[names[i]],
                        )
                },
                _ => false,
            }
            &&& match x.baseline {
                Some(b) => fs@[2].0@ == "baseline"@ && text_value_is(fs@[2].1, b),
                None => true,
            }
        },
        _ => false,
    }
}

fn entry_to_json(e: &TestEntry) -> (r: Json)
    ensures
        entry_encoded_as(r, e@),
{
    match e {
        TestEntry::Simple(st) => Json::Str(st.as_str().to_owned()),
        TestEntry::WithBaseline { state, baseline } => {
            let mut fs: Vec<(String, Json)> = Vec::new();
            fs.push(("state".to_owned(), Json::Str(state.as_str().to_owned())));
            fs.push(("baseline".to_owned(), Json::Str(baseline.clone())));
            Json::Object(fs)
        },
    }
}

impl StatusFile {
    /// Reads a ledger from its document. Fails exactly when the document does
    /// not follow the ledger schema: unknown or repeated members, a missing
    /// `tests` object, an entry that is neither a state word nor a state
    /// with a baseline, or a `$schema` or `baseline` that is not text.
    pub fn from_json(j: &Json) -> (r: Result<StatusFile, SchemaError>)
        ensures
            r is Ok <==> is_ledger_document(*j),
            r is Ok ==> r->Ok_0@ == decode_ledger(*j),
            r is Ok ==> r->Ok_0.tests.names() == sorted_names(r->Ok_0@.tests.dom()),
    {
        let fs = match j {
            Json::Object(fs) => fs,
            _ => return Err(SchemaError),
        };
        if !distinct_member_names(fs) || !members_among(fs, "$schema", "tests", Some("baseline")) {
            return Err(SchemaError);
        }
        let ti = match find_member(fs, "tests") {
            Some(i) => i,
            None => return Err(SchemaError),
        };
        proof {
            lemma_member_at(fs@, ti as int);
        }
        let tests = match &fs[ti].1 {
            Json::Object(tfs) => match tests_from_json(tfs) {
                Some(m) => m,
                None => return Err(SchemaError),
            },
            _ => return Err(SchemaError),
        };
        match find_member(fs, "$schema") {
            Some(si) => {
                proof {
                    lemma_member_at(fs@, si as int);
                }
                if optional_text_from_json(&fs[si].1).is_none() {
                    return Err(SchemaError);
                }
            },
            None => {},
        }
        let baseline = match find_member(fs, "baseline") {
            Some(bi) => {
                proof {
                    lemma_member_at(fs@, bi as int);
                }
                match optional_text_from_json(&fs[bi].1) {
                    Some(b) => b,
                    None => return Err(SchemaError),
                }
            },
            None => None,
        };
        proof {
            use_type_invariant(&tests);
            tests.lemma_view();
        }
        Ok(StatusFile::new(tests, baseline))
    }

    /// The document to save: the schema identifier, each test in ledger
    /// order in its compact form when it has no baseline, and the adoption
    /// commit when there is one.
    pub fn to_json(&self) -> (r: Json)
        ensures
            ledger_encoded_as(r, self@, self.tests.names()),
    {
        let recs = self.tests.records();
        proof {
            self.tests.lemma_view();
        }
        let ghost names = self.tests.names();
        let mut tfs: Vec<(String, Json)> = Vec::new();
        let mut i: usize = 0;
        while i < recs.len()
            invariant
                i <= recs@.len(),
                names == self.tests.names(),
                names == crate::status::record_names(recs@),
                forall|k: int| 0 <= k < names.len() ==> #[trigger] self@.tests[names[k]]
                    == recs@[k].entry@,
                tfs@.len() == i,
                forall|k: int| 0 <= k < i ==> #[trigger] tfs@[k].0@ == names[k],
                forall|k: int|
                    0 <= k < i ==> entry_encoded_as(#[trigger] tfs@[k].1, self@.tests[names[k]]),
            decreases recs@.len() - i,
        {
            assert(names[i as int] == recs@[i as int].name@);
            tfs.push((recs[i].name.clone(), entry_to_json(&recs[i].entry)));
            i = i + 1;
        }
        assert(member_keys(tfs@) =~= names);
        let mut fs: Vec<(String, Json)> = Vec::new();
        fs.push(("$schema".to_owned(), Json::Str(SCHEMA_URL.to_owned())));
        fs.push(("tests".to_owned(), Json::Object(tfs)));
        match &self.baseline {
            Some(b) => fs.push(("baseline".to_owned(), Json::Str(b.clone()))),
            None => {},
        }
        Json::Object(fs)
    }
}

proof fn lemma_words_differ()
    ensures
        state_of_word(TestState::Pending.word()) == Some(TestState::Pending),
        state_of_word(TestState::Passing.word()) == Some(TestState::Passing),
        "$schema"@ != "tests"@,
        "$schema"@ != "baseline"@,
        "tests"@ != "baseline"@,
        "state"@ != "baseline"@,
{
    reveal_strlit("pending");
    reveal_strlit("passing");
    reveal_strlit("$schema");
    reveal_strlit("tests");
    reveal_strlit("baseline");
    reveal_strlit("state");
    assert("pending"@[2] != "passing"@[2]);
    assert("$schema"@[0] != "tests"@[0]);
    assert("$schema"@[0] != "baseline"@[0]);
    assert("tests"@[0] != "baseline"@[0]);
    assert("state"@[1] != "baseline"@[1]);
}

proof fn lemma_entry_round_trip(v: Json, e: EntryView)
    requires
        entry_encoded_as(v, e),
    ensures
        decode_entry(v) == Some(e),
{
    lemma_words_differ();
    match e.baseline {
        None => {},
        Some(b) => {
            let fs = v->Object_0@;
            assert(member_keys(fs)[0] == fs[0].0@);
            assert(member_keys(fs)[1] == fs[1].0@);
            assert(member_keys(fs).no_duplicates());
            assert(members_within(fs, seq!["state"@, "baseline"@])) by {
                assert(seq!["state"@, "baseline"@][0] == "state"@);
                assert(seq!["state"@, "baseline"@][1] == "baseline"@);
            }
            lemma_member_at(fs, 0);
            lemma_member_at(fs, 1);
        },
    }
}

/// Saving a ledger and reading the saved document back gives the same
/// ledger: the same tests with the same entries and the same adoption
/// commit. The saved document lists the tests in ascending order.
pub proof fn lemma_round_trip(ledger: StatusFile, j: Json)
    requires
        ledger.tests.wf(),
        ledger_encoded_as(j, ledger@, ledger.tests.names()),
    ensures
        is_ledger_document(j),
        decode_ledger(j) == ledger@,
{
    lemma_words_differ();
    ledger.tests.lemma_view();
    let names = ledger.tests.names();
    let x = ledger@;
    let fs = j->Object_0@;
    let tfs = fs[1].1->Object_0@;
    let allowed = seq!["$schema"@, "tests"@, "baseline"@];
    assert(allowed[0] == "$schema"@ && allowed[1] == "tests"@ && allowed[2] == "baseline"@);
    assert(forall|i: int| 0 <= i < fs.len() ==> #[trigger] member_keys(fs)[i] == fs[i].0@);
    assert(member_keys(fs).no_duplicates());
    assert(members_within(fs, allowed)) by {
        assert forall|i: int| 0 <= i < fs.len() implies allowed.contains(#[trigger] fs[i].0@) by {
            if i == 0 {
                assert(allowed[0] == fs[i].0@);
            } else if i == 1 {
                assert(allowed[1] == fs[i].0@);
            } else {
                assert(allowed[2] == fs[i].0@);
            }
        }
    }
    lemma_member_at(fs, 0);
    lemma_member_at(fs, 1);
    assert(forall|i: int| 0 <= i < tfs.len() ==> #[trigger] member_keys(tfs)[i] == tfs[i].0@);
    assert forall|i: int| 0 <= i < tfs.len() implies decode_entry(#[trigger] tfs[i].1) == Some(
        x.tests[names[i]],
    ) by {
        lemma_entry_round_trip(tfs[i].1, x.tests[names[i]]);
    }
    assert forall|i: int| 0 <= i < tfs.len() implies decode_entry(#[trigger] tfs[i].1) is Some by {
        assert(decode_entry(tfs[i].1) == Some(x.tests[names[i]]));
    }
    let decoded = decode_tests(tfs)->0;
    assert(decoded =~= x.tests) by {
        assert forall|k: Seq<char>| #[trigger] decoded.contains_key(k) <==> x.tests.contains_key(k) by {
            if has_member(tfs, k) {
                let w = choose|w: int| 0 <= w < tfs.len() && #[trigger] tfs[w].0@ == k;
                assert(names[w] == k);
            }
            if x.tests.contains_key(k) {
                let w = names.index_of(k);
                assert(tfs[w].0@ == k);
            }
        }
        assert forall|k: Seq<char>| decoded.contains_key(k) implies #[trigger] decoded[k]
            == x.tests[k] by {
            let w = choose|w: int| 0 <= w < tfs.len() && #[trigger] tfs[w].0@ == k;
            lemma_member_at(tfs, w);
            assert(names[w] == k);
        }
    }
    if x.baseline is Some {
        lemma_member_at(fs, 2);
    } else {
        assert(!has_member(fs, "baseline"@)) by {
            if has_member(fs, "baseline"@) {
                let w = choose|w: int| 0 <= w < fs.len() && #[trigger] fs[w].0@ == "baseline"@;
                assert(w == 0 || w == 1);
            }
        }
    }
}

} // verus!
