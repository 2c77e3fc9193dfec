use vstd::prelude::*;

use crate::text::{
    chars_of, lemma_text_lt_irreflexive, lemma_text_lt_total, lemma_text_lt_transitive, text_less,
    text_lt,
};

verus! {

/// Last known state of a tracked test.
#[derive(Clone, Copy, Debug, PartialEq, Eq, Structural)]
pub enum TestState {
    Pending,
    Passing,
}

impl TestState {
    /// The lower-case word used for this state in the ledger file.
    pub fn as_str(&self) -> (r: &'static str)
        ensures
            r@ == self.word(),
    {
        match self {
            TestState::Pending => "pending",
            TestState::Passing => "passing",
        }
    }

    pub open spec fn word(&self) -> Seq<char> {
        match self {
            TestState::Pending => "pending"@,
            TestState::Passing => "passing"@,
        }
    }
}

/// The logical content of a ledger entry: its state and its optional
/// per-test grandfather commit.
pub ghost struct EntryView {
    pub state: TestState,
    pub baseline: Option<Seq<char>>,
}

/// One tracked test in the ledger. `Simple` is the compact form used when no
/// per-test baseline is recorded; both forms describe the same kind of entry.
#[derive(Clone, Debug, PartialEq, Eq)]
pub enum TestEntry {
    Simple(TestState),
    WithBaseline { state: TestState, baseline: String },
}

impl View for TestEntry {
    type V = EntryView;

    open spec fn view(&self) -> EntryView {
        match self {
            TestEntry::Simple(s) => EntryView { state: *s, baseline: None },
            TestEntry::WithBaseline { state, baseline } => EntryView {
                state: *state,
                baseline: Some(baseline@),
            },
        }
    }
}

impl TestEntry {
    pub fn state(&self) -> (r: TestState)
        ensures
            r == self@.state,
    {
        match self {
            TestEntry::Simple(s) => *s,
            TestEntry::WithBaseline { state, .. } => *state,
        }
    }

    pub fn baseline(&self) -> (r: Option<&str>)
        ensures
            r is Some <==> self@.baseline is Some,
            r is Some ==> r->0@ == self@.baseline->0,
    {
        match self {
            TestEntry::Simple(_) => None,
            TestEntry::WithBaseline { baseline, .. } => Some(baseline.as_str()),
        }
    }

    pub fn clone_entry(&self) -> (r: TestEntry)
        ensures
            r@ == self@,
    {
        match self {
            TestEntry::Simple(s) => TestEntry::Simple(*s),
            TestEntry::WithBaseline { state, baseline } => TestEntry::WithBaseline {
                state: *state,
                baseline: baseline.clone(),
            },
        }
    }
}

/// A named entry of the ledger.
#[derive(Clone, Debug, PartialEq, Eq)]
pub struct TestRecord {
    pub name: String,
    pub entry: TestEntry,
}

/// The ledger's table of tracked tests, kept in ascending order of name, so
/// that each name appears once and every listing follows the name.
#[derive(Debug, PartialEq, Eq)]
pub struct TestMap {
    records: Vec<TestRecord>,
}

/// Whether the names are in strictly ascending code-point order.
pub open spec fn names_ascending(names: Seq<Seq<char>>) -> bool {
    forall|i: int, j: int| 0 <= i < j < names.len() ==> text_lt(#[trigger] names[i], #[trigger] names[j])
}

/// The names of `keys` in ascending order.
pub open spec fn sorted_names(keys: Set<Seq<char>>) -> Seq<Seq<char>> {
    choose|s: Seq<Seq<char>>| names_ascending(s) && forall|k: Seq<char>| #[trigger] s.contains(k) <==> keys.contains(k)
}

/// Ascending names hold each name once.
pub proof fn lemma_ascending_distinct(names: Seq<Seq<char>>)
    requires
        names_ascending(names),
    ensures
        names.no_duplicates(),
{
    assert forall|i: int, j: int| 0 <= i < names.len() && 0 <= j < names.len() && i != j implies names[i]
        != names[j] by {
        lemma_text_lt_irreflexive(names[i]);
        if i < j {
            assert(text_lt(names[i], names[j]));
        } else {
            assert(text_lt(names[j], names[i]));
        }
    }
}

/// Two ascending lists of the same names are the same list.
pub proof fn lemma_ascending_unique(s: Seq<Seq<char>>, t: Seq<Seq<char>>)
    requires
        names_ascending(s),
        names_ascending(t),
        forall|k: Seq<char>| s.contains(k) <==> t.contains(k),
    ensures
        s == t,
    decreases s.len(),
{
    if s.len() == 0 {
        if t.len() > 0 {
            assert(t.contains(t[0]));
        }
        assert(s =~= t);
    } else {
        assert(s.contains(s[0]));
        assert(t.len() > 0);
        assert(t.contains(t[0]));
        if s[0] != t[0] {
            let k = t.index_of(s[0]);
            let m = s.index_of(t[0]);
            assert(k != 0 && m != 0);
            assert(text_lt(t[0], t[k]));
            assert(text_lt(s[0], s[m]));
            lemma_text_lt_transitive(s[0], t[0], s[0]);
            lemma_text_lt_irreflexive(s[0]);
        }
        let s1 = s.drop_first();
        let t1 = t.drop_first();
        assert(names_ascending(s1)) by {
            assert forall|i: int, j: int| 0 <= i < j < s1.len() implies text_lt(
                #[trigger] s1[i],
                #[trigger] s1[j],
            ) by {
                assert(s1[i] == s[i + 1] && s1[j] == s[j + 1]);
            }
        }
        assert(names_ascending(t1)) by {
            assert forall|i: int, j: int| 0 <= i < j < t1.len() implies text_lt(
                #[trigger] t1[i],
                #[trigger] t1[j],
            ) by {
                assert(t1[i] == t[i + 1] && t1[j] == t[j + 1]);
            }
        }
        assert forall|k: Seq<char>| s1.contains(k) <==> t1.contains(k) by {
            lemma_text_lt_irreflexive(s[0]);
            if s1.contains(k) {
                let j = s1.index_of(k);
                assert(s[j + 1] == k);
                assert(text_lt(s[0], s[j + 1]));
                assert(t.contains(k));
                let w = t.index_of(k);
                assert(w != 0);
                assert(t1[w - 1] == k);
            }
            if t1.contains(k) {
                let j = t1.index_of(k);
                assert(t[j + 1] == k);
                assert(text_lt(t[0], t[j + 1]));
                assert(s.contains(k));
                let w = s.index_of(k);
                assert(w != 0);
                assert(s1[w - 1] == k);
            }
        }
        lemma_ascending_unique(s1, t1);
        assert(s =~= seq![s[0]] + s1);
        assert(t =~= seq![t[0]] + t1);
    }
}

/// Names of a sequence of records, in order.
pub open spec fn record_names(recs: Seq<TestRecord>) -> Seq<Seq<char>> {
    recs.map_values(|r: TestRecord| r.name@)
}

impl View for TestMap {
    type V = Map<Seq<char>, EntryView>;

    closed spec fn view(&self) -> Map<Seq<char>, EntryView> {
        let names = self.names();
        Map::new(
            |k: Seq<char>| names.contains(k),
            |k: Seq<char>| self.records@[names.index_of(k)].entry@,
        )
    }
}

impl TestMap {
    #[verifier::type_invariant]
    pub open spec fn names_sorted(self) -> bool {
        self.wf()
    }

    /// The names are in strictly ascending order, so each appears once.
    pub open spec fn wf(&self) -> bool {
        names_ascending(self.names())
    }

    /// The tracked names, in ascending order.
    pub closed spec fn names(&self) -> Seq<Seq<char>> {
        record_names(self.records@)
    }

    /// The records, in ascending order of name.
    pub closed spec fn records_seq(&self) -> Seq<TestRecord> {
        self.records@
    }

    /// The table holds each name once, and its view is read off its records.
    pub proof fn lemma_view(&self)
        requires
            self.wf(),
        ensures
            self.names().no_duplicates(),
            self.names() == record_names(self.records_seq()),
            forall|k: Seq<char>| #[trigger] self@.contains_key(k) <==> self.names().contains(k),
            forall|i: int|
                0 <= i < self.names().len() ==> #[trigger] self@[self.names()[i]]
                    == self.records_seq()[i].entry@,
            self@.dom().finite(),
            self@.dom().len() == self.names().len(),
            self.names() == sorted_names(self@.dom()),
    {
        let names = self.names();
        lemma_ascending_distinct(names);
        assert forall|i: int| 0 <= i < names.len() implies #[trigger] self@[names[i]]
            == self.records@[i].entry@ by {
            names.index_of_first_ensures(names[i]);
            assert(names.index_of(names[i]) == i) by {
                let j = names.index_of(names[i]);
                assert(names.contains(names[i]));
            }
        }
        names.unique_seq_to_set();
        assert(self@.dom() =~= names.to_set());
        let dom = self@.dom();
        assert(names_ascending(names) && forall|k: Seq<char>| #[trigger] names.contains(k) <==> dom.contains(k));
        let chosen = sorted_names(dom);
        lemma_ascending_unique(names, chosen);
    }

    pub fn new() -> (r: TestMap)
        ensures
            r.wf(),
            r@ == Map::<Seq<char>, EntryView>::empty(),
            r.names() == Seq::<Seq<char>>::empty(),
    {
        let records: Vec<TestRecord> = Vec::new();
        assert(record_names(records@) =~= Seq::<Seq<char>>::empty());
        let r = TestMap { records };
        assert(r@ =~= Map::<Seq<char>, EntryView>::empty());
        r
    }

    /// The records, in ascending order of name.
    pub fn records(&self) -> (r: &Vec<TestRecord>)
        ensures
            r@ == self.records_seq(),
            self.wf(),
    {
        proof {
            use_type_invariant(self);
        }
        &self.records
    }

    /// Where `name` stands in the table, if it is tracked.
    fn position(&self, name: &str) -> (r: Option<usize>)
        ensures
            self.wf(),
            r is Some ==> r->0 < self.names().len() && self.names()[r->0 as int] == name@,
            r is None ==> !self.names().contains(name@),
    {
        proof {
            use_type_invariant(self);
        }
        let key = name.to_owned();
        let mut i: usize = 0;
        while i < self.records.len()
            invariant
                i <= self.records@.len(),
                key@ == name@,
                self.wf(),
                forall|j: int| 0 <= j < i ==> self.names()[j] != name@,
            decreases self.records@.len() - i,
        {
            assert(self.names()[i as int] == self.records@[i as int].name@);
            if self.records[i].name == key {
                assert(self.names()[i as int] == self.records@[i as int].name@);
                return Some(i);
            }
            i = i + 1;
        }
        assert(self.names().len() == self.records@.len());
        None
    }

    /// The entry recorded for `name`.
    pub fn get(&self, name: &str) -> (r: Option<&TestEntry>)
        ensures
            r is Some <==> self@.contains_key(name@),
            r is Some ==> r->0@ == self@[name@],
    {
        proof {
            use_type_invariant(self);
            self.lemma_view();
        }
        match self.position(name) {
            Some(i) => Some(&self.records[i].entry),
            None => None,
        }
    }

    pub fn contains_key(&self, name: &str) -> (r: bool)
        ensures
            r == self@.contains_key(name@),
    {
        proof {
            use_type_invariant(self);
            self.lemma_view();
        }
        self.position(name).is_some()
    }

    pub fn len(&self) -> (r: usize)
        ensures
            r == self@.len(),
            r == self.names().len(),
    {
        proof {
            use_type_invariant(self);
            self.lemma_view();
        }
        self.records.len()
    }

    pub fn is_empty(&self) -> (r: bool)
        ensures
            r == (self@.len() == 0),
    {
        self.len() == 0
    }

    /// Where `name` belongs in the ascending order: every name before that
    /// place sorts before it; the name there, if any, is `name` itself or
    /// sorts after it.
    fn locate(&self, name: &String) -> (r: (usize, bool))
        ensures
            self.wf(),
            r.0 <= self.names().len(),
            forall|k: int| 0 <= k < r.0 ==> text_lt(#[trigger] self.names()[k], name@),
            r.1 ==> r.0 < self.names().len() && self.names()[r.0 as int] == name@,
            !r.1 ==> r.0 == self.names().len() || text_lt(name@, self.names()[r.0 as int]),
    {
        proof {
            use_type_invariant(self);
        }
        let key = chars_of(name.as_str());
        let mut i: usize = 0;
        while i < self.records.len()
            invariant
                self.wf(),
                key@ == name@,
                i <= self.records@.len(),
                self.names().len() == self.records@.len(),
                forall|k: int| 0 <= k < i ==> text_lt(#[trigger] self.names()[k], name@),
            decreases self.records@.len() - i,
        {
            assert(self.names()[i as int] == self.records@[i as int].name@);
            if self.records[i].name == *name {
                return (i, true);
            }
            let other = chars_of(self.records[i].name.as_str());
            if text_less(&key, &other) {
                return (i, false);
            }
            proof {
                lemma_text_lt_total(name@, self.names()[i as int]);
            }
            i = i + 1;
        }
        (i, false)
    }

    /// Records `entry` for `name`, replacing what was there. A new name goes
    /// to its place in the ascending order.
    pub fn insert(&mut self, name: String, entry: TestEntry)
        ensures
            final(self).wf(),
            final(self)@ == old(self)@.insert(name@, entry@),
            old(self)@.contains_key(name@) ==> final(self).names() == old(self).names(),
            !old(self)@.contains_key(name@) ==> exists|p: int|
                0 <= p <= old(self).names().len() && final(self).names() == old(
                    self,
                ).names().insert(p, name@),
    {
        proof {
            use_type_invariant(&*self);
            self.lemma_view();
        }
        let ghost old_names = self.names();
        let ghost old_recs = self.records@;
        let ghost old_view = self@;
        let ghost key = name@;
        let ghost e = entry@;
        let (pos, found) = self.locate(&name);
        let mut taken = TestMap::new();
        core::mem::swap(self, &mut taken);
        let TestMap { mut records } = taken;
        assert(record_names(records@) == old_names);
        if found {
            records.set(pos, TestRecord { name, entry });
            assert(record_names(records@) =~= old_names.update(pos as int, key));
            assert(old_names.update(pos as int, key) =~= old_names);
        } else {
            records.insert(pos, TestRecord { name, entry });
            assert(record_names(records@) =~= old_names.insert(pos as int, key));
            proof {
                let nn = old_names.insert(pos as int, key);
                assert forall|i: int, j: int| 0 <= i < j < nn.len() implies text_lt(
                    #[trigger] nn[i],
                    #[trigger] nn[j],
                ) by {
                    if j < pos {
                        assert(text_lt(old_names[i], old_names[j]));
                    } else if j == pos {
                        assert(text_lt(old_names[i], key));
                    } else if i < pos {
                        assert(text_lt(old_names[i], key));
                        if j - 1 > pos {
                            assert(text_lt(old_names[pos as int], old_names[j - 1]));
                            lemma_text_lt_transitive(key, old_names[pos as int], old_names[j - 1]);
                        }
                        lemma_text_lt_transitive(old_names[i], key, old_names[j - 1]);
                    } else if i == pos {
                        if j - 1 > pos {
                            assert(text_lt(old_names[pos as int], old_names[j - 1]));
                            lemma_text_lt_transitive(key, old_names[pos as int], old_names[j - 1]);
                        }
                    } else {
                        assert(text_lt(old_names[i - 1], old_names[j - 1]));
                    }
                }
            }
        }
        *self = TestMap { records };
        proof {
            use_type_invariant(&*self);
            self.lemma_view();
            let names = self.names();
            assert(!found ==> !old_names.contains(key)) by {
                if !found && old_names.contains(key) {
                    let w = old_names.index_of(key);
                    lemma_text_lt_irreflexive(key);
                    if w < pos {
                        assert(text_lt(old_names[w], key));
                    } else {
                        assert(text_lt(key, old_names[pos as int]));
                        if w > pos {
                            assert(text_lt(old_names[pos as int], old_names[w]));
                            lemma_text_lt_transitive(key, old_names[pos as int], key);
                        }
                    }
                }
            }
            assert forall|k: Seq<char>| #[trigger] names.contains(k) <==> (old_names.contains(k)
                || k == key) by {
                if k == key {
                    assert(names[pos as int] == key);
                }
                if old_names.contains(k) {
                    let j = old_names.index_of(k);
                    if found || j < pos {
                        assert(names[j] == k);
                    } else {
                        assert(names[j + 1] == k);
                    }
                }
                if names.contains(k) && k != key {
                    let j = names.index_of(k);
                    if found || j < pos {
                        assert(old_names[j] == k);
                    } else {
                        assert(old_names[j - 1] == k);
                    }
                }
            }
            assert(self@ =~= old_view.insert(key, e)) by {
                assert forall|k: Seq<char>| self@.contains_key(k) implies #[trigger] self@[k]
                    == old_view.insert(key, e)[k] by {
                    let j = names.index_of(k);
                    assert(names[j] == k);
                    assert(self@[names[j]] == self.records@[j].entry@);
                    if k != key {
                        if found || j < pos {
                            assert(old_names[j] == k);
                            assert(old_view[old_names[j]] == old_recs[j].entry@);
                        } else {
                            assert(old_names[j - 1] == k);
                            assert(old_view[old_names[j - 1]] == old_recs[j - 1].entry@);
                        }
                    } else {
                        assert(names[pos as int] == key);
                        lemma_ascending_distinct(names);
                        assert(j == pos);
                    }
                }
            }
        }
    }

    /// A copy of the table with the same records in the same order.
    pub fn copy(&self) -> (r: TestMap)
        ensures
            r@ == self@,
            r.names() == self.names(),
    {
        proof {
            use_type_invariant(self);
        }
        let mut records: Vec<TestRecord> = Vec::new();
        let mut i: usize = 0;
        while i < self.records.len()
            invariant
                i <= self.records@.len(),
                records@.len() == i,
                forall|j: int|
                    0 <= j < i ==> #[trigger] records@[j].name@ == self.records@[j].name@
                        && records@[j].entry@ == self.records@[j].entry@,
            decreases self.records@.len() - i,
        {
            let rec = TestRecord {
                name: self.records[i].name.clone(),
                entry: self.records[i].entry.clone_entry(),
            };
            records.push(rec);
            i = i + 1;
        }
        assert(record_names(records@) =~= self.names());
        let r = TestMap { records };
        proof {
            self.lemma_view();
            r.lemma_view();
            assert(r@ =~= self@) by {
                assert forall|k: Seq<char>| r@.contains_key(k) implies #[trigger] r@[k]
                    == self@[k] by {
                    let j = r.names().index_of(k);
                    assert(r.names()[j] == k);
                }
            }
        }
        r
    }
}

/// Optional text, seen as its characters.
pub open spec fn opt_chars(o: Option<String>) -> Option<Seq<char>> {
    match o {
        Some(s) => Some(s@),
        None => None,
    }
}

/// The logical content of a ledger.
pub ghost struct LedgerView {
    pub tests: Map<Seq<char>, EntryView>,
    pub baseline: Option<Seq<char>>,
}

/// The status ledger: every tracked test with its entry, and the commit at
/// which the ratchet was adopted, if one was recorded.
#[derive(Debug, PartialEq, Eq)]
pub struct StatusFile {
    pub tests: TestMap,
    pub baseline: Option<String>,
}

impl View for StatusFile {
    type V = LedgerView;

    open spec fn view(&self) -> LedgerView {
        LedgerView { tests: self.tests@, baseline: opt_chars(self.baseline) }
    }
}

impl StatusFile {
    pub fn new(tests: TestMap, baseline: Option<String>) -> (r: StatusFile)
        ensures
            r@ == (LedgerView { tests: tests@, baseline: opt_chars(baseline) }),
            r.tests.names() == tests.names(),
    {
        StatusFile { tests, baseline }
    }

    /// A ledger that tracks nothing and has no adoption commit.
    pub fn empty() -> (r: StatusFile)
        ensures
            r@.tests == Map::<Seq<char>, EntryView>::empty(),
            r@.baseline is None,
            r.tests.names() == Seq::<Seq<char>>::empty(),
    {
        Self::new(TestMap::new(), None)
    }

    /// A copy of the ledger, with its tests in the same order.
    pub fn copy(&self) -> (r: StatusFile)
        ensures
            r@ == self@,
            r.tests.names() == self.tests.names(),
    {
        let baseline = match &self.baseline {
            Some(b) => Some(b.clone()),
            None => None,
        };
        StatusFile { tests: self.tests.copy(), baseline }
    }
}

} // verus!
