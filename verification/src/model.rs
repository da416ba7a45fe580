//! Store objects: requirements, questions, groups, rounds, marks, repo config.
//!
//! Times are Unix timestamps in nanoseconds (UTC); the store's files hold them as RFC 3339.

use crate::id::Id;
use crate::text::{chars_of, copy_str, same, decimal, decimal_u64, push_str, replace_slash, replace_slash_exec};
use vstd::prelude::*;

verus! {

broadcast use vstd::string::group_string_axioms;

/// `time::OffsetDateTime::now_utc()`, as Unix nanoseconds. Nothing is promised of the value:
/// it is the clock.
#[verifier::external_body]
pub fn now() -> i128 {
    time::OffsetDateTime::now_utc().unix_timestamp_nanos()
}

// ---------- shared ----------

/// A value recorded in a history entry's `from` / `to`.
#[derive(Debug, Clone)]
pub enum HistoryValue {
    Anchors(Vec<Anchor>),
    Status(Status),
    Text(String),
    Ids(Vec<Id>),
}

/// One append-only history entry.
#[derive(Debug, Clone)]
pub struct History {
    pub at: i128,
    pub by: String,
    pub accepted_by: Option<String>,
    pub op: String,
    pub from: Option<HistoryValue>,
    pub to: Option<HistoryValue>,
    pub note: Option<String>,
}

impl History {
    /// A fresh entry stamped with the current time.
    pub fn new(by: &str, op: &str) -> (h: History)
        ensures
            h.by@ == by@,
            h.op@ == op@,
            h.accepted_by is None,
            h.from is None,
            h.to is None,
            h.note is None,
    {
        History::new_at(by, op, now())
    }

    /// A fresh entry stamped with `at`.
    pub fn new_at(by: &str, op: &str, at: i128) -> (h: History)
        ensures
            h.at == at,
            h.by@ == by@,
            h.op@ == op@,
            h.accepted_by is None,
            h.from is None,
            h.to is None,
            h.note is None,
    {
        History {
            at,
            by: copy_str(by),
            accepted_by: None,
            op: copy_str(op),
            from: None,
            to: None,
            note: None,
        }
    }

    /// Record what changed.
    pub fn change(self, from: Option<HistoryValue>, to: Option<HistoryValue>) -> (h: History)
        ensures
            h == (History { from, to, ..self }),
    {
        History { from, to, ..self }
    }

    /// Attach a note.
    pub fn note(self, note: String) -> (h: History)
        ensures
            h == (History { note: Some(note), ..self }),
    {
        History { note: Some(note), ..self }
    }
}

/// `{doc, span}` — resolves through the doc's current snapshot.
#[derive(Debug, Clone)]
pub struct Anchor {
    pub doc: String,
    pub span: String,
}

impl Anchor {
    pub fn same(&self, other: &Anchor) -> (b: bool)
        ensures
            b == (self.doc@ == other.doc@ && self.span@ == other.span@),
    {
        self.doc == other.doc && self.span == other.span
    }
}

#[derive(Debug, Clone, Copy, PartialEq, Eq, Structural, Hash, PartialOrd, Ord)]
pub enum Level {
    H,
    M,
    L,
}

/// `[value, risk]`.
#[derive(Debug, Clone, Copy, PartialEq, Eq, Structural)]
pub struct Rating {
    pub value: Level,
    pub risk: Level,
}

// ---------- req ----------

#[derive(Debug, Clone, Copy, PartialEq, Eq, Structural, Hash)]
pub enum Status {
    Extracted,
    Assumed,
    Confirmed,
    Disputed,
    Retired,
}

pub open spec fn status_name(s: Status) -> Seq<char> {
    match s {
        Status::Extracted => "extracted"@,
        Status::Assumed => "assumed"@,
        Status::Confirmed => "confirmed"@,
        Status::Disputed => "disputed"@,
        Status::Retired => "retired"@,
    }
}

impl Status {
    pub fn as_str(self) -> (r: &'static str)
        ensures
            r@ == status_name(self),
    {
        match self {
            Status::Extracted => "extracted",
            Status::Assumed => "assumed",
            Status::Confirmed => "confirmed",
            Status::Disputed => "disputed",
            Status::Retired => "retired",
        }
    }

    /// Every status, in lifecycle order.
    pub fn all() -> (r: [Status; 5])
        ensures
            r@ == seq![
                Status::Extracted,
                Status::Assumed,
                Status::Confirmed,
                Status::Disputed,
                Status::Retired,
            ],
    {
        [Status::Extracted, Status::Assumed, Status::Confirmed, Status::Disputed, Status::Retired]
    }
}

#[derive(Debug, Clone, Copy, PartialEq, Eq, Structural)]
pub enum Pattern {
    Ubiquitous,
    EventDriven,
    StateDriven,
    Unwanted,
    Optional,
    Complex,
}

/// One rev of a requirement. A requirement file is a list of these, newest last.
#[derive(Debug, Clone)]
pub struct ReqRev {
    pub id: Id,
    pub statement: String,
    pub pattern: Option<Pattern>,
    pub status: Status,
    pub rating: Option<Rating>,
    pub owner: Option<String>,
    /// Required when `status == Retired`.
    pub reason: Option<String>,
    /// Set when the source changed meaning under this requirement; cleared by the next human
    /// edit of statement or status.
    pub suspect: Option<String>,
    pub anchors: Vec<Anchor>,
    pub questions: Vec<Id>,
    pub history: Vec<History>,
}

impl ReqRev {
    /// A new requirement: extracted, unanchored, with a `create` history entry stamped now.
    pub fn new(id: Id, statement: String, by: &str) -> (r: ReqRev)
        ensures
            r.id == id,
            r.statement == statement,
            r.status == Status::Extracted,
            r.pattern is None && r.rating is None && r.owner is None && r.reason is None,
            r.suspect is None,
            r.anchors@.len() == 0,
            r.questions@.len() == 0,
            r.history@.len() == 1,
            r.history@[0].by@ == by@,
            r.history@[0].op@ == "create"@,
    {
        ReqRev::new_at(id, statement, by, now())
    }

    /// As `new`, stamped with `at`.
    pub fn new_at(id: Id, statement: String, by: &str, at: i128) -> (r: ReqRev)
        ensures
            r.id == id,
            r.statement == statement,
            r.status == Status::Extracted,
            r.pattern is None && r.rating is None && r.owner is None && r.reason is None,
            r.suspect is None,
            r.anchors@.len() == 0,
            r.questions@.len() == 0,
            r.history@.len() == 1,
            r.history@[0].at == at,
            r.history@[0].by@ == by@,
            r.history@[0].op@ == "create"@,
            r.history@[0].note is None,
            r.history@[0].accepted_by is None && r.history@[0].from is None && r.history@[0].to is None,
    {
        let mut history: Vec<History> = Vec::new();
        history.push(History::new_at(by, "create", at));
        ReqRev {
            id,
            statement,
            pattern: None,
            status: Status::Extracted,
            rating: None,
            owner: None,
            reason: None,
            suspect: None,
            anchors: Vec::new(),
            questions: Vec::new(),
            history,
        }
    }
}

// ---------- qst ----------

#[derive(Debug, Clone, Copy, PartialEq, Eq, Structural)]
pub enum QstStatus {
    Open,
    Answered,
    Withdrawn,
}

#[derive(Debug, Clone)]
pub struct Reading {
    pub key: String,
    pub text: String,
    pub default: bool,
}

#[derive(Debug, Clone)]
pub struct Answer {
    pub reading: String,
    pub note: Option<String>,
    pub by: String,
    pub at: i128,
}

/// A question file is a list of these (revs), newest last.
#[derive(Debug, Clone)]
pub struct Question {
    pub id: Id,
    pub status: QstStatus,
    pub quote: String,
    pub anchors: Vec<Anchor>,
    pub materiality: Level,
    pub readings: Vec<Reading>,
    pub affects: Vec<Id>,
    pub answer: Option<Answer>,
    /// Held answer when an affected requirement changed since the question was raised.
    pub pending: Option<Answer>,
    /// `affects` revs at raise time, so conflicts can be detected.
    pub affects_revs: Vec<Id>,
    pub history: Vec<History>,
}

// ---------- grp ----------

/// A group file is a list of these (revs), newest last.
#[derive(Debug, Clone)]
pub struct Group {
    pub id: Id,
    pub title: String,
    pub description: Option<String>,
    /// The only place membership lives.
    pub members: Vec<Id>,
    pub history: Vec<History>,
}

// ---------- rounds ----------

#[derive(Debug, Clone)]
pub enum Context {
    Branch { branch: String },
    Pr { pr: u64, head: String },
}

/// The directory-safe key of a context.
pub open spec fn context_key(c: Context) -> Seq<char> {
    match c {
        Context::Branch { branch } => replace_slash(branch@),
        Context::Pr { pr, .. } => "pr-"@ + decimal(pr as nat),
    }
}

impl Context {
    /// Directory-safe key for this context: `main` or `pr-42`.
    pub fn key(&self) -> (r: String)
        ensures
            r@ == context_key(*self),
    {
        match self {
            Context::Branch { branch } => replace_slash_exec(branch.as_str()),
            Context::Pr { pr, .. } => {
                let mut s = copy_str("pr-");
                let d = decimal_u64(*pr);
                push_str(&mut s, d.as_str());
                s
            },
        }
    }
}

#[derive(Debug, Clone)]
pub struct RoundSummary {
    pub created: Vec<Id>,
    pub changed: Vec<Id>,
    pub retired: Vec<Id>,
    /// Reconciliation verdict counts by kind name, when the round closed by supersede.
    pub verdicts: Option<Vec<(String, usize)>>,
}

#[derive(Debug, Clone)]
pub struct Round {
    pub doc: String,
    pub n: u32,
    pub snapshot: String,
    pub context: Context,
    pub opened: i128,
    pub closed: Option<i128>,
    pub summary: Option<RoundSummary>,
}

// ---------- marks ----------

#[derive(Debug, Clone, Copy, PartialEq, Eq, Structural)]
pub enum MarkKind {
    NonNormative,
}

#[derive(Debug, Clone)]
pub struct Mark {
    pub kind: MarkKind,
    pub by: String,
    pub at: i128,
    pub note: Option<String>,
}

/// Span id → mark, one entry per span id.
#[derive(Debug, Clone)]
pub struct Marks {
    pub spans: Vec<(String, Mark)>,
}

/// The mark recorded for span `k`, if any (the first entry with that key).
pub open spec fn mark_at(spans: Seq<(String, Mark)>, k: Seq<char>) -> Option<Mark>
    decreases spans.len(),
{
    if spans.len() == 0 {
        None
    } else if spans[0].0@ == k {
        Some(spans[0].1)
    } else {
        mark_at(spans.drop_first(), k)
    }
}

proof fn lemma_mark_at_set(s: Seq<(String, Mark)>, i: int, t: Seq<(String, Mark)>)
    requires
        0 <= i < s.len(),
        forall|j: int| 0 <= j < i ==> (#[trigger] s[j]).0@ != s[i].0@,
        t.len() == s.len(),
        t[i].0@ == s[i].0@,
        forall|j: int| 0 <= j < s.len() && j != i ==> #[trigger] t[j] == s[j],
    ensures
        mark_at(t, s[i].0@) == Some(t[i].1),
        forall|k2: Seq<char>| k2 != s[i].0@ ==> #[trigger] mark_at(t, k2) == mark_at(s, k2),
    decreases i,
{
    if i == 0 {
        assert(t.drop_first() =~= s.drop_first());
        assert forall|k2: Seq<char>| k2 != s[0].0@ implies #[trigger] mark_at(t, k2) == mark_at(s, k2) by {
            assert(mark_at(t, k2) == mark_at(t.drop_first(), k2));
            assert(mark_at(s, k2) == mark_at(s.drop_first(), k2));
        }
    } else {
        let s1 = s.drop_first();
        let t1 = t.drop_first();
        assert forall|j: int| 0 <= j < i - 1 implies (#[trigger] s1[j]).0@ != s1[i - 1].0@ by {
            assert(s1[j] == s[j + 1]);
        }
        assert forall|j: int| 0 <= j < s1.len() && j != i - 1 implies #[trigger] t1[j] == s1[j] by {
            assert(t1[j] == t[j + 1]);
        }
        lemma_mark_at_set(s1, i - 1, t1);
        assert(t[0] == s[0]);
        assert(s1[i - 1] == s[i]);
        assert forall|k2: Seq<char>| k2 != s[i].0@ implies #[trigger] mark_at(t, k2) == mark_at(s, k2) by {
            if t[0].0@ != k2 {
                assert(mark_at(t, k2) == mark_at(t1, k2));
                assert(mark_at(s, k2) == mark_at(s1, k2));
            }
        }
    }
}

proof fn lemma_mark_at_push(s: Seq<(String, Mark)>, km: (String, Mark))
    requires
        forall|j: int| 0 <= j < s.len() ==> (#[trigger] s[j]).0@ != km.0@,
    ensures
        mark_at(s.push(km), km.0@) == Some(km.1),
        forall|k2: Seq<char>| k2 != km.0@ ==> #[trigger] mark_at(s.push(km), k2) == mark_at(s, k2),
    decreases s.len(),
{
    if s.len() == 0 {
        assert(s.push(km)[0] == km);
        assert(s.push(km).drop_first() =~= s);
        assert forall|k2: Seq<char>| k2 != km.0@ implies #[trigger] mark_at(s.push(km), k2) == mark_at(s, k2) by {
            assert(mark_at(s.push(km), k2) == mark_at(s.push(km).drop_first(), k2));
        }
    } else {
        let s1 = s.drop_first();
        assert forall|j: int| 0 <= j < s1.len() implies (#[trigger] s1[j]).0@ != km.0@ by {
            assert(s1[j] == s[j + 1]);
        }
        lemma_mark_at_push(s1, km);
        assert(s.push(km).drop_first() =~= s1.push(km));
        assert(s.push(km)[0] == s[0]);
        assert forall|k2: Seq<char>| k2 != km.0@ implies #[trigger] mark_at(s.push(km), k2) == mark_at(s, k2) by {
            if s[0].0@ != k2 {
                assert(mark_at(s.push(km), k2) == mark_at(s1.push(km), k2));
                assert(mark_at(s, k2) == mark_at(s1, k2));
            }
        }
    }
}

/// Appending an entry: a key's first entry stays first.
proof fn lemma_mark_at_append(s: Seq<(String, Mark)>, x: (String, Mark), k: Seq<char>)
    ensures
        mark_at(s.push(x), k) == (if mark_at(s, k) is Some { mark_at(s, k) } else if x.0@ == k { Some(x.1) } else { None::<Mark> }),
    decreases s.len(),
{
    if s.len() == 0 {
        assert(s.push(x)[0] == x);
        assert(s.push(x).drop_first() =~= s);
    } else {
        assert(s.push(x)[0] == s[0]);
        assert(s.push(x).drop_first() =~= s.drop_first().push(x));
        lemma_mark_at_append(s.drop_first(), x, k);
    }
}

impl Marks {
    pub open spec fn get_spec(&self, k: Seq<char>) -> Option<Mark> {
        mark_at(self.spans@, k)
    }

    pub fn empty() -> (m: Marks)
        ensures
            m.spans@.len() == 0,
    {
        Marks { spans: Vec::new() }
    }

    /// Record `m` on span `k`, replacing a mark already there.
    pub fn insert(&mut self, k: String, m: Mark)
        ensures
            final(self).get_spec(k@) == Some(m),
            forall|k2: Seq<char>| k2 != k@ ==> #[trigger] final(self).get_spec(k2) == old(self).get_spec(k2),
    {
        let ghost s0 = old(self).spans@;
        let mut i: usize = 0;
        while i < self.spans.len()
            invariant
                i <= self.spans@.len(),
                self.spans@ == s0,
                s0 == old(self).spans@,
                forall|j: int| 0 <= j < i ==> (#[trigger] s0[j]).0@ != k@,
            decreases self.spans@.len() - i,
        {
            if same(self.spans[i].0.as_str(), k.as_str()) {
                let ghost kk = k;
                let ghost mm = m;
                self.spans.set(i, (k, m));
                proof {
                    assert(self.spans@ == s0.update(i as int, (kk, mm)));
                    assert(s0[i as int].0@ == kk@);
                    lemma_mark_at_set(s0, i as int, self.spans@);
                    assert(self.get_spec(kk@) == Some(mm));
                    assert forall|k2: Seq<char>| k2 != kk@ implies #[trigger] self.get_spec(k2) == old(self).get_spec(k2) by {
                        assert(mark_at(self.spans@, k2) == mark_at(s0, k2));
                    }
                }
                return;
            }
            i += 1;
        }
        let ghost km = (k, m);
        self.spans.push((k, m));
        proof {
            lemma_mark_at_push(s0, km);
        }
    }

    /// Take the mark off span `k`.
    pub fn remove(&mut self, k: &str)
        ensures
            final(self).get_spec(k@) is None,
            forall|k2: Seq<char>| k2 != k@ ==> #[trigger] final(self).get_spec(k2) == old(self).get_spec(k2),
    {
        let ghost s0 = self.spans@;
        let mut rest: Vec<(String, Mark)> = Vec::new();
        std::mem::swap(&mut rest, &mut self.spans);
        let mut kept: Vec<(String, Mark)> = Vec::new();
        let mut i: usize = 0;
        let n = rest.len();
        while rest.len() > 0
            invariant
                rest@.len() + i == n,
                n == s0.len(),
                rest@ == s0.skip(i as int),
                mark_at(kept@, k@) is None,
                forall|k2: Seq<char>| k2 != k@ ==> #[trigger] mark_at(kept@, k2) == mark_at(s0.take(i as int), k2),
            decreases rest@.len(),
        {
            let e = rest.remove(0);
            proof {
                assert(rest@ =~= s0.skip(i as int + 1));
                assert(s0.take(i as int + 1) =~= s0.take(i as int).push(e));
                assert forall|k2: Seq<char>| true implies #[trigger] mark_at(s0.take(i as int + 1), k2)
                    == (if mark_at(s0.take(i as int), k2) is Some { mark_at(s0.take(i as int), k2) } else if e.0@ == k2 { Some(e.1) } else { None::<Mark> }) by {
                    lemma_mark_at_append(s0.take(i as int), e, k2);
                }
            }
            if !same(e.0.as_str(), k) {
                let ghost k0 = kept@;
                kept.push(e);
                proof {
                    assert forall|k2: Seq<char>| true implies #[trigger] mark_at(kept@, k2)
                        == (if mark_at(k0, k2) is Some { mark_at(k0, k2) } else if e.0@ == k2 { Some(e.1) } else { None::<Mark> }) by {
                        lemma_mark_at_append(k0, e, k2);
                    }
                }
            }
            i += 1;
        }
        proof {
            assert(s0.take(i as int) =~= s0);
        }
        self.spans = kept;
    }

    /// The mark on span `k`, if any.
    pub fn get(&self, k: &str) -> (r: Option<&Mark>)
        ensures
            r matches Some(m) ==> self.get_spec(k@) == Some(*m),
            r is None ==> self.get_spec(k@) is None,
    {
        let mut i: usize = 0;
        proof {
            assert(self.spans@.skip(0) =~= self.spans@);
        }
        while i < self.spans.len()
            invariant
                i <= self.spans@.len(),
                mark_at(self.spans@, k@) == mark_at(self.spans@.skip(i as int), k@),
            decreases self.spans@.len() - i,
        {
            proof {
                assert(self.spans@.skip(i as int).drop_first() =~= self.spans@.skip(i as int + 1));
                assert(self.spans@.skip(i as int)[0] == self.spans@[i as int]);
            }
            if same(self.spans[i].0.as_str(), k) {
                return Some(&self.spans[i].1);
            }
            i += 1;
        }
        None
    }
}

// ---------- repo.yaml ----------

#[derive(Debug, Clone)]
pub struct TrackedDoc {
    /// Forward-slash path relative to repo root, as stored in git.
    pub path: String,
}

#[derive(Debug, Clone, Copy, PartialEq, Eq, Structural)]
pub enum RepoKind {
    Github,
    Local,
}

#[derive(Debug, Clone)]
pub struct RepoConfig {
    /// `owner/name` (or `local/<name>-<hash>` for a local folder)
    pub github: String,
    pub remote: String,
    pub kind: RepoKind,
    pub source_dir: Option<String>,
    pub default_branch: String,
    /// Local clone location (absolute).
    pub local_path: String,
    pub tracked_docs: Vec<TrackedDoc>,
    pub registered_at: i128,
    pub last_fetch: Option<i128>,
}

/// `exports/last.yaml`
#[derive(Debug, Clone)]
pub struct ExportRecord {
    pub at: i128,
    pub out_dir: String,
    /// Content hash of the exported inventory, to detect unexported changes.
    pub inventory_hash: String,
}

/// Turn a doc path into a filesystem-safe key: `docs/hld.md` → `docs__hld.md`.
pub fn doc_key(path: &str) -> (r: String)
    ensures
        r@ == replace_slash(path@),
{
    replace_slash_exec(path)
}

} // verus!
