//! Per-span classification state and the coverage meter.

use crate::id::Id;
use crate::model::{Anchor, Context, Marks, Mark, MarkKind, QstStatus, Question, ReqRev, Status};
use crate::segment::Block;
use crate::snapshot::{Snapshot, Span};
use crate::text::{copy_str, same, strings_v};
use vstd::prelude::*;

verus! {

broadcast use vstd::string::group_string_axioms;

#[derive(Debug, Clone, Copy, PartialEq, Eq, Structural)]
pub enum SpanState {
    Unclassified,
    Mapped,
    NonNormative,
    Question,
}

#[derive(Debug, Clone)]
pub struct SpanStatus {
    pub state: SpanState,
    /// Requirement ids anchored here (current revs).
    pub reqs: Vec<String>,
    /// Open question ids anchored here.
    pub questions: Vec<String>,
    /// True for headings/code/html: not counted in the denominator unless the user maps them.
    pub structural: bool,
}

#[derive(Debug, Clone)]
pub struct Meter {
    /// Spans that count (prose, list items, table rows + any structural span the user classified).
    pub total: usize,
    pub classified: usize,
    pub residue: usize,
    pub mapped: usize,
    pub non_normative: usize,
    pub questioned: usize,
    pub open_questions: usize,
}

#[derive(Debug, Clone)]
pub struct DocCoverage {
    pub doc: String,
    pub snapshot: String,
    pub meter: Meter,
    /// span-id → status, in snapshot order.
    pub spans: Vec<(String, SpanStatus)>,
}

pub open spec fn spec_is_structural(b: Block) -> bool {
    b == Block::Heading || b == Block::Code || b == Block::Html
}

/// Headings, code and HTML are structural: they count only once classified.
pub fn is_structural(b: Block) -> (r: bool)
    ensures
        r == spec_is_structural(b),
{
    match b {
        Block::Heading | Block::Code | Block::Html => true,
        _ => false,
    }
}

// ---------- what is anchored where ----------

/// `id` once for every anchor of `anchors` on span `span` of doc `doc`.
pub open spec fn id_hits(id: Seq<char>, anchors: Seq<Anchor>, doc: Seq<char>, span: Seq<char>) -> Seq<Seq<char>>
    decreases anchors.len(),
{
    if anchors.len() == 0 {
        Seq::empty()
    } else {
        id_hits(id, anchors.drop_last(), doc, span) + if anchors.last().doc@ == doc && anchors.last().span@ == span {
            seq![id]
        } else {
            Seq::empty()
        }
    }
}

/// Ids of the non-retired requirements anchored on the span, in requirement order.
pub open spec fn reqs_at(reqs: Seq<ReqRev>, doc: Seq<char>, span: Seq<char>) -> Seq<Seq<char>>
    decreases reqs.len(),
{
    if reqs.len() == 0 {
        Seq::empty()
    } else {
        let r = reqs.last();
        reqs_at(reqs.drop_last(), doc, span) + if r.status != Status::Retired {
            id_hits(r.id.text(), r.anchors@, doc, span)
        } else {
            Seq::empty()
        }
    }
}

/// Ids of the open questions anchored on the span, in question order.
pub open spec fn qsts_at(qsts: Seq<Question>, doc: Seq<char>, span: Seq<char>) -> Seq<Seq<char>>
    decreases qsts.len(),
{
    if qsts.len() == 0 {
        Seq::empty()
    } else {
        let q = qsts.last();
        qsts_at(qsts.drop_last(), doc, span) + if q.status == QstStatus::Open {
            id_hits(q.id.text(), q.anchors@, doc, span)
        } else {
            Seq::empty()
        }
    }
}

pub open spec fn touches(anchors: Seq<Anchor>, doc: Seq<char>) -> bool {
    exists|i: int| 0 <= i < anchors.len() && (#[trigger] anchors[i]).doc@ == doc
}

/// Open questions with at least one anchor in the doc.
pub open spec fn open_touching(qsts: Seq<Question>, doc: Seq<char>) -> nat
    decreases qsts.len(),
{
    if qsts.len() == 0 {
        0
    } else {
        open_touching(qsts.drop_last(), doc) + if qsts.last().status == QstStatus::Open && touches(qsts.last().anchors@, doc) {
            1nat
        } else {
            0nat
        }
    }
}

/// A context's marks, a PR context falling back to the default branch's marks.
pub open spec fn merged_mark(ctx: Context, marks: Marks, base: Marks, k: Seq<char>) -> Option<Mark> {
    match marks.get_spec(k) {
        Some(m) => Some(m),
        None => if ctx is Pr {
            base.get_spec(k)
        } else {
            None
        },
    }
}

/// No earlier span has the same id (a later duplicate gets no anchors).
pub open spec fn first_of_id(spans: Seq<Span>, i: int) -> bool {
    forall|j: int| 0 <= j < i ==> (#[trigger] spans[j]).id@ != spans[i].id@
}

pub open spec fn state_of(reqs: Seq<Seq<char>>, qsts: Seq<Seq<char>>, mark: Option<Mark>) -> SpanState {
    if reqs.len() > 0 {
        SpanState::Mapped
    } else if qsts.len() > 0 {
        SpanState::Question
    } else if mark matches Some(m) && m.kind == MarkKind::NonNormative {
        SpanState::NonNormative
    } else {
        SpanState::Unclassified
    }
}

/// Requirement ids, question ids and state of span `i`.
pub open spec fn span_facts(ctx: Context, snap: Snapshot, reqs: Seq<ReqRev>, qsts: Seq<Question>, marks: Marks, base: Marks, i: int) -> (Seq<Seq<char>>, Seq<Seq<char>>, SpanState) {
    let s = snap.spans@[i];
    let rq = if first_of_id(snap.spans@, i) { reqs_at(reqs, snap.doc@, s.id@) } else { Seq::empty() };
    let qq = if first_of_id(snap.spans@, i) { qsts_at(qsts, snap.doc@, s.id@) } else { Seq::empty() };
    (rq, qq, state_of(rq, qq, merged_mark(ctx, marks, base, s.id@)))
}

pub open spec fn counted(state: SpanState, structural: bool) -> bool {
    !structural || state != SpanState::Unclassified
}

/// How many of the first `k` spans count, and among them how many are in state `st`
/// (`None`: all that count).
pub open spec fn tally(ctx: Context, snap: Snapshot, reqs: Seq<ReqRev>, qsts: Seq<Question>, marks: Marks, base: Marks, st: Option<SpanState>, k: int) -> nat
    decreases k,
{
    if k <= 0 {
        0
    } else {
        let state = span_facts(ctx, snap, reqs, qsts, marks, base, k - 1).2;
        let c = counted(state, spec_is_structural(snap.spans@[k - 1].block)) && (st matches Some(x) ==> x == state);
        tally(ctx, snap, reqs, qsts, marks, base, st, k - 1) + if c { 1nat } else { 0nat }
    }
}


// ---------- helpers ----------

fn push_id_hits(out: &mut Vec<String>, id: &Id, anchors: &Vec<Anchor>, doc: &str, span: &str)
    ensures
        strings_v(final(out)@) == strings_v(old(out)@) + id_hits(id.text(), anchors@, doc@, span@),
{
    let mut j: usize = 0;
    let ghost o0 = strings_v(out@);
    while j < anchors.len()
        invariant
            j <= anchors@.len(),
            strings_v(out@) == o0 + id_hits(id.text(), anchors@.take(j as int), doc@, span@),
        decreases anchors@.len() - j,
    {
        let a = &anchors[j];
        proof {
            assert(anchors@.take(j as int + 1).drop_last() =~= anchors@.take(j as int));
            assert(anchors@.take(j as int + 1).last() == anchors@[j as int]);
        }
        if same(a.doc.as_str(), doc) && same(a.span.as_str(), span) {
            let ghost before = out@;
            out.push(id.to_string());
            proof {
                assert(strings_v(out@) =~= strings_v(before).push(id.text()));
                assert(strings_v(out@) =~= o0 + id_hits(id.text(), anchors@.take(j as int + 1), doc@, span@));
            }
        } else {
            proof {
                assert(o0 + id_hits(id.text(), anchors@.take(j as int + 1), doc@, span@) =~= o0 + id_hits(id.text(), anchors@.take(j as int), doc@, span@));
            }
        }
        j += 1;
    }
    proof {
        assert(anchors@.take(anchors@.len() as int) =~= anchors@);
    }
}

fn reqs_here(reqs: &Vec<ReqRev>, doc: &str, span: &str) -> (r: Vec<String>)
    ensures
        strings_v(r@) == reqs_at(reqs@, doc@, span@),
{
    let mut out: Vec<String> = Vec::new();
    let mut i: usize = 0;
    proof {
        assert(strings_v(out@) =~= Seq::<Seq<char>>::empty());
    }
    while i < reqs.len()
        invariant
            i <= reqs@.len(),
            strings_v(out@) == reqs_at(reqs@.take(i as int), doc@, span@),
        decreases reqs@.len() - i,
    {
        let r = &reqs[i];
        proof {
            assert(reqs@.take(i as int + 1).drop_last() =~= reqs@.take(i as int));
            assert(reqs@.take(i as int + 1).last() == reqs@[i as int]);
        }
        if r.status != Status::Retired {
            push_id_hits(&mut out, &r.id, &r.anchors, doc, span);
        } else {
            proof {
                assert(reqs_at(reqs@.take(i as int + 1), doc@, span@) =~= reqs_at(reqs@.take(i as int), doc@, span@));
            }
        }
        i += 1;
    }
    proof {
        assert(reqs@.take(reqs@.len() as int) =~= reqs@);
    }
    out
}

fn qsts_here(qsts: &Vec<Question>, doc: &str, span: &str) -> (r: Vec<String>)
    ensures
        strings_v(r@) == qsts_at(qsts@, doc@, span@),
{
    let mut out: Vec<String> = Vec::new();
    let mut i: usize = 0;
    proof {
        assert(strings_v(out@) =~= Seq::<Seq<char>>::empty());
    }
    while i < qsts.len()
        invariant
            i <= qsts@.len(),
            strings_v(out@) == qsts_at(qsts@.take(i as int), doc@, span@),
        decreases qsts@.len() - i,
    {
        let q = &qsts[i];
        proof {
            assert(qsts@.take(i as int + 1).drop_last() =~= qsts@.take(i as int));
            assert(qsts@.take(i as int + 1).last() == qsts@[i as int]);
        }
        if q.status == QstStatus::Open {
            push_id_hits(&mut out, &q.id, &q.anchors, doc, span);
        } else {
            proof {
                assert(qsts_at(qsts@.take(i as int + 1), doc@, span@) =~= qsts_at(qsts@.take(i as int), doc@, span@));
            }
        }
        i += 1;
    }
    proof {
        assert(qsts@.take(qsts@.len() as int) =~= qsts@);
    }
    out
}

fn anchors_touch(anchors: &Vec<Anchor>, doc: &str) -> (r: bool)
    ensures
        r == touches(anchors@, doc@),
{
    let mut j: usize = 0;
    while j < anchors.len()
        invariant
            j <= anchors@.len(),
            forall|x: int| 0 <= x < j ==> (#[trigger] anchors@[x]).doc@ != doc@,
        decreases anchors@.len() - j,
    {
        if same(anchors[j].doc.as_str(), doc) {
            return true;
        }
        j += 1;
    }
    false
}

fn count_open_touching(qsts: &Vec<Question>, doc: &str) -> (r: usize)
    ensures
        r == open_touching(qsts@, doc@),
{
    let mut n: usize = 0;
    let mut i: usize = 0;
    while i < qsts.len()
        invariant
            i <= qsts@.len(),
            n == open_touching(qsts@.take(i as int), doc@),
            n <= i,
        decreases qsts@.len() - i,
    {
        proof {
            assert(qsts@.take(i as int + 1).drop_last() =~= qsts@.take(i as int));
            assert(qsts@.take(i as int + 1).last() == qsts@[i as int]);
        }
        if qsts[i].status == QstStatus::Open && anchors_touch(&qsts[i].anchors, doc) {
            n += 1;
        }
        i += 1;
    }
    proof {
        assert(qsts@.take(qsts@.len() as int) =~= qsts@);
    }
    n
}

fn is_first_of_id(spans: &Vec<Span>, i: usize) -> (r: bool)
    requires
        i < spans@.len(),
    ensures
        r == first_of_id(spans@, i as int),
{
    let mut j: usize = 0;
    while j < i
        invariant
            j <= i < spans@.len(),
            forall|x: int| 0 <= x < j ==> (#[trigger] spans@[x]).id@ != spans@[i as int].id@,
        decreases i - j,
    {
        if same(spans[j].id.as_str(), spans[i].id.as_str()) {
            return false;
        }
        j += 1;
    }
    true
}

fn mark_kind(ctx: &Context, marks: &Marks, base: &Marks, k: &str) -> (r: Option<MarkKind>)
    ensures
        r == (match merged_mark(*ctx, *marks, *base, k@) {
            Some(m) => Some(m.kind),
            None => None,
        }),
{
    match marks.get(k) {
        Some(m) => Some(m.kind),
        None => match ctx {
            Context::Pr { .. } => match base.get(k) {
                Some(m) => Some(m.kind),
                None => None,
            },
            Context::Branch { .. } => None,
        },
    }
}

// ---------- the meter ----------

/// Classification state for every span of a snapshot, given the current requirements and
/// questions and the context's marks (`base`: the default branch's marks, consulted for a PR
/// context on spans the PR has no mark for).
pub fn doc_coverage(
    ctx: &Context,
    snap: &Snapshot,
    reqs: &Vec<ReqRev>,
    qsts: &Vec<Question>,
    marks: &Marks,
    base: &Marks,
) -> (c: DocCoverage)
    ensures
        c.doc@ == snap.doc@,
        c.snapshot@ == snap.sha@,
        c.spans@.len() == snap.spans@.len(),
        forall|i: int|
            0 <= i < c.spans@.len() ==> {
                let f = span_facts(*ctx, *snap, reqs@, qsts@, *marks, *base, i);
                let e = #[trigger] c.spans@[i];
                &&& e.0@ == snap.spans@[i].id@
                &&& strings_v(e.1.reqs@) == f.0
                &&& strings_v(e.1.questions@) == f.1
                &&& e.1.state == f.2
                &&& e.1.structural == spec_is_structural(snap.spans@[i].block)
            },
        c.meter.total == tally(*ctx, *snap, reqs@, qsts@, *marks, *base, None, snap.spans@.len() as int),
        c.meter.residue == tally(*ctx, *snap, reqs@, qsts@, *marks, *base, Some(SpanState::Unclassified), snap.spans@.len() as int),
        c.meter.mapped == tally(*ctx, *snap, reqs@, qsts@, *marks, *base, Some(SpanState::Mapped), snap.spans@.len() as int),
        c.meter.non_normative == tally(*ctx, *snap, reqs@, qsts@, *marks, *base, Some(SpanState::NonNormative), snap.spans@.len() as int),
        c.meter.questioned == tally(*ctx, *snap, reqs@, qsts@, *marks, *base, Some(SpanState::Question), snap.spans@.len() as int),
        c.meter.classified == c.meter.total - c.meter.residue,
        c.meter.classified == c.meter.mapped + c.meter.non_normative + c.meter.questioned,
        c.meter.total <= snap.spans@.len(),
        c.meter.open_questions == open_touching(qsts@, snap.doc@),
{
    let open_questions = count_open_touching(qsts, snap.doc.as_str());
    let mut total: usize = 0;
    let mut residue: usize = 0;
    let mut mapped: usize = 0;
    let mut non_normative: usize = 0;
    let mut questioned: usize = 0;
    let mut spans: Vec<(String, SpanStatus)> = Vec::new();
    let mut i: usize = 0;
    while i < snap.spans.len()
        invariant
            i <= snap.spans@.len(),
            total == tally(*ctx, *snap, reqs@, qsts@, *marks, *base, None, i as int),
            residue == tally(*ctx, *snap, reqs@, qsts@, *marks, *base, Some(SpanState::Unclassified), i as int),
            mapped == tally(*ctx, *snap, reqs@, qsts@, *marks, *base, Some(SpanState::Mapped), i as int),
            non_normative == tally(*ctx, *snap, reqs@, qsts@, *marks, *base, Some(SpanState::NonNormative), i as int),
            questioned == tally(*ctx, *snap, reqs@, qsts@, *marks, *base, Some(SpanState::Question), i as int),
            total == residue + mapped + non_normative + questioned,
            total <= i,
            spans@.len() == i,
            forall|x: int|
                0 <= x < i ==> {
                    let f = span_facts(*ctx, *snap, reqs@, qsts@, *marks, *base, x);
                    let e = #[trigger] spans@[x];
                    &&& e.0@ == snap.spans@[x].id@
                    &&& strings_v(e.1.reqs@) == f.0
                    &&& strings_v(e.1.questions@) == f.1
                    &&& e.1.state == f.2
                    &&& e.1.structural == spec_is_structural(snap.spans@[x].block)
                },
        decreases snap.spans@.len() - i,
    {
        let s = &snap.spans[i];
        let first = is_first_of_id(&snap.spans, i);
        let rq = if first {
            reqs_here(reqs, snap.doc.as_str(), s.id.as_str())
        } else {
            Vec::new()
        };
        let qq = if first {
            qsts_here(qsts, snap.doc.as_str(), s.id.as_str())
        } else {
            Vec::new()
        };
        proof {
            assert(strings_v(Seq::<String>::empty()) =~= Seq::<Seq<char>>::empty());
        }
        let structural = is_structural(s.block);
        let state = if rq.len() > 0 {
            SpanState::Mapped
        } else if qq.len() > 0 {
            SpanState::Question
        } else if mark_kind(ctx, marks, base, s.id.as_str()) == Some(MarkKind::NonNormative) {
            SpanState::NonNormative
        } else {
            SpanState::Unclassified
        };
        proof {
            let f = span_facts(*ctx, *snap, reqs@, qsts@, *marks, *base, i as int);
            assert(f.0 == strings_v(rq@));
            assert(f.1 == strings_v(qq@));
            assert(state == f.2);
        }
        if !structural || state != SpanState::Unclassified {
            total += 1;
            match state {
                SpanState::Unclassified => residue += 1,
                SpanState::Mapped => mapped += 1,
                SpanState::NonNormative => non_normative += 1,
                SpanState::Question => questioned += 1,
            }
        }
        proof {
            let c = counted(state, structural);
            assert(tally(*ctx, *snap, reqs@, qsts@, *marks, *base, None, i as int + 1) == tally(*ctx, *snap, reqs@, qsts@, *marks, *base, None, i as int) + if c { 1nat } else { 0nat });
            assert(tally(*ctx, *snap, reqs@, qsts@, *marks, *base, Some(SpanState::Unclassified), i as int + 1) == tally(*ctx, *snap, reqs@, qsts@, *marks, *base, Some(SpanState::Unclassified), i as int) + if c && state == SpanState::Unclassified { 1nat } else { 0nat });
            assert(tally(*ctx, *snap, reqs@, qsts@, *marks, *base, Some(SpanState::Mapped), i as int + 1) == tally(*ctx, *snap, reqs@, qsts@, *marks, *base, Some(SpanState::Mapped), i as int) + if c && state == SpanState::Mapped { 1nat } else { 0nat });
        }
        spans.push((copy_str(s.id.as_str()), SpanStatus { state, reqs: rq, questions: qq, structural }));
        i += 1;
    }
    let meter = Meter {
        total,
        classified: total - residue,
        residue,
        mapped,
        non_normative,
        questioned,
        open_questions,
    };
    DocCoverage { doc: copy_str(snap.doc.as_str()), snapshot: copy_str(snap.sha.as_str()), meter, spans }
}


// ---------- repo rollup ----------

/// Repo-level rollups for oversight.
#[derive(Debug, Clone)]
pub struct RepoRollup {
    /// Requirement count per status name, every status listed, in name order.
    pub reqs_by_status: Vec<(String, usize)>,
    pub open_questions: usize,
    pub groups: usize,
    pub unexported_changes: bool,
}

/// How many of `reqs` have status `st`.
pub open spec fn status_count(reqs: Seq<ReqRev>, st: Status) -> nat
    decreases reqs.len(),
{
    if reqs.len() == 0 {
        0
    } else {
        status_count(reqs.drop_last(), st) + if reqs.last().status == st { 1nat } else { 0nat }
    }
}

/// How many of `qsts` are open.
pub open spec fn open_count(qsts: Seq<Question>) -> nat
    decreases qsts.len(),
{
    if qsts.len() == 0 {
        0
    } else {
        open_count(qsts.drop_last()) + if qsts.last().status == QstStatus::Open { 1nat } else { 0nat }
    }
}

/// The statuses in the order of their names.
pub open spec fn statuses_by_name() -> Seq<Status> {
    seq![Status::Assumed, Status::Confirmed, Status::Disputed, Status::Extracted, Status::Retired]
}

proof fn lemma_status_total(reqs: Seq<ReqRev>)
    ensures
        status_count(reqs, Status::Assumed) + status_count(reqs, Status::Confirmed) + status_count(reqs, Status::Disputed)
            + status_count(reqs, Status::Extracted) + status_count(reqs, Status::Retired) == reqs.len(),
    decreases reqs.len(),
{
    if reqs.len() > 0 {
        lemma_status_total(reqs.drop_last());
    }
}

fn count_status(reqs: &Vec<ReqRev>, st: Status) -> (n: usize)
    ensures
        n == status_count(reqs@, st),
{
    let mut n: usize = 0;
    let mut i: usize = 0;
    while i < reqs.len()
        invariant
            i <= reqs@.len(),
            n == status_count(reqs@.take(i as int), st),
            n <= i,
        decreases reqs@.len() - i,
    {
        proof {
            assert(reqs@.take(i as int + 1).drop_last() =~= reqs@.take(i as int));
        }
        if reqs[i].status == st {
            n += 1;
        }
        i += 1;
    }
    proof {
        assert(reqs@.take(reqs@.len() as int) =~= reqs@);
    }
    n
}

/// Requirement counts by status, open questions, groups and whether anything changed since
/// the last export.
pub fn repo_rollup(reqs: &Vec<ReqRev>, qsts: &Vec<Question>, groups: usize, unexported_changes: bool) -> (r: RepoRollup)
    ensures
        r.reqs_by_status@.len() == 5,
        forall|i: int| 0 <= i < 5 ==> (#[trigger] r.reqs_by_status@[i]).0@ == crate::model::status_name(statuses_by_name()[i])
            && r.reqs_by_status@[i].1 == status_count(reqs@, statuses_by_name()[i]),
        r.open_questions == open_count(qsts@),
        r.groups == groups,
        r.unexported_changes == unexported_changes,
{
    let order = [Status::Assumed, Status::Confirmed, Status::Disputed, Status::Extracted, Status::Retired];
    let mut by: Vec<(String, usize)> = Vec::new();
    let mut k: usize = 0;
    while k < 5
        invariant
            k <= 5,
            order@ == statuses_by_name(),
            by@.len() == k,
            forall|i: int| 0 <= i < k ==> (#[trigger] by@[i]).0@ == crate::model::status_name(statuses_by_name()[i])
                && by@[i].1 == status_count(reqs@, statuses_by_name()[i]),
        decreases 5 - k,
    {
        let st = order[k];
        by.push((copy_str(st.as_str()), count_status(reqs, st)));
        k += 1;
    }
    let mut open: usize = 0;
    let mut i: usize = 0;
    while i < qsts.len()
        invariant
            i <= qsts@.len(),
            open == open_count(qsts@.take(i as int)),
            open <= i,
        decreases qsts@.len() - i,
    {
        proof {
            assert(qsts@.take(i as int + 1).drop_last() =~= qsts@.take(i as int));
        }
        if qsts[i].status == QstStatus::Open {
            open += 1;
        }
        i += 1;
    }
    proof {
        assert(qsts@.take(qsts@.len() as int) =~= qsts@);
    }
    RepoRollup { reqs_by_status: by, open_questions: open, groups, unexported_changes }
}

/// Every requirement is counted under exactly one status: the rollup's counts add up to the
/// number of current requirements.
pub proof fn law_rollup_counts_every_req(reqs: Seq<ReqRev>)
    ensures
        status_count(reqs, statuses_by_name()[0]) + status_count(reqs, statuses_by_name()[1])
            + status_count(reqs, statuses_by_name()[2]) + status_count(reqs, statuses_by_name()[3])
            + status_count(reqs, statuses_by_name()[4]) == reqs.len(),
{
    lemma_status_total(reqs);
}

/// In a PR context a span the PR has no mark for takes the default branch's mark: with no
/// requirement or open question anchored on it, a non-normative mark on the default branch
/// (`base`) makes it non-normative, not residue. A mark of the PR's own (`marks`) wins over
/// whatever the default branch holds, and outside a PR the default branch's marks play no part
/// (`other` is any other set of default-branch marks).
pub proof fn law_pr_inherits_base_marks(ctx: Context, snap: Snapshot, reqs: Seq<ReqRev>, qsts: Seq<Question>, marks: Marks, base: Marks, other: Marks, i: int)
    requires
        0 <= i < snap.spans@.len(),
    ensures
        ({
            let id = snap.spans@[i].id@;
            let f = span_facts(ctx, snap, reqs, qsts, marks, base, i);
            ctx is Pr && marks.get_spec(id) is None && f.0.len() == 0 && f.1.len() == 0
                && (base.get_spec(id) matches Some(m) && m.kind == MarkKind::NonNormative)
                ==> f.2 == SpanState::NonNormative
        }),
        (ctx is Pr ==> marks.get_spec(snap.spans@[i].id@) is Some) ==> span_facts(ctx, snap, reqs, qsts, marks, base, i)
            == span_facts(ctx, snap, reqs, qsts, marks, other, i),
{
}

/// How many of the first `k` indices satisfy `p`.
pub open spec fn count_upto(k: int, p: spec_fn(int) -> bool) -> nat
    decreases k,
{
    if k <= 0 {
        0
    } else {
        count_upto(k - 1, p) + if p(k - 1) { 1nat } else { 0nat }
    }
}

/// Headings, fenced code and HTML count only once classified; sentences, list items and table
/// rows always count. So the meter's total counts every classified span and every paragraph,
/// list-item or table-row span, and its residue is exactly the unclassified paragraph,
/// list-item and table-row spans: an unclassified heading, code block or HTML block is never
/// residue.
pub proof fn law_structural_blocks_count_once_classified(
    ctx: Context, snap: Snapshot, reqs: Seq<ReqRev>, qsts: Seq<Question>, marks: Marks, base: Marks, k: int,
)
    requires
        0 <= k <= snap.spans@.len(),
    ensures
        tally(ctx, snap, reqs, qsts, marks, base, None, k) == count_upto(
            k,
            |j: int|
                span_facts(ctx, snap, reqs, qsts, marks, base, j).2 != SpanState::Unclassified || snap.spans@[j].block == Block::Para
                    || snap.spans@[j].block == Block::Li || snap.spans@[j].block == Block::Row,
        ),
        tally(ctx, snap, reqs, qsts, marks, base, Some(SpanState::Unclassified), k) == count_upto(
            k,
            |j: int|
                span_facts(ctx, snap, reqs, qsts, marks, base, j).2 == SpanState::Unclassified && (snap.spans@[j].block == Block::Para
                    || snap.spans@[j].block == Block::Li || snap.spans@[j].block == Block::Row),
        ),
    decreases k,
{
    if k > 0 {
        law_structural_blocks_count_once_classified(ctx, snap, reqs, qsts, marks, base, k - 1);
    }
}

} // verus!
