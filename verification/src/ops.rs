//! The operations on the store's objects, as transformations of values: what each operation
//! reads is passed in, what it writes comes back. Locking, reading and writing files is the
//! caller's; timestamps are passed in as `now`.

use crate::id::{parse_error_message, spec_parse, Id, IdError};
use crate::model::{Anchor, Answer, History, HistoryValue, Level, Mark, Marks, Pattern, QstStatus, Question, Rating, Reading, RepoKind, ReqRev, Round, RoundSummary, Status};
use crate::reconcile::{count_unconfirmed, Decision, Reconciliation, Verdict, VerdictKind};
use crate::agent::{Proposal, ProposalStatus, Proposals, Proposed};
use crate::model::Group;
use crate::text::{copy_str, decimal, decimal_u64, push_str, strings_v};
use vstd::prelude::*;

verus! {

broadcast use vstd::string::group_string_axioms;

// ---------- views ----------

pub open spec fn opt_v(o: Option<String>) -> Option<Seq<char>> {
    match o {
        Some(s) => Some(s@),
        None => None,
    }
}

pub open spec fn anchor_v(a: Anchor) -> (Seq<char>, Seq<char>) {
    (a.doc@, a.span@)
}

pub open spec fn anchors_v(s: Seq<Anchor>) -> Seq<(Seq<char>, Seq<char>)> {
    s.map_values(|a: Anchor| anchor_v(a))
}

/// The head of a history entry: its operation, author, time and note, without who accepted it
/// or the values it went from and to (`entry_v` has every field).
pub open spec fn entry_head(h: History) -> (Seq<char>, Seq<char>, i128, Option<Seq<char>>) {
    (h.op@, h.by@, h.at, opt_v(h.note))
}

/// The heads of the entries of `s`.
pub open spec fn entry_heads(s: Seq<History>) -> Seq<(Seq<char>, Seq<char>, i128, Option<Seq<char>>)> {
    s.map_values(|h: History| entry_head(h))
}

/// A history value, as mathematics.
pub enum ValView {
    Anchors(Seq<(Seq<char>, Seq<char>)>),
    Status(Status),
    Text(Seq<char>),
    Ids(Seq<crate::groups::IdView>),
}

pub open spec fn val_v(o: Option<HistoryValue>) -> Option<ValView> {
    match o {
        None => None,
        Some(HistoryValue::Anchors(a)) => Some(ValView::Anchors(anchors_v(a@))),
        Some(HistoryValue::Status(st)) => Some(ValView::Status(st)),
        Some(HistoryValue::Text(t)) => Some(ValView::Text(t@)),
        Some(HistoryValue::Ids(x)) => Some(ValView::Ids(ids_v(x@))),
    }
}

/// Every field of a history entry: operation, author, time, note, who accepted it, and the
/// values it went from and to.
pub open spec fn entry_v(h: History) -> (Seq<char>, Seq<char>, i128, Option<Seq<char>>, Option<Seq<char>>, Option<ValView>, Option<ValView>) {
    (h.op@, h.by@, h.at, opt_v(h.note), opt_v(h.accepted_by), val_v(h.from), val_v(h.to))
}

pub open spec fn entries_v(s: Seq<History>) -> Seq<(Seq<char>, Seq<char>, i128, Option<Seq<char>>, Option<Seq<char>>, Option<ValView>, Option<ValView>)> {
    s.map_values(|h: History| entry_v(h))
}

/// What reconciliation can change on a requirement's current rev.
pub struct ReqView {
    pub anchors: Seq<(Seq<char>, Seq<char>)>,
    pub status: Status,
    pub reason: Option<Seq<char>>,
    pub suspect: Option<Seq<char>>,
    pub history: Seq<(Seq<char>, Seq<char>, i128, Option<Seq<char>>, Option<Seq<char>>, Option<ValView>, Option<ValView>)>,
}

pub open spec fn req_view(r: ReqRev) -> ReqView {
    ReqView {
        anchors: anchors_v(r.anchors@),
        status: r.status,
        reason: opt_v(r.reason),
        suspect: opt_v(r.suspect),
        history: entries_v(r.history@),
    }
}

/// Everything else of a rev stays: id, statement, pattern, rating, owner, questions and the
/// history already written.
pub open spec fn req_frame(new: ReqRev, old: ReqRev) -> bool {
    &&& new.id == old.id
    &&& new.statement == old.statement
    &&& new.pattern == old.pattern
    &&& new.rating == old.rating
    &&& new.owner == old.owner
    &&& new.questions == old.questions
    &&& new.history@.len() >= old.history@.len()
    &&& new.history@.take(old.history@.len() as int) == old.history@
}

/// `av` without the anchor `(doc, span)`.
pub open spec fn drop_anchor(av: Seq<(Seq<char>, Seq<char>)>, doc: Seq<char>, span: Seq<char>) -> Seq<(Seq<char>, Seq<char>)>
    decreases av.len(),
{
    if av.len() == 0 {
        Seq::empty()
    } else {
        let d = drop_anchor(av.drop_last(), doc, span);
        if av.last() == (doc, span) { d } else { d.push(av.last()) }
    }
}

// ---------- reconciliation, confirmed ----------

/// The decision taken (an undecided unchanged verdict counts as accepted).
pub open spec fn decision_of(v: Verdict) -> Decision {
    match v.decision {
        Some(d) => d,
        None => Decision::Accept,
    }
}

/// Where the verdict moves anchors: its proposed span, the chosen span, or nowhere.
pub open spec fn target_of(v: Verdict) -> Option<Seq<char>> {
    match decision_of(v) {
        Decision::Accept => opt_v(v.to),
        Decision::MeaningChanged => opt_v(v.to),
        Decision::Reanchor { span } => Some(span@),
        _ => None,
    }
}

/// The new snapshot's sha, shortened for notes (first 8 characters).
pub open spec fn short_sha(to: Seq<char>) -> Seq<char> {
    if to.len() <= 8 { to } else { to.take(8) }
}

pub open spec fn or_empty(o: Option<String>) -> Seq<char> {
    match o {
        Some(s) => s@,
        None => Seq::empty(),
    }
}

/// A requirement rev after one verdict that names it: its anchor on the old span moves to
/// the target (unless already there) or goes; a meaning change marks it suspect, a retirement
/// retires it; one history entry records the step.
pub open spec fn req_step(st: ReqView, v: Verdict, doc: Seq<char>, by: Seq<char>, now: i128, to8: Seq<char>) -> ReqView {
    let kept = drop_anchor(st.anchors, doc, v.from@);
    let anchors = match target_of(v) {
        Some(t) => if kept.contains((doc, t)) { kept } else { kept.push((doc, t)) },
        None => kept,
    };
    match decision_of(v) {
        Decision::MeaningChanged => ReqView {
            anchors,
            suspect: Some("source changed meaning in "@ + to8 + " \u{2014} review statement"@),
            history: st.history.push(("meaning-changed"@, by, now, Some(or_empty(v.to_text)), None,
                Some(ValView::Anchors(st.anchors)), Some(ValView::Anchors(anchors)))),
            ..st
        },
        Decision::Retire { reason } => ReqView {
            anchors,
            status: Status::Retired,
            reason: Some(reason@),
            history: st.history.push(("retire"@, by, now, Some("source missing after "@ + to8 + ": "@ + reason@), None, None, None)),
            ..st
        },
        _ => ReqView {
            anchors,
            history: st.history.push(("reconcile"@, by, now, None, None, Some(ValView::Anchors(st.anchors)), Some(ValView::Anchors(anchors)))),
            ..st
        },
    }
}

/// A question rev after one verdict that names it: its anchor on the old span goes, one on
/// the target is added; one history entry records the step.
pub struct QstView {
    pub anchors: Seq<(Seq<char>, Seq<char>)>,
    pub history: Seq<(Seq<char>, Seq<char>, i128, Option<Seq<char>>, Option<Seq<char>>, Option<ValView>, Option<ValView>)>,
}

pub open spec fn qst_view(q: Question) -> QstView {
    QstView { anchors: anchors_v(q.anchors@), history: entries_v(q.history@) }
}

pub open spec fn qst_frame(new: Question, old: Question) -> bool {
    &&& new.id == old.id
    &&& new.status == old.status
    &&& new.quote == old.quote
    &&& new.materiality == old.materiality
    &&& new.readings == old.readings
    &&& new.affects == old.affects
    &&& new.answer == old.answer
    &&& new.pending == old.pending
    &&& new.affects_revs == old.affects_revs
    &&& new.history@.len() >= old.history@.len()
    &&& new.history@.take(old.history@.len() as int) == old.history@
}

pub open spec fn qst_step(st: QstView, v: Verdict, doc: Seq<char>, by: Seq<char>, now: i128) -> QstView {
    let kept = drop_anchor(st.anchors, doc, v.from@);
    QstView {
        anchors: match target_of(v) {
            Some(t) => kept.push((doc, t)),
            None => kept,
        },
        history: st.history.push(("reconcile"@, by, now, None, None, None, None)),
    }
}

/// Every requirement reference of the verdicts, in order: the verdict and the id text.
pub open spec fn req_refs(vs: Seq<Verdict>) -> Seq<(Verdict, Seq<char>)>
    decreases vs.len(),
{
    if vs.len() == 0 {
        Seq::empty()
    } else {
        req_refs(vs.drop_last()) + vs.last().reqs@.map_values(|s: String| (vs.last(), s@))
    }
}

/// Every question reference of the verdicts, in order.
pub open spec fn qst_refs(vs: Seq<Verdict>) -> Seq<(Verdict, Seq<char>)>
    decreases vs.len(),
{
    if vs.len() == 0 {
        Seq::empty()
    } else {
        qst_refs(vs.drop_last()) + vs.last().questions@.map_values(|s: String| (vs.last(), s@))
    }
}

/// The slug an id text names, if it parses.
pub open spec fn ref_slug(id: Seq<char>) -> Option<Seq<char>> {
    match spec_parse(id) {
        Ok((_, slug, _)) => Some(slug),
        Err(_) => None,
    }
}

/// The requirement with slug `slug` after the references `refs`, in order.
pub open spec fn fold_req(refs: Seq<(Verdict, Seq<char>)>, slug: Seq<char>, doc: Seq<char>, by: Seq<char>, now: i128, to8: Seq<char>, st: ReqView) -> ReqView
    decreases refs.len(),
{
    if refs.len() == 0 {
        st
    } else {
        let s0 = fold_req(refs.drop_last(), slug, doc, by, now, to8, st);
        if ref_slug(refs.last().1) == Some(slug) { req_step(s0, refs.last().0, doc, by, now, to8) } else { s0 }
    }
}

pub open spec fn fold_qst(refs: Seq<(Verdict, Seq<char>)>, slug: Seq<char>, doc: Seq<char>, by: Seq<char>, now: i128, st: QstView) -> QstView
    decreases refs.len(),
{
    if refs.len() == 0 {
        st
    } else {
        let s0 = fold_qst(refs.drop_last(), slug, doc, by, now, st);
        if ref_slug(refs.last().1) == Some(slug) { qst_step(s0, refs.last().0, doc, by, now) } else { s0 }
    }
}

/// The first entry of `files` for `slug`.
pub open spec fn first_file<T>(files: Seq<(String, Vec<T>)>, slug: Seq<char>, k: int) -> bool {
    &&& 0 <= k < files.len()
    &&& files[k].0@ == slug
    &&& forall|j: int| 0 <= j < k ==> (#[trigger] files[j]).0@ != slug
}

/// The marks after confirmation: each old mark moves to its verdict's target (a later verdict
/// onto the same target wins); everything else is dropped.
pub open spec fn carried_mark(vs: Seq<Verdict>, old_marks: Marks, k: Seq<char>) -> Option<Mark>
    decreases vs.len(),
{
    if vs.len() == 0 {
        None
    } else {
        let v = vs.last();
        if target_of(v) == Some(k) && old_marks.get_spec(v.from@) is Some {
            old_marks.get_spec(v.from@)
        } else {
            carried_mark(vs.drop_last(), old_marks, k)
        }
    }
}


// ---------- helpers ----------

pub fn copy_anchor(a: &Anchor) -> (r: Anchor)
    ensures
        anchor_v(r) == anchor_v(*a),
{
    Anchor { doc: copy_str(a.doc.as_str()), span: copy_str(a.span.as_str()) }
}

pub fn copy_anchors(v: &Vec<Anchor>) -> (r: Vec<Anchor>)
    ensures
        anchors_v(r@) == anchors_v(v@),
{
    let mut out: Vec<Anchor> = Vec::new();
    let mut i: usize = 0;
    while i < v.len()
        invariant
            i <= v@.len(),
            anchors_v(out@) == anchors_v(v@.take(i as int)),
        decreases v@.len() - i,
    {
        let ghost o0 = out@;
        out.push(copy_anchor(&v[i]));
        proof {
            assert(anchors_v(out@) =~= anchors_v(o0).push(anchor_v(v@[i as int])));
            assert(anchors_v(v@.take(i as int + 1)) =~= anchors_v(v@.take(i as int)).push(anchor_v(v@[i as int])));
        }
        i += 1;
    }
    proof {
        assert(v@.take(v@.len() as int) =~= v@);
    }
    out
}

/// The anchors without `(doc, span)`.
fn without_anchor(v: &Vec<Anchor>, doc: &str, span: &str) -> (r: Vec<Anchor>)
    ensures
        anchors_v(r@) == drop_anchor(anchors_v(v@), doc@, span@),
{
    let mut out: Vec<Anchor> = Vec::new();
    let mut i: usize = 0;
    while i < v.len()
        invariant
            i <= v@.len(),
            anchors_v(out@) == drop_anchor(anchors_v(v@.take(i as int)), doc@, span@),
        decreases v@.len() - i,
    {
        proof {
            assert(anchors_v(v@.take(i as int + 1)).drop_last() =~= anchors_v(v@.take(i as int)));
            assert(anchors_v(v@.take(i as int + 1)).last() == anchor_v(v@[i as int]));
        }
        if !(crate::text::same(v[i].doc.as_str(), doc) && crate::text::same(v[i].span.as_str(), span)) {
            let ghost o0 = out@;
            out.push(copy_anchor(&v[i]));
            proof {
                assert(anchors_v(out@) =~= anchors_v(o0).push(anchor_v(v@[i as int])));
            }
        }
        i += 1;
    }
    proof {
        assert(v@.take(v@.len() as int) =~= v@);
    }
    out
}

pub(crate) fn has_anchor(v: &Vec<Anchor>, doc: &str, span: &str) -> (r: bool)
    ensures
        r == anchors_v(v@).contains((doc@, span@)),
{
    let mut i: usize = 0;
    while i < v.len()
        invariant
            i <= v@.len(),
            forall|j: int| 0 <= j < i ==> anchor_v(#[trigger] v@[j]) != (doc@, span@),
        decreases v@.len() - i,
    {
        if crate::text::same(v[i].doc.as_str(), doc) && crate::text::same(v[i].span.as_str(), span) {
            proof {
                assert(anchors_v(v@)[i as int] == (doc@, span@));
            }
            return true;
        }
        i += 1;
    }
    proof {
        assert forall|j: int| 0 <= j < anchors_v(v@).len() implies anchors_v(v@)[j] != (doc@, span@) by {
            assert(anchors_v(v@)[j] == anchor_v(v@[j]));
        }
    }
    false
}

fn copy_opt(o: &Option<String>) -> (r: Option<String>)
    ensures
        opt_v(r) == opt_v(*o),
{
    match o {
        Some(s) => Some(copy_str(s.as_str())),
        None => None,
    }
}

pub open spec fn mark_v(m: Mark) -> (crate::model::MarkKind, Seq<char>, i128, Option<Seq<char>>) {
    (m.kind, m.by@, m.at, opt_v(m.note))
}

pub open spec fn omark_v(m: Option<Mark>) -> Option<(crate::model::MarkKind, Seq<char>, i128, Option<Seq<char>>)> {
    match m {
        Some(x) => Some(mark_v(x)),
        None => None,
    }
}

fn copy_mark(m: &Mark) -> (r: Mark)
    ensures
        mark_v(r) == mark_v(*m),
{
    Mark { kind: m.kind, by: copy_str(m.by.as_str()), at: m.at, note: copy_opt(&m.note) }
}

/// Where a verdict moves anchors.
pub fn verdict_target(v: &Verdict) -> (r: Option<String>)
    ensures
        opt_v(r) == target_of(*v),
{
    match &v.decision {
        None | Some(Decision::Accept) | Some(Decision::MeaningChanged) => copy_opt(&v.to),
        Some(Decision::Reanchor { span }) => Some(copy_str(span.as_str())),
        Some(Decision::Drop) | Some(Decision::Retire { .. }) => None,
    }
}

/// Apply one confirmed verdict to a requirement's current rev.
fn reconcile_req(cur: &mut ReqRev, v: &Verdict, doc: &str, by: &str, now: i128, to8: &str)
    ensures
        req_view(*final(cur)) == req_step(req_view(*old(cur)), *v, doc@, by@, now, to8@),
        req_frame(*final(cur), *old(cur)),
{
    let before = copy_anchors(&cur.anchors);
    let mut kept = without_anchor(&cur.anchors, doc, v.from.as_str());
    match verdict_target(v) {
        Some(t) => {
            if !has_anchor(&kept, doc, t.as_str()) {
                let ghost k0 = kept@;
                kept.push(Anchor { doc: copy_str(doc), span: t });
                proof {
                    assert(anchors_v(kept@) =~= anchors_v(k0).push((doc@, target_of(*v)->0)));
                }
            }
        },
        None => {},
    }
    cur.anchors = kept;
    let after = copy_anchors(&cur.anchors);
    let ghost h0 = cur.history@;
    match &v.decision {
        Some(Decision::MeaningChanged) => {
            let mut s = copy_str("source changed meaning in ");
            push_str(&mut s, to8);
            push_str(&mut s, " \u{2014} review statement");
            cur.suspect = Some(s);
            let note = match &v.to_text {
                Some(t) => copy_str(t.as_str()),
                None => String::new(),
            };
            let h = History::new_at(by, "meaning-changed", now)
                .change(Some(HistoryValue::Anchors(before)), Some(HistoryValue::Anchors(after)))
                .note(note);
            cur.history.push(h);
        },
        Some(Decision::Retire { reason }) => {
            cur.status = Status::Retired;
            cur.reason = Some(copy_str(reason.as_str()));
            let mut n = copy_str("source missing after ");
            push_str(&mut n, to8);
            push_str(&mut n, ": ");
            push_str(&mut n, reason.as_str());
            let h = History::new_at(by, "retire", now).note(n);
            cur.history.push(h);
        },
        _ => {
            let h = History::new_at(by, "reconcile", now)
                .change(Some(HistoryValue::Anchors(before)), Some(HistoryValue::Anchors(after)));
            cur.history.push(h);
        },
    }
    proof {
        assert(entries_v(cur.history@) =~= entries_v(h0).push(entry_v(cur.history@.last())));
        assert(cur.history@.take(h0.len() as int) =~= h0);
    }
}

/// Apply one confirmed verdict to a question's current rev.
fn reconcile_qst(cur: &mut Question, v: &Verdict, doc: &str, by: &str, now: i128)
    ensures
        qst_view(*final(cur)) == qst_step(qst_view(*old(cur)), *v, doc@, by@, now),
        qst_frame(*final(cur), *old(cur)),
{
    let mut kept = without_anchor(&cur.anchors, doc, v.from.as_str());
    match verdict_target(v) {
        Some(t) => {
            let ghost k0 = kept@;
            kept.push(Anchor { doc: copy_str(doc), span: t });
            proof {
                assert(anchors_v(kept@) =~= anchors_v(k0).push((doc@, target_of(*v)->0)));
            }
        },
        None => {},
    }
    cur.anchors = kept;
    let ghost h0 = cur.history@;
    cur.history.push(History::new_at(by, "reconcile", now));
    proof {
        assert(entries_v(cur.history@) =~= entries_v(h0).push(entry_v(cur.history@.last())));
        assert(cur.history@.take(h0.len() as int) =~= h0);
    }
}


// ---------- confirming a reconciliation ----------

/// Every id text the verdicts name, in the order they are applied: each verdict's
/// requirements, then its questions.
pub open spec fn all_refs(vs: Seq<Verdict>) -> Seq<Seq<char>>
    decreases vs.len(),
{
    if vs.len() == 0 {
        Seq::empty()
    } else {
        all_refs(vs.drop_last()) + strings_v(vs.last().reqs@) + strings_v(vs.last().questions@)
    }
}

/// The first id text in `ids` that does not parse.
pub open spec fn first_bad(ids: Seq<Seq<char>>) -> Option<Seq<char>>
    decreases ids.len(),
{
    if ids.len() == 0 {
        None
    } else if spec_parse(ids[0]) is Err {
        Some(ids[0])
    } else {
        first_bad(ids.drop_first())
    }
}

pub open spec fn unconfirmed_message(n: nat) -> Seq<char> {
    decimal(n) + " verdict(s) still need a decision"@
}

/// A table of object files (slug, revs) after applying, for each file that is the first with
/// its slug and holds a rev, the folded steps to its current rev.
pub open spec fn reqs_after(files: Seq<(String, Vec<ReqRev>)>, new: Seq<(String, Vec<ReqRev>)>, refs: Seq<(Verdict, Seq<char>)>, doc: Seq<char>, by: Seq<char>, now: i128, to8: Seq<char>) -> bool {
    &&& new.len() == files.len()
    &&& forall|i: int| 0 <= i < files.len() ==> {
        let o = #[trigger] files[i];
        let n = new[i];
        if first_file(files, o.0@, i) && o.1@.len() > 0 {
            &&& n.0 == o.0
            &&& n.1@.len() == o.1@.len()
            &&& n.1@.drop_last() == o.1@.drop_last()
            &&& req_view(n.1@.last()) == fold_req(refs, o.0@, doc, by, now, to8, req_view(o.1@.last()))
            &&& req_frame(n.1@.last(), o.1@.last())
        } else {
            n == o
        }
    }
}

pub open spec fn qsts_after(files: Seq<(String, Vec<Question>)>, new: Seq<(String, Vec<Question>)>, refs: Seq<(Verdict, Seq<char>)>, doc: Seq<char>, by: Seq<char>, now: i128) -> bool {
    &&& new.len() == files.len()
    &&& forall|i: int| 0 <= i < files.len() ==> {
        let o = #[trigger] files[i];
        let n = new[i];
        if first_file(files, o.0@, i) && o.1@.len() > 0 {
            &&& n.0 == o.0
            &&& n.1@.len() == o.1@.len()
            &&& n.1@.drop_last() == o.1@.drop_last()
            &&& qst_view(n.1@.last()) == fold_qst(refs, o.0@, doc, by, now, qst_view(o.1@.last()))
            &&& qst_frame(n.1@.last(), o.1@.last())
        } else {
            n == o
        }
    }
}

proof fn lemma_req_frame_trans(a: ReqRev, b: ReqRev, c: ReqRev)
    requires
        req_frame(a, b),
        req_frame(b, c),
    ensures
        req_frame(a, c),
{
    assert(a.history@.take(c.history@.len() as int) =~= a.history@.take(b.history@.len() as int).take(c.history@.len() as int));
}

proof fn lemma_qst_frame_trans(a: Question, b: Question, c: Question)
    requires
        qst_frame(a, b),
        qst_frame(b, c),
    ensures
        qst_frame(a, c),
{
    assert(a.history@.take(c.history@.len() as int) =~= a.history@.take(b.history@.len() as int).take(c.history@.len() as int));
}

pub(crate) fn find_file<T>(files: &Vec<(String, Vec<T>)>, slug: &str) -> (r: Option<usize>)
    ensures
        match r {
            Some(k) => first_file(files@, slug@, k as int),
            None => forall|j: int| 0 <= j < files@.len() ==> (#[trigger] files@[j]).0@ != slug@,
        },
{
    let mut k: usize = 0;
    while k < files.len()
        invariant
            k <= files@.len(),
            forall|j: int| 0 <= j < k ==> (#[trigger] files@[j]).0@ != slug@,
        decreases files@.len() - k,
    {
        if crate::text::same(files[k].0.as_str(), slug) {
            return Some(k);
        }
        k += 1;
    }
    None
}

/// One requirement reference: step the current rev of the first file for `slug`.
fn apply_req_ref(files: &mut Vec<(String, Vec<ReqRev>)>, slug: &str, v: &Verdict, doc: &str, by: &str, now: i128, to8: &str)
    ensures
        final(files)@.len() == old(files)@.len(),
        forall|i: int| 0 <= i < old(files)@.len() ==> {
            let o = #[trigger] old(files)@[i];
            let n = final(files)@[i];
            if first_file(old(files)@, slug@, i) && o.1@.len() > 0 {
                &&& n.0 == o.0
                &&& n.1@.len() == o.1@.len()
                &&& n.1@.drop_last() == o.1@.drop_last()
                &&& req_view(n.1@.last()) == req_step(req_view(o.1@.last()), *v, doc@, by@, now, to8@)
                &&& req_frame(n.1@.last(), o.1@.last())
            } else {
                n == o
            }
        },
{
    match find_file(files, slug) {
        Some(k) => {
            if files[k].1.len() == 0 {
                proof {
                    assert forall|i: int| 0 <= i < files@.len() && first_file(files@, slug@, i) implies i == k by {}
                }
                return;
            }
            let ghost f0 = files@;
            let (name, mut revs) = files.remove(k);
            let mut cur = revs.pop().unwrap();
            reconcile_req(&mut cur, v, doc, by, now, to8);
            revs.push(cur);
            files.insert(k, (name, revs));
            proof {
                assert(files@ =~= f0.update(k as int, files@[k as int]));
                assert(files@[k as int].1@.drop_last() =~= f0[k as int].1@.drop_last());
                assert forall|i: int| 0 <= i < f0.len() && first_file(f0, slug@, i) implies i == k by {}
            }
        },
        None => {},
    }
}

fn apply_qst_ref(files: &mut Vec<(String, Vec<Question>)>, slug: &str, v: &Verdict, doc: &str, by: &str, now: i128)
    ensures
        final(files)@.len() == old(files)@.len(),
        forall|i: int| 0 <= i < old(files)@.len() ==> {
            let o = #[trigger] old(files)@[i];
            let n = final(files)@[i];
            if first_file(old(files)@, slug@, i) && o.1@.len() > 0 {
                &&& n.0 == o.0
                &&& n.1@.len() == o.1@.len()
                &&& n.1@.drop_last() == o.1@.drop_last()
                &&& qst_view(n.1@.last()) == qst_step(qst_view(o.1@.last()), *v, doc@, by@, now)
                &&& qst_frame(n.1@.last(), o.1@.last())
            } else {
                n == o
            }
        },
{
    match find_file(files, slug) {
        Some(k) => {
            if files[k].1.len() == 0 {
                proof {
                    assert forall|i: int| 0 <= i < files@.len() && first_file(files@, slug@, i) implies i == k by {}
                }
                return;
            }
            let ghost f0 = files@;
            let (name, mut revs) = files.remove(k);
            let mut cur = revs.pop().unwrap();
            reconcile_qst(&mut cur, v, doc, by, now);
            revs.push(cur);
            files.insert(k, (name, revs));
            proof {
                assert(files@ =~= f0.update(k as int, files@[k as int]));
                assert(files@[k as int].1@.drop_last() =~= f0[k as int].1@.drop_last());
                assert forall|i: int| 0 <= i < f0.len() && first_file(f0, slug@, i) implies i == k by {}
            }
        },
        None => {},
    }
}


proof fn lemma_reqs_after_step(
    f0: Seq<(String, Vec<ReqRev>)>,
    f: Seq<(String, Vec<ReqRev>)>,
    f2: Seq<(String, Vec<ReqRev>)>,
    p: Seq<(Verdict, Seq<char>)>,
    rf: (Verdict, Seq<char>),
    sl: Seq<char>,
    doc: Seq<char>,
    by: Seq<char>,
    now: i128,
    to8: Seq<char>,
)
    requires
        reqs_after(f0, f, p, doc, by, now, to8),
        ref_slug(rf.1) == Some(sl),
        f2.len() == f.len(),
        forall|i: int| 0 <= i < f.len() ==> {
            let o = #[trigger] f[i];
            let n = f2[i];
            if first_file(f, sl, i) && o.1@.len() > 0 {
                &&& n.0 == o.0
                &&& n.1@.len() == o.1@.len()
                &&& n.1@.drop_last() == o.1@.drop_last()
                &&& req_view(n.1@.last()) == req_step(req_view(o.1@.last()), rf.0, doc, by, now, to8)
                &&& req_frame(n.1@.last(), o.1@.last())
            } else {
                n == o
            }
        },
    ensures
        reqs_after(f0, f2, p.push(rf), doc, by, now, to8),
{
    assert(p.push(rf).drop_last() =~= p);
    assert forall|i: int| 0 <= i < f0.len() implies {
        let o = #[trigger] f0[i];
        let n = f2[i];
        if first_file(f0, o.0@, i) && o.1@.len() > 0 {
            &&& n.0 == o.0
            &&& n.1@.len() == o.1@.len()
            &&& n.1@.drop_last() == o.1@.drop_last()
            &&& req_view(n.1@.last()) == fold_req(p.push(rf), o.0@, doc, by, now, to8, req_view(o.1@.last()))
            &&& req_frame(n.1@.last(), o.1@.last())
        } else {
            n == o
        }
    } by {
        let o = f0[i];
        assert(f[i].0 == o.0);
        if first_file(f0, o.0@, i) && o.1@.len() > 0 {
            assert forall|j: int| 0 <= j < i implies (#[trigger] f[j]).0@ != o.0@ by {
                assert(f[j].0 == f0[j].0);
            }
            if o.0@ == sl {
                assert(first_file(f, sl, i));
                lemma_req_frame_trans(f2[i].1@.last(), f[i].1@.last(), o.1@.last());
            } else {
                assert(!first_file(f, sl, i));
            }
        } else {
            if first_file(f, sl, i) && f[i].1@.len() > 0 {
                assert(f[i] == o);
                if o.0@ == sl {
                    assert forall|j: int| 0 <= j < i implies (#[trigger] f0[j]).0@ != o.0@ by {
                        assert(f[j].0 == f0[j].0);
                    }
                    assert(false);
                }
            }
        }
    }
}

proof fn lemma_qsts_after_step(
    f0: Seq<(String, Vec<Question>)>,
    f: Seq<(String, Vec<Question>)>,
    f2: Seq<(String, Vec<Question>)>,
    p: Seq<(Verdict, Seq<char>)>,
    rf: (Verdict, Seq<char>),
    sl: Seq<char>,
    doc: Seq<char>,
    by: Seq<char>,
    now: i128,
)
    requires
        qsts_after(f0, f, p, doc, by, now),
        ref_slug(rf.1) == Some(sl),
        f2.len() == f.len(),
        forall|i: int| 0 <= i < f.len() ==> {
            let o = #[trigger] f[i];
            let n = f2[i];
            if first_file(f, sl, i) && o.1@.len() > 0 {
                &&& n.0 == o.0
                &&& n.1@.len() == o.1@.len()
                &&& n.1@.drop_last() == o.1@.drop_last()
                &&& qst_view(n.1@.last()) == qst_step(qst_view(o.1@.last()), rf.0, doc, by, now)
                &&& qst_frame(n.1@.last(), o.1@.last())
            } else {
                n == o
            }
        },
    ensures
        qsts_after(f0, f2, p.push(rf), doc, by, now),
{
    assert(p.push(rf).drop_last() =~= p);
    assert forall|i: int| 0 <= i < f0.len() implies {
        let o = #[trigger] f0[i];
        let n = f2[i];
        if first_file(f0, o.0@, i) && o.1@.len() > 0 {
            &&& n.0 == o.0
            &&& n.1@.len() == o.1@.len()
            &&& n.1@.drop_last() == o.1@.drop_last()
            &&& qst_view(n.1@.last()) == fold_qst(p.push(rf), o.0@, doc, by, now, qst_view(o.1@.last()))
            &&& qst_frame(n.1@.last(), o.1@.last())
        } else {
            n == o
        }
    } by {
        let o = f0[i];
        assert(f[i].0 == o.0);
        if first_file(f0, o.0@, i) && o.1@.len() > 0 {
            assert forall|j: int| 0 <= j < i implies (#[trigger] f[j]).0@ != o.0@ by {
                assert(f[j].0 == f0[j].0);
            }
            if o.0@ == sl {
                assert(first_file(f, sl, i));
                lemma_qst_frame_trans(f2[i].1@.last(), f[i].1@.last(), o.1@.last());
            } else {
                assert(!first_file(f, sl, i));
            }
        } else {
            if first_file(f, sl, i) && f[i].1@.len() > 0 {
                assert(f[i] == o);
                if o.0@ == sl {
                    assert forall|j: int| 0 <= j < i implies (#[trigger] f0[j]).0@ != o.0@ by {
                        assert(f[j].0 == f0[j].0);
                    }
                    assert(false);
                }
            }
        }
    }
}

proof fn lemma_first_bad_append(a: Seq<Seq<char>>, b: Seq<Seq<char>>)
    requires
        first_bad(a) is None,
    ensures
        first_bad(a + b) == first_bad(b),
    decreases a.len(),
{
    if a.len() > 0 {
        assert((a + b).drop_first() =~= a.drop_first() + b);
        lemma_first_bad_append(a.drop_first(), b);
    } else {
        assert(a + b =~= b);
    }
}

/// The id texts all parse, or the message for the first that does not.
fn check_ids(vs: &Vec<Verdict>) -> (r: Result<(), String>)
    ensures
        match first_bad(all_refs(vs@)) {
            None => r is Ok,
            Some(t) => r matches Err(m) && m@ == parse_error_message(t, crate::id::spec_parse_error(t)),
        },
{
    let mut vi: usize = 0;
    while vi < vs.len()
        invariant
            vi <= vs@.len(),
            first_bad(all_refs(vs@.take(vi as int))) is None,
        decreases vs@.len() - vi,
    {
        let v = &vs[vi];
        let ghost base = all_refs(vs@.take(vi as int));
        let ghost ids = strings_v(v.reqs@) + strings_v(v.questions@);
        proof {
            assert(vs@.take(vi as int + 1).drop_last() =~= vs@.take(vi as int));
            assert(all_refs(vs@.take(vi as int + 1)) =~= base + ids);
        }
        let nr = v.reqs.len();
        let nq = v.questions.len();
        let mut j: usize = 0;
        while j < nr
            invariant
                j <= nr,
                nr == v.reqs@.len(),
                nq == v.questions@.len(),
                vi < vs@.len(),
                v == vs@[vi as int],
                base == all_refs(vs@.take(vi as int)),
                first_bad(base) is None,
                all_refs(vs@.take(vi as int + 1)) == base + ids,
                ids == strings_v(v.reqs@) + strings_v(v.questions@),
                forall|x: int| 0 <= x < j ==> spec_parse(#[trigger] ids[x]) is Ok,
            decreases nr - j,
        {
            proof {
                assert(ids[j as int] == v.reqs@[j as int]@);
            }
            match Id::parse(v.reqs[j].as_str()) {
                Ok(_) => {},
                Err(e) => {
                    proof {
                        lemma_first_bad_prefix(ids, j as int);
                        lemma_first_bad_append(base, ids);
                        lemma_first_bad_stays(vs@, vi as int + 1);
                    }
                    return Err(e.message());
                },
            }
            j += 1;
        }
        let mut q: usize = 0;
        while q < nq
            invariant
                q <= nq,
                nr == v.reqs@.len(),
                nq == v.questions@.len(),
                vi < vs@.len(),
                v == vs@[vi as int],
                base == all_refs(vs@.take(vi as int)),
                first_bad(base) is None,
                all_refs(vs@.take(vi as int + 1)) == base + ids,
                ids == strings_v(v.reqs@) + strings_v(v.questions@),
                forall|x: int| 0 <= x < nr + q ==> spec_parse(#[trigger] ids[x]) is Ok,
            decreases nq - q,
        {
            proof {
                assert(ids[nr + q] == v.questions@[q as int]@);
            }
            match Id::parse(v.questions[q].as_str()) {
                Ok(_) => {},
                Err(e) => {
                    proof {
                        lemma_first_bad_prefix(ids, nr + q);
                        lemma_first_bad_append(base, ids);
                        lemma_first_bad_stays(vs@, vi as int + 1);
                    }
                    return Err(e.message());
                },
            }
            q += 1;
        }
        proof {
            lemma_first_bad_prefix_none(ids);
            lemma_first_bad_append(base, ids);
            assert(first_bad(base + ids) is None);
        }
        vi += 1;
    }
    proof {
        assert(vs@.take(vs@.len() as int) =~= vs@);
    }
    Ok(())
}

proof fn lemma_first_bad_prefix(ids: Seq<Seq<char>>, j: int)
    requires
        0 <= j < ids.len(),
        forall|x: int| 0 <= x < j ==> spec_parse(#[trigger] ids[x]) is Ok,
        spec_parse(ids[j]) is Err,
    ensures
        first_bad(ids) == Some(ids[j]),
    decreases j,
{
    if j > 0 {
        let t = ids.drop_first();
        assert forall|x: int| 0 <= x < j - 1 implies spec_parse(#[trigger] t[x]) is Ok by {
            assert(t[x] == ids[x + 1]);
        }
        lemma_first_bad_prefix(t, j - 1);
        assert(spec_parse(ids[0]) is Ok);
    }
}

proof fn lemma_first_bad_prefix_none(ids: Seq<Seq<char>>)
    requires
        forall|x: int| 0 <= x < ids.len() ==> spec_parse(#[trigger] ids[x]) is Ok,
    ensures
        first_bad(ids) is None,
    decreases ids.len(),
{
    if ids.len() > 0 {
        let t = ids.drop_first();
        assert forall|x: int| 0 <= x < t.len() implies spec_parse(#[trigger] t[x]) is Ok by {
            assert(t[x] == ids[x + 1]);
        }
        lemma_first_bad_prefix_none(t);
    }
}

proof fn lemma_first_bad_stays(vs: Seq<Verdict>, k: int)
    requires
        0 < k <= vs.len(),
        first_bad(all_refs(vs.take(k))) is Some,
    ensures
        first_bad(all_refs(vs)) == first_bad(all_refs(vs.take(k))),
    decreases vs.len() - k,
{
    if k < vs.len() {
        let t = vs.take(k + 1);
        assert(t.drop_last() =~= vs.take(k));
        lemma_first_bad_some_append(all_refs(vs.take(k)), strings_v(t.last().reqs@) + strings_v(t.last().questions@));
        assert(all_refs(t) =~= all_refs(vs.take(k)) + (strings_v(t.last().reqs@) + strings_v(t.last().questions@)));
        lemma_first_bad_stays(vs, k + 1);
    } else {
        assert(vs.take(k) =~= vs);
    }
}

proof fn lemma_first_bad_some_append(a: Seq<Seq<char>>, b: Seq<Seq<char>>)
    requires
        first_bad(a) is Some,
    ensures
        first_bad(a + b) == first_bad(a),
    decreases a.len(),
{
    if a.len() > 0 {
        if spec_parse(a[0]) is Ok {
            assert((a + b).drop_first() =~= a.drop_first() + b);
            lemma_first_bad_some_append(a.drop_first(), b);
        }
        assert((a + b)[0] == a[0]);
    }
}


pub open spec fn prefix_refs(vs: Seq<Verdict>, vi: int, j: int, reqs: bool) -> Seq<(Verdict, Seq<char>)> {
    if reqs {
        req_refs(vs.take(vi)) + vs[vi].reqs@.take(j).map_values(|s: String| (vs[vi], s@))
    } else {
        qst_refs(vs.take(vi)) + vs[vi].questions@.take(j).map_values(|s: String| (vs[vi], s@))
    }
}

/// Apply all decisions of a reconciliation with every verdict decided: each requirement and
/// question a verdict names has its anchor moved to the verdict's target (or dropped), with
/// the decision's effect (suspect, retired) and a history entry; marks follow their spans.
/// `reqs` and `qsts` hold the object files the verdicts may name; what comes back is the new
/// marks of the doc. Fails, with nothing to save, while a verdict needs a decision or when an
/// id does not parse.
pub fn confirm_reconciliation(
    r: &Reconciliation,
    doc: &str,
    by: &str,
    now: i128,
    old_marks: &Marks,
    reqs: &mut Vec<(String, Vec<ReqRev>)>,
    qsts: &mut Vec<(String, Vec<Question>)>,
) -> (res: Result<Marks, String>)
    ensures
        count_unconfirmed(r.verdicts@) > 0 ==> (res matches Err(m) && m@ == unconfirmed_message(count_unconfirmed(r.verdicts@))),
        res is Err ==> final(reqs)@ == old(reqs)@ && final(qsts)@ == old(qsts)@,
        count_unconfirmed(r.verdicts@) == 0 && first_bad(all_refs(r.verdicts@)) is Some ==> (res matches Err(m)
            && m@ == parse_error_message(first_bad(all_refs(r.verdicts@))->0, crate::id::spec_parse_error(first_bad(all_refs(r.verdicts@))->0))),
        count_unconfirmed(r.verdicts@) == 0 && first_bad(all_refs(r.verdicts@)) is None ==> (res matches Ok(marks) && {
            &&& forall|k: Seq<char>| #[trigger] omark_v(marks.get_spec(k)) == omark_v(carried_mark(r.verdicts@, *old_marks, k))
            &&& reqs_after(old(reqs)@, final(reqs)@, req_refs(r.verdicts@), doc@, by@, now, short_sha(r.to@))
            &&& qsts_after(old(qsts)@, final(qsts)@, qst_refs(r.verdicts@), doc@, by@, now)
        }),
{
    let n = r.unconfirmed();
    if n > 0 {
        let mut m = decimal_u64(n as u64);
        push_str(&mut m, " verdict(s) still need a decision");
        return Err(m);
    }
    match check_ids(&r.verdicts) {
        Ok(()) => {},
        Err(m) => {
            return Err(m);
        },
    }
    let ghost vs = r.verdicts@;
    let tv = crate::text::chars_of(r.to.as_str());
    let n8 = if tv.len() <= 8 { tv.len() } else { 8 };
    let to8 = crate::text::string_of(crate::segment::sub_chars(&tv, 0, n8).as_slice());
    proof {
        if tv@.len() <= 8 {
            assert(tv@.subrange(0, n8 as int) =~= tv@);
        } else {
            assert(tv@.subrange(0, n8 as int) =~= tv@.take(8));
        }
        lemma_refs_parse(vs);
        assert(vs.take(0) =~= Seq::<Verdict>::empty());
        assert(req_refs(vs.take(0)) =~= Seq::<(Verdict, Seq<char>)>::empty());
        assert(qst_refs(vs.take(0)) =~= Seq::<(Verdict, Seq<char>)>::empty());
    }
    let ghost r0 = reqs@;
    let ghost q0 = qsts@;
    proof {
        lemma_after_refl(r0, q0, doc@, by@, now, to8@);
    }
    let mut marks = Marks::empty();
    let mut vi: usize = 0;
    while vi < r.verdicts.len()
        invariant
            vi <= vs.len(),
            vs == r.verdicts@,
            r0 == old(reqs)@,
            q0 == old(qsts)@,
            to8@ == short_sha(r.to@),
            forall|k: int| 0 <= k < req_refs(vs).len() ==> ref_slug((#[trigger] req_refs(vs)[k]).1) is Some,
            forall|i: int, x: int| 0 <= i < vs.len() && 0 <= x < vs[i].reqs@.len() ==> ref_slug((#[trigger] vs[i].reqs@[x])@) is Some,
            forall|i: int, x: int| 0 <= i < vs.len() && 0 <= x < vs[i].questions@.len() ==> ref_slug((#[trigger] vs[i].questions@[x])@) is Some,
            forall|k: Seq<char>| #[trigger] omark_v(marks.get_spec(k)) == omark_v(carried_mark(vs.take(vi as int), *old_marks, k)),
            reqs_after(r0, reqs@, req_refs(vs.take(vi as int)), doc@, by@, now, to8@),
            qsts_after(q0, qsts@, qst_refs(vs.take(vi as int)), doc@, by@, now),
        decreases vs.len() - vi,
    {
        let v = &r.verdicts[vi];
        proof {
            assert(vs.take(vi as int + 1).drop_last() =~= vs.take(vi as int));
            assert(vs.take(vi as int + 1).last() == vs[vi as int]);
        }
        let target = verdict_target(v);
        // marks follow their spans
        match (old_marks.get(v.from.as_str()), &target) {
            (Some(m), Some(t)) => {
                let ghost m0 = marks;
                marks.insert(copy_str(t.as_str()), copy_mark(m));
                proof {
                    assert forall|k: Seq<char>| #[trigger] omark_v(marks.get_spec(k)) == omark_v(carried_mark(vs.take(vi as int + 1), *old_marks, k)) by {
                        if k != t@ {
                            assert(marks.get_spec(k) == m0.get_spec(k));
                        }
                    }
                }
            },
            _ => {},
        }
        // requirements
        let mut j: usize = 0;
        proof {
            assert(v.reqs@.take(0).map_values(|s: String| (vs[vi as int], s@)) =~= Seq::<(Verdict, Seq<char>)>::empty());
            assert(prefix_refs(vs, vi as int, 0, true) =~= req_refs(vs.take(vi as int)));
        }
        while j < v.reqs.len()
            invariant
                j <= v.reqs@.len(),
                vi < vs.len(),
                vs == r.verdicts@,
                v == vs[vi as int],
                r0 == old(reqs)@,
                to8@ == short_sha(r.to@),
                forall|x: int| 0 <= x < v.reqs@.len() ==> ref_slug((#[trigger] v.reqs@[x])@) is Some,
                reqs_after(r0, reqs@, prefix_refs(vs, vi as int, j as int, true), doc@, by@, now, to8@),
            decreases v.reqs@.len() - j,
        {
            let id = match Id::parse(v.reqs[j].as_str()) {
                Ok(id) => id,
                Err(_) => {
                    proof {
                        assert(ref_slug(v.reqs@[j as int]@) is Some);
                    }
                    j += 1;
                    continue;
                },
            };
            let ghost f = reqs@;
            apply_req_ref(reqs, id.slug.as_str(), v, doc, by, now, to8.as_str());
            proof {
                let rf = (vs[vi as int], v.reqs@[j as int]@);
                lemma_reqs_after_step(r0, f, reqs@, prefix_refs(vs, vi as int, j as int, true), rf, id.slug@, doc@, by@, now, to8@);
                assert(prefix_refs(vs, vi as int, j as int, true).push(rf) =~= prefix_refs(vs, vi as int, j as int + 1, true));
            }
            j += 1;
        }
        proof {
            assert(v.reqs@.take(v.reqs@.len() as int) =~= v.reqs@);
            assert(prefix_refs(vs, vi as int, v.reqs@.len() as int, true) =~= req_refs(vs.take(vi as int + 1)));
        }
        // questions
        let mut q: usize = 0;
        proof {
            assert(v.questions@.take(0).map_values(|s: String| (vs[vi as int], s@)) =~= Seq::<(Verdict, Seq<char>)>::empty());
            assert(prefix_refs(vs, vi as int, 0, false) =~= qst_refs(vs.take(vi as int)));
        }
        while q < v.questions.len()
            invariant
                q <= v.questions@.len(),
                vi < vs.len(),
                vs == r.verdicts@,
                v == vs[vi as int],
                q0 == old(qsts)@,
                forall|x: int| 0 <= x < v.questions@.len() ==> ref_slug((#[trigger] v.questions@[x])@) is Some,
                qsts_after(q0, qsts@, prefix_refs(vs, vi as int, q as int, false), doc@, by@, now),
            decreases v.questions@.len() - q,
        {
            let id = match Id::parse(v.questions[q].as_str()) {
                Ok(id) => id,
                Err(_) => {
                    proof {
                        assert(ref_slug(v.questions@[q as int]@) is Some);
                    }
                    q += 1;
                    continue;
                },
            };
            let ghost f = qsts@;
            apply_qst_ref(qsts, id.slug.as_str(), v, doc, by, now);
            proof {
                let rf = (vs[vi as int], v.questions@[q as int]@);
                lemma_qsts_after_step(q0, f, qsts@, prefix_refs(vs, vi as int, q as int, false), rf, id.slug@, doc@, by@, now);
                assert(prefix_refs(vs, vi as int, q as int, false).push(rf) =~= prefix_refs(vs, vi as int, q as int + 1, false));
            }
            q += 1;
        }
        proof {
            assert(v.questions@.take(v.questions@.len() as int) =~= v.questions@);
            assert(prefix_refs(vs, vi as int, v.questions@.len() as int, false) =~= qst_refs(vs.take(vi as int + 1)));
        }
        vi += 1;
    }
    proof {
        assert(vs.take(vs.len() as int) =~= vs);
    }
    Ok(marks)
}

proof fn lemma_after_refl(f: Seq<(String, Vec<ReqRev>)>, g: Seq<(String, Vec<Question>)>, doc: Seq<char>, by: Seq<char>, now: i128, to8: Seq<char>)
    ensures
        reqs_after(f, f, Seq::empty(), doc, by, now, to8),
        qsts_after(g, g, Seq::empty(), doc, by, now),
{
    assert forall|i: int| 0 <= i < f.len() implies #[trigger] f[i].1@.last().history@.take(f[i].1@.last().history@.len() as int) == f[i].1@.last().history@ by {
        assert(f[i].1@.last().history@.take(f[i].1@.last().history@.len() as int) =~= f[i].1@.last().history@);
    }
    assert forall|i: int| 0 <= i < g.len() implies #[trigger] g[i].1@.last().history@.take(g[i].1@.last().history@.len() as int) == g[i].1@.last().history@ by {
        assert(g[i].1@.last().history@.take(g[i].1@.last().history@.len() as int) =~= g[i].1@.last().history@);
    }
}

/// All refs parse, read per verdict.
proof fn lemma_refs_parse(vs: Seq<Verdict>)
    requires
        first_bad(all_refs(vs)) is None,
    ensures
        forall|i: int, x: int| 0 <= i < vs.len() && 0 <= x < vs[i].reqs@.len() ==> ref_slug((#[trigger] vs[i].reqs@[x])@) is Some,
        forall|i: int, x: int| 0 <= i < vs.len() && 0 <= x < vs[i].questions@.len() ==> ref_slug((#[trigger] vs[i].questions@[x])@) is Some,
        forall|k: int| 0 <= k < req_refs(vs).len() ==> ref_slug((#[trigger] req_refs(vs)[k]).1) is Some,
    decreases vs.len(),
{
    if vs.len() > 0 {
        let t = vs.drop_last();
        let ids = strings_v(vs.last().reqs@) + strings_v(vs.last().questions@);
        assert(all_refs(vs) == all_refs(t) + ids);
        lemma_first_bad_parts(all_refs(t), ids);
        lemma_refs_parse(t);
        lemma_no_bad(ids);
        assert forall|i: int, x: int| 0 <= i < vs.len() && 0 <= x < vs[i].reqs@.len() implies ref_slug((#[trigger] vs[i].reqs@[x])@) is Some by {
            if i < vs.len() - 1 {
                assert(vs[i] == t[i]);
                assert(ref_slug(t[i].reqs@[x]@) is Some);
            } else {
                let a = strings_v(vs.last().reqs@);
                let b = strings_v(vs.last().questions@);
                assert(ids == a + b);
                assert((a + b)[x] == a[x]);
                assert(ids[x] == vs[i].reqs@[x]@);
                assert(ref_slug(ids[x]) is Some);
            }
        }
        assert forall|i: int, x: int| 0 <= i < vs.len() && 0 <= x < vs[i].questions@.len() implies ref_slug((#[trigger] vs[i].questions@[x])@) is Some by {
            if i < vs.len() - 1 {
                assert(vs[i] == t[i]);
                assert(ref_slug(t[i].questions@[x]@) is Some);
            } else {
                let a = strings_v(vs.last().reqs@);
                let b = strings_v(vs.last().questions@);
                assert(ids == a + b);
                assert((a + b)[a.len() + x] == b[x]);
                assert(b[x] == vs[i].questions@[x]@);
                assert(ids[vs[i].reqs@.len() + x] == vs[i].questions@[x]@);
                assert(ref_slug(ids[vs[i].reqs@.len() + x]) is Some);
            }
        }
        let a = req_refs(t);
        let b = vs.last().reqs@.map_values(|s: String| (vs.last(), s@));
        assert forall|k: int| 0 <= k < req_refs(vs).len() implies ref_slug((#[trigger] req_refs(vs)[k]).1) is Some by {
            assert(req_refs(vs) == a + b);
            if k >= a.len() {
                assert(req_refs(vs)[k] == b[k - a.len()]);
                assert(ids[k - a.len()] == vs.last().reqs@[k - a.len()]@);
            } else {
                assert(req_refs(vs)[k] == a[k]);
            }
        }
    }
}

proof fn lemma_first_bad_parts(a: Seq<Seq<char>>, b: Seq<Seq<char>>)
    requires
        first_bad(a + b) is None,
    ensures
        first_bad(a) is None,
        first_bad(b) is None,
    decreases a.len(),
{
    if a.len() > 0 {
        assert((a + b)[0] == a[0]);
        assert((a + b).drop_first() =~= a.drop_first() + b);
        lemma_first_bad_parts(a.drop_first(), b);
    } else {
        assert(a + b =~= b);
    }
}

proof fn lemma_no_bad(ids: Seq<Seq<char>>)
    requires
        first_bad(ids) is None,
    ensures
        forall|x: int| 0 <= x < ids.len() ==> ref_slug(#[trigger] ids[x]) is Some,
    decreases ids.len(),
{
    if ids.len() > 0 {
        lemma_no_bad(ids.drop_first());
        assert forall|x: int| 0 <= x < ids.len() implies ref_slug(#[trigger] ids[x]) is Some by {
            if x > 0 {
                assert(ids[x] == ids.drop_first()[x - 1]);
            }
        }
    }
}


// ---------- the superseded round ----------

pub open spec fn id_v(id: Id) -> (Seq<char>, Seq<char>, u32) {
    (id.ty@, id.slug@, id.rev)
}

pub open spec fn ids_v(s: Seq<Id>) -> Seq<(Seq<char>, Seq<char>, u32)> {
    s.map_values(|i: Id| id_v(i))
}

/// The parsed ids among `ids` (those that do not parse are left out).
pub open spec fn parsed_ids(ids: Seq<Seq<char>>) -> Seq<(Seq<char>, Seq<char>, u32)>
    decreases ids.len(),
{
    if ids.len() == 0 {
        Seq::empty()
    } else {
        match spec_parse(ids.last()) {
            Ok(t) => parsed_ids(ids.drop_last()).push(t),
            Err(_) => parsed_ids(ids.drop_last()),
        }
    }
}

/// The requirements the verdicts retire, in order.
pub open spec fn retired_by(vs: Seq<Verdict>) -> Seq<(Seq<char>, Seq<char>, u32)>
    decreases vs.len(),
{
    if vs.len() == 0 {
        Seq::empty()
    } else {
        retired_by(vs.drop_last()) + if vs.last().decision matches Some(Decision::Retire { .. }) {
            parsed_ids(strings_v(vs.last().reqs@))
        } else {
            Seq::empty()
        }
    }
}

/// Verdict kinds by their lowercase names, in name order.
pub open spec fn kinds_by_name() -> Seq<VerdictKind> {
    seq![VerdictKind::MeaningChanged, VerdictKind::Missing, VerdictKind::Reworded, VerdictKind::Unchanged]
}

pub open spec fn kind_name(k: VerdictKind) -> Seq<char> {
    match k {
        VerdictKind::MeaningChanged => "meaningchanged"@,
        VerdictKind::Missing => "missing"@,
        VerdictKind::Reworded => "reworded"@,
        VerdictKind::Unchanged => "unchanged"@,
    }
}

/// `(name, count)` for each kind that occurs among the verdicts, in name order.
pub open spec fn kind_counts(vs: Seq<Verdict>, k: int) -> Seq<(Seq<char>, nat)>
    decreases k,
{
    if k <= 0 {
        Seq::empty()
    } else {
        let c = crate::reconcile::count_kind(vs, kinds_by_name()[k - 1]);
        if c > 0 {
            kind_counts(vs, k - 1).push((kind_name(kinds_by_name()[k - 1]), c))
        } else {
            kind_counts(vs, k - 1)
        }
    }
}

fn kind_name_exec(k: VerdictKind) -> (r: String)
    ensures
        r@ == kind_name(k),
{
    match k {
        VerdictKind::MeaningChanged => copy_str("meaningchanged"),
        VerdictKind::Missing => copy_str("missing"),
        VerdictKind::Reworded => copy_str("reworded"),
        VerdictKind::Unchanged => copy_str("unchanged"),
    }
}

fn count_kind_exec(vs: &Vec<Verdict>, k: VerdictKind) -> (n: usize)
    ensures
        n == crate::reconcile::count_kind(vs@, k),
{
    let mut n: usize = 0;
    let mut i: usize = 0;
    while i < vs.len()
        invariant
            i <= vs@.len(),
            n == crate::reconcile::count_kind(vs@.take(i as int), k),
            n <= i,
        decreases vs@.len() - i,
    {
        proof {
            assert(vs@.take(i as int + 1).drop_last() =~= vs@.take(i as int));
        }
        if vs[i].kind == k {
            n += 1;
        }
        i += 1;
    }
    proof {
        assert(vs@.take(vs@.len() as int) =~= vs@);
    }
    n
}

fn parse_all(ids: &Vec<String>, out: &mut Vec<Id>)
    ensures
        ids_v(final(out)@) == ids_v(old(out)@) + parsed_ids(strings_v(ids@)),
{
    let ghost o0 = ids_v(out@);
    let mut i: usize = 0;
    while i < ids.len()
        invariant
            i <= ids@.len(),
            ids_v(out@) == o0 + parsed_ids(strings_v(ids@.take(i as int))),
        decreases ids@.len() - i,
    {
        proof {
            assert(strings_v(ids@.take(i as int + 1)).drop_last() =~= strings_v(ids@.take(i as int)));
            assert(strings_v(ids@.take(i as int + 1)).last() == ids@[i as int]@);
        }
        match Id::parse(ids[i].as_str()) {
            Ok(id) => {
                let ghost b = out@;
                out.push(id);
                proof {
                    assert(ids_v(out@) =~= ids_v(b).push(id_v(id)));
                }
            },
            Err(_) => {},
        }
        i += 1;
    }
    proof {
        assert(ids@.take(ids@.len() as int) =~= ids@);
    }
}

/// Close the round a confirmed reconciliation supersedes: its summary gets the verdict counts
/// by kind name and the requirements the verdicts retired; it is closed at `now`.
pub fn supersede_round(round: &mut Round, r: &Reconciliation, now: i128)
    ensures
        final(round).closed == Some(now),
        final(round).doc == old(round).doc,
        final(round).n == old(round).n,
        final(round).snapshot == old(round).snapshot,
        final(round).context == old(round).context,
        final(round).opened == old(round).opened,
        final(round).summary matches Some(s) && {
            &&& s.verdicts matches Some(vc) && vc@.len() == kind_counts(r.verdicts@, 4).len()
                && forall|i: int| 0 <= i < vc@.len() ==> (#[trigger] vc@[i]).0@ == kind_counts(r.verdicts@, 4)[i].0 && vc@[i].1 == kind_counts(r.verdicts@, 4)[i].1
            &&& ids_v(s.retired@) == retired_by(r.verdicts@)
            &&& match old(round).summary {
                Some(o) => s.created == o.created && s.changed == o.changed,
                None => s.created@.len() == 0 && s.changed@.len() == 0,
            }
        },
{
    let mut summary = match round.summary.take() {
        Some(s) => s,
        None => RoundSummary { created: Vec::new(), changed: Vec::new(), retired: Vec::new(), verdicts: None },
    };
    let order = [VerdictKind::MeaningChanged, VerdictKind::Missing, VerdictKind::Reworded, VerdictKind::Unchanged];
    let mut vc: Vec<(String, usize)> = Vec::new();
    let mut k: usize = 0;
    while k < 4
        invariant
            k <= 4,
            order@ == kinds_by_name(),
            vc@.len() == kind_counts(r.verdicts@, k as int).len(),
            forall|i: int| 0 <= i < vc@.len() ==> (#[trigger] vc@[i]).0@ == kind_counts(r.verdicts@, k as int)[i].0 && vc@[i].1 == kind_counts(r.verdicts@, k as int)[i].1,
        decreases 4 - k,
    {
        let c = count_kind_exec(&r.verdicts, order[k]);
        if c > 0 {
            vc.push((kind_name_exec(order[k]), c));
        }
        k += 1;
    }
    let mut retired: Vec<Id> = Vec::new();
    let mut i: usize = 0;
    while i < r.verdicts.len()
        invariant
            i <= r.verdicts@.len(),
            ids_v(retired@) == retired_by(r.verdicts@.take(i as int)),
        decreases r.verdicts@.len() - i,
    {
        proof {
            assert(r.verdicts@.take(i as int + 1).drop_last() =~= r.verdicts@.take(i as int));
        }
        let v = &r.verdicts[i];
        match &v.decision {
            Some(Decision::Retire { .. }) => {
                parse_all(&v.reqs, &mut retired);
            },
            _ => {
                proof {
                    assert(retired_by(r.verdicts@.take(i as int + 1)) =~= retired_by(r.verdicts@.take(i as int)));
                }
            },
        }
        i += 1;
    }
    proof {
        assert(r.verdicts@.take(r.verdicts@.len() as int) =~= r.verdicts@);
    }
    summary.verdicts = Some(vc);
    summary.retired = retired;
    round.summary = Some(summary);
    round.closed = Some(now);
}


// ---------- free slugs ----------

/// The `i`-th candidate slug: `base` itself, then `base-2`, `base-3`, …
pub open spec fn candidate(base: Seq<char>, i: nat) -> Seq<char> {
    if i <= 1 { base } else { base + seq!['-'] + decimal(i) }
}

/// Candidates `1..i` are all taken.
pub open spec fn all_taken(base: Seq<char>, used: Seq<Seq<char>>, i: nat) -> bool {
    forall|j: nat| 1 <= j < i ==> used.contains(#[trigger] candidate(base, j))
}

proof fn lemma_candidates_distinct(base: Seq<char>, i: nat, j: nat)
    requires
        1 <= i < j,
    ensures
        candidate(base, i) != candidate(base, j),
{
    crate::text::lemma_decimal(i);
    crate::text::lemma_decimal(j);
    if i == 1 {
        assert(candidate(base, j).len() > base.len());
    } else {
        let a = candidate(base, i);
        let b = candidate(base, j);
        if a == b {
            assert(a.subrange(base.len() as int + 1, a.len() as int) =~= decimal(i));
            assert(b.subrange(base.len() as int + 1, b.len() as int) =~= decimal(j));
        }
    }
}

/// Among `used.len() + 1` candidates one is free.
proof fn lemma_some_free(base: Seq<char>, used: Seq<Seq<char>>)
    ensures
        !all_taken(base, used, (used.len() + 2) as nat),
{
    if all_taken(base, used, (used.len() + 2) as nat) {
        let n = used.len();
        let c = Seq::new((n + 1) as nat, |k: int| candidate(base, (k + 1) as nat));
        assert(c.no_duplicates()) by {
            assert forall|x: int, y: int| 0 <= x < c.len() && 0 <= y < c.len() && x != y implies c[x] != c[y] by {
                if x < y {
                    lemma_candidates_distinct(base, (x + 1) as nat, (y + 1) as nat);
                } else {
                    lemma_candidates_distinct(base, (y + 1) as nat, (x + 1) as nat);
                }
            }
        }
        c.unique_seq_to_set();
        used.lemma_cardinality_of_set();
        vstd::seq_lib::seq_to_set_is_finite(used);
        assert(c.to_set().subset_of(used.to_set())) by {
            assert forall|x: Seq<char>| c.to_set().contains(x) implies used.to_set().contains(x) by {
                let k = choose|k: int| 0 <= k < c.len() && c[k] == x;
                assert(used.contains(candidate(base, (k + 1) as nat)));
            }
        }
        vstd::set_lib::lemma_len_subset(c.to_set(), used.to_set());
    }
}

pub(crate) fn in_strings(used: &Vec<String>, s: &str) -> (r: bool)
    ensures
        r == strings_v(used@).contains(s@),
{
    let mut i: usize = 0;
    while i < used.len()
        invariant
            i <= used@.len(),
            forall|j: int| 0 <= j < i ==> used@[j]@ != s@,
        decreases used@.len() - i,
    {
        if crate::text::same(used[i].as_str(), s) {
            proof {
                assert(strings_v(used@)[i as int] == s@);
            }
            return true;
        }
        i += 1;
    }
    proof {
        assert forall|j: int| 0 <= j < strings_v(used@).len() implies strings_v(used@)[j] != s@ by {
            assert(strings_v(used@)[j] == used@[j]@);
        }
    }
    false
}

fn candidate_exec(base: &str, i: u128) -> (r: String)
    requires
        i >= 1,
    ensures
        r@ == candidate(base@, i as nat),
{
    let mut s = copy_str(base);
    if i > 1 {
        crate::text::push_char(&mut s, '-');
        push_str(&mut s, crate::text::decimal_u128(i).as_str());
    }
    s
}

/// The first candidate slug for `base` that `used` does not hold.
pub fn next_free_slug(base: &str, used: &Vec<String>) -> (r: String)
    ensures
        exists|i: nat| i >= 1 && all_taken(base@, strings_v(used@), i) && r@ == candidate(base@, i) && !strings_v(used@).contains(r@),
{
    let ghost u = strings_v(used@);
    let nu = used.len();
    let mut i: u128 = 1;
    proof {
        lemma_some_free(base@, u);
    }
    loop
        invariant
            u == strings_v(used@),
            nu == used@.len(),
            1 <= i <= used@.len() + 1,
            all_taken(base@, u, i as nat),
            !all_taken(base@, u, (used@.len() + 2) as nat),
        decreases used@.len() + 2 - i,
    {
        let c = candidate_exec(base, i);
        if !in_strings(used, c.as_str()) {
            return c;
        }
        proof {
            assert forall|j: nat| 1 <= j < i + 1 implies u.contains(#[trigger] candidate(base@, j)) by {
                if j < i {
                    assert(all_taken(base@, u, i as nat));
                }
            }
            if i as int == used@.len() + 1 {
                assert(all_taken(base@, u, (used@.len() + 2) as nat));
            }
        }
        i = i + 1;
    }
}


// ---------- questions ----------

pub struct NewQuestion<'a> {
    pub quote: &'a str,
    pub materiality: Level,
    /// `(key, text)` of each reading.
    pub readings: Vec<(String, String)>,
    /// Key of the default reading.
    pub default: Option<String>,
    pub affects: Vec<Id>,
    pub slug: Option<&'a str>,
}

pub fn copy_id(i: &Id) -> (r: Id)
    ensures
        id_v(r) == id_v(*i),
{
    Id { ty: copy_str(i.ty.as_str()), slug: copy_str(i.slug.as_str()), rev: i.rev }
}

pub fn copy_ids(v: &Vec<Id>) -> (r: Vec<Id>)
    ensures
        ids_v(r@) == ids_v(v@),
{
    let mut out: Vec<Id> = Vec::new();
    let mut i: usize = 0;
    while i < v.len()
        invariant
            i <= v@.len(),
            ids_v(out@) == ids_v(v@.take(i as int)),
        decreases v@.len() - i,
    {
        let ghost o0 = out@;
        out.push(copy_id(&v[i]));
        proof {
            assert(ids_v(out@) =~= ids_v(o0).push(id_v(v@[i as int])));
            assert(ids_v(v@.take(i as int + 1)) =~= ids_v(v@.take(i as int)).push(id_v(v@[i as int])));
        }
        i += 1;
    }
    proof {
        assert(v@.take(v@.len() as int) =~= v@);
    }
    out
}

/// The anchors `(doc, span)` for each span.
pub open spec fn anchors_on(doc: Seq<char>, spans: Seq<Seq<char>>) -> Seq<(Seq<char>, Seq<char>)> {
    spans.map_values(|s: Seq<char>| (doc, s))
}

pub fn anchors_for(doc: &str, spans: &Vec<String>) -> (r: Vec<Anchor>)
    ensures
        anchors_v(r@) == anchors_on(doc@, strings_v(spans@)),
{
    let mut out: Vec<Anchor> = Vec::new();
    let mut i: usize = 0;
    while i < spans.len()
        invariant
            i <= spans@.len(),
            anchors_v(out@) == anchors_on(doc@, strings_v(spans@.take(i as int))),
        decreases spans@.len() - i,
    {
        let ghost o0 = out@;
        out.push(Anchor { doc: copy_str(doc), span: copy_str(spans[i].as_str()) });
        proof {
            assert(anchors_v(out@) =~= anchors_v(o0).push((doc@, spans@[i as int]@)));
            assert(anchors_on(doc@, strings_v(spans@.take(i as int + 1))) =~= anchors_on(doc@, strings_v(spans@.take(i as int))).push((doc@, spans@[i as int]@)));
        }
        i += 1;
    }
    proof {
        assert(spans@.take(spans@.len() as int) =~= spans@);
    }
    out
}

/// `(key, text, default)` of each reading: the default is the one whose key is `default`.
pub open spec fn readings_of(rs: Seq<(String, String)>, default: Option<Seq<char>>) -> Seq<(Seq<char>, Seq<char>, bool)> {
    rs.map_values(|r: (String, String)| (r.0@, r.1@, default == Some(r.0@)))
}

pub open spec fn reading_v(r: Reading) -> (Seq<char>, Seq<char>, bool) {
    (r.key@, r.text@, r.default)
}

pub open spec fn no_requirement_message(slug: Seq<char>) -> Seq<char> {
    "no requirement `"@ + slug + seq!['`']
}

/// The slug a new question starts from: the given one or one made from its quote.
pub open spec fn question_base(new: NewQuestion) -> Seq<char> {
    match new.slug {
        Some(s) => s@,
        None => crate::id::spec_slugify(new.quote@, 32),
    }
}

/// `q` is the question raised on `spans` of `doc` from `new`.
pub open spec fn raised(q: Question, doc: Seq<char>, spans: Seq<String>, new: NewQuestion, used: Seq<String>, current: Seq<Option<Id>>, by: Seq<char>, now: i128) -> bool {
    &&& q.id.ty@ == "qst"@ && q.id.rev == 1
    &&& exists|i: nat| i >= 1 && all_taken(question_base(new), strings_v(used), i) && q.id.slug@ == #[trigger] candidate(question_base(new), i) && !strings_v(used).contains(q.id.slug@)
    &&& q.status == QstStatus::Open
    &&& q.quote@ == new.quote@
    &&& anchors_v(q.anchors@) == anchors_on(doc, strings_v(spans))
    &&& q.materiality == new.materiality
    &&& q.readings@.map_values(|x: Reading| reading_v(x)) == readings_of(new.readings@, opt_v(new.default))
    &&& ids_v(q.affects@) == ids_v(new.affects@)
    &&& q.answer is None && q.pending is None
    &&& q.affects_revs@.len() == new.affects@.len()
    &&& forall|k: int| 0 <= k < q.affects_revs@.len() ==> #[trigger] rev_matches(q.affects_revs@, current, k)
    &&& entry_heads(q.history@) == seq![("raise"@, by, now, None::<Seq<char>>)]
    &&& q.history@[0].accepted_by is None && q.history@[0].from is None && q.history@[0].to is None
}

/// The free slug for the question is not a valid slug; `m` says so.
pub open spec fn raise_refused(m: Seq<char>, new: NewQuestion, used: Seq<String>) -> bool {
    exists|i: nat| i >= 1 && all_taken(question_base(new), strings_v(used), i) && !strings_v(used).contains(#[trigger] candidate(question_base(new), i))
        && !crate::id::spec_valid_slug(candidate(question_base(new), i))
        && m == parse_error_message(crate::id::render("qst"@, candidate(question_base(new), i), 1), crate::id::spec_parse_error(crate::id::render("qst"@, candidate(question_base(new), i), 1)))
}

pub open spec fn rev_matches(revs: Seq<Id>, current: Seq<Option<Id>>, x: int) -> bool {
    x < current.len() && current[x] is Some && id_v(revs[x]) == id_v(current[x]->0)
}

/// The first of `affects` whose requirement does not exist (`current[i]` is its current rev).
pub open spec fn first_missing(affects: Seq<Id>, current: Seq<Option<Id>>) -> Option<int>
    decreases affects.len(),
{
    if affects.len() == 0 {
        None
    } else {
        match first_missing(affects.drop_last(), current) {
            Some(i) => Some(i),
            None => if affects.len() - 1 >= current.len() || current[affects.len() - 1] is None { Some(affects.len() - 1) } else { None },
        }
    }
}

/// The first free slug for the question is not a valid slug.
pub open spec fn question_slug_refused(new: NewQuestion, used: Seq<String>) -> bool {
    exists|i: nat| i >= 1 && all_taken(question_base(new), strings_v(used), i) && !strings_v(used).contains(#[trigger] candidate(question_base(new), i))
        && !crate::id::spec_valid_slug(candidate(question_base(new), i))
}

/// There is one first free candidate.
proof fn lemma_free_unique(base: Seq<char>, used: Seq<Seq<char>>, i: nat, j: nat)
    requires
        i >= 1 && all_taken(base, used, i) && !used.contains(candidate(base, i)),
        j >= 1 && all_taken(base, used, j) && !used.contains(candidate(base, j)),
    ensures
        i == j,
{
    if i < j {
        assert(used.contains(candidate(base, i)));
    } else if j < i {
        assert(used.contains(candidate(base, j)));
    }
}

/// Flag spans of `doc` as a question. `used` holds the question slugs already taken; the
/// slug is the given one or one made from the quote, with `-2`, `-3`, … added until free.
/// `current[i]` is the current rev of the requirement `new.affects[i]` names (None when there
/// is none, which fails the operation). The question is open, anchored to the spans, with the
/// readings (the default one marked) and a `raise` history entry.
pub fn flag_question(doc: &str, spans: &Vec<String>, new: &NewQuestion, used: &Vec<String>, current: &Vec<Option<Id>>, by: &str, now: i128) -> (r: Result<Question, String>)
    ensures
        question_slug_refused(*new, used@) ==> (r matches Err(m) && raise_refused(m@, *new, used@)),
        !question_slug_refused(*new, used@) ==> (first_missing(new.affects@, current@) matches Some(i) ==> (r matches Err(m)
            && m@ == no_requirement_message(new.affects@[i].slug@))),
        !question_slug_refused(*new, used@) && first_missing(new.affects@, current@) is None ==> (r matches Ok(q)
            && raised(q, doc@, spans@, *new, used@, current@, by@, now)),
{
    let base = match new.slug {
        Some(s) => copy_str(s),
        None => crate::id::slugify(new.quote, 32),
    };
    let slug = next_free_slug(base.as_str(), used);
    let ghost wi = choose|i: nat| i >= 1 && all_taken(base@, strings_v(used@), i) && slug@ == candidate(base@, i) && !strings_v(used@).contains(slug@);
    proof {
        reveal_strlit("qst");
        crate::id::lemma_valid_type_qst();
    }
    let ghost bv = match new.slug { Some(s) => s@, None => crate::id::spec_slugify(new.quote@, 32) };
    proof {
        assert(base@ == bv);
        assert(bv == question_base(*new));
    }
    let id = match Id::new("qst", slug.as_str(), 1) {
        Ok(id) => id,
        Err(e) => {
            let m = e.message();
            proof {
                assert(!crate::id::spec_valid_slug(candidate(bv, wi)));
                assert(m@ == parse_error_message(crate::id::render("qst"@, candidate(bv, wi), 1), crate::id::spec_parse_error(crate::id::render("qst"@, candidate(bv, wi), 1))));
                assert(raise_refused(m@, *new, used@));
            }
            return Err(m);
        },
    };
    proof {
        assert(!question_slug_refused(*new, used@)) by {
            assert forall|i: nat| i >= 1 && all_taken(question_base(*new), strings_v(used@), i)
                && !strings_v(used@).contains(#[trigger] candidate(question_base(*new), i))
                implies crate::id::spec_valid_slug(candidate(question_base(*new), i)) by {
                lemma_free_unique(bv, strings_v(used@), i, wi);
            }
        }
    }
    let mut revs: Vec<Id> = Vec::new();
    let mut k: usize = 0;
    while k < new.affects.len()
        invariant
            k <= new.affects@.len(),
            !question_slug_refused(*new, used@),
            first_missing(new.affects@.take(k as int), current@) is None,
            revs@.len() == k,
            forall|x: int| 0 <= x < k ==> #[trigger] rev_matches(revs@, current@, x),
        decreases new.affects@.len() - k,
    {
        proof {
            assert(new.affects@.take(k as int + 1).drop_last() =~= new.affects@.take(k as int));
        }
        if k >= current.len() || current[k].is_none() {
            proof {
                assert(first_missing(new.affects@.take(k as int + 1), current@) == Some(k as int));
                lemma_first_missing_stays(new.affects@, current@, k as int + 1);
            }
            let mut m = copy_str("no requirement `");
            push_str(&mut m, new.affects[k].slug.as_str());
            crate::text::push_char(&mut m, '`');
            return Err(m);
        }
        match &current[k] {
            Some(c) => {
                let ghost r0 = revs@;
                revs.push(copy_id(c));
                proof {
                    assert forall|x: int| 0 <= x < k + 1 implies #[trigger] rev_matches(revs@, current@, x) by {
                        if x < k {
                            assert(rev_matches(r0, current@, x));
                            assert(revs@[x] == r0[x]);
                        }
                    }
                    assert(first_missing(new.affects@.take(k as int + 1), current@) is None);
                }
            },
            None => {
                proof {
                    assert(false);
                }
            },
        }
        k += 1;
    }
    proof {
        assert(new.affects@.take(new.affects@.len() as int) =~= new.affects@);
    }
    proof {
        assert(first_missing(new.affects@, current@) is None);
    }
    let mut readings: Vec<Reading> = Vec::new();
    let mut i: usize = 0;
    while i < new.readings.len()
        invariant
            i <= new.readings@.len(),
            readings@.map_values(|x: Reading| reading_v(x)) == readings_of(new.readings@.take(i as int), opt_v(new.default)),
        decreases new.readings@.len() - i,
    {
        let (key, text) = (&new.readings[i].0, &new.readings[i].1);
        let default = match &new.default {
            Some(d) => crate::text::same(d.as_str(), key.as_str()),
            None => false,
        };
        let ghost r0 = readings@;
        readings.push(Reading { key: copy_str(key.as_str()), text: copy_str(text.as_str()), default });
        proof {
            assert(readings@.map_values(|x: Reading| reading_v(x)) =~= r0.map_values(|x: Reading| reading_v(x)).push((key@, text@, default)));
            assert(readings_of(new.readings@.take(i as int + 1), opt_v(new.default)) =~= readings_of(new.readings@.take(i as int), opt_v(new.default)).push((key@, text@, default)));
        }
        i += 1;
    }
    proof {
        assert(new.readings@.take(new.readings@.len() as int) =~= new.readings@);
    }
    let mut history: Vec<History> = Vec::new();
    history.push(History::new_at(by, "raise", now));
    proof {
        assert(entry_heads(history@) =~= seq![("raise"@, by@, now, None::<Seq<char>>)]);
        assert(id.slug@ == candidate(bv, wi));
        assert(bv == question_base(*new));
    }
    let q = Question {
        id,
        status: QstStatus::Open,
        quote: copy_str(new.quote),
        anchors: anchors_for(doc, spans),
        materiality: new.materiality,
        readings,
        affects: copy_ids(&new.affects),
        answer: None,
        pending: None,
        affects_revs: revs,
        history,
    };
    proof {
        assert(raised(q, doc@, spans@, *new, used@, current@, by@, now));
    }
    Ok(q)
}

proof fn lemma_first_missing_stays(affects: Seq<Id>, current: Seq<Option<Id>>, k: int)
    requires
        0 < k <= affects.len(),
        first_missing(affects.take(k), current) is Some,
    ensures
        first_missing(affects, current) == first_missing(affects.take(k), current),
    decreases affects.len() - k,
{
    if k < affects.len() {
        assert(affects.take(k + 1).drop_last() =~= affects.take(k));
        lemma_first_missing_stays(affects, current, k + 1);
    } else {
        assert(affects.take(k) =~= affects);
    }
}

fn has_id(v: &Vec<Id>, id: &Id) -> (r: bool)
    ensures
        r == ids_v(v@).contains(id_v(*id)),
{
    let mut i: usize = 0;
    while i < v.len()
        invariant
            i <= v@.len(),
            forall|j: int| 0 <= j < i ==> id_v(#[trigger] v@[j]) != id_v(*id),
        decreases v@.len() - i,
    {
        if crate::text::same(v[i].ty.as_str(), id.ty.as_str()) && crate::text::same(v[i].slug.as_str(), id.slug.as_str()) && v[i].rev == id.rev {
            proof {
                assert(ids_v(v@)[i as int] == id_v(*id));
            }
            return true;
        }
        i += 1;
    }
    proof {
        assert forall|j: int| 0 <= j < ids_v(v@).len() implies ids_v(v@)[j] != id_v(*id) by {
            assert(ids_v(v@)[j] == id_v(v@[j]));
        }
    }
    false
}

/// Link a raised question back from a requirement's current rev: the question's id is added
/// (unless there) with a `question` history entry naming it; the result says whether the rev
/// changed.
pub fn link_question(cur: &mut ReqRev, qid: &Id, by: &str, now: i128) -> (changed: bool)
    ensures
        changed == !ids_v(old(cur).questions@).contains(id_v(*qid)),
        changed ==> ids_v(final(cur).questions@) == ids_v(old(cur).questions@).push(id_v(*qid))
            && crate::classify::logged(old(cur).history@, final(cur).history@, "question"@, by@, now, Some(qid.text()))
            && final(cur).anchors == old(cur).anchors && final(cur).status == old(cur).status
            && final(cur).statement == old(cur).statement && final(cur).id == old(cur).id
            && final(cur).pattern == old(cur).pattern && final(cur).rating == old(cur).rating && final(cur).owner == old(cur).owner
            && final(cur).reason == old(cur).reason && final(cur).suspect == old(cur).suspect,
        !changed ==> *final(cur) == *old(cur),
{
    if has_id(&cur.questions, qid) {
        return false;
    }
    let ghost q0 = cur.questions@;
    let ghost h0 = cur.history@;
    cur.questions.push(copy_id(qid));
    cur.history.push(History::new_at(by, "question", now).note(qid.to_string()));
    proof {
        assert(ids_v(cur.questions@) =~= ids_v(q0).push(id_v(*qid)));
        assert(cur.history@.drop_last() =~= h0);
    }
    true
}


// ---------- records the operations report ----------

/// A registered repo, as listed.
#[derive(Debug, Clone)]
pub struct RepoSummary {
    pub github: String,
    pub default_branch: String,
    pub store_dir: String,
    pub tracked_docs: Vec<String>,
    pub last_fetch: Option<String>,
    pub kind: RepoKind,
    pub source_dir: Option<String>,
}

/// A markdown doc of the repo, and whether it is tracked.
#[derive(Debug, Clone)]
pub struct DocEntry {
    pub path: String,
    pub is_tracked: bool,
}

/// What a refresh did to one tracked doc.
#[derive(Debug, Clone)]
pub struct DocChange {
    pub doc: String,
    pub from: Option<String>,
    pub to: Option<String>,
    /// True if the current pointer was advanced (no classification existed yet).
    pub advanced: bool,
}

/// A new requirement's fields.
pub struct NewReq<'a> {
    pub statement: &'a str,
    pub slug: Option<&'a str>,
    pub pattern: Option<Pattern>,
    pub rating: Option<Rating>,
    pub owner: Option<&'a str>,
}

/// Editable fields of a requirement's current rev (`None`: leave as is).
pub struct ReqPatch<'a> {
    pub statement: Option<&'a str>,
    pub pattern: Option<Option<Pattern>>,
    pub status: Option<Status>,
    pub rating: Option<Option<Rating>>,
    pub owner: Option<Option<&'a str>>,
    pub reason: Option<&'a str>,
}

/// An open PR, as listed.
#[derive(Debug, Clone)]
pub struct PrSummary {
    pub number: u64,
    pub title: String,
    pub head: String,
    pub head_ref: String,
    pub base_ref: String,
    pub author: String,
    pub updated_at: String,
    pub draft: bool,
    /// Markdown files this PR changes.
    pub files: Vec<String>,
    /// Which of those are tracked docs.
    pub touches: Vec<String>,
}

/// A markdown file a PR changes.
#[derive(Debug, Clone)]
pub struct PrDoc {
    pub path: String,
    /// added | modified | deleted | renamed
    pub status: String,
    pub is_tracked: bool,
}

/// A tracked doc's state on the default branch.
#[derive(Debug, Clone)]
pub struct DocStatus {
    pub doc: String,
    pub snapshot: Option<String>,
    pub meter: Option<crate::coverage::Meter>,
    pub open_round: Option<u32>,
    pub rounds_closed: usize,
}

#[derive(Debug, Clone)]
pub struct RepoStatus {
    pub github: String,
    pub default_branch: String,
    pub docs: Vec<DocStatus>,
    pub rollup: crate::coverage::RepoRollup,
}

/// A group member that needs attention: `missing`, `retired` or `stale-rev`.
#[derive(Debug, Clone)]
pub struct GroupFinding {
    pub member: Id,
    pub kind: String,
}

/// Markdown by name: ends with `.md` or `.markdown`, in any case.
pub open spec fn is_markdown_name(p: Seq<char>) -> bool {
    let l = crate::text::lower_seq(p);
    (l.len() >= 3 && l.skip(l.len() - 3) == ".md"@) || (l.len() >= 9 && l.skip(l.len() - 9) == ".markdown"@)
}

fn ends_with_lit(v: &Vec<char>, lit: &str) -> (r: bool)
    ensures
        r == (v@.len() >= lit@.len() && v@.skip(v@.len() - lit@.len()) == lit@),
{
    let l = crate::text::chars_of(lit);
    if v.len() < l.len() {
        return false;
    }
    let base = v.len() - l.len();
    let vl = v.len();
    let mut i: usize = 0;
    while i < l.len()
        invariant
            i <= l@.len(),
            vl == v@.len(),
            l@ == lit@,
            base + l@.len() == v@.len(),
            forall|j: int| 0 <= j < i ==> v@[base + j] == l@[j],
        decreases l@.len() - i,
    {
        if v[base + i] != l[i] {
            proof {
                assert(v@.skip(base as int)[i as int] != l@[i as int]);
            }
            return false;
        }
        i += 1;
    }
    proof {
        assert(v@.skip(base as int) =~= l@);
    }
    true
}

/// Is the path a markdown file?
pub fn is_markdown(p: &str) -> (r: bool)
    ensures
        r == is_markdown_name(p@),
{
    let l = crate::text::lower_vec(&crate::text::chars_of(p));
    proof {
        reveal_strlit(".md");
        reveal_strlit(".markdown");
    }
    ends_with_lit(&l, ".md") || ends_with_lit(&l, ".markdown")
}

/// Whether `path` is among `paths`.
pub fn listed(paths: &Vec<String>, path: &str) -> (r: bool)
    ensures
        r == strings_v(paths@).contains(path@),
{
    in_strings(paths, path)
}

/// The repo's markdown docs, each flagged tracked or not.
pub fn doc_entries(all: &Vec<String>, tracked_paths: &Vec<String>) -> (r: Vec<DocEntry>)
    ensures
        r@.len() == all@.len(),
        forall|i: int| 0 <= i < r@.len() ==> (#[trigger] r@[i]).path@ == all@[i]@ && r@[i].is_tracked == strings_v(tracked_paths@).contains(all@[i]@),
{
    let mut out: Vec<DocEntry> = Vec::new();
    let mut i: usize = 0;
    while i < all.len()
        invariant
            i <= all@.len(),
            out@.len() == i,
            forall|j: int| 0 <= j < i ==> (#[trigger] out@[j]).path@ == all@[j]@ && out@[j].is_tracked == strings_v(tracked_paths@).contains(all@[j]@),
        decreases all@.len() - i,
    {
        out.push(DocEntry { path: copy_str(all[i].as_str()), is_tracked: in_strings(tracked_paths, all[i].as_str()) });
        i += 1;
    }
    out
}

/// The markdown files among a PR's files, and the tracked docs (in tracked order) among them.
pub fn pr_markdown(files: &Vec<String>, tracked_paths: &Vec<String>) -> (r: (Vec<String>, Vec<String>))
    ensures
        strings_v(r.0@) == strings_v(files@).filter(|f: Seq<char>| is_markdown_name(f)),
        strings_v(r.1@) == strings_v(tracked_paths@).filter(|t: Seq<char>| strings_v(r.0@).contains(t)),
{
    let ghost fv = strings_v(files@);
    let mut md: Vec<String> = Vec::new();
    let mut i: usize = 0;
    while i < files.len()
        invariant
            i <= files@.len(),
            fv == strings_v(files@),
            strings_v(md@) == fv.take(i as int).filter(|f: Seq<char>| is_markdown_name(f)),
        decreases files@.len() - i,
    {
        let f = files[i].as_str();
        proof {
            assert(fv.take(i as int + 1) == fv.take(i as int).push(f@));
            fv.take(i as int).lemma_filter_push(f@, |f: Seq<char>| is_markdown_name(f));
        }
        if is_markdown(f) {
            let ghost m0 = strings_v(md@);
            md.push(copy_str(f));
            proof {
                assert(strings_v(md@) =~= m0.push(f@));
            }
        }
        i += 1;
    }
    proof {
        assert(fv.take(fv.len() as int) =~= fv);
    }
    let ghost tv = strings_v(tracked_paths@);
    let ghost mv = strings_v(md@);
    let mut touches: Vec<String> = Vec::new();
    let mut k: usize = 0;
    while k < tracked_paths.len()
        invariant
            k <= tracked_paths@.len(),
            tv == strings_v(tracked_paths@),
            mv == strings_v(md@),
            strings_v(touches@) == tv.take(k as int).filter(|t: Seq<char>| mv.contains(t)),
        decreases tracked_paths@.len() - k,
    {
        let t = tracked_paths[k].as_str();
        proof {
            assert(tv.take(k as int + 1) == tv.take(k as int).push(t@));
            tv.take(k as int).lemma_filter_push(t@, |t: Seq<char>| mv.contains(t));
        }
        if in_strings(&md, t) {
            let ghost t0 = strings_v(touches@);
            touches.push(copy_str(t));
            proof {
                assert(strings_v(touches@) =~= t0.push(t@));
            }
        }
        k += 1;
    }
    proof {
        assert(tv.take(tv.len() as int) =~= tv);
    }
    (md, touches)
}


/// The status the local diff gives `path`: the last entry for it, if any.
pub open spec fn local_status(local: Seq<(String, String)>, path: Seq<char>) -> Option<Seq<char>>
    decreases local.len(),
{
    if local.len() == 0 {
        None
    } else if local.last().0@ == path {
        Some(local.last().1@)
    } else {
        local_status(local.drop_last(), path)
    }
}

/// The docs a PR changes. On GitHub (`remote` names github.com) the PR's files as GitHub lists
/// them (`gh_files`), markdown only; elsewhere the local diff's paths. Each with the local
/// diff's status (`changed` when it has none) and whether it is tracked.
pub fn pr_doc_list(remote: &str, gh_files: &Vec<String>, local: &Vec<(String, String)>, tracked_paths: &Vec<String>) -> (r: Vec<PrDoc>)
    ensures
        ({
            let paths = if crate::repo::contains_sub(remote@, "github.com"@) {
                strings_v(gh_files@).filter(|f: Seq<char>| is_markdown_name(f))
            } else {
                local@.map_values(|e: (String, String)| e.0@)
            };
            &&& r@.len() == paths.len()
            &&& forall|i: int| 0 <= i < r@.len() ==> (#[trigger] r@[i]).path@ == paths[i]
                && r@[i].status@ == (match local_status(local@, paths[i]) { Some(st) => st, None => "changed"@ })
                && r@[i].is_tracked == strings_v(tracked_paths@).contains(paths[i])
        }),
{
    let paths: Vec<String> = if crate::repo::is_github(remote) {
        pr_markdown(gh_files, &Vec::new()).0
    } else {
        let mut ps: Vec<String> = Vec::new();
        let mut i: usize = 0;
        while i < local.len()
            invariant
                i <= local@.len(),
                strings_v(ps@) == local@.take(i as int).map_values(|e: (String, String)| e.0@),
            decreases local@.len() - i,
        {
            let ghost p0 = strings_v(ps@);
            ps.push(copy_str(local[i].0.as_str()));
            proof {
                assert(strings_v(ps@) =~= p0.push(local@[i as int].0@));
                assert(local@.take(i as int + 1).map_values(|e: (String, String)| e.0@)
                    =~= local@.take(i as int).map_values(|e: (String, String)| e.0@).push(local@[i as int].0@));
            }
            i += 1;
        }
        proof {
            assert(local@.take(local@.len() as int) =~= local@);
        }
        ps
    };
    let ghost pv = strings_v(paths@);
    let mut out: Vec<PrDoc> = Vec::new();
    let mut k: usize = 0;
    proof {
        reveal_strlit("changed");
    }
    while k < paths.len()
        invariant
            k <= paths@.len(),
            pv == strings_v(paths@),
            out@.len() == k,
            forall|i: int| 0 <= i < k ==> (#[trigger] out@[i]).path@ == pv[i]
                && out@[i].status@ == (match local_status(local@, pv[i]) { Some(st) => st, None => "changed"@ })
                && out@[i].is_tracked == strings_v(tracked_paths@).contains(pv[i]),
        decreases paths@.len() - k,
    {
        let path = paths[k].as_str();
        let mut st: Option<String> = None;
        let mut j: usize = local.len();
        proof {
            assert(local@.take(local@.len() as int) =~= local@);
        }
        while j > 0 && st.is_none()
            invariant
                j <= local@.len(),
                st is None ==> local_status(local@, path@) == local_status(local@.take(j as int), path@),
                st matches Some(x) ==> local_status(local@, path@) == Some(x@),
            decreases j, (if st is None { 1int } else { 0int }),
        {
            proof {
                assert(local@.take(j as int).drop_last() =~= local@.take(j as int - 1));
                assert(local@.take(j as int).last() == local@[j as int - 1]);
            }
            if crate::text::same(local[j - 1].0.as_str(), path) {
                st = Some(copy_str(local[j - 1].1.as_str()));
            } else {
                j -= 1;
            }
        }
        let status = match st {
            Some(x) => x,
            None => {
                proof {
                    assert(local@.take(0) =~= Seq::<(String, String)>::empty());
                }
                copy_str("changed")
            },
        };
        out.push(PrDoc { path: copy_str(path), status, is_tracked: in_strings(tracked_paths, path) });
        k += 1;
    }
    out
}

// ---------- registered repos ----------

/// `time::OffsetDateTime`'s display form of the instant `nanos` after the Unix epoch (UTC),
/// when the instant is in the representable range.
pub uninterp spec fn displayed_time(nanos: int) -> Option<Seq<char>>;

/// `OffsetDateTime::from_unix_timestamp_nanos` then `to_string`. Claimed: the result is a
/// function of the instant alone, named `displayed_time` (none out of range).
#[verifier::external_body]
fn display_time(nanos: i128) -> (r: Option<String>)
    ensures
        opt_v(r) == displayed_time(nanos as int),
{
    time::OffsetDateTime::from_unix_timestamp_nanos(nanos).ok().map(|t| t.to_string())
}

/// `r` summarises the repo registered with `c`, whose store is under `home`.
pub open spec fn summary_of(r: RepoSummary, c: crate::model::RepoConfig, home: Seq<char>) -> bool {
    &&& r.github@ == c.github@
    &&& r.default_branch@ == c.default_branch@
    &&& r.store_dir@ == crate::store::spec_store_dir_for(home, c.github@)
    &&& strings_v(r.tracked_docs@) == c.tracked_docs@.map_values(|t: crate::model::TrackedDoc| t.path@)
    &&& opt_v(r.last_fetch) == (match c.last_fetch { Some(t) => displayed_time(t as int), None => None })
    &&& r.kind == c.kind
    &&& opt_v(r.source_dir) == opt_v(c.source_dir)
}

/// The registered repos (`configs`: the `repo.yaml` of each store under `home`, in order), as
/// listed.
pub fn list_registered(configs: &Vec<crate::model::RepoConfig>, home: &str) -> (r: Vec<RepoSummary>)
    ensures
        r@.len() == configs@.len(),
        forall|i: int| 0 <= i < r@.len() ==> summary_of(#[trigger] r@[i], configs@[i], home@),
{
    let mut out: Vec<RepoSummary> = Vec::new();
    let mut i: usize = 0;
    while i < configs.len()
        invariant
            i <= configs@.len(),
            out@.len() == i,
            forall|k: int| 0 <= k < i ==> summary_of(#[trigger] out@[k], configs@[k], home@),
        decreases configs@.len() - i,
    {
        let c = &configs[i];
        let mut paths: Vec<String> = Vec::new();
        let mut k: usize = 0;
        while k < c.tracked_docs.len()
            invariant
                k <= c.tracked_docs@.len(),
                strings_v(paths@) == c.tracked_docs@.take(k as int).map_values(|t: crate::model::TrackedDoc| t.path@),
            decreases c.tracked_docs@.len() - k,
        {
            let ghost t0 = strings_v(paths@);
            paths.push(copy_str(c.tracked_docs[k].path.as_str()));
            proof {
                assert(strings_v(paths@) =~= t0.push(c.tracked_docs@[k as int].path@));
                assert(c.tracked_docs@.take(k as int + 1).map_values(|t: crate::model::TrackedDoc| t.path@)
                    =~= c.tracked_docs@.take(k as int).map_values(|t: crate::model::TrackedDoc| t.path@).push(c.tracked_docs@[k as int].path@));
            }
            k += 1;
        }
        proof {
            assert(c.tracked_docs@.take(c.tracked_docs@.len() as int) =~= c.tracked_docs@);
        }
        let last_fetch = match c.last_fetch {
            Some(t) => display_time(t),
            None => None,
        };
        let ghost o0 = out@;
        out.push(RepoSummary {
            github: copy_str(c.github.as_str()),
            default_branch: copy_str(c.default_branch.as_str()),
            store_dir: crate::store::store_dir_for(home, c.github.as_str()),
            tracked_docs: paths,
            last_fetch,
            kind: c.kind,
            source_dir: copy_opt(&c.source_dir),
        });
        proof {
            assert forall|x: int| 0 <= x < i + 1 implies summary_of(#[trigger] out@[x], configs@[x], home@) by {
                if x < i {
                    assert(out@[x] == o0[x]);
                }
            }
        }
        i += 1;
    }
    out
}

/// The slug a local folder is registered under: `local/<name>-<6 hex>`, the name slugified
/// (at most 24 characters) and the hex the start of the content hash of the folder's path.
pub fn local_slug(name: &str, path: &str) -> (r: String)
    ensures
        r@ == "local/"@ + crate::id::spec_slugify(name@, 24) + seq!['-'] + crate::snapshot::spec_content_hash(path@).take(6),
{
    let h = crate::snapshot::content_hash(path);
    let hv = crate::text::chars_of(h.as_str());
    let mut s = copy_str("local/");
    push_str(&mut s, crate::id::slugify(name, 24).as_str());
    crate::text::push_char(&mut s, '-');
    let mut k: usize = 0;
    while k < 6
        invariant
            k <= 6,
            hv@ == crate::snapshot::spec_content_hash(path@),
            hv@.len() == 16,
            s@ == "local/"@ + crate::id::spec_slugify(name@, 24) + seq!['-'] + hv@.take(k as int),
        decreases 6 - k,
    {
        let ghost s0 = s@;
        crate::text::push_char(&mut s, hv[k]);
        proof {
            assert(hv@.take(k as int + 1) =~= hv@.take(k as int).push(hv@[k as int]));
        }
        k += 1;
    }
    proof {
        reveal_strlit("local/");
    }
    s
}

// ---------- status ----------

/// The number of the first open round, if any.
pub open spec fn first_open(rounds: Seq<Round>) -> Option<u32>
    decreases rounds.len(),
{
    if rounds.len() == 0 {
        None
    } else if rounds[0].closed is None {
        Some(rounds[0].n)
    } else {
        first_open(rounds.drop_first())
    }
}

/// How many rounds are closed.
pub open spec fn closed_count(rounds: Seq<Round>) -> nat
    decreases rounds.len(),
{
    if rounds.len() == 0 {
        0
    } else {
        closed_count(rounds.drop_last()) + if rounds.last().closed is Some { 1nat } else { 0nat }
    }
}

/// A tracked doc's status line: its current snapshot and meter, its open round (the first
/// round not closed, rounds in number order) and how many rounds closed.
pub fn doc_status(doc: &str, snapshot: Option<String>, meter: Option<crate::coverage::Meter>, rounds: &Vec<Round>) -> (r: DocStatus)
    ensures
        r.doc@ == doc@,
        r.snapshot == snapshot,
        r.meter == meter,
        r.open_round == first_open(rounds@),
        r.rounds_closed == closed_count(rounds@),
{
    let mut open: Option<u32> = None;
    let mut i: usize = rounds.len();
    proof {
        assert(rounds@.skip(rounds@.len() as int) =~= Seq::<Round>::empty());
    }
    while i > 0
        invariant
            i <= rounds@.len(),
            open == first_open(rounds@.skip(i as int)),
        decreases i,
    {
        proof {
            assert(rounds@.skip(i as int - 1).drop_first() =~= rounds@.skip(i as int));
            assert(rounds@.skip(i as int - 1)[0] == rounds@[i as int - 1]);
        }
        if rounds[i - 1].closed.is_none() {
            open = Some(rounds[i - 1].n);
        }
        i -= 1;
    }
    proof {
        assert(rounds@.skip(0) =~= rounds@);
    }
    let mut closed: usize = 0;
    let mut k: usize = 0;
    while k < rounds.len()
        invariant
            k <= rounds@.len(),
            closed == closed_count(rounds@.take(k as int)),
            closed <= k,
        decreases rounds@.len() - k,
    {
        proof {
            assert(rounds@.take(k as int + 1).drop_last() =~= rounds@.take(k as int));
        }
        if rounds[k].closed.is_some() {
            closed += 1;
        }
        k += 1;
    }
    proof {
        assert(rounds@.take(rounds@.len() as int) =~= rounds@);
    }
    DocStatus { doc: copy_str(doc), snapshot, meter, open_round: open, rounds_closed: closed }
}

// ---------- refreshing ----------

/// What refreshing does for one tracked doc, from its current sha, the sha of its blob at the
/// ref (none when the doc is gone) and the new sha a pending reconciliation waits on.
#[derive(Debug, Clone, Copy, PartialEq, Eq, Structural)]
pub enum ChangeStep {
    /// Nothing to do: unchanged, or absent and never snapshotted.
    Unchanged,
    /// The doc is gone from the ref: report it, advancing nothing.
    Gone,
    /// A reconciliation already waits on this exact blob.
    AlreadyPending,
    /// Snapshot the new blob.
    Snapshot,
}

pub fn change_step(cur: Option<&str>, blob_sha: Option<&str>, pending_to: Option<&str>) -> (r: ChangeStep)
    ensures
        r == (match blob_sha {
            None => if cur is Some { ChangeStep::Gone } else { ChangeStep::Unchanged },
            Some(sha) => if cur matches Some(c) && c@ == sha@ {
                ChangeStep::Unchanged
            } else if pending_to matches Some(p) && p@ == sha@ {
                ChangeStep::AlreadyPending
            } else {
                ChangeStep::Snapshot
            },
        }),
{
    match blob_sha {
        None => if cur.is_some() { ChangeStep::Gone } else { ChangeStep::Unchanged },
        Some(sha) => {
            let same_cur = match cur {
                Some(c) => crate::text::same(c, sha),
                None => false,
            };
            if same_cur {
                return ChangeStep::Unchanged;
            }
            let same_pending = match pending_to {
                Some(p) => crate::text::same(p, sha),
                None => false,
            };
            if same_pending { ChangeStep::AlreadyPending } else { ChangeStep::Snapshot }
        },
    }
}

/// A new snapshot becomes current when the doc had none or nothing in it was classified yet;
/// otherwise it waits on a reconciliation.
pub fn advances(cur: Option<&str>, classified: usize) -> (r: bool)
    ensures
        r == (cur is None || classified == 0),
{
    cur.is_none() || classified == 0
}

// ---------- accepting an agent's proposal ----------

/// What accepting a proposal does, on its spans.
#[derive(Debug, Clone)]
pub enum ProposalAction {
    /// Mark the spans non-normative (attributed to the agent, accepted by the user).
    Context,
    /// Anchor the existing requirement `slug` to the spans.
    Attach { slug: String },
    /// Create a requirement, then put it in the groups with these titles (created if new).
    Create { statement: String, slug: Option<String>, pattern: Option<Pattern>, groups: Vec<String> },
    /// Raise a question with these readings, keyed `a`, `b`, `c`, …
    Question { quote: String, materiality: Level, readings: Vec<(String, String)> },
}

pub open spec fn status_debug(s: ProposalStatus) -> Seq<char> {
    match s {
        ProposalStatus::Proposed => "Proposed"@,
        ProposalStatus::Accepted => "Accepted"@,
        ProposalStatus::Rejected => "Rejected"@,
    }
}

/// Index of the first proposal with id `id`.
pub open spec fn proposal_index(ps: Seq<Proposal>, id: Seq<char>) -> Option<int>
    decreases ps.len(),
{
    if ps.len() == 0 {
        None
    } else {
        match proposal_index(ps.drop_last(), id) {
            Some(i) => Some(i),
            None => if ps.last().id@ == id { Some(ps.len() - 1) } else { None },
        }
    }
}

/// The key of reading `i`: the character `a` + `i`.
pub open spec fn reading_key(i: int) -> Seq<char> {
    seq![((97 + i) as u8) as char]
}

/// What accepting proposal `p` does.
pub open spec fn action_is(a: ProposalAction, p: Proposal) -> bool {
    match p.proposed {
        Proposed::Context => a is Context,
        Proposed::Req { statement, pattern, slug, groups, attach } => match attach {
            Some(t) => a matches ProposalAction::Attach { slug: s } && s@ == t@,
            None => a matches ProposalAction::Create { statement: st, slug: sl, pattern: pt, groups: gs }
                && st@ == statement@ && opt_v(sl) == opt_v(slug) && pt == pattern && strings_v(gs@) == strings_v(groups@),
        },
        Proposed::Question { quote, materiality, readings } => a matches ProposalAction::Question { quote: q, materiality: m, readings: rs }
            && q@ == (if crate::blocks::trim_ws(quote@).len() == 0 { "?"@ } else { quote@ })
            && m == (match materiality { Some(l) => l, None => Level::M })
            && rs@.len() == readings@.len()
            && forall|i: int| 0 <= i < rs@.len() ==> (#[trigger] rs@[i]).0@ == reading_key(i) && rs@[i].1@ == readings@[i]@,
    }
}

pub(crate) fn find_proposal(ps: &Vec<Proposal>, id: &str) -> (r: Option<usize>)
    ensures
        match r {
            Some(i) => i < ps@.len() && proposal_index(ps@, id@) == Some(i as int),
            None => proposal_index(ps@, id@) is None,
        },
{
    let mut i: usize = 0;
    while i < ps.len()
        invariant
            i <= ps@.len(),
            proposal_index(ps@.take(i as int), id@) is None,
        decreases ps@.len() - i,
    {
        proof {
            assert(ps@.take(i as int + 1).drop_last() =~= ps@.take(i as int));
        }
        if crate::text::same(ps[i].id.as_str(), id) {
            proof {
                assert(proposal_index(ps@.take(i as int + 1), id@) == Some(i as int));
                lemma_proposal_index_stays(ps@, id@, i as int + 1);
            }
            return Some(i);
        }
        i += 1;
    }
    proof {
        assert(ps@.take(ps@.len() as int) =~= ps@);
    }
    None
}

proof fn lemma_proposal_index_stays(ps: Seq<Proposal>, id: Seq<char>, k: int)
    requires
        0 < k <= ps.len(),
        proposal_index(ps.take(k), id) is Some,
    ensures
        proposal_index(ps, id) == proposal_index(ps.take(k), id),
    decreases ps.len() - k,
{
    if k < ps.len() {
        assert(ps.take(k + 1).drop_last() =~= ps.take(k));
        lemma_proposal_index_stays(ps, id, k + 1);
    } else {
        assert(ps.take(k) =~= ps);
    }
}

/// A question proposal has at most as many readings as there are keys from `a` through byte 255.
pub open spec fn readings_fit(p: Proposal) -> bool {
    match p.proposed {
        Proposed::Question { readings, .. } => readings@.len() <= 159,
        _ => true,
    }
}

/// Accepting proposal `proposal_id`: which proposal it is and what to do. Fails when there is
/// no such proposal or it was already accepted or rejected. Questions with more readings than
/// keys from `a` through byte 255 are out of scope.
pub fn accept_proposal(all: &Proposals, proposal_id: &str) -> (r: Result<(usize, ProposalAction), String>)
    requires
        forall|i: int| 0 <= i < all.items@.len() ==> readings_fit(#[trigger] all.items@[i]),
    ensures
        match proposal_index(all.items@, proposal_id@) {
            None => r matches Err(m) && m@ == "no proposal `"@ + proposal_id@ + seq!['`'],
            Some(i) => if all.items@[i].status != ProposalStatus::Proposed {
                r matches Err(m) && m@ == "proposal already "@ + status_debug(all.items@[i].status)
            } else {
                r matches Ok((k, a)) && k == i && action_is(a, all.items@[i])
            },
        },
{
    let i = match find_proposal(&all.items, proposal_id) {
        Some(i) => i,
        None => {
            let mut m = copy_str("no proposal `");
            push_str(&mut m, proposal_id);
            crate::text::push_char(&mut m, '`');
            return Err(m);
        },
    };
    let p = &all.items[i];
    if p.status != ProposalStatus::Proposed {
        let mut m = copy_str("proposal already ");
        push_str(&mut m, match p.status {
            ProposalStatus::Proposed => "Proposed",
            ProposalStatus::Accepted => "Accepted",
            ProposalStatus::Rejected => "Rejected",
        });
        return Err(m);
    }
    let action = match &p.proposed {
        Proposed::Context => ProposalAction::Context,
        Proposed::Req { statement, pattern, slug, groups, attach } => match attach {
            Some(t) => ProposalAction::Attach { slug: copy_str(t.as_str()) },
            None => ProposalAction::Create {
                statement: copy_str(statement.as_str()),
                slug: copy_opt(slug),
                pattern: *pattern,
                groups: crate::text::copy_strings(groups),
            },
        },
        Proposed::Question { quote, materiality, readings } => {
            let qv = crate::text::chars_of(quote.as_str());
            let t = crate::blocks::trim_chars(&qv);
            let q = if t.len() == 0 {
                copy_str("?")
            } else {
                copy_str(quote.as_str())
            };
            proof {
                reveal_strlit("?");
            }
            let m = match materiality {
                Some(l) => *l,
                None => Level::M,
            };
            let mut rs: Vec<(String, String)> = Vec::new();
            let mut k: usize = 0;
            while k < readings.len()
                invariant
                    k <= readings@.len(),
                    readings@.len() <= 159,
                    rs@.len() == k,
                    forall|j: int| 0 <= j < k ==> (#[trigger] rs@[j]).0@ == reading_key(j) && rs@[j].1@ == readings@[j]@,
                decreases readings@.len() - k,
            {
                let mut key = String::new();
                crate::text::push_char(&mut key, ((97 + k) as u8) as char);
                proof {
                    assert(key@ =~= reading_key(k as int));
                }
                rs.push((key, copy_str(readings[k].as_str())));
                k += 1;
            }
            ProposalAction::Question { quote: q, materiality: m, readings: rs }
        },
    };
    Ok((i, action))
}

/// Stamp the newest history entry of an object the agent proposed: by `agent`, accepted by
/// `user`.
pub fn attribute(h: &mut Vec<History>, user: &str)
    ensures
        final(h)@.len() == old(h)@.len(),
        old(h)@.len() > 0 ==> final(h)@.drop_last() == old(h)@.drop_last()
            && final(h)@.last().by@ == "agent"@
            && opt_v(final(h)@.last().accepted_by) == Some(user@)
            && final(h)@.last().at == old(h)@.last().at
            && final(h)@.last().op == old(h)@.last().op
            && final(h)@.last().from == old(h)@.last().from
            && final(h)@.last().to == old(h)@.last().to
            && final(h)@.last().note == old(h)@.last().note,
        old(h)@.len() == 0 ==> final(h)@ == old(h)@,
{
    let n = h.len();
    if n > 0 {
        let ghost h0 = h@;
        let mut last = h.pop().unwrap();
        last.by = copy_str("agent");
        last.accepted_by = Some(copy_str(user));
        h.push(last);
        proof {
            assert(h@.drop_last() =~= h0.drop_last());
        }
    }
}

/// Who a mark made from an accepted proposal is by.
pub fn agent_mark_by(user: &str) -> (r: String)
    ensures
        r@ == "agent (accepted by "@ + user@ + seq![')'],
{
    let mut s = copy_str("agent (accepted by ");
    push_str(&mut s, user);
    crate::text::push_char(&mut s, ')');
    s
}

/// Record that proposal `proposal_id` was accepted with `result` (the object it made).
pub fn record_acceptance(all: &mut Proposals, proposal_id: &str, result: String)
    ensures
        final(all).items@.len() == old(all).items@.len(),
        match proposal_index(old(all).items@, proposal_id@) {
            Some(i) => final(all).items@ == old(all).items@.update(i, final(all).items@[i])
                && final(all).items@[i].status == ProposalStatus::Accepted
                && opt_v(final(all).items@[i].result) == Some(result@)
                && final(all).items@[i].id == old(all).items@[i].id
                && final(all).items@[i].spans == old(all).items@[i].spans
                && final(all).items@[i].proposed == old(all).items@[i].proposed
                && final(all).items@[i].rationale == old(all).items@[i].rationale,
            None => final(all).items@ == old(all).items@,
        },
{
    match find_proposal(&all.items, proposal_id) {
        Some(i) => {
            let ghost i0 = all.items@;
            let mut p = all.items.remove(i);
            p.status = ProposalStatus::Accepted;
            p.result = Some(result);
            all.items.insert(i, p);
            proof {
                assert(all.items@ =~= i0.update(i as int, all.items@[i as int]));
            }
        },
        None => {},
    }
}

/// Record that proposal `proposal_id` was rejected.
pub fn reject_proposal(all: &mut Proposals, proposal_id: &str) -> (r: Result<(), String>)
    ensures
        match proposal_index(old(all).items@, proposal_id@) {
            Some(i) => r is Ok && final(all).items@ == old(all).items@.update(i, final(all).items@[i])
                && final(all).items@[i].status == ProposalStatus::Rejected
                && final(all).items@[i].id == old(all).items@[i].id
                && final(all).items@[i].spans == old(all).items@[i].spans
                && final(all).items@[i].proposed == old(all).items@[i].proposed
                && final(all).items@[i].result == old(all).items@[i].result,
            None => r matches Err(m) && m@ == "no proposal `"@ + proposal_id@ + seq!['`'] && final(all).items@ == old(all).items@,
        },
{
    match find_proposal(&all.items, proposal_id) {
        Some(i) => {
            let ghost i0 = all.items@;
            let mut p = all.items.remove(i);
            p.status = ProposalStatus::Rejected;
            all.items.insert(i, p);
            proof {
                assert(all.items@ =~= i0.update(i as int, all.items@[i as int]));
            }
            Ok(())
        },
        None => {
            let mut m = copy_str("no proposal `");
            push_str(&mut m, proposal_id);
            crate::text::push_char(&mut m, '`');
            Err(m)
        },
    }
}

/// Drop every proposal still pending.
pub fn clear_proposals(all: &mut Proposals)
    ensures
        final(all).items@ == old(all).items@.filter(|p: Proposal| p.status != ProposalStatus::Proposed),
{
    let ghost i0 = all.items@;
    let mut rest = Vec::new();
    std::mem::swap(&mut rest, &mut all.items);
    let mut kept: Vec<Proposal> = Vec::new();
    let mut k: usize = 0;
    let n = rest.len();
    while rest.len() > 0
        invariant
            rest@.len() + k == n,
            n == i0.len(),
            rest@ == i0.skip(k as int),
            kept@ == i0.take(k as int).filter(|p: Proposal| p.status != ProposalStatus::Proposed),
        decreases rest@.len(),
    {
        let ghost r0 = rest@;
        let p = rest.remove(0);
        proof {
            assert(rest@ =~= i0.skip(k as int + 1));
            assert(i0.take(k as int + 1) =~= i0.take(k as int).push(p));
            i0.take(k as int).lemma_filter_push(p, |p: Proposal| p.status != ProposalStatus::Proposed);
        }
        if p.status != ProposalStatus::Proposed {
            kept.push(p);
        }
        k += 1;
    }
    proof {
        assert(i0.take(k as int) =~= i0);
    }
    all.items = kept;
}

/// Ids of the proposals still pending, in order.
pub fn pending_proposal_ids(all: &Proposals) -> (r: Vec<String>)
    ensures
        strings_v(r@) == all.items@.filter(|p: Proposal| p.status == ProposalStatus::Proposed).map_values(|p: Proposal| p.id@),
{
    let ghost i0 = all.items@;
    let mut out: Vec<String> = Vec::new();
    let mut k: usize = 0;
    while k < all.items.len()
        invariant
            k <= i0.len(),
            i0 == all.items@,
            strings_v(out@) == i0.take(k as int).filter(|p: Proposal| p.status == ProposalStatus::Proposed).map_values(|p: Proposal| p.id@),
        decreases i0.len() - k,
    {
        let p = &all.items[k];
        proof {
            assert(i0.take(k as int + 1) =~= i0.take(k as int).push(*p));
            i0.take(k as int).lemma_filter_push(*p, |p: Proposal| p.status == ProposalStatus::Proposed);
        }
        if p.status == ProposalStatus::Proposed {
            let ghost o0 = strings_v(out@);
            out.push(copy_str(p.id.as_str()));
            proof {
                let f = i0.take(k as int).filter(|p: Proposal| p.status == ProposalStatus::Proposed);
                assert(f.push(*p).map_values(|p: Proposal| p.id@) =~= f.map_values(|p: Proposal| p.id@).push(p.id@));
                assert(strings_v(out@) =~= o0.push(p.id@));
            }
        }
        k += 1;
    }
    proof {
        assert(i0.take(i0.len() as int) =~= i0);
    }
    out
}

/// The first group whose title equals `title`, trimmed, ignoring ASCII case.
pub open spec fn title_match(groups: Seq<Group>, title: Seq<char>) -> Option<int>
    decreases groups.len(),
{
    if groups.len() == 0 {
        None
    } else {
        match title_match(groups.drop_last(), title) {
            Some(i) => Some(i),
            None => if crate::text::lower_seq(groups.last().title@) == crate::text::lower_seq(crate::blocks::trim_ws(title)) {
                Some(groups.len() - 1)
            } else {
                None
            },
        }
    }
}

/// The group an accepted proposal's group title names, if one exists.
pub fn find_group_by_title(groups: &Vec<Group>, title: &str) -> (r: Option<usize>)
    ensures
        match r {
            Some(i) => title_match(groups@, title@) == Some(i as int),
            None => title_match(groups@, title@) is None,
        },
{
    let t = crate::text::lower_vec(&crate::blocks::trim_chars(&crate::text::chars_of(title)));
    let mut i: usize = 0;
    while i < groups.len()
        invariant
            i <= groups@.len(),
            t@ == crate::text::lower_seq(crate::blocks::trim_ws(title@)),
            title_match(groups@.take(i as int), title@) is None,
        decreases groups@.len() - i,
    {
        proof {
            assert(groups@.take(i as int + 1).drop_last() =~= groups@.take(i as int));
        }
        let g = crate::text::lower_vec(&crate::text::chars_of(groups[i].title.as_str()));
        if crate::text::seq_eq(&g, &t) {
            proof {
                assert(title_match(groups@.take(i as int + 1), title@) == Some(i as int));
                lemma_title_match_stays(groups@, title@, i as int + 1);
            }
            return Some(i);
        }
        i += 1;
    }
    proof {
        assert(groups@.take(groups@.len() as int) =~= groups@);
    }
    None
}

proof fn lemma_title_match_stays(gs: Seq<Group>, t: Seq<char>, k: int)
    requires
        0 < k <= gs.len(),
        title_match(gs.take(k), t) is Some,
    ensures
        title_match(gs, t) == title_match(gs.take(k), t),
    decreases gs.len() - k,
{
    if k < gs.len() {
        assert(gs.take(k + 1).drop_last() =~= gs.take(k));
        lemma_title_match_stays(gs, t, k + 1);
    } else {
        assert(gs.take(k) =~= gs);
    }
}

} // verus!
