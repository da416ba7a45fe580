//! Classifying a document's spans: the open round, marks, requirements and questions, and
//! closing the round. Each operation takes what it reads and returns (or updates in place)
//! what it writes; the caller holds the store lock and does the file work.

use crate::id::{spec_slugify, spec_valid_slug, slugify, valid_slug, Id};
use crate::model::{Anchor, Answer, Context, RoundSummary, History, HistoryValue, Mark, MarkKind, Marks, Pattern, QstStatus, Question, Rating, ReqRev, Round, Status};
use crate::ops::{all_taken, anchor_v, ids_v, id_v, anchors_for, has_anchor, no_requirement_message, anchors_on, anchors_v, candidate, entry_heads, opt_v, NewReq, ReqPatch};
use crate::coverage::{DocCoverage, SpanStatus};
use crate::reconcile::{Classification, Decision, Reconciliation, Verdict, VerdictKind};
use crate::snapshot::Snapshot;
use crate::text::{copy_str, decimal, push_char, push_str, strings_v};
use vstd::prelude::*;

verus! {

broadcast use vstd::string::group_string_axioms;

// ---------- copies ----------

pub fn dup_opt(o: &Option<String>) -> (r: Option<String>)
    ensures
        r == *o,
{
    match o {
        Some(s) => Some(s.clone()),
        None => None,
    }
}

pub fn dup_anchor(a: &Anchor) -> (r: Anchor)
    ensures
        r == *a,
{
    Anchor { doc: a.doc.clone(), span: a.span.clone() }
}

pub fn dup_anchors(v: &Vec<Anchor>) -> (r: Vec<Anchor>)
    ensures
        r@ == v@,
{
    let mut out: Vec<Anchor> = Vec::new();
    let mut i: usize = 0;
    while i < v.len()
        invariant
            i <= v@.len(),
            out@ == v@.take(i as int),
        decreases v@.len() - i,
    {
        out.push(dup_anchor(&v[i]));
        proof {
            assert(out@ =~= v@.take(i as int + 1));
        }
        i += 1;
    }
    proof {
        assert(v@.take(v@.len() as int) =~= v@);
    }
    out
}

pub fn dup_ids(v: &Vec<Id>) -> (r: Vec<Id>)
    ensures
        r@ == v@,
{
    let mut out: Vec<Id> = Vec::new();
    let mut i: usize = 0;
    while i < v.len()
        invariant
            i <= v@.len(),
            out@ == v@.take(i as int),
        decreases v@.len() - i,
    {
        out.push(v[i].dup());
        proof {
            assert(out@ =~= v@.take(i as int + 1));
        }
        i += 1;
    }
    proof {
        assert(v@.take(v@.len() as int) =~= v@);
    }
    out
}

pub fn dup_context(c: &Context) -> (r: Context)
    ensures
        r == *c,
{
    match c {
        Context::Branch { branch } => Context::Branch { branch: branch.clone() },
        Context::Pr { pr, head } => Context::Pr { pr: *pr, head: head.clone() },
    }
}

// ---------- spans ----------

/// `snap` has a span with id `id`.
pub open spec fn in_snapshot(snap: Snapshot, id: Seq<char>) -> bool {
    exists|i: int| 0 <= i < snap.spans@.len() && (#[trigger] snap.spans@[i]).id@ == id
}

/// The first of `spans` that `snap` does not have.
pub open spec fn first_absent(snap: Snapshot, spans: Seq<String>) -> Option<int>
    decreases spans.len(),
{
    if spans.len() == 0 {
        None
    } else {
        match first_absent(snap, spans.drop_last()) {
            Some(i) => Some(i),
            None => if in_snapshot(snap, spans.last()@) { None } else { Some(spans.len() - 1) },
        }
    }
}

proof fn lemma_first_absent_none(snap: Snapshot, spans: Seq<String>)
    requires
        first_absent(snap, spans) is None,
    ensures
        forall|k: int| 0 <= k < spans.len() ==> in_snapshot(snap, (#[trigger] spans[k])@),
    decreases spans.len(),
{
    if spans.len() > 0 {
        lemma_first_absent_none(snap, spans.drop_last());
        assert forall|k: int| 0 <= k < spans.len() implies in_snapshot(snap, (#[trigger] spans[k])@) by {
            if k < spans.len() - 1 {
                assert(spans.drop_last()[k] == spans[k]);
            }
        }
    }
}

proof fn lemma_first_absent_stays(snap: Snapshot, spans: Seq<String>, k: int)
    requires
        0 < k <= spans.len(),
        first_absent(snap, spans.take(k)) is Some,
    ensures
        first_absent(snap, spans) == first_absent(snap, spans.take(k)),
    decreases spans.len() - k,
{
    if k < spans.len() {
        assert(spans.take(k + 1).drop_last() =~= spans.take(k));
        lemma_first_absent_stays(snap, spans, k + 1);
    } else {
        assert(spans.take(k) =~= spans);
    }
}

pub open spec fn absent_message(span: Seq<char>, doc: Seq<char>) -> Seq<char> {
    "span `"@ + span + "` not in current snapshot of "@ + doc
}

/// Every span must be in `snap`, the document's current snapshot; the first that is not
/// fails the operation.
pub fn check_spans(snap: &Snapshot, doc: &str, spans: &Vec<String>) -> (r: Result<(), String>)
    ensures
        match first_absent(*snap, spans@) {
            None => r is Ok,
            Some(i) => r matches Err(m) && m@ == absent_message(spans@[i]@, doc@),
        },
        r is Ok <==> forall|k: int| 0 <= k < spans@.len() ==> in_snapshot(*snap, (#[trigger] spans@[k])@),
{
    let mut i: usize = 0;
    while i < spans.len()
        invariant
            i <= spans@.len(),
            first_absent(*snap, spans@.take(i as int)) is None,
        decreases spans@.len() - i,
    {
        proof {
            assert(spans@.take(i as int + 1).drop_last() =~= spans@.take(i as int));
            assert(spans@.take(i as int + 1).last() == spans@[i as int]);
        }
        let found = snap.span(spans[i].as_str());
        if found.is_none() {
            proof {
                assert(!in_snapshot(*snap, spans@[i as int]@));
                assert(first_absent(*snap, spans@.take(i as int + 1)) == Some(i as int));
                lemma_first_absent_stays(*snap, spans@, i as int + 1);
            }
            let mut m = copy_str("span `");
            push_str(&mut m, spans[i].as_str());
            push_str(&mut m, "` not in current snapshot of ");
            push_str(&mut m, doc);
            proof {
                reveal_strlit("span `");
                reveal_strlit("` not in current snapshot of ");
                assert(m@ =~= absent_message(spans@[i as int]@, doc@));
            }
            return Err(m);
        }
        proof {
            let s = found->Some_0;
            let j = choose|j: int| 0 <= j < snap.spans@.len() && snap.spans@[j] == *s && s.id@ == spans@[i as int]@;
            assert(snap.spans@[j].id@ == spans@[i as int]@);
            assert(in_snapshot(*snap, spans@[i as int]@));
        }
        i += 1;
    }
    proof {
        assert(spans@.take(spans@.len() as int) =~= spans@);
        lemma_first_absent_none(*snap, spans@);
    }
    Ok(())
}

// ---------- the open round ----------

pub open spec fn untracked_message(doc: Seq<char>) -> Seq<char> {
    doc + " is not tracked \u{2014} track it first to classify"@
}

pub open spec fn no_snapshot_message(doc: Seq<char>) -> Seq<char> {
    doc + " has no current snapshot"@
}

/// The round that classifying `doc` in `ctx` works in: the open one, else a new one on the
/// current snapshot numbered after the last round (the caller saves it). `is_tracked` says
/// whether the repo tracks `doc`; `last_n` is the number of the newest round, if any.
pub fn ensure_round(is_tracked: bool, open: Option<Round>, current_sha: Option<String>, last_n: Option<u32>, ctx: &Context, doc: &str, now: i128) -> (r: Result<Round, String>)
    requires
        last_n matches Some(n) ==> n < u32::MAX,
    ensures
        !is_tracked ==> (r matches Err(m) && m@ == untracked_message(doc@)),
        is_tracked && open is Some ==> r == Ok::<Round, String>(open->Some_0),
        is_tracked && open is None && current_sha is None ==> (r matches Err(m) && m@ == no_snapshot_message(doc@)),
        is_tracked && open is None && current_sha is Some ==> (r matches Ok(round)
            && round.doc@ == doc@
            && round.n == (match last_n { Some(n) => n + 1, None => 1 })
            && round.snapshot == current_sha->Some_0
            && round.context == *ctx
            && round.opened == now
            && round.closed is None
            && round.summary is None),
{
    if !is_tracked {
        let mut m = copy_str(doc);
        push_str(&mut m, " is not tracked \u{2014} track it first to classify");
        proof {
            reveal_strlit(" is not tracked \u{2014} track it first to classify");
        }
        return Err(m);
    }
    match open {
        Some(round) => Ok(round),
        None => match current_sha {
            None => {
                let mut m = copy_str(doc);
                push_str(&mut m, " has no current snapshot");
                proof {
                    reveal_strlit(" has no current snapshot");
                }
                Err(m)
            },
            Some(sha) => {
                let n: u32 = match last_n {
                    Some(k) => k + 1,
                    None => 1,
                };
                Ok(Round {
                    doc: copy_str(doc),
                    n,
                    snapshot: sha,
                    context: dup_context(ctx),
                    opened: now,
                    closed: None,
                    summary: None,
                })
            },
        },
    }
}

// ---------- marks ----------

/// `m` is the non-normative mark `by` made at `now`.
pub open spec fn non_normative_by(m: Mark, by: Seq<char>, now: i128) -> bool {
    m.kind == MarkKind::NonNormative && m.by@ == by && m.at == now && m.note is None
}

/// `after` is `before` with the spans marked non-normative by `by` at `now`.
pub open spec fn marked(before: Marks, after: Marks, spans: Seq<String>, by: Seq<char>, now: i128) -> bool {
    &&& forall|k: int| 0 <= k < spans.len() ==> ((#[trigger] after.get_spec(spans[k]@)) matches Some(m) && non_normative_by(m, by, now))
    &&& forall|s: Seq<char>| !strings_v(spans).contains(s) ==> #[trigger] after.get_spec(s) == before.get_spec(s)
}

/// `after` is `before` with the spans' marks taken off.
pub open spec fn unmarked(before: Marks, after: Marks, spans: Seq<String>) -> bool {
    &&& forall|k: int| 0 <= k < spans.len() ==> (#[trigger] after.get_spec(spans[k]@)) is None
    &&& forall|s: Seq<char>| !strings_v(spans).contains(s) ==> #[trigger] after.get_spec(s) == before.get_spec(s)
}

/// `c`: mark the spans non-normative (replacing marks already there); other spans keep theirs.
pub fn mark_non_normative(marks: &mut Marks, spans: &Vec<String>, by: &str, now: i128)
    ensures
        marked(*old(marks), *final(marks), spans@, by@, now),
{
    let mut i: usize = 0;
    while i < spans.len()
        invariant
            i <= spans@.len(),
            forall|k: int| 0 <= k < i ==> ((#[trigger] marks.get_spec(spans@[k]@)) matches Some(m) && non_normative_by(m, by@, now)),
            forall|s: Seq<char>| !strings_v(spans@.take(i as int)).contains(s) ==> #[trigger] marks.get_spec(s) == old(marks).get_spec(s),
        decreases spans@.len() - i,
    {
        let ghost before = *marks;
        marks.insert(copy_str(spans[i].as_str()), Mark { kind: MarkKind::NonNormative, by: copy_str(by), at: now, note: None });
        proof {
            assert(strings_v(spans@.take(i as int + 1)) =~= strings_v(spans@.take(i as int)).push(spans@[i as int]@));
            assert forall|k: int| 0 <= k < i + 1 implies ((#[trigger] marks.get_spec(spans@[k]@)) matches Some(m) && non_normative_by(m, by@, now)) by {
                if spans@[k]@ != spans@[i as int]@ {
                    assert(marks.get_spec(spans@[k]@) == before.get_spec(spans@[k]@));
                }
            }
            assert forall|s: Seq<char>| !strings_v(spans@.take(i as int + 1)).contains(s) implies #[trigger] marks.get_spec(s) == old(marks).get_spec(s) by {
                assert(strings_v(spans@.take(i as int + 1)).last() == spans@[i as int]@);
                assert(!strings_v(spans@.take(i as int)).contains(s)) by {
                    if strings_v(spans@.take(i as int)).contains(s) {
                        let j = choose|j: int| 0 <= j < strings_v(spans@.take(i as int)).len() && strings_v(spans@.take(i as int))[j] == s;
                        assert(strings_v(spans@.take(i as int + 1))[j] == s);
                    }
                }
                assert(s != spans@[i as int]@);
                assert(marks.get_spec(s) == before.get_spec(s));
            }
        }
        i += 1;
    }
    proof {
        assert(spans@.take(spans@.len() as int) =~= spans@);
    }
}

/// Take the marks off the spans (back to unclassified); other spans keep theirs.
pub fn unmark(marks: &mut Marks, spans: &Vec<String>)
    ensures
        unmarked(*old(marks), *final(marks), spans@),
{
    let mut i: usize = 0;
    while i < spans.len()
        invariant
            i <= spans@.len(),
            forall|k: int| 0 <= k < i ==> (#[trigger] marks.get_spec(spans@[k]@)) is None,
            forall|s: Seq<char>| !strings_v(spans@.take(i as int)).contains(s) ==> #[trigger] marks.get_spec(s) == old(marks).get_spec(s),
        decreases spans@.len() - i,
    {
        let ghost before = *marks;
        marks.remove(spans[i].as_str());
        proof {
            assert(strings_v(spans@.take(i as int + 1)) =~= strings_v(spans@.take(i as int)).push(spans@[i as int]@));
            assert forall|k: int| 0 <= k < i + 1 implies (#[trigger] marks.get_spec(spans@[k]@)) is None by {
                if spans@[k]@ != spans@[i as int]@ {
                    assert(marks.get_spec(spans@[k]@) == before.get_spec(spans@[k]@));
                }
            }
            assert forall|s: Seq<char>| !strings_v(spans@.take(i as int + 1)).contains(s) implies #[trigger] marks.get_spec(s) == old(marks).get_spec(s) by {
                assert(strings_v(spans@.take(i as int + 1)).last() == spans@[i as int]@);
                assert(!strings_v(spans@.take(i as int)).contains(s)) by {
                    if strings_v(spans@.take(i as int)).contains(s) {
                        let j = choose|j: int| 0 <= j < strings_v(spans@.take(i as int)).len() && strings_v(spans@.take(i as int))[j] == s;
                        assert(strings_v(spans@.take(i as int + 1))[j] == s);
                    }
                }
                assert(s != spans@[i as int]@);
                assert(marks.get_spec(s) == before.get_spec(s));
            }
        }
        i += 1;
    }
    proof {
        assert(spans@.take(spans@.len() as int) =~= spans@);
    }
}

/// Unmarking what was just marked gives back the marks from before, where the spans had none:
/// every span then reads as it did.
pub proof fn law_unmark_undoes_mark(before: Marks, mid: Marks, after: Marks, spans: Seq<String>, by: Seq<char>, now: i128)
    requires
        forall|k: int| 0 <= k < spans.len() ==> (#[trigger] before.get_spec(spans[k]@)) is None,
        marked(before, mid, spans, by, now),
        unmarked(mid, after, spans),
    ensures
        forall|s: Seq<char>| #[trigger] after.get_spec(s) == before.get_spec(s),
{
    assert forall|s: Seq<char>| #[trigger] after.get_spec(s) == before.get_spec(s) by {
        if strings_v(spans).contains(s) {
            let j = choose|j: int| 0 <= j < strings_v(spans).len() && strings_v(spans)[j] == s;
            assert(spans[j]@ == s);
            assert(after.get_spec(spans[j]@) is None);
            assert(before.get_spec(spans[j]@) is None);
        } else {
            assert(after.get_spec(s) == mid.get_spec(s));
        }
    }
}

// ---------- requirement slugs ----------

pub open spec fn invalid_slug_message(slug: Seq<char>) -> Seq<char> {
    "invalid slug `"@ + slug + seq!['`']
}

pub open spec fn no_free_slug_message(base: Seq<char>) -> Seq<char> {
    "could not find a free slug for `"@ + base + seq!['`']
}

/// What a free requirement slug for `base` is, given the slugs `taken` by requirement files:
/// `base` itself, else the first of `base-2` … `base-999` not taken.
pub open spec fn free_slug_result(base: Seq<char>, taken: Seq<Seq<char>>, r: Result<Seq<char>, Seq<char>>) -> bool {
    if !spec_valid_slug(base) {
        r == Err::<Seq<char>, Seq<char>>(invalid_slug_message(base))
    } else if all_taken(base, taken, 1000) {
        r == Err::<Seq<char>, Seq<char>>(no_free_slug_message(base))
    } else {
        r matches Ok(s) && exists|i: nat| 1 <= i < 1000 && all_taken(base, taken, i) && s == #[trigger] candidate(base, i) && !taken.contains(s)
    }
}

pub open spec fn result_v(r: Result<String, String>) -> Result<Seq<char>, Seq<char>> {
    match r {
        Ok(s) => Ok(s@),
        Err(e) => Err(e@),
    }
}

pub proof fn lemma_candidate_valid(base: Seq<char>, i: nat)
    requires
        spec_valid_slug(base),
        i >= 1,
    ensures
        spec_valid_slug(candidate(base, i)),
{
    if i > 1 {
        let d = decimal(i);
        crate::text::lemma_decimal(i);
        let c = candidate(base, i);
        assert(c =~= base + seq!['-'] + d);
        assert forall|k: int| 0 <= k < c.len() implies #[trigger] crate::id::slug_char(c[k]) by {
            if k < base.len() {
                assert(c[k] == base[k]);
            } else if k > base.len() {
                assert(c[k] == d[k - base.len() - 1]);
                assert(crate::text::is_digit(d[k - base.len() - 1]));
            }
        }
        assert forall|k: int| 0 <= k < c.len() - 1 implies !(#[trigger] c[k] == '-' && c[k + 1] == '-') by {
            if k < base.len() - 1 {
                assert(c[k] == base[k] && c[k + 1] == base[k + 1]);
            } else if k == base.len() - 1 {
                assert(c[k] == base.last());
            } else if k == base.len() {
                assert(c[k + 1] == d[0]);
                assert(crate::text::is_digit(d[0]));
            } else {
                assert(c[k] == d[k - base.len() - 1]);
                assert(crate::text::is_digit(d[k - base.len() - 1]));
            }
        }
        assert(c.last() == d.last());
        assert(crate::text::is_digit(d[d.len() - 1]));
    }
}

fn taken_has(taken: &Vec<String>, s: &str) -> (r: bool)
    ensures
        r == strings_v(taken@).contains(s@),
{
    let mut i: usize = 0;
    while i < taken.len()
        invariant
            i <= taken@.len(),
            forall|j: int| 0 <= j < i ==> taken@[j]@ != s@,
        decreases taken@.len() - i,
    {
        if crate::text::same(taken[i].as_str(), s) {
            proof {
                assert(strings_v(taken@)[i as int] == s@);
            }
            return true;
        }
        i += 1;
    }
    proof {
        assert forall|j: int| 0 <= j < strings_v(taken@).len() implies strings_v(taken@)[j] != s@ by {
            assert(strings_v(taken@)[j] == taken@[j]@);
        }
    }
    false
}

/// A requirement slug for `base` that no requirement file holds: `base`, else `base-2`,
/// `base-3`, … up to `base-999`.
pub fn free_slug(base: &str, taken: &Vec<String>) -> (r: Result<String, String>)
    ensures
        free_slug_result(base@, strings_v(taken@), result_v(r)),
        r matches Ok(s) ==> spec_valid_slug(s@),
{
    let ghost u = strings_v(taken@);
    if !valid_slug(base) {
        let mut m = copy_str("invalid slug `");
        push_str(&mut m, base);
        push_char(&mut m, '`');
        proof {
            reveal_strlit("invalid slug `");
            assert(m@ =~= invalid_slug_message(base@));
        }
        return Err(m);
    }
    let mut i: u32 = 1;
    while i < 1000
        invariant
            1 <= i <= 1000,
            u == strings_v(taken@),
            spec_valid_slug(base@),
            all_taken(base@, u, i as nat),
        decreases 1000 - i,
    {
        let mut c = copy_str(base);
        if i > 1 {
            push_char(&mut c, '-');
            push_str(&mut c, crate::text::decimal_string(i).as_str());
        }
        proof {
            assert(c@ =~= candidate(base@, i as nat));
        }
        if !taken_has(taken, c.as_str()) {
            proof {
                lemma_candidate_valid(base@, i as nat);
                assert(1 <= i < 1000 && all_taken(base@, u, i as nat) && c@ == candidate(base@, i as nat) && !u.contains(c@));
            }
            return Ok(c);
        }
        proof {
            assert forall|j: nat| 1 <= j < i + 1 implies u.contains(#[trigger] candidate(base@, j)) by {
                if j < i {
                    assert(all_taken(base@, u, i as nat));
                }
            }
        }
        i = i + 1;
    }
    let mut m = copy_str("could not find a free slug for `");
    push_str(&mut m, base);
    push_char(&mut m, '`');
    proof {
        reveal_strlit("could not find a free slug for `");
        assert(m@ =~= no_free_slug_message(base@));
    }
    Err(m)
}

// ---------- requirements ----------

/// The slug a new requirement starts from: the given one or one made from its statement.
pub open spec fn req_base(new: NewReq) -> Seq<char> {
    match new.slug {
        Some(s) => s@,
        None => spec_slugify(new.statement@, 32),
    }
}

pub open spec fn str_opt_v(o: Option<&str>) -> Option<Seq<char>> {
    match o {
        Some(s) => Some(s@),
        None => None,
    }
}

/// `r` is the requirement created from `new` on `spans` of `doc`, with slug `slug`.
pub open spec fn created(r: ReqRev, slug: Seq<char>, doc: Seq<char>, spans: Seq<String>, new: NewReq, by: Seq<char>, now: i128) -> bool {
    &&& r.id.ty@ == "req"@ && r.id.slug@ == slug && r.id.rev == 1
    &&& r.statement@ == new.statement@
    &&& r.pattern == new.pattern && r.rating == new.rating
    &&& opt_v(r.owner) == str_opt_v(new.owner)
    &&& r.status == Status::Extracted
    &&& r.reason is None && r.suspect is None
    &&& anchors_v(r.anchors@) == anchors_on(doc, strings_v(spans))
    &&& r.questions@.len() == 0
    &&& entry_heads(r.history@) == seq![("create"@, by, now, None::<Seq<char>>)]
    &&& r.history@[0].accepted_by is None && r.history@[0].from is None && r.history@[0].to is None
}

/// `r`: create a requirement anchored to `spans` of `doc`. Its slug is the given one or one
/// made from the statement, made free against the slugs `taken` by requirement files.
pub fn create_req(doc: &str, spans: &Vec<String>, new: &NewReq, taken: &Vec<String>, by: &str, now: i128) -> (r: Result<ReqRev, String>)
    ensures
        match r {
            Ok(req) => free_slug_result(req_base(*new), strings_v(taken@), Ok(req.id.slug@))
                && created(req, req.id.slug@, doc@, spans@, *new, by@, now),
            Err(m) => free_slug_result(req_base(*new), strings_v(taken@), Err(m@)),
        },
{
    let base = match new.slug {
        Some(s) => copy_str(s),
        None => slugify(new.statement, 32),
    };
    let slug = match free_slug(base.as_str(), taken) {
        Ok(s) => s,
        Err(m) => return Err(m),
    };
    let id = Id { ty: copy_str("req"), slug, rev: 1 };
    proof {
        reveal_strlit("req");
    }
    let mut r = ReqRev::new_at(id, copy_str(new.statement), by, now);
    r.pattern = new.pattern;
    r.rating = new.rating;
    r.owner = match new.owner {
        Some(o) => Some(copy_str(o)),
        None => None,
    };
    r.anchors = anchors_for(doc, spans);
    proof {
        assert(entry_heads(r.history@) =~= seq![("create"@, by@, now, None::<Seq<char>>)]);
    }
    Ok(r)
}

// ---------- anchors ----------

pub type AnchorView = (Seq<char>, Seq<char>);

/// The anchors after attaching `spans` of `doc`: each one not there yet is added at the end.
pub open spec fn add_anchors(av: Seq<AnchorView>, doc: Seq<char>, spans: Seq<Seq<char>>) -> Seq<AnchorView>
    decreases spans.len(),
{
    if spans.len() == 0 {
        av
    } else {
        let a = add_anchors(av, doc, spans.drop_last());
        if a.contains((doc, spans.last())) { a } else { a.push((doc, spans.last())) }
    }
}

/// An anchor that detaching `spans` of `doc` keeps.
pub open spec fn stays(doc: Seq<char>, spans: Seq<Seq<char>>) -> spec_fn(AnchorView) -> bool {
    |a: AnchorView| !(a.0 == doc && spans.contains(a.1))
}

/// The anchors after detaching `spans` of `doc`.
pub open spec fn remove_anchors(av: Seq<AnchorView>, doc: Seq<char>, spans: Seq<Seq<char>>) -> Seq<AnchorView> {
    av.filter(stays(doc, spans))
}

/// Everything of a rev but its anchors and history stays.
pub open spec fn req_kept(new: ReqRev, old: ReqRev) -> bool {
    &&& new.id == old.id && new.statement == old.statement && new.pattern == old.pattern
    &&& new.status == old.status && new.rating == old.rating && new.owner == old.owner
    &&& new.reason == old.reason && new.suspect == old.suspect && new.questions == old.questions
}

/// `h` records the anchors going from `from` to `to`.
pub open spec fn anchor_change(h: History, op: Seq<char>, by: Seq<char>, now: i128, from: Seq<AnchorView>, to: Seq<AnchorView>) -> bool {
    &&& crate::ops::entry_head(h) == (op, by, now, None::<Seq<char>>)
    &&& h.accepted_by is None
    &&& h.from matches Some(HistoryValue::Anchors(a)) && anchors_v(a@) == from
    &&& h.to matches Some(HistoryValue::Anchors(b)) && anchors_v(b@) == to
}

/// Only the current (last) rev of a requirement file changed.
pub open spec fn current_changed<T>(old: Seq<T>, new: Seq<T>) -> bool {
    old.len() > 0 && new.len() == old.len() && new.drop_last() == old.drop_last()
}

proof fn lemma_add_anchors_shape(av: Seq<AnchorView>, doc: Seq<char>, spans: Seq<Seq<char>>)
    ensures
        add_anchors(av, doc, spans).len() >= av.len(),
        add_anchors(av, doc, spans).take(av.len() as int) == av,
        forall|k: int| av.len() <= k < add_anchors(av, doc, spans).len() ==>
            (#[trigger] add_anchors(av, doc, spans)[k]).0 == doc && spans.contains(add_anchors(av, doc, spans)[k].1),
        forall|k: int| 0 <= k < spans.len() ==> add_anchors(av, doc, spans).contains((doc, #[trigger] spans[k])),
    decreases spans.len(),
{
    if spans.len() > 0 {
        let p = spans.drop_last();
        lemma_add_anchors_shape(av, doc, p);
        let a = add_anchors(av, doc, p);
        let r = add_anchors(av, doc, spans);
        assert forall|k: int| av.len() <= k < r.len() implies (#[trigger] r[k]).0 == doc && spans.contains(r[k].1) by {
            if k < a.len() {
                assert(r[k] == a[k]);
                let j = choose|j: int| 0 <= j < p.len() && p[j] == a[k].1;
                assert(spans[j] == p[j]);
            } else {
                assert(r[k] == (doc, spans.last()));
                assert(spans[spans.len() - 1] == spans.last());
            }
        }
        assert(r.take(av.len() as int) =~= av) by {
            assert forall|k: int| 0 <= k < av.len() implies r[k] == av[k] by {
                assert(r[k] == a[k]);
                assert(a.take(av.len() as int)[k] == av[k]);
            }
        }
        assert forall|k: int| 0 <= k < spans.len() implies r.contains((doc, #[trigger] spans[k])) by {
            if k < spans.len() - 1 {
                assert(p[k] == spans[k]);
                assert(a.contains((doc, p[k])));
                let j = choose|j: int| 0 <= j < a.len() && a[j] == (doc, p[k]);
                assert(r[j] == a[j]);
            } else if !a.contains((doc, spans.last())) {
                assert(r[r.len() - 1] == (doc, spans.last()));
            }
        }
    }
}

proof fn lemma_add_anchors_noop(av: Seq<AnchorView>, doc: Seq<char>, spans: Seq<Seq<char>>)
    requires
        forall|k: int| 0 <= k < spans.len() ==> av.contains((doc, #[trigger] spans[k])),
    ensures
        add_anchors(av, doc, spans) == av,
    decreases spans.len(),
{
    if spans.len() > 0 {
        let p = spans.drop_last();
        assert forall|k: int| 0 <= k < p.len() implies av.contains((doc, #[trigger] p[k])) by {
            assert(p[k] == spans[k]);
        }
        lemma_add_anchors_noop(av, doc, p);
        assert(av.contains((doc, spans[spans.len() - 1])));
    }
}

/// Attaching is idempotent: attaching the same spans again changes no anchor.
pub proof fn law_attach_idempotent(av: Seq<AnchorView>, doc: Seq<char>, spans: Seq<Seq<char>>)
    ensures
        add_anchors(add_anchors(av, doc, spans), doc, spans) == add_anchors(av, doc, spans),
{
    lemma_add_anchors_shape(av, doc, spans);
    lemma_add_anchors_noop(add_anchors(av, doc, spans), doc, spans);
}

proof fn lemma_filter_keeps_all(s: Seq<AnchorView>, f: spec_fn(AnchorView) -> bool)
    requires
        forall|k: int| 0 <= k < s.len() ==> f(#[trigger] s[k]),
    ensures
        s.filter(f) == s,
    decreases s.len(),
{
    reveal(Seq::filter);
    if s.len() > 0 {
        lemma_filter_keeps_all(s.drop_last(), f);
        assert(f(s[s.len() - 1]));
        assert(s.drop_last().push(s.last()) =~= s);
    }
}

proof fn lemma_filter_drops_all(s: Seq<AnchorView>, f: spec_fn(AnchorView) -> bool)
    requires
        forall|k: int| 0 <= k < s.len() ==> !f(#[trigger] s[k]),
    ensures
        s.filter(f) == Seq::<AnchorView>::empty(),
    decreases s.len(),
{
    reveal(Seq::filter);
    if s.len() > 0 {
        lemma_filter_drops_all(s.drop_last(), f);
        assert(!f(s[s.len() - 1]));
    }
}

/// Detaching undoes attaching: where none of the spans was anchored, attaching them and then
/// detaching them gives back the anchors from before.
pub proof fn law_detach_undoes_attach(av: Seq<AnchorView>, doc: Seq<char>, spans: Seq<Seq<char>>)
    requires
        forall|k: int| 0 <= k < spans.len() ==> !av.contains((doc, #[trigger] spans[k])),
    ensures
        remove_anchors(add_anchors(av, doc, spans), doc, spans) == av,
{
    let f = stays(doc, spans);
    let r = add_anchors(av, doc, spans);
    lemma_add_anchors_shape(av, doc, spans);
    let extra = r.skip(av.len() as int);
    assert(r =~= av + extra) by {
        assert(r.take(av.len() as int) == av);
    }
    assert forall|k: int| 0 <= k < av.len() implies f(#[trigger] av[k]) by {
        if av[k].0 == doc && spans.contains(av[k].1) {
            let j = choose|j: int| 0 <= j < spans.len() && spans[j] == av[k].1;
            assert(av.contains((doc, spans[j])));
        }
    }
    assert forall|k: int| 0 <= k < extra.len() implies !f(#[trigger] extra[k]) by {
        assert(extra[k] == r[k + av.len()]);
    }
    lemma_filter_keeps_all(av, f);
    lemma_filter_drops_all(extra, f);
    Seq::filter_distributes_over_add(av, extra, f);
    assert(remove_anchors(r, doc, spans) == r.filter(f));
    assert(av + Seq::<AnchorView>::empty() =~= av);
}

/// `r` (attach): anchor the current rev of requirement `slug` (its file's revs) to more spans
/// of `doc`, once each, recording the change.
pub fn attach_req(revs: &mut Vec<ReqRev>, slug: &str, doc: &str, spans: &Vec<String>, by: &str, now: i128) -> (r: Result<(), String>)
    ensures
        old(revs)@.len() == 0 ==> (r matches Err(m) && m@ == no_requirement_message(slug@) && final(revs)@ == old(revs)@),
        old(revs)@.len() > 0 ==> (r is Ok && current_changed(old(revs)@, final(revs)@) && attached(old(revs)@.last(), final(revs)@.last(), doc@, strings_v(spans@), by@, now)),
{
    if revs.len() == 0 {
        let mut m = copy_str("no requirement `");
        push_str(&mut m, slug);
        push_char(&mut m, '`');
        proof {
            reveal_strlit("no requirement `");
            assert(m@ =~= no_requirement_message(slug@));
        }
        return Err(m);
    }
    let ghost r0 = revs@;
    let mut cur = revs.pop().unwrap();
    let ghost c0 = cur;
    let before = dup_anchors(&cur.anchors);
    let mut i: usize = 0;
    while i < spans.len()
        invariant
            i <= spans@.len(),
            cur == (ReqRev { anchors: cur.anchors, ..c0 }),
            before@ == c0.anchors@,
            anchors_v(cur.anchors@) == add_anchors(anchors_v(c0.anchors@), doc@, strings_v(spans@).take(i as int)),
        decreases spans@.len() - i,
    {
        proof {
            assert(strings_v(spans@).take(i as int + 1).drop_last() =~= strings_v(spans@).take(i as int));
            assert(strings_v(spans@).take(i as int + 1).last() == spans@[i as int]@);
        }
        if !has_anchor(&cur.anchors, doc, spans[i].as_str()) {
            let ghost a0 = cur.anchors@;
            cur.anchors.push(Anchor { doc: copy_str(doc), span: copy_str(spans[i].as_str()) });
            proof {
                assert(anchors_v(cur.anchors@) =~= anchors_v(a0).push((doc@, spans@[i as int]@)));
            }
        }
        i += 1;
    }
    proof {
        assert(strings_v(spans@).take(spans@.len() as int) =~= strings_v(spans@));
    }
    let after = dup_anchors(&cur.anchors);
    cur.history.push(History::new_at(by, "anchor", now).change(Some(HistoryValue::Anchors(before)), Some(HistoryValue::Anchors(after))));
    proof {
        assert(cur.history@.drop_last() =~= c0.history@);
    }
    revs.push(cur);
    proof {
        assert(revs@.drop_last() =~= r0.drop_last());
    }
    Ok(())
}

/// `new` is `old` after attaching `spans` of `doc`.
pub open spec fn attached(old: ReqRev, new: ReqRev, doc: Seq<char>, spans: Seq<Seq<char>>, by: Seq<char>, now: i128) -> bool {
    &&& req_kept(new, old)
    &&& anchors_v(new.anchors@) == add_anchors(anchors_v(old.anchors@), doc, spans)
    &&& new.history@.len() == old.history@.len() + 1
    &&& new.history@.drop_last() == old.history@
    &&& anchor_change(new.history@.last(), "anchor"@, by, now, anchors_v(old.anchors@), anchors_v(new.anchors@))
}

/// `new` is `old` after detaching `spans` of `doc`.
pub open spec fn detached(old: ReqRev, new: ReqRev, doc: Seq<char>, spans: Seq<Seq<char>>, by: Seq<char>, now: i128) -> bool {
    &&& req_kept(new, old)
    &&& anchors_v(new.anchors@) == remove_anchors(anchors_v(old.anchors@), doc, spans)
    &&& new.history@.len() == old.history@.len() + 1
    &&& new.history@.drop_last() == old.history@
    &&& anchor_change(new.history@.last(), "unanchor"@, by, now, anchors_v(old.anchors@), anchors_v(new.anchors@))
}

/// Remove the current rev's anchors on `spans` of `doc`, recording the change.
pub fn detach_req(revs: &mut Vec<ReqRev>, slug: &str, doc: &str, spans: &Vec<String>, by: &str, now: i128) -> (r: Result<(), String>)
    ensures
        old(revs)@.len() == 0 ==> (r matches Err(m) && m@ == no_requirement_message(slug@) && final(revs)@ == old(revs)@),
        old(revs)@.len() > 0 ==> (r is Ok && current_changed(old(revs)@, final(revs)@) && detached(old(revs)@.last(), final(revs)@.last(), doc@, strings_v(spans@), by@, now)),
{
    if revs.len() == 0 {
        let mut m = copy_str("no requirement `");
        push_str(&mut m, slug);
        push_char(&mut m, '`');
        proof {
            reveal_strlit("no requirement `");
            assert(m@ =~= no_requirement_message(slug@));
        }
        return Err(m);
    }
    let ghost r0 = revs@;
    let mut cur = revs.pop().unwrap();
    let ghost c0 = cur;
    let ghost sv = strings_v(spans@);
    let ghost f = stays(doc@, sv);
    let before = dup_anchors(&cur.anchors);
    let mut kept: Vec<Anchor> = Vec::new();
    let mut i: usize = 0;
    while i < before.len()
        invariant
            i <= before@.len(),
            before@ == c0.anchors@,
            sv == strings_v(spans@),
            f == stays(doc@, sv),
            anchors_v(kept@) == anchors_v(before@.take(i as int)).filter(f),
        decreases before@.len() - i,
    {
        proof {
            assert(anchors_v(before@.take(i as int + 1)) =~= anchors_v(before@.take(i as int)).push(anchor_v(before@[i as int])));
            anchors_v(before@.take(i as int)).lemma_filter_push(anchor_v(before@[i as int]), f);
        }
        let a = &before[i];
        let hit = crate::text::same(a.doc.as_str(), doc) && crate::ops::in_strings(spans, a.span.as_str());
        if !hit {
            let ghost k0 = kept@;
            kept.push(dup_anchor(a));
            proof {
                assert(anchors_v(kept@) =~= anchors_v(k0).push(anchor_v(*a)));
            }
        }
        i += 1;
    }
    proof {
        assert(before@.take(before@.len() as int) =~= before@);
    }
    cur.anchors = kept;
    let after = dup_anchors(&cur.anchors);
    cur.history.push(History::new_at(by, "unanchor", now).change(Some(HistoryValue::Anchors(before)), Some(HistoryValue::Anchors(after))));
    proof {
        assert(cur.history@.drop_last() =~= c0.history@);
    }
    revs.push(cur);
    proof {
        assert(revs@.drop_last() =~= r0.drop_last());
    }
    Ok(())
}

// ---------- editing and bumping ----------

pub open spec fn retire_message() -> Seq<char> {
    "retiring requires a non-empty reason"@
}

/// The patch retires the requirement without a reason: neither a non-blank one given nor one
/// already recorded.
pub open spec fn retire_refused(patch: ReqPatch, cur: ReqRev) -> bool {
    &&& patch.status == Some(Status::Retired)
    &&& match patch.reason {
        Some(r) => crate::blocks::trim_ws(r@).len() == 0,
        None => cur.reason is None,
    }
}

/// `h` records a change of status.
pub open spec fn status_change(h: History, by: Seq<char>, now: i128, from: Status, to: Status) -> bool {
    &&& crate::ops::entry_head(h) == ("status"@, by, now, None::<Seq<char>>)
    &&& h.accepted_by is None
    &&& h.from == Some(HistoryValue::Status(from)) && h.to == Some(HistoryValue::Status(to))
}

/// `h` records a change of text.
pub open spec fn text_change(h: History, op: Seq<char>, by: Seq<char>, now: i128, from: Seq<char>, to: Seq<char>) -> bool {
    &&& crate::ops::entry_head(h) == (op, by, now, None::<Seq<char>>)
    &&& h.accepted_by is None
    &&& h.from matches Some(HistoryValue::Text(a)) && a@ == from
    &&& h.to matches Some(HistoryValue::Text(b)) && b@ == to
}

/// `new` is `old` with the patch applied (the statement or status changing clears `suspect`)
/// and one history entry saying what changed: the status, else the statement, else an update.
pub open spec fn updated(old: ReqRev, new: ReqRev, patch: ReqPatch, by: Seq<char>, now: i128) -> bool {
    let status_moved = new.status != old.status;
    let statement_moved = new.statement@ != old.statement@;
    &&& new.statement@ == (match patch.statement { Some(t) => t@, None => old.statement@ })
    &&& new.pattern == (match patch.pattern { Some(p) => p, None => old.pattern })
    &&& new.status == (match patch.status { Some(t) => t, None => old.status })
    &&& new.rating == (match patch.rating { Some(r) => r, None => old.rating })
    &&& opt_v(new.owner) == (match patch.owner { Some(o) => str_opt_v(o), None => opt_v(old.owner) })
    &&& opt_v(new.reason) == (match patch.reason { Some(r) => Some(r@), None => opt_v(old.reason) })
    &&& new.suspect == (if status_moved || statement_moved { None } else { old.suspect })
    &&& new.id == old.id && new.anchors == old.anchors && new.questions == old.questions
    &&& new.history@.len() == old.history@.len() + 1
    &&& new.history@.drop_last() == old.history@
    &&& if status_moved {
        status_change(new.history@.last(), by, now, old.status, new.status)
    } else if statement_moved {
        text_change(new.history@.last(), "statement"@, by, now, old.statement@, new.statement@)
    } else {
        &&& crate::ops::entry_head(new.history@.last()) == ("update"@, by, now, None::<Seq<char>>)
        &&& new.history@.last().accepted_by is None
        &&& new.history@.last().from is None && new.history@.last().to is None
    }
}

/// Update editable fields of the current rev without bumping it (no change of meaning).
/// Retiring needs a reason: a non-blank one in the patch, or one already recorded.
pub fn update_req(revs: &mut Vec<ReqRev>, slug: &str, patch: &ReqPatch, by: &str, now: i128) -> (r: Result<(), String>)
    ensures
        old(revs)@.len() == 0 ==> (r matches Err(m) && m@ == no_requirement_message(slug@) && final(revs)@ == old(revs)@),
        old(revs)@.len() > 0 && retire_refused(*patch, old(revs)@.last()) ==> (r matches Err(m) && m@ == retire_message() && final(revs)@ == old(revs)@),
        old(revs)@.len() > 0 && !retire_refused(*patch, old(revs)@.last()) ==> (r is Ok && current_changed(old(revs)@, final(revs)@)
            && updated(old(revs)@.last(), final(revs)@.last(), *patch, by@, now)),
{
    if revs.len() == 0 {
        let mut m = copy_str("no requirement `");
        push_str(&mut m, slug);
        push_char(&mut m, '`');
        proof {
            reveal_strlit("no requirement `");
            assert(m@ =~= no_requirement_message(slug@));
        }
        return Err(m);
    }
    let last = revs.len() - 1;
    if patch.status == Some(Status::Retired) {
        let blank = match patch.reason {
            Some(r) => crate::blocks::trim_chars(&crate::text::chars_of(r)).len() == 0,
            None => revs[last].reason.is_none(),
        };
        if blank {
            proof {
                reveal_strlit("retiring requires a non-empty reason");
            }
            return Err(copy_str("retiring requires a non-empty reason"));
        }
    }
    let ghost r0 = revs@;
    let mut cur = revs.pop().unwrap();
    let ghost c0 = cur;
    let before_status = cur.status;
    let before_statement = cur.statement.clone();
    if let Some(t) = patch.statement {
        cur.statement = copy_str(t);
    }
    if let Some(p) = patch.pattern {
        cur.pattern = p;
    }
    if let Some(t) = patch.status {
        cur.status = t;
    }
    if let Some(rt) = patch.rating {
        cur.rating = rt;
    }
    if let Some(o) = patch.owner {
        cur.owner = match o {
            Some(x) => Some(copy_str(x)),
            None => None,
        };
    }
    if let Some(rs) = patch.reason {
        cur.reason = Some(copy_str(rs));
    }
    let status_moved = before_status != cur.status;
    let statement_moved = !crate::text::same(before_statement.as_str(), cur.statement.as_str());
    if status_moved || statement_moved {
        cur.suspect = None;
    }
    let h = if status_moved {
        History::new_at(by, "status", now).change(Some(HistoryValue::Status(before_status)), Some(HistoryValue::Status(cur.status)))
    } else if statement_moved {
        History::new_at(by, "statement", now).change(Some(HistoryValue::Text(before_statement)), Some(HistoryValue::Text(cur.statement.clone())))
    } else {
        History::new_at(by, "update", now)
    };
    cur.history.push(h);
    proof {
        assert(cur.history@.drop_last() =~= c0.history@);
    }
    revs.push(cur);
    proof {
        assert(revs@.drop_last() =~= r0.drop_last());
    }
    Ok(())
}

/// `new` is the rev after `old`: same requirement, next rev number, the new statement, the
/// rest carried over, and a fresh history that starts with the change.
pub open spec fn bumped(old: ReqRev, new: ReqRev, statement: Seq<char>, by: Seq<char>, now: i128) -> bool {
    &&& new.id.ty@ == old.id.ty@ && new.id.slug@ == old.id.slug@ && new.id.rev == old.id.rev + 1
    &&& new.statement@ == statement
    &&& new.pattern == old.pattern && new.status == old.status && new.rating == old.rating
    &&& new.owner == old.owner && new.reason == old.reason && new.suspect == old.suspect
    &&& new.anchors@ == old.anchors@ && new.questions@ == old.questions@
    &&& new.history@.len() == 1
    &&& text_change(new.history@[0], "rev"@, by, now, old.statement@, statement)
}

/// Bump a requirement to a new rev (its meaning changed). The prior revs are kept as they were.
pub fn bump_req(revs: &mut Vec<ReqRev>, slug: &str, statement: &str, by: &str, now: i128) -> (r: Result<(), String>)
    requires
        old(revs)@.len() > 0 ==> old(revs)@.last().id.rev < u32::MAX,
    ensures
        old(revs)@.len() == 0 ==> (r matches Err(m) && m@ == no_requirement_message(slug@) && final(revs)@ == old(revs)@),
        old(revs)@.len() > 0 ==> (r is Ok && final(revs)@.len() == old(revs)@.len() + 1 && final(revs)@.drop_last() == old(revs)@
            && bumped(old(revs)@.last(), final(revs)@.last(), statement@, by@, now)),
{
    if revs.len() == 0 {
        let mut m = copy_str("no requirement `");
        push_str(&mut m, slug);
        push_char(&mut m, '`');
        proof {
            reveal_strlit("no requirement `");
            assert(m@ =~= no_requirement_message(slug@));
        }
        return Err(m);
    }
    let ghost r0 = revs@;
    let cur = &revs[revs.len() - 1];
    let mut history: Vec<History> = Vec::new();
    history.push(History::new_at(by, "rev", now).change(Some(HistoryValue::Text(cur.statement.clone())), Some(HistoryValue::Text(copy_str(statement)))));
    let next = ReqRev {
        id: cur.id.with_rev(cur.id.rev + 1),
        statement: copy_str(statement),
        pattern: cur.pattern,
        status: cur.status,
        rating: cur.rating,
        owner: dup_opt(&cur.owner),
        reason: dup_opt(&cur.reason),
        suspect: dup_opt(&cur.suspect),
        anchors: dup_anchors(&cur.anchors),
        questions: dup_ids(&cur.questions),
        history,
    };
    revs.push(next);
    proof {
        assert(revs@.drop_last() =~= r0);
    }
    Ok(())
}

// ---------- questions ----------

pub open spec fn no_question_message(slug: Seq<char>) -> Seq<char> {
    "no question `"@ + slug + seq!['`']
}

pub open spec fn qst_status_name(s: QstStatus) -> Seq<char> {
    match s {
        QstStatus::Open => "Open"@,
        QstStatus::Answered => "Answered"@,
        QstStatus::Withdrawn => "Withdrawn"@,
    }
}

/// The rev of `affects[i]` when the question was raised.
pub open spec fn raised_rev(q: Question, i: int) -> u32 {
    if i < q.affects_revs@.len() { q.affects_revs@[i].rev } else { q.affects@[i].rev }
}

/// `current[i]`, the current rev of the requirement `affects[i]` names (None past the end).
pub open spec fn current_at(current: Seq<Option<u32>>, i: int) -> Option<u32> {
    if 0 <= i < current.len() { current[i] } else { None }
}

/// What moved under the first `k` affected requirements since the question was raised.
pub open spec fn conflicts(q: Question, current: Seq<Option<u32>>, k: int) -> Seq<Seq<char>>
    decreases k,
{
    if k <= 0 {
        Seq::empty()
    } else {
        let prev = conflicts(q, current, k - 1);
        let slug = q.affects@[k - 1].slug@;
        match current_at(current, k - 1) {
            None => prev.push(slug + " no longer exists"@),
            Some(c) => if c != raised_rev(q, k - 1) {
                prev.push(slug + " is now rev "@ + decimal(c as nat) + " (was "@ + decimal(raised_rev(q, k - 1) as nat) + seq![')'])
            } else {
                prev
            },
        }
    }
}

/// The parts joined with `sep` between them.
pub open spec fn join_with(parts: Seq<Seq<char>>, sep: Seq<char>) -> Seq<char>
    decreases parts.len(),
{
    if parts.len() == 0 {
        Seq::empty()
    } else if parts.len() == 1 {
        parts[0]
    } else {
        join_with(parts.drop_last(), sep) + sep + parts.last()
    }
}

/// The answer `by` gave at `now`: the reading, and the note unless blank.
pub open spec fn answer_is(a: Answer, reading: Seq<char>, note: Option<&str>, by: Seq<char>, now: i128) -> bool {
    &&& a.reading@ == reading
    &&& opt_v(a.note) == (match note {
        Some(n) => if crate::blocks::trim_ws(n@).len() == 0 { None } else { Some(n@) },
        None => None,
    })
    &&& a.by@ == by && a.at == now
}

/// Everything of a question but these fields stays.
pub open spec fn qst_kept(new: Question, old: Question) -> bool {
    &&& new.id == old.id && new.quote == old.quote && new.anchors == old.anchors
    &&& new.materiality == old.materiality && new.readings == old.readings && new.affects == old.affects
}

/// The history grew by one entry: `(op, by, now, note)`.
pub open spec fn logged(old: Seq<History>, new: Seq<History>, op: Seq<char>, by: Seq<char>, now: i128, note: Option<Seq<char>>) -> bool {
    &&& new.len() == old.len() + 1
    &&& new.drop_last() == old
    &&& crate::ops::entry_head(new.last()) == (op, by, now, note)
    &&& new.last().accepted_by is None && new.last().from is None && new.last().to is None
}

/// The reading is not one the question offers.
pub open spec fn unknown_reading(q: Question, reading: Seq<char>) -> bool {
    q.readings@.len() > 0 && forall|i: int| 0 <= i < q.readings@.len() ==> (#[trigger] q.readings@[i]).key@ != reading
}

/// `new` is `old` answered: held when an affected requirement moved since it was raised
/// (the history says what moved), applied otherwise.
pub open spec fn answered(old: Question, new: Question, reading: Seq<char>, note: Option<&str>, by: Seq<char>, now: i128, current: Seq<Option<u32>>) -> bool {
    let cs = conflicts(old, current, old.affects@.len() as int);
    &&& qst_kept(new, old)
    &&& new.affects_revs == old.affects_revs
    &&& if cs.len() > 0 {
        &&& new.status == old.status && new.answer == old.answer
        &&& new.pending matches Some(a) && answer_is(a, reading, note, by, now)
        &&& logged(old.history@, new.history@, "answer-held"@, by, now, Some(join_with(cs, "; "@)))
    } else {
        &&& new.status == QstStatus::Answered
        &&& new.answer matches Some(a) && answer_is(a, reading, note, by, now)
        &&& new.pending is None
        &&& logged(old.history@, new.history@, "answer"@, by, now, Some(reading))
    }
}

fn no_question(slug: &str) -> (m: String)
    ensures
        m@ == no_question_message(slug@),
{
    let mut m = copy_str("no question `");
    push_str(&mut m, slug);
    push_char(&mut m, '`');
    proof {
        reveal_strlit("no question `");
        assert(m@ =~= no_question_message(slug@));
    }
    m
}

fn join_exec(parts: &Vec<String>, sep: &str) -> (r: String)
    ensures
        r@ == join_with(strings_v(parts@), sep@),
{
    let mut out = String::new();
    let mut i: usize = 0;
    while i < parts.len()
        invariant
            i <= parts@.len(),
            out@ == join_with(strings_v(parts@.take(i as int)), sep@),
        decreases parts@.len() - i,
    {
        proof {
            assert(strings_v(parts@.take(i as int + 1)).drop_last() =~= strings_v(parts@.take(i as int)));
            assert(strings_v(parts@.take(i as int + 1)).last() == parts@[i as int]@);
        }
        if i > 0 {
            push_str(&mut out, sep);
        } else {
            proof {
                assert(strings_v(parts@.take(1))[0] == parts@[0]@);
            }
        }
        push_str(&mut out, parts[i].as_str());
        i += 1;
    }
    proof {
        assert(parts@.take(parts@.len() as int) =~= parts@);
    }
    out
}

/// Answer the question `slug` (its file's revs) with `reading`. `current[i]` is the current
/// rev of the requirement `affects[i]` names, None when it no longer exists.
pub fn answer_question(revs: &mut Vec<Question>, slug: &str, reading: &str, note: Option<&str>, by: &str, now: i128, current: &Vec<Option<u32>>) -> (r: Result<(), String>)
    ensures
        old(revs)@.len() == 0 ==> (r matches Err(m) && m@ == no_question_message(slug@)),
        old(revs)@.len() > 0 && old(revs)@.last().status != QstStatus::Open ==> (r matches Err(m)
            && m@ == "question is "@ + qst_status_name(old(revs)@.last().status)),
        old(revs)@.len() > 0 && old(revs)@.last().status == QstStatus::Open && unknown_reading(old(revs)@.last(), reading@) ==> (r matches Err(m)
            && m@ == "unknown reading `"@ + reading@ + seq!['`']),
        r is Err ==> final(revs)@ == old(revs)@,
        old(revs)@.len() > 0 && old(revs)@.last().status == QstStatus::Open && !unknown_reading(old(revs)@.last(), reading@) ==> (r is Ok
            && current_changed(old(revs)@, final(revs)@)
            && answered(old(revs)@.last(), final(revs)@.last(), reading@, note, by@, now, current@)),
{
    if revs.len() == 0 {
        return Err(no_question(slug));
    }
    let last = revs.len() - 1;
    let q = &revs[last];
    if q.status != QstStatus::Open {
        let mut m = copy_str("question is ");
        push_str(&mut m, match q.status {
            QstStatus::Open => "Open",
            QstStatus::Answered => "Answered",
            QstStatus::Withdrawn => "Withdrawn",
        });
        proof {
            reveal_strlit("question is ");
            reveal_strlit("Open");
            reveal_strlit("Answered");
            reveal_strlit("Withdrawn");
        }
        return Err(m);
    }
    if q.readings.len() > 0 {
        let mut known = false;
        let mut i: usize = 0;
        while i < q.readings.len()
            invariant
                i <= q.readings@.len(),
                !known ==> forall|j: int| 0 <= j < i ==> (#[trigger] q.readings@[j]).key@ != reading@,
                known ==> !unknown_reading(*q, reading@),
            decreases q.readings@.len() - i,
        {
            if crate::text::same(q.readings[i].key.as_str(), reading) {
                known = true;
            }
            i += 1;
        }
        if !known {
            let mut m = copy_str("unknown reading `");
            push_str(&mut m, reading);
            push_char(&mut m, '`');
            proof {
                reveal_strlit("unknown reading `");
            }
            return Err(m);
        }
    }
    let ghost q0 = *q;
    let mut notes: Vec<String> = Vec::new();
    let mut i: usize = 0;
    while i < q.affects.len()
        invariant
            i <= q.affects@.len(),
            q0 == *q,
            strings_v(notes@) == conflicts(q0, current@, i as int),
        decreases q.affects@.len() - i,
    {
        let a = &q.affects[i];
        let raised: u32 = if i < q.affects_revs.len() { q.affects_revs[i].rev } else { a.rev };
        let cur: Option<u32> = if i < current.len() { current[i] } else { None };
        let ghost n0 = strings_v(notes@);
        match cur {
            None => {
                let mut m = copy_str(a.slug.as_str());
                push_str(&mut m, " no longer exists");
                proof {
                    reveal_strlit(" no longer exists");
                }
                notes.push(m);
                proof {
                    assert(strings_v(notes@) =~= n0.push(a.slug@ + " no longer exists"@));
                }
            },
            Some(c) => {
                if c != raised {
                    let mut m = copy_str(a.slug.as_str());
                    push_str(&mut m, " is now rev ");
                    push_str(&mut m, crate::text::decimal_string(c).as_str());
                    push_str(&mut m, " (was ");
                    push_str(&mut m, crate::text::decimal_string(raised).as_str());
                    push_char(&mut m, ')');
                    proof {
                        reveal_strlit(" is now rev ");
                        reveal_strlit(" (was ");
                        assert(m@ =~= a.slug@ + " is now rev "@ + decimal(c as nat) + " (was "@ + decimal(raised as nat) + seq![')']);
                    }
                    notes.push(m);
                    proof {
                        assert(strings_v(notes@) =~= n0.push(a.slug@ + " is now rev "@ + decimal(c as nat) + " (was "@ + decimal(raised as nat) + seq![')']));
                    }
                }
            },
        }
        i += 1;
    }
    let ans = Answer {
        reading: copy_str(reading),
        note: match note {
            Some(n) => if crate::blocks::trim_chars(&crate::text::chars_of(n)).len() == 0 { None } else { Some(copy_str(n)) },
            None => None,
        },
        by: copy_str(by),
        at: now,
    };
    let ghost r0 = revs@;
    let mut q = revs.pop().unwrap();
    if notes.len() > 0 {
        let joined = join_exec(&notes, "; ");
        q.pending = Some(ans);
        q.history.push(History::new_at(by, "answer-held", now).note(joined));
        proof {
            reveal_strlit("; ");
            assert(q.history@.drop_last() =~= q0.history@);
        }
    } else {
        q.answer = Some(ans);
        q.pending = None;
        q.status = QstStatus::Answered;
        q.history.push(History::new_at(by, "answer", now).note(copy_str(reading)));
        proof {
            assert(q.history@.drop_last() =~= q0.history@);
        }
    }
    revs.push(q);
    proof {
        assert(revs@.drop_last() =~= r0.drop_last());
    }
    Ok(())
}

/// `new` is `old` after resolving its held answer: applied (affected revs re-pinned to the
/// current ones) or discarded.
pub open spec fn resolved(old: Question, new: Question, apply: bool, by: Seq<char>, now: i128, current: Seq<Option<Id>>) -> bool {
    &&& qst_kept(new, old)
    &&& new.pending is None
    &&& if apply {
        &&& new.answer == old.pending && new.status == QstStatus::Answered
        &&& new.affects_revs@.len() == old.affects@.len()
        &&& forall|i: int| 0 <= i < old.affects@.len() ==> id_v(#[trigger] new.affects_revs@[i]) == (match (if i < current.len() { current[i] } else { None }) {
            Some(c) => id_v(c),
            None => id_v(old.affects@[i]),
        })
        &&& logged(old.history@, new.history@, "answer"@, by, now, Some("applied after conflict review"@))
    } else {
        &&& new.answer == old.answer && new.status == old.status && new.affects_revs == old.affects_revs
        &&& logged(old.history@, new.history@, "answer-discarded"@, by, now, None)
    }
}

/// Resolve a held answer after the conflict has been looked at: apply it anyway or discard it.
/// `current[i]` is the current rev of the requirement `affects[i]` names, if any.
pub fn resolve_held_answer(revs: &mut Vec<Question>, slug: &str, apply: bool, by: &str, now: i128, current: &Vec<Option<Id>>) -> (r: Result<(), String>)
    ensures
        old(revs)@.len() == 0 ==> (r matches Err(m) && m@ == no_question_message(slug@)),
        old(revs)@.len() > 0 && old(revs)@.last().pending is None ==> (r matches Err(m) && m@ == "no held answer"@),
        r is Err ==> final(revs)@ == old(revs)@,
        old(revs)@.len() > 0 && old(revs)@.last().pending is Some ==> (r is Ok && current_changed(old(revs)@, final(revs)@)
            && resolved(old(revs)@.last(), final(revs)@.last(), apply, by@, now, current@)),
{
    if revs.len() == 0 {
        return Err(no_question(slug));
    }
    if revs[revs.len() - 1].pending.is_none() {
        proof {
            reveal_strlit("no held answer");
        }
        return Err(copy_str("no held answer"));
    }
    let ghost r0 = revs@;
    let mut q = revs.pop().unwrap();
    let ghost q0 = q;
    let held = q.pending.take();
    if apply {
        q.answer = held;
        q.status = QstStatus::Answered;
        let mut pinned: Vec<Id> = Vec::new();
        let mut i: usize = 0;
        while i < q.affects.len()
            invariant
                i <= q.affects@.len(),
                q.affects == q0.affects,
                pinned@.len() == i,
                forall|j: int| 0 <= j < i ==> id_v(#[trigger] pinned@[j]) == (match (if j < current@.len() { current@[j] } else { None }) {
                    Some(c) => id_v(c),
                    None => id_v(q0.affects@[j]),
                }),
            decreases q.affects@.len() - i,
        {
            let id = if i < current.len() {
                match &current[i] {
                    Some(c) => c.dup(),
                    None => q.affects[i].dup(),
                }
            } else {
                q.affects[i].dup()
            };
            pinned.push(id);
            i += 1;
        }
        q.affects_revs = pinned;
        q.history.push(History::new_at(by, "answer", now).note(copy_str("applied after conflict review")));
        proof {
            reveal_strlit("applied after conflict review");
        }
    } else {
        q.history.push(History::new_at(by, "answer-discarded", now));
    }
    proof {
        assert(q.history@.drop_last() =~= q0.history@);
    }
    revs.push(q);
    proof {
        assert(revs@.drop_last() =~= r0.drop_last());
    }
    Ok(())
}

/// Withdraw the question `slug`.
pub fn withdraw_question(revs: &mut Vec<Question>, slug: &str, by: &str, now: i128) -> (r: Result<(), String>)
    ensures
        old(revs)@.len() == 0 ==> (r matches Err(m) && m@ == no_question_message(slug@) && final(revs)@ == old(revs)@),
        old(revs)@.len() > 0 ==> (r is Ok && current_changed(old(revs)@, final(revs)@)
            && qst_kept(final(revs)@.last(), old(revs)@.last())
            && final(revs)@.last().status == QstStatus::Withdrawn
            && final(revs)@.last().answer == old(revs)@.last().answer
            && final(revs)@.last().pending == old(revs)@.last().pending
            && final(revs)@.last().affects_revs == old(revs)@.last().affects_revs
            && logged(old(revs)@.last().history@, final(revs)@.last().history@, "withdraw"@, by@, now, None)),
{
    if revs.len() == 0 {
        return Err(no_question(slug));
    }
    let ghost r0 = revs@;
    let mut q = revs.pop().unwrap();
    let ghost q0 = q;
    q.status = QstStatus::Withdrawn;
    q.history.push(History::new_at(by, "withdraw", now));
    proof {
        assert(q.history@.drop_last() =~= q0.history@);
    }
    revs.push(q);
    proof {
        assert(revs@.drop_last() =~= r0.drop_last());
    }
    Ok(())
}

/// After a question is answered, note it on an affected requirement's current rev.
pub fn note_answered(revs: &mut Vec<ReqRev>, qid: &Id, reading: &str, by: &str, now: i128)
    ensures
        old(revs)@.len() == 0 ==> final(revs)@ == old(revs)@,
        old(revs)@.len() > 0 ==> current_changed(old(revs)@, final(revs)@)
            && req_kept(final(revs)@.last(), old(revs)@.last())
            && final(revs)@.last().anchors == old(revs)@.last().anchors
            && logged(old(revs)@.last().history@, final(revs)@.last().history@, "question-answered"@, by@, now,
                Some(qid.text() + " \u{2192} "@ + reading@)),
{
    if revs.len() == 0 {
        return;
    }
    let ghost r0 = revs@;
    let mut cur = revs.pop().unwrap();
    let ghost c0 = cur;
    let mut n = qid.to_string();
    push_str(&mut n, " \u{2192} ");
    push_str(&mut n, reading);
    proof {
        reveal_strlit(" \u{2192} ");
    }
    cur.history.push(History::new_at(by, "question-answered", now).note(n));
    proof {
        assert(cur.history@.drop_last() =~= c0.history@);
    }
    revs.push(cur);
    proof {
        assert(revs@.drop_last() =~= r0.drop_last());
    }
}

// ---------- closing a round ----------

/// The requirement is anchored in `doc` and has history from the round (opened at `opened`).
pub open spec fn touched(r: ReqRev, doc: Seq<char>, opened: i128) -> bool {
    &&& exists|i: int| 0 <= i < r.anchors@.len() && (#[trigger] r.anchors@[i]).doc@ == doc
    &&& exists|j: int| 0 <= j < r.history@.len() && (#[trigger] r.history@[j]).at >= opened
}

/// Where a touched requirement goes in the summary: retired (2), created in the round (0),
/// or changed (1).
pub open spec fn summary_kind(r: ReqRev, opened: i128) -> int {
    if r.status == Status::Retired {
        2
    } else if r.id.rev == 1 && r.history@.len() > 0 && r.history@[0].at >= opened {
        0
    } else {
        1
    }
}

/// The ids of the touched requirements of kind `k`, in order.
pub open spec fn summary_ids(reqs: Seq<ReqRev>, doc: Seq<char>, opened: i128, k: int) -> Seq<(Seq<char>, Seq<char>, u32)>
    decreases reqs.len(),
{
    if reqs.len() == 0 {
        Seq::empty()
    } else {
        let p = summary_ids(reqs.drop_last(), doc, opened, k);
        if touched(reqs.last(), doc, opened) && summary_kind(reqs.last(), opened) == k { p.push(id_v(reqs.last().id)) } else { p }
    }
}

fn is_touched(r: &ReqRev, doc: &str, opened: i128) -> (b: bool)
    ensures
        b == touched(*r, doc@, opened),
{
    let mut in_doc = false;
    let mut i: usize = 0;
    while i < r.anchors.len()
        invariant
            i <= r.anchors@.len(),
            in_doc == exists|j: int| 0 <= j < i && (#[trigger] r.anchors@[j]).doc@ == doc@,
        decreases r.anchors@.len() - i,
    {
        if crate::text::same(r.anchors[i].doc.as_str(), doc) {
            in_doc = true;
        }
        i += 1;
    }
    let mut recent = false;
    let mut j: usize = 0;
    while j < r.history.len()
        invariant
            j <= r.history@.len(),
            recent == exists|k: int| 0 <= k < j && (#[trigger] r.history@[k]).at >= opened,
        decreases r.history@.len() - j,
    {
        if r.history[j].at >= opened {
            recent = true;
        }
        j += 1;
    }
    in_doc && recent
}

/// How many verdicts of a pending reconciliation still need a decision (none when nothing is
/// pending).
pub open spec fn pending_count(pending: Option<Reconciliation>) -> nat {
    match pending {
        Some(p) => crate::reconcile::count_unconfirmed(p.verdicts@),
        None => 0,
    }
}

/// Close the open round of `doc` when every verdict of the reconciliation pending on it is
/// decided (`pending`: the pending reconciliation of `doc`, if any) and no span is left
/// unclassified (`residue`, from the document's coverage on the round's snapshot). The summary
/// lists the requirements anchored in `doc` that changed during the round (`reqs`: the current
/// rev of each): created, changed, retired.
pub fn close_round(open: Option<Round>, doc: &str, pending: &Option<Reconciliation>, residue: usize, reqs: &Vec<ReqRev>, now: i128) -> (r: Result<Round, String>)
    ensures
        open is None ==> (r matches Err(m) && m@ == "no open round for "@ + doc@),
        open is Some && pending_count(*pending) > 0 ==> (r matches Err(m) && m@ == "cannot close: "@ + decimal(pending_count(*pending))
            + " reconciliation verdict(s) still need confirmation"@),
        open is Some && pending_count(*pending) == 0 && residue > 0 ==> (r matches Err(m) && m@ == "cannot close: "@ + decimal(residue as nat) + " unclassified span(s) remain"@),
        open is Some && pending_count(*pending) == 0 && residue == 0 ==> (r matches Ok(round) && ({
            let o = open->Some_0;
            &&& round.doc == o.doc && round.n == o.n && round.snapshot == o.snapshot
            &&& round.context == o.context && round.opened == o.opened
            &&& round.closed == Some(now)
            &&& round.summary matches Some(sm)
                && ids_v(sm.created@) == summary_ids(reqs@, doc@, o.opened, 0)
                && ids_v(sm.changed@) == summary_ids(reqs@, doc@, o.opened, 1)
                && ids_v(sm.retired@) == summary_ids(reqs@, doc@, o.opened, 2)
                && sm.verdicts is None
        })),
{
    let mut round = match open {
        Some(o) => o,
        None => {
            let mut m = copy_str("no open round for ");
            push_str(&mut m, doc);
            proof {
                reveal_strlit("no open round for ");
            }
            return Err(m);
        },
    };
    let unconfirmed = match pending {
        Some(p) => p.unconfirmed(),
        None => 0,
    };
    if unconfirmed > 0 {
        let mut m = copy_str("cannot close: ");
        push_str(&mut m, crate::text::decimal_u64(unconfirmed as u64).as_str());
        push_str(&mut m, " reconciliation verdict(s) still need confirmation");
        proof {
            reveal_strlit("cannot close: ");
            reveal_strlit(" reconciliation verdict(s) still need confirmation");
        }
        return Err(m);
    }
    if residue > 0 {
        let mut m = copy_str("cannot close: ");
        push_str(&mut m, crate::text::decimal_u64(residue as u64).as_str());
        push_str(&mut m, " unclassified span(s) remain");
        proof {
            reveal_strlit("cannot close: ");
            reveal_strlit(" unclassified span(s) remain");
        }
        return Err(m);
    }
    let opened = round.opened;
    let mut created: Vec<Id> = Vec::new();
    let mut changed: Vec<Id> = Vec::new();
    let mut retired: Vec<Id> = Vec::new();
    let mut i: usize = 0;
    while i < reqs.len()
        invariant
            i <= reqs@.len(),
            ids_v(created@) == summary_ids(reqs@.take(i as int), doc@, opened, 0),
            ids_v(changed@) == summary_ids(reqs@.take(i as int), doc@, opened, 1),
            ids_v(retired@) == summary_ids(reqs@.take(i as int), doc@, opened, 2),
        decreases reqs@.len() - i,
    {
        let q = &reqs[i];
        proof {
            assert(reqs@.take(i as int + 1).drop_last() =~= reqs@.take(i as int));
            assert(reqs@.take(i as int + 1).last() == *q);
        }
        if is_touched(q, doc, opened) {
            let ghost c0 = created@;
            let ghost h0 = changed@;
            let ghost t0 = retired@;
            if q.status == Status::Retired {
                retired.push(q.id.dup());
                proof {
                    assert(ids_v(retired@) =~= ids_v(t0).push(id_v(q.id)));
                }
            } else if q.id.rev == 1 && q.history.len() > 0 && q.history[0].at >= opened {
                created.push(q.id.dup());
                proof {
                    assert(ids_v(created@) =~= ids_v(c0).push(id_v(q.id)));
                }
            } else {
                changed.push(q.id.dup());
                proof {
                    assert(ids_v(changed@) =~= ids_v(h0).push(id_v(q.id)));
                }
            }
        }
        i += 1;
    }
    proof {
        assert(reqs@.take(reqs@.len() as int) =~= reqs@);
    }
    round.closed = Some(now);
    round.summary = Some(RoundSummary { created, changed, retired, verdicts: None });
    Ok(round)
}

// ---------- deciding a verdict ----------

/// The first verdict on span `from`.
pub open spec fn verdict_index(vs: Seq<Verdict>, from: Seq<char>) -> Option<int>
    decreases vs.len(),
{
    if vs.len() == 0 {
        None
    } else {
        match verdict_index(vs.drop_last(), from) {
            Some(i) => Some(i),
            None => if vs.last().from@ == from { Some(vs.len() - 1) } else { None },
        }
    }
}

proof fn lemma_verdict_index_stays(vs: Seq<Verdict>, from: Seq<char>, k: int)
    requires
        0 < k <= vs.len(),
        verdict_index(vs.take(k), from) is Some,
    ensures
        verdict_index(vs, from) == verdict_index(vs.take(k), from),
    decreases vs.len() - k,
{
    if k < vs.len() {
        assert(vs.take(k + 1).drop_last() =~= vs.take(k));
        lemma_verdict_index_stays(vs, from, k + 1);
    } else {
        assert(vs.take(k) =~= vs);
    }
}

fn find_verdict(vs: &Vec<Verdict>, from: &str) -> (r: Option<usize>)
    ensures
        match r {
            Some(i) => i < vs@.len() && verdict_index(vs@, from@) == Some(i as int),
            None => verdict_index(vs@, from@) is None,
        },
{
    let mut i: usize = 0;
    while i < vs.len()
        invariant
            i <= vs@.len(),
            verdict_index(vs@.take(i as int), from@) is None,
        decreases vs@.len() - i,
    {
        proof {
            assert(vs@.take(i as int + 1).drop_last() =~= vs@.take(i as int));
        }
        if crate::text::same(vs[i].from.as_str(), from) {
            proof {
                assert(verdict_index(vs@.take(i as int + 1), from@) == Some(i as int));
                lemma_verdict_index_stays(vs@, from@, i as int + 1);
            }
            return Some(i);
        }
        i += 1;
    }
    proof {
        assert(vs@.take(vs@.len() as int) =~= vs@);
    }
    None
}

pub open spec fn missing_accept_message() -> Seq<char> {
    "cannot accept a missing span \u{2014} re-anchor, drop, or retire"@
}

/// Why the decision cannot be taken on verdict `v`, if it cannot.
pub open spec fn decision_refused(v: Verdict, d: Decision, new: Snapshot) -> Option<Seq<char>> {
    match d {
        Decision::Accept => if v.to is None { Some(missing_accept_message()) } else { None },
        Decision::MeaningChanged => if v.to is None { Some(missing_accept_message()) } else { None },
        Decision::Reanchor { span } => if !in_snapshot(new, span@) { Some("span "@ + span@ + " not in new snapshot"@) } else { None },
        Decision::Retire { reason } => if crate::blocks::trim_ws(reason@).len() == 0 { Some("retiring requires a reason"@) } else { None },
        Decision::Drop => None,
    }
}

/// `w` is verdict `v` with decision `d` recorded: re-anchoring points it at the chosen span
/// of the new snapshot (a missing span becomes reworded), a meaning change marks its kind.
pub open spec fn decided(v: Verdict, w: Verdict, d: Decision, new: Snapshot) -> bool {
    &&& w.from == v.from && w.from_text == v.from_text && w.reqs == v.reqs && w.questions == v.questions
    &&& w.non_normative == v.non_normative
    &&& w.decision == Some(d)
    &&& match d {
        Decision::Reanchor { span } => exists|i: int| 0 <= i < new.spans@.len() && (#[trigger] new.spans@[i]).id@ == span@
            && opt_v(w.to) == Some(span@) && opt_v(w.to_text) == Some(new.spans@[i].text@)
            && (w.similarity.num as nat, w.similarity.den as nat) == crate::reconcile::spec_similarity(v.from_text@, new.spans@[i].text@)
            && w.kind == (if v.kind == VerdictKind::Missing { VerdictKind::Reworded } else { v.kind }),
        Decision::MeaningChanged => w.to == v.to && w.to_text == v.to_text && w.similarity == v.similarity
            && w.kind == VerdictKind::MeaningChanged,
        _ => w.to == v.to && w.to_text == v.to_text && w.similarity == v.similarity && w.kind == v.kind,
    }
}

/// Record the decision on the verdict for span `from_span` of the pending reconciliation
/// (`new`: its new snapshot).
pub fn decide_verdict(r: &mut Reconciliation, new: &Snapshot, from_span: &str, decision: Decision) -> (res: Result<(), String>)
    ensures
        verdict_index(old(r).verdicts@, from_span@) is None ==> (res matches Err(m) && m@ == "no verdict for span "@ + from_span@),
        res is Err ==> *final(r) == *old(r),
        verdict_index(old(r).verdicts@, from_span@) matches Some(i) ==> ({
            let v = old(r).verdicts@[i];
            match decision_refused(v, decision, *new) {
                Some(msg) => res matches Err(m) && m@ == msg,
                None => res is Ok
                    && final(r).doc == old(r).doc && final(r).from == old(r).from && final(r).to == old(r).to
                    && final(r).added == old(r).added
                    && final(r).verdicts@ == old(r).verdicts@.update(i, final(r).verdicts@[i])
                    && decided(v, final(r).verdicts@[i], decision, *new),
            }
        }),
{
    let i = match find_verdict(&r.verdicts, from_span) {
        Some(i) => i,
        None => {
            let mut m = copy_str("no verdict for span ");
            push_str(&mut m, from_span);
            proof {
                reveal_strlit("no verdict for span ");
            }
            return Err(m);
        },
    };
    let ghost v0 = r.verdicts@[i as int];
    let mut found: Option<(String, String)> = None;
    match &decision {
        Decision::Accept | Decision::MeaningChanged => {
            if r.verdicts[i].to.is_none() {
                proof {
                    reveal_strlit("cannot accept a missing span \u{2014} re-anchor, drop, or retire");
                }
                return Err(copy_str("cannot accept a missing span \u{2014} re-anchor, drop, or retire"));
            }
        },
        Decision::Reanchor { span } => {
            match new.span(span.as_str()) {
                Some(sp) => {
                    found = Some((sp.id.clone(), sp.text.clone()));
                    proof {
                        let j = choose|j: int| 0 <= j < new.spans@.len() && new.spans@[j] == *sp && sp.id@ == span@;
                        assert(new.spans@[j].id@ == span@);
                        assert(in_snapshot(*new, span@));
                    }
                },
                None => {
                    let mut m = copy_str("span ");
                    push_str(&mut m, span.as_str());
                    push_str(&mut m, " not in new snapshot");
                    proof {
                        reveal_strlit("span ");
                        reveal_strlit(" not in new snapshot");
                    }
                    return Err(m);
                },
            }
        },
        Decision::Retire { reason } => {
            if crate::blocks::trim_chars(&crate::text::chars_of(reason.as_str())).len() == 0 {
                proof {
                    reveal_strlit("retiring requires a reason");
                }
                return Err(copy_str("retiring requires a reason"));
            }
        },
        Decision::Drop => {},
    }
    let ghost r0 = r.verdicts@;
    let mut v = r.verdicts.remove(i);
    match found {
        Some((id, text)) => {
            v.similarity = crate::reconcile::similarity(v.from_text.as_str(), text.as_str());
            v.to = Some(id);
            v.to_text = Some(text);
            if v.kind == VerdictKind::Missing {
                v.kind = VerdictKind::Reworded;
            }
        },
        None => {
            if let Decision::MeaningChanged = decision {
                v.kind = VerdictKind::MeaningChanged;
            }
        },
    }
    v.decision = Some(decision);
    r.verdicts.insert(i, v);
    proof {
        assert(r.verdicts@ =~= r0.update(i as int, r.verdicts@[i as int]));
    }
    Ok(())
}

// ---------- what reconciliation carries over ----------

/// The coverage status of span `id`: the last entry for it.
pub open spec fn status_for(spans: Seq<(String, SpanStatus)>, id: Seq<char>) -> Option<SpanStatus>
    decreases spans.len(),
{
    if spans.len() == 0 {
        None
    } else if spans.last().0@ == id {
        Some(spans.last().1)
    } else {
        status_for(spans.drop_last(), id)
    }
}

/// What the old classification of span `id` is: the requirements and questions anchored to
/// it and whether it is marked non-normative; nothing when none of these holds.
pub open spec fn classification_is(c: Option<Classification>, cov: DocCoverage, marks: Marks, id: Seq<char>) -> bool {
    match status_for(cov.spans@, id) {
        None => c is None,
        Some(st) => {
            let nn = marks.get_spec(id) is Some;
            if st.reqs@.len() == 0 && st.questions@.len() == 0 && !nn {
                c is None
            } else {
                c matches Some(x) && strings_v(x.0@) == strings_v(st.reqs@) && strings_v(x.1@) == strings_v(st.questions@) && x.2 == nn
            }
        },
    }
}

/// The classification of each span of the old snapshot (`cov`: its coverage, `marks`: its
/// marks), in snapshot order, as reconciliation takes it.
pub fn classifications(old: &Snapshot, cov: &DocCoverage, marks: &Marks) -> (r: Vec<Option<Classification>>)
    ensures
        r@.len() == old.spans@.len(),
        forall|i: int| 0 <= i < r@.len() ==> classification_is(#[trigger] r@[i], *cov, *marks, old.spans@[i].id@),
{
    let mut out: Vec<Option<Classification>> = Vec::new();
    let mut i: usize = 0;
    while i < old.spans.len()
        invariant
            i <= old.spans@.len(),
            out@.len() == i,
            forall|k: int| 0 <= k < i ==> classification_is(#[trigger] out@[k], *cov, *marks, old.spans@[k].id@),
        decreases old.spans@.len() - i,
    {
        let id = old.spans[i].id.as_str();
        let mut found: Option<usize> = None;
        let mut j: usize = cov.spans.len();
        proof {
            assert(cov.spans@.take(cov.spans@.len() as int) =~= cov.spans@);
        }
        while j > 0 && found.is_none()
            invariant
                j <= cov.spans@.len(),
                found is None ==> status_for(cov.spans@, id@) == status_for(cov.spans@.take(j as int), id@),
                found matches Some(f) ==> f < cov.spans@.len() && status_for(cov.spans@, id@) == Some(cov.spans@[f as int].1),
            decreases j, (if found is None { 1int } else { 0int }),
        {
            proof {
                assert(cov.spans@.take(j as int).drop_last() =~= cov.spans@.take(j as int - 1));
                assert(cov.spans@.take(j as int).last() == cov.spans@[j as int - 1]);
            }
            if crate::text::same(cov.spans[j - 1].0.as_str(), id) {
                found = Some(j - 1);
            } else {
                j -= 1;
            }
        }
        let c = match found {
            None => {
                proof {
                    assert(cov.spans@.take(0) =~= Seq::<(String, SpanStatus)>::empty());
                }
                None
            },
            Some(f) => {
                let st = &cov.spans[f].1;
                let nn = marks.get(id).is_some();
                if st.reqs.len() == 0 && st.questions.len() == 0 && !nn {
                    None
                } else {
                    Some((crate::text::copy_strings(&st.reqs), crate::text::copy_strings(&st.questions), nn))
                }
            },
        };
        out.push(c);
        i += 1;
    }
    out
}

} // verus!
