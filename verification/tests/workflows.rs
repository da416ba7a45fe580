use kansa_core::classify::{
    answer_question, attach_req, bump_req, check_spans, close_round, create_req, decide_verdict, detach_req, ensure_round,
    mark_non_normative, note_answered, resolve_held_answer, unmark, update_req, withdraw_question,
};
use kansa_core::coverage::{doc_coverage, repo_rollup, SpanState};
use kansa_core::groups::{assign_group, create_group, group_rollup, group_rollups, inventory, unassign_group, update_group};
use kansa_core::id::Id;
use kansa_core::model::{Context, Level, MarkKind, Marks, Pattern, QstStatus, ReqRev, Status};
use kansa_core::ops::{
    advances, change_step, confirm_reconciliation, doc_entries, doc_status, flag_question, supersede_round, ChangeStep, NewQuestion, NewReq, ReqPatch,
};
use kansa_core::reconcile::{reconcile, Classification, Decision, VerdictKind};
use kansa_core::segment::Block;
use kansa_core::snapshot::Snapshot;

const SAMPLE_HLD: &str = r#"# Intake Service — High-Level Design

## 1. Purpose

The intake service accepts applications from the public web form and the partner API. It validates them, assigns a case number, and hands them to the case-management queue. This document describes the intended behaviour; implementation details live in the ADRs.

## 2. Validation

All submissions shall be validated before a case number is issued. Validation is synchronous for the web form and asynchronous for the partner API (see §4).

- The email address shall match RFC 5322 and shall have a resolvable MX record.
- The ABN, when supplied, shall pass the ATO checksum. Invalid ABNs shall be rejected with error `ABN_INVALID`.
- Required fields are: applicant name, date of birth, email, and at least one contact number.
- Free-text fields shall be limited to 2,000 characters, e.g. the "circumstances" field.

Where the applicant is under 18, the system shall require a guardian's details. We expect this to be rare (approx. 2% of submissions).

### 2.1 Defaulting logic

When the preferred contact channel is omitted, the system shall default it to email. When both a mobile and a landline are supplied and no preference is stated, the system shall prefer mobile.

## 3. Lockout

While an applicant has failed identity verification 3 times within 24 hours, the system shall lock further attempts and shall notify the applicant through their verified channel. Locked accounts unlock automatically after 24 hours; support staff may unlock earlier.

| Event | Response | Owner |
|---|---|---|
| 3rd failed verification | Lock for 24 h | Platform |
| Manual unlock | Audit entry written | Support |

## 4. Partner API

The partner API is documented separately. Rate limits are per partner key: 100 requests/minute, burst 200. When a partner exceeds the limit, the API shall return HTTP 429 with `Retry-After`.

```json
{ "error": "RATE_LIMITED", "retryAfter": 30 }
```

Partners have asked whether limits could be raised for bulk migrations; this is under discussion. Is a per-partner override needed in v1? Unclear.

## 5. Non-goals

This design does not cover payment processing or document upload. Those are handled by the documents service and are out of scope here.
"#;

const DOC: &str = "docs/hld.md";

fn main_ctx() -> Context {
    Context::Branch { branch: "main".into() }
}

fn id(s: &str) -> Id {
    s.parse().unwrap()
}

fn new_req<'a>(statement: &'a str, slug: Option<&'a str>) -> NewReq<'a> {
    NewReq { statement, slug, pattern: Some(Pattern::Ubiquitous), rating: None, owner: None }
}

fn no_patch<'a>() -> ReqPatch<'a> {
    ReqPatch { statement: None, pattern: None, status: None, rating: None, owner: None, reason: None }
}

#[test]
fn register_track_status_export() {
    let ctx = main_ctx();
    // the repository holds docs/hld.md and README.md; docs/hld.md is tracked
    let docs = doc_entries(&vec![DOC.into(), "README.md".into()], &vec![DOC.into()]);
    assert_eq!(docs.len(), 2);
    assert!(docs.iter().any(|d| d.path == DOC && d.is_tracked));
    assert!(docs.iter().any(|d| d.path == "README.md" && !d.is_tracked));

    let snap = Snapshot::build(DOC, SAMPLE_HLD);
    assert!(snap.spans.len() > 20);
    let mut marks = Marks::empty();
    let cov = doc_coverage(&ctx, &snap, &vec![], &vec![], &marks, &Marks::empty());
    assert_eq!(cov.meter.classified, 0);
    assert!(cov.meter.total < snap.spans.len(), "headings/code are structural");
    assert!(doc_status(DOC, Some(snap.sha.clone()), Some(cov.meter.clone()), &vec![]).open_round.is_none());

    let first_para = snap.spans.iter().find(|s| s.block == Block::Para).unwrap().id.clone();
    let li = snap.spans.iter().find(|s| s.block == Block::Li).unwrap().id.clone();
    // the first mutation opens round 1
    let round = ensure_round(true, None, Some(snap.sha.clone()), None, &ctx, DOC, 1).unwrap();
    assert_eq!(round.n, 1);
    assert!(check_spans(&snap, DOC, &vec![first_para.clone()]).is_ok());
    mark_non_normative(&mut marks, &vec![first_para.clone()], "cj", 2);
    let req = create_req(DOC, &vec![li.clone()], &new_req("The email address shall match RFC 5322.", Some("email-format")), &vec![], "cj", 3).unwrap();
    assert_eq!(req.id.to_string(), "req~email-format~1");
    assert_eq!(req.status, Status::Extracted);
    assert_eq!(req.anchors.len(), 1);
    let mut revs = vec![req];
    let cov = doc_coverage(&ctx, &snap, &revs, &vec![], &marks, &Marks::empty());
    assert_eq!(cov.meter.classified, 2);
    assert_eq!(cov.meter.mapped, 1);
    let st = cov.spans.iter().find(|(i, _)| i == &li).unwrap();
    assert_eq!(st.1.reqs, vec!["req~email-format~1"]);

    // a bad span is rejected
    assert_eq!(
        check_spans(&snap, DOC, &vec!["s-nope".into()]).unwrap_err(),
        "span `s-nope` not in current snapshot of docs/hld.md"
    );
    // the round cannot close with residue
    let err = close_round(Some(round.clone()), DOC, &None, cov.meter.residue, &revs, 4).unwrap_err();
    assert!(err.starts_with("cannot close: "));

    // status
    let s = doc_status(DOC, Some(snap.sha.clone()), Some(cov.meter.clone()), &vec![round]);
    assert_eq!(s.open_round, Some(1));
    let roll = repo_rollup(&revs, &vec![], 0, true);
    assert_eq!(roll.reqs_by_status[3], ("extracted".to_string(), 1));

    // retiring requires a reason
    let retire = ReqPatch { status: Some(Status::Retired), ..no_patch() };
    assert!(update_req(&mut revs, "email-format", &retire, "cj", 5).is_err());
    let with_reason = ReqPatch { status: Some(Status::Retired), reason: Some("dup"), ..no_patch() };
    update_req(&mut revs, "email-format", &with_reason, "cj", 6).unwrap();
    assert_eq!(revs[0].status, Status::Retired);
    // retired anchors no longer count as mapped
    assert_eq!(doc_coverage(&ctx, &snap, &revs, &vec![], &marks, &Marks::empty()).meter.mapped, 0);

    // bumping keeps the prior rev
    bump_req(&mut revs, "email-format", "New meaning.", "cj", 7).unwrap();
    assert_eq!(revs.last().unwrap().id.rev, 2);
    assert_eq!(revs.len(), 2);
}

#[test]
fn full_pass_closes_round() {
    let ctx = main_ctx();
    let snap = Snapshot::build(DOC, SAMPLE_HLD);
    let mut marks = Marks::empty();
    let cov = doc_coverage(&ctx, &snap, &vec![], &vec![], &marks, &Marks::empty());
    let ids: Vec<String> = cov.spans.iter().filter(|(_, s)| !s.structural).map(|(i, _)| i.clone()).collect();
    let round = ensure_round(true, None, Some(snap.sha.clone()), None, &ctx, DOC, 10).unwrap();
    mark_non_normative(&mut marks, &ids, "cj", 11);
    let cov = doc_coverage(&ctx, &snap, &vec![], &vec![], &marks, &Marks::empty());
    assert_eq!(cov.meter.residue, 0);
    let closed = close_round(Some(round), DOC, &None, cov.meter.residue, &vec![], 12).unwrap();
    assert!(closed.closed.is_some());
    assert_eq!(closed.closed, Some(12));
    assert!(doc_status(DOC, Some(snap.sha.clone()), None, &vec![closed.clone()]).open_round.is_none());
    let summary = closed.summary.unwrap();
    assert!(summary.created.is_empty() && summary.changed.is_empty() && summary.retired.is_empty());
    // the next mutation opens round 2
    unmark(&mut marks, &vec![ids[0].clone()]);
    assert!(marks.get(&ids[0]).is_none());
    let again = ensure_round(true, None, Some(snap.sha.clone()), Some(closed.n), &ctx, DOC, 13).unwrap();
    assert_eq!(again.n, 2);
    mark_non_normative(&mut marks, &vec![ids[0].clone()], "cj", 13);
    assert_eq!(marks.get(&ids[0]).unwrap().kind, MarkKind::NonNormative);
}

#[test]
fn round_refusals() {
    let ctx = main_ctx();
    assert_eq!(
        ensure_round(false, None, None, None, &ctx, DOC, 0).unwrap_err(),
        "docs/hld.md is not tracked \u{2014} track it first to classify"
    );
    assert_eq!(ensure_round(true, None, None, None, &ctx, DOC, 0).unwrap_err(), "docs/hld.md has no current snapshot");
    assert_eq!(close_round(None, DOC, &None, 0, &vec![], 0).unwrap_err(), "no open round for docs/hld.md");
    let open = ensure_round(true, None, Some("abc".into()), Some(4), &ctx, DOC, 7).unwrap();
    assert_eq!(open.n, 5);
    assert_eq!(close_round(Some(open), DOC, &None, 3, &vec![], 8).unwrap_err(), "cannot close: 3 unclassified span(s) remain");
}

#[test]
fn close_round_summarises_the_round() {
    let ctx = main_ctx();
    let round = ensure_round(true, None, Some("abc".into()), None, &ctx, DOC, 100).unwrap();
    let created = create_req(DOC, &vec!["s-1".into()], &new_req("A.", Some("a")), &vec![], "cj", 150).unwrap();
    let mut older = create_req(DOC, &vec!["s-2".into()], &new_req("B.", Some("b")), &vec![], "cj", 50).unwrap();
    older.history.push(kansa_core::model::History::new_at("cj", "update", 160));
    let mut retired = create_req(DOC, &vec!["s-3".into()], &new_req("C.", Some("c")), &vec![], "cj", 150).unwrap();
    retired.status = Status::Retired;
    let elsewhere = create_req("other.md", &vec!["s-4".into()], &new_req("D.", Some("d")), &vec![], "cj", 150).unwrap();
    let untouched = create_req(DOC, &vec!["s-5".into()], &new_req("E.", Some("e")), &vec![], "cj", 20).unwrap();
    let r = close_round(Some(round), DOC, &None, 0, &vec![created, older, retired, elsewhere, untouched], 200).unwrap();
    let s = r.summary.unwrap();
    let names = |v: &Vec<Id>| v.iter().map(|i| i.to_string()).collect::<Vec<_>>();
    assert_eq!(names(&s.created), vec!["req~a~1"]);
    assert_eq!(names(&s.changed), vec!["req~b~1"]);
    assert_eq!(names(&s.retired), vec!["req~c~1"]);
}

#[test]
fn requirement_lifecycle() {
    let mut revs = vec![create_req(DOC, &vec!["s-1".into()], &new_req("The email address shall match RFC 5322.", Some("email-format")), &vec![], "cj", 1).unwrap()];
    // attaching is idempotent
    attach_req(&mut revs, "email-format", DOC, &vec!["s-2".into(), "s-1".into()], "cj", 2).unwrap();
    let once = revs[0].anchors.iter().map(|a| a.span.clone()).collect::<Vec<_>>();
    attach_req(&mut revs, "email-format", DOC, &vec!["s-2".into(), "s-1".into()], "cj", 3).unwrap();
    let twice = revs[0].anchors.iter().map(|a| a.span.clone()).collect::<Vec<_>>();
    assert_eq!(once, vec!["s-1", "s-2"]);
    assert_eq!(once, twice);
    assert_eq!(revs[0].history.last().unwrap().op, "anchor");
    detach_req(&mut revs, "email-format", DOC, &vec!["s-2".into()], "cj", 4).unwrap();
    assert_eq!(revs[0].anchors.iter().map(|a| a.span.clone()).collect::<Vec<_>>(), vec!["s-1"]);
    assert_eq!(revs[0].history.last().unwrap().op, "unanchor");

    // retiring requires a reason
    let retire = ReqPatch { status: Some(Status::Retired), ..no_patch() };
    assert_eq!(update_req(&mut revs, "email-format", &retire, "cj", 5).unwrap_err(), "retiring requires a non-empty reason");
    let blank = ReqPatch { status: Some(Status::Retired), reason: Some("  "), ..no_patch() };
    assert!(update_req(&mut revs, "email-format", &blank, "cj", 5).is_err());
    assert_eq!(revs[0].status, Status::Extracted);
    revs[0].suspect = Some("source changed".into());
    let with_reason = ReqPatch { status: Some(Status::Retired), reason: Some("dup"), ..no_patch() };
    update_req(&mut revs, "email-format", &with_reason, "cj", 6).unwrap();
    assert_eq!(revs[0].status, Status::Retired);
    assert_eq!(revs[0].reason.as_deref(), Some("dup"));
    assert_eq!(revs[0].suspect, None);
    assert_eq!(revs[0].history.last().unwrap().op, "status");
    // an edit with no change is an update
    update_req(&mut revs, "email-format", &no_patch(), "cj", 7).unwrap();
    assert_eq!(revs[0].history.last().unwrap().op, "update");
    let reword = ReqPatch { statement: Some("Email shall be valid."), ..no_patch() };
    update_req(&mut revs, "email-format", &reword, "cj", 8).unwrap();
    assert_eq!(revs[0].history.last().unwrap().op, "statement");

    // bumping keeps the prior rev
    bump_req(&mut revs, "email-format", "New meaning.", "cj", 9).unwrap();
    assert_eq!(revs.len(), 2);
    assert_eq!(revs[1].id.rev, 2);
    assert_eq!(revs[1].statement, "New meaning.");
    assert_eq!(revs[0].statement, "Email shall be valid.");
    assert_eq!(revs[1].history.len(), 1);
    assert_eq!(revs[1].history[0].op, "rev");

    let mut none: Vec<ReqRev> = vec![];
    assert_eq!(bump_req(&mut none, "zz", "x", "cj", 0).unwrap_err(), "no requirement `zz`");
    assert_eq!(attach_req(&mut none, "zz", DOC, &vec![], "cj", 0).unwrap_err(), "no requirement `zz`");
}

#[test]
fn create_req_slugs() {
    let r = create_req(DOC, &vec![], &new_req("When a user fails login 5 times!", None), &vec![], "cj", 0).unwrap();
    assert_eq!(r.id.slug, "fails-login-5-times");
    let r2 = create_req(DOC, &vec![], &new_req("When a user fails login 5 times!", None), &vec!["fails-login-5-times".into()], "cj", 0).unwrap();
    assert_eq!(r2.id.slug, "fails-login-5-times-2");
    assert_eq!(create_req(DOC, &vec![], &new_req("x", Some("Bad Slug")), &vec![], "cj", 0).unwrap_err(), "invalid slug `Bad Slug`");
}

fn question(span: &str, affects: Vec<Id>, current: &Vec<Option<Id>>) -> kansa_core::model::Question {
    flag_question(
        DOC,
        &vec![span.to_string()],
        &NewQuestion {
            quote: "Is a per-partner override needed in v1?",
            materiality: Level::M,
            readings: vec![("a".into(), "yes".into()), ("b".into(), "no".into())],
            default: Some("b".into()),
            affects,
            slug: None,
        },
        &vec![],
        current,
        "cj",
        1,
    )
    .unwrap()
}

#[test]
fn question_flow() {
    let ctx = main_ctx();
    let snap = Snapshot::build(DOC, SAMPLE_HLD);
    let span = snap.spans.iter().find(|s| s.text.starts_with("Is a per-partner")).unwrap().id.clone();
    let q = question(&span, vec![], &vec![]);
    assert_eq!(q.id.ty, "qst");
    assert!(q.readings[1].default);
    let cov = doc_coverage(&ctx, &snap, &vec![], &vec![q], &Marks::empty(), &Marks::empty());
    assert_eq!(cov.meter.questioned, 1);
    assert_eq!(cov.meter.open_questions, 1);
}

#[test]
fn question_answer_held_on_conflict() {
    let rate = id("req~rate-limit~1");
    let mut revs = vec![question("s-1", vec![rate.clone()], &vec![Some(rate.clone())])];
    // unknown reading
    assert_eq!(answer_question(&mut revs, "q", "c", None, "cj", 2, &vec![Some(1)]).unwrap_err(), "unknown reading `c`");
    // the requirement moved to rev 2 since: the answer is held
    answer_question(&mut revs, "q", "a", Some("per minute"), "cj", 3, &vec![Some(2)]).unwrap();
    let q = &revs[0];
    assert_eq!(q.status, QstStatus::Open);
    assert!(q.answer.is_none());
    assert_eq!(q.pending.as_ref().unwrap().reading, "a");
    assert_eq!(q.history.last().unwrap().op, "answer-held");
    assert_eq!(q.history.last().unwrap().note.as_deref(), Some("rate-limit is now rev 2 (was 1)"));
    // applied after review: re-pinned to the current rev
    resolve_held_answer(&mut revs, "q", true, "cj", 4, &vec![Some(id("req~rate-limit~2"))]).unwrap();
    let q = &revs[0];
    assert_eq!(q.status, QstStatus::Answered);
    assert_eq!(q.answer.as_ref().unwrap().note.as_deref(), Some("per minute"));
    assert_eq!(q.affects_revs[0].rev, 2);
    assert_eq!(resolve_held_answer(&mut revs, "q", true, "cj", 5, &vec![]).unwrap_err(), "no held answer");
    assert_eq!(answer_question(&mut revs, "q", "a", None, "cj", 6, &vec![]).unwrap_err(), "question is Answered");
}

#[test]
fn question_answered_without_conflict_notes_requirements() {
    let rate = id("req~rate-limit~1");
    let mut revs = vec![question("s-1", vec![rate.clone()], &vec![Some(rate.clone())])];
    answer_question(&mut revs, "q", "b", Some("   "), "cj", 2, &vec![Some(1)]).unwrap();
    let q = revs[0].clone();
    assert_eq!(q.status, QstStatus::Answered);
    assert_eq!(q.answer.as_ref().unwrap().note, None);
    assert_eq!(q.history.last().unwrap().note.as_deref(), Some("b"));
    let mut req = vec![create_req(DOC, &vec![], &new_req("Rate limits shall be per partner key.", Some("rate-limit")), &vec![], "cj", 0).unwrap()];
    note_answered(&mut req, &q.id, "b", "cj", 3);
    assert_eq!(req[0].history.last().unwrap().note.as_deref(), Some(format!("{} \u{2192} b", q.id.to_string()).as_str()));
    // a requirement that no longer exists holds the answer too
    let mut revs = vec![question("s-1", vec![rate.clone()], &vec![Some(rate.clone())])];
    answer_question(&mut revs, "q", "a", None, "cj", 2, &vec![None]).unwrap();
    assert_eq!(revs[0].history.last().unwrap().note.as_deref(), Some("rate-limit no longer exists"));
    resolve_held_answer(&mut revs, "q", false, "cj", 3, &vec![None]).unwrap();
    assert!(revs[0].pending.is_none());
    assert_eq!(revs[0].status, QstStatus::Open);
    withdraw_question(&mut revs, "q", "cj", 4).unwrap();
    assert_eq!(revs[0].status, QstStatus::Withdrawn);
}

#[test]
fn groups_roundtrip() {
    let g = create_group("  Validation ", Some("input rules"), &vec![], "cj", 1).unwrap();
    assert_eq!(g.id.to_string(), "grp~validation~1");
    assert_eq!(g.title, "Validation");
    let g2 = create_group("Validation", None, &vec!["validation".into()], "cj", 1).unwrap();
    assert_eq!(g2.id.slug, "validation-2");
    assert_eq!(create_group("   ", None, &vec![], "cj", 1).unwrap_err(), "group title is required");

    let mut revs = vec![g];
    let email = id("req~email-format~1");
    assign_group(&mut revs, "validation", &vec!["email-format".into()], &vec![Some(email.clone())], "cj", 2).unwrap();
    assert_eq!(revs[0].members, vec![email.clone()]);
    let n = revs[0].history.len();
    // idempotent: nothing changes, nothing is recorded
    assign_group(&mut revs, "validation", &vec!["email-format".into()], &vec![Some(email.clone())], "cj", 3).unwrap();
    assert_eq!(revs[0].members, vec![email.clone()]);
    assert_eq!(revs[0].history.len(), n);
    // a member moves to the requirement's current rev
    assign_group(&mut revs, "validation", &vec!["email-format".into()], &vec![Some(id("req~email-format~2"))], "cj", 4).unwrap();
    assert_eq!(revs[0].members, vec![id("req~email-format~2")]);
    assert_eq!(assign_group(&mut revs, "validation", &vec!["nope".into()], &vec![None], "cj", 5).unwrap_err(), "no requirement `nope`");

    update_group(&mut revs, "validation", Some("  "), Some(Some(" checks ")), "cj", 6).unwrap();
    assert_eq!(revs[0].title, "Validation");
    assert_eq!(revs[0].description.as_deref(), Some("checks"));

    unassign_group(&mut revs, "validation", &vec!["email-format".into()], "cj", 7).unwrap();
    assert!(revs[0].members.is_empty());
    assert_eq!(revs[0].history.last().unwrap().op, "members");
    let mut none = vec![];
    assert_eq!(unassign_group(&mut none, "gone", &vec![], "cj", 0).unwrap_err(), "no group `gone`");
}

#[test]
fn rollups_and_inventory() {
    let a = create_req(DOC, &vec!["s-1".into(), "s-2".into()], &new_req("A.", Some("a")), &vec![], "cj", 0).unwrap();
    let mut b = create_req("z.md", &vec!["s-3".into()], &new_req("B.", Some("b")), &vec![], "cj", 0).unwrap();
    b.status = Status::Retired;
    let mut g1 = create_group("zeta", None, &vec![], "cj", 0).unwrap();
    g1.members = vec![id("req~a~1"), id("req~b~1"), id("req~gone~1")];
    let mut g2 = create_group("Alpha", None, &vec![], "cj", 0).unwrap();
    g2.members = vec![id("req~a~2")];
    let q = question("s-1", vec![id("req~a~1")], &vec![Some(id("req~a~1"))]);
    let reqs = vec![b.clone(), a.clone()];
    let qsts = vec![q];
    let one = group_rollup(g1.clone(), &reqs, &qsts);
    assert_eq!(one.members_by_status, vec![("extracted".to_string(), 1), ("retired".to_string(), 1)]);
    assert_eq!(one.open_questions, 1);
    assert_eq!(one.anchors, 3);
    let kinds: Vec<String> = one.findings.iter().map(|f| f.kind.clone()).collect();
    assert_eq!(kinds, vec!["retired", "missing"]);
    let all = group_rollups(vec![g1.clone(), g2.clone()], &reqs, &qsts);
    assert_eq!(all[0].group.title, "Alpha");
    assert_eq!(all[0].findings[0].kind, "stale-rev");
    assert_eq!(all[1].group.title, "zeta");

    let rows = inventory(reqs, &vec![g1, g2], &qsts);
    assert_eq!(rows[0].req.id.slug, "a");
    assert_eq!(rows[0].groups, vec!["Alpha".to_string(), "zeta".to_string()]);
    assert_eq!(rows[0].docs, vec![DOC.to_string()]);
    assert_eq!(rows[0].open_questions, 1);
    assert_eq!(rows[1].req.id.slug, "b");
    assert_eq!(rows[1].docs, vec!["z.md".to_string()]);
}

#[test]
fn edit_upstream_then_reconcile() {
    let ctx = main_ctx();
    let old = Snapshot::build(DOC, SAMPLE_HLD);
    let span_of = |s: &Snapshot, p: &str| s.spans.iter().find(|x| x.text.starts_with(p)).unwrap().id.clone();
    let email = span_of(&old, "The email address shall match");
    let abn = span_of(&old, "The ABN, when supplied");
    let guardian = span_of(&old, "Where the applicant is under 18");
    let intro = span_of(&old, "The intake service accepts");
    let mut round = ensure_round(true, None, Some(old.sha.clone()), None, &ctx, DOC, 1).unwrap();
    let mut reqs = vec![];
    for (sp, st, slug) in [(&email, "Email shall match RFC 5322.", "email-format"), (&abn, "ABN shall pass checksum.", "abn-checksum"), (&guardian, "Minors need a guardian.", "guardian")] {
        reqs.push(create_req(DOC, &vec![sp.clone()], &new_req(st, Some(slug)), &vec![], "cj", 1).unwrap());
    }
    let mut marks = Marks::empty();
    mark_non_normative(&mut marks, &vec![intro.clone()], "cj", 1);

    // edit upstream: reword the email rule, delete the guardian rule, keep ABN, add a sentence
    let edited = SAMPLE_HLD
        .replace(
            "The email address shall match RFC 5322 and shall have a resolvable MX record.",
            "The email address shall match RFC 5322 and must have a resolvable MX record.",
        )
        .replace("Where the applicant is under 18, the system shall require a guardian's details. ", "")
        .replace("## 5. Non-goals", "A brand new paragraph appears here.\n\n## 5. Non-goals");
    assert_ne!(SAMPLE_HLD, edited);
    let new = Snapshot::build(DOC, &edited);

    // the refresh sees a new blob; a classified doc does not advance
    assert_eq!(change_step(Some(&old.sha), Some(&new.sha), None), ChangeStep::Snapshot);
    let cov = doc_coverage(&ctx, &old, &reqs, &vec![], &marks, &Marks::empty());
    assert_eq!(cov.meter.classified, 4);
    assert!(!advances(Some(&old.sha), cov.meter.classified), "classified doc must not auto-advance");
    let classified: Vec<Option<Classification>> = kansa_core::classify::classifications(&old, &cov, &marks);
    let mut r = reconcile(DOC, &old, &new, &classified);
    let kind = |r: &kansa_core::reconcile::Reconciliation, sp: &str| r.verdicts.iter().find(|v| v.from == sp).unwrap().kind;
    assert_eq!(kind(&r, &email), VerdictKind::Reworded);
    assert_eq!(kind(&r, &abn), VerdictKind::Unchanged);
    assert_eq!(kind(&r, &guardian), VerdictKind::Missing);
    assert_eq!(kind(&r, &intro), VerdictKind::Unchanged);
    assert!(r.verdicts.iter().find(|v| v.from == email).unwrap().to_text.as_deref().unwrap().contains("must have a resolvable"));
    assert_eq!(r.added.len(), 1);
    assert!(new.span(&r.added[0]).unwrap().text.starts_with("A brand new"));
    assert_eq!(r.unconfirmed(), 2);

    // the round cannot close while the reconciliation is pending, even with no residue
    assert!(close_round(Some(round.clone()), DOC, &Some(r.clone()), cov.meter.residue, &reqs, 2).is_err());
    assert_eq!(
        close_round(Some(round.clone()), DOC, &Some(r.clone()), 0, &reqs, 2).unwrap_err(),
        "cannot close: 2 reconciliation verdict(s) still need confirmation"
    );
    // confirming fails until every verdict is decided
    let mut store: Vec<(String, Vec<ReqRev>)> = reqs.iter().map(|q| (q.id.slug.clone(), vec![q.clone()])).collect();
    let mut qstore = vec![];
    assert_eq!(
        confirm_reconciliation(&r, DOC, "cj", 3, &marks, &mut store, &mut qstore).unwrap_err(),
        "2 verdict(s) still need a decision"
    );
    // a missing span cannot be accepted
    assert_eq!(
        decide_verdict(&mut r, &new, &guardian, Decision::Accept).unwrap_err(),
        "cannot accept a missing span \u{2014} re-anchor, drop, or retire"
    );
    assert_eq!(decide_verdict(&mut r, &new, &guardian, Decision::Retire { reason: " ".into() }).unwrap_err(), "retiring requires a reason");
    assert_eq!(decide_verdict(&mut r, &new, "s-nope", Decision::Drop).unwrap_err(), "no verdict for span s-nope");
    assert_eq!(decide_verdict(&mut r, &new, &email, Decision::Reanchor { span: "s-nope".into() }).unwrap_err(), "span s-nope not in new snapshot");

    decide_verdict(&mut r, &new, &email, Decision::MeaningChanged).unwrap();
    assert_eq!(kind(&r, &email), VerdictKind::MeaningChanged);
    decide_verdict(&mut r, &new, &guardian, Decision::Retire { reason: "removed from HLD".into() }).unwrap();
    let moved = confirm_reconciliation(&r, DOC, "cj", 4, &marks, &mut store, &mut qstore).unwrap();
    assert_eq!(r.unconfirmed(), 0);
    assert!(close_round(Some(round.clone()), DOC, &Some(r.clone()), 0, &reqs, 4).is_ok());

    // after: the old round is closed by supersede, anchors remapped, the mark migrated, guardian retired
    assert_ne!(new.sha, old.sha);
    supersede_round(&mut round, &r, 5);
    assert!(round.closed.is_some(), "old round closed by supersede");
    assert!(round.summary.as_ref().unwrap().verdicts.is_some());
    assert_eq!(round.summary.as_ref().unwrap().retired, vec![id("req~guardian~1")]);
    let current = |slug: &str| store.iter().find(|(s, _)| s == slug).unwrap().1.last().unwrap().clone();
    let email_req = current("email-format");
    assert!(email_req.suspect.is_some());
    let new_email_span = new.spans.iter().find(|s| s.text.contains("must have a resolvable")).unwrap();
    assert_eq!(email_req.anchors[0].span, new_email_span.id);
    assert_eq!(current("guardian").status, Status::Retired);
    let reqs_now: Vec<ReqRev> = store.iter().map(|(_, v)| v.last().unwrap().clone()).collect();
    let cov = doc_coverage(&ctx, &new, &reqs_now, &vec![], &moved, &Marks::empty());
    let st = |t: &str| cov.spans.iter().find(|(i, _)| new.span(i).unwrap().text.starts_with(t)).unwrap().1.state;
    assert_eq!(st("The intake service accepts"), SpanState::NonNormative);
    assert_eq!(st("The email address shall match"), SpanState::Mapped);
    assert_eq!(st("A brand new paragraph"), SpanState::Unclassified);

    // the suspect flag clears on edit
    let mut revs = store.iter().find(|(s, _)| s == "email-format").unwrap().1.clone();
    let edit = ReqPatch { statement: Some("Email must match RFC 5322."), ..no_patch() };
    update_req(&mut revs, "email-format", &edit, "cj", 6).unwrap();
    assert!(revs.last().unwrap().suspect.is_none());
}

#[test]
fn question_answer_and_conflict() {
    let snap = Snapshot::build(DOC, SAMPLE_HLD);
    let span = snap.spans.iter().find(|s| s.text.starts_with("Rate limits are per partner")).unwrap().id.clone();
    let req = create_req(DOC, &vec![span.clone()], &new_req("Rate limits shall be per partner key.", Some("rate-limit")), &vec![], "cj", 1).unwrap();
    let q = flag_question(
        DOC,
        &vec![span.clone()],
        &NewQuestion {
            quote: "burst 200",
            materiality: Level::H,
            readings: vec![("a".into(), "per minute".into()), ("b".into(), "per second".into())],
            default: Some("a".into()),
            affects: vec![Id::new("req", "rate-limit", 1).unwrap()],
            slug: Some("burst-unit"),
        },
        &vec![],
        &vec![Some(req.id.clone())],
        "cj",
        2,
    )
    .unwrap();
    assert_eq!(q.affects_revs[0].rev, 1);
    // bumping the requirement makes the answer conflict
    let mut req_revs = vec![req];
    bump_req(&mut req_revs, "rate-limit", "Rate limits shall be per partner key, burst 200/min.", "cj", 3).unwrap();
    let cur = req_revs.last().unwrap().id.clone();
    let mut revs = vec![q];
    answer_question(&mut revs, "burst-unit", "a", None, "cj", 4, &vec![Some(cur.rev)]).unwrap();
    let held = revs.last().unwrap();
    assert_eq!(held.status, QstStatus::Open);
    assert!(held.pending.is_some());
    resolve_held_answer(&mut revs, "burst-unit", true, "cj", 5, &vec![Some(cur)]).unwrap();
    let applied = revs.last().unwrap().clone();
    assert_eq!(applied.status, QstStatus::Answered);
    assert_eq!(applied.answer.unwrap().reading, "a");

    // the no-conflict path
    let q2 = flag_question(
        DOC,
        &vec![span],
        &NewQuestion { quote: "x", materiality: Level::L, readings: vec![], default: None, affects: vec![], slug: Some("plain") },
        &vec!["burst-unit".into()],
        &vec![],
        "cj",
        6,
    )
    .unwrap();
    let mut plain = vec![q2.clone()];
    answer_question(&mut plain, "plain", "free-text", Some("whatever"), "cj", 7, &vec![]).unwrap();
    assert_eq!(plain.last().unwrap().status, QstStatus::Answered);
    assert!(answer_question(&mut plain, "plain", "a", None, "cj", 8, &vec![]).is_err());
    let w = withdraw_question(&mut plain, &q2.id.slug, "cj", 9);
    assert!(w.is_ok());
}

#[test]
fn question_id_is_checked_before_affected_requirements() {
    let new = NewQuestion {
        quote: "x",
        materiality: Level::L,
        readings: vec![],
        default: None,
        affects: vec![id("req~gone~1")],
        slug: Some("Bad Slug"),
    };
    assert_eq!(
        flag_question(DOC, &vec!["s-1".into()], &new, &vec![], &vec![None], "cj", 1).unwrap_err(),
        "id `qst~Bad Slug~1`: bad slug (want [a-z0-9]+(-[a-z0-9]+)*)"
    );
    let ok_slug = NewQuestion { slug: Some("fine"), ..new };
    assert_eq!(flag_question(DOC, &vec!["s-1".into()], &ok_slug, &vec![], &vec![None], "cj", 1).unwrap_err(), "no requirement `gone`");
    let q = question("s-1", vec![], &vec![]);
    assert!(q.history[0].accepted_by.is_none() && q.history[0].from.is_none() && q.history[0].to.is_none());
    let r = create_req(DOC, &vec!["s-1".into()], &new_req("A.", Some("a")), &vec![], "cj", 0).unwrap();
    assert!(r.history[0].accepted_by.is_none() && r.history[0].from.is_none() && r.history[0].to.is_none());
}
