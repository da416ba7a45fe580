use kansa_core::agent::{
    existing_reqs, prefill_refusal, prefill_start, run_prefill, unclassified_prose, Job, JobState, PrefillEvent, Proposal, ProposalStatus,
    Proposals, Proposed,
};
use kansa_core::classify::{classifications, create_req, decide_verdict, ensure_round};
use kansa_core::coverage::{doc_coverage, repo_rollup, SpanState};
use kansa_core::id::Id;
use kansa_core::model::{doc_key, Context, Level, Marks, QstStatus, RepoConfig, RepoKind, Status, TrackedDoc};
use kansa_core::ops::{
    accept_proposal, advances, agent_mark_by, attribute, change_step, clear_proposals, confirm_reconciliation, doc_entries, doc_status,
    find_group_by_title, list_registered, local_slug, next_free_slug, pending_proposal_ids, pr_doc_list, pr_markdown, record_acceptance,
    reject_proposal, supersede_round, ChangeStep, NewReq, ProposalAction,
};
use kansa_core::reconcile::{reconcile, Decision, VerdictKind};
use kansa_core::repo::{gh, require_gh};
use kansa_core::snapshot::{content_hash, Snapshot};

fn main_ctx() -> Context {
    Context::Branch { branch: "main".into() }
}

fn req_new<'a>(statement: &'a str, slug: &'a str) -> NewReq<'a> {
    NewReq { statement, slug: Some(slug), pattern: None, rating: None, owner: None }
}

#[test]
fn confirm_moves_anchors_marks_and_closes_round() {
    let ctx = main_ctx();
    let old = Snapshot::build("d.md", "# T\n\nThe system shall lock after 3 failures. Users get an email.\n");
    let new = Snapshot::build("d.md", "# T\n\nThe system shall lock after 5 failures. Users get an email.\n");
    let lock = old.spans[1].id.clone();
    let email = old.spans[2].id.clone();
    let req = create_req("d.md", &vec![lock.clone()], &req_new("Lock after 3.", "lock"), &vec![], "cj", 1).unwrap();
    let mut marks = Marks::empty();
    kansa_core::classify::mark_non_normative(&mut marks, &vec![email.clone()], "cj", 2);
    let cov = doc_coverage(&ctx, &old, &vec![req.clone()], &vec![], &marks, &Marks::empty());
    let cls = classifications(&old, &cov, &marks);
    let mut r = reconcile("d.md", &old, &new, &cls);
    assert_eq!(r.unconfirmed(), 1);
    let mut reqs = vec![("lock".to_string(), vec![req])];
    let mut qsts = vec![];
    assert_eq!(
        confirm_reconciliation(&r, "d.md", "cj", 3, &marks, &mut reqs, &mut qsts).unwrap_err(),
        "1 verdict(s) still need a decision"
    );
    decide_verdict(&mut r, &new, &lock, Decision::MeaningChanged).unwrap();
    let moved = confirm_reconciliation(&r, "d.md", "cj", 3, &marks, &mut reqs, &mut qsts).unwrap();
    let cur = reqs[0].1.last().unwrap();
    assert_eq!(cur.anchors.len(), 1);
    assert_eq!(cur.anchors[0].span, new.spans[1].id);
    assert!(cur.suspect.as_deref().unwrap().starts_with("source changed meaning in "));
    assert_eq!(cur.history.last().unwrap().op, "meaning-changed");
    match (&cur.history.last().unwrap().from, &cur.history.last().unwrap().to) {
        (Some(kansa_core::model::HistoryValue::Anchors(a)), Some(kansa_core::model::HistoryValue::Anchors(b))) => {
            assert_eq!(a[0].span, lock);
            assert_eq!(b[0].span, new.spans[1].id);
        }
        _ => panic!("the entry records the anchors before and after"),
    }
    assert!(moved.get(&email).is_some());
    assert!(moved.get(&lock).is_none());

    let mut round = ensure_round(true, None, Some(old.sha.clone()), None, &ctx, "d.md", 0).unwrap();
    supersede_round(&mut round, &r, 9);
    assert_eq!(round.closed, Some(9));
    let counts = round.summary.unwrap().verdicts.unwrap();
    assert!(counts.contains(&("meaningchanged".to_string(), 1)));
    assert!(counts.contains(&("unchanged".to_string(), 1)));
    let kinds: Vec<VerdictKind> = r.counts().into_iter().map(|(k, _)| k).collect();
    assert_eq!(kinds.len(), 2);
}

#[test]
fn coverage_and_rollup_count_every_requirement() {
    let ctx = main_ctx();
    let snap = Snapshot::build("d.md", "# T\n\nOne. Two. Three.\n");
    let a = create_req("d.md", &vec![snap.spans[1].id.clone()], &req_new("A.", "a"), &vec![], "cj", 0).unwrap();
    let mut b = create_req("d.md", &vec![snap.spans[2].id.clone()], &req_new("B.", "b"), &vec![], "cj", 0).unwrap();
    b.status = Status::Confirmed;
    let cov = doc_coverage(&ctx, &snap, &vec![a.clone(), b.clone()], &vec![], &Marks::empty(), &Marks::empty());
    assert_eq!(cov.meter.total, 3);
    assert_eq!(cov.meter.mapped, 2);
    assert_eq!(cov.meter.classified + cov.meter.residue, cov.meter.total);
    assert_eq!(cov.spans[0].1.state, SpanState::Unclassified);
    assert!(cov.spans[0].1.structural);
    let roll = repo_rollup(&vec![a, b], &vec![], 3, true);
    assert_eq!(roll.reqs_by_status.len(), 5);
    assert_eq!(roll.reqs_by_status.iter().map(|(_, n)| n).sum::<usize>(), 2);
    assert_eq!(roll.reqs_by_status[1], ("confirmed".to_string(), 1));
    assert_eq!(roll.reqs_by_status[3], ("extracted".to_string(), 1));
    assert_eq!(roll.groups, 3);
}

fn job(state: JobState) -> Job {
    Job {
        state,
        doc: "d.md".into(),
        snapshot: "abc".into(),
        done: 0,
        total: 1,
        error: None,
        model: None,
        started: 0,
        finished: None,
    }
}

#[test]
fn prefill_refusals_and_inputs() {
    assert!(prefill_refusal(false, &None, "d.md").unwrap().starts_with("no agent backend"));
    assert_eq!(prefill_refusal(true, &Some(job(JobState::Running)), "d.md").unwrap(), "a pre-fill is already running for d.md");
    assert!(prefill_refusal(true, &Some(job(JobState::Done)), "d.md").is_none());
    let ctx = main_ctx();
    let snap = Snapshot::build("d.md", "# T\n\nOne. Two.\n");
    let cov = doc_coverage(&ctx, &snap, &vec![], &vec![], &Marks::empty(), &Marks::empty());
    assert_eq!(unclassified_prose(&cov), vec![snap.spans[1].id.clone(), snap.spans[2].id.clone()]);
    let mut gone = create_req("d.md", &vec![], &req_new("Gone.", "gone"), &vec![], "cj", 0).unwrap();
    gone.status = Status::Retired;
    let live = create_req("d.md", &vec![], &req_new("Live.", "live"), &vec![], "cj", 0).unwrap();
    assert_eq!(existing_reqs(&vec![gone, live]), vec![("live".to_string(), "Live.".to_string())]);
}

fn proposal(id: &str, spans: &[&str], proposed: Proposed) -> Proposal {
    Proposal {
        id: id.into(),
        spans: spans.iter().map(|s| s.to_string()).collect(),
        proposed,
        status: ProposalStatus::Proposed,
        rationale: None,
        result: None,
    }
}

#[test]
fn prefill_run_batches_and_keeps_replies() {
    let snap = Snapshot::build("d.md", "# T\n\nOne. Two.\n");
    let ids: Vec<String> = snap.spans[1..].iter().map(|s| s.id.clone()).collect();
    let mut run = prefill_start(&snap, &ids, Proposals { items: vec![] }, None, 5);
    assert_eq!(run.job.state, JobState::Running);
    assert_eq!(run.job.total, 1);
    let step = run_prefill(&mut run, PrefillEvent::Next, &snap, &vec![], &vec![], 6);
    let prompt = step.ask.expect("asks for the first batch");
    assert!(prompt.contains(&ids[0]));
    let reply = vec![
        proposal("p1", &[ids[0].as_str()], Proposed::Context),
        proposal("p2", &["s-not-in-batch"], Proposed::Context),
    ];
    let step = run_prefill(&mut run, PrefillEvent::Reply(reply), &snap, &vec![], &vec![], 7);
    assert!(step.save_proposals);
    assert_eq!(run.all.items.len(), 1);
    assert_eq!(run.job.done, 1);
    let step = run_prefill(&mut run, PrefillEvent::Next, &snap, &vec![], &vec![], 8);
    assert!(step.stop);
    assert_eq!(run.job.state, JobState::Done);
    assert_eq!(run.job.finished, Some(8));

    let mut failing = prefill_start(&snap, &ids, Proposals { items: vec![] }, None, 5);
    let _ = run_prefill(&mut failing, PrefillEvent::Next, &snap, &vec![], &vec![], 6);
    let step = run_prefill(&mut failing, PrefillEvent::Failed("boom".into()), &snap, &vec![], &vec![], 7);
    assert!(step.stop);
    assert_eq!(failing.job.state, JobState::Error);
    assert_eq!(failing.job.error.as_deref(), Some("boom"));
}

#[test]
fn accepting_and_rejecting_proposals() {
    let mut all = Proposals {
        items: vec![
            proposal("a", &["s-1"], Proposed::Context),
            proposal(
                "b",
                &["s-2"],
                Proposed::Req { statement: "The system shall X.".into(), pattern: None, slug: Some("x".into()), groups: vec!["Core".into()], attach: None },
            ),
            proposal("c", &["s-3"], Proposed::Question { quote: "  ".into(), materiality: None, readings: vec!["yes".into(), "no".into()] }),
            proposal("d", &["s-4"], Proposed::Req { statement: String::new(), pattern: None, slug: None, groups: vec![], attach: Some("email-format".into()) }),
        ],
    };
    assert!(matches!(accept_proposal(&all, "a").unwrap(), (0, ProposalAction::Context)));
    match accept_proposal(&all, "b").unwrap() {
        (1, ProposalAction::Create { statement, slug, groups, .. }) => {
            assert_eq!(statement, "The system shall X.");
            assert_eq!(slug.as_deref(), Some("x"));
            assert_eq!(groups, vec!["Core".to_string()]);
        }
        _ => panic!(),
    }
    match accept_proposal(&all, "c").unwrap() {
        (2, ProposalAction::Question { quote, materiality, readings }) => {
            assert_eq!(quote, "?");
            assert_eq!(materiality, Level::M);
            assert_eq!(readings, vec![("a".to_string(), "yes".to_string()), ("b".to_string(), "no".to_string())]);
        }
        _ => panic!(),
    }
    assert!(matches!(accept_proposal(&all, "d").unwrap(), (3, ProposalAction::Attach { slug }) if slug == "email-format"));
    assert_eq!(accept_proposal(&all, "zz").unwrap_err(), "no proposal `zz`");

    record_acceptance(&mut all, "a", "context".into());
    assert_eq!(all.items[0].status, ProposalStatus::Accepted);
    assert_eq!(accept_proposal(&all, "a").unwrap_err(), "proposal already Accepted");
    reject_proposal(&mut all, "b").unwrap();
    assert_eq!(all.items[1].status, ProposalStatus::Rejected);
    assert_eq!(pending_proposal_ids(&all), vec!["c".to_string(), "d".to_string()]);
    clear_proposals(&mut all);
    assert_eq!(all.items.len(), 2);
    assert_eq!(agent_mark_by("cj"), "agent (accepted by cj)");

    let mut h = vec![kansa_core::model::History::new_at("cj", "create", 1)];
    attribute(&mut h, "pm");
    assert_eq!(h[0].by, "agent");
    assert_eq!(h[0].accepted_by.as_deref(), Some("pm"));
}

#[test]
fn groups_found_by_title_ignoring_case() {
    let g = kansa_core::groups::create_group("Lockout", None, &vec![], "cj", 0).unwrap();
    assert_eq!(find_group_by_title(&vec![g], "  lockout "), Some(0));
}

#[test]
fn docs_prs_and_refresh_decisions() {
    let entries = doc_entries(&vec!["docs/hld.md".into(), "README.md".into()], &vec!["docs/hld.md".into()]);
    assert!(entries[0].is_tracked && !entries[1].is_tracked);
    let (md, touches) = pr_markdown(&vec!["a.MD".into(), "b.rs".into(), "c.markdown".into()], &vec!["c.markdown".into(), "z.md".into()]);
    assert_eq!(md, vec!["a.MD".to_string(), "c.markdown".to_string()]);
    assert_eq!(touches, vec!["c.markdown".to_string()]);
    let docs = pr_doc_list(
        "https://github.com/o/n.git",
        &vec!["a.md".into(), "x.txt".into()],
        &vec![("a.md".into(), "added".into())],
        &vec!["a.md".into()],
    );
    assert_eq!(docs.len(), 1);
    assert_eq!((docs[0].path.as_str(), docs[0].status.as_str(), docs[0].is_tracked), ("a.md", "added", true));
    let local = pr_doc_list("file:///tmp/x", &vec![], &vec![("b.md".into(), "deleted".into())], &vec![]);
    assert_eq!(local[0].status, "deleted");
    let unknown = pr_doc_list("https://github.com/o/n.git", &vec!["c.md".into()], &vec![], &vec![]);
    assert_eq!(unknown[0].status, "changed");

    assert_eq!(change_step(Some("a"), Some("a"), None), ChangeStep::Unchanged);
    assert_eq!(change_step(Some("a"), Some("b"), Some("b")), ChangeStep::AlreadyPending);
    assert_eq!(change_step(Some("a"), Some("b"), None), ChangeStep::Snapshot);
    assert_eq!(change_step(Some("a"), None, None), ChangeStep::Gone);
    assert_eq!(change_step(None, None, None), ChangeStep::Unchanged);
    assert!(advances(None, 4));
    assert!(advances(Some("a"), 0));
    assert!(!advances(Some("a"), 1));

    let ctx = main_ctx();
    let mut r1 = ensure_round(true, None, Some("s".into()), None, &ctx, "d.md", 0).unwrap();
    r1.closed = Some(1);
    let r2 = ensure_round(true, None, Some("s".into()), Some(1), &ctx, "d.md", 2).unwrap();
    let st = doc_status("d.md", Some("s".into()), None, &vec![r1, r2]);
    assert_eq!(st.open_round, Some(2));
    assert_eq!(st.rounds_closed, 1);
}

#[test]
fn registered_repos_and_local_slugs() {
    let cfg = RepoConfig {
        github: "o/n".into(),
        remote: "https://github.com/o/n.git".into(),
        kind: RepoKind::Github,
        source_dir: None,
        default_branch: "main".into(),
        local_path: "/tmp/x".into(),
        tracked_docs: vec![TrackedDoc { path: "docs/hld.md".into() }],
        registered_at: 0,
        last_fetch: Some(0),
    };
    let s = list_registered(&vec![cfg], "/home/k");
    assert_eq!(s[0].store_dir, "/home/k/repos/o__n");
    assert_eq!(s[0].tracked_docs, vec!["docs/hld.md".to_string()]);
    assert!(s[0].last_fetch.as_deref().unwrap().starts_with("1970-01-01"));
    let slug = local_slug("my docs", "/tmp/my docs");
    assert!(slug.starts_with("local/my-docs-"));
    assert_eq!(slug.len(), "local/my-docs-".len() + 6);
    assert_eq!(&slug["local/my-docs-".len()..], &content_hash("/tmp/my docs")[..6]);
}

#[test]
fn content_hash_is_sha256_prefix() {
    assert_eq!(content_hash("hello"), "2cf24dba5fb0a30e");
}

#[test]
fn slugs_free_questions_and_keys() {
    assert_eq!(next_free_slug("q", &vec![]), "q");
    assert_eq!(next_free_slug("q", &vec!["q".into(), "q-2".into()]), "q-3");
    assert_eq!(doc_key("docs/a/b.md"), "docs__a__b.md");
    assert_eq!(Context::Pr { pr: 42, head: "9b2e".into() }.key(), "pr-42");
    assert_eq!(Status::all().iter().map(|s| s.as_str()).collect::<Vec<_>>(), vec!["extracted", "assumed", "confirmed", "disputed", "retired"]);
    assert_eq!(QstStatus::Open, QstStatus::Open);
    let _ = Id::parse("req~a~1").unwrap();
}

#[test]
fn gh_messages() {
    assert!(require_gh(true, true).is_ok());
    assert!(require_gh(false, true).unwrap_err().contains("gh auth login"));
    assert!(require_gh(false, false).unwrap_err().starts_with("kansa needs the GitHub CLI"));
    assert_eq!(gh(&vec!["pr", "list"], "  bad auth\n"), "gh pr list failed: bad auth");
}

#[test]
fn rollups_order_by_lowercased_title() {
    let a = kansa_core::groups::create_group("Bravo", None, &vec![], "cj", 0).unwrap();
    let b = kansa_core::groups::create_group("alpha", None, &vec![], "cj", 0).unwrap();
    let r = kansa_core::groups::group_rollups(vec![a, b], &vec![], &vec![]);
    assert_eq!(r[0].group.title, "alpha");
    assert_eq!(r[1].group.title, "Bravo");
    assert!(r[0].members_by_status.is_empty());
}

fn req_store(reqs: Vec<kansa_core::model::ReqRev>) -> Vec<(String, Vec<kansa_core::model::ReqRev>)> {
    reqs.into_iter().map(|r| (r.id.slug.clone(), vec![r])).collect()
}

#[test]
fn accepting_proposals_applies_them_as_the_agent() {
    let mut all = Proposals {
        items: vec![
            proposal(
                "p0-s-1",
                &["s-1"],
                Proposed::Req { statement: "The system shall lock.".into(), pattern: None, slug: Some("lock".into()), groups: vec![" rules ".into(), "Rules".into()], attach: None },
            ),
            proposal("p1-s-2", &["s-2"], Proposed::Context),
            proposal("p2-s-3", &["s-3"], Proposed::Req { statement: String::new(), pattern: None, slug: None, groups: vec![], attach: Some("lock".into()) }),
            proposal("p3-s-4", &["s-4"], Proposed::Question { quote: "  ".into(), materiality: None, readings: vec!["yes".into(), "no".into()] }),
            proposal("p4-s-5", &["s-5"], Proposed::Req { statement: "Y.".into(), pattern: None, slug: Some("y".into()), groups: vec!["   ".into()], attach: None }),
        ],
    };
    let mut reqs = req_store(vec![]);
    let mut qsts = vec![];
    let mut groups = vec![kansa_core::groups::create_group("Other", None, &vec![], "cj", 0).unwrap()];
    let mut marks = Marks::empty();
    let taken: Vec<String> = vec![];
    let used: Vec<String> = vec![];

    // a requirement: created by the agent, accepted by cj, put in one group made for both titles
    let res = kansa_core::accept::apply_acceptance(&mut all, "p0-s-1", "cj", "d.md", &mut reqs, &mut qsts, &mut groups, &mut marks, &taken, &used, 1).unwrap();
    assert_eq!(res, "req~lock~1");
    assert_eq!(all.items[0].status, ProposalStatus::Accepted);
    assert_eq!(all.items[0].result.as_deref(), Some("req~lock~1"));
    let lock = &reqs[0].1[0];
    assert_eq!(lock.history[0].by, "agent");
    assert_eq!(lock.history[0].accepted_by.as_deref(), Some("cj"));
    assert_eq!(groups.len(), 2);
    assert_eq!(groups[1].title, "rules");
    assert_eq!(groups[1].id.to_string(), "grp~rules~1");
    assert_eq!(groups[1].members, vec![lock.id.clone()]);
    assert_eq!(groups[1].history.last().unwrap().accepted_by.as_deref(), Some("cj"));
    assert!(groups[0].members.is_empty());
    assert_eq!(groups[0].history.last().unwrap().accepted_by, None);
    // a second acceptance is refused, and nothing changes
    assert_eq!(
        kansa_core::accept::apply_acceptance(&mut all, "p0-s-1", "cj", "d.md", &mut reqs, &mut qsts, &mut groups, &mut marks, &taken, &used, 2).unwrap_err(),
        "proposal already Accepted"
    );
    assert_eq!(reqs.len(), 1);

    // context: the spans are marked by the agent, accepted by cj
    let res = kansa_core::accept::apply_acceptance(&mut all, "p1-s-2", "cj", "d.md", &mut reqs, &mut qsts, &mut groups, &mut marks, &taken, &used, 3).unwrap();
    assert_eq!(res, "context");
    assert_eq!(marks.get("s-2").unwrap().by, "agent (accepted by cj)");

    // attach: the existing requirement gets the span, the entry accepted by cj
    let res = kansa_core::accept::apply_acceptance(&mut all, "p2-s-3", "cj", "d.md", &mut reqs, &mut qsts, &mut groups, &mut marks, &vec!["lock".into()], &used, 4).unwrap();
    assert_eq!(res, "req~lock~1");
    let lock = reqs[0].1.last().unwrap();
    assert_eq!(lock.anchors.len(), 2);
    assert_eq!(lock.history.last().unwrap().op, "anchor");
    assert_eq!(lock.history.last().unwrap().by, "agent");
    assert_eq!(lock.history.last().unwrap().accepted_by.as_deref(), Some("cj"));

    // a question: blank quote becomes `?`, readings keyed a, b
    let res = kansa_core::accept::apply_acceptance(&mut all, "p3-s-4", "cj", "d.md", &mut reqs, &mut qsts, &mut groups, &mut marks, &taken, &used, 5).unwrap();
    let q = &qsts[0].1[0];
    assert_eq!(res, q.id.to_string());
    assert_eq!(q.quote, "?");
    assert_eq!(q.materiality, Level::M);
    assert_eq!(q.readings.iter().map(|r| r.key.clone()).collect::<Vec<_>>(), vec!["a", "b"]);
    assert_eq!(q.history[0].accepted_by.as_deref(), Some("cj"));

    // a blank group title that names no group: refused before anything is made
    assert_eq!(
        kansa_core::accept::apply_acceptance(&mut all, "p4-s-5", "cj", "d.md", &mut reqs, &mut qsts, &mut groups, &mut marks, &vec!["lock".into()], &used, 6).unwrap_err(),
        "group title is required"
    );
    assert_eq!(reqs.len(), 1);
    assert_eq!(all.items[4].status, ProposalStatus::Proposed);
    assert_eq!(
        kansa_core::accept::apply_acceptance(&mut all, "nope", "cj", "d.md", &mut reqs, &mut qsts, &mut groups, &mut marks, &taken, &used, 7).unwrap_err(),
        "no proposal `nope`"
    );
}

#[test]
fn accepting_an_attach_to_a_missing_requirement_fails() {
    let mut all = Proposals {
        items: vec![proposal("p0", &["s-1"], Proposed::Req { statement: String::new(), pattern: None, slug: None, groups: vec![], attach: Some("gone".into()) })],
    };
    let mut reqs = req_store(vec![]);
    let mut qsts = vec![];
    let mut groups = vec![];
    let mut marks = Marks::empty();
    assert_eq!(
        kansa_core::accept::apply_acceptance(&mut all, "p0", "cj", "d.md", &mut reqs, &mut qsts, &mut groups, &mut marks, &vec![], &vec![], 1).unwrap_err(),
        "no requirement `gone`"
    );
    assert_eq!(all.items[0].status, ProposalStatus::Proposed);
}

#[test]
fn accepting_all_proposals_counts_the_accepted() {
    let snap = Snapshot::build("d.md", "# T\n\nOne. Two. Three.\n");
    let s1 = snap.spans[1].id.clone();
    let s2 = snap.spans[2].id.clone();
    let mut all = Proposals {
        items: vec![
            proposal("p0", &[s1.as_str()], Proposed::Context),
            proposal("p1", &["s-gone"], Proposed::Context),
            proposal("p2", &[s2.as_str()], Proposed::Req { statement: "Two.".into(), pattern: None, slug: Some("two".into()), groups: vec![], attach: None }),
            proposal("p3", &[s2.as_str()], Proposed::Req { statement: "Two again.".into(), pattern: None, slug: Some("two".into()), groups: vec![], attach: None }),
        ],
    };
    let mut reqs = req_store(vec![]);
    let mut qsts = vec![];
    let mut groups = vec![];
    let mut marks = Marks::empty();
    let mut taken: Vec<String> = vec![];
    let mut used: Vec<String> = vec![];
    let n = kansa_core::accept::accept_all_proposals(&mut all, "cj", "d.md", &snap, &mut reqs, &mut qsts, &mut groups, &mut marks, &mut taken, &mut used, 1);
    assert_eq!(n, 3);
    assert_eq!(all.items[0].status, ProposalStatus::Accepted);
    assert_eq!(all.items[1].status, ProposalStatus::Proposed);
    assert_eq!(all.items[2].result.as_deref(), Some("req~two~1"));
    // the second requirement takes the next free slug
    assert_eq!(all.items[3].result.as_deref(), Some("req~two-2~1"));
    assert_eq!(taken, vec!["two".to_string(), "two-2".to_string()]);
    assert_eq!(marks.get(&s1).unwrap().by, "agent (accepted by cj)");
}
