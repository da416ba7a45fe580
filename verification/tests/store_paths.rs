use kansa_core::groups::groups_by_req;
use kansa_core::id::Id;
use kansa_core::model::{Context, Group, ReqRev, Round};
use kansa_core::ops::doc_status;
use kansa_core::store::{clone_dir_for, store_dir_for, Store};

fn id(s: &str) -> Id {
    s.parse().unwrap()
}

fn group(id_text: &str, title: &str, members: &[&str]) -> Group {
    Group {
        id: id(id_text),
        title: title.into(),
        description: None,
        members: members.iter().map(|m| id(m)).collect(),
        history: vec![],
    }
}

#[test]
fn groups_by_req_derived() {
    let s = Store::open("/tmp/s", true).unwrap();
    let g = group("grp~validation~1", "Validation", &["req~a~1", "req~b~2"]);
    let m = s.groups_by_req(&vec![g]);
    let a = m.iter().find(|(k, _)| k.ty == "req" && k.slug == "a").unwrap();
    assert_eq!(a.1, vec!["Validation"]);
}

#[test]
fn group_titles_sorted_and_deduplicated() {
    let gs = vec![
        group("grp~z~1", "Zeta", &["req~a~1"]),
        group("grp~b~1", "Beta", &["req~a~1", "req~c~1"]),
        group("grp~b2~1", "Beta", &["req~a~2"]),
        group("grp~q~1", "Qst", &["qst~a~1"]),
    ];
    let m = groups_by_req(&gs);
    let keys: Vec<(String, String)> = m.iter().map(|(k, _)| (k.ty.clone(), k.slug.clone())).collect();
    assert_eq!(
        keys,
        vec![
            ("qst".to_string(), "a".to_string()),
            ("req".to_string(), "a".to_string()),
            ("req".to_string(), "c".to_string()),
        ]
    );
    assert_eq!(m[1].1, vec!["Beta".to_string(), "Zeta".to_string()]);
    assert_eq!(m[2].1, vec!["Beta".to_string()]);
}


#[test]
fn store_layout() {
    let s = Store::open("/st", true).unwrap();
    let main = Context::Branch { branch: "main".into() };
    let pr = Context::Pr { pr: 42, head: "9b2e".into() };
    assert_eq!(s.snapshot_path("docs/hld.md", "abc"), "/st/snapshots/docs__hld.md/abc.yaml");
    assert_eq!(s.current_ptr(&main, "docs/hld.md"), "/st/current/main/docs__hld.md");
    assert_eq!(s.marks_path(&pr, "docs/hld.md"), "/st/marks/pr-42/docs__hld.md.yaml");
    assert_eq!(s.pending_path(&main, "a.md"), "/st/pending/main/a.md.yaml");
    assert_eq!(s.rounds_dir(&main, "docs/hld.md"), "/st/rounds/main/docs__hld.md");
    assert_eq!(s.round_path(&main, "docs/hld.md", 1), "/st/rounds/main/docs__hld.md/0001.yaml");
    assert_eq!(s.round_path(&main, "d.md", 12345), "/st/rounds/main/d.md/12345.yaml");
    assert_eq!(s.proposals_path(&main, "d.md"), "/st/proposals/main/d.md.yaml");
    assert_eq!(s.job_path(&main, "d.md"), "/st/jobs/main/d.md.yaml");
    assert_eq!(s.cache_path("prs"), "/st/cache/prs.yaml");
    assert_eq!(s.slug_path("reqs", "a").unwrap(), "/st/reqs/a.yaml");
    assert_eq!(s.slug_path("reqs", "Bad Slug").unwrap_err(), "invalid slug `Bad Slug`");
    let feat = Context::Branch { branch: "feat/x".into() };
    assert_eq!(feat.key(), "feat__x");
}

#[test]
fn repo_dirs() {
    assert_eq!(store_dir_for("/home/k", "o/n"), "/home/k/repos/o__n");
    assert_eq!(clone_dir_for("/home/k/", "o/n"), "/home/k/clones/o__n");
}

#[test]
fn init_open_and_req_roundtrip() {
    assert_eq!(Store::open("/x/store", true).unwrap().root(), "/x/store");
    assert_eq!(Store::open("/x/none", false).unwrap_err(), "no kansa store at /x/none");
    let s = Store::open("/st", true).unwrap();
    let r = ReqRev::new_at(id("req~a~1"), "s".into(), "t", 0);
    assert_eq!(s.next_req_rev(&vec![r]), 2);
    assert_eq!(s.next_req_rev(&vec![]), 1);
    assert_eq!(s.free_req_slug("a", &vec!["a".into()]).unwrap(), "a-2");
    assert_eq!(s.free_req_slug("a", &vec!["a".into(), "a-2".into()]).unwrap(), "a-3");
    assert_eq!(s.free_req_slug("b", &vec!["a".into()]).unwrap(), "b");
    assert_eq!(s.free_req_slug("Bad Slug", &vec![]).unwrap_err(), "invalid slug `Bad Slug`");
    let mut all: Vec<String> = vec!["z".into()];
    for i in 2..1000 {
        all.push(format!("z-{i}"));
    }
    assert_eq!(s.free_req_slug("z", &all).unwrap_err(), "could not find a free slug for `z`");
}

#[test]
fn current_pointer_and_rounds() {
    let s = Store::open("/st", true).unwrap();
    let ctx = Context::Branch { branch: "main".into() };
    assert_eq!(s.current_ptr(&ctx, "docs/hld.md"), "/st/current/main/docs__hld.md");
    let r = Round {
        doc: "docs/hld.md".into(),
        n: 1,
        snapshot: "abc".into(),
        context: ctx.clone(),
        opened: 0,
        closed: None,
        summary: None,
    };
    assert_eq!(doc_status("docs/hld.md", Some("abc".into()), None, &vec![r]).open_round, Some(1));
    assert!(s.round_path(&ctx, "docs/hld.md", 1).ends_with("/0001.yaml"));
    assert!(s.round_path(&ctx, "docs/hld.md", 1).starts_with(&s.rounds_dir(&ctx, "docs/hld.md")));
}
