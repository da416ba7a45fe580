use kansa_core::agent::{build_prompt, json_bounds, json_brackets_ordered, proposals_from_wire, BatchInput, OutputError, Proposed, WireProposal};
use kansa_core::model::{Level, Pattern};
use kansa_core::repo::{branch_ref, github_slug, github_url, lfs_pointer_oid, pr_changed_files, pr_ref, slug_of_url};

fn wire(v: &serde_json::Value) -> WireProposal {
    let s = |k: &str| v.get(k).and_then(|x| x.as_str()).map(String::from);
    let list = |k: &str| -> Vec<String> {
        v.get(k)
            .and_then(|x| x.as_array())
            .map(|a| a.iter().filter_map(|x| x.as_str().map(String::from)).collect())
            .unwrap_or_default()
    };
    WireProposal {
        spans: list("spans"),
        kind: s("kind").unwrap_or_default(),
        statement: s("statement"),
        pattern: s("pattern"),
        slug: s("slug"),
        groups: list("groups"),
        attach: s("attach"),
        quote: s("quote"),
        materiality: s("materiality"),
        readings: list("readings"),
        rationale: s("rationale"),
    }
}

/// The agent's answer as proposals: the JSON array found in it, read, then interpreted.
fn parse_output(raw: &str) -> Result<Vec<kansa_core::agent::Proposal>, OutputError> {
    assert!(json_brackets_ordered(raw));
    let (a, b) = json_bounds(raw)?;
    let vals: Vec<serde_json::Value> = serde_json::from_str(&raw[a..b]).map_err(|e| OutputError::BadJson(e.to_string()))?;
    let ws: Vec<WireProposal> = vals.iter().map(wire).collect();
    proposals_from_wire(&ws)
}

#[test]
fn parses_tolerant_output() {
    let raw = r#"Sure! Here you go:
```json
[
 {"spans":["s-1"],"kind":"req","statement":"The system shall X.","pattern":"Ubiquitous","slug":"System X!","groups":["Core"]},
 {"spans":["s-2","s-3"],"kind":"context","rationale":"purpose"},
 {"spans":["s-4"],"kind":"question","quote":"maybe","materiality":"h","readings":["a","b"]},
 {"spans":["s-5"],"kind":"req","attach":"email-format"}
]
```"#;
    let ps = parse_output(raw).unwrap();
    assert_eq!(ps.len(), 4);
    match &ps[0].proposed {
        Proposed::Req {
            statement,
            pattern,
            slug,
            groups,
            ..
        } => {
            assert_eq!(statement, "The system shall X.");
            assert_eq!(*pattern, Some(Pattern::Ubiquitous));
            assert_eq!(slug.as_deref(), Some("x"));
            assert_eq!(groups, &vec!["Core".to_string()]);
        }
        _ => panic!(),
    }
    assert_eq!(ps[1].spans.len(), 2);
    assert!(matches!(
        ps[2].proposed,
        Proposed::Question {
            materiality: Some(Level::H),
            ..
        }
    ));
    assert!(
        matches!(&ps[3].proposed, Proposed::Req { attach: Some(a), .. } if a == "email-format")
    );
    assert!(parse_output("nothing here").is_err());
}

#[test]
fn prompt_lists_every_span() {
    let p = build_prompt(&BatchInput {
        doc: "d.md",
        spans: vec![
            ("s-1", "Hello.", Some("Intro")),
            ("s-2", "World.", Some("Intro")),
            ("s-3", "Bye.", None),
        ],
        existing_reqs: vec![("x".into(), "The x.".into())],
        existing_groups: vec!["G".into()],
    });
    assert!(p.contains("[s-1] Hello."));
    assert!(p.contains("## Intro"));
    assert!(p.contains("- x: The x."));
    assert!(p.contains("Existing groups: G"));
}

#[test]
fn output_errors_by_kind() {
    assert!(matches!(json_bounds("no array at all"), Err(OutputError::NoArray(_))));
    assert!(matches!(json_bounds("starts [ but never ends"), Err(OutputError::NoArrayEnd(_))));
    assert_eq!(json_bounds("x [1] y").unwrap(), (2, 5));
    let unknown = vec![WireProposal {
        spans: vec!["s-1".into()],
        kind: "poem".into(),
        statement: None,
        pattern: None,
        slug: None,
        groups: vec![],
        attach: None,
        quote: None,
        materiality: None,
        readings: vec![],
        rationale: None,
    }];
    assert!(matches!(proposals_from_wire(&unknown), Err(OutputError::UnknownKind(k)) if k == "poem"));
}

#[test]
fn github_urls() {
    assert_eq!(
        github_url("marlboro-red/reqtrace").unwrap(),
        "https://github.com/marlboro-red/reqtrace.git"
    );
    assert_eq!(
        github_url("https://github.com/marlboro-red/reqtrace/").unwrap(),
        "https://github.com/marlboro-red/reqtrace.git"
    );
    assert_eq!(github_slug("https://github.com/a/b.git").unwrap(), "a/b");
    assert!(github_url("nope").is_err());
}

#[test]
fn refs_and_urls() {
    assert_eq!(branch_ref("main"), "refs/remotes/origin/main");
    assert_eq!(pr_ref(42), "refs/pull/42/head");
    assert_eq!(slug_of_url("https://github.com/a/b.git").as_deref(), Some("a/b"));
    assert_eq!(slug_of_url("file:///tmp/x"), None);
}

#[test]
fn pr_files_one_per_line() {
    assert_eq!(pr_changed_files("docs/a.md\nREADME.md\n\n"), vec!["docs/a.md".to_string(), "README.md".to_string()]);
}

#[test]
fn lfs_pointers() {
    let p = b"version https://git-lfs.github.com/spec/v1\noid sha256:abc123\nsize 12\n";
    assert_eq!(lfs_pointer_oid(p).as_deref(), Some("abc123"));
    assert_eq!(lfs_pointer_oid(b"# just markdown\n"), None);
}

#[test]
fn github_name_and_url_round_trip() {
    let x = "acme/intake-hld";
    let u = github_url(x).unwrap();
    assert_eq!(u, "https://github.com/acme/intake-hld.git");
    assert_eq!(github_slug(x).unwrap(), x);
    assert_eq!(github_url(&u).unwrap(), u);
    assert_eq!(github_slug(&u).unwrap(), x);
}
