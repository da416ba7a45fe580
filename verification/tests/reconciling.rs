use kansa_core::reconcile::{reconcile, similarity, similarity_from, Classification, VerdictKind};
use kansa_core::snapshot::Snapshot;

fn snap(src: &str) -> Snapshot {
    Snapshot::build("d.md", src)
}

fn ratio(a: &str, b: &str) -> f64 {
    let s = similarity(a, b);
    s.num as f64 / s.den as f64
}

#[test]
fn verdict_kinds() {
    let old = snap("# T\n\nThe system shall lock after 3 failures. Users get an email. This one vanishes entirely.\n\nUnchanged sentence here.\n");
    let new = snap("# T\n\nThe system shall lock after 5 failures. Users get an email.\n\nUnchanged sentence here.\n\nBrand new sentence.\n");
    // classify: lock (req), email (nn), vanishes (req), unchanged (nn)
    let classified: Vec<Option<Classification>> = (0..old.spans.len())
        .map(|i| match i {
            1 => Some((vec!["req~lock~1".to_string()], vec![], false)),
            2 => Some((vec![], vec![], true)),
            3 => Some((vec!["req~gone~1".to_string()], vec![], false)),
            4 => Some((vec![], vec![], true)),
            _ => None,
        })
        .collect();
    let r = reconcile("d.md", &old, &new, &classified);
    let kinds: Vec<VerdictKind> = r.verdicts.iter().map(|v| v.kind).collect();
    assert_eq!(
        kinds,
        vec![
            VerdictKind::Reworded,
            VerdictKind::Unchanged,
            VerdictKind::Missing,
            VerdictKind::Unchanged
        ]
    );
    let s = r.verdicts[0].similarity;
    assert!(s.num as f64 / s.den as f64 > 0.8);
    assert_eq!(
        r.verdicts[0].to_text.as_deref(),
        Some("The system shall lock after 5 failures.")
    );
    assert_eq!(r.unconfirmed(), 2);
    assert_eq!(r.added.len(), 1); // "Brand new sentence."
    assert!(new.span(&r.added[0]).unwrap().text.starts_with("Brand new"));
}

#[test]
fn similarity_basics() {
    assert_eq!(ratio("a b c", "a b c"), 1.0);
    assert!(ratio("The tool shall exit 0.", "The tool shall exit 1.") > 0.8);
    assert!(ratio("completely different words here", "nothing alike at all") < 0.4);
}

#[test]
fn similarity_takes_the_closer_measure() {
    // one substitution in a 22-character sentence
    let s = similarity("The tool shall exit 0.", "The tool shall exit 1.");
    assert_eq!(s.num * 22, s.den * 21);
    let e = similarity("", "");
    assert_eq!(e.num, e.den);
}

#[test]
fn similarity_from_uses_the_given_distance() {
    // one edit in five characters beats the word overlap of 1 in 3
    let s = similarity_from("x abc", "x abd", 1);
    assert_eq!((s.num, s.den), (4, 5));
    // with every character changed the word overlap is the closer measure
    let s = similarity_from("x abc", "x abd", 5);
    assert_eq!((s.num, s.den), (1, 3));
    let s = similarity_from("abc", "abd", 1);
    assert_eq!((s.num, s.den), (2, 3));
    // identical texts do not depend on the distance
    let s = similarity_from("same", "same", 0);
    assert_eq!((s.num, s.den), (1, 1));
}

#[test]
fn unclassified_spans_get_no_verdict() {
    let old = snap("One. Two.\n");
    let new = snap("One. Three.\n");
    let none: Vec<Option<Classification>> = vec![None; old.spans.len()];
    let r = reconcile("d.md", &old, &new, &none);
    assert!(r.verdicts.is_empty());
    assert_eq!(r.unconfirmed(), 0);
    assert_eq!(r.doc, "d.md");
    assert_eq!(r.from, old.sha);
    assert_eq!(r.to, new.sha);
}
