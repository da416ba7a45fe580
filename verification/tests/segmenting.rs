use kansa_core::segment::{segment, split_sentences, Block};
use kansa_core::snapshot::{blob_sha, Snapshot};

/// The sample design doc the segmenter is exercised on.
const SAMPLE_HLD: &str = r#"# Intake Service — High-Level Design

## 1. Purpose

The intake service accepts applications from the public web form and the partner API. It validates them, assigns a case number, and hands them to the case-management queue. This document describes the intended behaviour; implementation details live in the ADRs.

## 2. Validation

All submissions shall be validated before a case number is issued. Validation is synchronous for the web form and asynchronous for the partner API (see §4).

- The email address shall match RFC 5322 and shall have a resolvable MX record.
- The ABN, when supplied, shall pass the ATO checksum. Invalid ABNs shall be rejected with error `ABN_INVALID`.
- Required fields are: applicant name, date of birth, email, and at least one contact number.
- Free-text fields shall be limited to 2,000 characters, e.g. the "circumstances" field.

Where the applicant is under 18, the system shall require a guardian's details. We expect this to be rare (approx. 2% of submissions).

### 2.1 Defaulting logic

When the preferred contact channel is omitted, the system shall default it to email. When both a mobile and a landline are supplied and no preference is stated, the system shall prefer mobile.

## 3. Lockout

While an applicant has failed identity verification 3 times within 24 hours, the system shall lock further attempts and shall notify the applicant through their verified channel. Locked accounts unlock automatically after 24 hours; support staff may unlock earlier.

| Event | Response | Owner |
|---|---|---|
| 3rd failed verification | Lock for 24 h | Platform |
| Manual unlock | Audit entry written | Support |

## 4. Partner API

The partner API is documented separately. Rate limits are per partner key: 100 requests/minute, burst 200. When a partner exceeds the limit, the API shall return HTTP 429 with `Retry-After`.

```json
{ "error": "RATE_LIMITED", "retryAfter": 30 }
```

Partners have asked whether limits could be raised for bulk migrations; this is under discussion. Is a per-partner override needed in v1? Unclear.

## 5. Non-goals

This design does not cover payment processing or document upload. Those are handled by the documents service and are out of scope here.
"#;

fn texts(src: &str) -> Vec<(Block, String)> {
    segment(src).into_iter().map(|p| (p.block, p.text)).collect()
}

#[test]
fn splits_plain_sentences() {
    let s = split_sentences("First one. Second one! Third? Yes.");
    assert_eq!(s.len(), 4);
    let s = split_sentences("Approx. 5 users, e.g. admins, log in at 3.5 pm. Then it stops.");
    assert_eq!(s.len(), 2, "{s:?}");
    let s = split_sentences("See Fig. 3 for details. Done.");
    assert_eq!(s.len(), 2);
    let s = split_sentences("He said \"stop.\" Then left.");
    assert_eq!(s.len(), 2);
    let s = split_sentences("Sentence without period");
    assert_eq!(s.len(), 1);
}

#[test]
fn paragraph_sentences_have_source_ranges() {
    let src = "# Title\n\nThe system shall do X. It **must** also do Y.\n";
    let ps = segment(src);
    assert_eq!(ps.len(), 3);
    assert_eq!(ps[0].block, Block::Heading);
    assert_eq!(ps[0].text, "Title");
    assert_eq!(ps[1].text, "The system shall do X.");
    assert_eq!(&src[ps[1].start..ps[1].end], "The system shall do X.");
    assert_eq!(ps[2].text, "It must also do Y.");
    assert_eq!(&src[ps[2].start..ps[2].end], "It **must** also do Y.");
    assert_eq!(ps[2].section.as_deref(), Some("Title"));
}

#[test]
fn lists_tables_code_are_units() {
    let src = "\
- First item. With two sentences.
- Second item
  - Nested item. Also two.

| a | b |
|---|---|
| 1. x | 2. y |

```rust
fn main() {} // 1. 2. 3.
```

Para one. Para two.
";
    let t = texts(src);
    assert_eq!(
        t,
        vec![
            (Block::Li, "First item. With two sentences.".into()),
            (Block::Li, "Second item".into()),
            (Block::Li, "Nested item. Also two.".into()),
            (Block::Row, "a | b".into()),
            (Block::Row, "1. x | 2. y".into()),
            (Block::Code, "```rust\nfn main() {} // 1. 2. 3.\n```".into()),
            (Block::Para, "Para one.".into()),
            (Block::Para, "Para two.".into()),
        ]
    );
    let ps = segment(src);
    assert_eq!(ps[2].depth, 2);
    assert_eq!(&src[ps[1].start..ps[1].end], "- Second item");
}

#[test]
fn loose_list_items_and_blockquotes() {
    let src = "1. Do this.\n\n2. Then that. And more.\n\n> Quoted. Twice.\n";
    let t = texts(src);
    assert_eq!(t[0], (Block::Li, "Do this.".into()));
    assert_eq!(t[1], (Block::Li, "Then that. And more.".into()));
    assert_eq!(t[2], (Block::Para, "Quoted.".into()));
    assert_eq!(t[3], (Block::Para, "Twice.".into()));
}

#[test]
fn deterministic() {
    let src = SAMPLE_HLD;
    let a = segment(src);
    let b = segment(src);
    assert_eq!(a.len(), b.len());
    for (x, y) in a.iter().zip(b.iter()) {
        assert_eq!(x.block, y.block);
        assert_eq!(x.text, y.text);
        assert_eq!((x.start, x.end), (y.start, y.end));
        assert_eq!(x.section, y.section);
        assert_eq!(x.depth, y.depth);
    }
    assert!(a.len() > 20);
    for p in &a {
        assert!(!p.text.is_empty());
        assert!(p.end <= src.len());
    }
}

#[test]
fn ids_are_content_derived_and_disambiguated() {
    let a = Snapshot::build("d.md", "Same thing.\n\nSame thing.\n\nOther.\n");
    assert_eq!(a.spans.len(), 3);
    assert_eq!(a.spans[0].id, format!("s-{}", &a.spans[0].h[..8]));
    assert_eq!(a.spans[1].id, format!("{}-2", a.spans[0].id));
    assert_ne!(a.spans[2].id, a.spans[0].id);
    // Moving text keeps its id.
    let b = Snapshot::build("d.md", "Other.\n\nSame thing.\n");
    assert_eq!(b.spans[0].id, a.spans[2].id);
    assert_eq!(b.spans[1].id, a.spans[0].id);
    assert_ne!(a.sha, b.sha);
}

#[test]
fn building_twice_gives_the_same_spans_with_distinct_ids() {
    let a = Snapshot::build("d.md", SAMPLE_HLD);
    let b = Snapshot::build("d.md", SAMPLE_HLD);
    assert_eq!(a.sha, b.sha);
    assert_eq!(a.spans.len(), b.spans.len());
    for (x, y) in a.spans.iter().zip(b.spans.iter()) {
        assert_eq!((&x.id, x.ord, x.block, &x.text, &x.h), (&y.id, y.ord, y.block, &y.text, &y.h));
        assert_eq!((x.start, x.end, &x.section, x.depth), (y.start, y.end, &y.section, y.depth));
    }
    for i in 0..a.spans.len() {
        assert_eq!(a.spans[i].h.len(), 16);
        for j in (i + 1)..a.spans.len() {
            assert_ne!(a.spans[i].id, a.spans[j].id);
        }
    }
}

#[test]
fn blob_sha_matches_git() {
    // `printf 'hello\n' | git hash-object --stdin`
    assert_eq!(
        blob_sha(b"hello\n"),
        "ce013625030ba8dba906f756967f9e9ca394464a"
    );
}

#[test]
fn sentences_tile_their_text() {
    let text = "First one. Second one! Third? Yes.";
    let s = split_sentences(text);
    assert_eq!(s.first().unwrap().0, 0);
    for w in s.windows(2) {
        assert!(w[0].1 <= w[1].0);
    }
    assert!(s.last().unwrap().1 <= text.chars().count());
}

#[test]
fn sample_doc_sections_and_blocks() {
    let ps = segment(SAMPLE_HLD);
    assert_eq!(ps[0].block, Block::Heading);
    assert_eq!(ps[0].text, "Intake Service \u{2014} High-Level Design");
    assert!(ps.iter().any(|p| p.block == Block::Row && p.text == "3rd failed verification | Lock for 24 h | Platform"));
    assert!(ps.iter().any(|p| p.block == Block::Code));
    let lock = ps.iter().find(|p| p.text.starts_with("While an applicant")).unwrap();
    assert_eq!(lock.section.as_deref(), Some("3. Lockout"));
}

#[test]
fn snapshot_of_sample_doc() {
    let snap = Snapshot::build("docs/hld.md", SAMPLE_HLD);
    assert_eq!(snap.doc, "docs/hld.md");
    assert_eq!(snap.sha.len(), 40);
    assert_eq!(snap.segmenter, 2);
    assert_eq!(snap.spans.len(), segment(SAMPLE_HLD).len());
    for (k, s) in snap.spans.iter().enumerate() {
        assert_eq!(s.ord as usize, k);
        assert!(snap.span(&s.id).is_some());
    }
    assert!(snap.span("s-nope").is_none());
}
