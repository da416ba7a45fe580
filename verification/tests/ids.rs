use kansa_core::id::{slugify, valid_slug, Id, IdError};

#[test]
fn parses_good_ids() {
    let id: Id = "req~login-throttling~2".parse().unwrap();
    assert_eq!(id.ty, "req");
    assert_eq!(id.slug, "login-throttling");
    assert_eq!(id.rev, 2);
    assert_eq!(id.to_string(), "req~login-throttling~2");
    assert!("ui2~a1~10".parse::<Id>().is_ok());
}

#[test]
fn rejects_bad_ids() {
    for bad in [
        "req~x",
        "req~x~1~2",
        "Req~x~1",
        "req~-x~1",
        "req~x-~1",
        "req~a--b~1",
        "req~x~0",
        "req~x~01",
        "req~x~",
        "~x~1",
        "req~X~1",
        "req~x_y~1",
    ] {
        assert!(bad.parse::<Id>().is_err(), "{bad} should fail");
    }
}

#[test]
fn slugify_basic() {
    assert_eq!(
        slugify("When a user fails login 5 times!", 40),
        "fails-login-5-times"
    );
    assert_eq!(slugify("  --Foo__Bar--  ", 40), "foo-bar");
    assert_eq!(slugify("!!!", 40), "item");
    assert_eq!(
        slugify("The system shall be the tool.", 40),
        "the-system-shall-be-the-tool"
    );
    assert_eq!(
        slugify(
            "The tool shall read a requirements inventory and design docs, compute coverage",
            32
        ),
        "read-requirements-inventory"
    );
    assert_eq!(
        slugify("Supercalifragilisticexpialidocious", 10),
        "supercalif"
    );
    assert!(valid_slug(&slugify(
        "Some really long sentence about validation rules across forms",
        24
    )));
}

#[test]
fn id_parse_then_render_is_identity() {
    for s in ["req~a~1", "grp~validation~12", "qst~why-not~4294967295"] {
        let id = Id::parse(s).unwrap();
        assert_eq!(id.to_string(), s);
    }
}

#[test]
fn id_errors_name_the_part_at_fault() {
    assert!(matches!(Id::parse("req~x"), Err(IdError::Shape(_))));
    assert!(matches!(Id::parse("Req~x~1"), Err(IdError::Type(_))));
    assert!(matches!(Id::parse("req~a--b~1"), Err(IdError::Slug(_))));
    assert!(matches!(Id::parse("req~x~0"), Err(IdError::Rev(_))));
    assert!(matches!(Id::parse("req~x~4294967296"), Err(IdError::Rev(_))));
}

#[test]
fn id_new_and_with_rev() {
    let id = Id::new("req", "email-format", 1).unwrap();
    assert_eq!(id.to_string(), "req~email-format~1");
    assert_eq!(id.with_rev(3).to_string(), "req~email-format~3");
    assert!(Id::new("req", "Bad Slug", 1).is_err());
    let k = id.key();
    assert_eq!(k.to_string(), "req~email-format");
}

#[test]
fn slugs_are_always_valid() {
    for t in ["", "   ", "a", "The The The", "Ünïcödé only", "x-y-z", "12345678901234567890123456789012345"] {
        let s = slugify(t, 16);
        assert!(valid_slug(&s), "{t:?} gave {s:?}");
    }
}

#[test]
fn slugify_is_idempotent() {
    for (text, max) in [
        ("When a user fails login 5 times!", 32),
        ("The and of", 32),
        ("Supercalifragilistic", 5),
        ("!!!", 32),
        ("user settings", 4),
    ] {
        let once = slugify(text, max);
        assert_eq!(slugify(&once, max), once, "{text}");
    }
    assert_eq!(slugify("!!!", 32), "item");
}

#[test]
fn slugify_fallback_fits_the_limit() {
    assert_eq!(slugify("!!!", 40), "item");
    assert_eq!(slugify("!!!", 2), "it");
    assert_eq!(slugify("!!!", 1), "i");
    assert_eq!(slugify("!!!", 0), "");
    assert!(valid_slug(&slugify("!!!", 3)));
}
