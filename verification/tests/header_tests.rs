use bibstore::header::{decode, encode, get_metadata_str, HeaderOutcome, ShortMetadata};

#[test]
fn test_has_metadata() {
    assert!(get_metadata_str(
        "---
        title: test
        ---
        "
    )
    .is_some());
    assert!(get_metadata_str(
        "---
        title: test
        "
    )
    .is_none());
    assert!(get_metadata_str(
        "
        title: test
        ---

        # This is the rest of the document
        "
    )
    .is_none());
    assert!(get_metadata_str(
        "---
        title: test
        ---

        # This is the rest of the document
        "
    )
    .is_some());
}

#[test]
fn metadata_str_is_block_between_delimiters() {
    let m = get_metadata_str("---\nkey: k\ntitle: t\n---\nbody").unwrap();
    assert_eq!(m, "\nkey: k\ntitle: t\n");
}

#[test]
fn decode_plain_text_is_absent() {
    assert!(matches!(decode("no header text"), HeaderOutcome::Absent));
}

#[test]
fn decode_full_header_is_present() {
    match decode("---\nkey: k\ntitle: t\n---\nbody") {
        HeaderOutcome::Present(m) => {
            assert_eq!(m.key, "k");
            assert_eq!(m.title, "t");
        },
        _ => panic!("expected a header"),
    }
}

#[test]
fn decode_leading_content_is_absent() {
    assert!(matches!(decode("garbage---\nkey: k\n---\n"), HeaderOutcome::Absent));
}

#[test]
fn decode_missing_title_is_malformed() {
    assert!(matches!(decode("---\nkey: k\n---\n"), HeaderOutcome::Malformed));
}

#[test]
fn decode_line_without_colon_is_malformed() {
    assert!(matches!(decode("---\nkey: k\nnonsense\n---\n"), HeaderOutcome::Malformed));
}

#[test]
fn decode_only_one_delimiter_is_absent() {
    assert!(matches!(decode("---\nkey: k\ntitle: t\n"), HeaderOutcome::Absent));
}

#[test]
fn encode_is_deterministic_and_exact() {
    let m = ShortMetadata { title: String::from("A Title"), key: String::from("DBLP:conf/x/Y1") };
    let text = encode(&m, "the body\n");
    assert_eq!(text, "---\nkey: DBLP:conf/x/Y1\ntitle: A Title\n---\nthe body\n");
    assert_eq!(text, encode(&m, "the body\n"));
}

#[test]
fn encode_then_decode_round_trips() {
    let m = ShortMetadata { title: String::from("A Title"), key: String::from("DBLP:conf/x/Y1") };
    let text = encode(&m, "free-form body");
    match decode(&text) {
        HeaderOutcome::Present(back) => {
            assert_eq!(back.key, "DBLP:conf/x/Y1");
            assert_eq!(back.title, "A Title");
        },
        _ => panic!("expected a header"),
    }
}

#[test]
fn from_block_ignores_unknown_fields_and_blank_lines() {
    let m = ShortMetadata::from_block("\nkey: a\nextra: 1\n\ntitle: b\n").unwrap();
    assert_eq!(m.key, "a");
    assert_eq!(m.title, "b");
}

#[test]
fn empty_block_between_delimiters_is_absent() {
    assert!(get_metadata_str("------").is_none());
    assert!(matches!(decode("------"), HeaderOutcome::Absent));
    assert!(get_metadata_str("  ------ rest").is_none());
}

#[test]
fn whitespace_only_block_is_present_but_malformed() {
    assert_eq!(get_metadata_str("---\n---\n").unwrap(), "\n");
    assert!(matches!(decode("---\n---\n"), HeaderOutcome::Malformed));
}
