use bibstore::codec::{parse_store, BibField, StoreEntry};

fn entry(entry_type: &str, key: &str, fields: &[(&str, &str)]) -> StoreEntry {
    StoreEntry {
        entry_type: String::from(entry_type),
        entry_key: String::from(key),
        fields: fields
            .iter()
            .map(|(n, v)| BibField { name: String::from(*n), value: String::from(*v) })
            .collect(),
    }
}

#[test]
fn serialize_is_exact_and_deterministic() {
    let e = entry(
        "article",
        "DBLP:journals/jc/L43",
        &[("author", "Ada Lovelace"), ("title", "On Engines")],
    );
    let expected = "@article{DBLP:journals/jc/L43,\n  author = {Ada Lovelace},\n  title = {On Engines},\n}\n";
    assert_eq!(e.to_bibtex_string(), expected);
    assert_eq!(e.to_bibtex_string(), expected);
}

#[test]
fn parse_of_serialized_entry_round_trips() {
    let e = entry("inproceedings", "DBLP:conf/x/Y1", &[("title", "A: B"), ("year", "1999")]);
    let parsed = parse_store(&e.to_bibtex_string()).unwrap();
    assert_eq!(parsed.len(), 1);
    assert_eq!(parsed[0].entry_type, "inproceedings");
    assert_eq!(parsed[0].entry_key, "DBLP:conf/x/Y1");
    assert_eq!(parsed[0].fields.len(), 2);
    assert_eq!(parsed[0].fields[0].name, "title");
    assert_eq!(parsed[0].fields[0].value, "A: B");
    assert_eq!(parsed[0].fields[1].name, "year");
    assert_eq!(parsed[0].fields[1].value, "1999");
}

#[test]
fn parse_accepts_blank_lines_between_records() {
    let text = "\n@article{k1,\n  title = {One},\n}\n\n@misc{k2,\n  note = {Two},\n}\n\n";
    let parsed = parse_store(text).unwrap();
    assert_eq!(parsed.len(), 2);
    assert_eq!(parsed[0].entry_key, "k1");
    assert_eq!(parsed[1].entry_key, "k2");
}

#[test]
fn parse_of_empty_store_is_an_empty_list() {
    assert_eq!(parse_store("").unwrap().len(), 0);
    assert_eq!(parse_store("  \n \n").unwrap().len(), 0);
}

#[test]
fn parse_rejects_text_without_record_marker() {
    assert!(parse_store("just some prose").is_none());
}

#[test]
fn parse_rejects_unterminated_record() {
    assert!(parse_store("@article{k1,\n  title = {One},\n").is_none());
}

#[test]
fn parse_rejects_field_without_value_braces() {
    assert!(parse_store("@article{k1,\n  title = One,\n}\n").is_none());
}

#[test]
fn remote_key_strips_the_prefix() {
    let e = entry("article", "DBLP:conf/x/Y1", &[]);
    assert_eq!(e.remote_key().unwrap(), "conf/x/Y1");
    assert!(e.is_remote_backed());
}

#[test]
fn local_entry_has_no_remote_key() {
    let e = entry("article", "myown2001", &[]);
    assert!(e.remote_key().is_none());
    assert!(!e.is_remote_backed());
}

#[test]
fn braced_values_round_trip() {
    let e = entry(
        "article",
        "DBLP:journals/x/J1",
        &[("author", "J{\"{o}}rg Nurk"), ("title", "The {DBLP} Story")],
    );
    let parsed = parse_store(&e.to_bibtex_string()).unwrap();
    assert_eq!(parsed.len(), 1);
    assert_eq!(parsed[0].fields[0].value, "J{\"{o}}rg Nurk");
    assert_eq!(parsed[0].fields[1].value, "The {DBLP} Story");
}

#[test]
fn parse_accepts_nested_braces_in_store_text() {
    let text = "@article{DBLP:a/1,\n  author = {Ren{\\'{e}} D.},\n  title = {On {Trees}},\n}\n";
    let parsed = parse_store(text).unwrap();
    assert_eq!(parsed.len(), 1);
    assert_eq!(parsed[0].fields[0].value, "Ren{\\'{e}} D.");
    assert_eq!(parsed[0].fields[1].value, "On {Trees}");
}

#[test]
fn parse_rejects_unbalanced_value_braces() {
    assert!(parse_store("@article{k1,\n  title = {One{,\n}\n").is_none());
}
