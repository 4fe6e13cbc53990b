use bibstore::codec::{BibField, StoreEntry};
use bibstore::convert::Conversion;
use bibstore::paths::backup_bib_path;
use bibstore::record::Format;

fn remote_entry(key: &str, title: &str) -> StoreEntry {
    StoreEntry {
        entry_type: String::from("article"),
        entry_key: format!("DBLP:{}", key),
        fields: vec![BibField { name: String::from("title"), value: String::from(title) }],
    }
}

fn store_of(entries: &[StoreEntry]) -> String {
    let mut text = String::new();
    for e in entries {
        text.push_str(&e.to_bibtex_string());
        text.push('\n');
    }
    text
}

#[test]
fn begin_refuses_a_malformed_store() {
    assert!(Conversion::begin("not a store").is_none());
}

#[test]
fn backup_equals_the_pre_conversion_store() {
    let text = store_of(&[remote_entry("a/1", "One"), remote_entry("b/2", "Two")]);
    let mut c = Conversion::begin(&text).unwrap();
    assert_eq!(c.backup_text(), text);
    c.step(Some("fetched one\n"));
    c.step(None);
    // success or per-entry failure: the backup text never moves
    assert_eq!(c.backup_text(), text);
    assert!(c.done());
}

#[test]
fn fallback_keeps_the_failed_entry_local_text() {
    // Three remote-backed records; the second fetch fails. The rewritten
    // store still holds three records, the second with its own local text.
    let e1 = remote_entry("a/1", "One");
    let e2 = remote_entry("b/2", "Two");
    let e3 = remote_entry("c/3", "Three");
    let text = store_of(&[e1.clone(), e2.clone(), e3.clone()]);
    let mut c = Conversion::begin(&text).unwrap();

    let f1 = "@article{DBLP:a/1,\n  title = {One Converted},\n}\n";
    let f3 = "@article{DBLP:c/3,\n  title = {Three Converted},\n}\n";
    assert!(c.current_fetch("https://dblp.uni-trier.de", Format::Standard).is_some());
    c.step(Some(f1));
    assert_eq!(c.current_key(), "DBLP:b/2");
    c.step(None);
    c.step(Some(f3));
    assert!(c.done());

    let expected = format!("{}\n{}\n{}\n", f1, e2.to_bibtex_string(), f3);
    assert_eq!(c.output_text(), &expected);
    assert_eq!(c.output_text().matches("@article").count(), 3);
    assert!(c.output_text().contains("{Two}"));
}

#[test]
fn current_fetch_builds_the_record_url() {
    let text = store_of(&[remote_entry("conf/x/Y1", "T")]);
    let c = Conversion::begin(&text).unwrap();
    let url = c.current_fetch("https://dblp.uni-trier.de", Format::Standard).unwrap();
    assert_eq!(url, "https://dblp.uni-trier.de/rec/conf/x/Y1.bib?param=1");
    let url = c.current_fetch("https://dblp.org", Format::Condensed).unwrap();
    assert_eq!(url, "https://dblp.org/rec/conf/x/Y1.bib?param=0");
}

#[test]
fn local_entry_asks_for_no_fetch() {
    let local = StoreEntry {
        entry_type: String::from("book"),
        entry_key: String::from("myown2001"),
        fields: vec![],
    };
    let text = store_of(&[local]);
    let mut c = Conversion::begin(&text).unwrap();
    assert!(c.current_fetch("https://dblp.uni-trier.de", Format::Standard).is_none());
    c.step(None);
    assert!(c.done());
    assert_eq!(c.output_text(), "@book{myown2001,\n}\n\n");
}

#[test]
fn converted_store_parses_back() {
    let text = store_of(&[remote_entry("a/1", "One"), remote_entry("b/2", "Two")]);
    let mut c = Conversion::begin(&text).unwrap();
    c.step(None);
    c.step(None);
    let reparsed = bibstore::codec::parse_store(c.output_text()).unwrap();
    assert_eq!(reparsed.len(), 2);
    assert_eq!(reparsed[1].entry_key, "DBLP:b/2");
}

#[test]
fn backup_path_adds_the_suffix() {
    assert_eq!(backup_bib_path("refs.bib"), "refs.bib.bak");
}
