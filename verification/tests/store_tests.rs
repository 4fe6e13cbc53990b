use bibstore::record::{DblpAuthor, DblpAuthorEntry, DblpAuthorList, DblpHitInfo};
use bibstore::store::{appended_line, is_present, plan_append, AppendAction};

fn record(key: &str) -> DblpHitInfo {
    DblpHitInfo {
        key: String::from(key),
        authors: DblpAuthorEntry {
            author: DblpAuthorList::Single(DblpAuthor { name: String::from("Ada Lovelace") }),
        },
        title: String::from("On Engines"),
        venue: String::from("J. Comp."),
        year: String::from("1843"),
        url: String::from("https://dblp.org/rec/journals/jc/L43"),
    }
}

#[test]
fn missing_store_holds_nothing() {
    assert!(!is_present(&None, &record("abc")));
}

#[test]
fn present_key_is_found_in_any_line() {
    let store = Some(String::from("@article{DBLP:abc,\n  title = {X},\n}\n"));
    assert!(is_present(&store, &record("abc")));
    assert!(!is_present(&store, &record("abcd")));
    assert!(!is_present(&store, &record("xyz")));
}

#[test]
fn membership_tolerates_unstructured_store_text() {
    let store = Some(String::from("half-written junk DBLP:abc more junk"));
    assert!(is_present(&store, &record("abc")));
}

#[test]
fn idempotent_append_scenario() {
    // The store already holds the record under its local key: the pipeline
    // plans no fetch and no write, and the key handed onward is the local
    // key.
    let rec = record("abc");
    let store = Some(String::from("@article{DBLP:abc,\n  title = {X},\n}\n"));
    assert!(matches!(plan_append(&store, &rec), AppendAction::AlreadyPresent));
    assert_eq!(rec.get_key(), "DBLP:abc");
}

#[test]
fn absent_key_plans_a_standard_fetch() {
    let rec = record("new/key/1");
    let store = Some(String::from("@article{DBLP:abc,\n}\n"));
    match plan_append(&store, &rec) {
        AppendAction::Fetch(url) => {
            assert_eq!(url, "https://dblp.org/rec/journals/jc/L43.bib?param=1");
        },
        AppendAction::AlreadyPresent => panic!("the key is not in the store"),
    }
}

#[test]
fn append_against_missing_store_plans_a_fetch() {
    assert!(matches!(plan_append(&None, &record("abc")), AppendAction::Fetch(_)));
}

#[test]
fn appended_line_ends_with_a_line_break() {
    assert_eq!(appended_line("@article{DBLP:abc,\n}"), "@article{DBLP:abc,\n}\n");
}

#[test]
fn second_append_changes_nothing() {
    // Drive the pipeline twice by hand: after the first append the key is
    // present, so the second run plans no write at all.
    let rec = record("abc");
    let fetched = "@article{DBLP:abc,\n  title = {X},\n}";
    let mut store_text = String::new();
    match plan_append(&Some(store_text.clone()), &rec) {
        AppendAction::Fetch(_) => {
            store_text.push_str(&appended_line(fetched));
        },
        AppendAction::AlreadyPresent => panic!("empty store holds nothing"),
    }
    let once = store_text.clone();
    assert!(matches!(plan_append(&Some(store_text.clone()), &rec), AppendAction::AlreadyPresent));
    assert_eq!(store_text, once);
    assert_eq!(store_text.matches("DBLP:abc").count(), 1);
}
