use bibstore::header::ShortMetadata;
use bibstore::notes::{note_filename, plan_notes_file, IndexedNote, NotesPlan};
use bibstore::paths::get_unique_bib;
use bibstore::record::{
    bold, join_param_string, join_with, record_url, search_url, underline, DblpAuthor,
    DblpAuthorEntry, DblpAuthorList, DblpHitInfo, Format,
};
use bibstore::scan::{find_from, str_eq, text_contains, trim};

fn hit(authors: DblpAuthorList) -> DblpHitInfo {
    DblpHitInfo {
        key: String::from("conf/x/Y1"),
        authors: DblpAuthorEntry { author: authors },
        title: String::from("A Title"),
        venue: String::from("CONF"),
        year: String::from("2001"),
        url: String::from("https://dblp.org/rec/conf/x/Y1"),
    }
}

#[test]
fn format_params_are_the_protocol_constants() {
    assert_eq!(Format::Standard.get_param(), "?param=1");
    assert_eq!(Format::Condensed.get_param(), "?param=0");
}

#[test]
fn bib_url_appends_extension_and_param() {
    let h = hit(DblpAuthorList::Single(DblpAuthor { name: String::from("A") }));
    assert_eq!(h.bib_url(Format::Standard), "https://dblp.org/rec/conf/x/Y1.bib?param=1");
    assert_eq!(h.bib_url(Format::Condensed), "https://dblp.org/rec/conf/x/Y1.bib?param=0");
}

#[test]
fn get_key_prefixes_the_catalog_key() {
    let h = hit(DblpAuthorList::Single(DblpAuthor { name: String::from("A") }));
    assert_eq!(h.get_key(), "DBLP:conf/x/Y1");
}

#[test]
fn search_url_is_exact() {
    assert_eq!(
        search_url("https://dblp.org", "graph+coloring", Format::Condensed),
        "https://dblp.org/search/publ/api?q=graph+coloring&format=json&?param=0"
    );
}

#[test]
fn record_url_is_exact() {
    assert_eq!(
        record_url("https://dblp.uni-trier.de", "conf/x/Y1", Format::Standard),
        "https://dblp.uni-trier.de/rec/conf/x/Y1.bib?param=1"
    );
}

#[test]
fn author_list_flattens_in_order() {
    let single = DblpAuthorEntry {
        author: DblpAuthorList::Single(DblpAuthor { name: String::from("Solo") }),
    };
    assert_eq!(single.as_vec(), vec![String::from("Solo")]);
    let many = DblpAuthorEntry {
        author: DblpAuthorList::List(vec![
            DblpAuthor { name: String::from("First") },
            DblpAuthor { name: String::from("Second") },
        ]),
    };
    assert_eq!(many.as_vec(), vec![String::from("First"), String::from("Second")]);
}

#[test]
fn display_text_joins_title_and_authors() {
    let h = hit(DblpAuthorList::List(vec![
        DblpAuthor { name: String::from("First") },
        DblpAuthor { name: String::from("Second") },
    ]));
    assert_eq!(h.text_line(), "A Title First Second");
    assert_eq!(
        h.preview_text(),
        format!("{}\n{}\nCONF 2001", underline("First, Second"), bold("A Title"))
    );
}

#[test]
fn terminal_emphasis_wraps_in_escape_codes() {
    assert_eq!(bold("x"), "\u{1b}[1mx\u{1b}[0m");
    assert_eq!(underline("y"), "\u{1b}[4my\u{1b}[0m");
}

#[test]
fn join_with_separates_only_between_parts() {
    assert_eq!(join_with(&vec![], "+"), "");
    assert_eq!(join_with(&vec![String::from("a")], "+"), "a");
    assert_eq!(join_with(&vec![String::from("a"), String::from(""), String::from("b")], "+"), "a++b");
}

#[test]
fn unique_bib_needs_exactly_one() {
    assert_eq!(get_unique_bib(&vec![String::from("refs.bib")]), Some(String::from("refs.bib")));
    assert_eq!(get_unique_bib(&vec![String::from("a.bib"), String::from("b.bib")]), None);
    assert_eq!(get_unique_bib(&vec![]), None);
    assert_eq!(
        get_unique_bib(&vec![String::from("notes.txt"), String::from("a.bib")]),
        Some(String::from("a.bib"))
    );
    assert_eq!(get_unique_bib(&vec![String::from(".bib")]), None);
}

#[test]
fn note_filename_replaces_colons() {
    assert_eq!(note_filename("Engines: A Survey"), "Engines- A Survey.md");
    assert_eq!(note_filename("plain"), "plain.md");
}

#[test]
fn duplicate_key_blocks_creation() {
    // Membership before creation: an indexed header with the requested key
    // means no file is planned, and the conflicting path is named.
    let index = vec![IndexedNote {
        path: String::from("notes/old.md"),
        meta: ShortMetadata { title: String::from("Old"), key: String::from("DBLP:abc") },
    }];
    match plan_notes_file(&index, "DBLP:abc", "New Title") {
        NotesPlan::Duplicate(p) => assert_eq!(p, "notes/old.md"),
        NotesPlan::Create(_) => panic!("the key is already indexed"),
    }
    match plan_notes_file(&index, "DBLP:other", "New: Title") {
        NotesPlan::Create(f) => assert_eq!(f, "New- Title.md"),
        NotesPlan::Duplicate(_) => panic!("the key is not indexed"),
    }
}

#[test]
fn scanning_helpers_behave() {
    assert!(text_contains("abcdef", "cde"));
    assert!(!text_contains("abcdef", "ce"));
    assert_eq!(find_from("--x---y", "---", 0), Some(3));
    assert_eq!(find_from("------", "---", 1), Some(1));
    assert_eq!(trim("  \t a b \n"), "a b");
    assert_eq!(trim("   "), "");
    assert!(str_eq("same", "same"));
    assert!(!str_eq("same", "sane"));
}

#[test]
fn query_words_are_cut_trimmed_and_joined() {
    assert_eq!(join_param_string(&vec![String::from("graph coloring"), String::from("trees")]), "graph+coloring+trees");
    assert_eq!(join_param_string(&vec![String::from("a  b")]), "a++b");
    assert_eq!(join_param_string(&vec![String::from("\ta \tb ")]), "a+b+");
    assert_eq!(join_param_string(&vec![]), "");
    assert_eq!(join_param_string(&vec![String::from("")]), "");
}
