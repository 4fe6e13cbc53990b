use vstd::prelude::*;
use vstd::string::*;

use crate::header::ShortMetadata;
use crate::scan::{find_char, str_eq};

verus! {

/// `:` is unsafe in common file systems; it becomes `-` in file names.
pub open spec fn colon_to_dash(c: char) -> char {
    if c == ':' {
        '-'
    } else {
        c
    }
}

/// `s` with every colon replaced by a dash.
pub open spec fn spec_replace_colons(s: Seq<char>) -> Seq<char> {
    s.map_values(|c: char| colon_to_dash(c))
}

/// The file name derived from a reference's title: the title with colons
/// replaced, under the fixed annotation-file extension.
pub open spec fn spec_note_filename(title: Seq<char>) -> Seq<char> {
    spec_replace_colons(title) + ".md"@
}

/// Derives the annotation file's name from the reference's title.
pub fn note_filename(title: &str) -> (r: String)
    ensures
        r@ == spec_note_filename(title@),
{
    let n = title.unicode_len();
    let mut r = String::new();
    let mut i: usize = 0;
    proof {
        assert(spec_replace_colons(title@.take(0)) =~= r@);
    }
    while i < n
        invariant
            0 <= i <= n,
            n == title@.len(),
            r@ == spec_replace_colons(title@.take(i as int)),
        decreases n - i,
    {
        let e = find_char(title, ':', i);
        let seg = title.substring_char(i, e);
        r.append(seg);
        proof {
            assert forall|k: int| 0 <= k < e implies #[trigger] spec_replace_colons(
                title@.take(e as int),
            )[k] == (spec_replace_colons(title@.take(i as int)) + title@.subrange(
                i as int,
                e as int,
            ))[k] by {
                assert(spec_replace_colons(title@.take(e as int))[k] == colon_to_dash(
                    title@[k],
                ));
                if k >= i {
                    assert(title@[k] != ':');
                }
            }
            assert(spec_replace_colons(title@.take(e as int)) =~= spec_replace_colons(
                title@.take(i as int),
            ) + title@.subrange(i as int, e as int));
        }
        if e < n {
            r.append("-");
            proof {
                reveal_strlit("-");
                assert(title@[e as int] == ':');
                assert(spec_replace_colons(title@.take(e + 1 as int)) =~= spec_replace_colons(
                    title@.take(e as int),
                ) + "-"@);
            }
            i = e + 1;
        } else {
            i = n;
        }
    }
    proof {
        assert(title@.take(n as int) =~= title@);
    }
    r.append(".md");
    r
}

/// One annotation file the note index reported: where it lies and the
/// header it carries.
#[derive(Clone, Debug)]
pub struct IndexedNote {
    pub path: String,
    pub meta: ShortMetadata,
}

/// What creating an annotation file comes to, decided against the index.
pub enum NotesPlan {
    /// An indexed file already carries the requested key: create nothing.
    /// Holds the conflicting file's path.
    Duplicate(String),
    /// No indexed file carries the key: create a file under this name.
    Create(String),
}

/// Decides whether an annotation file for `bib_key` may be created, given
/// everything the note index reported. A file is planned only when no
/// indexed header carries the key; otherwise the plan names the first
/// conflicting path and nothing is to be written.
pub fn plan_notes_file(index: &Vec<IndexedNote>, bib_key: &str, title: &str) -> (r: NotesPlan)
    ensures
        r matches NotesPlan::Duplicate(p) ==> exists|i: int|
            0 <= i < index@.len() && #[trigger] index@[i].meta.key@ == bib_key@
                && index@[i].path@ == p@ && (forall|j: int|
                0 <= j < i ==> index@[j].meta.key@ != bib_key@),
        r matches NotesPlan::Create(f) ==> (forall|i: int|
            0 <= i < index@.len() ==> #[trigger] index@[i].meta.key@ != bib_key@) && f@
            == spec_note_filename(title@),
{
    let n = index.len();
    let mut j: usize = 0;
    while j < n
        invariant
            0 <= j <= n,
            n == index@.len(),
            forall|i: int| 0 <= i < j ==> #[trigger] index@[i].meta.key@ != bib_key@,
        decreases n - j,
    {
        if str_eq(index[j].meta.key.as_str(), bib_key) {
            return NotesPlan::Duplicate(index[j].path.clone());
        }
        j = j + 1;
    }
    NotesPlan::Create(note_filename(title))
}

} // verus!
