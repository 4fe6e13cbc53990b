use vstd::prelude::*;
use vstd::string::*;

use crate::record::{spec_get_param, spec_local_key, DblpHitInfo, Format};
use crate::scan::{contains_seq, is_match_at, text_contains};

verus! {

/// The text of a store that may not exist yet: a missing store is empty.
pub open spec fn spec_store_view(t: Option<String>) -> Seq<char> {
    match t {
        Option::None => Seq::empty(),
        Option::Some(s) => s@,
    }
}

/// Whether the store text already carries the record's local key.
///
/// Membership is deliberately a textual scan for the key as a run of
/// characters, not a structural parse: it must hold up against a store file
/// that is empty, partially written, or not yet valid structured text.
pub open spec fn spec_is_present(t: Option<String>, key: Seq<char>) -> bool {
    contains_seq(spec_store_view(t), key)
}

/// Reports whether `item`'s local key already occurs in the store text.
/// `store_text` is the store file's content, or absent when there is no
/// store file yet; a missing store holds nothing.
pub fn is_present(store_text: &Option<String>, item: &DblpHitInfo) -> (b: bool)
    ensures
        b == spec_is_present(*store_text, spec_local_key(*item)),
{
    match store_text {
        Option::None => {
            proof {
                reveal_strlit("DBLP:");
                assert(spec_local_key(*item).len() >= 5);
            }
            false
        },
        Option::Some(text) => {
            let key = item.get_key();
            text_contains(text.as_str(), key.as_str())
        },
    }
}

/// What one run of the append pipeline does to the store text: nothing when
/// the key is already present, otherwise the fetched text plus a line break
/// is appended.
pub open spec fn spec_append_step(store: Seq<char>, key: Seq<char>, fetched: Seq<char>) -> Seq<
    char,
> {
    if contains_seq(store, key) {
        store
    } else {
        store + fetched + "\n"@
    }
}

/// What the append pipeline asks of its caller next.
pub enum AppendAction {
    /// The record's key is already in the store: fetch nothing, write nothing.
    AlreadyPresent,
    /// Fetch the canonical citation text from this URL and append it.
    Fetch(String),
}

/// Decides the append pipeline's one remote step for `item` against the
/// given store text: skip when the local key is already present, otherwise
/// fetch the standard rendering from the record's URL.
pub fn plan_append(store_text: &Option<String>, item: &DblpHitInfo) -> (r: AppendAction)
    ensures
        r is AlreadyPresent <==> spec_is_present(*store_text, spec_local_key(*item)),
        r matches AppendAction::Fetch(url) ==> url@ == item.url@ + ".bib"@ + spec_get_param(
            Format::Standard,
        ),
{
    if is_present(store_text, item) {
        AppendAction::AlreadyPresent
    } else {
        AppendAction::Fetch(item.bib_url(Format::Standard))
    }
}

/// The line group that the append pipeline writes at the end of the store:
/// the fetched canonical text followed by a line break.
pub fn appended_line(fetched: &str) -> (r: String)
    ensures
        r@ == fetched@ + "\n"@,
{
    let mut r = String::from_str(fetched);
    r.append("\n");
    r
}

/// How often `pat` occurs in `s`, counting every start position.
pub open spec fn count_occ(s: Seq<char>, pat: Seq<char>) -> nat
    decreases s.len(),
{
    if pat.len() == 0 || s.len() < pat.len() {
        0
    } else {
        (if is_match_at(s, pat, 0) {
            1nat
        } else {
            0nat
        }) + count_occ(s.drop_first(), pat)
    }
}

/// Occurrences shift by one when the first character is dropped.
proof fn lemma_match_drop_first(s: Seq<char>, pat: Seq<char>, i: int)
    requires
        s.len() >= 1,
        1 <= i,
    ensures
        is_match_at(s, pat, i) == is_match_at(s.drop_first(), pat, i - 1),
{
    if i + pat.len() <= s.len() {
        assert(s.drop_first().subrange(i - 1, i - 1 + pat.len()) =~= s.subrange(
            i,
            i + pat.len(),
        ));
    }
}

/// A positive occurrence count names a position where the pattern occurs.
proof fn lemma_count_pos(s: Seq<char>, pat: Seq<char>)
    requires
        count_occ(s, pat) > 0,
    ensures
        contains_seq(s, pat),
    decreases s.len(),
{
    if is_match_at(s, pat, 0) {
    } else {
        lemma_count_pos(s.drop_first(), pat);
        let i = choose|i: int| is_match_at(s.drop_first(), pat, i);
        lemma_match_drop_first(s, pat, i + 1);
        assert(is_match_at(s, pat, i + 1));
    }
}

/// When every occurrence of `pat` in `prefix + t` lies at or after the end
/// of `prefix`, the count over the whole equals the count over `t`.
proof fn lemma_count_prefix_free(prefix: Seq<char>, t: Seq<char>, pat: Seq<char>)
    requires
        pat.len() > 0,
        forall|i: int| #[trigger] is_match_at(prefix + t, pat, i) ==> i >= prefix.len(),
    ensures
        count_occ(prefix + t, pat) == count_occ(t, pat),
    decreases prefix.len(),
{
    let s = prefix + t;
    if prefix.len() == 0 {
        assert(s =~= t);
    } else {
        assert(!is_match_at(s, pat, 0));
        assert(s.drop_first() =~= prefix.drop_first() + t);
        assert forall|i: int| #[trigger]
            is_match_at(prefix.drop_first() + t, pat, i) implies i >= prefix.len() - 1 by {
            lemma_match_drop_first(s, pat, i + 1);
            assert(is_match_at(s, pat, i + 1));
        }
        lemma_count_prefix_free(prefix.drop_first(), t, pat);
        if s.len() < pat.len() {
            assert(t.len() < pat.len());
        } else {
            assert(count_occ(s, pat) == count_occ(s.drop_first(), pat));
        }
    }
}

/// Idempotent append: once the append pipeline has run for a record whose
/// fetched canonical text carries its local key, running it again with any
/// fetched text leaves the store exactly as it was after the first run.
pub proof fn lemma_append_idempotent(
    store: Seq<char>,
    key: Seq<char>,
    fetched: Seq<char>,
    fetched2: Seq<char>,
)
    requires
        contains_seq(fetched, key),
    ensures
        spec_append_step(spec_append_step(store, key, fetched), key, fetched2)
            == spec_append_step(store, key, fetched),
{
    if !contains_seq(store, key) {
        let s1 = store + fetched + "\n"@;
        let i = choose|i: int| is_match_at(fetched, key, i);
        assert(s1.subrange(store.len() + i, store.len() + i + key.len()) =~= fetched.subrange(
            i,
            i + key.len(),
        ));
        assert(is_match_at(s1, key, store.len() + i));
    }
}

/// Appending a fetched text that carries the record's local key exactly once
/// to a store that carries it nowhere — not even overlapping the boundary —
/// leaves exactly one occurrence of the key, and a second run of the append
/// pipeline neither fetches again nor changes that.
pub proof fn lemma_append_unique_key(store: Seq<char>, key: Seq<char>, fetched: Seq<char>)
    requires
        key.len() > 0,
        count_occ(fetched + "\n"@, key) == 1,
        forall|i: int| #[trigger]
            is_match_at(store + (fetched + "\n"@), key, i) ==> i >= store.len(),
    ensures
        spec_append_step(store, key, fetched) == store + fetched + "\n"@,
        count_occ(spec_append_step(store, key, fetched), key) == 1,
        spec_append_step(spec_append_step(store, key, fetched), key, fetched)
            == spec_append_step(store, key, fetched),
{
    let s1 = store + fetched + "\n"@;
    assert(s1 =~= store + (fetched + "\n"@));
    if contains_seq(store, key) {
        let i = choose|i: int| is_match_at(store, key, i);
        assert(store.subrange(i, i + key.len()) == key);
        assert(s1.subrange(i, i + key.len()) =~= store.subrange(i, i + key.len()));
        assert(is_match_at(store + (fetched + "\n"@), key, i));
        assert(false);
    }
    lemma_count_prefix_free(store, fetched + "\n"@, key);
    lemma_count_pos(s1, key);
}

} // verus!
