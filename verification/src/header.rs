use vstd::prelude::*;
use vstd::string::*;

use crate::scan::{
    all_ws, find_char, find_from, first_index_from, is_first_match_from, is_ws, is_ws_char,
    lemma_first_index_from, lemma_first_match_unique, spec_trim, str_eq, trim,
};

verus! {

/// The delimiter that bounds the header block of an annotation file.
pub open spec fn delim() -> Seq<char> {
    "---"@
}

/// `p1` and `p2` bound a header: `p1` is the leftmost delimiter, only blank
/// space stands before it, `p2` is the next delimiter after it, searched
/// without overlap, and the block between them is non-empty.
pub open spec fn spec_header_bounds(s: Seq<char>, p1: int, p2: int) -> bool {
    &&& is_first_match_from(s, delim(), 0, p1)
    &&& all_ws(s.subrange(0, p1))
    &&& is_first_match_from(s, delim(), p1 + 3, p2)
    &&& p2 > p1 + 3
}

/// The text begins (after blank space at most) with a delimiter-bounded block.
pub open spec fn spec_has_header(s: Seq<char>) -> bool {
    exists|p1: int, p2: int| spec_header_bounds(s, p1, p2)
}

/// Extracts the raw text between the two header delimiters, when the file
/// carries a header: the text before the first delimiter must be blank space
/// only, a second delimiter must follow, and the block between the two must
/// be non-empty. Absence is a normal outcome, not an error.
pub fn get_metadata_str(content: &str) -> (r: Option<&str>)
    ensures
        r is Some <==> spec_has_header(content@),
        r matches Some(m) ==> exists|p1: int, p2: int|
            #[trigger] spec_header_bounds(content@, p1, p2) && m@ == content@.subrange(
                p1 + 3,
                p2,
            ),
{
    let n = content.unicode_len();
    proof {
        reveal_strlit("---");
        assert(delim().len() == 3);
    }
    let p1 = match find_from(content, "---", 0) {
        Option::None => {
            proof {
                assert(forall|p1: int, p2: int| !spec_header_bounds(content@, p1, p2));
            }
            return Option::None;
        },
        Option::Some(p) => p,
    };
    let mut i: usize = 0;
    while i < p1
        invariant
            i <= p1,
            p1 + 3 <= n,
            n == content@.len(),
            is_first_match_from(content@, delim(), 0, p1 as int),
            forall|k: int| 0 <= k < i ==> is_ws_char(#[trigger] content@[k]),
        decreases p1 - i,
    {
        if !is_ws(content.get_char(i)) {
            proof {
                assert forall|q1: int, q2: int| !spec_header_bounds(content@, q1, q2) by {
                    if spec_header_bounds(content@, q1, q2) {
                        lemma_first_match_unique(content@, delim(), 0, q1, p1 as int);
                        assert(content@.subrange(0, q1)[i as int] == content@[i as int]);
                    }
                }
            }
            return Option::None;
        }
        i = i + 1;
    }
    let p2 = match find_from(content, "---", p1 + 3) {
        Option::None => {
            proof {
                assert forall|q1: int, q2: int| !spec_header_bounds(content@, q1, q2) by {
                    if spec_header_bounds(content@, q1, q2) {
                        lemma_first_match_unique(content@, delim(), 0, q1, p1 as int);
                    }
                }
            }
            return Option::None;
        },
        Option::Some(p) => p,
    };
    if p2 == p1 + 3 {
        proof {
            assert forall|q1: int, q2: int| !spec_header_bounds(content@, q1, q2) by {
                if spec_header_bounds(content@, q1, q2) {
                    lemma_first_match_unique(content@, delim(), 0, q1, p1 as int);
                    lemma_first_match_unique(content@, delim(), p1 + 3 as int, q2, p2 as int);
                }
            }
        }
        return Option::None;
    }
    let m = content.substring_char(p1 + 3, p2);
    proof {
        assert(all_ws(content@.subrange(0, p1 as int)));
        assert(spec_header_bounds(content@, p1 as int, p2 as int));
    }
    Option::Some(m)
}

/// The name/value pairs of the block that starts at position `i`, line by
/// line: blank lines are skipped, every other line must hold a colon with a
/// nonempty trimmed name before it; both halves are kept trimmed. `None`
/// marks a malformed block.
pub open spec fn spec_block_pairs(s: Seq<char>, i: int) -> Option<Seq<(Seq<char>, Seq<char>)>>
    decreases s.len() - i,
    when 0 <= i <= s.len()
{
    if i >= s.len() {
        Some(Seq::empty())
    } else {
        let e0 = first_index_from(s, '\n', i);
        let e = if e0 < i {
            i
        } else if e0 > s.len() {
            s.len() as int
        } else {
            e0
        };
        let next = if e + 1 <= s.len() {
            e + 1
        } else {
            s.len() as int
        };
        let line = s.subrange(i, e);
        let rest = spec_block_pairs(s, next);
        if all_ws(line) {
            rest
        } else {
            let c = first_index_from(s, ':', i);
            if c >= e {
                None
            } else {
                let name = spec_trim(s.subrange(i, c));
                let value = spec_trim(s.subrange(c + 1, e));
                if name.len() == 0 {
                    None
                } else {
                    match rest {
                        Some(ps) => Some(seq![(name, value)] + ps),
                        None => None,
                    }
                }
            }
        }
    }
}

/// The views of a list of owned name/value pairs.
pub open spec fn pair_views(v: Seq<(String, String)>) -> Seq<(Seq<char>, Seq<char>)> {
    v.map_values(|p: (String, String)| (p.0@, p.1@))
}

/// The value of the first pair named `name`.
pub open spec fn spec_first_value(ps: Seq<(Seq<char>, Seq<char>)>, name: Seq<char>) -> Option<
    Seq<char>,
>
    decreases ps.len(),
{
    if ps.len() == 0 {
        None
    } else if ps[0].0 == name {
        Some(ps[0].1)
    } else {
        spec_first_value(ps.drop_first(), name)
    }
}

/// Whether every character of `s` between `lo` and `hi` is blank space.
fn range_all_ws(s: &str, lo: usize, hi: usize) -> (b: bool)
    requires
        lo <= hi <= s@.len(),
    ensures
        b == all_ws(s@.subrange(lo as int, hi as int)),
{
    let mut j: usize = lo;
    while j < hi
        invariant
            lo <= j <= hi <= s@.len(),
            forall|k: int| lo <= k < j ==> is_ws_char(#[trigger] s@[k]),
        decreases hi - j,
    {
        if !is_ws(s.get_char(j)) {
            proof {
                assert(s@.subrange(lo as int, hi as int)[j - lo] == s@[j as int]);
            }
            return false;
        }
        j = j + 1;
    }
    proof {
        assert forall|k: int| 0 <= k < hi - lo implies is_ws_char(
            #[trigger] s@.subrange(lo as int, hi as int)[k],
        ) by {
            assert(s@.subrange(lo as int, hi as int)[k] == s@[k + lo]);
        }
    }
    true
}

/// Parses the header block into its name/value pairs, in order.
fn parse_pairs(s: &str) -> (r: Option<Vec<(String, String)>>)
    ensures
        r is Some <==> spec_block_pairs(s@, 0) is Some,
        r matches Some(v) ==> spec_block_pairs(s@, 0) == Some(pair_views(v@)),
{
    let n = s.unicode_len();
    let mut acc: Vec<(String, String)> = Vec::new();
    let mut i: usize = 0;
    while i < n
        invariant
            0 <= i <= n,
            n == s@.len(),
            match spec_block_pairs(s@, i as int) {
                Some(rest) => spec_block_pairs(s@, 0) == Some(pair_views(acc@) + rest),
                None => spec_block_pairs(s@, 0) is None,
            },
        decreases n - i,
    {
        let e = find_char(s, '\n', i);
        let next = if e < n {
            e + 1
        } else {
            n
        };
        proof {
            lemma_first_index_from(s@, '\n', i as int);
        }
        if range_all_ws(s, i, e) {
            i = next;
        } else {
            let c = find_char(s, ':', i);
            if c >= e {
                proof {
                    assert(spec_block_pairs(s@, i as int) is None);
                }
                return Option::None;
            }
            let name_raw = s.substring_char(i, c);
            let name = trim(name_raw);
            if name.unicode_len() == 0 {
                proof {
                    assert(spec_block_pairs(s@, i as int) is None);
                }
                return Option::None;
            }
            let value_raw = s.substring_char(c + 1, e);
            let value = trim(value_raw);
            let ghost prev = acc@;
            acc.push((String::from_str(name), String::from_str(value)));
            proof {
                broadcast use vstd::seq::Seq::lemma_push_map_commute;

                assert(pair_views(acc@) =~= pair_views(prev).push((name@, value@)));
                assert(first_index_from(s@, '\n', i as int) == e as int);
                assert(first_index_from(s@, ':', i as int) == c as int);
                if spec_block_pairs(s@, next as int) is Some {
                    let rn = spec_block_pairs(s@, next as int)->Some_0;
                    assert(spec_block_pairs(s@, i as int) == Some(seq![(name@, value@)] + rn));
                    assert(pair_views(prev) + (seq![(name@, value@)] + rn) =~= pair_views(acc@)
                        + rn);
                } else {
                    assert(spec_block_pairs(s@, i as int) is None);
                }
            }
            i = next;
        }
    }
    proof {
        assert(spec_block_pairs(s@, i as int) == Some(Seq::<(Seq<char>, Seq<char>)>::empty()));
        assert(pair_views(acc@) + Seq::<(Seq<char>, Seq<char>)>::empty() =~= pair_views(acc@));
    }
    Option::Some(acc)
}

/// The value of the first pair named `name`, as the block parser saw it.
fn lookup_first(v: &Vec<(String, String)>, name: &str) -> (r: Option<String>)
    ensures
        r matches Some(x) ==> spec_first_value(pair_views(v@), name@) == Some(x@),
        r is None ==> spec_first_value(pair_views(v@), name@) is None,
{
    let n = v.len();
    let mut j: usize = 0;
    proof {
        assert(pair_views(v@).skip(0) =~= pair_views(v@));
    }
    while j < n
        invariant
            0 <= j <= n,
            n == v.len(),
            spec_first_value(pair_views(v@), name@) == spec_first_value(
                pair_views(v@).skip(j as int),
                name@,
            ),
        decreases n - j,
    {
        proof {
            assert(pair_views(v@).skip(j as int).drop_first() =~= pair_views(v@).skip(
                j + 1 as int,
            ));
            assert(pair_views(v@).skip(j as int)[0] == pair_views(v@)[j as int]);
        }
        if str_eq(v[j].0.as_str(), name) {
            return Option::Some(v[j].1.clone());
        }
        j = j + 1;
    }
    proof {
        assert(pair_views(v@).skip(n as int).len() == 0);
    }
    Option::None
}

/// The structured header of an annotation file: the reference key the file
/// belongs to, and the reference's title.
#[derive(Clone, Debug)]
pub struct ShortMetadata {
    pub title: String,
    pub key: String,
}

/// The header a well-formed block yields: its first `key` value and its
/// first `title` value; nothing when either is missing.
pub open spec fn spec_parse_block(s: Seq<char>) -> Option<(Seq<char>, Seq<char>)> {
    match spec_block_pairs(s, 0) {
        None => None,
        Some(ps) => match (spec_first_value(ps, "key"@), spec_first_value(ps, "title"@)) {
            (Some(k), Some(t)) => Some((k, t)),
            _ => None,
        },
    }
}

impl ShortMetadata {
    /// Parses the raw text between the delimiters into a header; `None`
    /// marks a malformed block (bad line shape, or `key`/`title` missing).
    pub fn from_block(block: &str) -> (r: Option<ShortMetadata>)
        ensures
            r is Some <==> spec_parse_block(block@) is Some,
            r matches Some(m) ==> spec_parse_block(block@) == Some((m.key@, m.title@)),
    {
        let pairs = match parse_pairs(block) {
            Option::None => {
                return Option::None;
            },
            Option::Some(v) => v,
        };
        let key = match lookup_first(&pairs, "key") {
            Option::None => {
                return Option::None;
            },
            Option::Some(k) => k,
        };
        let title = match lookup_first(&pairs, "title") {
            Option::None => {
                return Option::None;
            },
            Option::Some(t) => t,
        };
        Option::Some(ShortMetadata { title, key })
    }
}

/// What scanning one file for a header yields: a header, none at all, or a
/// delimiter-bounded block whose content is malformed. Only the last is an
/// error; most files carry no header.
pub enum HeaderOutcome {
    Present(ShortMetadata),
    Absent,
    Malformed,
}

/// Scans a file's full text for its structured header.
pub fn decode(content: &str) -> (r: HeaderOutcome)
    ensures
        r is Absent <==> !spec_has_header(content@),
        r matches HeaderOutcome::Present(m) ==> exists|p1: int, p2: int|
            #[trigger] spec_header_bounds(content@, p1, p2) && spec_parse_block(
                content@.subrange(p1 + 3, p2),
            ) == Some((m.key@, m.title@)),
        r is Malformed ==> exists|p1: int, p2: int|
            #[trigger] spec_header_bounds(content@, p1, p2) && spec_parse_block(
                content@.subrange(p1 + 3, p2),
            ) is None,
{
    match get_metadata_str(content) {
        Option::None => HeaderOutcome::Absent,
        Option::Some(block) => match ShortMetadata::from_block(block) {
            Option::Some(m) => HeaderOutcome::Present(m),
            Option::None => HeaderOutcome::Malformed,
        },
    }
}

/// The serialized form of a header block followed by `body`: delimiter
/// line, the `key` field, the `title` field, delimiter line, body — in that
/// order on every call, so that serialization is deterministic.
pub open spec fn spec_encode(key: Seq<char>, title: Seq<char>, body: Seq<char>) -> Seq<char> {
    "---\nkey: "@ + key + "\ntitle: "@ + title + "\n---\n"@ + body
}

/// Serializes a header and a free-form body into an annotation file's text.
pub fn encode(meta: &ShortMetadata, body: &str) -> (r: String)
    ensures
        r@ == spec_encode(meta.key@, meta.title@, body@),
{
    let mut r = String::from_str("---\nkey: ");
    r.append(meta.key.as_str());
    r.append("\ntitle: ");
    r.append(meta.title.as_str());
    r.append("\n---\n");
    r.append(body);
    r
}

} // verus!
