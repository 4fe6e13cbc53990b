use vstd::prelude::*;
use vstd::string::*;

verus! {

/// Which textual rendering of a citation the remote catalog is asked for.
#[derive(Copy, Clone, PartialEq, Eq, Structural)]
pub enum Format {
    Condensed,
    Standard,
}

/// The query parameter that selects `f`'s rendering on the remote catalog.
pub open spec fn spec_get_param(f: Format) -> Seq<char> {
    match f {
        Format::Standard => "?param=1"@,
        Format::Condensed => "?param=0"@,
    }
}

impl Format {
    /// The fixed format-selector query parameter, an external-protocol constant.
    pub fn get_param(&self) -> (r: &'static str)
        ensures
            r@ == spec_get_param(*self),
    {
        match self {
            Format::Standard => "?param=1",
            Format::Condensed => "?param=0",
        }
    }
}

/// One author display name of a catalog search hit.
#[derive(Clone, Debug)]
pub struct DblpAuthor {
    pub name: String,
}

/// The remote catalog reports a single author bare and several as a list.
#[derive(Clone, Debug)]
pub enum DblpAuthorList {
    Single(DblpAuthor),
    List(Vec<DblpAuthor>),
}

/// The author block of a catalog search hit.
#[derive(Clone, Debug)]
pub struct DblpAuthorEntry {
    pub author: DblpAuthorList,
}

/// The views of a list of strings.
pub open spec fn string_views(v: Seq<String>) -> Seq<Seq<char>> {
    v.map_values(|p: String| p@)
}

/// The display names of a list of authors, in order.
pub open spec fn author_name_views(v: Seq<DblpAuthor>) -> Seq<Seq<char>> {
    v.map_values(|a: DblpAuthor| a.name@)
}

/// The author display names carried by `e`, in source order.
pub open spec fn spec_author_names(e: DblpAuthorEntry) -> Seq<Seq<char>> {
    match e.author {
        DblpAuthorList::Single(a) => seq![a.name@],
        DblpAuthorList::List(v) => author_name_views(v@),
    }
}

impl DblpAuthorEntry {
    /// All author names as one ordered list, whatever shape the catalog used.
    pub fn as_vec(&self) -> (r: Vec<String>)
        ensures
            string_views(r@) == spec_author_names(*self),
    {
        match &self.author {
            DblpAuthorList::Single(author) => {
                let mut r: Vec<String> = Vec::new();
                r.push(author.name.clone());
                proof {
                    assert(string_views(r@) =~= spec_author_names(*self));
                }
                r
            },
            DblpAuthorList::List(authors) => {
                let mut r: Vec<String> = Vec::new();
                let mut i: usize = 0;
                while i < authors.len()
                    invariant
                        i <= authors.len(),
                        string_views(r@) == author_name_views(authors@.take(i as int)),
                    decreases authors.len() - i,
                {
                    r.push(authors[i].name.clone());
                    proof {
                        broadcast use vstd::seq::Seq::lemma_map_take_succ;
                        broadcast use vstd::seq::Seq::lemma_push_map_commute;

                        assert(string_views(r@) =~= author_name_views(
                            authors@.take((i + 1) as int),
                        ));
                    }
                    i = i + 1;
                }
                proof {
                    assert(authors@.take(authors.len() as int) =~= authors@);
                    assert(string_views(r@) =~= spec_author_names(*self));
                }
                r
            },
        }
    }
}

/// A remote catalog search hit: the record the append pipeline consumes.
#[derive(Clone, Debug)]
pub struct DblpHitInfo {
    pub key: String,
    pub authors: DblpAuthorEntry,
    pub title: String,
    pub venue: String,
    pub year: String,
    pub url: String,
}

/// The fixed prefix that marks a store entry as remote-backed.
pub open spec fn spec_key_prefix() -> Seq<char> {
    "DBLP:"@
}

/// The identifier under which `info` is recognized inside the local store.
pub open spec fn spec_local_key(info: DblpHitInfo) -> Seq<char> {
    spec_key_prefix() + info.key@
}

impl DblpHitInfo {
    /// The URL from which `bibtype`'s rendering of this record is fetched.
    pub fn bib_url(&self, bibtype: Format) -> (r: String)
        ensures
            r@ == self.url@ + ".bib"@ + spec_get_param(bibtype),
    {
        let mut r = self.url.clone();
        r.append(".bib");
        r.append(bibtype.get_param());
        r
    }

    /// The local-store key: the fixed prefix followed by the catalog key.
    pub fn get_key(&self) -> (r: String)
        ensures
            r@ == spec_local_key(*self),
    {
        let mut r = String::from_str("DBLP:");
        r.append(self.key.as_str());
        r
    }

    /// One line of searchable text: title, then the author names.
    pub fn text_line(&self) -> (r: String)
        ensures
            r@ == self.title@ + " "@ + spec_join(spec_author_names(self.authors), " "@),
    {
        let names = self.authors.as_vec();
        let joined = join_with(&names, " ");
        let mut r = self.title.clone();
        r.append(" ");
        r.append(joined.as_str());
        r
    }

    /// The multi-line preview text: authors, title, then venue and year.
    pub fn preview_text(&self) -> (r: String)
        ensures
            r@ == spec_underline(spec_join(spec_author_names(self.authors), ", "@)) + "\n"@
                + spec_bold(self.title@) + "\n"@ + self.venue@ + " "@ + self.year@,
    {
        let names = self.authors.as_vec();
        let joined = join_with(&names, ", ");
        let mut r = underline(joined.as_str());
        r.append("\n");
        let b = bold(self.title.as_str());
        r.append(b.as_str());
        r.append("\n");
        r.append(self.venue.as_str());
        r.append(" ");
        r.append(self.year.as_str());
        r
    }
}

/// `s` wrapped in the terminal escape codes for bold text.
pub open spec fn spec_bold(s: Seq<char>) -> Seq<char> {
    "\u{1b}[1m"@ + s + "\u{1b}[0m"@
}

/// `s` wrapped in the terminal escape codes for underlined text.
pub open spec fn spec_underline(s: Seq<char>) -> Seq<char> {
    "\u{1b}[4m"@ + s + "\u{1b}[0m"@
}

pub fn bold(s: &str) -> (r: String)
    ensures
        r@ == spec_bold(s@),
{
    let mut r = String::from_str("\u{1b}[1m");
    r.append(s);
    r.append("\u{1b}[0m");
    r
}

pub fn underline(s: &str) -> (r: String)
    ensures
        r@ == spec_underline(s@),
{
    let mut r = String::from_str("\u{1b}[4m");
    r.append(s);
    r.append("\u{1b}[0m");
    r
}

/// `parts` joined by `sep`: empty for no parts, no separator around one part.
pub open spec fn spec_join(parts: Seq<Seq<char>>, sep: Seq<char>) -> Seq<char>
    decreases parts.len(),
{
    if parts.len() == 0 {
        Seq::empty()
    } else if parts.len() == 1 {
        parts[0]
    } else {
        parts[0] + sep + spec_join(parts.drop_first(), sep)
    }
}

/// Adding one part on the right extends the join by a separator and the part.
proof fn lemma_join_push(parts: Seq<Seq<char>>, sep: Seq<char>, x: Seq<char>)
    ensures
        spec_join(parts.push(x), sep) == if parts.len() == 0 {
            x
        } else {
            (spec_join(parts, sep) + sep + x)
        },
    decreases parts.len(),
{
    if parts.len() == 0 {
        assert(parts.push(x).len() == 1);
        assert(parts.push(x)[0] == x);
    } else if parts.len() == 1 {
        assert(parts.push(x).drop_first() =~= seq![x]);
        assert(spec_join(seq![x], sep) == x);
        assert(spec_join(parts.push(x), sep) == parts.push(x)[0] + sep + spec_join(
            parts.push(x).drop_first(),
            sep,
        ));
        assert(parts.push(x)[0] == parts[0]);
    } else {
        assert(parts.push(x).drop_first() =~= parts.drop_first().push(x));
        lemma_join_push(parts.drop_first(), sep, x);
        assert(spec_join(parts, sep) == parts[0] + sep + spec_join(parts.drop_first(), sep));
        assert((parts[0] + sep + spec_join(parts.drop_first(), sep)) + sep + x =~= parts[0] + sep
            + (spec_join(parts.drop_first(), sep) + sep + x));
    }
}

/// Joins `parts` with `sep` between consecutive parts.
pub fn join_with(parts: &Vec<String>, sep: &str) -> (r: String)
    ensures
        r@ == spec_join(string_views(parts@), sep@),
{
    let ghost views = string_views(parts@);
    let mut r = String::new();
    let mut i: usize = 0;
    while i < parts.len()
        invariant
            i <= parts.len(),
            views == string_views(parts@),
            r@ == spec_join(views.take(i as int), sep@),
        decreases parts.len() - i,
    {
        if i > 0 {
            r.append(sep);
        }
        r.append(parts[i].as_str());
        proof {
            assert(views.take(i + 1 as int) =~= views.take(i as int).push(views[i as int]));
            lemma_join_push(views.take(i as int), sep@, views[i as int]);
        }
        i = i + 1;
    }
    proof {
        assert(views.take(parts.len() as int) =~= views);
    }
    r
}

/// The pieces of `s` from position `i` on, cut at every single space;
/// consecutive spaces yield empty pieces, as the cut keeps every gap.
pub open spec fn spec_split_at(s: Seq<char>, i: int) -> Seq<Seq<char>>
    decreases s.len() - i,
    when 0 <= i <= s.len()
{
    let e0 = crate::scan::first_index_from(s, ' ', i);
    let e = if e0 < i {
        i
    } else if e0 > s.len() {
        s.len() as int
    } else {
        e0
    };
    if e >= s.len() {
        seq![s.subrange(i, s.len() as int)]
    } else {
        seq![s.subrange(i, e)] + spec_split_at(s, e + 1)
    }
}

/// Each piece with its surrounding blank space removed.
pub open spec fn trimmed_views(ps: Seq<Seq<char>>) -> Seq<Seq<char>> {
    ps.map_values(|p: Seq<char>| crate::scan::spec_trim(p))
}

/// The trimmed space-cut pieces of one text.
pub open spec fn spec_trimmed_pieces(s: Seq<char>) -> Seq<Seq<char>> {
    trimmed_views(spec_split_at(s, 0))
}

/// The trimmed pieces of all the texts, in order.
pub open spec fn spec_all_pieces(ss: Seq<Seq<char>>) -> Seq<Seq<char>>
    decreases ss.len(),
{
    if ss.len() == 0 {
        Seq::empty()
    } else {
        spec_trimmed_pieces(ss[0]) + spec_all_pieces(ss.drop_first())
    }
}

/// One more text contributes its pieces at the end.
proof fn lemma_all_pieces_push(ss: Seq<Seq<char>>, x: Seq<char>)
    ensures
        spec_all_pieces(ss.push(x)) == spec_all_pieces(ss) + spec_trimmed_pieces(x),
    decreases ss.len(),
{
    if ss.len() == 0 {
        assert(ss.push(x)[0] == x);
        assert(ss.push(x).drop_first() =~= Seq::<Seq<char>>::empty());
        assert(spec_all_pieces(ss.push(x)) == spec_trimmed_pieces(x) + spec_all_pieces(
            Seq::<Seq<char>>::empty(),
        ));
        assert(spec_trimmed_pieces(x) + Seq::<Seq<char>>::empty() =~= spec_trimmed_pieces(x));
        assert(Seq::<Seq<char>>::empty() + spec_trimmed_pieces(x) =~= spec_trimmed_pieces(x));
    } else {
        assert(ss.push(x)[0] == ss[0]);
        assert(ss.push(x).drop_first() =~= ss.drop_first().push(x));
        lemma_all_pieces_push(ss.drop_first(), x);
        assert(spec_all_pieces(ss.push(x)) == spec_trimmed_pieces(ss[0]) + spec_all_pieces(
            ss.drop_first().push(x),
        ));
        assert(spec_trimmed_pieces(ss[0]) + (spec_all_pieces(ss.drop_first())
            + spec_trimmed_pieces(x)) =~= (spec_trimmed_pieces(ss[0]) + spec_all_pieces(
            ss.drop_first(),
        )) + spec_trimmed_pieces(x));
    }
}

/// Builds the catalog query from the command line's words: every text is
/// cut at its spaces, each piece trimmed of blank space, and the pieces
/// joined with `+`.
pub fn join_param_string(strings: &Vec<String>) -> (r: String)
    ensures
        r@ == spec_join(spec_all_pieces(string_views(strings@)), "+"@),
{
    let mut pieces: Vec<String> = Vec::new();
    let mut j: usize = 0;
    proof {
        assert(string_views(pieces@) =~= spec_all_pieces(string_views(strings@).take(0)));
    }
    while j < strings.len()
        invariant
            j <= strings.len(),
            string_views(pieces@) == spec_all_pieces(string_views(strings@).take(j as int)),
        decreases strings.len() - j,
    {
        let ghost before = string_views(pieces@);
        let s = strings[j].as_str();
        let n = s.unicode_len();
        let mut i: usize = 0;
        let mut e = crate::scan::find_char(s, ' ', 0);
        while e < n
            invariant
                i <= e <= n,
                n == s@.len(),
                e == crate::scan::first_index_from(s@, ' ', i as int),
                string_views(pieces@) + trimmed_views(spec_split_at(s@, i as int)) == before
                    + spec_trimmed_pieces(s@),
            decreases n - i,
        {
            let piece = crate::scan::trim(s.substring_char(i, e));
            let ghost prev = pieces@;
            pieces.push(String::from_str(piece));
            proof {
                broadcast use vstd::seq::Seq::lemma_push_map_commute;

                assert(string_views(pieces@) =~= string_views(prev).push(piece@));
                assert(trimmed_views(spec_split_at(s@, i as int))
                    =~= seq![piece@] + trimmed_views(spec_split_at(s@, e + 1 as int)));
                assert(string_views(prev) + (seq![piece@] + trimmed_views(
                    spec_split_at(s@, e + 1 as int),
                )) =~= string_views(pieces@) + trimmed_views(spec_split_at(s@, e + 1 as int)));
            }
            i = e + 1;
            e = crate::scan::find_char(s, ' ', i);
        }
        let piece = crate::scan::trim(s.substring_char(i, e));
        let ghost prev = pieces@;
        pieces.push(String::from_str(piece));
        proof {
            broadcast use vstd::seq::Seq::lemma_push_map_commute;

            assert(string_views(pieces@) =~= string_views(prev).push(piece@));
            assert(trimmed_views(spec_split_at(s@, i as int)) =~= seq![piece@]);
            assert(string_views(prev) + seq![piece@] =~= string_views(pieces@));
            assert(string_views(pieces@) =~= before + spec_trimmed_pieces(s@));
            lemma_all_pieces_push(string_views(strings@).take(j as int), s@);
            assert(string_views(strings@).take(j + 1 as int) =~= string_views(
                strings@,
            ).take(j as int).push(s@));
        }
        j = j + 1;
    }
    proof {
        assert(string_views(strings@).take(strings.len() as int) =~= string_views(strings@));
    }
    join_with(&pieces, "+")
}

/// The search endpoint URL for `query` on the catalog endpoint `base`.
pub fn search_url(base: &str, query: &str, bibformat: Format) -> (r: String)
    ensures
        r@ == base@ + "/search/publ/api?q="@ + query@ + "&format=json&"@ + spec_get_param(
            bibformat,
        ),
{
    let mut r = String::from_str(base);
    r.append("/search/publ/api?q=");
    r.append(query);
    r.append("&format=json&");
    r.append(bibformat.get_param());
    r
}

/// The record endpoint URL for the catalog key `key` (without the local
/// prefix) on the endpoint `base`, in `bibformat`'s rendering.
pub fn record_url(base: &str, key: &str, bibformat: Format) -> (r: String)
    ensures
        r@ == base@ + "/rec/"@ + key@ + ".bib"@ + spec_get_param(bibformat),
{
    let mut r = String::from_str(base);
    r.append("/rec/");
    r.append(key);
    r.append(".bib");
    r.append(bibformat.get_param());
    r
}

} // verus!
