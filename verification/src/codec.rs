use vstd::prelude::*;
use vstd::string::*;

use crate::scan::{
    all_ws, contains_seq, find_char, first_index_from, is_match_at, is_ws, is_ws_char,
    lemma_first_index_from, str_eq,
};

verus! {

// ---------------------------------------------------------------------------
// The store's record model
// ---------------------------------------------------------------------------
/// One field of a stored citation record: a name and its text value.
#[derive(Clone, Debug)]
pub struct BibField {
    pub name: String,
    pub value: String,
}

/// One parsed citation record of the local store: its type (article,
/// inproceedings, ...), the key it is stored under, and its fields.
#[derive(Clone, Debug)]
pub struct StoreEntry {
    pub entry_type: String,
    pub entry_key: String,
    pub fields: Vec<BibField>,
}

/// The mathematical shape of a record: every text as a character sequence.
pub struct EntryModel {
    pub entry_type: Seq<char>,
    pub entry_key: Seq<char>,
    pub fields: Seq<(Seq<char>, Seq<char>)>,
}

/// The views of a list of fields.
pub open spec fn field_views(v: Seq<BibField>) -> Seq<(Seq<char>, Seq<char>)> {
    v.map_values(|f: BibField| (f.name@, f.value@))
}

impl View for StoreEntry {
    type V = EntryModel;

    open spec fn view(&self) -> EntryModel {
        EntryModel {
            entry_type: self.entry_type@,
            entry_key: self.entry_key@,
            fields: field_views(self.fields@),
        }
    }
}

/// The views of a list of records.
pub open spec fn entry_views(v: Seq<StoreEntry>) -> Seq<EntryModel> {
    v.map_values(|e: StoreEntry| e@)
}

/// A character a record type, key or field name may hold: anything but
/// blank space and the format's own punctuation.
pub open spec fn name_char_ok(c: char) -> bool {
    !is_ws_char(c) && c != '{' && c != '}' && c != ',' && c != '=' && c != '@'
}

/// Every character of `s` may stand in a type, key or field name.
pub open spec fn text_ok(s: Seq<char>) -> bool {
    forall|i: int| 0 <= i < s.len() ==> name_char_ok(#[trigger] s[i])
}

/// What one character does to the brace nesting depth.
pub open spec fn brace_delta(c: char) -> int {
    if c == '{' {
        1
    } else if c == '}' {
        -1
    } else {
        0
    }
}

/// The brace nesting depth that `s` leaves behind.
pub open spec fn brace_depth(s: Seq<char>) -> int
    decreases s.len(),
{
    if s.len() == 0 {
        0
    } else {
        brace_depth(s.drop_last()) + brace_delta(s.last())
    }
}

/// The depth of a concatenation is the sum of the depths.
proof fn lemma_depth_add(x: Seq<char>, y: Seq<char>)
    ensures
        brace_depth(x + y) == brace_depth(x) + brace_depth(y),
    decreases y.len(),
{
    if y.len() == 0 {
        assert(x + y =~= x);
    } else {
        assert((x + y).drop_last() =~= x + y.drop_last());
        lemma_depth_add(x, y.drop_last());
        assert((x + y).last() == y.last());
    }
}

/// One character's depth is its delta.
proof fn lemma_depth_single(c: char)
    ensures
        brace_depth(seq![c]) == brace_delta(c),
{
    assert(seq![c].drop_last() =~= Seq::<char>::empty());
    assert(seq![c].last() == c);
    assert(brace_depth(seq![c]) == brace_depth(seq![c].drop_last()) + brace_delta(
        seq![c].last(),
    ));
}

/// A field value may hold braces only in balanced nesting: never more
/// closing than opening braces, and as many of each over the whole value.
pub open spec fn value_ok(s: Seq<char>) -> bool {
    brace_depth(s) == 0 && forall|i: int| 0 <= i <= s.len() ==> brace_depth(#[trigger] s.take(i))
        >= 0
}

/// A well-formed field: a nonempty tame name and a brace-balanced value.
pub open spec fn field_wf(f: (Seq<char>, Seq<char>)) -> bool {
    f.0.len() > 0 && text_ok(f.0) && value_ok(f.1)
}

/// A well-formed record: nonempty tame type and key, well-formed fields.
pub open spec fn entry_wf(e: EntryModel) -> bool {
    &&& e.entry_type.len() > 0
    &&& text_ok(e.entry_type)
    &&& e.entry_key.len() > 0
    &&& text_ok(e.entry_key)
    &&& forall|i: int| 0 <= i < e.fields.len() ==> field_wf(#[trigger] e.fields[i])
}

impl StoreEntry {
    /// The record is well formed.
    pub open spec fn wf(&self) -> bool {
        entry_wf(self@)
    }
}

// ---------------------------------------------------------------------------
// Serialization
// ---------------------------------------------------------------------------
/// One serialized field line: two spaces, the name, ` = {`, the value,
/// `},` and a line break.
pub open spec fn spec_ser_field(f: (Seq<char>, Seq<char>)) -> Seq<char> {
    seq![' ', ' '] + f.0 + seq![' ', '=', ' ', '{'] + f.1 + seq!['}', ',', '\n']
}

/// The serialized field lines, in order.
pub open spec fn spec_ser_fields(fs: Seq<(Seq<char>, Seq<char>)>) -> Seq<char>
    decreases fs.len(),
{
    if fs.len() == 0 {
        Seq::empty()
    } else {
        spec_ser_field(fs[0]) + spec_ser_fields(fs.drop_first())
    }
}

/// The canonical text of one record: `@type{key,` then one line per field,
/// then a closing brace line. The field order of the record is kept, so
/// serialization is deterministic.
pub open spec fn spec_serialize_entry(e: EntryModel) -> Seq<char> {
    seq!['@'] + e.entry_type + seq!['{'] + e.entry_key + seq![',', '\n'] + spec_ser_fields(
        e.fields,
    ) + seq!['}', '\n']
}

/// Serializing one more field appends its line.
proof fn lemma_ser_fields_push(fs: Seq<(Seq<char>, Seq<char>)>, f: (Seq<char>, Seq<char>))
    ensures
        spec_ser_fields(fs.push(f)) == spec_ser_fields(fs) + spec_ser_field(f),
    decreases fs.len(),
{
    if fs.len() == 0 {
        assert(fs.push(f).drop_first() =~= Seq::<(Seq<char>, Seq<char>)>::empty());
        assert(spec_ser_fields(fs.push(f)) == spec_ser_field(f) + spec_ser_fields(
            Seq::<(Seq<char>, Seq<char>)>::empty(),
        ));
        assert(spec_ser_field(f) + Seq::<char>::empty() =~= spec_ser_field(f));
        assert(Seq::<char>::empty() + spec_ser_field(f) =~= spec_ser_field(f));
    } else {
        assert(fs.push(f).drop_first() =~= fs.drop_first().push(f));
        lemma_ser_fields_push(fs.drop_first(), f);
        assert((fs[0] == fs.push(f)[0]));
        assert(spec_ser_field(fs[0]) + (spec_ser_fields(fs.drop_first()) + spec_ser_field(f))
            =~= (spec_ser_field(fs[0]) + spec_ser_fields(fs.drop_first())) + spec_ser_field(f));
    }
}

impl StoreEntry {
    /// The record's canonical text representation.
    pub fn to_bibtex_string(&self) -> (r: String)
        ensures
            r@ == spec_serialize_entry(self@),
    {
        proof {
            reveal_strlit("@");
            reveal_strlit("{");
            reveal_strlit(",\n");
            reveal_strlit("  ");
            reveal_strlit(" = {");
            reveal_strlit("},\n");
            reveal_strlit("}\n");
            assert("@"@ =~= seq!['@']);
            assert("{"@ =~= seq!['{']);
            assert(",\n"@ =~= seq![',', '\n']);
            assert("  "@ =~= seq![' ', ' ']);
            assert(" = {"@ =~= seq![' ', '=', ' ', '{']);
            assert("},\n"@ =~= seq!['}', ',', '\n']);
            assert("}\n"@ =~= seq!['}', '\n']);
        }
        let mut r = String::from_str("@");
        r.append(self.entry_type.as_str());
        r.append("{");
        r.append(self.entry_key.as_str());
        r.append(",\n");
        let ghost head = seq!['@'] + self@.entry_type + seq!['{'] + self@.entry_key + seq![
            ',',
            '\n',
        ];
        proof {
            assert(r@ =~= head + spec_ser_fields(self@.fields.take(0)));
        }
        let mut i: usize = 0;
        while i < self.fields.len()
            invariant
                i <= self.fields.len(),
                self@.fields.len() == self.fields.len(),
                self@.fields == field_views(self.fields@),
                r@ == head + spec_ser_fields(self@.fields.take(i as int)),
                "  "@ =~= seq![' ', ' '],
                " = {"@ =~= seq![' ', '=', ' ', '{'],
                "},\n"@ =~= seq!['}', ',', '\n'],
            decreases self.fields.len() - i,
        {
            r.append("  ");
            r.append(self.fields[i].name.as_str());
            r.append(" = {");
            r.append(self.fields[i].value.as_str());
            r.append("},\n");
            proof {
                assert(self@.fields.take(i + 1 as int) =~= self@.fields.take(i as int).push(
                    self@.fields[i as int],
                ));
                lemma_ser_fields_push(self@.fields.take(i as int), self@.fields[i as int]);
                assert(self@.fields[i as int] == (self.fields@[i as int].name@,
                self.fields@[i as int].value@));
                assert(r@ =~= head + spec_ser_fields(self@.fields.take(i + 1 as int)));
            }
            i = i + 1;
        }
        proof {
            assert(self@.fields.take(self.fields.len() as int) =~= self@.fields);
        }
        r.append("}\n");
        proof {
            assert(r@ =~= spec_serialize_entry(self@));
        }
        r
    }

    /// Whether the record is remote-backed: its key carries the fixed
    /// remote prefix.
    pub fn is_remote_backed(&self) -> (b: bool)
        ensures
            b == spec_remote_backed(self.entry_key@),
    {
        proof {
            reveal_strlit("DBLP:");
        }
        let n = self.entry_key.unicode_len();
        if n < 5 {
            return false;
        }
        let head = self.entry_key.as_str().substring_char(0, 5);
        let r = str_eq(head, "DBLP:");
        proof {
            assert(head@ == self.entry_key@.subrange(0, 5));
        }
        r
    }

    /// The catalog key of a remote-backed record: its store key with the
    /// fixed prefix stripped. Nothing for a local-only record.
    pub fn remote_key(&self) -> (r: Option<String>)
        ensures
            r is Some <==> spec_remote_backed(self.entry_key@),
            r matches Some(k) ==> k@ == self.entry_key@.skip(5),
    {
        if self.is_remote_backed() {
            let n = self.entry_key.unicode_len();
            let tail = self.entry_key.as_str().substring_char(5, n);
            proof {
                assert(self.entry_key@.subrange(5, n as int) =~= self.entry_key@.skip(5));
            }
            Some(String::from_str(tail))
        } else {
            None
        }
    }
}

/// The store key carries the fixed remote prefix.
pub open spec fn spec_remote_backed(key: Seq<char>) -> bool {
    key.len() >= 5 && key.subrange(0, 5) == "DBLP:"@
}

// ---------------------------------------------------------------------------
// The parser's specification
// ---------------------------------------------------------------------------
/// The position of the first character at or after `i` that is not blank
/// space, or `s`'s length.
pub open spec fn skip_ws_idx(s: Seq<char>, i: int) -> int
    decreases s.len() - i,
    when 0 <= i <= s.len()
{
    if i >= s.len() {
        s.len() as int
    } else if is_ws_char(s[i]) {
        skip_ws_idx(s, i + 1)
    } else {
        i
    }
}

/// What `skip_ws_idx` returns.
pub proof fn lemma_skip_ws_idx(s: Seq<char>, i: int)
    requires
        0 <= i <= s.len(),
    ensures
        i <= skip_ws_idx(s, i) <= s.len(),
        skip_ws_idx(s, i) < s.len() ==> !is_ws_char(s[skip_ws_idx(s, i)]),
        forall|k: int| i <= k < skip_ws_idx(s, i) ==> is_ws_char(#[trigger] s[k]),
    decreases s.len() - i,
{
    if i < s.len() && is_ws_char(s[i]) {
        lemma_skip_ws_idx(s, i + 1);
    }
}

/// The position where a field name ends: the first blank space or `=` at
/// or after `i`, or `s`'s length.
pub open spec fn scan_name_end(s: Seq<char>, i: int) -> int
    decreases s.len() - i,
    when 0 <= i <= s.len()
{
    if i >= s.len() {
        s.len() as int
    } else if is_ws_char(s[i]) || s[i] == '=' {
        i
    } else {
        scan_name_end(s, i + 1)
    }
}

/// What `scan_name_end` returns.
pub proof fn lemma_scan_name_end(s: Seq<char>, i: int)
    requires
        0 <= i <= s.len(),
    ensures
        i <= scan_name_end(s, i) <= s.len(),
        scan_name_end(s, i) < s.len() ==> is_ws_char(s[scan_name_end(s, i)]) || s[scan_name_end(
            s,
            i,
        )] == '=',
        forall|k: int|
            i <= k < scan_name_end(s, i) ==> !is_ws_char(#[trigger] s[k]) && s[k] != '=',
    decreases s.len() - i,
{
    if i < s.len() && !(is_ws_char(s[i]) || s[i] == '=') {
        lemma_scan_name_end(s, i + 1);
    }
}

/// The position of the closing brace that takes the running nesting depth
/// `d` down to zero, scanning from `i`; `s`'s length when there is none.
pub open spec fn scan_value_end(s: Seq<char>, i: int, d: int) -> int
    decreases s.len() - i,
    when 0 <= i <= s.len() && d >= 1
{
    if i >= s.len() {
        s.len() as int
    } else if s[i] == '}' {
        if d == 1 {
            i
        } else {
            scan_value_end(s, i + 1, d - 1)
        }
    } else if s[i] == '{' {
        scan_value_end(s, i + 1, d + 1)
    } else {
        scan_value_end(s, i + 1, d)
    }
}

/// What `scan_value_end` returns: a closing brace on which the running
/// depth reaches zero for the first time, or the length.
proof fn lemma_scan_value_props(s: Seq<char>, i: int, d: int)
    requires
        0 <= i <= s.len(),
        d >= 1,
    ensures
        i <= scan_value_end(s, i, d) <= s.len(),
        scan_value_end(s, i, d) < s.len() ==> s[scan_value_end(s, i, d)] == '}' && d
            + brace_depth(s.subrange(i, scan_value_end(s, i, d))) == 1 && (forall|k: int|
            i <= k <= scan_value_end(s, i, d) ==> d + brace_depth(#[trigger] s.subrange(i, k))
                >= 1),
    decreases s.len() - i,
{
    if i >= s.len() {
    } else if s[i] == '}' && d == 1 {
        assert(s.subrange(i, i) =~= Seq::<char>::empty());
    } else {
        let d2 = d + brace_delta(s[i]);
        if s[i] == '}' {
            if d == 1 {
                assert(false);
            }
        }
        lemma_scan_value_props(s, i + 1, d2);
        let r = scan_value_end(s, i, d);
        assert(r == scan_value_end(s, i + 1, d2));
        if r < s.len() {
            assert forall|k: int| i <= k <= r implies d + brace_depth(
                #[trigger] s.subrange(i, k),
            ) >= 1 by {
                if k == i {
                    assert(s.subrange(i, i) =~= Seq::<char>::empty());
                } else {
                    lemma_depth_single(s[i]);
                    lemma_depth_add(seq![s[i]], s.subrange(i + 1, k));
                    assert(seq![s[i]] + s.subrange(i + 1, k) =~= s.subrange(i, k));
                }
            }
            lemma_depth_single(s[i]);
            lemma_depth_add(seq![s[i]], s.subrange(i + 1, r));
            assert(seq![s[i]] + s.subrange(i + 1, r) =~= s.subrange(i, r));
        }
    }
}

/// `scan_value_end` lands on `e` when the text from `i` keeps the running
/// depth positive until `e`, where a closing brace takes it to zero.
proof fn lemma_scan_value_is(s: Seq<char>, i: int, e: int, d: int)
    requires
        0 <= i <= e < s.len(),
        d >= 1,
        s[e] == '}',
        forall|k: int| i <= k <= e ==> d + brace_depth(#[trigger] s.subrange(i, k)) >= 1,
        d + brace_depth(s.subrange(i, e)) == 1,
    ensures
        scan_value_end(s, i, d) == e,
    decreases e - i,
{
    if i == e {
        assert(s.subrange(i, i) =~= Seq::<char>::empty());
        assert(d == 1);
    } else {
        assert(s.subrange(i, i + 1) =~= seq![s[i]]);
        lemma_depth_single(s[i]);
        assert(d + brace_delta(s[i]) >= 1);
        if s[i] == '}' && d == 1 {
            assert(false);
        }
        let d2 = d + brace_delta(s[i]);
        assert forall|k: int| i + 1 <= k <= e implies d2 + brace_depth(
            #[trigger] s.subrange(i + 1, k),
        ) >= 1 by {
            lemma_depth_single(s[i]);
            lemma_depth_add(seq![s[i]], s.subrange(i + 1, k));
            assert(seq![s[i]] + s.subrange(i + 1, k) =~= s.subrange(i, k));
        }
        lemma_depth_add(seq![s[i]], s.subrange(i + 1, e));
        assert(seq![s[i]] + s.subrange(i + 1, e) =~= s.subrange(i, e));
        lemma_scan_value_is(s, i + 1, e, d2);
    }
}

/// Clamps `j` into the range `[lo, hi]`.
pub open spec fn clamp(j: int, lo: int, hi: int) -> int {
    if j < lo {
        lo
    } else if j > hi {
        hi
    } else {
        j
    }
}

/// Parses the field lines of one record starting at `i`, up to and
/// including the record's closing brace. A value runs to the closing
/// brace that balances its opening one, so values may nest braces.
/// Yields the fields and the position right after the record's closing
/// brace; `None` when the text does not follow the format.
pub open spec fn spec_parse_fields(s: Seq<char>, i: int) -> Option<
    (Seq<(Seq<char>, Seq<char>)>, int),
>
    decreases s.len() - i,
    when 0 <= i <= s.len()
{
    let j = clamp(skip_ws_idx(s, i), i, s.len() as int);
    if j >= s.len() {
        None
    } else if s[j] == '}' {
        Some((Seq::empty(), j + 1))
    } else {
        let ne = clamp(scan_name_end(s, j), j, s.len() as int);
        let name = s.subrange(j, ne);
        let eq = clamp(skip_ws_idx(s, ne), ne, s.len() as int);
        if name.len() == 0 || !text_ok(name) || eq >= s.len() || s[eq] != '=' {
            None
        } else {
            let vb = clamp(skip_ws_idx(s, eq + 1), eq + 1, s.len() as int);
            if vb >= s.len() || s[vb] != '{' {
                None
            } else {
                let ve = clamp(scan_value_end(s, vb + 1, 1), vb + 1, s.len() as int);
                if ve >= s.len() {
                    None
                } else {
                    let value = s.subrange(vb + 1, ve);
                    let after = ve + 1;
                    let cp = clamp(skip_ws_idx(s, after), after, s.len() as int);
                    let next = if cp < s.len() && s[cp] == ',' {
                        cp + 1
                    } else {
                        after
                    };
                    match spec_parse_fields(s, next) {
                        None => None,
                        Some((fs, end)) => Some((seq![(name, value)] + fs, end)),
                    }
                }
            }
        }
    }
}

/// Parses the whole store text from `i` on: any number of records
/// separated by blank space. `None` when the text does not follow the
/// format.
pub open spec fn spec_parse_entries(s: Seq<char>, i: int) -> Option<Seq<EntryModel>>
    decreases s.len() - i,
    when 0 <= i <= s.len()
{
    let j = clamp(skip_ws_idx(s, i), i, s.len() as int);
    if j >= s.len() {
        Some(Seq::empty())
    } else if s[j] != '@' {
        None
    } else {
        let tb = j + 1;
        let te = clamp(first_index_from(s, '{', tb), tb, s.len() as int);
        let etype = s.subrange(tb, te);
        if te >= s.len() || etype.len() == 0 || !text_ok(etype) {
            None
        } else {
            let kb = te + 1;
            let ke = clamp(first_index_from(s, ',', kb), kb, s.len() as int);
            let ekey = s.subrange(kb, ke);
            if ke >= s.len() || ekey.len() == 0 || !text_ok(ekey) {
                None
            } else {
                match spec_parse_fields(s, ke + 1) {
                    None => None,
                    Some((fs, end)) => {
                        let next = clamp(end, j + 1, s.len() as int);
                        match spec_parse_entries(s, next) {
                            None => None,
                            Some(rest) => Some(
                                seq![
                                    EntryModel {
                                        entry_type: etype,
                                        entry_key: ekey,
                                        fields: fs,
                                    },
                                ] + rest,
                            ),
                        }
                    },
                }
            }
        }
    }
}

/// What parsing the whole store text yields: the records in order, or
/// nothing when the text is not well-formed structured citation text.
pub open spec fn spec_parse_store(s: Seq<char>) -> Option<Seq<EntryModel>> {
    spec_parse_entries(s, 0)
}

// ---------------------------------------------------------------------------
// The parser
// ---------------------------------------------------------------------------
/// The position of the first character at or after `i` that is not blank
/// space, or `n`.
fn skip_ws_pos(s: &str, i: usize, n: usize) -> (j: usize)
    requires
        i <= n,
        n as int == s@.len(),
    ensures
        j as int == skip_ws_idx(s@, i as int),
        i <= j <= n,
    decreases n - i,
{
    let mut cur: usize = i;
    while cur < n && is_ws(s.get_char(cur))
        invariant
            i <= cur <= n,
            n as int == s@.len(),
            skip_ws_idx(s@, i as int) == skip_ws_idx(s@, cur as int),
        decreases n - cur,
    {
        proof {
            assert(skip_ws_idx(s@, cur as int) == skip_ws_idx(s@, cur + 1 as int));
        }
        cur = cur + 1;
    }
    cur
}

/// The position of the first blank space or `=` at or after `i`, or `n`.
fn scan_name_pos(s: &str, i: usize, n: usize) -> (j: usize)
    requires
        i <= n,
        n as int == s@.len(),
    ensures
        j as int == scan_name_end(s@, i as int),
        i <= j <= n,
    decreases n - i,
{
    let mut cur: usize = i;
    while cur < n && !(is_ws(s.get_char(cur)) || s.get_char(cur) == '=')
        invariant
            i <= cur <= n,
            n as int == s@.len(),
            scan_name_end(s@, i as int) == scan_name_end(s@, cur as int),
        decreases n - cur,
    {
        proof {
            assert(scan_name_end(s@, cur as int) == scan_name_end(s@, cur + 1 as int));
        }
        cur = cur + 1;
    }
    cur
}

/// Whether every character of `s` between `lo` and `hi` may stand in a
/// type, key or field name.
fn check_text_ok(s: &str, lo: usize, hi: usize) -> (b: bool)
    requires
        lo <= hi,
        hi as int <= s@.len(),
    ensures
        b == text_ok(s@.subrange(lo as int, hi as int)),
{
    let mut k: usize = lo;
    while k < hi
        invariant
            lo <= k <= hi,
            hi as int <= s@.len(),
            forall|t: int| lo <= t < k ==> name_char_ok(#[trigger] s@[t]),
        decreases hi - k,
    {
        let c = s.get_char(k);
        if c == ' ' || c == '\t' || c == '\n' || c == '\r' || c == '{' || c == '}' || c == ','
            || c == '=' || c == '@' {
            proof {
                assert(s@.subrange(lo as int, hi as int)[k - lo] == s@[k as int]);
            }
            return false;
        }
        k = k + 1;
    }
    proof {
        assert forall|t: int| 0 <= t < hi - lo implies name_char_ok(
            #[trigger] s@.subrange(lo as int, hi as int)[t],
        ) by {
            assert(s@.subrange(lo as int, hi as int)[t] == s@[t + lo]);
        }
    }
    true
}

/// Finds the closing brace that balances the value opened before `a`,
/// scanning with a running nesting depth; reports `n` when there is none.
fn scan_value_pos(s: &str, a: usize, n: usize) -> (j: usize)
    requires
        1 <= a <= n,
        n as int == s@.len(),
    ensures
        j as int == scan_value_end(s@, a as int, 1),
        a <= j <= n,
{
    let mut cur: usize = a;
    let mut d: usize = 1;
    while cur < n
        invariant
            1 <= a <= cur <= n,
            1 <= d <= cur - a + 1,
            n as int == s@.len(),
            scan_value_end(s@, a as int, 1) == scan_value_end(s@, cur as int, d as int),
        decreases n - cur,
    {
        let c = s.get_char(cur);
        if c == '}' && d == 1 {
            proof {
                assert(scan_value_end(s@, cur as int, d as int) == cur as int);
            }
            return cur;
        }
        if c == '}' {
            proof {
                assert(scan_value_end(s@, cur as int, d as int) == scan_value_end(
                    s@,
                    cur + 1 as int,
                    d - 1 as int,
                ));
            }
            d = d - 1;
        } else if c == '{' {
            proof {
                assert(scan_value_end(s@, cur as int, d as int) == scan_value_end(
                    s@,
                    cur + 1 as int,
                    d + 1 as int,
                ));
            }
            d = d + 1;
        } else {
            proof {
                assert(scan_value_end(s@, cur as int, d as int) == scan_value_end(
                    s@,
                    cur + 1 as int,
                    d as int,
                ));
            }
        }
        cur = cur + 1;
    }
    proof {
        assert(scan_value_end(s@, cur as int, d as int) == n as int);
    }
    cur
}

/// Parses the field lines of one record, up to and including the closing
/// brace; yields the fields and the position right after the brace.
fn parse_fields_at(s: &str, i: usize, n: usize) -> (r: Option<(Vec<BibField>, usize)>)
    requires
        i <= n,
        n as int == s@.len(),
    ensures
        r is Some <==> spec_parse_fields(s@, i as int) is Some,
        r matches Some((v, end)) ==> spec_parse_fields(s@, i as int) == Some(
            (field_views(v@), end as int),
        ) && i < end <= n,
    decreases n - i,
{
    let j = skip_ws_pos(s, i, n);
    if j >= n {
        return None;
    }
    if s.get_char(j) == '}' {
        let v: Vec<BibField> = Vec::new();
        proof {
            assert(field_views(v@) =~= Seq::<(Seq<char>, Seq<char>)>::empty());
        }
        return Some((v, j + 1));
    }
    let ne = scan_name_pos(s, j, n);
    let eq = skip_ws_pos(s, ne, n);
    if ne == j || !check_text_ok(s, j, ne) || eq >= n {
        return None;
    }
    if s.get_char(eq) != '=' {
        return None;
    }
    let vb = skip_ws_pos(s, eq + 1, n);
    if vb >= n {
        return None;
    }
    if s.get_char(vb) != '{' {
        return None;
    }
    let ve = scan_value_pos(s, vb + 1, n);
    if ve >= n {
        return None;
    }
    let name_str = s.substring_char(j, ne);
    let value_str = s.substring_char(vb + 1, ve);
    let after = ve + 1;
    let cp = skip_ws_pos(s, after, n);
    let next = if cp < n && s.get_char(cp) == ',' {
        cp + 1
    } else {
        after
    };
    match parse_fields_at(s, next, n) {
        None => None,
        Some((tail, end)) => {
            let mut v = tail;
            let ghost prev = v@;
            v.insert(
                0,
                BibField { name: String::from_str(name_str), value: String::from_str(value_str) },
            );
            proof {
                assert(v@ =~= seq![v@[0]] + prev);
                assert(field_views(v@) =~= seq![(name_str@, value_str@)] + field_views(prev));
            }
            Some((v, end))
        },
    }
}

/// Parses the whole store text from `i` on: any number of records
/// separated by blank space.
fn parse_entries_at(s: &str, i: usize, n: usize) -> (r: Option<Vec<StoreEntry>>)
    requires
        i <= n,
        n as int == s@.len(),
    ensures
        r is Some <==> spec_parse_entries(s@, i as int) is Some,
        r matches Some(v) ==> spec_parse_entries(s@, i as int) == Some(entry_views(v@)),
    decreases n - i,
{
    let j = skip_ws_pos(s, i, n);
    if j >= n {
        let v: Vec<StoreEntry> = Vec::new();
        proof {
            assert(entry_views(v@) =~= Seq::<EntryModel>::empty());
        }
        return Some(v);
    }
    if s.get_char(j) != '@' {
        return None;
    }
    let tb = j + 1;
    let te = find_char(s, '{', tb);
    if te >= n || te == tb || !check_text_ok(s, tb, te) {
        return None;
    }
    let kb = te + 1;
    let ke = find_char(s, ',', kb);
    if ke >= n || ke == kb || !check_text_ok(s, kb, ke) {
        return None;
    }
    match parse_fields_at(s, ke + 1, n) {
        None => None,
        Some((fields, end)) => {
            match parse_entries_at(s, end, n) {
                None => None,
                Some(rest) => {
                    let entry = StoreEntry {
                        entry_type: String::from_str(s.substring_char(tb, te)),
                        entry_key: String::from_str(s.substring_char(kb, ke)),
                        fields,
                    };
                    let mut v = rest;
                    let ghost prev = v@;
                    let ghost model = entry@;
                    v.insert(0, entry);
                    proof {
                        assert(v@ =~= seq![v@[0]] + prev);
                        assert(entry_views(v@) =~= seq![model] + entry_views(prev));
                    }
                    Some(v)
                },
            }
        },
    }
}

// ---------------------------------------------------------------------------
// Round trip
// ---------------------------------------------------------------------------
/// `skip_ws_idx` lands on `j` when everything before `j` is blank space
/// and `j` is not.
proof fn lemma_skip_ws_is(s: Seq<char>, i: int, j: int)
    requires
        0 <= i <= j <= s.len(),
        forall|k: int| i <= k < j ==> is_ws_char(#[trigger] s[k]),
        j == s.len() || !is_ws_char(s[j]),
    ensures
        skip_ws_idx(s, i) == j,
{
    lemma_skip_ws_idx(s, i);
}

/// `scan_name_end` lands on `j` when everything before `j` is a name
/// character run and `j` ends it.
proof fn lemma_scan_name_is(s: Seq<char>, i: int, j: int)
    requires
        0 <= i <= j <= s.len(),
        forall|k: int| i <= k < j ==> !is_ws_char(#[trigger] s[k]) && s[k] != '=',
        j == s.len() || is_ws_char(s[j]) || s[j] == '=',
    ensures
        scan_name_end(s, i) == j,
{
    lemma_scan_name_end(s, i);
}

/// `first_index_from` lands on `j` when `c` is at `j` and nowhere before.
proof fn lemma_first_index_is(s: Seq<char>, c: char, i: int, j: int)
    requires
        0 <= i <= j <= s.len(),
        forall|k: int| i <= k < j ==> s[k] != c,
        j == s.len() || s[j] == c,
    ensures
        first_index_from(s, c, i) == j,
{
    lemma_first_index_from(s, c, i);
}

/// One character of an embedded copy: when `w` stands in `t` at `p`, the
/// character of `t` at offset `m` is `w`'s.
proof fn lemma_seq_at(t: Seq<char>, p: int, w: Seq<char>, m: int)
    requires
        0 <= p,
        p + w.len() <= t.len(),
        t.subrange(p, p + w.len()) == w,
        0 <= m < w.len(),
    ensures
        t[p + m] == w[m],
{
    assert(t.subrange(p, p + w.len())[m] == t[p + m]);
}

/// Parsing one serialized field line: when the text at `p` reads as blank
/// space and then one field line, the parser takes exactly that field and
/// goes on right at the line's final line break.
#[verifier::rlimit(100)]
proof fn lemma_parse_field_step(t: Seq<char>, p: int, pad: Seq<char>, f0: (Seq<char>, Seq<char>))
    requires
        0 <= p,
        p + pad.len() + spec_ser_field(f0).len() <= t.len(),
        all_ws(pad),
        field_wf(f0),
        t.subrange(p, p + pad.len() + spec_ser_field(f0).len()) == pad + spec_ser_field(f0),
    ensures
        spec_parse_fields(t, p) == (match spec_parse_fields(
            t,
            p + pad.len() + spec_ser_field(f0).len() - 1,
        ) {
            None => None,
            Some((fs, end)) => Some((seq![(f0.0, f0.1)] + fs, end)),
        }),
{
    let pl = pad.len() as int;
    let n0 = f0.0.len() as int;
    let v0 = f0.1.len() as int;
    let sf0 = spec_ser_field(f0);
    assert(sf0.len() == n0 + v0 + 9);
    let whole = pad + sf0;
    assert(whole[pl] == ' ' && whole[pl + 1] == ' ');
    assert forall|k: int| 0 <= k < n0 implies whole[pl + 2 + k] == f0.0[k] by {
        assert(sf0[2 + k] == f0.0[k]);
    }
    assert forall|k: int| 0 <= k < v0 implies whole[pl + 6 + n0 + k] == f0.1[k] by {
        assert(sf0[6 + n0 + k] == f0.1[k]);
    }
    assert(whole[pl + 2 + n0] == ' ' && whole[pl + 3 + n0] == '=' && whole[pl + 4 + n0] == ' '
        && whole[pl + 5 + n0] == '{' && whole[pl + 6 + n0 + v0] == '}' && whole[pl + 7 + n0
        + v0] == ',' && whole[pl + 8 + n0 + v0] == '\n');
    let j = p + pl + 2;
    // blank space, then the name
    assert forall|k: int| p <= k < j implies is_ws_char(#[trigger] t[k]) by {
        lemma_seq_at(t, p, whole, k - p);
        if k - p < pl {
            assert(whole[k - p] == pad[k - p]);
        }
    }
    assert forall|k: int| j <= k < j + n0 implies !is_ws_char(#[trigger] t[k]) && t[k] != '='
        && t[k] != '}' && t[k] != '{' by {
        lemma_seq_at(t, p, whole, k - p);
        assert(t[k] == f0.0[k - j]);
        assert(name_char_ok(f0.0[k - j]));
    }
    assert(!is_ws_char(t[j]));
    lemma_skip_ws_is(t, p, j);
    assert(t[j] != '}');
    lemma_scan_name_is(t, j, j + n0);
    let ne = j + n0;
    assert(t.subrange(j, ne) =~= f0.0) by {
        assert forall|k: int| 0 <= k < n0 implies t.subrange(j, ne)[k] == f0.0[k] by {
            assert(t.subrange(j, ne)[k] == t[j + k]);
        }
    }
    lemma_seq_at(t, p, whole, pl + 2 + n0);
    lemma_seq_at(t, p, whole, pl + 3 + n0);
    lemma_seq_at(t, p, whole, pl + 4 + n0);
    lemma_seq_at(t, p, whole, pl + 5 + n0);
    lemma_seq_at(t, p, whole, pl + 6 + n0 + v0);
    lemma_seq_at(t, p, whole, pl + 7 + n0 + v0);
    lemma_seq_at(t, p, whole, pl + 8 + n0 + v0);
    assert(t[ne] == ' ' && t[ne + 1] == '=');
    lemma_skip_ws_is(t, ne, ne + 1);
    let eq = ne + 1;
    assert(t[eq + 1] == ' ' && t[eq + 2] == '{');
    lemma_skip_ws_is(t, eq + 1, eq + 2);
    let vb = eq + 2;
    // the value's characters, then the closing brace that balances it
    let ve = vb + 1 + v0;
    assert(t[ve] == '}');
    assert(t.subrange(vb + 1, ve) =~= f0.1) by {
        assert forall|k: int| 0 <= k < v0 implies t.subrange(vb + 1, ve)[k] == f0.1[k] by {
            assert(t.subrange(vb + 1, ve)[k] == t[vb + 1 + k]);
        }
    }
    assert forall|k: int| vb + 1 <= k <= ve implies 1 + brace_depth(
        #[trigger] t.subrange(vb + 1, k),
    ) >= 1 by {
        let pre = f0.1.take(k - vb - 1);
        assert forall|j: int| 0 <= j < pre.len() implies t.subrange(vb + 1, k)[j] == #[trigger] pre[j] by {
            assert(t.subrange(vb + 1, k)[j] == t[vb + 1 + j]);
            assert(pre[j] == f0.1[j]);
        }
        assert(t.subrange(vb + 1, k) =~= pre);
        assert(brace_depth(pre) >= 0);
    }
    assert(1 + brace_depth(t.subrange(vb + 1, ve)) == 1) by {
        assert(f0.1.take(v0 as int) =~= f0.1);
        assert(brace_depth(f0.1.take(v0 as int)) >= 0);
        assert(brace_depth(f0.1) == 0);
    }
    lemma_scan_value_is(t, vb + 1, ve, 1);
    let after = ve + 1;
    assert(t[after] == ',');
    lemma_skip_ws_is(t, after, after);
    assert(after + 1 == p + pl + sf0.len() - 1);
}

/// Parsing the serialized field lines out of any surrounding text: when
/// the text at `p` reads as blank space, the field lines and a closing
/// brace, the parser yields exactly those fields and stops right after
/// the brace — whatever follows.
#[verifier::rlimit(100)]
proof fn lemma_parse_fields_ser(
    t: Seq<char>,
    p: int,
    pad: Seq<char>,
    fs: Seq<(Seq<char>, Seq<char>)>,
)
    requires
        0 <= p,
        p + pad.len() + spec_ser_fields(fs).len() + 1 <= t.len(),
        all_ws(pad),
        forall|i: int| 0 <= i < fs.len() ==> field_wf(#[trigger] fs[i]),
        t.subrange(p, p + pad.len() + spec_ser_fields(fs).len() + 1) == pad + spec_ser_fields(
            fs,
        ) + seq!['}'],
    ensures
        spec_parse_fields(t, p) == Some((fs, p + pad.len() + spec_ser_fields(fs).len() + 1)),
    decreases fs.len(),
{
    let pl = pad.len() as int;
    let fl = spec_ser_fields(fs).len() as int;
    let whole = pad + spec_ser_fields(fs) + seq!['}'];
    assert(whole.len() == pl + fl + 1);
    assert(whole[pl + fl] == '}');
    if fs.len() == 0 {
        assert(fl == 0);
        lemma_seq_at(t, p, whole, pl);
        assert(t[p + pl] == '}');
        assert forall|k: int| p <= k < p + pl implies is_ws_char(#[trigger] t[k]) by {
            lemma_seq_at(t, p, whole, k - p);
            assert(whole[k - p] == pad[k - p]);
        }
        lemma_skip_ws_is(t, p, p + pl);
        assert(spec_parse_fields(t, p) == Some(
            (Seq::<(Seq<char>, Seq<char>)>::empty(), p + pl + 1),
        ));
        assert(Seq::<(Seq<char>, Seq<char>)>::empty() =~= fs);
    } else {
        let f0 = fs[0];
        let rest = fs.drop_first();
        let sf0 = spec_ser_field(f0);
        let sl = sf0.len() as int;
        assert(spec_ser_fields(fs) == sf0 + spec_ser_fields(rest));
        let rl = spec_ser_fields(rest).len() as int;
        assert(fl == sl + rl);
        assert(field_wf(f0));
        assert(t.subrange(p, p + pl + sl) =~= pad + sf0) by {
            assert forall|k: int| 0 <= k < pl + sl implies t.subrange(p, p + pl + sl)[k] == (pad
                + sf0)[k] by {
                assert(t.subrange(p, p + pl + sl)[k] == t[p + k]);
                lemma_seq_at(t, p, whole, k);
                if k >= pl {
                    assert(whole[k] == spec_ser_fields(fs)[k - pl]);
                    assert(spec_ser_fields(fs)[k - pl] == sf0[k - pl]);
                }
            }
        }
        lemma_parse_field_step(t, p, pad, f0);
        let next = p + pl + sl - 1;
        // the tail the recursive call sees: the line break, the remaining
        // field lines, the closing brace
        let pad2 = seq!['\n'];
        let tail = pad2 + spec_ser_fields(rest) + seq!['}'];
        assert(t.subrange(next, next + 1 + rl + 1) =~= tail) by {
            assert forall|k: int| 0 <= k < 1 + rl + 1 implies t.subrange(next, next + 1 + rl
                + 1)[k] == tail[k] by {
                assert(t.subrange(next, next + 1 + rl + 1)[k] == t[next + k]);
                lemma_seq_at(t, p, whole, pl + sl - 1 + k);
                if k == 0 {
                    assert(whole[pl + sl - 1] == spec_ser_fields(fs)[sl - 1]);
                    assert(spec_ser_fields(fs)[sl - 1] == sf0[sl - 1]);
                    assert(sf0[sl - 1] == '\n');
                } else if k < 1 + rl {
                    assert(whole[pl + sl - 1 + k] == spec_ser_fields(fs)[sl - 1 + k]);
                    assert(spec_ser_fields(fs)[sl - 1 + k] == spec_ser_fields(rest)[k - 1]);
                    assert(tail[k] == spec_ser_fields(rest)[k - 1]);
                } else {
                    assert(whole[pl + fl] == '}');
                }
            }
        }
        assert(all_ws(pad2));
        assert forall|i: int| 0 <= i < rest.len() implies field_wf(#[trigger] rest[i]) by {
            assert(rest[i] == fs[i + 1]);
        }
        lemma_parse_fields_ser(t, next, pad2, rest);
        assert(spec_parse_fields(t, next) == Some((rest, next + 1 + rl + 1)));
        assert(seq![(f0.0, f0.1)] + rest =~= fs);
        assert(next + 1 + rl + 1 == p + pl + fl + 1);
    }
}

/// Parsing one serialized record whose text stands at `b`: the type and
/// key scans land where the serializer put the braces and the comma, and
/// the field parser yields exactly the record's fields, ending right
/// before the record's final line break.
#[verifier::rlimit(100)]
proof fn lemma_parse_entry_at(t: Seq<char>, b: int, e: EntryModel)
    requires
        0 <= b,
        entry_wf(e),
        b + spec_serialize_entry(e).len() <= t.len(),
        t.subrange(b, b + spec_serialize_entry(e).len()) == spec_serialize_entry(e),
    ensures
        t[b] == '@',
        first_index_from(t, '{', b + 1) == b + 1 + e.entry_type.len(),
        t.subrange(b + 1, b + 1 + e.entry_type.len()) == e.entry_type,
        first_index_from(t, ',', b + 2 + e.entry_type.len()) == b + 2 + e.entry_type.len()
            + e.entry_key.len(),
        t.subrange(
            b + 2 + e.entry_type.len(),
            b + 2 + e.entry_type.len() + e.entry_key.len(),
        ) == e.entry_key,
        spec_parse_fields(t, b + 3 + e.entry_type.len() + e.entry_key.len()) == Some(
            (e.fields, b + spec_serialize_entry(e).len() - 1),
        ),
{
    let sere = spec_serialize_entry(e);
    let tl = e.entry_type.len() as int;
    let kl = e.entry_key.len() as int;
    let fsr = spec_ser_fields(e.fields);
    let fl = fsr.len() as int;
    let ll = tl + kl + fl + 6;
    assert(sere.len() == ll);
    assert(sere[0] == '@');
    assert forall|k: int| 0 <= k < tl implies sere[1 + k] == e.entry_type[k] by {}
    assert(sere[1 + tl] == '{');
    assert forall|k: int| 0 <= k < kl implies sere[2 + tl + k] == e.entry_key[k] by {}
    assert(sere[2 + tl + kl] == ',');
    assert(sere[3 + tl + kl] == '\n');
    assert forall|k: int| 0 <= k < fl implies sere[4 + tl + kl + k] == fsr[k] by {}
    assert(sere[4 + tl + kl + fl] == '}');
    lemma_seq_at(t, b, sere, 0);
    // the head
    assert forall|k: int| b + 1 <= k < b + 1 + tl implies #[trigger] t[k] != '{' by {
        lemma_seq_at(t, b, sere, k - b);
        assert(sere[k - b] == e.entry_type[k - b - 1]);
        assert(name_char_ok(e.entry_type[k - b - 1]));
    }
    lemma_seq_at(t, b, sere, 1 + tl);
    lemma_first_index_is(t, '{', b + 1, b + 1 + tl);
    assert(t.subrange(b + 1, b + 1 + tl) =~= e.entry_type) by {
        assert forall|k: int| 0 <= k < tl implies t.subrange(b + 1, b + 1 + tl)[k]
            == e.entry_type[k] by {
            assert(t.subrange(b + 1, b + 1 + tl)[k] == t[b + 1 + k]);
            lemma_seq_at(t, b, sere, 1 + k);
        }
    }
    assert forall|k: int| b + 2 + tl <= k < b + 2 + tl + kl implies #[trigger] t[k] != ',' by {
        lemma_seq_at(t, b, sere, k - b);
        assert(sere[k - b] == e.entry_key[k - b - 2 - tl]);
        assert(name_char_ok(e.entry_key[k - b - 2 - tl]));
    }
    lemma_seq_at(t, b, sere, 2 + tl + kl);
    lemma_first_index_is(t, ',', b + 2 + tl, b + 2 + tl + kl);
    assert(t.subrange(b + 2 + tl, b + 2 + tl + kl) =~= e.entry_key) by {
        assert forall|k: int| 0 <= k < kl implies t.subrange(b + 2 + tl, b + 2 + tl + kl)[k]
            == e.entry_key[k] by {
            assert(t.subrange(b + 2 + tl, b + 2 + tl + kl)[k] == t[b + 2 + tl + k]);
            lemma_seq_at(t, b, sere, 2 + tl + k);
        }
    }
    // the field lines
    let q = b + 3 + tl + kl;
    let pad2 = seq!['\n'];
    let tail2 = pad2 + fsr + seq!['}'];
    assert(t.subrange(q, q + 1 + fl + 1) =~= tail2) by {
        assert forall|k: int| 0 <= k < 1 + fl + 1 implies t.subrange(q, q + 1 + fl + 1)[k]
            == tail2[k] by {
            assert(t.subrange(q, q + 1 + fl + 1)[k] == t[q + k]);
            lemma_seq_at(t, b, sere, 3 + tl + kl + k);
            if 1 <= k < 1 + fl {
                assert(sere[4 + tl + kl + (k - 1)] == fsr[k - 1]);
                assert(tail2[k] == fsr[k - 1]);
            }
        }
    }
    assert(all_ws(pad2));
    lemma_parse_fields_ser(t, q, pad2, e.fields);
    assert(q + 1 + fl + 1 == b + ll - 1);
}

/// Round trip: serializing a well-formed record and parsing the result
/// yields exactly that record — same type, same key, same fields with the
/// same content, in the same order — and nothing else.
#[verifier::rlimit(100)]
#[verifier::spinoff_prover]
pub proof fn lemma_round_trip(e: EntryModel)
    requires
        entry_wf(e),
    ensures
        spec_parse_store(spec_serialize_entry(e)) == Some(seq![e]),
{
    let t = spec_serialize_entry(e);
    let tl = e.entry_type.len() as int;
    let kl = e.entry_key.len() as int;
    let fl = spec_ser_fields(e.fields).len() as int;
    assert(t.len() == tl + kl + fl + 6);
    assert(t.subrange(0, t.len() as int) =~= t);
    lemma_parse_entry_at(t, 0, e);
    lemma_skip_ws_is(t, 0, 0);
    let end = t.len() - 1;
    assert(spec_parse_fields(t, 3 + tl + kl) == Some((e.fields, end)));
    // nothing but the final line break follows
    assert(t[end] == '\n');
    lemma_skip_ws_is(t, end, t.len() as int);
    assert(spec_parse_entries(t, end) == Some(Seq::<EntryModel>::empty()));
    let model = EntryModel {
        entry_type: t.subrange(1, 1 + tl),
        entry_key: t.subrange(2 + tl, 2 + tl + kl),
        fields: e.fields,
    };
    assert(spec_parse_entries(t, 0) == Some(seq![model] + Seq::<EntryModel>::empty()));
    assert(model == e);
    assert(seq![model] + Seq::<EntryModel>::empty() =~= seq![e]);
}

/// Every field the parser accepts is well formed: it checked the name
/// itself, and it cut the value short of any brace.
proof fn lemma_parse_fields_wf(s: Seq<char>, i: int)
    requires
        0 <= i <= s.len(),
        spec_parse_fields(s, i) is Some,
    ensures
        forall|k: int|
            0 <= k < spec_parse_fields(s, i)->Some_0.0.len() ==> field_wf(
                #[trigger] spec_parse_fields(s, i)->Some_0.0[k],
            ),
    decreases s.len() - i,
{
    let j = clamp(skip_ws_idx(s, i), i, s.len() as int);
    if s[j] == '}' {
    } else {
        let ne = clamp(scan_name_end(s, j), j, s.len() as int);
        let name = s.subrange(j, ne);
        let eq = clamp(skip_ws_idx(s, ne), ne, s.len() as int);
        let vb = clamp(skip_ws_idx(s, eq + 1), eq + 1, s.len() as int);
        let ve = clamp(scan_value_end(s, vb + 1, 1), vb + 1, s.len() as int);
        let value = s.subrange(vb + 1, ve);
        lemma_scan_value_props(s, vb + 1, 1);
        assert(value_ok(value)) by {
            assert(1 + brace_depth(s.subrange(vb + 1, ve)) == 1);
            assert forall|i2: int| 0 <= i2 <= value.len() implies brace_depth(
                #[trigger] value.take(i2),
            ) >= 0 by {
                assert(value.take(i2) =~= s.subrange(vb + 1, vb + 1 + i2));
            }
        }
        let after = ve + 1;
        let cp = clamp(skip_ws_idx(s, after), after, s.len() as int);
        let next = if cp < s.len() && s[cp] == ',' {
            cp + 1
        } else {
            after
        };
        lemma_parse_fields_wf(s, next);
        let fs = spec_parse_fields(s, i)->Some_0.0;
        let rest = spec_parse_fields(s, next)->Some_0.0;
        assert(fs == seq![(name, value)] + rest);
        assert forall|k: int| 0 <= k < fs.len() implies field_wf(#[trigger] fs[k]) by {
            if k == 0 {
                assert(fs[0] == (name, value));
            } else {
                assert(fs[k] == rest[k - 1]);
            }
        }
    }
}

/// Every record the parser accepts is well formed, so a parsed store can
/// always be re-serialized into a store that parses again.
pub proof fn lemma_parse_entries_wf(s: Seq<char>, i: int)
    requires
        0 <= i <= s.len(),
        spec_parse_entries(s, i) is Some,
    ensures
        forall|k: int|
            0 <= k < spec_parse_entries(s, i)->Some_0.len() ==> entry_wf(
                #[trigger] spec_parse_entries(s, i)->Some_0[k],
            ),
    decreases s.len() - i,
{
    let j = clamp(skip_ws_idx(s, i), i, s.len() as int);
    if j >= s.len() {
    } else {
        let tb = j + 1;
        let te = clamp(first_index_from(s, '{', tb), tb, s.len() as int);
        let etype = s.subrange(tb, te);
        let kb = te + 1;
        let ke = clamp(first_index_from(s, ',', kb), kb, s.len() as int);
        let ekey = s.subrange(kb, ke);
        lemma_parse_fields_wf(s, ke + 1);
        let (fs, end) = spec_parse_fields(s, ke + 1)->Some_0;
        let next = clamp(end, j + 1, s.len() as int);
        lemma_parse_entries_wf(s, next);
        let es = spec_parse_entries(s, i)->Some_0;
        let rest = spec_parse_entries(s, next)->Some_0;
        let model = EntryModel { entry_type: etype, entry_key: ekey, fields: fs };
        assert(es == seq![model] + rest);
        assert(entry_wf(model));
        assert forall|k: int| 0 <= k < es.len() implies entry_wf(#[trigger] es[k]) by {
            if k == 0 {
                assert(es[0] == model);
            } else {
                assert(es[k] == rest[k - 1]);
            }
        }
    }
}

/// Every record key a parse yields occurs in the parsed text: the parser
/// read it there.
pub proof fn lemma_parse_keys_present(s: Seq<char>, i: int)
    requires
        0 <= i <= s.len(),
        spec_parse_entries(s, i) is Some,
    ensures
        forall|k: int|
            0 <= k < spec_parse_entries(s, i)->Some_0.len() ==> contains_seq(
                s,
                #[trigger] spec_parse_entries(s, i)->Some_0[k].entry_key,
            ),
    decreases s.len() - i,
{
    let j = clamp(skip_ws_idx(s, i), i, s.len() as int);
    if j >= s.len() {
    } else {
        let tb = j + 1;
        let te = clamp(first_index_from(s, '{', tb), tb, s.len() as int);
        let etype = s.subrange(tb, te);
        let kb = te + 1;
        let ke = clamp(first_index_from(s, ',', kb), kb, s.len() as int);
        let ekey = s.subrange(kb, ke);
        assert(is_match_at(s, ekey, kb)) by {
            assert(s.subrange(kb, kb + ekey.len()) == ekey);
        }
        let (fs, end) = spec_parse_fields(s, ke + 1)->Some_0;
        let next = clamp(end, j + 1, s.len() as int);
        lemma_parse_keys_present(s, next);
        let es = spec_parse_entries(s, i)->Some_0;
        let rest = spec_parse_entries(s, next)->Some_0;
        let model = EntryModel { entry_type: etype, entry_key: ekey, fields: fs };
        assert(es == seq![model] + rest);
        assert forall|k: int| 0 <= k < es.len() implies contains_seq(
            s,
            #[trigger] es[k].entry_key,
        ) by {
            if k == 0 {
                assert(es[0] == model);
            } else {
                assert(es[k] == rest[k - 1]);
            }
        }
    }
}

/// The canonical text of a whole store: each record's canonical text
/// followed by a blank separator line, in order.
pub open spec fn spec_ser_store(es: Seq<EntryModel>) -> Seq<char>
    decreases es.len(),
{
    if es.len() == 0 {
        Seq::empty()
    } else {
        spec_serialize_entry(es[0]) + seq!['\n'] + spec_ser_store(es.drop_first())
    }
}

/// Parsing a serialized store out of any leading blank space: the parser
/// yields exactly the serialized records.
#[verifier::rlimit(100)]
#[verifier::spinoff_prover]
proof fn lemma_parse_entries_ser(t: Seq<char>, p: int, pad: Seq<char>, es: Seq<EntryModel>)
    requires
        0 <= p <= t.len(),
        all_ws(pad),
        forall|i: int| 0 <= i < es.len() ==> entry_wf(#[trigger] es[i]),
        t.skip(p) == pad + spec_ser_store(es),
    ensures
        spec_parse_entries(t, p) == Some(es),
    decreases es.len(),
{
    let pl = pad.len() as int;
    assert(t.skip(p).len() == t.len() - p);
    assert(t.len() - p == pl + spec_ser_store(es).len());
    if es.len() == 0 {
        assert(spec_ser_store(es).len() == 0);
        assert forall|k: int| p <= k < t.len() implies is_ws_char(#[trigger] t[k]) by {
            assert(t.skip(p)[k - p] == t[k]);
            assert((pad + spec_ser_store(es))[k - p] == pad[k - p]);
        }
        lemma_skip_ws_is(t, p, t.len() as int);
        assert(Seq::<EntryModel>::empty() =~= es);
    } else {
        let e = es[0];
        let rest = es.drop_first();
        assert(entry_wf(e));
        let sere = spec_serialize_entry(e);
        let tl = e.entry_type.len() as int;
        let kl = e.entry_key.len() as int;
        let fl = spec_ser_fields(e.fields).len() as int;
        let ll = tl + kl + fl + 6;
        assert(sere.len() == ll);
        assert(spec_ser_store(es) == sere + seq!['\n'] + spec_ser_store(rest));
        let b = p + pl;
        // where the first record's text stands in `t`
        assert forall|m: int| 0 <= m < ll implies t[b + m] == sere[m] by {
            assert(t.skip(p)[pl + m] == t[p + (pl + m)]);
            assert((pad + spec_ser_store(es))[pl + m] == spec_ser_store(es)[m]);
            assert(spec_ser_store(es)[m] == sere[m]);
        }
        assert(t[b + ll] == '\n') by {
            assert(t.skip(p)[pl + ll] == t[p + (pl + ll)]);
            assert((pad + spec_ser_store(es))[pl + ll] == spec_ser_store(es)[ll]);
            assert(spec_ser_store(es)[ll] == '\n');
        }
        assert(t.subrange(b, b + ll) =~= sere) by {
            assert forall|m: int| 0 <= m < ll implies t.subrange(b, b + ll)[m] == sere[m] by {
                assert(t.subrange(b, b + ll)[m] == t[b + m]);
            }
        }
        lemma_parse_entry_at(t, b, e);
        // blank space, then the record marker
        assert forall|k: int| p <= k < b implies is_ws_char(#[trigger] t[k]) by {
            assert(t.skip(p)[k - p] == t[k]);
            assert((pad + spec_ser_store(es))[k - p] == pad[k - p]);
        }
        assert(t[b] == '@');
        lemma_skip_ws_is(t, p, b);
        let end = b + ll - 1;
        // what follows: the record's final line break, the separator line,
        // then the rest of the store
        let pad3 = seq!['\n', '\n'];
        assert(t.skip(end) =~= pad3 + spec_ser_store(rest)) by {
            assert(sere[ll - 1] == '\n');
            assert forall|k: int| 0 <= k < t.len() - end implies t.skip(end)[k] == (pad3
                + spec_ser_store(rest))[k] by {
                assert(t.skip(end)[k] == t[end + k]);
                if k == 0 {
                    assert(t[b + (ll - 1)] == sere[ll - 1]);
                } else if k == 1 {
                    assert(t[b + ll] == '\n');
                } else {
                    assert(t.skip(p)[pl + ll + 1 + (k - 2)] == t[p + (pl + ll + 1 + (k - 2))]);
                    assert((pad + spec_ser_store(es))[pl + ll + 1 + (k - 2)] == spec_ser_store(
                        es,
                    )[ll + 1 + (k - 2)]);
                    assert(spec_ser_store(es)[ll + 1 + (k - 2)] == spec_ser_store(rest)[k - 2]);
                }
            }
        }
        assert(all_ws(pad3));
        assert forall|i: int| 0 <= i < rest.len() implies entry_wf(#[trigger] rest[i]) by {
            assert(rest[i] == es[i + 1]);
        }
        lemma_parse_entries_ser(t, end, pad3, rest);
        let model = EntryModel {
            entry_type: t.subrange(b + 1, b + 1 + tl),
            entry_key: t.subrange(b + 2 + tl, b + 2 + tl + kl),
            fields: e.fields,
        };
        assert(model == e);
        assert(spec_parse_entries(t, p) == Some(seq![model] + rest));
        assert(seq![model] + rest =~= es);
    }
}

/// Every record's key occurs in the serialized store: the serializer
/// wrote it there.
pub proof fn lemma_ser_store_keys_present(es: Seq<EntryModel>)
    ensures
        forall|k: int|
            0 <= k < es.len() ==> contains_seq(spec_ser_store(es), #[trigger] es[k].entry_key),
    decreases es.len(),
{
    if es.len() > 0 {
        let e = es[0];
        let rest = es.drop_first();
        let sere = spec_serialize_entry(e);
        let tl = e.entry_type.len() as int;
        let kl = e.entry_key.len() as int;
        assert forall|k: int| 0 <= k < kl implies sere[2 + tl + k] == e.entry_key[k] by {}
        let whole = spec_ser_store(es);
        assert(whole == sere + seq!['\n'] + spec_ser_store(rest));
        assert(is_match_at(whole, e.entry_key, 2 + tl)) by {
            assert(whole.subrange(2 + tl, 2 + tl + kl) =~= e.entry_key) by {
                assert forall|k: int| 0 <= k < kl implies whole.subrange(2 + tl, 2 + tl + kl)[k]
                    == e.entry_key[k] by {
                    assert(whole.subrange(2 + tl, 2 + tl + kl)[k] == whole[2 + tl + k]);
                    assert(whole[2 + tl + k] == sere[2 + tl + k]);
                }
            }
        }
        lemma_ser_store_keys_present(rest);
        assert forall|k: int| 0 <= k < es.len() implies contains_seq(
            whole,
            #[trigger] es[k].entry_key,
        ) by {
            if k > 0 {
                assert(es[k] == rest[k - 1]);
                let key = rest[k - 1].entry_key;
                assert(contains_seq(spec_ser_store(rest), key));
                let i = choose|i: int| is_match_at(spec_ser_store(rest), key, i);
                assert(is_match_at(whole, key, sere.len() + 1 + i)) by {
                    assert(whole.subrange(
                        sere.len() + 1 + i,
                        sere.len() + 1 + i + key.len(),
                    ) =~= spec_ser_store(rest).subrange(i, i + key.len()));
                }
            }
        }
    }
}

/// Round trip for a whole store: serializing any sequence of well-formed
/// records — each followed by its blank separator line, as a conversion
/// writes them — and parsing the result yields exactly those records, so
/// a rewritten store is always valid structured text.
pub proof fn lemma_store_round_trip(es: Seq<EntryModel>)
    requires
        forall|i: int| 0 <= i < es.len() ==> entry_wf(#[trigger] es[i]),
    ensures
        spec_parse_store(spec_ser_store(es)) == Some(es),
{
    let t = spec_ser_store(es);
    assert(t.skip(0) =~= Seq::<char>::empty() + t);
    lemma_parse_entries_ser(t, 0, Seq::empty(), es);
}

/// Parses the full store text into its ordered records; nothing when the
/// store is not well-formed structured citation text.
pub fn parse_store(text: &str) -> (r: Option<Vec<StoreEntry>>)
    ensures
        r is Some <==> spec_parse_store(text@) is Some,
        r matches Some(v) ==> spec_parse_store(text@) == Some(entry_views(v@)),
{
    let n = text.unicode_len();
    parse_entries_at(text, 0, n)
}

} // verus!
