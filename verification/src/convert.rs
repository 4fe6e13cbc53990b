use vstd::prelude::*;
use vstd::string::*;

use crate::codec::{
    entry_views, entry_wf, lemma_parse_entries_wf, lemma_parse_keys_present,
    lemma_ser_store_keys_present, lemma_store_round_trip, parse_store, spec_parse_store,
    spec_remote_backed, spec_ser_store, spec_serialize_entry, EntryModel, StoreEntry,
};
use crate::record::{record_url, spec_get_param, Format};
use crate::scan::contains_seq;

verus! {

/// The mathematical state of a conversion run: the store text as it was
/// read, its parsed records, how many have been rewritten, and the text
/// written so far.
#[verifier::ext_equal]
pub struct ConversionModel {
    pub original: Seq<char>,
    pub entries: Seq<EntryModel>,
    pub next: int,
    pub output: Seq<char>,
}

/// A whole-store conversion in progress. The caller drives it: for each
/// record it performs the one remote fetch the conversion asks for (if
/// any) and hands back the outcome; the conversion decides what is
/// written.
pub struct Conversion {
    pub original: String,
    pub entries: Vec<StoreEntry>,
    pub next: usize,
    pub output: String,
}

impl View for Conversion {
    type V = ConversionModel;

    open spec fn view(&self) -> ConversionModel {
        ConversionModel {
            original: self.original@,
            entries: entry_views(self.entries@),
            next: self.next as int,
            output: self.output@,
        }
    }
}

/// What one rewriting step does: the record at `next` is written — the
/// fetched canonical text when the fetch succeeded, the record's own
/// serialized local text when it failed or was never attempted — followed
/// by a blank separator line. Nothing else changes; no record is dropped.
pub open spec fn spec_step(c: ConversionModel, fetched: Option<Seq<char>>) -> ConversionModel {
    ConversionModel {
        original: c.original,
        entries: c.entries,
        next: c.next + 1,
        output: c.output + (match fetched {
            Some(t) => t,
            None => spec_serialize_entry(c.entries[c.next]),
        }) + "\n"@,
    }
}

/// The state after driving the conversion through every outcome in `evs`.
pub open spec fn spec_run(c: ConversionModel, evs: Seq<Option<Seq<char>>>) -> ConversionModel
    decreases evs.len(),
{
    if evs.len() == 0 {
        c
    } else {
        spec_run(spec_step(c, evs[0]), evs.drop_first())
    }
}

/// The text that the records from `next` on contribute, one block per
/// record, given the fetch outcomes `evs`.
pub open spec fn spec_chunks(
    entries: Seq<EntryModel>,
    next: int,
    evs: Seq<Option<Seq<char>>>,
) -> Seq<char>
    decreases evs.len(),
{
    if evs.len() == 0 {
        Seq::empty()
    } else {
        (match evs[0] {
            Some(t) => t,
            None => spec_serialize_entry(entries[next]),
        }) + "\n"@ + spec_chunks(entries, next + 1, evs.drop_first())
    }
}

impl Conversion {
    /// The conversion has not run past its records.
    pub open spec fn wf(&self) -> bool {
        self.next <= self.entries.len()
    }

    /// Starts a conversion: parses the full store text into its records.
    /// A store that is not well-formed structured text refuses to convert;
    /// nothing has been written at that point.
    pub fn begin(text: &str) -> (r: Option<Conversion>)
        ensures
            r is Some <==> spec_parse_store(text@) is Some,
            r matches Some(c) ==> c.wf() && c@.original == text@ && Some(c@.entries)
                == spec_parse_store(text@) && c@.next == 0 && c@.output == Seq::<char>::empty(),
    {
        match parse_store(text) {
            None => None,
            Some(es) => Some(
                Conversion {
                    original: String::from_str(text),
                    entries: es,
                    next: 0,
                    output: String::new(),
                },
            ),
        }
    }

    /// The text to write to the backup path before any record is
    /// rewritten: exactly the store text the conversion was started from.
    pub fn backup_text(&self) -> (r: String)
        ensures
            r@ == self@.original,
    {
        self.original.clone()
    }

    /// Every record has been rewritten.
    pub fn done(&self) -> (b: bool)
        ensures
            b == (self@.next == self@.entries.len()),
    {
        self.next == self.entries.len()
    }

    /// The key of the record the next step rewrites, for reporting.
    pub fn current_key(&self) -> (r: String)
        requires
            self.wf(),
            self@.next < self@.entries.len(),
        ensures
            r@ == self@.entries[self@.next].entry_key,
    {
        proof {
            assert(self@.entries[self@.next] == self.entries@[self.next as int]@);
        }
        self.entries[self.next].entry_key.clone()
    }

    /// The one URL the conversion asks its caller to fetch for the record
    /// the next step rewrites: the record endpoint of `base` in `to`'s
    /// rendering, for a remote-backed record; nothing for a local one.
    pub fn current_fetch(&self, base: &str, to: Format) -> (r: Option<String>)
        requires
            self.wf(),
            self@.next < self@.entries.len(),
        ensures
            r is Some <==> spec_remote_backed(self@.entries[self@.next].entry_key),
            r matches Some(u) ==> u@ == base@ + "/rec/"@ + self@.entries[self@.next]
                .entry_key.skip(5) + ".bib"@ + spec_get_param(to),
    {
        proof {
            assert(self@.entries[self@.next] == self.entries@[self.next as int]@);
        }
        match self.entries[self.next].remote_key() {
            None => None,
            Some(k) => Some(record_url(base, k.as_str(), to)),
        }
    }

    /// Rewrites one record: writes the fetched canonical text when the
    /// caller's fetch succeeded, and falls back to the record's own
    /// serialized local text — never dropping the record — when it did
    /// not; a blank separator line follows either way.
    pub fn step(&mut self, fetched: Option<&str>)
        requires
            old(self).wf(),
            old(self)@.next < old(self)@.entries.len(),
        ensures
            final(self).wf(),
            final(self)@ == spec_step(
                old(self)@,
                match fetched {
                    Some(t) => Some(t@),
                    None => None,
                },
            ),
    {
        match fetched {
            Some(t) => {
                self.output.append(t);
            },
            None => {
                proof {
                    assert(self@.entries[self@.next] == self.entries@[self.next as int]@);
                }
                let ser = self.entries[self.next].to_bibtex_string();
                self.output.append(ser.as_str());
            },
        }
        self.output.append("\n");
        self.next = self.next + 1;
        proof {
            assert(final(self)@ =~= spec_step(
                old(self)@,
                match fetched {
                    Some(t) => Some(t@),
                    None => None,
                },
            ));
        }
    }

    /// The rewritten store text produced so far.
    pub fn output_text(&self) -> (r: &String)
        ensures
            r@ == self@.output,
    {
        &self.output
    }
}

/// Backup integrity: however many steps a conversion runs, and whatever
/// each fetch returned — success or failure — the store text it was
/// started from never changes. The backup taken before the first step
/// therefore equals the pre-conversion store exactly, whatever happens.
pub proof fn lemma_backup_integrity(c: ConversionModel, evs: Seq<Option<Seq<char>>>)
    ensures
        spec_run(c, evs).original == c.original,
    decreases evs.len(),
{
    if evs.len() > 0 {
        lemma_backup_integrity(spec_step(c, evs[0]), evs.drop_first());
    }
}

/// The blocks a run writes when every fetch fell back are exactly the
/// serialized store of the records it covered.
proof fn lemma_chunks_all_none(entries: Seq<EntryModel>, next: int, evs: Seq<Option<Seq<char>>>)
    requires
        0 <= next,
        next + evs.len() <= entries.len(),
        forall|i: int| 0 <= i < evs.len() ==> evs[i] is None,
    ensures
        spec_chunks(entries, next, evs) == spec_ser_store(
            entries.subrange(next, next + evs.len()),
        ),
    decreases evs.len(),
{
    reveal_strlit("\n");
    let sub = entries.subrange(next, next + evs.len());
    if evs.len() == 0 {
        assert(sub.len() == 0);
    } else {
        assert forall|i: int| 0 <= i < evs.drop_first().len() implies evs.drop_first()[i]
            is None by {
            assert(evs.drop_first()[i] == evs[i + 1]);
        }
        lemma_chunks_all_none(entries, next + 1, evs.drop_first());
        assert(sub[0] == entries[next]);
        assert(sub.drop_first() =~= entries.subrange(next + 1, next + 1 + evs.drop_first().len()));
        assert("\n"@ =~= seq!['\n']);
        assert(spec_ser_store(sub) == spec_serialize_entry(sub[0]) + seq!['\n'] + spec_ser_store(
            sub.drop_first(),
        ));
    }
}

/// A conversion whose every fetch fell back leaves a valid rewritten
/// store: its output is the records' own serialized text, and parsing it
/// yields exactly the records the conversion started from.
pub proof fn lemma_fallback_output_parses(c: ConversionModel, evs: Seq<Option<Seq<char>>>)
    requires
        c.next == 0,
        c.output == Seq::<char>::empty(),
        evs.len() == c.entries.len(),
        forall|i: int| 0 <= i < evs.len() ==> evs[i] is None,
        forall|i: int| 0 <= i < c.entries.len() ==> entry_wf(#[trigger] c.entries[i]),
    ensures
        spec_parse_store(spec_run(c, evs).output) == Some(c.entries),
{
    lemma_conversion_run(c, evs);
    lemma_chunks_all_none(c.entries, 0, evs);
    assert(c.entries.subrange(0, c.entries.len() as int) =~= c.entries);
    assert(spec_run(c, evs).output =~= spec_ser_store(c.entries));
    lemma_store_round_trip(c.entries);
}

/// A conversion that starts from any parseable store text and falls back
/// on every record — the worst case, with the remote unreachable
/// throughout — still leaves a store that parses to exactly the records
/// it started from: nothing is lost even then.
pub proof fn lemma_conversion_identity(
    text: Seq<char>,
    es: Seq<EntryModel>,
    evs: Seq<Option<Seq<char>>>,
)
    requires
        spec_parse_store(text) == Some(es),
        evs.len() == es.len(),
        forall|i: int| 0 <= i < evs.len() ==> evs[i] is None,
    ensures
        spec_parse_store(
            spec_run(
                (ConversionModel {
                    original: text,
                    entries: es,
                    next: 0,
                    output: Seq::empty(),
                }),
                evs,
            ).output,
        ) == Some(es),
{
    lemma_parse_entries_wf(text, 0);
    assert forall|i: int| 0 <= i < es.len() implies entry_wf(#[trigger] es[i]) by {
        assert(es[i] == spec_parse_store(text)->Some_0[i]);
    }
    lemma_fallback_output_parses(
        ConversionModel { original: text, entries: es, next: 0, output: Seq::empty() },
        evs,
    );
}

/// The textual membership check stays satisfied across the worst-case
/// conversion: every key the store held as a record key occurs both in
/// the pre-run store text and in the text an all-fallback run rewrites.
pub proof fn lemma_conversion_keeps_keys(
    text: Seq<char>,
    es: Seq<EntryModel>,
    evs: Seq<Option<Seq<char>>>,
)
    requires
        spec_parse_store(text) == Some(es),
        evs.len() == es.len(),
        forall|i: int| 0 <= i < evs.len() ==> evs[i] is None,
    ensures
        forall|k: int| 0 <= k < es.len() ==> contains_seq(text, #[trigger] es[k].entry_key),
        forall|k: int|
            0 <= k < es.len() ==> contains_seq(
                spec_run(
                    (ConversionModel {
                        original: text,
                        entries: es,
                        next: 0,
                        output: Seq::empty(),
                    }),
                    evs,
                ).output,
                #[trigger] es[k].entry_key,
            ),
{
    lemma_parse_keys_present(text, 0);
    assert forall|k: int| 0 <= k < es.len() implies contains_seq(
        text,
        #[trigger] es[k].entry_key,
    ) by {
        assert(es[k] == spec_parse_store(text)->Some_0[k]);
    }
    let c0 = ConversionModel { original: text, entries: es, next: 0, output: Seq::empty() };
    lemma_conversion_run(c0, evs);
    lemma_chunks_all_none(es, 0, evs);
    assert(es.subrange(0, es.len() as int) =~= es);
    assert(spec_run(c0, evs).output =~= spec_ser_store(es));
    lemma_ser_store_keys_present(es);
}

/// Fallback and continue: a full run writes one block per record, in the
/// store's order — the fetched text where the fetch succeeded, the
/// record's own serialized local text where it failed — so a failed fetch
/// degrades one record to its local text and drops nothing.
pub proof fn lemma_conversion_run(c: ConversionModel, evs: Seq<Option<Seq<char>>>)
    ensures
        spec_run(c, evs) == (ConversionModel {
            original: c.original,
            entries: c.entries,
            next: c.next + evs.len(),
            output: c.output + spec_chunks(c.entries, c.next, evs),
        }),
    decreases evs.len(),
{
    if evs.len() == 0 {
        assert(c.output + spec_chunks(c.entries, c.next, evs) =~= c.output);
        assert(spec_run(c, evs) =~= ConversionModel {
            original: c.original,
            entries: c.entries,
            next: c.next + evs.len(),
            output: c.output + spec_chunks(c.entries, c.next, evs),
        });
    } else {
        let c1 = spec_step(c, evs[0]);
        lemma_conversion_run(c1, evs.drop_first());
        let chunk0 = (match evs[0] {
            Some(t) => t,
            None => spec_serialize_entry(c.entries[c.next]),
        }) + "\n"@;
        assert(c1.output + spec_chunks(c.entries, c.next + 1, evs.drop_first()) =~= c.output
            + spec_chunks(c.entries, c.next, evs));
        assert(spec_run(c, evs) =~= ConversionModel {
            original: c.original,
            entries: c.entries,
            next: c.next + evs.len(),
            output: c.output + spec_chunks(c.entries, c.next, evs),
        });
    }
}

} // verus!
