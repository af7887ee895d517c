//! The match engine: runs a compiled pattern over a record's text and
//! stores each match whose span is free of conflicts.
//!
//! The pattern matcher itself is an outside capability: `regex` yields, for
//! a given pattern and text, a fixed sequence of non-overlapping byte-offset
//! matches in left-to-right order.  That sequence is named by
//! [`regex_match_ranges`] and everything after the call — offset conversion,
//! conflict checking, ordered insertion, match printing — is verified.

use crate::convert::{char_count, char_span};
use crate::mark::{add_spans, no_conflict};
use crate::record::Record;
use crate::span::Span;
use vstd::prelude::*;
use vstd::string::{StrSliceExecFns, StringSliceAdditionalSpecFns};
use vstd::utf8::{encode_utf8, is_char_boundary};

verus! {

#[verifier::external_type_specification]
#[verifier::external_body]
pub struct ExRegex(regex::Regex);

/// The byte-offset match ranges that the matcher reports for this pattern
/// over this text; a function of the two alone.
pub uninterp spec fn regex_match_ranges(pattern: Seq<char>, text: Seq<char>) -> Seq<(nat, nat)>;

/// Whether the matcher's compiler accepts this pattern text as a regular
/// expression; a function of the pattern alone.
pub uninterp spec fn regex_pattern_valid(pattern: Seq<char>) -> bool;

/// A compiled pattern, remembering the pattern text it was compiled from.
pub struct Matcher {
    re: regex::Regex,
    pattern: String,
}

impl Matcher {
    /// The pattern this matcher was compiled from.
    pub closed spec fn spec_pattern(self) -> Seq<char> {
        self.pattern@
    }

    /// Compiles a pattern: a matcher for every valid pattern, `None` for
    /// every invalid one.  An invalid pattern is a configuration error to
    /// be raised before any record is touched.
    pub fn new(pat: &str) -> (r: Option<Matcher>)
        ensures
            r is Some <==> regex_pattern_valid(pat@),
            r matches Some(m) ==> m.spec_pattern() == pat@,
    {
        compile_regex(pat)
    }
}

/// Relies on regex::Regex::new: compiles the pattern text, succeeding
/// exactly on the patterns its grammar accepts — a judgment of the pattern
/// text alone.
#[verifier::external_body]
fn compile_regex(pat: &str) -> (r: Option<Matcher>)
    ensures
        r is Some <==> regex_pattern_valid(pat@),
        r matches Some(m) ==> m.spec_pattern() == pat@,
{
    match regex::Regex::new(pat) {
        Ok(re) => Some(Matcher { re, pattern: pat.to_string() }),
        Err(_) => None,
    }
}

/// Relies on regex::Regex::find_iter: yields the successive non-overlapping
/// matches of the pattern, leftmost first, each as a half-open byte-offset
/// interval into the haystack whose ends fall on character boundaries of
/// its UTF-8 encoding.
#[verifier::external_body]
fn find_ranges(m: &Matcher, text: &str) -> (r: Vec<(usize, usize)>)
    ensures
        r@.len() == regex_match_ranges(m.spec_pattern(), text@).len(),
        forall|i: int|
            0 <= i < r@.len() ==> (#[trigger] r@[i]).0 == regex_match_ranges(
                m.spec_pattern(),
                text@,
            )[i].0 && r@[i].1 == regex_match_ranges(m.spec_pattern(), text@)[i].1,
        forall|i: int|
            0 <= i < r@.len() ==> (#[trigger] r@[i]).0 <= r@[i].1 <= encode_utf8(text@).len()
                && is_char_boundary(encode_utf8(text@), r@[i].0 as int) && is_char_boundary(
                encode_utf8(text@),
                r@[i].1 as int,
            ),
        forall|i: int| 0 <= i < r@.len() - 1 ==> (#[trigger] r@[i]).1 <= r@[i + 1].0,
{
    let mut out = Vec::new();
    for mm in m.re.find_iter(text) {
        out.push((mm.start(), mm.end()));
    }
    out
}

/// The matcher's byte ranges for this pattern and text, converted to spans
/// of character offsets.
pub open spec fn match_spans(pattern: Seq<char>, text: Seq<char>) -> Seq<Span> {
    regex_match_ranges(pattern, text).map_values(
        |r: (nat, nat)|
            Span {
                start: char_count(encode_utf8(text), r.0 as int) as usize,
                end: char_count(encode_utf8(text), r.1 as int) as usize,
            },
    )
}

impl Record {
    /// Runs the matcher over this record's text and stores every match
    /// whose span conflicts with no stored span, keeping the ascending
    /// order; conflicting matches are discarded.
    #[verifier::loop_isolation(false)]
    pub fn add_match(&mut self, m: &Matcher)
        requires
            old(self).wf(),
        ensures
            final(self).wf(),
            final(self).text@ == old(self).text@,
            final(self).spans@ == add_spans(
                old(self).spans@,
                match_spans(m.spec_pattern(), old(self).text@),
            ),
    {
        let ranges = find_ranges(m, self.text.as_str());
        let ghost cands = match_spans(m.spec_pattern(), self.text@);
        let n = ranges.len();
        let mut i: usize = 0;
        proof {
            assert(cands.skip(0) =~= cands);
        }
        while i < n
            invariant
                i <= n,
                self.wf(),
                self.text@ == old(self).text@,
                add_spans(self.spans@, cands.skip(i as int)) == add_spans(old(self).spans@, cands),
            decreases n - i,
        {
            let (a, b) = ranges[i];
            let span = char_span(self.text.as_str(), a, b);
            proof {
                assert(span == cands[i as int]);
                assert(cands.skip(i as int)[0] == cands[i as int]);
                assert(cands.skip(i as int).drop_first() =~= cands.skip(i + 1));
            }
            if self.has_no_conflicting_spans(&span) {
                self.insert_span(span);
            }
            i = i + 1;
        }
        proof {
            assert(cands.skip(n as int) =~= Seq::<Span>::empty());
        }
    }
}

/// The substrings that a printing pass reports: one for each match, in
/// order; in "only new" mode, only for matches free of conflicts with the
/// stored spans.
pub open spec fn printed_from(
    text: Seq<char>,
    existing: Seq<Span>,
    cands: Seq<Span>,
    only_new: bool,
) -> Seq<Seq<char>>
    decreases cands.len(),
{
    if cands.len() == 0 {
        seq![]
    } else {
        let rest = printed_from(text, existing, cands.drop_first(), only_new);
        if !only_new || no_conflict(existing, cands[0]) {
            seq![text.subrange(cands[0].start as int, cands[0].end as int)] + rest
        } else {
            rest
        }
    }
}

/// What `print` reports for a record: each matched substring, suppressing,
/// in "only new" mode, the matches that overlap an already stored span.
pub open spec fn print_spec(r: Record, pattern: Seq<char>, only_new: bool) -> Seq<Seq<char>> {
    printed_from(r.text@, r.spans@, match_spans(pattern, r.text@), only_new)
}

/// Reports every matched substring of the record's text, one entry per
/// match; with `only_new`, only the matches that the mark engine would
/// newly store.
#[verifier::loop_isolation(false)]
pub fn print(record: &Record, m: &Matcher, only_new: bool) -> (out: Vec<String>)
    ensures
        out.deep_view() == print_spec(*record, m.spec_pattern(), only_new),
{
    let ranges = find_ranges(m, record.text.as_str());
    let ghost cands = match_spans(m.spec_pattern(), record.text@);
    let mut out: Vec<String> = Vec::new();
    let n = ranges.len();
    let mut i: usize = 0;
    proof {
        assert(cands.skip(0) =~= cands);
        assert(out.deep_view() + printed_from(record.text@, record.spans@, cands, only_new)
            =~= printed_from(record.text@, record.spans@, cands, only_new));
    }
    while i < n
        invariant
            i <= n,
            print_spec(*record, m.spec_pattern(), only_new) == out.deep_view() + printed_from(
                record.text@,
                record.spans@,
                cands.skip(i as int),
                only_new,
            ),
        decreases n - i,
    {
        let (a, b) = ranges[i];
        let span = char_span(record.text.as_str(), a, b);
        proof {
            assert(span == cands[i as int]);
            assert(cands.skip(i as int)[0] == cands[i as int]);
            assert(cands.skip(i as int).drop_first() =~= cands.skip(i + 1));
        }
        if !only_new || record.has_no_conflicting_spans(&span) {
            let piece = record.text.as_str().substring_char(span.start, span.end).to_owned();
            let ghost prev = out.deep_view();
            out.push(piece);
            proof {
                assert(out.deep_view() =~= prev.push(
                    record.text@.subrange(span.start as int, span.end as int),
                ));
                assert(seq![record.text@.subrange(span.start as int, span.end as int)]
                    + printed_from(record.text@, record.spans@, cands.skip(i + 1), only_new)
                    =~= printed_from(record.text@, record.spans@, cands.skip(i as int), only_new));
                assert(out.deep_view() + printed_from(
                    record.text@,
                    record.spans@,
                    cands.skip(i + 1),
                    only_new,
                ) =~= prev + printed_from(
                    record.text@,
                    record.spans@,
                    cands.skip(i as int),
                    only_new,
                ));
            }
        }
        i = i + 1;
    }
    proof {
        assert(cands.skip(n as int) =~= Seq::<Span>::empty());
    }
    out
}

/// Idempotence of marking: with the matcher's matches all non-empty, a
/// second pass over the same pattern and text finds only spans that now
/// conflict, so it changes nothing.
pub proof fn lemma_mark_idempotent(spans: Seq<Span>, pattern: Seq<char>, text: Seq<char>)
    requires
        forall|i: int|
            0 <= i < match_spans(pattern, text).len() ==> (#[trigger] match_spans(
                pattern,
                text,
            )[i]).start < match_spans(pattern, text)[i].end,
    ensures
        add_spans(add_spans(spans, match_spans(pattern, text)), match_spans(pattern, text))
            == add_spans(spans, match_spans(pattern, text)),
{
    crate::mark::lemma_add_spans_idempotent(spans, match_spans(pattern, text));
}

} // verus!
