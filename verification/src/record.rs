//! Records: a text buffer with an ordered set of non-overlapping spans,
//! the conflict query, and the masking engine.

use crate::mark::{insert_sorted, no_conflict, spans_wf};
use crate::span::{spec_conflicts, Span};
use vstd::prelude::*;
use vstd::string::{StrSliceExecFns, StringExecFns};

verus! {

/// A text buffer together with the spans marked in it, kept in ascending
/// order of `start` and pairwise non-conflicting.
#[derive(Debug, PartialEq, Eq)]
pub struct Record {
    pub text: String,
    pub spans: Vec<Span>,
}

impl Record {
    /// The record's invariant: its spans are well formed over its text.
    pub open spec fn wf(self) -> bool {
        spans_wf(self.spans@, self.text@.len())
    }

    /// True iff `span` conflicts with none of the stored spans.
    pub fn has_no_conflicting_spans(&self, span: &Span) -> (r: bool)
        ensures
            r == no_conflict(self.spans@, *span),
    {
        let n = self.spans.len();
        let mut i: usize = 0;
        while i < n
            invariant
                i <= n == self.spans@.len(),
                forall|k: int| 0 <= k < i ==> !spec_conflicts(#[trigger] self.spans@[k], *span),
            decreases n - i,
        {
            if crate::span::conflicts(&self.spans[i], span) {
                return false;
            }
            i = i + 1;
        }
        true
    }

    /// Decides the record's invariant: each span a valid interval inside
    /// the text, the spans in ascending order without overlap.
    #[verifier::loop_isolation(false)]
    pub fn is_well_formed(&self) -> (r: bool)
        ensures
            r == self.wf(),
    {
        let text_len = self.text.as_str().unicode_len();
        let n = self.spans.len();
        let mut i: usize = 0;
        while i < n
            invariant
                i <= n,
                forall|k: int| 0 <= k < i ==> (#[trigger] self.spans@[k]).valid(self.text@.len()),
                forall|k: int| 0 < k < i ==> self.spans@[k - 1].end <= (#[trigger] self.spans@[k]).start,
            decreases n - i,
        {
            let s = self.spans[i];
            if s.start > s.end || s.end > text_len {
                return false;
            }
            if i > 0 && self.spans[i - 1].end > s.start {
                return false;
            }
            i = i + 1;
        }
        proof {
            if n > 0 {
                lemma_adjacent_sorted(self.spans@, self.text@.len());
            }
        }
        true
    }

    /// Inserts a conflict-free span at the position that keeps the
    /// ascending order.
    pub fn insert_span(&mut self, span: Span)
        requires
            old(self).wf(),
            span.valid(old(self).text@.len()),
            no_conflict(old(self).spans@, span),
        ensures
            final(self).wf(),
            final(self).text == old(self).text,
            final(self).spans@ == insert_sorted(old(self).spans@, span),
    {
        let n = self.spans.len();
        let mut k: usize = 0;
        while k < n && self.spans[k].start < span.end
            invariant
                k <= n == self.spans@.len(),
                forall|i: int| 0 <= i < k ==> (#[trigger] self.spans@[i]).start < span.end,
            decreases n - k,
        {
            k = k + 1;
        }
        proof {
            lemma_insert_sorted_at(self.spans@, span, k as int);
            crate::mark::lemma_insert_sorted(self.spans@, span, self.text@.len());
        }
        self.spans.insert(k, span);
    }
}

/// Spans that are valid intervals and ascend pairwise over adjacent
/// positions ascend over every pair of positions.
proof fn lemma_adjacent_sorted(spans: Seq<Span>, text_len: nat)
    requires
        forall|k: int| 0 <= k < spans.len() ==> (#[trigger] spans[k]).valid(text_len),
        forall|k: int| 0 < k < spans.len() ==> spans[k - 1].end <= (#[trigger] spans[k]).start,
    ensures
        spans_wf(spans, text_len),
{
    assert forall|i: int, j: int|
        #![trigger spans[i], spans[j]]
        0 <= i < j < spans.len() implies spans[i].end <= spans[j].start by {
        lemma_sorted_chain(spans, text_len, i, j);
    }
}

/// The transitive chain from one adjacent step to any pair.
proof fn lemma_sorted_chain(spans: Seq<Span>, text_len: nat, i: int, j: int)
    requires
        forall|k: int| 0 <= k < spans.len() ==> (#[trigger] spans[k]).valid(text_len),
        forall|k: int| 0 < k < spans.len() ==> spans[k - 1].end <= (#[trigger] spans[k]).start,
        0 <= i < j < spans.len(),
    ensures
        spans[i].end <= spans[j].start,
    decreases j - i,
{
    if j > i + 1 {
        lemma_sorted_chain(spans, text_len, i, j - 1);
    }
}

/// The recursive insertion spec places the candidate exactly at the first
/// index whose span starts at or after the candidate's end.
proof fn lemma_insert_sorted_at(spans: Seq<Span>, s: Span, k: int)
    requires
        0 <= k <= spans.len(),
        forall|i: int| 0 <= i < k ==> (#[trigger] spans[i]).start < s.end,
        k < spans.len() ==> s.end <= spans[k].start,
    ensures
        insert_sorted(spans, s) == spans.insert(k, s),
    decreases spans.len(),
{
    if spans.len() == 0 {
        assert(insert_sorted(spans, s) =~= spans.insert(0, s));
    } else if k == 0 {
        assert(insert_sorted(spans, s) =~= spans.insert(0, s));
    } else {
        let tail = spans.drop_first();
        assert(forall|i: int| 0 <= i < tail.len() ==> #[trigger] tail[i] == spans[i + 1]);
        lemma_insert_sorted_at(tail, s, k - 1);
        assert(seq![spans[0]] + tail.insert(k - 1, s) =~= spans.insert(k, s));
    }
}

/// A fresh record for one raw input line: the line as text, no spans yet.
pub fn import(line: &str) -> (r: Record)
    ensures
        r.text@ == line@,
        r.spans@ == Seq::<Span>::empty(),
        r.wf(),
{
    Record { text: line.to_owned(), spans: Vec::new() }
}

/// The text that remains when, walking the spans from `pos`, each spanned
/// region is replaced by the label: the unspanned stretch before each span,
/// then the label, then the tail after the last span.
pub open spec fn masked_from(text: Seq<char>, spans: Seq<Span>, label: Seq<char>, pos: int) -> Seq<
    char,
>
    decreases spans.len(),
{
    if spans.len() == 0 {
        text.subrange(pos, text.len() as int)
    } else {
        text.subrange(pos, spans[0].start as int) + label + masked_from(
            text,
            spans.drop_first(),
            label,
            spans[0].end as int,
        )
    }
}

/// The masking transform over a whole record's text.
pub open spec fn mask_spec(text: Seq<char>, spans: Seq<Span>, label: Seq<char>) -> Seq<char> {
    masked_from(text, spans, label, 0)
}

/// The sum of the spans' lengths.
pub open spec fn total_span_len(spans: Seq<Span>) -> int
    decreases spans.len(),
{
    if spans.len() == 0 {
        0
    } else {
        spans[0].end - spans[0].start + total_span_len(spans.drop_first())
    }
}

/// Derives the masked text of a record: every spanned region replaced by
/// `label`, every unspanned region kept as it is.  The record itself is
/// not changed.
pub fn mask(record: &Record, label: &str) -> (out: String)
    requires
        record.wf(),
    ensures
        out@ == mask_spec(record.text@, record.spans@, label@),
{
    let mut out = String::new();
    let mut pos: usize = 0;
    let n = record.spans.len();
    let mut i: usize = 0;
    proof {
        assert(record.spans@.skip(0) =~= record.spans@);
        assert(out@ + masked_from(record.text@, record.spans@, label@, 0) =~= masked_from(
            record.text@,
            record.spans@,
            label@,
            0,
        ));
    }
    while i < n
        invariant
            record.wf(),
            i <= n == record.spans@.len(),
            pos <= record.text@.len(),
            i < n ==> pos <= record.spans@[i as int].start,
            mask_spec(record.text@, record.spans@, label@) == out@ + masked_from(
                record.text@,
                record.spans@.skip(i as int),
                label@,
                pos as int,
            ),
        decreases n - i,
    {
        let s = record.spans[i];
        proof {
            assert(record.spans@.skip(i as int).drop_first() =~= record.spans@.skip(i + 1));
            assert(record.spans@.skip(i as int)[0] == record.spans@[i as int]);
        }
        out.append(record.text.as_str().substring_char(pos, s.start));
        out.append(label);
        pos = s.end;
        i = i + 1;
    }
    proof {
        assert(record.spans@.skip(n as int) =~= Seq::<Span>::empty());
    }
    let len = record.text.as_str().unicode_len();
    out.append(record.text.as_str().substring_char(pos, len));
    out
}

/// The masking length law: the masked text is as long as the original,
/// less the spanned characters, plus one label for each span.
pub proof fn lemma_mask_length(text: Seq<char>, spans: Seq<Span>, label: Seq<char>)
    requires
        spans_wf(spans, text.len()),
    ensures
        mask_spec(text, spans, label).len() == text.len() - total_span_len(spans) + label.len()
            * spans.len(),
{
    lemma_masked_from_length(text, spans, label, 0);
}

/// The length law generalized to a walk that starts at `pos`.
proof fn lemma_masked_from_length(text: Seq<char>, spans: Seq<Span>, label: Seq<char>, pos: int)
    requires
        spans_wf(spans, text.len()),
        0 <= pos <= text.len(),
        spans.len() > 0 ==> pos <= spans[0].start,
    ensures
        masked_from(text, spans, label, pos).len() == text.len() - pos - total_span_len(spans)
            + label.len() * spans.len(),
    decreases spans.len(),
{
    if spans.len() == 0 {
    } else {
        let tail = spans.drop_first();
        assert(forall|i: int| 0 <= i < tail.len() ==> #[trigger] tail[i] == spans[i + 1]);
        lemma_masked_from_length(text, tail, label, spans[0].end as int);
        assert(label.len() * spans.len() == label.len() * tail.len() + label.len()) by {
            assert(spans.len() == tail.len() + 1);
            assert(label.len() * (tail.len() + 1nat) == label.len() * tail.len() + label.len())
                by (nonlinear_arith);
        }
    }
}

} // verus!
