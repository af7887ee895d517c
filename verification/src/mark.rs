//! The mark engine's insertion policy over ordered span sets.
//!
//! A record's spans are kept in ascending order of `start` and pairwise
//! non-conflicting.  A candidate span is inserted only when it conflicts
//! with no stored span, at the position that keeps the order; a conflicting
//! candidate is discarded.  This module states that policy as spec
//! functions and proves its two laws: insertion preserves the non-overlap
//! invariant, and running the same candidate list twice adds nothing new.

use crate::span::{spec_conflicts, Span};
use vstd::prelude::*;

verus! {

/// The well-formedness invariant of a stored span sequence: every span is
/// a valid interval inside the text, and the spans are in ascending order
/// without overlap.
pub open spec fn spans_wf(spans: Seq<Span>, text_len: nat) -> bool {
    &&& (forall|i: int| 0 <= i < spans.len() ==> (#[trigger] spans[i]).valid(text_len))
    &&& (forall|i: int, j: int|
        #![trigger spans[i], spans[j]]
        0 <= i < j < spans.len() ==> spans[i].end <= spans[j].start)
}

/// True when `s` conflicts with none of `spans`.
pub open spec fn no_conflict(spans: Seq<Span>, s: Span) -> bool {
    forall|i: int| 0 <= i < spans.len() ==> !spec_conflicts(#[trigger] spans[i], s)
}

/// `s` inserted before the first stored span that starts at or after
/// `s.end`; with no conflicts present this keeps the ascending order.
pub open spec fn insert_sorted(spans: Seq<Span>, s: Span) -> Seq<Span>
    decreases spans.len(),
{
    if spans.len() == 0 {
        seq![s]
    } else if s.end <= spans[0].start {
        seq![s] + spans
    } else {
        seq![spans[0]] + insert_sorted(spans.drop_first(), s)
    }
}

/// One step of the mark engine: insert the candidate if it conflicts with
/// nothing, otherwise discard it.
pub open spec fn add_span(spans: Seq<Span>, s: Span) -> Seq<Span> {
    if no_conflict(spans, s) {
        insert_sorted(spans, s)
    } else {
        spans
    }
}

/// The mark engine over a whole candidate list, processed left to right.
pub open spec fn add_spans(spans: Seq<Span>, cands: Seq<Span>) -> Seq<Span>
    decreases cands.len(),
{
    if cands.len() == 0 {
        spans
    } else {
        add_spans(add_span(spans, cands[0]), cands.drop_first())
    }
}

/// Insertion at the ordered position: the result holds the old spans and
/// the new one, one longer, and stays well formed.
pub proof fn lemma_insert_sorted(spans: Seq<Span>, s: Span, text_len: nat)
    requires
        spans_wf(spans, text_len),
        s.valid(text_len),
        no_conflict(spans, s),
    ensures
        spans_wf(insert_sorted(spans, s), text_len),
        insert_sorted(spans, s).len() == spans.len() + 1,
        insert_sorted(spans, s).contains(s),
        forall|x: Span| spans.contains(x) ==> #[trigger] insert_sorted(spans, s).contains(x),
        forall|x: Span|
            #[trigger] insert_sorted(spans, s).contains(x) ==> spans.contains(x) || x == s,
    decreases spans.len(),
{
    let r = insert_sorted(spans, s);
    if spans.len() == 0 {
        assert(r =~= seq![s]);
        assert(r[0] == s);
    } else if s.end <= spans[0].start {
        assert(r =~= seq![s] + spans);
        assert(r[0] == s);
        assert forall|x: Span| spans.contains(x) implies r.contains(x) by {
            let i = choose|i: int| 0 <= i < spans.len() && spans[i] == x;
            assert(r[i + 1] == x);
        }
        assert forall|i: int, j: int|
            #![trigger r[i], r[j]]
            0 <= i < j < r.len() implies r[i].end <= r[j].start by {
            if i == 0 {
                assert(r[j] == spans[j - 1]);
                assert(spans[0].end <= spans[j - 1].start || j == 1);
            }
        }
    } else {
        let head = spans[0];
        let tail = spans.drop_first();
        assert(spans_wf(tail, text_len)) by {
            assert(forall|i: int| 0 <= i < tail.len() ==> #[trigger] tail[i] == spans[i + 1]);
        }
        assert(no_conflict(tail, s)) by {
            assert(forall|i: int| 0 <= i < tail.len() ==> #[trigger] tail[i] == spans[i + 1]);
        }
        lemma_insert_sorted(tail, s, text_len);
        let rt = insert_sorted(tail, s);
        assert(r =~= seq![head] + rt);
        // The head ends before the candidate starts, since they do not conflict.
        assert(!spec_conflicts(head, s));
        assert(head.end <= s.start);
        assert forall|x: Span| spans.contains(x) implies r.contains(x) by {
            let i = choose|i: int| 0 <= i < spans.len() && spans[i] == x;
            if i == 0 {
                assert(r[0] == x);
            } else {
                assert(tail[i - 1] == x);
                assert(tail.contains(x));
                assert(rt.contains(x));
                let k = choose|k: int| 0 <= k < rt.len() && rt[k] == x;
                assert(r[k + 1] == x);
            }
        }
        assert(r.contains(s)) by {
            let k = choose|k: int| 0 <= k < rt.len() && rt[k] == s;
            assert(r[k + 1] == s);
        }
        assert forall|x: Span| r.contains(x) implies spans.contains(x) || x == s by {
            let i = choose|i: int| 0 <= i < r.len() && r[i] == x;
            if i == 0 {
                assert(spans[0] == x);
            } else {
                assert(rt[i - 1] == x);
                assert(rt.contains(x));
                if tail.contains(x) {
                    let k = choose|k: int| 0 <= k < tail.len() && tail[k] == x;
                    assert(spans[k + 1] == x);
                }
            }
        }
        assert forall|i: int, j: int|
            #![trigger r[i], r[j]]
            0 <= i < j < r.len() implies r[i].end <= r[j].start by {
            if i == 0 {
                assert(rt[j - 1] == r[j]);
                assert(rt.contains(rt[j - 1]));
                let x = rt[j - 1];
                if tail.contains(x) {
                    let k = choose|k: int| 0 <= k < tail.len() && tail[k] == x;
                    assert(spans[k + 1] == x);
                    assert(head.end <= spans[k + 1].start);
                } else {
                    assert(x == s);
                }
            }
        }
    }
}

/// Marking preserves every stored span.
proof fn lemma_add_span_keeps(spans: Seq<Span>, s: Span, x: Span)
    requires
        spans.contains(x),
    ensures
        add_span(spans, s).contains(x),
    decreases spans.len(),
{
    if no_conflict(spans, s) {
        lemma_insert_keeps(spans, s, x);
    }
}

/// Ordered insertion preserves every stored span, with no well-formedness
/// assumption.
proof fn lemma_insert_keeps(spans: Seq<Span>, s: Span, x: Span)
    requires
        spans.contains(x),
    ensures
        insert_sorted(spans, s).contains(x),
    decreases spans.len(),
{
    let r = insert_sorted(spans, s);
    let i = choose|i: int| 0 <= i < spans.len() && spans[i] == x;
    if s.end <= spans[0].start {
        assert(r =~= seq![s] + spans);
        assert(r[i + 1] == x);
    } else if i == 0 {
        assert(r[0] == x);
    } else {
        let tail = spans.drop_first();
        assert(tail[i - 1] == x);
        assert(tail.contains(x));
        lemma_insert_keeps(tail, s, x);
        let rt = insert_sorted(tail, s);
        let k = choose|k: int| 0 <= k < rt.len() && rt[k] == x;
        assert(r =~= seq![spans[0]] + rt);
        assert(r[k + 1] == x);
    }
}

/// A whole marking pass preserves every stored span.
proof fn lemma_add_spans_keeps(spans: Seq<Span>, cands: Seq<Span>, x: Span)
    requires
        spans.contains(x),
    ensures
        add_spans(spans, cands).contains(x),
    decreases cands.len(),
{
    if cands.len() != 0 {
        lemma_add_span_keeps(spans, cands[0], x);
        lemma_add_spans_keeps(add_span(spans, cands[0]), cands.drop_first(), x);
    }
}

/// The non-overlap invariant: a marking pass over any candidate list keeps
/// the span set well formed, whatever the candidates are, as long as each
/// is a valid interval of the text.
pub proof fn lemma_add_spans_wf(spans: Seq<Span>, cands: Seq<Span>, text_len: nat)
    requires
        spans_wf(spans, text_len),
        forall|i: int| 0 <= i < cands.len() ==> (#[trigger] cands[i]).valid(text_len),
    ensures
        spans_wf(add_spans(spans, cands), text_len),
    decreases cands.len(),
{
    if cands.len() != 0 {
        if no_conflict(spans, cands[0]) {
            lemma_insert_sorted(spans, cands[0], text_len);
        }
        let rest = cands.drop_first();
        assert(forall|i: int| 0 <= i < rest.len() ==> #[trigger] rest[i] == cands[i + 1]);
        lemma_add_spans_wf(add_span(spans, cands[0]), rest, text_len);
    }
}

/// A span that conflicts with some stored span still does after more marking.
proof fn lemma_conflict_stays(spans: Seq<Span>, cands: Seq<Span>, c: Span)
    requires
        !no_conflict(spans, c),
    ensures
        !no_conflict(add_spans(spans, cands), c),
    decreases cands.len(),
{
    if cands.len() != 0 {
        let i = choose|i: int| 0 <= i < spans.len() && spec_conflicts(spans[i], c);
        let x = spans[i];
        lemma_add_span_keeps(spans, cands[0], x);
        let r = add_span(spans, cands[0]);
        let k = choose|k: int| 0 <= k < r.len() && r[k] == x;
        assert(spec_conflicts(r[k], c));
        lemma_conflict_stays(r, cands.drop_first(), c);
    }
}

/// After one marking pass, every non-empty candidate conflicts with some
/// stored span: either it was discarded for a conflict that is still there,
/// or it was inserted and a non-empty span conflicts with itself.
proof fn lemma_pass_saturates(spans: Seq<Span>, cands: Seq<Span>)
    requires
        forall|i: int| 0 <= i < cands.len() ==> (#[trigger] cands[i]).start < cands[i].end,
    ensures
        forall|i: int|
            0 <= i < cands.len() ==> !no_conflict(add_spans(spans, cands), #[trigger] cands[i]),
    decreases cands.len(),
{
    if cands.len() != 0 {
        let c = cands[0];
        let r1 = add_span(spans, c);
        assert(!no_conflict(r1, c)) by {
            if no_conflict(spans, c) {
                lemma_insert_contains_self(spans, c);
                let k = choose|k: int| 0 <= k < r1.len() && r1[k] == c;
                assert(spec_conflicts(r1[k], c));
            }
        }
        let rest = cands.drop_first();
        assert(forall|i: int| 0 <= i < rest.len() ==> #[trigger] rest[i] == cands[i + 1]);
        lemma_conflict_stays(r1, rest, c);
        lemma_pass_saturates(r1, rest);
        assert(add_spans(spans, cands) == add_spans(r1, rest));
        assert forall|i: int| 0 <= i < cands.len() implies !no_conflict(
            add_spans(spans, cands),
            #[trigger] cands[i],
        ) by {
            if i > 0 {
                assert(rest[i - 1] == cands[i]);
            }
        }
    }
}

/// Ordered insertion always places the candidate itself in the result.
proof fn lemma_insert_contains_self(spans: Seq<Span>, s: Span)
    ensures
        insert_sorted(spans, s).contains(s),
    decreases spans.len(),
{
    let r = insert_sorted(spans, s);
    if spans.len() == 0 {
        assert(r[0] == s);
    } else if s.end <= spans[0].start {
        assert(r[0] == s);
    } else {
        let tail = spans.drop_first();
        lemma_insert_contains_self(tail, s);
        let rt = insert_sorted(tail, s);
        let k = choose|k: int| 0 <= k < rt.len() && rt[k] == s;
        assert(r =~= seq![spans[0]] + rt);
        assert(r[k + 1] == s);
    }
}

/// A marking pass whose every candidate already conflicts adds nothing.
proof fn lemma_pass_is_noop(spans: Seq<Span>, cands: Seq<Span>)
    requires
        forall|i: int| 0 <= i < cands.len() ==> !no_conflict(spans, #[trigger] cands[i]),
    ensures
        add_spans(spans, cands) == spans,
    decreases cands.len(),
{
    if cands.len() != 0 {
        assert(add_span(spans, cands[0]) == spans);
        let rest = cands.drop_first();
        assert(forall|i: int| 0 <= i < rest.len() ==> #[trigger] rest[i] == cands[i + 1]);
        lemma_pass_is_noop(spans, rest);
    }
}

/// Idempotence of marking: running the engine twice over the same candidate
/// list yields the same span set as running it once, for any candidates
/// that are non-empty intervals.  (An empty candidate conflicts with
/// nothing, not even itself, so the engine would store it again on a second
/// pass; the matcher's non-empty matches are covered.)
pub proof fn lemma_add_spans_idempotent(spans: Seq<Span>, cands: Seq<Span>)
    requires
        forall|i: int| 0 <= i < cands.len() ==> (#[trigger] cands[i]).start < cands[i].end,
    ensures
        add_spans(add_spans(spans, cands), cands) == add_spans(spans, cands),
{
    lemma_pass_saturates(spans, cands);
    lemma_pass_is_noop(add_spans(spans, cands), cands);
}

} // verus!
