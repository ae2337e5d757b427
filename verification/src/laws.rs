//! Laws of the classification: which lines yield events, that each
//! matching line yields exactly one, that events keep file order, and that
//! the whole pass is a pure function of the content.

use vstd::prelude::*;
use crate::classify::{
    classify_content_spec, event_of_line, events_of_lines, first_keyword, first_match_at,
    keyword_seqs, EventModel,
};
use crate::text::{contains_seq, spec_lines, spec_tokens};

verus! {

/// The level of a match is the first keyword in the fixed priority order
/// that the raw line contains: a line containing none of the keywords
/// matches nothing.
pub proof fn lemma_first_keyword_priority(line: Seq<char>)
    ensures
        first_keyword(line) matches Some(kw) ==> exists|j: int|
            #[trigger] first_match_at(line, j) && keyword_seqs()[j] == kw,
        first_keyword(line) is None ==> forall|j: int|
            0 <= j < keyword_seqs().len() ==> !contains_seq(line, #[trigger] keyword_seqs()[j]),
{
    assert(keyword_seqs()[0] == "ERROR"@);
    assert(keyword_seqs()[1] == "ERR"@);
    assert(keyword_seqs()[2] == "MEDIA_TIMEOUT"@);
    assert(keyword_seqs()[3] == "AbandonedCall"@);
    assert(keyword_seqs()[4] == "Warning"@);
    if contains_seq(line, "ERROR"@) {
        assert(first_match_at(line, 0));
    } else if contains_seq(line, "ERR"@) {
        assert(first_match_at(line, 1));
    } else if contains_seq(line, "MEDIA_TIMEOUT"@) {
        assert(first_match_at(line, 2));
    } else if contains_seq(line, "AbandonedCall"@) {
        assert(first_match_at(line, 3));
    } else if contains_seq(line, "Warning"@) {
        assert(first_match_at(line, 4));
    } else {
        assert forall|j: int| 0 <= j < keyword_seqs().len() implies !contains_seq(
            line,
            #[trigger] keyword_seqs()[j],
        ) by {
            if j == 0 {
            } else if j == 1 {
            } else if j == 2 {
            } else if j == 3 {
            } else {
                assert(keyword_seqs()[j] == "Warning"@);
            }
        }
    }
}

/// Every event of `events_of_lines(lines, start)` carries a 1-based line
/// number inside the block of lines it was read from.
pub proof fn lemma_events_line_range(lines: Seq<Seq<char>>, start: nat)
    ensures
        forall|k: int|
            0 <= k < events_of_lines(lines, start).len() ==> start + 1 <= #[trigger] events_of_lines(
                lines,
                start,
            )[k].line_number <= start + lines.len(),
    decreases lines.len(),
{
    if lines.len() == 0 {
    } else {
        let ev = events_of_lines(lines, start);
        let tail = events_of_lines(lines.drop_first(), (start + 1) as nat);
        lemma_events_line_range(lines.drop_first(), (start + 1) as nat);
        match event_of_line(start, lines[0]) {
            Some(e) => {
                assert forall|k: int|
                    0 <= k < ev.len() implies start + 1 <= #[trigger] ev[k].line_number <= start
                    + lines.len() by {
                    if k == 0 {
                        assert(ev[k] == e);
                    } else {
                        assert(ev[k] == tail[k - 1]);
                    }
                }
            },
            None => {
                assert forall|k: int|
                    0 <= k < ev.len() implies start + 1 <= #[trigger] ev[k].line_number <= start
                    + lines.len() by {
                    assert(ev[k] == tail[k]);
                }
            },
        }
    }
}

/// The events of a block of lines come in strictly increasing line-number
/// order: the file order of the lines they were read from.
pub proof fn lemma_events_ordered(lines: Seq<Seq<char>>, start: nat)
    ensures
        forall|k1: int, k2: int|
            #![trigger events_of_lines(lines, start)[k1], events_of_lines(lines, start)[k2]]
            0 <= k1 < k2 < events_of_lines(lines, start).len() ==> events_of_lines(
                lines,
                start,
            )[k1].line_number < events_of_lines(lines, start)[k2].line_number,
    decreases lines.len(),
{
    if lines.len() == 0 {
    } else {
        let ev = events_of_lines(lines, start);
        let tail = events_of_lines(lines.drop_first(), (start + 1) as nat);
        lemma_events_ordered(lines.drop_first(), (start + 1) as nat);
        lemma_events_line_range(lines.drop_first(), (start + 1) as nat);
        match event_of_line(start, lines[0]) {
            Some(e) => {
                assert forall|k1: int, k2: int|
                    0 <= k1 < k2 < ev.len() implies ev[k1].line_number
                    < ev[k2].line_number by {
                    if k1 == 0 {
                        assert(ev[k1] == e);
                        assert(ev[k2] == tail[k2 - 1]);
                    } else {
                        assert(ev[k1] == tail[k1 - 1]);
                        assert(ev[k2] == tail[k2 - 1]);
                    }
                }
            },
            None => {
                assert forall|k1: int, k2: int|
                    0 <= k1 < k2 < ev.len() implies ev[k1].line_number
                    < ev[k2].line_number by {
                    assert(ev[k1] == tail[k1]);
                    assert(ev[k2] == tail[k2]);
                }
            },
        }
    }
}

/// Every event of a block of lines is the event of the very line its line
/// number points at: nothing is emitted that no line yields.
pub proof fn lemma_events_from_their_lines(lines: Seq<Seq<char>>, start: nat)
    ensures
        forall|k: int|
            0 <= k < events_of_lines(lines, start).len() ==> {
                let e = #[trigger] events_of_lines(lines, start)[k];
                let i = e.line_number - start - 1;
                &&& 0 <= i < lines.len()
                &&& event_of_line((start + i) as nat, lines[i]) == Some(e)
            },
    decreases lines.len(),
{
    if lines.len() == 0 {
    } else {
        let ev = events_of_lines(lines, start);
        let tail = events_of_lines(lines.drop_first(), (start + 1) as nat);
        lemma_events_from_their_lines(lines.drop_first(), (start + 1) as nat);
        match event_of_line(start, lines[0]) {
            Some(e0) => {
                assert forall|k: int| 0 <= k < ev.len() implies {
                    let e = #[trigger] ev[k];
                    let i = e.line_number - start - 1;
                    &&& 0 <= i < lines.len()
                    &&& event_of_line((start + i) as nat, lines[i]) == Some(e)
                } by {
                    if k == 0 {
                        assert(ev[k] == e0);
                        assert(e0.line_number == start + 1);
                    } else {
                        assert(ev[k] == tail[k - 1]);
                        let i1 = tail[k - 1].line_number - (start + 1) - 1;
                        assert(lines.drop_first()[i1] == lines[i1 + 1]);
                    }
                }
            },
            None => {
                assert forall|k: int| 0 <= k < ev.len() implies {
                    let e = #[trigger] ev[k];
                    let i = e.line_number - start - 1;
                    &&& 0 <= i < lines.len()
                    &&& event_of_line((start + i) as nat, lines[i]) == Some(e)
                } by {
                    assert(ev[k] == tail[k]);
                    let i1 = tail[k].line_number - (start + 1) - 1;
                    assert(lines.drop_first()[i1] == lines[i1 + 1]);
                }
            },
        }
    }
}

/// The event of every line that yields one stands somewhere in the events
/// of its block.
pub proof fn lemma_line_event_present(lines: Seq<Seq<char>>, start: nat, i: int)
    requires
        0 <= i < lines.len(),
        event_of_line((start + i) as nat, lines[i]) is Some,
    ensures
        events_of_lines(lines, start).contains(event_of_line((start + i) as nat, lines[i])->Some_0),
    decreases lines.len(),
{
    let ev = events_of_lines(lines, start);
    let tail = events_of_lines(lines.drop_first(), (start + 1) as nat);
    if i == 0 {
        let e = event_of_line(start, lines[0])->Some_0;
        assert(ev[0] == e);
        assert(ev.contains(e));
    } else {
        assert(lines.drop_first()[i - 1] == lines[i]);
        lemma_line_event_present(lines.drop_first(), (start + 1) as nat, i - 1);
        let e = event_of_line((start + i) as nat, lines[i])->Some_0;
        let j = choose|j: int| 0 <= j < tail.len() && tail[j] == e;
        match event_of_line(start, lines[0]) {
            Some(_) => {
                assert(ev[j + 1] == e);
                assert(ev.contains(e));
            },
            None => {
                assert(ev[j] == e);
                assert(ev.contains(e));
            },
        }
    }
}

/// A line of the content with fewer than three whitespace-separated tokens
/// yields no event: no event of the dataset carries its line number.
pub proof fn lemma_short_line_skipped(content: Seq<char>, i: int)
    requires
        0 <= i < spec_lines(content).len(),
        spec_tokens(spec_lines(content)[i]).len() < 3,
    ensures
        forall|k: int|
            0 <= k < classify_content_spec(content).events.len() ==> #[trigger] classify_content_spec(
                content,
            ).events[k].line_number != i + 1,
{
    let lines = spec_lines(content);
    let ev = classify_content_spec(content).events;
    lemma_events_from_their_lines(lines, 0);
    assert forall|k: int| 0 <= k < ev.len() implies #[trigger] ev[k].line_number != i + 1 by {
        if ev[k].line_number == i + 1 {
            assert(event_of_line(i as nat, lines[i]) == Some(ev[k]));
        }
    }
}

/// A line of the content with at least three whitespace-separated tokens
/// whose raw text contains a keyword yields exactly one event: one event
/// of the dataset carries its line number, that event's level is the first
/// matching keyword in priority order, its time is the line's second
/// token, and no second event carries the same line number.
pub proof fn lemma_keyword_line_one_event(content: Seq<char>, i: int)
    requires
        0 <= i < spec_lines(content).len(),
        spec_tokens(spec_lines(content)[i]).len() >= 3,
        first_keyword(spec_lines(content)[i]) is Some,
    ensures
        ({
            let ev = classify_content_spec(content).events;
            let e = event_of_line(i as nat, spec_lines(content)[i])->Some_0;
            &&& ev.contains(e)
            &&& e.line_number == i + 1
            &&& e.level == first_keyword(spec_lines(content)[i])->Some_0
            &&& e.time == spec_tokens(spec_lines(content)[i])[1]
            &&& forall|k1: int, k2: int|
                #![trigger ev[k1], ev[k2]]
                0 <= k1 < ev.len() && 0 <= k2 < ev.len() && ev[k1].line_number == i + 1
                    && ev[k2].line_number == i + 1 ==> k1 == k2
        }),
{
    let lines = spec_lines(content);
    let ev = classify_content_spec(content).events;
    lemma_line_event_present(lines, 0, i);
    lemma_events_ordered(lines, 0);
    assert forall|k1: int, k2: int|
        0 <= k1 < ev.len() && 0 <= k2 < ev.len() && #[trigger] ev[k1].line_number == i + 1
            && #[trigger] ev[k2].line_number == i + 1 implies k1 == k2 by {
        if k1 < k2 {
            assert(ev[k1].line_number < ev[k2].line_number);
        }
        if k2 < k1 {
            assert(ev[k2].line_number < ev[k1].line_number);
        }
    }
}

/// The events of the dataset keep the source line order: their line
/// numbers are strictly increasing, so nothing is reordered.
pub proof fn lemma_classify_order(content: Seq<char>)
    ensures
        forall|k1: int, k2: int|
            #![trigger classify_content_spec(content).events[k1], classify_content_spec(content).events[k2]]
            0 <= k1 < k2 < classify_content_spec(content).events.len()
                ==> classify_content_spec(content).events[k1].line_number < classify_content_spec(
                content,
            ).events[k2].line_number,
{
    lemma_events_ordered(spec_lines(content), 0);
}

/// The dataset holds events only if at least one line of the content
/// contains a keyword and carries at least three tokens.
pub proof fn lemma_events_need_a_match(content: Seq<char>)
    ensures
        classify_content_spec(content).events.len() > 0 ==> exists|i: int|
            0 <= i < spec_lines(content).len() && #[trigger] first_keyword(spec_lines(content)[i])
                is Some && spec_tokens(spec_lines(content)[i]).len() >= 3,
{
    let lines = spec_lines(content);
    let ev = classify_content_spec(content).events;
    if ev.len() > 0 {
        lemma_events_from_their_lines(lines, 0);
        let i = ev[0].line_number - 1;
        assert(event_of_line(i as nat, lines[i]) == Some(ev[0]));
        assert(first_keyword(lines[i]) is Some && spec_tokens(lines[i]).len() >= 3);
    }
}

/// Classification is a pure function of the content: two passes over equal
/// contents yield equal datasets, so classifying the same file twice is
/// idempotent.
pub proof fn lemma_classify_deterministic(c1: Seq<char>, c2: Seq<char>)
    requires
        c1 == c2,
    ensures
        classify_content_spec(c1) == classify_content_spec(c2),
{
}

} // verus!
