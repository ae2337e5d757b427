//! Classification of log lines: each line with at least three
//! whitespace-separated tokens whose raw text contains one of the severity
//! keywords becomes an event carrying its position, time token, severity
//! level and rejoined message.

use vstd::prelude::*;
use crate::text::{
    contains_seq, contains_str, join_spaces, join_tail, spec_lines, spec_tokens, split_lines,
    split_tokens,
};

verus! {

/// One matched log line: its 1-based position, the time token, the
/// severity keyword that matched, and the message rejoined from the
/// remaining tokens.
#[derive(Debug, Clone, PartialEq, Eq)]
pub struct LogEvent {
    pub line_number: usize,
    pub time: String,
    pub level: String,
    pub message: String,
}

/// The result of one classification pass: the line count of the whole
/// content and the matched lines in file order.
#[derive(Debug, Clone, PartialEq, Eq)]
pub struct LogData {
    pub total_lines: usize,
    pub events: Vec<LogEvent>,
}

/// Mathematical model of a `LogEvent`.
pub struct EventModel {
    pub line_number: nat,
    pub time: Seq<char>,
    pub level: Seq<char>,
    pub message: Seq<char>,
}

/// Mathematical model of a `LogData`.
pub struct DataModel {
    pub total_lines: nat,
    pub events: Seq<EventModel>,
}

impl View for LogEvent {
    type V = EventModel;

    open spec fn view(&self) -> EventModel {
        EventModel {
            line_number: self.line_number as nat,
            time: self.time@,
            level: self.level@,
            message: self.message@,
        }
    }
}

impl DeepView for LogEvent {
    type V = EventModel;

    open spec fn deep_view(&self) -> EventModel {
        self.view()
    }
}

impl View for LogData {
    type V = DataModel;

    open spec fn view(&self) -> DataModel {
        DataModel { total_lines: self.total_lines as nat, events: self.events.deep_view() }
    }
}

/// The severity keywords in their priority order.
pub open spec fn keyword_seqs() -> Seq<Seq<char>> {
    seq!["ERROR"@, "ERR"@, "MEDIA_TIMEOUT"@, "AbandonedCall"@, "Warning"@]
}

/// The keyword at priority position `j` occurs in the raw line, and no
/// keyword of higher priority does.
pub open spec fn first_match_at(line: Seq<char>, j: int) -> bool {
    &&& 0 <= j < keyword_seqs().len()
    &&& contains_seq(line, keyword_seqs()[j])
    &&& forall|j2: int| 0 <= j2 < j ==> !contains_seq(line, #[trigger] keyword_seqs()[j2])
}

/// The first keyword in priority order that the raw line contains, if any.
pub open spec fn first_keyword(line: Seq<char>) -> Option<Seq<char>> {
    if contains_seq(line, "ERROR"@) {
        Some("ERROR"@)
    } else if contains_seq(line, "ERR"@) {
        Some("ERR"@)
    } else if contains_seq(line, "MEDIA_TIMEOUT"@) {
        Some("MEDIA_TIMEOUT"@)
    } else if contains_seq(line, "AbandonedCall"@) {
        Some("AbandonedCall"@)
    } else if contains_seq(line, "Warning"@) {
        Some("Warning"@)
    } else {
        None
    }
}

/// The event the line at 0-based position `idx` yields, if any: a line
/// with fewer than three tokens yields none, one whose raw text contains
/// no keyword yields none, and any other yields one event whose level is
/// the first matching keyword, whose time is the second token, and whose
/// message is the tokens from the third on rejoined with single spaces.
pub open spec fn event_of_line(idx: nat, line: Seq<char>) -> Option<EventModel> {
    let toks = spec_tokens(line);
    if toks.len() < 3 {
        None
    } else {
        match first_keyword(line) {
            None => None,
            Some(kw) => Some(
                EventModel {
                    line_number: idx + 1,
                    time: toks[1],
                    level: kw,
                    message: join_spaces(toks.subrange(2, toks.len() as int)),
                },
            ),
        }
    }
}

/// The events of `lines` in file order, the first line standing at
/// 0-based position `start` of the whole content.
pub open spec fn events_of_lines(lines: Seq<Seq<char>>, start: nat) -> Seq<EventModel>
    decreases lines.len(),
{
    if lines.len() == 0 {
        Seq::empty()
    } else {
        match event_of_line(start, lines[0]) {
            Some(e) => seq![e] + events_of_lines(lines.drop_first(), start + 1),
            None => events_of_lines(lines.drop_first(), start + 1),
        }
    }
}

/// The dataset that classifying `content` yields: the number of its lines,
/// and the events of its matching lines in file order.
pub open spec fn classify_content_spec(content: Seq<char>) -> DataModel {
    DataModel {
        total_lines: spec_lines(content).len(),
        events: events_of_lines(spec_lines(content), 0),
    }
}

/// The first keyword in priority order that the raw line contains, if any.
pub fn find_level(line: &str) -> (r: Option<String>)
    ensures
        r is Some <==> first_keyword(line@) is Some,
        r matches Some(s) ==> first_keyword(line@) == Some(s@),
{
    if contains_str(line, "ERROR") {
        Some("ERROR".to_owned())
    } else if contains_str(line, "ERR") {
        Some("ERR".to_owned())
    } else if contains_str(line, "MEDIA_TIMEOUT") {
        Some("MEDIA_TIMEOUT".to_owned())
    } else if contains_str(line, "AbandonedCall") {
        Some("AbandonedCall".to_owned())
    } else if contains_str(line, "Warning") {
        Some("Warning".to_owned())
    } else {
        None
    }
}

/// Classifies the line standing at 0-based position `idx` of its content.
pub fn classify_line(idx: usize, line: &str) -> (r: Option<LogEvent>)
    requires
        idx < usize::MAX,
    ensures
        r is Some <==> event_of_line(idx as nat, line@) is Some,
        r matches Some(e) ==> event_of_line(idx as nat, line@) == Some(e@),
{
    let parts = split_tokens(line);
    if parts.len() < 3 {
        return None;
    }
    match find_level(line) {
        None => None,
        Some(level) => {
            let time = parts[1].clone();
            let message = join_tail(&parts, 2);
            Some(LogEvent { line_number: idx + 1, time, level, message })
        },
    }
}

/// Classifies every line of `content`: the dataset holds the line count of
/// the whole content and one event for each line that matched, in file
/// order.
pub fn classify_content(content: &str) -> (r: LogData)
    ensures
        r@ == classify_content_spec(content@),
{
    let lines = split_lines(content);
    let total_lines = lines.len();
    let mut events: Vec<LogEvent> = Vec::new();
    let mut i: usize = 0;
    proof {
        assert(lines.deep_view().subrange(0, lines@.len() as int) =~= lines.deep_view());
        assert(events.deep_view() + events_of_lines(lines.deep_view(), 0) =~= events_of_lines(
            lines.deep_view(),
            0,
        ));
    }
    while i < lines.len()
        invariant
            i <= lines@.len(),
            lines.deep_view() == spec_lines(content@),
            events_of_lines(lines.deep_view(), 0) == events.deep_view() + events_of_lines(
                lines.deep_view().subrange(i as int, lines@.len() as int),
                i as nat,
            ),
        decreases lines@.len() - i,
    {
        let ghost prev_events = events.deep_view();
        let ghost rest = lines.deep_view().subrange(i as int, lines@.len() as int);
        proof {
            assert(rest.drop_first() =~= lines.deep_view().subrange(
                i + 1,
                lines@.len() as int,
            ));
            assert(rest[0] == lines.deep_view()[i as int]);
        }
        match classify_line(i, lines[i].as_str()) {
            Some(e) => {
                events.push(e);
                proof {
                    assert(events.deep_view() =~= prev_events.push(e@));
                    assert(prev_events + events_of_lines(rest, i as nat) =~= events.deep_view()
                        + events_of_lines(rest.drop_first(), (i + 1) as nat));
                }
            },
            None => {},
        }
        i += 1;
    }
    LogData { total_lines, events }
}

/// The dataset returned when no log content could be loaded: two fixed
/// informational events under a line count of two.
pub open spec fn placeholder_spec() -> DataModel {
    DataModel {
        total_lines: 2,
        events: seq![
            EventModel {
                line_number: 1,
                time: "00:00:00"@,
                level: "INFO"@,
                message: "No log file loaded."@,
            },
            EventModel {
                line_number: 2,
                time: "00:00:01"@,
                level: "INFO"@,
                message: "Click 'Open Log...' to select a file."@,
            },
        ],
    }
}

/// The fixed dataset shown when no log content could be loaded.
pub fn placeholder_data() -> (r: LogData)
    ensures
        r@ == placeholder_spec(),
{
    let mut events: Vec<LogEvent> = Vec::new();
    events.push(
        LogEvent {
            line_number: 1,
            time: "00:00:00".to_owned(),
            level: "INFO".to_owned(),
            message: "No log file loaded.".to_owned(),
        },
    );
    events.push(
        LogEvent {
            line_number: 2,
            time: "00:00:01".to_owned(),
            level: "INFO".to_owned(),
            message: "Click 'Open Log...' to select a file.".to_owned(),
        },
    );
    let r = LogData { total_lines: 2, events };
    proof {
        assert(r@.events =~= placeholder_spec().events);
    }
    r
}

/// Classifies whatever content the caller could load: a loaded text is
/// classified line by line, and a missing one yields the fixed
/// placeholder dataset; no input makes this fail.
pub fn classify_source(content: Option<&str>) -> (r: LogData)
    ensures
        content matches Some(c) ==> r@ == classify_content_spec(c@),
        content is None ==> r@ == placeholder_spec(),
{
    match content {
        Some(c) => classify_content(c),
        None => placeholder_data(),
    }
}

} // verus!
