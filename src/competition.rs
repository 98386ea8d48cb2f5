//! Contest scoring records: one judged submission and a participant's total.

use vstd::prelude::*;
use crate::decimal::{parse_bounded, parse_unsigned};
use crate::fragment::views;
use crate::text::{decimal_digits, push_char, push_decimal, split_words, whitespace_words};

verus! {

/// The verdict on one submission.
#[derive(Clone, Copy, Debug, PartialEq, Eq, Structural)]
pub enum StateResult {
    Correct,
    Incorrect,
    ClarificationRequest,
    Unjudged,
    ErroneousSubmission,
}

/// The verdict that a one-letter code names: `C`, `I`, `R`, `U` or `E`.
pub open spec fn result_of_code(s: Seq<char>) -> Option<StateResult> {
    if s == seq!['C'] {
        Some(StateResult::Correct)
    } else if s == seq!['I'] {
        Some(StateResult::Incorrect)
    } else if s == seq!['R'] {
        Some(StateResult::ClarificationRequest)
    } else if s == seq!['U'] {
        Some(StateResult::Unjudged)
    } else if s == seq!['E'] {
        Some(StateResult::ErroneousSubmission)
    } else {
        None
    }
}

pub open spec fn unknown_result_message(s: Seq<char>) -> Seq<char> {
    "Unknown game result \""@ + s + "\"."@
}

impl StateResult {
    /// Reads a verdict code; any other text is refused with a message that
    /// quotes it.
    pub fn from_code(value: &str) -> (r: Result<StateResult, String>)
        ensures
            match result_of_code(value@) {
                Some(v) => r == Ok::<StateResult, String>(v),
                None => r matches Err(e) && e@ == unknown_result_message(value@),
            },
    {
        if value.unicode_len() == 1 {
            let c = value.get_char(0);
            proof {
                assert(value@ =~= seq![c]);
            }
            if c == 'C' {
                return Ok(StateResult::Correct);
            } else if c == 'I' {
                return Ok(StateResult::Incorrect);
            } else if c == 'R' {
                return Ok(StateResult::ClarificationRequest);
            } else if c == 'U' {
                return Ok(StateResult::Unjudged);
            } else if c == 'E' {
                return Ok(StateResult::ErroneousSubmission);
            }
        }
        proof {
            if value@.len() != 1 {
                assert(value@ != seq!['C'] && value@ != seq!['I'] && value@ != seq!['R']);
                assert(value@ != seq!['U'] && value@ != seq!['E']);
            }
        }
        let e = String::from_str("Unknown game result \"").concat(value).concat("\".");
        Err(e)
    }
}

/// One judged submission.
#[derive(Clone, Copy, Debug, PartialEq, Eq, Structural)]
pub struct State {
    pub participant: u64,
    pub task: u64,
    pub time: u64,
    pub result: StateResult,
}

/// A submission record from its words: participant, task, time, verdict.
pub open spec fn state_from_words_spec(w: Seq<Seq<char>>) -> Result<State, Seq<char>> {
    if w.len() != 4 {
        Err("Expected 4 arguments."@)
    } else {
        match (
            parse_unsigned(w[0], u64::MAX as nat),
            parse_unsigned(w[1], u64::MAX as nat),
            parse_unsigned(w[2], u64::MAX as nat),
        ) {
            (None, _, _) => Err("Expected participant id as number"@),
            (Some(_), None, _) => Err("Expected task id as number"@),
            (Some(_), Some(_), None) => Err("Expected time as number"@),
            (Some(p), Some(t), Some(time)) => match result_of_code(w[3]) {
                Some(result) => Ok(State { participant: p as u64, task: t as u64, time: time as u64, result }),
                None => Err(unknown_result_message(w[3])),
            },
        }
    }
}

pub open spec fn state_outcome_view(r: Result<State, String>) -> Result<State, Seq<char>> {
    match r {
        Ok(s) => Ok(s),
        Err(e) => Err(e@),
    }
}

impl State {
    /// Builds a submission record from the words of its line.
    pub fn from_words(words: &Vec<String>) -> (r: Result<State, String>)
        ensures
            state_outcome_view(r) == state_from_words_spec(views(words@)),
    {
        let ghost w = views(words@);
        if words.len() != 4 {
            return Err(String::from_str("Expected 4 arguments."));
        }
        assert(w[0] == words@[0]@ && w[1] == words@[1]@ && w[2] == words@[2]@ && w[3] == words@[3]@);
        let participant = match parse_bounded(words[0].as_str(), u64::MAX) {
            Some(v) => v,
            None => {
                return Err(String::from_str("Expected participant id as number"));
            },
        };
        let task = match parse_bounded(words[1].as_str(), u64::MAX) {
            Some(v) => v,
            None => {
                return Err(String::from_str("Expected task id as number"));
            },
        };
        let time = match parse_bounded(words[2].as_str(), u64::MAX) {
            Some(v) => v,
            None => {
                return Err(String::from_str("Expected time as number"));
            },
        };
        match StateResult::from_code(words[3].as_str()) {
            Ok(result) => Ok(State { participant, task, time, result }),
            Err(e) => Err(e),
        }
    }

    /// Reads a submission record from a line of four words.
    pub fn from_line(value: &str) -> (r: Result<State, String>)
        ensures
            state_outcome_view(r) == state_from_words_spec(whitespace_words(value@)),
    {
        let words = split_words(value);
        State::from_words(&words)
    }
}

/// Penalty time charged for an incorrect submission.
pub const TIME_FOR_INCORRECT: u64 = 20;

/// A participant's running score: problems solved and time used.
#[derive(Clone, Debug, Eq)]
pub struct Total {
    pub participant: u64,
    pub solves: u64,
    pub time: u64,
}

/// Ranking of totals: more solves first, then less time, then the higher
/// participant number.
pub open spec fn total_order(a: Total, b: Total) -> core::cmp::Ordering {
    if a.solves != b.solves {
        if a.solves < b.solves { core::cmp::Ordering::Less } else { core::cmp::Ordering::Greater }
    } else if a.time != b.time {
        if a.time > b.time { core::cmp::Ordering::Less } else { core::cmp::Ordering::Greater }
    } else if a.participant != b.participant {
        if a.participant < b.participant { core::cmp::Ordering::Less } else { core::cmp::Ordering::Greater }
    } else {
        core::cmp::Ordering::Equal
    }
}

impl Total {
    /// A participant with nothing solved and no time used.
    pub fn new(participant: u64) -> (r: Total)
        ensures
            r.participant == participant,
            r.solves == 0,
            r.time == 0,
    {
        Total { participant, solves: 0, time: 0 }
    }

    /// Counts one more solved problem.
    pub fn add_solve(&mut self)
        requires
            old(self).solves < u64::MAX,
        ensures
            final(self).solves == old(self).solves + 1,
            final(self).participant == old(self).participant,
            final(self).time == old(self).time,
    {
        self.solves = self.solves + 1;
    }

    /// Adds `time` to the time used.
    pub fn add_time(&mut self, time: u64)
        requires
            old(self).time + time <= u64::MAX,
        ensures
            final(self).time == old(self).time + time,
            final(self).participant == old(self).participant,
            final(self).solves == old(self).solves,
    {
        self.time = self.time + time;
    }

    /// The total as a line: participant, solves and time, space separated.
    pub fn to_line(&self) -> (r: String)
        ensures
            r@ == decimal_digits(self.participant as nat) + seq![' '] + decimal_digits(
                self.solves as nat,
            ) + seq![' '] + decimal_digits(self.time as nat),
    {
        let mut out = String::new();
        push_decimal(&mut out, self.participant);
        push_char(&mut out, ' ');
        push_decimal(&mut out, self.solves);
        push_char(&mut out, ' ');
        push_decimal(&mut out, self.time);
        out
    }

    /// Compares two totals by rank (see `total_order`).
    pub fn cmp(&self, other: &Total) -> (r: core::cmp::Ordering)
        ensures
            r == total_order(*self, *other),
    {
        if self.solves != other.solves {
            if self.solves < other.solves { core::cmp::Ordering::Less } else { core::cmp::Ordering::Greater }
        } else if self.time != other.time {
            if self.time > other.time { core::cmp::Ordering::Less } else { core::cmp::Ordering::Greater }
        } else if self.participant != other.participant {
            if self.participant < other.participant {
                core::cmp::Ordering::Less
            } else {
                core::cmp::Ordering::Greater
            }
        } else {
            core::cmp::Ordering::Equal
        }
    }
}

/// Two totals are the same entry when they belong to the same participant.
impl PartialEq for Total {
    fn eq(&self, other: &Total) -> (r: bool) {
        self.participant == other.participant
    }
}

impl vstd::std_specs::cmp::PartialEqSpecImpl for Total {
    open spec fn obeys_eq_spec() -> bool {
        true
    }

    open spec fn eq_spec(&self, other: &Total) -> bool {
        self.participant == other.participant
    }
}

} // verus!
