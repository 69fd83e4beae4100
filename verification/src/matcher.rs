//! What the emitted method does when it runs.
//!
//! The method reads one byte at each step. While an arm takes the byte it
//! goes on with the `match` of that arm. At the byte that ends the token it
//! returns what the `match` it stands in returns there: a literal's value,
//! or the unknown outcome of the bytes read. A byte that no arm takes sends
//! it into the loop that collects the rest of the token, unless the bytes
//! read have reached the maximum. The end of the input, a byte that may not
//! stand in a token, or a text beyond the maximum is no match.

use crate::method::{build_method, method_of, Arms, Ending, Switch};
use crate::trie::ParseBranch;
use vstd::prelude::*;

verus! {

/// What the surrounding parser's expressions stand for when the method runs.
pub struct Rules {
    /// The byte that ends a token.
    pub end: u8,
    /// The length from which the collecting loop takes no further byte.
    pub max_len: usize,
    /// The bytes that may stand in a token.
    pub valid: Vec<u8>,
}

/// What a run returns.
#[derive(Debug, PartialEq, Eq)]
pub enum Outcome {
    /// The value of the literal that the token spells.
    Known(String),
    /// The text of a token that spells no literal.
    Unknown(Vec<u8>),
    /// The input is no token.
    NoMatch,
}

/// An outcome as contracts speak of it.
pub enum OutcomeView {
    Known(Seq<char>),
    Unknown(Seq<u8>),
    NoMatch,
}

impl View for Outcome {
    type V = OutcomeView;

    open spec fn view(&self) -> OutcomeView {
        match *self {
            Outcome::Known(value) => OutcomeView::Known(value@),
            Outcome::Unknown(text) => OutcomeView::Unknown(text@),
            Outcome::NoMatch => OutcomeView::NoMatch,
        }
    }
}

impl Rules {
    /// Whether `b` may stand in a token.
    pub open spec fn accepts(self, b: u8) -> bool {
        self.valid@.contains(b)
    }

    /// Whether `b` may stand in a token.
    pub fn is_valid(&self, b: u8) -> (valid: bool)
        ensures
            valid == self.accepts(b),
    {
        contains_byte(&self.valid, b)
    }
}

/// The `match` that the first of `arms` to take `b` goes on with.
pub open spec fn arm_for(arms: Arms, b: u8) -> Option<Switch>
    decreases arms,
{
    match arms {
        Arms::Done => None,
        Arms::Arm { byte, then, rest } => if byte == b {
            Some(*then)
        } else {
            arm_for(*rest, b)
        },
    }
}

/// What the arm for the ending byte returns after the bytes `matched`.
pub open spec fn end_outcome(ending: Ending, matched: Seq<u8>) -> OutcomeView {
    match ending {
        Ending::Value(value) => OutcomeView::Known(value@),
        Ending::Unknown => OutcomeView::Unknown(matched),
    }
}

/// The collecting loop, entered with `text` and the input from `pos` on.
pub open spec fn run_fallback(rules: Rules, text: Seq<u8>, input: Seq<u8>, pos: int) -> OutcomeView
    decreases input.len() - pos,
{
    if pos < 0 || pos >= input.len() {
        OutcomeView::NoMatch
    } else if input[pos] == rules.end {
        OutcomeView::Unknown(text)
    } else if rules.accepts(input[pos]) {
        if text.len() >= rules.max_len {
            OutcomeView::NoMatch
        } else {
            run_fallback(rules, text.push(input[pos]), input, pos + 1)
        }
    } else {
        OutcomeView::NoMatch
    }
}

/// One `match` of the method, reached after the bytes `matched`: the arms
/// that take a byte, then the arm for the ending byte, where the `match` has
/// one, then the arm that enters the collecting loop, which the bytes read
/// must leave room for.
pub open spec fn run_switch(
    rules: Rules,
    switch: Switch,
    matched: Seq<u8>,
    input: Seq<u8>,
    pos: int,
) -> OutcomeView
    decreases input.len() - pos,
{
    if pos < 0 || pos >= input.len() {
        OutcomeView::NoMatch
    } else {
        let b = input[pos];
        match arm_for(switch.arms, b) {
            Some(then) => run_switch(rules, then, matched.push(b), input, pos + 1),
            None => if switch.on_end is Some && b == rules.end {
                end_outcome(switch.on_end->0, matched)
            } else if rules.accepts(b) {
                if matched.len() >= rules.max_len {
                    OutcomeView::NoMatch
                } else {
                    run_fallback(rules, matched.push(b), input, pos + 1)
                }
            } else {
                OutcomeView::NoMatch
            },
        }
    }
}

/// The outcome of `method` on `input`.
pub open spec fn run_method(rules: Rules, method: Switch, input: Seq<u8>) -> OutcomeView {
    run_switch(rules, method, Seq::<u8>::empty(), input, 0)
}

/// The outcome on `input` of the method that is emitted for `branches`.
pub open spec fn run(rules: Rules, branches: Seq<ParseBranch>, input: Seq<u8>) -> OutcomeView {
    run_method(rules, method_of(branches), input)
}

fn contains_byte(bytes: &Vec<u8>, b: u8) -> (found: bool)
    ensures
        found == bytes@.contains(b),
{
    let n: usize = bytes.len();
    let mut i: usize = 0;
    while i < n
        invariant
            n == bytes@.len(),
            i <= n,
            forall|k: int| 0 <= k < i ==> bytes@[k] != b,
        decreases n - i,
    {
        if bytes[i] == b {
            return true;
        }
        i = i + 1;
    }
    false
}

fn find_arm<'a>(arms: &'a Arms, b: u8) -> (found: Option<&'a Switch>)
    ensures
        match found {
            Some(then) => arm_for(*arms, b) == Some(*then),
            None => arm_for(*arms, b) is None,
        },
    decreases arms,
{
    match arms {
        Arms::Done => None,
        Arms::Arm { byte, then, rest } => {
            if *byte == b {
                Some(&**then)
            } else {
                find_arm(&**rest, b)
            }
        },
    }
}

#[verifier::loop_isolation(false)]
fn collect(rules: &Rules, seed: Vec<u8>, input: &[u8], start: usize) -> (outcome: Outcome)
    requires
        start <= input@.len(),
    ensures
        outcome@ == run_fallback(*rules, seed@, input@, start as int),
{
    let mut text = seed;
    let mut pos = start;
    let ghost goal = run_fallback(*rules, text@, input@, pos as int);
    while pos < input.len()
        invariant
            pos <= input@.len(),
            goal == run_fallback(*rules, text@, input@, pos as int),
        decreases input@.len() - pos,
    {
        let b: u8 = input[pos];
        if b == rules.end {
            return Outcome::Unknown(text);
        }
        if !rules.is_valid(b) {
            return Outcome::NoMatch;
        }
        if text.len() >= rules.max_len {
            return Outcome::NoMatch;
        }
        text.push(b);
        pos = pos + 1;
    }
    Outcome::NoMatch
}

/// Runs `method` on `input` and returns its outcome.
#[verifier::loop_isolation(false)]
pub fn interpret(method: &Switch, input: &[u8], rules: &Rules) -> (outcome: Outcome)
    ensures
        outcome@ == run_method(*rules, *method, input@),
{
    let mut switch: &Switch = method;
    let mut matched: Vec<u8> = Vec::new();
    let mut pos: usize = 0;
    let ghost goal = run_method(*rules, *method, input@);
    while pos < input.len()
        invariant
            pos <= input@.len(),
            goal == run_switch(*rules, *switch, matched@, input@, pos as int),
        decreases input@.len() - pos,
    {
        let b: u8 = input[pos];
        match find_arm(&switch.arms, b) {
            Some(then) => {
                matched.push(b);
                switch = then;
                pos = pos + 1;
            },
            None => {
                if let Some(ending) = &switch.on_end {
                    if b == rules.end {
                        return match ending {
                            Ending::Value(value) => Outcome::Known(value.clone()),
                            Ending::Unknown => Outcome::Unknown(matched),
                        };
                    }
                }
                if rules.is_valid(b) {
                    if matched.len() >= rules.max_len {
                        return Outcome::NoMatch;
                    }
                    matched.push(b);
                    return collect(rules, matched, input, pos + 1);
                }
                return Outcome::NoMatch;
            },
        }
    }
    Outcome::NoMatch
}

/// Runs the method that is emitted for `branches` on `input` and returns its
/// outcome.
pub fn run_matcher(branches: &[ParseBranch], input: &[u8], rules: &Rules) -> (outcome: Outcome)
    ensures
        outcome@ == run(*rules, branches@, input@),
{
    let method = build_method(branches);
    interpret(&method, input, rules)
}

} // verus!
