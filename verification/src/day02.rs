use crate::text::{entries, entries_of, to_chars, words, words_of};
use vstd::prelude::*;

verus! {

/// A hand of the game.
#[derive(Debug, Clone, Copy, PartialEq, Eq, Structural)]
pub enum Action {
    Rock,
    Paper,
    Scissors,
}

/// How a round ends for one player.
#[derive(Debug, Clone, Copy, PartialEq, Eq, Structural)]
pub enum Outcome {
    Win,
    Draw,
    Lose,
}

/// One line of the strategy guide.
#[derive(Debug, Clone, Copy)]
pub struct Suggestion {
    pub opponent: Action,
    pub you: Action,
}

/// Rock blunts scissors, paper wraps rock, scissors cut paper.
pub open spec fn beats(a: Action, b: Action) -> bool {
    ||| a == Action::Rock && b == Action::Scissors
    ||| a == Action::Paper && b == Action::Rock
    ||| a == Action::Scissors && b == Action::Paper
}

impl Action {
    /// Points for showing this hand.
    pub open spec fn spec_score(self) -> nat {
        match self {
            Action::Rock => 1,
            Action::Paper => 2,
            Action::Scissors => 3,
        }
    }

    /// How the round ends for this hand against `opponent_action`.
    pub open spec fn spec_outcome(self, opponent_action: Action) -> Outcome {
        if self == opponent_action {
            Outcome::Draw
        } else if beats(self, opponent_action) {
            Outcome::Win
        } else {
            Outcome::Lose
        }
    }

    /// Points for showing this hand.
    pub fn score(&self) -> (r: u64)
        ensures
            r == self.spec_score(),
    {
        match self {
            Action::Rock => 1,
            Action::Paper => 2,
            Action::Scissors => 3,
        }
    }

    /// How the round ends for this hand against `opponent_action`.
    pub fn outcome(&self, opponent_action: Action) -> (r: Outcome)
        ensures
            r == self.spec_outcome(opponent_action),
    {
        match (*self, opponent_action) {
            (Action::Rock, Action::Rock) | (Action::Paper, Action::Paper) | (
                Action::Scissors,
                Action::Scissors,
            ) => Outcome::Draw,
            (Action::Rock, Action::Scissors) | (Action::Paper, Action::Rock) | (
                Action::Scissors,
                Action::Paper,
            ) => Outcome::Win,
            _ => Outcome::Lose,
        }
    }

    /// The hand against which this hand ends the round with `outcome`.
    pub fn desired_outcome(&self, outcome: Outcome) -> (r: Action)
        ensures
            self.spec_outcome(r) == outcome,
            forall|a: Action| self.spec_outcome(a) == outcome ==> a == r,
    {
        match (*self, outcome) {
            (_, Outcome::Draw) => *self,
            (Action::Rock, Outcome::Win) | (Action::Paper, Outcome::Lose) => Action::Scissors,
            (Action::Rock, Outcome::Lose) | (Action::Scissors, Outcome::Win) => Action::Paper,
            (Action::Scissors, Outcome::Lose) | (Action::Paper, Outcome::Win) => Action::Rock,
        }
    }
}

impl Outcome {
    /// Points for ending a round this way.
    pub open spec fn spec_score(self) -> nat {
        match self {
            Outcome::Win => 6,
            Outcome::Draw => 3,
            Outcome::Lose => 0,
        }
    }

    /// Points for ending a round this way.
    pub fn score(&self) -> (r: u64)
        ensures
            r == self.spec_score(),
    {
        match self {
            Outcome::Win => 6,
            Outcome::Draw => 3,
            Outcome::Lose => 0,
        }
    }
}

/// The hand a word stands for: `A` or `X` rock, `B` or `Y` paper, `C` or
/// `Z` scissors.
pub open spec fn action_of(word: Seq<char>) -> Option<Action> {
    if word.len() != 1 {
        None
    } else if word[0] == 'A' || word[0] == 'X' {
        Some(Action::Rock)
    } else if word[0] == 'B' || word[0] == 'Y' {
        Some(Action::Paper)
    } else if word[0] == 'C' || word[0] == 'Z' {
        Some(Action::Scissors)
    } else {
        None
    }
}

/// Reads a hand.
pub fn parse_action(word: &[char]) -> (r: Option<Action>)
    ensures
        r == action_of(word@),
{
    if word.len() != 1 {
        return None;
    }
    let c = word[0];
    if c == 'A' || c == 'X' {
        Some(Action::Rock)
    } else if c == 'B' || c == 'Y' {
        Some(Action::Paper)
    } else if c == 'C' || c == 'Z' {
        Some(Action::Scissors)
    } else {
        None
    }
}

/// The suggestion a line stands for: its first word is the opponent's
/// hand, its second yours.
pub open spec fn suggestion_of(line: Seq<char>) -> Option<Suggestion> {
    let ws = words_of(line);
    if ws.len() >= 2 && action_of(ws[0]) is Some && action_of(ws[1]) is Some {
        Some(Suggestion { opponent: action_of(ws[0])->0, you: action_of(ws[1])->0 })
    } else {
        None
    }
}

/// Reads a suggestion.
pub fn parse_suggestion(line: &[char]) -> (r: Option<Suggestion>)
    ensures
        r == suggestion_of(line@),
{
    let ws = words(line);
    if ws.len() < 2 {
        return None;
    }
    match (parse_action(ws[0]), parse_action(ws[1])) {
        (Some(opponent), Some(you)) => Some(Suggestion { opponent, you }),
        _ => None,
    }
}

/// Every entry of the text is a suggestion.
pub open spec fn readable(s: Seq<char>) -> bool {
    forall|i: int| 0 <= i < entries_of(s).len() ==> suggestion_of(#[trigger] entries_of(s)[i]) is Some
}

/// The suggestions of a text, one for each entry.
pub open spec fn suggestions_of(s: Seq<char>) -> Seq<Suggestion> {
    entries_of(s).map_values(|line: Seq<char>| suggestion_of(line)->0)
}

/// Reads the suggestions of a text, or nothing where an entry is none.
pub fn parse(input: &str) -> (r: Option<Vec<Suggestion>>)
    ensures
        r is Some <==> readable(input@),
        r matches Some(v) ==> v@ == suggestions_of(input@),
{
    let chars = to_chars(input);
    let es = entries(chars.as_slice());
    let ghost all = entries_of(input@);
    let mut v: Vec<Suggestion> = Vec::new();
    let mut i: usize = 0;
    while i < es.len()
        invariant
            i <= es@.len(),
            es@.len() == all.len(),
            all == entries_of(input@),
            forall|j: int| 0 <= j < es@.len() ==> (#[trigger] es@[j])@ == all[j],
            v@.len() == i,
            forall|j: int| 0 <= j < i ==> suggestion_of(#[trigger] all[j]) == Some(v@[j]),
        decreases es@.len() - i,
    {
        match parse_suggestion(es[i]) {
            None => {
                assert(suggestion_of(all[i as int]) is None);
                return None;
            },
            Some(s) => {
                v.push(s);
            },
        }
        i += 1;
    }
    assert(v@ =~= suggestions_of(input@));
    Some(v)
}

/// The guide's second column says how the round is to end for the
/// opponent: `X` with a win, `Y` with a draw, `Z` with a loss. You play the
/// hand that ends it so.
pub open spec fn as_intended(s: Suggestion) -> Suggestion {
    let wanted = match s.you {
        Action::Rock => Outcome::Win,
        Action::Paper => Outcome::Draw,
        Action::Scissors => Outcome::Lose,
    };
    Suggestion {
        opponent: s.opponent,
        you: choose|a: Action| s.opponent.spec_outcome(a) == wanted,
    }
}

/// Points of one round: for the hand you show and for how the round ends.
pub open spec fn round_score(s: Suggestion) -> nat {
    s.you.spec_score() + s.you.spec_outcome(s.opponent).spec_score()
}

/// Points of all rounds.
pub open spec fn total_score(rounds: Seq<Suggestion>) -> nat
    decreases rounds.len(),
{
    if rounds.len() == 0 {
        0
    } else {
        total_score(rounds.drop_last()) + round_score(rounds.last())
    }
}

/// A round scores at most nine points.
pub proof fn lemma_total_score_bound(rounds: Seq<Suggestion>)
    ensures
        total_score(rounds) <= 9 * rounds.len(),
    decreases rounds.len(),
{
    if rounds.len() > 0 {
        lemma_total_score_bound(rounds.drop_last());
    }
}

/// Adds up the points of the rounds.
pub fn score(suggestions: &Vec<Suggestion>) -> (r: u64)
    requires
        9 * suggestions@.len() <= u64::MAX,
    ensures
        r == total_score(suggestions@),
{
    let mut total: u64 = 0;
    let mut i: usize = 0;
    assert(suggestions@.take(0).len() == 0);
    while i < suggestions.len()
        invariant
            i <= suggestions@.len(),
            9 * suggestions@.len() <= u64::MAX,
            total == total_score(suggestions@.take(i as int)),
        decreases suggestions@.len() - i,
    {
        let s = suggestions[i];
        proof {
            assert(suggestions@.take(i + 1).drop_last() == suggestions@.take(i as int));
            lemma_total_score_bound(suggestions@.take(i + 1));
        }
        total = total + s.you.score() + s.you.outcome(s.opponent).score();
        i += 1;
    }
    assert(suggestions@.take(i as int) == suggestions@);
    total
}

/// Your points when you play the guide as written.
pub fn star_one(input: &str) -> (r: u64)
    requires
        readable(input@),
        9 * entries_of(input@).len() <= u64::MAX,
    ensures
        r == total_score(suggestions_of(input@)),
{
    match parse(input) {
        Some(v) => score(&v),
        None => vstd::pervasive::unreached(),
    }
}

/// Your points when you play the guide as intended.
pub fn star_two(input: &str) -> (r: u64)
    requires
        readable(input@),
        9 * entries_of(input@).len() <= u64::MAX,
    ensures
        r == total_score(suggestions_of(input@).map_values(|s: Suggestion| as_intended(s))),
{
    match parse(input) {
        None => vstd::pervasive::unreached(),
        Some(v) => {
            let mut played: Vec<Suggestion> = Vec::new();
            let mut i: usize = 0;
            while i < v.len()
                invariant
                    i <= v@.len(),
                    played@.len() == i,
                    forall|j: int| 0 <= j < i ==> #[trigger] played@[j] == as_intended(v@[j]),
                decreases v@.len() - i,
            {
                let s = v[i];
                let desired = match s.you {
                    Action::Rock => Outcome::Win,
                    Action::Paper => Outcome::Draw,
                    Action::Scissors => Outcome::Lose,
                };
                let action = s.opponent.desired_outcome(desired);
                played.push(Suggestion { opponent: s.opponent, you: action });
                i += 1;
            }
            assert(played@ =~= v@.map_values(|s: Suggestion| as_intended(s)));
            score(&played)
        },
    }
}

} // verus!
