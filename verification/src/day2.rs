//! Rock, paper, scissors: the score of a list of rounds, read in two ways.
use crate::text::{lines, lines_of, rows, words, words_of};
use vstd::prelude::*;
use vstd::string::StringSliceAdditionalSpecFns;

verus! {

/// A shape, or, in the second reading, the result to play for.
#[derive(Clone, Copy, Debug, PartialEq, Eq, Structural)]
pub enum Move {
    ROCK,
    PAPER,
    SCISSORS,
}

/// Whether shape `a` wins against shape `b`.
pub open spec fn beats(a: Move, b: Move) -> bool {
    ||| a == Move::ROCK && b == Move::SCISSORS
    ||| a == Move::PAPER && b == Move::ROCK
    ||| a == Move::SCISSORS && b == Move::PAPER
}

/// The points of a round: 1, 2 or 3 for the own shape, and 6 for a win or
/// 3 for a draw.
pub open spec fn round_score(mine: Move, theirs: Move) -> int {
    mine.ordinal() + 1 + if beats(mine, theirs) {
        6int
    } else if mine == theirs {
        3int
    } else {
        0int
    }
}

/// The shape to play against `theirs` for a result: rock asks for a loss,
/// paper for a draw, scissors for a win.
pub open spec fn answer_to(goal: Move, theirs: Move) -> Move {
    match goal {
        Move::PAPER => theirs,
        Move::ROCK => match theirs {
            Move::ROCK => Move::SCISSORS,
            Move::PAPER => Move::ROCK,
            Move::SCISSORS => Move::PAPER,
        },
        Move::SCISSORS => match theirs {
            Move::ROCK => Move::PAPER,
            Move::PAPER => Move::SCISSORS,
            Move::SCISSORS => Move::ROCK,
        },
    }
}

/// The answer loses, draws or wins as the goal asks.
pub proof fn lemma_answer_to(goal: Move, theirs: Move)
    ensures
        goal == Move::ROCK ==> beats(theirs, answer_to(goal, theirs)),
        goal == Move::PAPER ==> answer_to(goal, theirs) == theirs,
        goal == Move::SCISSORS ==> beats(answer_to(goal, theirs), theirs),
{
}

/// The move that a word names: `A` or `X`, `B` or `Y`, `C` or `Z`.
pub open spec fn move_of(word: Seq<u8>) -> Option<Move> {
    if word.len() != 1 {
        None
    } else if word[0] == 65 || word[0] == 88 {
        Some(Move::ROCK)
    } else if word[0] == 66 || word[0] == 89 {
        Some(Move::PAPER)
    } else if word[0] == 67 || word[0] == 90 {
        Some(Move::SCISSORS)
    } else {
        None
    }
}

/// Whether every word of the line names a move.
pub open spec fn line_ok(line: Seq<u8>) -> bool {
    forall|j: int| 0 <= j < words_of(line).len() ==> move_of(#[trigger] words_of(line)[j]).is_some()
}

/// Whether every word of the text names a move.
pub open spec fn well_formed(text: Seq<u8>) -> bool {
    forall|i: int| 0 <= i < lines_of(text).len() ==> line_ok(#[trigger] lines_of(text)[i])
}

/// Whether `moves` are the moves that the words of the line name.
pub open spec fn line_says(line: Seq<u8>, moves: Seq<Move>) -> bool {
    &&& moves.len() == words_of(line).len()
    &&& forall|j: int|
        0 <= j < moves.len() ==> move_of(words_of(line)[j]) == Some(#[trigger] moves[j])
}

/// Whether `rounds` are the moves that the lines of the text name.
pub open spec fn text_says(text: Seq<u8>, rounds: Seq<Vec<Move>>) -> bool {
    &&& rounds.len() == lines_of(text).len()
    &&& forall|i: int|
        0 <= i < rounds.len() ==> line_says(lines_of(text)[i], (#[trigger] rounds[i])@)
}

impl Move {
    /// The place of a move among the three: 0, 1 or 2.
    pub open spec fn ordinal(self) -> int {
        match self {
            Move::ROCK => 0,
            Move::PAPER => 1,
            Move::SCISSORS => 2,
        }
    }

    /// The move that a word names.
    pub fn from_str(s: &[u8]) -> (m: Option<Move>)
        ensures
            m == move_of(s@),
    {
        if s.len() != 1 {
            None
        } else if s[0] == 65 || s[0] == 88 {
            Some(Move::ROCK)
        } else if s[0] == 66 || s[0] == 89 {
            Some(Move::PAPER)
        } else if s[0] == 67 || s[0] == 90 {
            Some(Move::SCISSORS)
        } else {
            None
        }
    }

    /// The moves of a line; `None` where a word names none.
    pub fn parse(s: &[u8]) -> (r: Option<Vec<Move>>)
        ensures
            r.is_some() == line_ok(s@),
            r matches Some(moves) ==> line_says(s@, moves@),
    {
        let w = words(s);
        let ghost ws = words_of(s@);
        let mut moves: Vec<Move> = Vec::new();
        let mut j: usize = 0;
        while j < w.len()
            invariant
                j <= w.len(),
                rows(w@) == ws,
                ws == words_of(s@),
                moves.len() == j,
                forall|k: int| 0 <= k < j ==> move_of(ws[k]) == Some(#[trigger] moves[k]),
            decreases w.len() - j,
        {
            assert(rows(w@)[j as int] == w[j as int]@);
            match Move::from_str(w[j].as_slice()) {
                Some(m) => {
                    moves.push(m);
                },
                None => {
                    assert(!move_of(words_of(s@)[j as int]).is_some());
                    return None;
                },
            }
            j += 1;
        }
        assert forall|k: int| 0 <= k < ws.len() implies move_of(#[trigger] ws[k]).is_some() by {
            assert(move_of(ws[k]) == Some(moves[k]));
        }
        Some(moves)
    }

    /// The ordinal of the move.
    pub fn value(&self) -> (v: i32)
        ensures
            v == self.ordinal(),
    {
        match self {
            Move::ROCK => 0,
            Move::PAPER => 1,
            Move::SCISSORS => 2,
        }
    }

    /// The move with the given ordinal.
    pub fn from_i32(v: i32) -> (m: Move)
        requires
            0 <= v <= 2,
        ensures
            m.ordinal() == v,
    {
        if v == 0 {
            Move::ROCK
        } else if v == 1 {
            Move::PAPER
        } else {
            Move::SCISSORS
        }
    }

    /// The score of a round in which `self` is played against `other`.
    pub fn turn_eval(&self, other: &Move) -> (score: i32)
        ensures
            score == round_score(*self, *other),
            1 <= score <= 9,
    {
        let difference = (self.value() - other.value() + 3) % 3;
        let result_points = if difference == 0 {
            3
        } else if difference == 1 {
            6
        } else {
            0
        };
        self.value() + 1 + result_points
    }

    /// The move to play against `other` for the result that `self` asks
    /// for.
    pub fn find_my_move(&self, other: &Move) -> (m: Move)
        ensures
            m == answer_to(*self, *other),
    {
        Move::from_i32((self.value() - 1 + other.value() + 3) % 3)
    }
}

/// The rounds of the text, one from each line; `None` where a word names
/// no move.
pub fn parse(input: &str) -> (r: Option<Vec<Vec<Move>>>)
    ensures
        r.is_some() == well_formed(input.spec_bytes()),
        r matches Some(rounds) ==> text_says(input.spec_bytes(), rounds@),
{
    let all = lines(input.as_bytes());
    let ghost ls = lines_of(input.spec_bytes());
    let mut rounds: Vec<Vec<Move>> = Vec::new();
    let mut i: usize = 0;
    while i < all.len()
        invariant
            i <= all.len(),
            rows(all@) == ls,
            ls == lines_of(input.spec_bytes()),
            rounds.len() == i,
            forall|k: int| 0 <= k < i ==> line_ok(#[trigger] ls[k]),
            forall|k: int| 0 <= k < i ==> line_says(ls[k], (#[trigger] rounds[k])@),
        decreases all.len() - i,
    {
        assert(rows(all@)[i as int] == all[i as int]@);
        match Move::parse(all[i].as_slice()) {
            Some(moves) => {
                rounds.push(moves);
            },
            None => {
                assert(!line_ok(lines_of(input.spec_bytes())[i as int]));
                return None;
            },
        }
        i += 1;
    }
    Some(rounds)
}

/// The rounds of the text, one from each line.
pub fn generator(input: &str) -> (rounds: Vec<Vec<Move>>)
    requires
        well_formed(input.spec_bytes()),
    ensures
        text_says(input.spec_bytes(), rounds@),
{
    parse(input).unwrap()
}

/// Whether every round has the two moves that the scores are made of, and
/// the rounds are few enough for their scores to add up in `i32`.
pub open spec fn playable(input: Seq<Vec<Move>>) -> bool {
    &&& input.len() * 9 <= i32::MAX
    &&& forall|i: int| 0 <= i < input.len() ==> (#[trigger] input[i]).len() >= 2
}

/// The sum of the scores of the rounds, the second move played against the
/// first.
pub open spec fn played_as_written(input: Seq<Vec<Move>>) -> int
    decreases input.len(),
{
    if input.len() == 0 {
        0
    } else {
        played_as_written(input.drop_last()) + round_score(input.last()[1], input.last()[0])
    }
}

/// The sum of the scores of the rounds, where the second move names the
/// result to play for.
pub open spec fn played_for_result(input: Seq<Vec<Move>>) -> int
    decreases input.len(),
{
    if input.len() == 0 {
        0
    } else {
        played_for_result(input.drop_last()) + round_score(
            answer_to(input.last()[1], input.last()[0]),
            input.last()[0],
        )
    }
}

/// The total score when the second column is the shape to play.
pub fn part1(input: &[Vec<Move>]) -> (score: i32)
    requires
        playable(input@),
    ensures
        score == played_as_written(input@),
{
    let mut score: i32 = 0;
    let mut i: usize = 0;
    assert(input@.take(0) =~= Seq::<Vec<Move>>::empty());
    while i < input.len()
        invariant
            i <= input.len(),
            playable(input@),
            score == played_as_written(input@.take(i as int)),
            0 <= score <= 9 * i,
        decreases input.len() - i,
    {
        proof {
            assert(input@.take(i as int + 1).drop_last() =~= input@.take(i as int));
            assert(input@.take(i as int + 1).last() == input@[i as int]);
        }
        let v = &input[i];
        score = score + v[1].turn_eval(&v[0]);
        i += 1;
    }
    assert(input@.take(i as int) =~= input@);
    score
}

/// The total score when the second column is the result to reach.
pub fn part2(input: &[Vec<Move>]) -> (score: i32)
    requires
        playable(input@),
    ensures
        score == played_for_result(input@),
{
    let mut score: i32 = 0;
    let mut i: usize = 0;
    assert(input@.take(0) =~= Seq::<Vec<Move>>::empty());
    while i < input.len()
        invariant
            i <= input.len(),
            playable(input@),
            score == played_for_result(input@.take(i as int)),
            0 <= score <= 9 * i,
        decreases input.len() - i,
    {
        proof {
            assert(input@.take(i as int + 1).drop_last() =~= input@.take(i as int));
            assert(input@.take(i as int + 1).last() == input@[i as int]);
        }
        let v = &input[i];
        score = score + v[1].find_my_move(&v[0]).turn_eval(&v[0]);
        i += 1;
    }
    assert(input@.take(i as int) =~= input@);
    score
}

} // verus!
