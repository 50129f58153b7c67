use aoc2022::day2::Move::{PAPER, ROCK, SCISSORS};
use aoc2022::day2::{generator, parse, part1, part2, Move};

const INPUT: &str = "A Y\n\
                     B X\n\
                     C Z";

#[test]
fn day2_parsing_test() {
    let moves = generator(INPUT);
    assert_eq!(
        vec! {vec! {Move::ROCK, Move::PAPER},
        vec! {Move::PAPER, Move::ROCK},
        vec! {Move::SCISSORS, Move::SCISSORS}},
        moves
    );
}

#[test]
fn day2_test_part1() {
    assert_eq!(15, part1(&generator(INPUT)))
}

#[test]
fn day2_test_part2() {
    assert_eq!(12, part2(&generator(INPUT)))
}

#[test]
fn day2_every_round_scores_as_the_rules_say() {
    let expected = [
        (ROCK, ROCK, 4),
        (ROCK, PAPER, 1),
        (ROCK, SCISSORS, 7),
        (PAPER, ROCK, 8),
        (PAPER, PAPER, 5),
        (PAPER, SCISSORS, 2),
        (SCISSORS, ROCK, 3),
        (SCISSORS, PAPER, 9),
        (SCISSORS, SCISSORS, 6),
    ];
    for (mine, theirs, score) in expected {
        assert_eq!(score, mine.turn_eval(&theirs));
    }
}

#[test]
fn day2_answers_lose_draw_and_win() {
    for theirs in [ROCK, PAPER, SCISSORS] {
        // Rock asks for a loss: 0 points for the result.
        let lose = ROCK.find_my_move(&theirs);
        assert_eq!(lose.value() + 1, lose.turn_eval(&theirs));
        // Paper asks for a draw.
        assert_eq!(theirs, PAPER.find_my_move(&theirs));
        // Scissors asks for a win: 6 points for the result.
        let win = SCISSORS.find_my_move(&theirs);
        assert_eq!(win.value() + 7, win.turn_eval(&theirs));
    }
    assert_eq!(PAPER, Move::from_i32(1));
    assert_eq!(2, SCISSORS.value());
}

#[test]
fn day2_words_that_name_no_move() {
    assert!(parse("A Q").is_none());
    assert!(parse("AB X").is_none());
    assert_eq!(Some(vec![vec![Move::ROCK], vec![], vec![Move::SCISSORS, Move::PAPER]]), parse("X\n\n  C   B "));
    assert_eq!(Some(Move::ROCK), Move::from_str(b"A"));
    assert_eq!(None, Move::from_str(b""));
    assert_eq!(0, part1(&[]));
    assert_eq!(0, part2(&[]));
}
