use aoc2022::day24::{
    generator, parse, part1, part2, travel, try_part1, try_part2, Direction, InputType, Position,
    State,
};

const INPUT: &str = "#.######
#>>.<^<#
#.<..<<#
#>v.><>#
#<^v^^>#
######.#";

#[test]
fn day24_test_part1() {
    assert_eq!(18, part1(&generator(INPUT)));
}

#[test]
fn day24_test_part2() {
    assert_eq!(54, part2(&generator(INPUT)));
}

#[test]
fn the_sample_valley_is_read_as_drawn() {
    let valley: InputType = generator(INPUT);
    assert_eq!(6, valley.obstacles.len());
    assert_eq!(Position { x: 8, y: 6 }, valley.size);
    assert_eq!(Position { x: 1, y: 0 }, valley.start);
    assert_eq!(Position { x: 6, y: 5 }, valley.end);
    assert_eq!(24, valley.period);
    assert_eq!(Some(Direction::Still), valley.obstacles[0][0]);
    assert_eq!(None, valley.obstacles[0][1]);
    assert_eq!(Some(Direction::East), valley.obstacles[1][1]);
    assert_eq!(Some(Direction::West), valley.obstacles[1][4]);
    assert_eq!(Some(Direction::North), valley.obstacles[1][5]);
    assert_eq!(Some(Direction::South), valley.obstacles[3][2]);
    assert!(valley.is_searchable());
}

#[test]
fn characters_draw_blizzards_walls_and_ground() {
    assert_eq!(Some(Some(Direction::North)), Direction::parse(b'^'));
    assert_eq!(Some(Some(Direction::West)), Direction::parse(b'<'));
    assert_eq!(Some(Some(Direction::East)), Direction::parse(b'>'));
    assert_eq!(Some(Some(Direction::South)), Direction::parse(b'v'));
    assert_eq!(Some(Some(Direction::Still)), Direction::parse(b'#'));
    assert_eq!(Some(None), Direction::parse(b'.'));
    assert_eq!(None, Direction::parse(b'x'));
}

#[test]
fn a_text_that_draws_no_valley_is_refused() {
    assert!(parse("").is_none());
    assert!(parse("#.#").is_none());
    assert!(parse("#.#\n#?#\n#.#").is_none());
    assert!(parse("###\n#.#\n#.#").is_none());
    assert!(parse("#.#\n#.#\n###").is_none());
    assert!(parse("#.#\n#.#\n#.#").is_some());
}

#[test]
fn an_empty_corridor_is_walked_straight() {
    let valley = parse("#.#\n#.#\n#.#\n#.#").unwrap();
    assert!(valley.is_searchable());
    assert_eq!(2, valley.period);
    assert_eq!(Some(3), try_part1(&valley));
    assert_eq!(Some(9), try_part2(&valley));
    assert_eq!(3, part1(&valley));
    assert_eq!(9, part2(&valley));
}

#[test]
fn a_blizzard_in_the_way_is_waited_out() {
    // the blizzard walks west along the one row between the walls, and is
    // below the start in every second minute
    let valley = parse("#.##\n#.<#\n#.##").unwrap();
    assert!(valley.is_searchable());
    assert_eq!(2, valley.period);
    assert_eq!(Some(3), try_part1(&valley));
}

#[test]
fn a_closed_valley_is_given_up() {
    let valley = parse("#.#\n###\n#.#").unwrap();
    assert!(valley.is_searchable());
    assert_eq!(None, travel(&valley, valley.start, valley.end, 0, 50));
    assert_eq!(Some(7), travel(&valley, valley.start, valley.start, 7, 50));
}

#[test]
fn positions_advance_by_one() {
    let p = Position { x: 3, y: 4 };
    assert_eq!(p, p.advance(Direction::Still));
    assert_eq!(Position { x: 3, y: 3 }, p.advance(Direction::North));
    assert_eq!(Position { x: 3, y: 5 }, p.advance(Direction::South));
    assert_eq!(Position { x: 2, y: 4 }, p.advance(Direction::West));
    assert_eq!(Position { x: 4, y: 5 }.x, p.advance(Direction::East).x);
}

#[test]
fn safety_follows_the_blizzards() {
    let valley = generator(INPUT);
    // at the start a blizzard stands at column 1 of row 1
    assert!(!valley.is_safe(Position { x: 1, y: 1 }, 0));
    // after a minute it has moved on, and the one behind it has taken its place
    assert!(!valley.is_safe(Position { x: 2, y: 1 }, 1));
    assert!(valley.is_safe(Position { x: 1, y: 1 }, 1));
    // walls are never safe, the start always
    assert!(!valley.is_safe(Position { x: 0, y: 0 }, 3));
    assert!(valley.is_safe(Position { x: 1, y: 0 }, 3));
    // outside the field nothing is safe
    assert!(!valley.is_safe(Position { x: 1, y: -1 }, 3));
}

#[test]
fn the_places_spread_minute_by_minute() {
    let valley = generator(INPUT);
    let mut state = State::new(&valley);
    assert_eq!(0, state.turn);
    assert_eq!(vec![Position { x: 1, y: 0 }], state.locations);
    assert!(!state.done(valley.end));
    assert!(state.done(valley.start));
    state.step(&valley);
    assert_eq!(1, state.turn);
    // one can wait at the start, or go down where the blizzard has left
    assert_eq!(2, state.locations.len());
    assert!(state.done(Position { x: 1, y: 1 }));
    assert!(state.done(valley.start));
}
