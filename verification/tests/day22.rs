use aoc2022::day22::{
    generator, parse, part1, part1_void_jump, part2, trim, try_part1, try_part2, Chart, Cube,
    Direction, InputType, Move, Spot, State, VoidConnection, Wrap, WrapMap,
};

const INPUT: &str = "        ...#
        .#..
        #...
        ....
...#.......#
........#...
..#....#....
..........#.
        ...#....
        .....#..
        .#......
        ......#.

10R5L5R10L4R5L5
";

#[test]
fn day22_test_part1() {
    let input = generator(INPUT);
    assert_eq!(6032, part1(&input));
}

#[test]
fn day22_test_part2() {
    assert_eq!(5031, part2(&generator(INPUT)));
}

#[test]
fn the_sample_is_read_as_written() {
    let input: InputType = generator(INPUT);
    assert_eq!((16, 12), input.map.size);
    assert_eq!(4, input.map.face_size);
    assert_eq!(12, input.map.walls.len());
    assert_eq!(12, input.map.walls[0].len());
    assert_eq!(Spot::Void, input.map.get(0, 0));
    assert_eq!(Spot::Floor, input.map.get(8, 0));
    assert_eq!(Spot::Wall, input.map.get(11, 0));
    // behind the end of a row and outside the chart there is nothing
    assert_eq!(Spot::Void, input.map.get(12, 0));
    assert_eq!(Spot::Void, input.map.get(-1, 3));
    assert_eq!(Spot::Void, input.map.get(3, 12));
    assert_eq!(
        vec![
            Move::Forward(10),
            Move::Right,
            Move::Forward(5),
            Move::Left,
            Move::Forward(5),
            Move::Right,
            Move::Forward(10),
            Move::Left,
            Move::Forward(4),
            Move::Right,
            Move::Forward(5),
            Move::Left,
            Move::Forward(5),
        ],
        input.moves
    );
}

#[test]
fn moves_are_read_run_by_run() {
    assert_eq!(Some(vec![]), InputType::parse_moves(b"  \n"));
    assert_eq!(
        Some(vec![Move::Forward(12), Move::Left, Move::Forward(0), Move::Right]),
        InputType::parse_moves(b" 12L0R\n")
    );
    // of turns that follow each other the first is taken
    assert_eq!(
        Some(vec![Move::Right, Move::Forward(3), Move::Left]),
        InputType::parse_moves(b"RLR3LL")
    );
    assert_eq!(None, InputType::parse_moves(b"12X3"));
    assert_eq!(None, InputType::parse_moves(b"12 3"));
    assert_eq!(None, InputType::parse_moves(b"2147483648"));
    assert_eq!(Some(vec![Move::Forward(2147483647)]), InputType::parse_moves(b"2147483647"));
    assert_eq!(b"a b".to_vec(), trim(b"\t a b \r\n").to_vec());
    assert_eq!(Vec::<u8>::new(), trim(b" \n").to_vec());
}

#[test]
fn texts_that_write_no_walk_are_refused() {
    assert!(parse("").is_none());
    assert!(parse("...\n10R").is_none());
    assert!(parse("\n\n10R").is_none());
    assert!(parse("..x\n\n10R").is_none());
    assert!(parse("...\n\n10Q").is_none());
    let small = parse("...\n\n10R").unwrap();
    assert_eq!((3, 1), small.map.size);
    assert_eq!(0, small.map.face_size);
    assert_eq!(None, try_part2(&small));
    assert!(Chart::parse(b"").is_none());
    assert!(Chart::parse(b"\n").is_none());
    assert_eq!(
        2,
        Chart::parse(b"....\n....\n....\n....\n....\n....\n....\n....").unwrap().face_size
    );
    assert_eq!(1, Chart::parse(b"....\n....\n....\n....\n....").unwrap().face_size);
}

#[test]
fn directions_turn_and_step() {
    assert_eq!(Direction::Up, Direction::Right.left());
    assert_eq!(Direction::Down, Direction::Right.right());
    assert_eq!(Direction::Left, Direction::Right.flip());
    assert_eq!(Direction::Right, Direction::Up.right());
    assert_eq!(Direction::Left, Direction::Down.right());
    assert_eq!(Direction::Down, Direction::Left.left());
    assert_eq!((0, -1), Direction::Up.delta());
    assert_eq!((4, 6), Direction::Down.advance((4, 5)));
    assert_eq!((3, 5), Direction::Left.advance((4, 5)));
    assert_eq!(
        vec![0, 1, 2, 3],
        vec![
            Direction::Right.value(),
            Direction::Down.value(),
            Direction::Left.value(),
            Direction::Up.value()
        ]
    );
}

#[test]
fn the_flat_chart_goes_round() {
    let input = generator(INPUT);
    // to the right of the first face one comes in again at its left side
    let src = VoidConnection { xy: (12, 1), facing: Direction::Right };
    assert_eq!(
        Some(VoidConnection { xy: (8, 1), facing: Direction::Right }),
        part1_void_jump(&src, &input.map)
    );
    // above the chart one comes in again from below
    let src = VoidConnection { xy: (5, 3), facing: Direction::Up };
    assert_eq!(
        Some(VoidConnection { xy: (5, 7), facing: Direction::Up }),
        part1_void_jump(&src, &input.map)
    );
    assert_eq!((15, 0), input.map.wrap_locations((-1, 12)));
    assert_eq!((0, 11), input.map.wrap_locations((16, -1)));
}

#[test]
fn a_wall_ends_the_way() {
    let input = generator(INPUT);
    let mut state = State::new(&input).unwrap();
    assert_eq!((8, 0), (state.x, state.y));
    assert_eq!(Direction::Right, state.facing);
    assert!(state.forward(10, &input.map, &Wrap::Flat));
    assert_eq!((10, 0), (state.x, state.y));
    assert!(state.execute(&Move::Right, &input.map, &Wrap::Flat));
    assert!(state.execute(&Move::Forward(5), &input.map, &Wrap::Flat));
    assert_eq!((10, 5), (state.x, state.y));
    assert_eq!(1000 * 6 + 4 * 11 + 1, state.score());
    // a jump that the folded chart does not know cannot be made
    let mut lost = State { x: 8, y: 0, facing: Direction::Up };
    assert!(!lost.forward(1, &input.map, &Wrap::Folded(WrapMap::new())));
    assert_eq!((8, 0), (lost.x, lost.y));
}

#[test]
fn the_folded_chart_has_its_jumps() {
    let input = generator(INPUT);
    let cube = Cube::new(&input.map);
    assert_eq!((4, 3), cube.overview_size);
    assert!(cube.get(2, 0));
    assert!(!cube.get(0, 0));
    assert!(cube.get(0, 1));
    assert!(!cube.get(4, 1));
    assert_eq!(3, cube.find_inside_corners().len());
    let jumps = cube.build_wrap_map().unwrap();
    // every place along the fourteen open edges has its jump
    assert_eq!(14 * 4, {
        let mut keys: Vec<((i32, i32), i32)> =
            jumps.pairs.iter().map(|p| (p.0.xy, p.0.facing.value())).collect();
        keys.sort();
        keys.dedup();
        keys.len()
    });
    // who leaves the chart to the right of the fourth face comes down on the sixth
    assert_eq!(
        Some(VoidConnection { xy: (14, 8), facing: Direction::Down }),
        jumps.get(&VoidConnection { xy: (12, 5), facing: Direction::Right })
    );
    assert_eq!(None, jumps.get(&VoidConnection { xy: (12, 5), facing: Direction::Left }));
}

#[test]
fn a_walk_without_moves_scores_the_start() {
    let input = parse("  ..\n  ..\n....\n....\n..\n..\n\n\n").unwrap();
    assert!(input.moves.is_empty());
    assert_eq!(Some(1000 + 4 * 3), try_part1(&input));
    let closed = parse("###\n\n1").unwrap();
    assert_eq!(None, try_part1(&closed));
}
