use aoc2022::day16::{
    find_valve, generator, part1, part2, read_valves, relax, search, start_row, Caves, Part1,
    Part2, State, Valve,
};

const INPUT: &str = "Valve AA has flow rate=0; tunnels lead to valves DD, II, BB
Valve BB has flow rate=13; tunnels lead to valves CC, AA
Valve CC has flow rate=2; tunnels lead to valves DD, BB
Valve DD has flow rate=20; tunnels lead to valves CC, AA, EE
Valve EE has flow rate=3; tunnels lead to valves FF, DD
Valve FF has flow rate=0; tunnels lead to valves EE, GG
Valve GG has flow rate=0; tunnels lead to valves FF, HH
Valve HH has flow rate=22; tunnel leads to valve GG
Valve II has flow rate=0; tunnels lead to valves AA, JJ
Valve JJ has flow rate=21; tunnel leads to valve II";

#[test]
fn day16_test_part1() {
    assert_eq!(1651, part1(&generator(INPUT)));
}

#[test]
fn day16_test_part2() {
    assert_eq!(1707, part2(&generator(INPUT)));
}

#[test]
fn a_valve_is_read_from_its_line() {
    let valve =
        Valve::parse(b"Valve DD has flow rate=20; tunnels lead to valves CC, AA, EE").unwrap();
    assert_eq!(b"DD".to_vec(), valve.name);
    assert_eq!(20, valve.flow);
    assert_eq!(vec![b"CC".to_vec(), b"AA".to_vec(), b"EE".to_vec()], valve.next);
    let valve = Valve::parse(b"Valve HH has flow rate=22; tunnel leads to valve GG").unwrap();
    assert_eq!(vec![b"GG".to_vec()], valve.next);
    // names without a comma between them are one name
    let valve = Valve::parse(b"Valve HH has flow rate=+7; tunnel leads to valve GG HH").unwrap();
    assert_eq!(7, valve.flow);
    assert_eq!(vec![b"GG HH".to_vec()], valve.next);
    assert!(Valve::parse(b"Valve HH has flow rate=22; tunnel leads").is_none());
    assert!(Valve::parse(b"Valve HH has flow rate=; tunnel leads to valve GG").is_none());
    assert!(Valve::parse(b"Valve HH has flow rate=x; tunnel leads to valve GG").is_none());
    assert!(Valve::parse(b"Valve HH has flow 22; tunnel leads to valve GG").is_none());
    assert!(Valve::parse(b"").is_none());
}

#[test]
fn the_caves_of_the_sample() {
    let caves = generator(INPUT);
    assert!(caves.is_wf());
    assert_eq!(0, caves.start);
    assert_eq!(vec![0, 13, 2, 20, 3, 0, 0, 22, 0, 21], caves.flows);
    assert_eq!(vec![0, 1, 2, 1, 2, 3, 4, 5, 1, 2], caves.distances[0]);
    assert_eq!(vec![5, 6, 5, 4, 3, 2, 1, 0, 6, 7], caves.distances[7]);
    assert_eq!(vec![2, 3, 4, 3, 4, 5, 6, 7, 1, 0], caves.distances[9]);
    // the valves with a flow: BB, CC, DD, EE, HH and JJ
    assert_eq!(0b10_1001_1110, caves.get_closed());
}

#[test]
fn caves_that_cannot_be_made() {
    // no valve to start at
    assert!(Caves::parse("Valve BB has flow rate=13; tunnels lead to valves BB").is_none());
    // a valve next to one that is not there
    assert!(Caves::parse("Valve AA has flow rate=13; tunnels lead to valves BB").is_none());
    // a line that describes no valve
    assert!(Caves::parse("Valve AA has flow rate=13; tunnels lead to valves AA\nhello").is_none());
    assert!(Caves::parse("").is_none());
    assert!(read_valves("").unwrap().is_empty());
    assert!(read_valves("hello").is_none());
    let alone = Caves::parse("Valve AA has flow rate=13; tunnels lead to valves AA").unwrap();
    // a valve that leads to itself is one minute from itself
    assert_eq!(vec![vec![1]], alone.distances);
}

#[test]
fn the_last_valve_of_a_name_is_found() {
    let valves = read_valves(
        "Valve AA has flow rate=1; tunnels lead to valves BB\n\
         Valve BB has flow rate=2; tunnels lead to valves AA\n\
         Valve AA has flow rate=3; tunnels lead to valves BB",
    )
    .unwrap();
    assert_eq!(Some(2), find_valve(&valves, b"AA"));
    assert_eq!(Some(1), find_valve(&valves, b"BB"));
    assert_eq!(None, find_valve(&valves, b"CC"));
    assert_eq!(Some(vec![3, 1, 0]), start_row(&valves, 2));
    assert_eq!(Some(vec![3, 0, 1]), start_row(&valves, 1));
    let caves = Caves::from_valves(&valves).unwrap();
    assert_eq!(2, caves.start);
    assert_eq!(vec![1, 2, 3], caves.flows);
}

#[test]
fn a_way_over_a_valve_is_taken_where_it_is_shorter() {
    let mut distances = vec![vec![0, 1, 3], vec![1, 0, 1], vec![3, 1, 0]];
    relax(&mut distances, 0);
    assert_eq!(vec![vec![0, 1, 3], vec![1, 0, 1], vec![3, 1, 0]], distances);
    relax(&mut distances, 1);
    assert_eq!(vec![vec![0, 1, 2], vec![1, 0, 1], vec![2, 1, 0]], distances);
}

#[test]
fn one_move_of_one_worker() {
    let caves = generator(INPUT);
    let start = Part1::new(&caves);
    assert_eq!(30, start.remaining_time);
    assert_eq!(0, start.score());
    let at_dd = start.move_to(3, &caves);
    assert_eq!(3, at_dd.location);
    assert_eq!(28, at_dd.remaining_time);
    assert_eq!(560, at_dd.total_flow);
    assert_eq!(0b10_1001_0110, at_dd.shut);
    let next = start.next(&caves);
    assert_eq!(6, next.len());
    assert_eq!(vec![1, 2, 3, 4, 7, 9], next.iter().map(|s| s.location).collect::<Vec<usize>>());
    assert_eq!(
        vec![364, 54, 560, 81, 528, 567],
        next.iter().map(|s| s.total_flow).collect::<Vec<u64>>()
    );
    // with two minutes left no valve is worth the way
    let late = Part1 { shut: 0b10_1001_1110, location: 0, remaining_time: 2, total_flow: 5 };
    assert!(late.next(&caves).is_empty());
    assert_eq!(5, search(&caves, late));
}

#[test]
fn the_worker_with_more_time_moves() {
    let caves = generator(INPUT);
    let start = Part2::new(&caves);
    assert_eq!([26, 26], start.remaining_times);
    let first = start.move_to(0, 3, &caves);
    assert_eq!([3, 0], first.locations);
    assert_eq!([24, 26], first.remaining_times);
    assert_eq!(480, first.total_flow);
    let next = first.next(&caves);
    // the second worker moves now, to one of the five valves left
    assert_eq!(5, next.len());
    assert!(next.iter().all(|s| s.locations[0] == 3 && s.remaining_times[0] == 24));
    assert_eq!(
        vec![1, 2, 4, 7, 9],
        next.iter().map(|s| s.locations[1]).collect::<Vec<usize>>()
    );
    assert_eq!(24, next[0].remaining_times[1]);
    assert_eq!(480 + 24 * 13, next[0].total_flow);
}

#[test]
fn caves_without_flow_release_nothing() {
    let caves = Caves::parse(
        "Valve AA has flow rate=0; tunnels lead to valves BB\n\
         Valve BB has flow rate=0; tunnels lead to valves AA",
    )
    .unwrap();
    assert_eq!(0, part1(&caves));
    assert_eq!(0, part2(&caves));
    let caves = Caves::parse(
        "Valve AA has flow rate=0; tunnels lead to valves BB\n\
         Valve BB has flow rate=10; tunnels lead to valves AA",
    )
    .unwrap();
    // one minute to walk, one to open, 28 to flow
    assert_eq!(280, part1(&caves));
    assert_eq!(240, part2(&caves));
}
