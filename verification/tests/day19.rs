use aoc2022::day19::{best_score, generator, parse, part1, part2, Blueprint, Resource, State};

const INPUT: &str = "Blueprint 1: \
  Each ore robot costs 4 ore. \
  Each clay robot costs 2 ore. \
  Each obsidian robot costs 3 ore and 14 clay. \
  Each geode robot costs 2 ore and 7 obsidian.
Blueprint 2: \
  Each ore robot costs 2 ore. \
  Each clay robot costs 3 ore. \
  Each obsidian robot costs 3 ore and 8 clay. \
  Each geode robot costs 3 ore and 12 obsidian.\n";

fn exhaustive(state: &State, bp: &Blueprint) -> u16 {
    if state.remaining_time == 0 {
        return state.stock[3];
    }
    let mut best = 0;
    for next in state.next(bp) {
        best = best.max(exhaustive(&next, bp));
    }
    best
}

#[test]
fn day19_test_part1() {
    let input = generator(INPUT);
    assert_eq!(2, input.len());
    assert_eq!(33, part1(&input));
}

#[test]
fn test_estimate() {
    let state1 = State { remaining_time: 10, stock: [16, 8, 4, 2], robots: [4, 3, 2, 1] };
    // check resource collecting
    assert_eq!(3, state1.estimate_resource(Resource::Geode, 1));
    assert_eq!(5, state1.estimate_resource(Resource::Geode, 2));
    assert_eq!(8, state1.estimate_resource(Resource::Geode, 3));
    assert_eq!(12, state1.estimate_resource(Resource::Geode, 4));
    // test inverse
    assert_eq!(0, state1.estimate_turns(Resource::Geode, 1));
    assert_eq!(1, state1.estimate_turns(Resource::Geode, 3));
    assert_eq!(2, state1.estimate_turns(Resource::Geode, 5));
    assert_eq!(3, state1.estimate_turns(Resource::Geode, 8));
    assert_eq!(4, state1.estimate_turns(Resource::Geode, 9));
    assert_eq!(4, state1.estimate_turns(Resource::Geode, 11));
    assert_eq!(4, state1.estimate_turns(Resource::Geode, 12));
}

#[test]
fn test_robot_estimate() {
    let bp = generator(INPUT).remove(0);
    let state = State::new(18);
    assert_eq!(0, state.estimate_robot_build(Resource::Ore, &bp));
    assert_eq!(3, state.estimate_robot_build(Resource::Clay, &bp));
    assert_eq!(6, state.estimate_robot_build(Resource::Obsidian, &bp));
    assert_eq!(5, state.estimate_robot_build(Resource::Geode, &bp));
    assert_eq!(10, state.chain_estimate(&bp));
    assert_eq!(153, state.limit(&bp));
    let state = State { remaining_time: 1, stock: [12, 19, 12, 9], robots: [3, 5, 7, 3] };
    assert_eq!(12, state.chain_estimate(&bp));
    assert_eq!(12, state.limit(&bp));
    let state = State { remaining_time: 0, stock: [15, 32, 6, 12], robots: [3, 5, 6, 4] };
    assert_eq!(12, state.chain_estimate(&bp));
    assert_eq!(12, state.limit(&bp));
}

#[test]
fn day19_test_part2() {
    assert_eq!(3472, part2(&generator(INPUT)));
}

#[test]
fn best_scores_of_the_samples() {
    let input = generator(INPUT);
    assert_eq!(9, best_score(&input[0], 24));
    assert_eq!(12, best_score(&input[1], 24));
    assert_eq!(56, best_score(&input[0], 32));
    assert_eq!(62, best_score(&input[1], 32));
}

#[test]
fn no_time_no_score() {
    let input = generator(INPUT);
    assert_eq!(0, best_score(&input[0], 0));
    assert_eq!(0, best_score(&input[1], 0));
    assert_eq!(0, best_score(&Blueprint::new(7, 0, 0, 0, 0, 0, 0), 0));
}

#[test]
fn unreachable_target_scores_nothing() {
    // The tertiary robot costs a secondary resource that no robot can ever
    // be built for, so no target robot is ever built.
    let bp = Blueprint::new(3, 2, 2000, 3, 1, 2, 1);
    for time in [1u16, 5, 12, 24] {
        assert_eq!(0, best_score(&bp, time));
    }
}

#[test]
fn pruned_search_agrees_with_exhaustive_search() {
    let mut blueprints = generator(INPUT);
    blueprints.push(Blueprint::new(3, 1, 1, 1, 1, 1, 1));
    blueprints.push(Blueprint::new(4, 1, 1, 1, 1, 20, 1));
    blueprints.push(Blueprint::new(5, 2, 1, 1, 2, 1, 2));
    for bp in &blueprints {
        for time in 0..=10u16 {
            let root = State::new(time);
            let truth = exhaustive(&root, bp);
            assert_eq!(truth, best_score(bp, time));
            assert!(root.limit(bp) >= truth);
        }
    }
}

#[test]
fn limit_bounds_every_state_of_a_small_tree() {
    fn walk(state: &State, bp: &Blueprint) {
        assert!(state.limit(bp) >= exhaustive(state, bp));
        if state.remaining_time > 0 {
            for next in state.next(bp) {
                walk(&next, bp);
            }
        }
    }
    let bp = Blueprint::new(1, 1, 1, 1, 1, 2, 1);
    walk(&State::new(8), &bp);
}

#[test]
fn same_inputs_same_score() {
    let input = generator(INPUT);
    assert_eq!(best_score(&input[0], 20), best_score(&input[0], 20));
    assert_eq!(part1(&input), part1(&input));
}

#[test]
fn more_time_never_hurts() {
    let input = generator(INPUT);
    for bp in &input {
        let mut last = 0;
        for time in 0..=24u16 {
            let score = best_score(bp, time);
            assert!(last <= score);
            last = score;
        }
    }
}

#[test]
fn successors_spend_time_and_keep_stock() {
    fn walk(state: &State, bp: &Blueprint, depth: u16, horizon: u16) {
        assert!(depth <= horizon);
        if state.remaining_time == 0 {
            return;
        }
        let next = state.next(bp);
        assert!(!next.is_empty() && next.len() <= 4);
        for n in next {
            assert!(n.remaining_time < state.remaining_time);
            for r in 0..4 {
                assert!(n.robots[r] >= state.robots[r]);
            }
            walk(&n, bp, depth + 1, horizon);
        }
    }
    let input = generator(INPUT);
    walk(&State::new(12), &input[0], 0, 12);
    walk(&State::new(12), &input[1], 0, 12);
}

#[test]
fn building_waits_for_the_resources() {
    let input = generator(INPUT);
    let bp = &input[0];
    let root = State::new(24);
    // An ore robot costs 4 ore: four steps of waiting, one of building.
    let built = root.can_build(Resource::Ore, bp).unwrap();
    assert_eq!(19, built.remaining_time);
    assert_eq!([1, 0, 0, 0], built.stock);
    assert_eq!([2, 0, 0, 0], built.robots);
    // A clay robot costs 2 ore: two steps of waiting, one of building.
    let built = root.can_build(Resource::Clay, bp).unwrap();
    assert_eq!(21, built.remaining_time);
    assert_eq!([1, 0, 0, 0], built.stock);
    assert_eq!([1, 1, 0, 0], built.robots);
    // No clay robot, so obsidian can never be paid for.
    assert!(root.can_build(Resource::Obsidian, bp).is_none());
    assert!(root.can_build(Resource::Geode, bp).is_none());
    // Too late to finish.
    assert!(State::new(3).can_build(Resource::Clay, bp).is_none());
    assert!(State::new(4).can_build(Resource::Clay, bp).is_some());
}

#[test]
fn idling_is_the_only_move_at_the_end() {
    let input = generator(INPUT);
    let state = State { remaining_time: 1, stock: [9, 9, 9, 2], robots: [1, 1, 1, 3] };
    let next = state.next(&input[0]);
    assert_eq!(1, next.len());
    assert_eq!(0, next[0].remaining_time);
    assert_eq!([10, 10, 10, 5], next[0].stock);
    assert_eq!([1, 1, 1, 3], next[0].robots);
}

#[test]
fn saturated_kinds_are_not_built() {
    let input = generator(INPUT);
    // Blueprint 1 never takes more than 4 ore, 14 clay or 7 obsidian at once.
    let state = State { remaining_time: 10, stock: [20, 20, 20, 0], robots: [4, 14, 7, 0] };
    let next = state.next(&input[0]);
    assert_eq!(1, next.len());
    assert_eq!([4, 14, 7, 1], next[0].robots);
    assert_eq!(9, next[0].remaining_time);
}

#[test]
fn blueprint_lookups() {
    let input = generator(INPUT);
    let bp = &input[0];
    assert_eq!(1, bp.id());
    assert_eq!(4, bp.cost(Resource::Ore, Resource::Ore));
    assert_eq!(2, bp.cost(Resource::Clay, Resource::Ore));
    assert_eq!(3, bp.cost(Resource::Obsidian, Resource::Ore));
    assert_eq!(14, bp.cost(Resource::Obsidian, Resource::Clay));
    assert_eq!(2, bp.cost(Resource::Geode, Resource::Ore));
    assert_eq!(7, bp.cost(Resource::Geode, Resource::Obsidian));
    assert_eq!(0, bp.cost(Resource::Geode, Resource::Clay));
    assert_eq!(Some(4), bp.max_useful(Resource::Ore));
    assert_eq!(Some(14), bp.max_useful(Resource::Clay));
    assert_eq!(Some(7), bp.max_useful(Resource::Obsidian));
    assert_eq!(None, bp.max_useful(Resource::Geode));
}

#[test]
fn malformed_blueprints_are_not_read() {
    assert!(parse("Blueprint 1: Each ore robot costs 4 ore.").is_none());
    assert!(parse(&INPUT.replace("14 clay", "x clay")).is_none());
    assert!(parse(&INPUT.replace("14 clay", "70000 clay")).is_none());
    assert!(parse(&INPUT.replace("Blueprint 2:", "Blueprint :")).is_none());
    assert_eq!(2, parse(INPUT).unwrap().len());
    assert_eq!(0, parse("").unwrap().len());
}
