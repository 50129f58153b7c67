use aoc2022::day14::{
    add_floor, do_grain, generator, parse, part1, part2, pour, CrossSection, Ledges, Point,
};

const INPUT: &str = "498,4 -> 498,6 -> 496,6\n\
                     503,4 -> 502,4 -> 502,9 -> 494,9";

fn picture(table: &[Vec<bool>]) -> Vec<String> {
    table.iter().map(|row| row.iter().map(|&f| if f { '#' } else { '.' }).collect()).collect()
}

#[test]
fn day14_test_part1() {
    assert_eq!(24, part1(&generator(INPUT)));
}

#[test]
fn day14_test_part2() {
    assert_eq!(93, part2(&generator(INPUT)));
}

#[test]
fn day14_the_ledges_are_drawn() {
    let cave = generator(INPUT);
    assert_eq!((493, 504, 10), (cave.left, cave.right, cave.height));
    assert_eq!(
        vec![
            "............",
            "............",
            "............",
            "............",
            ".....#...##.",
            ".....#...#..",
            "...###...#..",
            ".........#..",
            ".........#..",
            ".#########..",
            "............",
        ],
        picture(&cave.ledges)
    );
    // A ledge along a diagonal, and a path of one corner, which draws nothing.
    let ledges = Ledges { lines: vec![vec![Point { x: 3, y: 0 }, Point { x: 1, y: 2 }], vec![Point { x: 2, y: 4 }]] };
    assert_eq!((1, 3, 4), (ledges.left(), ledges.right(), ledges.height()));
    let cave = CrossSection::new(&ledges);
    assert_eq!((0, 4, 5), (cave.left, cave.right, cave.height));
    assert_eq!(vec!["...#.", "..#..", ".#...", ".....", ".....", "....."], picture(&cave.ledges));
}

#[test]
fn day14_grains_come_to_rest() {
    let cave = generator(INPUT);
    let mut filled = cave.ledges.clone();
    let start = Point { x: 500, y: 0 };
    assert!(do_grain(&mut filled, &start, &cave));
    assert!(filled[8][500 - 493]);
    assert!(do_grain(&mut filled, &start, &cave));
    assert!(filled[8][499 - 493]);
    assert!(do_grain(&mut filled, &start, &cave));
    assert!(filled[8][501 - 493]);
    assert!(do_grain(&mut filled, &start, &cave));
    assert!(filled[7][500 - 493]);
    assert!(do_grain(&mut filled, &start, &cave));
    assert!(filled[8][498 - 493]);
    for _ in 5..24 {
        assert!(do_grain(&mut filled, &start, &cave));
    }
    let before = filled.clone();
    assert!(!do_grain(&mut filled, &start, &cave));
    assert_eq!(before, filled);
    assert_eq!(24, pour(&cave));
}

#[test]
fn day14_the_floor() {
    let cave = generator(INPUT);
    let wide = add_floor(&cave, &Point { x: 500, y: 0 });
    assert_eq!((489, 511, 11), (wide.left, wide.right, wide.height));
    assert_eq!(12, wide.ledges.len());
    assert!(wide.ledges.iter().all(|row| row.len() == 23));
    assert!(wide.ledges[11].iter().all(|&f| f));
    assert!(wide.ledges[10].iter().all(|&f| !f));
    assert_eq!(".........#...##........", picture(&wide.ledges)[4]);
    // Only a floor below the source: a heap of 1 + 3 + 5 grains.
    let bare = CrossSection { ledges: vec![vec![false; 3]; 3], left: 499, right: 501, height: 2 };
    assert_eq!(9, part2(&bare));
    assert_eq!(0, part1(&bare));
    assert_eq!(0, pour(&bare));
}

#[test]
fn day14_texts_that_are_no_paths() {
    assert!(parse("1,2 -> 3").is_none());
    assert!(parse("1,2 ->3,4").is_none());
    assert!(parse("1,2 -> x,4").is_none());
    assert!(parse("1,2\n\n3,4").is_none());
    assert!(parse("1,-2").is_none());
    let read = parse("498,4 -> 498,6\n7,8").unwrap();
    assert_eq!(vec![vec![Point { x: 498, y: 4 }, Point { x: 498, y: 6 }], vec![Point { x: 7, y: 8 }]], read.lines);
    assert_eq!(Some(Point { x: 5, y: 6 }), Point::parse(b"5,6"));
    assert_eq!(None, Point::parse(b"5;6"));
}
