use aoc2022::day17::{
    drop_piece, drop_rocks, five_pieces, generator, parse, part1, part2, try_drop_rocks, Board,
    Piece, PieceKind, Wind, WindIter,
};

const INPUT: &str = ">>><<><>><<<>><>>><<<>>><<<><<<>><>><<>>\n";

#[test]
fn day17_test_part1() {
    let input = generator(INPUT);
    assert_eq!(40, input.len());
    assert_eq!(3068, part1(&input));
}

#[test]
fn day17_test_part2() {
    assert_eq!(1514285714288, part2(&generator(INPUT)));
}

#[test]
fn winds_are_read_without_white_space() {
    assert_eq!(vec![Wind::Left, Wind::Right, Wind::Right], generator(" <\t>\r\n>\n"));
    assert_eq!(Some(Vec::new()), parse(""));
    assert_eq!(None, parse("<>x"));
    // a vertical tab is no white space here
    assert_eq!(None, parse("<\x0b>"));
    assert_eq!(Some(Wind::Left), Wind::parse(b'<'));
    assert_eq!(Some(Wind::Right), Wind::parse(b'>'));
    assert_eq!(None, Wind::parse(b'^'));
}

#[test]
fn the_wind_stops_at_the_walls() {
    assert_eq!(None, Wind::Left.blow(0, 4));
    assert_eq!(Some(0), Wind::Left.blow(1, 4));
    assert_eq!(Some(3), Wind::Right.blow(2, 4));
    assert_eq!(None, Wind::Right.blow(3, 4));
}

#[test]
fn rocks_have_masks_for_every_place() {
    let plus = Piece::new(PieceKind::Plus);
    assert_eq!((3, 3), plus.size);
    assert_eq!(5, plus.masks.len());
    assert_eq!(vec![0x2, 0x7, 0x2], plus.masks[0]);
    assert_eq!(vec![0x20, 0x70, 0x20], plus.masks[4]);
    let bar = Piece::new(PieceKind::Bar);
    assert_eq!(vec![vec![0xf], vec![0x1e], vec![0x3c], vec![0x78]], bar.masks);
    assert_eq!((1, 4), PieceKind::I.size());
    assert_eq!(vec![0x3, 0x3], PieceKind::Square.shape());
    assert_eq!(vec![0x7, 0x4, 0x4], PieceKind::L.shape());
    let all = five_pieces();
    assert_eq!(
        vec![(4, 1), (3, 3), (3, 3), (1, 4), (2, 2)],
        all.iter().map(|p| p.size).collect::<Vec<(usize, usize)>>()
    );
    assert!(bar.not_blocked(1, &[0x01]));
    assert!(!bar.not_blocked(1, &[0x10]));
}

#[test]
fn the_first_rocks_of_the_sample() {
    let winds = generator(INPUT);
    let mut board = Board::new(20);
    let mut itr = WindIter::new(&winds);
    let mut pieces = five_pieces();
    drop_piece(&mut board, &mut pieces[0], &mut itr);
    // the bar comes to rest on the floor, pushed to the right
    assert_eq!(1, board.current_height);
    assert_eq!(0b0111100, board.filled[0]);
    assert_eq!(4, itr.get_posn());
    drop_piece(&mut board, &mut pieces[1], &mut itr);
    assert_eq!(4, board.current_height);
    assert_eq!(vec![0b0111100, 0b0001000, 0b0011100, 0b0001000], board.filled[0..4].to_vec());
    assert_eq!(8, itr.get_posn());
    drop_piece(&mut board, &mut pieces[2], &mut itr);
    assert_eq!(6, board.current_height);
    assert_eq!(vec![0b0001111, 0b0000100, 0b0000100], board.filled[3..6].to_vec());
}

#[test]
fn heights_of_the_sample() {
    let winds = generator(INPUT);
    assert_eq!(0, drop_rocks(&winds, 0));
    assert_eq!(1, drop_rocks(&winds, 1));
    assert_eq!(4, drop_rocks(&winds, 2));
    assert_eq!(6, drop_rocks(&winds, 3));
    assert_eq!(7, drop_rocks(&winds, 4));
    assert_eq!(9, drop_rocks(&winds, 5));
    assert_eq!(17, drop_rocks(&winds, 10));
    assert_eq!(Some(3068), try_drop_rocks(&winds, 2022));
}

#[test]
fn a_steady_wind_stacks_the_rocks_at_the_wall() {
    let winds = vec![Wind::Left];
    // each round of five rocks adds 1 + 3 + 3 + 2 + 2 rows: the tall rock
    // stands beside the one below it
    assert_eq!(11, drop_rocks(&winds, 5));
    assert_eq!(12, drop_rocks(&winds, 6));
    assert_eq!(22, drop_rocks(&winds, 10));
    assert_eq!(2_200_000_000_000, drop_rocks(&winds, 1_000_000_000_000));
}

#[test]
fn the_wind_is_taken_in_turn() {
    let winds = vec![Wind::Left, Wind::Right, Wind::Right];
    let mut itr = WindIter::new(&winds);
    assert_eq!(0, itr.get_posn());
    assert_eq!(Wind::Left, itr.next());
    assert_eq!(Wind::Right, itr.next());
    assert_eq!(Wind::Right, itr.next());
    assert_eq!(0, itr.get_posn());
    assert_eq!(Wind::Left, itr.next());
}
