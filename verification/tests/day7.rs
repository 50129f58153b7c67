use aoc2022::day7::{
    add_size, build_sizes, find_directory, generator, parse, part1, part2, same_path, Command,
    Directory, ListObject,
};

const INPUT: &str = "$ cd /\n\
                     $ ls\n\
                     dir a\n\
                     14848514 b.txt\n\
                     8504156 c.dat\n\
                     dir d\n\
                     $ cd a\n\
                     $ ls\n\
                     dir e\n\
                     29116 f\n\
                     2557 g\n\
                     62596 h.lst\n\
                     $ cd e\n\
                     $ ls\n\
                     584 i\n\
                     $ cd ..\n\
                     $ cd ..\n\
                     $ cd d\n\
                     $ ls\n\
                     4060174 j\n\
                     8033020 d.log\n\
                     5626152 d.ext\n\
                     7214296 k";

fn path(names: &[&str]) -> Vec<Vec<u8>> {
    names.iter().map(|n| n.as_bytes().to_vec()).collect()
}

#[test]
fn test_generator() {
    let result = generator(INPUT);
    assert_eq!(10, result.len());
}

#[test]
fn day7_test_part1() {
    assert_eq!(95437, part1(&generator(INPUT)));
}

#[test]
fn day7_test_part2() {
    assert_eq!(24933642, part2(&generator(INPUT)));
}

#[test]
fn day7_commands_are_read() {
    let commands = generator(INPUT);
    assert!(matches!(&commands[0], Command::CD(name) if name == b"/"));
    match &commands[1] {
        Command::LS(contents) => {
            assert_eq!(4, contents.len());
            assert!(matches!(&contents[0], ListObject::DIR(name) if name == b"a"));
            assert!(matches!(&contents[1], ListObject::FILE(name, 14848514) if name == b"b.txt"));
            assert_eq!(0, contents[0].size());
            assert_eq!(14848514, contents[1].size());
        }
        _ => panic!("a listing was expected"),
    }
    assert!(matches!(&commands[6], Command::CD(name) if name == b".."));
    assert!(matches!(ListObject::parse(b"12 a b"), Some(ListObject::FILE(name, 12)) if name == b"a b"));
    assert!(matches!(ListObject::parse(b"dir "), Some(ListObject::DIR(name)) if name.is_empty()));
    assert!(ListObject::parse(b"dir").is_none());
    assert!(ListObject::parse(b"x a").is_none());
    assert!(ListObject::parse(b" a").is_none());
    assert!(matches!(Command::parse(b"ls"), Some(Command::LS(contents)) if contents.is_empty()));
    assert!(matches!(Command::parse(b"  cd   x  y"), Some(Command::CD(name)) if name == b"x"));
    assert!(Command::parse(b"cd").is_none());
    assert!(Command::parse(b"rm x").is_none());
    assert!(Command::parse(b"").is_none());
    assert!(Command::parse(b"ls\nfoo").is_none());
}

#[test]
fn day7_texts_that_are_no_session() {
    assert!(parse("").is_none());
    assert!(parse("$").is_none());
    assert!(parse("$ ").is_none());
    assert!(parse("$ cd /\n$ mv a b").is_none());
    assert!(parse("$ ls\n12 a\nb").is_none());
    // The first two characters are not looked at.
    assert_eq!(1, parse("xxls\n12 a").unwrap().len());
    assert_eq!(2, parse("$ ls\n12 a\n$ cd x").unwrap().len());
}

#[test]
fn day7_sizes_add_up_along_the_path() {
    let sizes = build_sizes(&generator(INPUT));
    let table: Vec<(Vec<Vec<u8>>, usize)> = sizes.into_iter().map(|d| (d.path, d.size)).collect();
    assert_eq!(
        vec![
            (path(&[]), 48381165),
            (path(&["a"]), 94853),
            (path(&["a", "e"]), 584),
            (path(&["d"]), 24933642)
        ],
        table
    );
    // Going up from the root stays at the root; a listing counts each time.
    let sizes = build_sizes(&generator("$ cd ..\n$ ls\n5 a\n$ ls\n5 a\n$ cd x\n$ cd /\n$ ls\n1 b"));
    assert_eq!(1, sizes.len());
    assert_eq!(11, sizes[0].size);
    assert_eq!(0, build_sizes(&vec![]).len());
    assert_eq!(0, part1(&vec![]));
    assert_eq!(11, part1(&generator("$ cd ..\n$ ls\n5 a\n$ ls\n5 a\n$ cd x\n$ cd /\n$ ls\n1 b")));
    assert_eq!(100_000 + 100_000, part1(&generator("$ ls\n$ cd a\n$ ls\n100000 x")));
    assert_eq!(0, part1(&generator("$ ls\n$ cd a\n$ ls\n100001 x")));
}

#[test]
fn day7_the_table_of_directories() {
    let mut table = vec![Directory { path: path(&["a"]), size: 3 }];
    assert_eq!(0, find_directory(&table, &path(&["a"])));
    assert_eq!(1, find_directory(&table, &path(&[])));
    assert_eq!(1, find_directory(&table, &path(&["a", "b"])));
    add_size(&mut table, &path(&["a"]), 4);
    add_size(&mut table, &path(&["b"]), 5);
    add_size(&mut table, &path(&["a"]), 1);
    assert_eq!(2, table.len());
    assert_eq!(8, table[0].size);
    assert_eq!(path(&["b"]), table[1].path);
    assert_eq!(5, table[1].size);
    assert!(same_path(&path(&["a", "b"]), &path(&["a", "b"])));
    assert!(!same_path(&path(&["a", "b"]), &path(&["a", "c"])));
    assert!(!same_path(&path(&["a", "b"]), &path(&["a"])));
    assert!(!same_path(&path(&["ab"]), &path(&["a", "b"])));
    assert!(same_path(&path(&[]), &path(&[])));
}

#[test]
fn day7_the_smallest_directory_that_is_large_enough() {
    // The root holds 41000000: 1000000 have to go.
    let text = "$ cd /\n$ ls\n30000000 big\n$ cd a\n$ ls\n999999 x\n$ cd ..\n$ cd b\n$ ls\n1000000 y\n$ cd ..\n$ cd c\n$ ls\n9000001 z";
    assert_eq!(1000000, part2(&generator(text)));
    // Only the root is large enough.
    let text = "$ cd /\n$ ls\n69000000 big\n$ cd a\n$ ls\n1 x";
    assert_eq!(69000001, part2(&generator(text)));
}
