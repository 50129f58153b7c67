//! A terminal session of `cd` and `ls` commands: the sizes of the
//! directories that it walks through, the sum of the small ones, and the
//! smallest one whose removal frees enough space.
use crate::text::{
    find_byte, lines, lines_of, natural_of, parse_natural, rows, same_bytes, split_at_each,
    split_by, split_once_at, words, words_of, SPACE,
};
use vstd::prelude::*;
use vstd::slice::slice_subrange;
use vstd::string::StringSliceAdditionalSpecFns;

verus! {

/// A line of a listing: a file with its name and size, or a directory with
/// its name.
#[derive(Debug)]
pub enum ListObject {
    FILE(Vec<u8>, usize),
    DIR(Vec<u8>),
}

/// A command: a change of directory, or a listing with its lines.
#[derive(Debug)]
pub enum Command {
    CD(Vec<u8>),
    LS(Vec<ListObject>),
}

/// A line of a listing, as the rules see it.
pub enum Item {
    File(Seq<u8>, int),
    Dir(Seq<u8>),
}

/// A command, as the rules see it.
pub enum Order {
    Cd(Seq<u8>),
    Ls(Seq<Item>),
}

impl View for ListObject {
    type V = Item;

    open spec fn view(&self) -> Item {
        match self {
            ListObject::FILE(name, size) => Item::File(name@, *size as int),
            ListObject::DIR(name) => Item::Dir(name@),
        }
    }
}

/// The lines of a listing, as the rules see them.
pub open spec fn items(v: Seq<ListObject>) -> Seq<Item> {
    v.map_values(|o: ListObject| o@)
}

impl View for Command {
    type V = Order;

    open spec fn view(&self) -> Order {
        match self {
            Command::CD(name) => Order::Cd(name@),
            Command::LS(contents) => Order::Ls(items(contents@)),
        }
    }
}

/// The commands, as the rules see them.
pub open spec fn orders(v: Seq<Command>) -> Seq<Order> {
    v.map_values(|c: Command| c@)
}

pub open spec fn word_dir() -> Seq<u8> {
    seq![100u8, 105u8, 114u8]
}

pub open spec fn word_cd() -> Seq<u8> {
    seq![99u8, 100u8]
}

pub open spec fn word_ls() -> Seq<u8> {
    seq![108u8, 115u8]
}

pub open spec fn word_root() -> Seq<u8> {
    seq![47u8]
}

pub open spec fn word_up() -> Seq<u8> {
    seq![46u8, 46u8]
}

/// The text between two commands: a newline, a dollar sign and a space.
pub open spec fn prompt() -> Seq<u8> {
    seq![10u8, 36u8, 32u8]
}

/// What a line of a listing says: `dir` and a name, or a size and a name,
/// with one space between them.
pub open spec fn item_of(line: Seq<u8>) -> Option<Item> {
    match split_once_at(line, SPACE) {
        Some((first, name)) => if first == word_dir() {
            Some(Item::Dir(name))
        } else if natural_of(first).is_some() && natural_of(first).unwrap() <= usize::MAX {
            Some(Item::File(name, natural_of(first).unwrap() as int))
        } else {
            None
        },
        None => None,
    }
}

/// What the lines of a listing say; `None` where one of them says nothing.
pub open spec fn items_of(ls: Seq<Seq<u8>>) -> Option<Seq<Item>>
    decreases ls.len(),
{
    if ls.len() == 0 {
        Some(Seq::empty())
    } else {
        match (items_of(ls.drop_last()), item_of(ls.last())) {
            (Some(before), Some(item)) => Some(before.push(item)),
            _ => None,
        }
    }
}

/// What the text of a command says: its first line is `cd` and a name, or
/// `ls`, and then its other lines are the listing.
pub open spec fn order_of(text: Seq<u8>) -> Option<Order> {
    let ls = lines_of(text);
    if ls.len() == 0 {
        None
    } else {
        let w = words_of(ls[0]);
        if w.len() == 0 {
            None
        } else if w[0] == word_cd() {
            if w.len() >= 2 {
                Some(Order::Cd(w[1]))
            } else {
                None
            }
        } else if w[0] == word_ls() {
            match items_of(ls.skip(1)) {
                Some(listing) => Some(Order::Ls(listing)),
                None => None,
            }
        } else {
            None
        }
    }
}

/// The texts of the commands of a session: what follows its first two
/// characters, split at the prompts.
pub open spec fn command_texts(text: Seq<u8>) -> Seq<Seq<u8>> {
    split_by(text.skip(2), prompt())
}

/// Whether the text is a session: it has its first two characters, and the
/// text of every command says a command.
pub open spec fn well_formed(text: Seq<u8>) -> bool {
    &&& text.len() >= 2
    &&& forall|i: int|
        0 <= i < command_texts(text).len() ==> order_of(#[trigger] command_texts(text)[i]).is_some()
}

/// Whether `commands` are the commands of the session.
pub open spec fn text_says(text: Seq<u8>, commands: Seq<Command>) -> bool {
    &&& commands.len() == command_texts(text).len()
    &&& forall|i: int|
        0 <= i < commands.len() ==> order_of(command_texts(text)[i]) == Some(
            (#[trigger] commands[i])@,
        )
}

impl ListObject {
    /// Reads a line of a listing.
    pub fn parse(line: &[u8]) -> (r: Option<ListObject>)
        ensures
            r.is_some() == item_of(line@).is_some(),
            r matches Some(o) ==> item_of(line@) == Some(o@),
    {
        let at = find_byte(line, SPACE);
        if at >= line.len() {
            return None;
        }
        let first = slice_subrange(line, 0, at);
        let rest = slice_subrange(line, at + 1, line.len());
        assert(first@ =~= line@.take(at as int));
        assert(rest@ =~= line@.skip(at as int + 1));
        let name = vstd::slice::slice_to_vec(rest);
        if first.len() == 3 && first[0] == 100 && first[1] == 105 && first[2] == 114 {
            assert(first@ =~= word_dir());
            return Some(ListObject::DIR(name));
        }
        proof {
            if first@ == word_dir() {
                assert(word_dir().len() == 3 && word_dir()[0] == 100 && word_dir()[1] == 105
                    && word_dir()[2] == 114);
            }
        }
        match parse_natural(first) {
            Some(v) => if v <= usize::MAX as u64 {
                Some(ListObject::FILE(name, v as usize))
            } else {
                None
            },
            None => None,
        }
    }

    /// The size of a file; a directory counts nothing by itself.
    pub fn size(&self) -> (s: usize)
        ensures
            s == item_size(self@),
    {
        match self {
            ListObject::FILE(_, size) => *size,
            _ => 0,
        }
    }
}

/// The size of a file; a directory counts nothing by itself.
pub open spec fn item_size(item: Item) -> int {
    match item {
        Item::File(_, size) => size,
        Item::Dir(_) => 0,
    }
}

impl Command {
    /// Reads a command from its text.
    pub fn parse(cmd: &[u8]) -> (r: Option<Command>)
        ensures
            r.is_some() == order_of(cmd@).is_some(),
            r matches Some(c) ==> order_of(cmd@) == Some(c@),
    {
        let all = lines(cmd);
        let ghost ls = lines_of(cmd@);
        if all.len() == 0 {
            return None;
        }
        assert(rows(all@)[0] == all[0]@);
        let w = words(all[0].as_slice());
        if w.len() == 0 {
            return None;
        }
        assert(rows(w@)[0] == w[0]@);
        let name = w[0].as_slice();
        if name.len() == 2 && name[0] == 99 && name[1] == 100 {
            assert(name@ =~= word_cd());
            if w.len() >= 2 {
                assert(rows(w@)[1] == w[1]@);
                return Some(Command::CD(w[1].clone()));
            }
            return None;
        }
        proof {
            if name@ == word_cd() {
                assert(word_cd().len() == 2 && word_cd()[0] == 99 && word_cd()[1] == 100);
            }
        }
        if name.len() == 2 && name[0] == 108 && name[1] == 115 {
            assert(name@ =~= word_ls());
            let mut contents: Vec<ListObject> = Vec::new();
            let mut i: usize = 1;
            assert(ls.skip(1).take(0) =~= Seq::<Seq<u8>>::empty());
            while i < all.len()
                invariant
                    1 <= i <= all.len(),
                    rows(all@) == ls,
                    ls == lines_of(cmd@),
                    words_of(ls[0]).len() > 0,
                    words_of(ls[0])[0] == word_ls(),
                    items_of(ls.skip(1).take(i - 1)) == Some(items(contents@)),
                decreases all.len() - i,
            {
                let ghost upto = ls.skip(1).take(i as int);
                proof {
                    assert(rows(all@)[i as int] == all[i as int]@);
                    assert(upto.drop_last() =~= ls.skip(1).take(i - 1));
                    assert(upto.last() == all[i as int]@);
                }
                match ListObject::parse(all[i].as_slice()) {
                    Some(o) => {
                        let ghost before = items(contents@);
                        let ghost item = o@;
                        contents.push(o);
                        assert(items(contents@) =~= before.push(item));
                    },
                    None => {
                        proof {
                            assert(item_of(upto.last()).is_none());
                            assert(items_of(upto).is_none());
                            lemma_items_of_prefix(ls.skip(1), i as int);
                            assert(word_ls()[0] != word_cd()[0]);
                        }
                        return None;
                    },
                }
                i += 1;
            }
            assert(ls.skip(1).take(i - 1) =~= ls.skip(1));
            assert(word_ls()[0] != word_cd()[0]);
            return Some(Command::LS(contents));
        }
        proof {
            if name@ == word_ls() {
                assert(word_ls().len() == 2 && word_ls()[0] == 108 && word_ls()[1] == 115);
            }
        }
        None
    }
}

/// If some first lines of a listing say nothing, neither does all of it.
pub proof fn lemma_items_of_prefix(ls: Seq<Seq<u8>>, n: int)
    requires
        0 <= n <= ls.len(),
        items_of(ls.take(n)).is_none(),
    ensures
        items_of(ls).is_none(),
    decreases ls.len() - n,
{
    if n < ls.len() {
        assert(ls.take(n + 1).drop_last() =~= ls.take(n));
        lemma_items_of_prefix(ls, n + 1);
    } else {
        assert(ls.take(n) =~= ls);
    }
}

/// The commands of the session; `None` where the text is no session.
pub fn parse(input: &str) -> (r: Option<Vec<Command>>)
    ensures
        r.is_some() == well_formed(input.spec_bytes()),
        r matches Some(commands) ==> text_says(input.spec_bytes(), commands@),
{
    let bytes = input.as_bytes();
    if bytes.len() < 2 {
        return None;
    }
    let body = slice_subrange(bytes, 2, bytes.len());
    assert(body@ =~= bytes@.skip(2));
    let pattern: [u8; 3] = [10, 36, 32];
    assert(pattern@ =~= prompt());
    let texts = split_at_each(body, pattern.as_slice());
    let ghost ts = command_texts(input.spec_bytes());
    let mut commands: Vec<Command> = Vec::new();
    let mut i: usize = 0;
    while i < texts.len()
        invariant
            i <= texts.len(),
            rows(texts@) == ts,
            ts == command_texts(input.spec_bytes()),
            commands.len() == i,
            forall|k: int| 0 <= k < i ==> order_of(ts[k]) == Some((#[trigger] commands[k])@),
        decreases texts.len() - i,
    {
        assert(rows(texts@)[i as int] == texts[i as int]@);
        match Command::parse(texts[i].as_slice()) {
            Some(command) => {
                commands.push(command);
            },
            None => {
                assert(!order_of(command_texts(input.spec_bytes())[i as int]).is_some());
                return None;
            },
        }
        i += 1;
    }
    assert forall|k: int| 0 <= k < ts.len() implies order_of(#[trigger] ts[k]).is_some() by {
        assert(order_of(ts[k]) == Some(commands[k]@));
    }
    Some(commands)
}

/// The commands of the session.
pub fn generator(input: &str) -> (commands: Vec<Command>)
    requires
        well_formed(input.spec_bytes()),
    ensures
        text_says(input.spec_bytes(), commands@),
{
    parse(input).unwrap()
}

/// A directory, named by the names on the way to it from the root, with
/// the size of all files in it and below it.
#[derive(Debug)]
pub struct Directory {
    pub path: Vec<Vec<u8>>,
    pub size: usize,
}

impl View for Directory {
    type V = (Seq<Seq<u8>>, int);

    open spec fn view(&self) -> (Seq<Seq<u8>>, int) {
        (rows(self.path@), self.size as int)
    }
}

/// The directories of a table, as the rules see them.
pub open spec fn table_of(v: Seq<Directory>) -> Seq<(Seq<Seq<u8>>, int)> {
    v.map_values(|d: Directory| d@)
}

/// The place of the directory with the given path in a table, or the length
/// of the table where it has none.
pub open spec fn index_of(table: Seq<(Seq<Seq<u8>>, int)>, path: Seq<Seq<u8>>) -> int
    decreases table.len(),
{
    if table.len() == 0 {
        0
    } else {
        let before = index_of(table.drop_last(), path);
        if before < table.len() - 1 {
            before
        } else if table.last().0 == path {
            table.len() - 1
        } else {
            table.len() as int
        }
    }
}

/// The table after `amount` was added to a directory, which is entered at
/// the end where the table does not have it yet.
pub open spec fn add_to(
    table: Seq<(Seq<Seq<u8>>, int)>,
    path: Seq<Seq<u8>>,
    amount: int,
) -> Seq<(Seq<Seq<u8>>, int)> {
    let at = index_of(table, path);
    if 0 <= at < table.len() {
        table.update(at, (path, table[at].1 + amount))
    } else {
        table.push((path, amount))
    }
}

/// The table after `amount` was added to the first `n` directories on the
/// way from the root to `cwd`, the root being the first.
pub open spec fn charge(
    table: Seq<(Seq<Seq<u8>>, int)>,
    cwd: Seq<Seq<u8>>,
    amount: int,
    n: int,
) -> Seq<(Seq<Seq<u8>>, int)>
    decreases n,
{
    if n <= 0 {
        table
    } else {
        add_to(charge(table, cwd, amount, n - 1), cwd.take(n - 1), amount)
    }
}

/// The sum of the sizes of the files of a listing.
pub open spec fn listed(listing: Seq<Item>) -> int
    decreases listing.len(),
{
    if listing.len() == 0 {
        0
    } else {
        listed(listing.drop_last()) + item_size(listing.last())
    }
}

/// The directory after a change: `/` is the root, `..` goes up one level
/// and stays at the root, any other name goes down.
pub open spec fn changed(cwd: Seq<Seq<u8>>, name: Seq<u8>) -> Seq<Seq<u8>> {
    if name == word_root() {
        Seq::empty()
    } else if name == word_up() {
        if cwd.len() > 0 {
            cwd.drop_last()
        } else {
            cwd
        }
    } else {
        cwd.push(name)
    }
}

/// The directory in which a session is after its commands.
pub open spec fn cwd_after(session: Seq<Order>) -> Seq<Seq<u8>>
    decreases session.len(),
{
    if session.len() == 0 {
        Seq::empty()
    } else {
        match session.last() {
            Order::Cd(name) => changed(cwd_after(session.drop_last()), name),
            Order::Ls(_) => cwd_after(session.drop_last()),
        }
    }
}

/// The table of a session: every listing adds the sizes of its files to
/// the directory that it lists and to every directory above it.
pub open spec fn sizes_after(session: Seq<Order>) -> Seq<(Seq<Seq<u8>>, int)>
    decreases session.len(),
{
    if session.len() == 0 {
        Seq::empty()
    } else {
        let before = sizes_after(session.drop_last());
        match session.last() {
            Order::Cd(_) => before,
            Order::Ls(listing) => {
                let cwd = cwd_after(session.drop_last());
                charge(before, cwd, listed(listing), cwd.len() as int + 1)
            },
        }
    }
}

/// The sum of the sizes in a table.
pub open spec fn weight(table: Seq<(Seq<Seq<u8>>, int)>) -> int
    decreases table.len(),
{
    if table.len() == 0 {
        0
    } else {
        weight(table.drop_last()) + table.last().1
    }
}

/// Whether no size of the table is negative.
pub open spec fn sizes_ok(table: Seq<(Seq<Seq<u8>>, int)>) -> bool {
    forall|i: int| 0 <= i < table.len() ==> 0 <= (#[trigger] table[i]).1
}

/// `index_of` is the first place with the path.
pub proof fn lemma_index_of(table: Seq<(Seq<Seq<u8>>, int)>, path: Seq<Seq<u8>>)
    ensures
        0 <= index_of(table, path) <= table.len(),
        index_of(table, path) < table.len() ==> table[index_of(table, path)].0 == path,
        forall|j: int| 0 <= j < index_of(table, path) ==> (#[trigger] table[j]).0 != path,
    decreases table.len(),
{
    if table.len() > 0 {
        lemma_index_of(table.drop_last(), path);
        assert forall|j: int| 0 <= j < index_of(table, path) implies (#[trigger] table[j]).0
            != path by {
            if j < table.len() - 1 {
                assert(table.drop_last()[j] == table[j]);
            }
        }
    }
}

/// A size of a table with no negative size is no more than the sum of all.
pub proof fn lemma_weight_bounds(table: Seq<(Seq<Seq<u8>>, int)>, i: int)
    requires
        sizes_ok(table),
        0 <= i < table.len(),
    ensures
        table[i].1 <= weight(table),
        0 <= weight(table),
    decreases table.len(),
{
    lemma_weight_nonneg(table.drop_last());
    assert(0 <= table[table.len() - 1].1);
    if i < table.len() - 1 {
        assert(sizes_ok(table.drop_last())) by {
            assert forall|j: int| 0 <= j < table.drop_last().len() implies 0 <= (
            #[trigger] table.drop_last()[j]).1 by {
                assert(table.drop_last()[j] == table[j]);
            }
        }
        lemma_weight_bounds(table.drop_last(), i);
        assert(table.drop_last()[i] == table[i]);
    }
}

proof fn lemma_weight_nonneg(table: Seq<(Seq<Seq<u8>>, int)>)
    requires
        forall|i: int| 0 <= i < table.len() ==> 0 <= (#[trigger] table[i]).1,
    ensures
        0 <= weight(table),
    decreases table.len(),
{
    if table.len() > 0 {
        assert forall|j: int| 0 <= j < table.drop_last().len() implies 0 <= (
        #[trigger] table.drop_last()[j]).1 by {
            assert(table.drop_last()[j] == table[j]);
        }
        lemma_weight_nonneg(table.drop_last());
        assert(0 <= table[table.len() - 1].1);
    }
}

/// Changing one size changes the sum by as much.
proof fn lemma_weight_update(table: Seq<(Seq<Seq<u8>>, int)>, at: int, entry: (Seq<Seq<u8>>, int))
    requires
        0 <= at < table.len(),
    ensures
        weight(table.update(at, entry)) == weight(table) - table[at].1 + entry.1,
    decreases table.len(),
{
    let changed = table.update(at, entry);
    if at == table.len() - 1 {
        assert(changed.drop_last() =~= table.drop_last());
    } else {
        assert(changed.drop_last() =~= table.drop_last().update(at, entry));
        lemma_weight_update(table.drop_last(), at, entry);
    }
}

/// Adding to a directory adds as much to the sum, and keeps sizes from
/// being negative.
pub proof fn lemma_add_to(table: Seq<(Seq<Seq<u8>>, int)>, path: Seq<Seq<u8>>, amount: int)
    requires
        sizes_ok(table),
        0 <= amount,
    ensures
        weight(add_to(table, path, amount)) == weight(table) + amount,
        sizes_ok(add_to(table, path, amount)),
{
    lemma_index_of(table, path);
    let at = index_of(table, path);
    if at < table.len() {
        lemma_weight_update(table, at, (path, table[at].1 + amount));
        assert(0 <= table[at].1);
    } else {
        assert(table.push((path, amount)).drop_last() =~= table);
    }
}

/// Whether two paths are the same.
pub fn same_path(a: &[Vec<u8>], b: &[Vec<u8>]) -> (same: bool)
    ensures
        same == (rows(a@) == rows(b@)),
{
    if a.len() != b.len() {
        assert(rows(a@).len() != rows(b@).len());
        return false;
    }
    let mut i: usize = 0;
    while i < a.len()
        invariant
            i <= a.len(),
            a.len() == b.len(),
            forall|k: int| 0 <= k < i ==> a[k]@ == b[k]@,
        decreases a.len() - i,
    {
        if !same_bytes(a[i].as_slice(), b[i].as_slice()) {
            assert(rows(a@)[i as int] == a[i as int]@);
            assert(rows(b@)[i as int] == b[i as int]@);
            return false;
        }
        i += 1;
    }
    assert(rows(a@) =~= rows(b@));
    true
}

/// A copy of a path.
pub fn copy_path(path: &[Vec<u8>]) -> (copy: Vec<Vec<u8>>)
    ensures
        rows(copy@) == rows(path@),
{
    let mut copy: Vec<Vec<u8>> = Vec::new();
    let mut i: usize = 0;
    while i < path.len()
        invariant
            i <= path.len(),
            rows(copy@) == rows(path@).take(i as int),
        decreases path.len() - i,
    {
        let ghost before = rows(copy@);
        let name = path[i].clone();
        assert(name@ == path[i as int]@);
        copy.push(name);
        assert(rows(copy@) =~= before.push(path[i as int]@));
        assert(rows(copy@) =~= rows(path@).take(i as int + 1));
        i += 1;
    }
    assert(rows(path@).take(i as int) =~= rows(path@));
    copy
}

/// Finds the directory with the given path.
pub fn find_directory(table: &Vec<Directory>, path: &[Vec<u8>]) -> (at: usize)
    ensures
        at == index_of(table_of(table@), rows(path@)),
        at <= table.len(),
{
    let ghost t = table_of(table@);
    let mut at: usize = 0;
    let mut i: usize = 0;
    assert(t.take(0) =~= Seq::<(Seq<Seq<u8>>, int)>::empty());
    while i < table.len()
        invariant
            i <= table.len(),
            t == table_of(table@),
            at == index_of(t.take(i as int), rows(path@)),
            at <= i,
        decreases table.len() - i,
    {
        proof {
            assert(t.take(i as int + 1).drop_last() =~= t.take(i as int));
            assert(t.take(i as int + 1).last() == table[i as int]@);
        }
        if at == i && !same_path(table[i].path.as_slice(), path) {
            at = i + 1;
        }
        i += 1;
    }
    assert(t.take(i as int) =~= t);
    at
}

/// Adds `amount` to the directory with the given path.
pub fn add_size(table: &mut Vec<Directory>, path: &[Vec<u8>], amount: usize)
    requires
        sizes_ok(table_of(old(table)@)),
        weight(table_of(old(table)@)) + amount <= usize::MAX,
    ensures
        table_of(final(table)@) == add_to(table_of(old(table)@), rows(path@), amount as int),
{
    let ghost before = table_of(table@);
    let at = find_directory(table, path);
    proof {
        lemma_index_of(before, rows(path@));
    }
    if at < table.len() {
        proof {
            lemma_weight_bounds(before, at as int);
            assert(before[at as int] == table[at as int]@);
        }
        table[at].size = table[at].size + amount;
        assert(table_of(table@) =~= add_to(before, rows(path@), amount as int));
    } else {
        table.push(Directory { path: copy_path(path), size: amount });
        assert(table_of(table@) =~= add_to(before, rows(path@), amount as int));
    }
}

/// The sum of the sizes of the files of a listing.
pub fn listing_total(contents: &Vec<ListObject>) -> (total: usize)
    requires
        listed(items(contents@)) <= usize::MAX,
    ensures
        total == listed(items(contents@)),
{
    let ghost all = items(contents@);
    let mut total: usize = 0;
    let mut i: usize = 0;
    assert(all.take(0) =~= Seq::<Item>::empty());
    while i < contents.len()
        invariant
            i <= contents.len(),
            all == items(contents@),
            listed(all) <= usize::MAX,
            total == listed(all.take(i as int)),
        decreases contents.len() - i,
    {
        proof {
            assert(all.take(i as int + 1).drop_last() =~= all.take(i as int));
            assert(all.take(i as int + 1).last() == contents[i as int]@);
            lemma_listed_prefix(all, i as int + 1);
        }
        total = total + contents[i].size();
        i += 1;
    }
    assert(all.take(i as int) =~= all);
    total
}

proof fn lemma_listed_prefix(listing: Seq<Item>, n: int)
    requires
        0 <= n <= listing.len(),
        forall|i: int| 0 <= i < listing.len() ==> 0 <= item_size(#[trigger] listing[i]),
    ensures
        0 <= listed(listing.take(n)) <= listed(listing),
    decreases listing.len() - n,
{
    if n < listing.len() {
        lemma_listed_prefix(listing, n + 1);
        assert(listing.take(n + 1).drop_last() =~= listing.take(n));
        assert(listing.take(n + 1).last() == listing[n]);
    } else {
        assert(listing.take(n) =~= listing);
    }
    lemma_listed_bottom(listing.take(n));
}

proof fn lemma_listed_bottom(listing: Seq<Item>)
    requires
        forall|i: int| 0 <= i < listing.len() ==> 0 <= item_size(#[trigger] listing[i]),
    ensures
        0 <= listed(listing),
    decreases listing.len(),
{
    if listing.len() > 0 {
        assert forall|i: int| 0 <= i < listing.drop_last().len() implies 0 <= item_size(
            #[trigger] listing.drop_last()[i],
        ) by {
            assert(listing.drop_last()[i] == listing[i]);
        }
        lemma_listed_bottom(listing.drop_last());
        assert(0 <= item_size(listing[listing.len() - 1]));
    }
}

/// Charging `n` directories adds `n` times the amount to the sum.
pub proof fn lemma_charge(table: Seq<(Seq<Seq<u8>>, int)>, cwd: Seq<Seq<u8>>, amount: int, n: int)
    requires
        sizes_ok(table),
        0 <= amount,
        0 <= n,
    ensures
        weight(charge(table, cwd, amount, n)) == weight(table) + n * amount,
        sizes_ok(charge(table, cwd, amount, n)),
    decreases n,
{
    if n > 0 {
        lemma_charge(table, cwd, amount, n - 1);
        lemma_add_to(charge(table, cwd, amount, n - 1), cwd.take(n - 1), amount);
        assert(n * amount == (n - 1) * amount + amount) by (nonlinear_arith);
    } else {
        assert(n * amount == 0) by (nonlinear_arith)
            requires
                n == 0,
        ;
    }
}

/// Whether the sum of the sizes of the table fits `usize` after every
/// command of the session.
pub open spec fn fits(session: Seq<Order>) -> bool {
    forall|n: int|
        0 <= n <= session.len() ==> weight(#[trigger] sizes_after(session.take(n))) <= usize::MAX
}

/// No size is negative in the table of a session whose sizes are none.
pub proof fn lemma_sizes_after(session: Seq<Order>)
    requires
        forall|i: int|
            0 <= i < session.len() ==> (#[trigger] session[i] matches Order::Ls(listing)
                ==> 0 <= listed(listing)),
    ensures
        sizes_ok(sizes_after(session)),
    decreases session.len(),
{
    if session.len() > 0 {
        assert forall|i: int| 0 <= i < session.drop_last().len() implies (
        #[trigger] session.drop_last()[i] matches Order::Ls(listing) ==> 0 <= listed(listing)) by {
            assert(session.drop_last()[i] == session[i]);
        }
        lemma_sizes_after(session.drop_last());
        match session.last() {
            Order::Cd(_) => {},
            Order::Ls(listing) => {
                assert(session[session.len() - 1] == session.last());
                let cwd = cwd_after(session.drop_last());
                lemma_charge(
                    sizes_after(session.drop_last()),
                    cwd,
                    listed(listing),
                    cwd.len() as int + 1,
                );
            },
        }
    }
}

/// No listing of commands that were read has a negative sum.
pub proof fn lemma_orders_listed(commands: Seq<Command>)
    ensures
        forall|i: int|
            0 <= i < commands.len() ==> (#[trigger] orders(commands)[i] matches Order::Ls(
                listing,
            ) ==> 0 <= listed(listing)),
{
    assert forall|i: int| 0 <= i < commands.len() implies (
    #[trigger] orders(commands)[i] matches Order::Ls(listing) ==> 0 <= listed(listing)) by {
        match commands[i] {
            Command::CD(_) => {},
            Command::LS(contents) => {
                lemma_listed_bottom(items(contents@));
            },
        }
    }
}

/// The table of the directories of the session, in the order in which they
/// were first listed.
pub fn build_sizes(commands: &Vec<Command>) -> (table: Vec<Directory>)
    requires
        fits(orders(commands@)),
    ensures
        table_of(table@) == sizes_after(orders(commands@)),
{
    let ghost session = orders(commands@);
    let mut cwd: Vec<Vec<u8>> = Vec::new();
    let mut result: Vec<Directory> = Vec::new();
    let mut i: usize = 0;
    proof {
        assert(session.take(0) =~= Seq::<Order>::empty());
        assert(rows(cwd@) =~= cwd_after(session.take(0)));
        assert(table_of(result@) =~= sizes_after(session.take(0)));
    }
    while i < commands.len()
        invariant
            i <= commands.len(),
            session == orders(commands@),
            fits(session),
            cwd.len() <= i,
            rows(cwd@) == cwd_after(session.take(i as int)),
            table_of(result@) == sizes_after(session.take(i as int)),
            sizes_ok(table_of(result@)),
        decreases commands.len() - i,
    {
        let ghost done = session.take(i as int);
        let ghost next = session.take(i as int + 1);
        proof {
            assert(next.drop_last() =~= done);
            assert(next.last() == commands[i as int]@);
            assert(weight(sizes_after(session.take(i as int + 1))) <= usize::MAX);
        }
        match &commands[i] {
            Command::CD(path) => {
                let root: [u8; 1] = [47];
                let up: [u8; 2] = [46, 46];
                assert(root@ =~= word_root());
                assert(up@ =~= word_up());
                let ghost before = rows(cwd@);
                if same_bytes(path.as_slice(), root.as_slice()) {
                    cwd.clear();
                    assert(rows(cwd@) =~= Seq::<Seq<u8>>::empty());
                } else if same_bytes(path.as_slice(), up.as_slice()) {
                    cwd.pop();
                    proof {
                        if before.len() > 0 {
                            assert(rows(cwd@) =~= before.drop_last());
                        } else {
                            assert(rows(cwd@) =~= before);
                        }
                    }
                } else {
                    cwd.push(path.clone());
                    assert(rows(cwd@) =~= before.push(path@));
                }
            },
            Command::LS(contents) => {
                let ghost before = table_of(result@);
                let ghost at = rows(cwd@);
                let ghost amount = listed(items(contents@));
                proof {
                    lemma_listed_bottom(items(contents@));
                    lemma_charge(before, at, amount, at.len() as int + 1);
                    lemma_weight_nonneg(before);
                    assert((at.len() as int + 1) * amount >= amount) by (nonlinear_arith)
                        requires
                            amount >= 0,
                            at.len() >= 0,
                    ;
                }
                // the size of all files in this directory
                let total = listing_total(contents);
                // is added to each directory up the tree
                let mut j: usize = 0;
                while j < cwd.len() + 1
                    invariant
                        j <= cwd.len() + 1,
                        cwd.len() < usize::MAX,
                        at == rows(cwd@),
                        sizes_ok(before),
                        total == amount,
                        weight(before) + (at.len() + 1) * amount <= usize::MAX,
                        table_of(result@) == charge(before, at, amount, j as int),
                    decreases cwd.len() + 1 - j,
                {
                    proof {
                        lemma_charge(before, at, amount, j as int);
                        assert((j + 1) * amount <= (at.len() + 1) * amount) by (nonlinear_arith)
                            requires
                                0 <= amount,
                                j + 1 <= at.len() + 1,
                        ;
                        assert((j + 1) * amount == j * amount + amount) by (nonlinear_arith);
                    }
                    let prefix = slice_subrange(cwd.as_slice(), 0, j);
                    assert(rows(prefix@) =~= at.take(j as int));
                    add_size(&mut result, prefix, total);
                    j += 1;
                }
                proof {
                    lemma_charge(before, at, amount, at.len() as int + 1);
                }
            },
        }
        i += 1;
    }
    assert(session.take(i as int) =~= session);
    result
}

/// The sum of the sizes that are no more than `limit`.
pub open spec fn small_sum(table: Seq<(Seq<Seq<u8>>, int)>, limit: int) -> int
    decreases table.len(),
{
    if table.len() == 0 {
        0
    } else {
        small_sum(table.drop_last(), limit) + if table.last().1 <= limit {
            table.last().1
        } else {
            0
        }
    }
}

/// The size of the root directory, or 0 where the table does not have it.
pub open spec fn root_size(table: Seq<(Seq<Seq<u8>>, int)>) -> int {
    let at = index_of(table, Seq::empty());
    if 0 <= at < table.len() {
        table[at].1
    } else {
        0
    }
}

pub const SMALL: usize = 100_000;

pub const DISK: usize = 70_000_000;

pub const UPDATE: usize = 30_000_000;

/// The sum of the sizes of the directories of at most `SMALL`.
pub fn part1(input: &Vec<Command>) -> (sum: usize)
    requires
        fits(orders(input@)),
    ensures
        sum == small_sum(sizes_after(orders(input@)), SMALL as int),
{
    let sizes = build_sizes(input);
    let ghost t = table_of(sizes@);
    proof {
        lemma_orders_listed(input@);
        lemma_sizes_after(orders(input@));
        assert(orders(input@).take(input.len() as int) =~= orders(input@));
        assert(t.take(0) =~= Seq::<(Seq<Seq<u8>>, int)>::empty());
    }
    let mut sum: usize = 0;
    let mut i: usize = 0;
    while i < sizes.len()
        invariant
            i <= sizes.len(),
            t == table_of(sizes@),
            sizes_ok(t),
            weight(t) <= usize::MAX,
            sum == small_sum(t.take(i as int), SMALL as int),
            sum <= weight(t.take(i as int)),
        decreases sizes.len() - i,
    {
        proof {
            assert(t.take(i as int + 1).drop_last() =~= t.take(i as int));
            assert(t.take(i as int + 1).last() == sizes[i as int]@);
            lemma_weight_prefix(t, i as int + 1);
            assert(0 <= t[i as int].1);
        }
        if sizes[i].size <= SMALL {
            sum = sum + sizes[i].size;
        }
        i += 1;
    }
    assert(t.take(i as int) =~= t);
    sum
}

proof fn lemma_weight_prefix(table: Seq<(Seq<Seq<u8>>, int)>, n: int)
    requires
        sizes_ok(table),
        0 <= n <= table.len(),
    ensures
        weight(table.take(n)) <= weight(table),
    decreases table.len() - n,
{
    if n < table.len() {
        lemma_weight_prefix(table, n + 1);
        assert(table.take(n + 1).drop_last() =~= table.take(n));
        assert(table.take(n + 1).last() == table[n]);
        assert(0 <= table[n].1);
    } else {
        assert(table.take(n) =~= table);
    }
}

/// The size of the smallest directory whose removal leaves `UPDATE` free on
/// a disk of `DISK`.
pub fn part2(input: &Vec<Command>) -> (size: usize)
    requires
        fits(orders(input@)),
        root_size(sizes_after(orders(input@))) + UPDATE >= DISK,
        root_size(sizes_after(orders(input@))) + UPDATE <= usize::MAX,
    ensures
        size + DISK >= root_size(sizes_after(orders(input@))) + UPDATE,
        exists|i: int|
            0 <= i < sizes_after(orders(input@)).len() && (#[trigger] sizes_after(
                orders(input@),
            )[i]).1 == size,
        forall|i: int|
            0 <= i < sizes_after(orders(input@)).len() && (#[trigger] sizes_after(
                orders(input@),
            )[i]).1 + DISK >= root_size(sizes_after(orders(input@))) + UPDATE ==> size
                <= sizes_after(orders(input@))[i].1,
{
    let sizes = build_sizes(input);
    let ghost t = table_of(sizes@);
    let none: Vec<Vec<u8>> = Vec::new();
    assert(rows(none@) =~= Seq::<Seq<u8>>::empty());
    let root_at = find_directory(&sizes, none.as_slice());
    proof {
        lemma_index_of(t, Seq::empty());
        if root_at < sizes.len() {
            assert(t[root_at as int] == sizes[root_at as int]@);
        }
    }
    assert(root_at < sizes.len());
    let root = sizes[root_at].size;
    let needed = (root + UPDATE) - DISK;
    let mut best: usize = root;
    let mut i: usize = 0;
    while i < sizes.len()
        invariant
            i <= sizes.len(),
            t == table_of(sizes@),
            needed <= best,
            exists|k: int| 0 <= k < t.len() && (#[trigger] t[k]).1 == best,
            forall|k: int| 0 <= k < i && (#[trigger] t[k]).1 >= needed ==> best <= t[k].1,
        decreases sizes.len() - i,
    {
        assert(t[i as int] == sizes[i as int]@);
        if sizes[i].size >= needed && sizes[i].size < best {
            best = sizes[i].size;
        }
        i += 1;
    }
    best
}

} // verus!
