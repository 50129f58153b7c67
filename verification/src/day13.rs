//! Packets: nested lists of numbers, their order, and where marker packets
//! stand among them.
use crate::text::{lines, lines_of, rows};
use std::cmp::Ordering;
use vstd::prelude::*;
use vstd::string::StringSliceAdditionalSpecFns;

verus! {

/// A packet: a number, or a list of packets.
#[derive(Debug)]
pub enum List {
    Int(i64),
    List(Vec<List>),
}

/// A packet as the rules see it.
pub enum Tree {
    Leaf(int),
    Node(Seq<Tree>),
}

/// The packets of a vector as the rules see them.
pub open spec fn trees(items: Seq<List>) -> Seq<Tree> {
    Seq::new(items.len(), |i: int| items[i].tree())
}

impl List {
    /// The packet as the rules see it.
    pub open spec fn tree(&self) -> Tree
        decreases self,
    {
        match self {
            List::Int(v) => Tree::Leaf(*v as int),
            List::List(items) => Tree::Node(
                Seq::new(
                    items.len() as nat,
                    |i: int|
                        if 0 <= i < items.len() {
                            items[i].tree()
                        } else {
                            Tree::Leaf(0)
                        },
                ),
            ),
        }
    }

    /// The children of a list are the trees of its items.
    pub proof fn lemma_tree(&self)
        ensures
            self matches List::List(items) ==> self.tree() == Tree::Node(trees(items@)),
    {
        match self {
            List::Int(_) => {},
            List::List(items) => {
                assert(self.tree()->Node_0 =~= trees(items@));
            },
        }
    }
}

/// The order of two packets: -1 where the first comes before the second, 1
/// where it comes after, 0 where neither does. Numbers are in their usual
/// order; lists are compared item by item, and where one is the start of
/// the other the shorter comes first; a number beside a list stands for the
/// list of this one number.
pub open spec fn order(a: Tree, b: Tree) -> int
    decreases a, b, 0nat,
{
    match (a, b) {
        (Tree::Leaf(l), Tree::Leaf(r)) => if l < r {
            -1
        } else if l > r {
            1
        } else {
            0
        },
        (Tree::Node(l), Tree::Node(r)) => order_from(l, r, 0),
        (Tree::Leaf(_), Tree::Node(r)) => if r.len() == 0 {
            1
        } else if order(a, r[0]) != 0 {
            order(a, r[0])
        } else if r.len() > 1 {
            -1
        } else {
            0
        },
        (Tree::Node(l), Tree::Leaf(_)) => if l.len() == 0 {
            -1
        } else if order(l[0], b) != 0 {
            order(l[0], b)
        } else if l.len() > 1 {
            1
        } else {
            0
        },
    }
}

/// The order of two lists when the items before place `from` do not decide
/// it.
pub open spec fn order_from(l: Seq<Tree>, r: Seq<Tree>, from: nat) -> int
    decreases l, r, l.len() - from,
{
    if from >= l.len() && from >= r.len() {
        0
    } else if from >= l.len() {
        -1
    } else if from >= r.len() {
        1
    } else if order(l[from as int], r[from as int]) != 0 {
        order(l[from as int], r[from as int])
    } else {
        order_from(l, r, from + 1)
    }
}

/// `order_from` for a place that a program holds.
pub open spec fn order_at(l: Seq<Tree>, r: Seq<Tree>, from: usize) -> int {
    order_from(l, r, from as nat)
}

/// A number beside a list is compared as the list of this one number.
pub proof fn lemma_number_as_list(v: int, r: Seq<Tree>)
    ensures
        order(Tree::Leaf(v), Tree::Node(r)) == order_from(seq![Tree::Leaf(v)], r, 0),
        order(Tree::Node(r), Tree::Leaf(v)) == order_from(r, seq![Tree::Leaf(v)], 0),
{
    let one = seq![Tree::Leaf(v)];
    assert(one[0] == Tree::Leaf(v));
    if r.len() > 0 {
        assert(order_from(one, r, 1) == if r.len() > 1 {
            -1int
        } else {
            0int
        });
        assert(order_from(r, one, 1) == if r.len() > 1 {
            1int
        } else {
            0int
        });
    }
}

/// The number of an ordering: -1, 0 or 1.
pub open spec fn sense(o: Ordering) -> int {
    match o {
        Ordering::Less => -1,
        Ordering::Equal => 0,
        Ordering::Greater => 1,
    }
}

impl List {
    /// The order of two packets.
    pub fn cmp(&self, other: &List) -> (o: Ordering)
        ensures
            sense(o) == order(self.tree(), other.tree()),
        decreases self, other, 0nat,
    {
        proof {
            self.lemma_tree();
            other.lemma_tree();
        }
        match (self, other) {
            (List::Int(l), List::Int(r)) => {
                if *l < *r {
                    Ordering::Less
                } else if *l > *r {
                    Ordering::Greater
                } else {
                    Ordering::Equal
                }
            },
            (List::List(l), List::List(r)) => List::list_cmp(l, r, 0),
            (List::Int(_), List::List(r)) => {
                if r.len() == 0 {
                    Ordering::Greater
                } else {
                    match self.cmp(&r[0]) {
                        Ordering::Equal => if r.len() > 1 {
                            Ordering::Less
                        } else {
                            Ordering::Equal
                        },
                        result => result,
                    }
                }
            },
            (List::List(l), List::Int(_)) => {
                if l.len() == 0 {
                    Ordering::Less
                } else {
                    match l[0].cmp(other) {
                        Ordering::Equal => if l.len() > 1 {
                            Ordering::Greater
                        } else {
                            Ordering::Equal
                        },
                        result => result,
                    }
                }
            },
        }
    }

    /// The order of two lists when the items before place `from` do not
    /// decide it.
    pub fn list_cmp(left: &Vec<List>, right: &Vec<List>, from: usize) -> (o: Ordering)
        ensures
            sense(o) == order_at(trees(left@), trees(right@), from),
        decreases left, right, left.len() - from,
    {
        if from >= left.len() && from >= right.len() {
            return Ordering::Equal;
        }
        if from >= left.len() {
            return Ordering::Less;
        }
        if from >= right.len() {
            return Ordering::Greater;
        }
        match left[from].cmp(&right[from]) {
            Ordering::Equal => List::list_cmp(left, right, from + 1),
            result => result,
        }
    }
}

pub const OPEN: u8 = 91;

pub const CLOSE: u8 = 93;

pub const COMMA: u8 = 44;

/// Whether a character is a decimal digit.
pub open spec fn is_digit(b: u8) -> bool {
    48 <= b <= 57
}

/// The number that the digits from place `pos` on write after the digits
/// before them wrote `so_far`, and the place after the last digit; `None`
/// where the number does not fit `i64`.
pub open spec fn number_at(s: Seq<u8>, pos: int, so_far: int) -> Option<(int, int)>
    decreases s.len() - pos,
{
    if 0 <= pos < s.len() && is_digit(s[pos]) {
        if so_far * 10 + (s[pos] - 48) <= i64::MAX {
            number_at(s, pos + 1, so_far * 10 + (s[pos] - 48))
        } else {
            None
        }
    } else {
        Some((so_far, pos))
    }
}

/// The packet that is written from place `pos` on, and the place after it:
/// digits write a number, and a bracket opens a list. `None` where neither
/// stands at `pos`, or the list is not closed.
pub open spec fn item_at(s: Seq<u8>, pos: int) -> Option<(Tree, int)>
    decreases s.len() - pos, 1nat,
{
    if pos < 0 || pos >= s.len() {
        None
    } else if is_digit(s[pos]) {
        match number_at(s, pos, 0) {
            Some((value, end)) => Some((Tree::Leaf(value), end)),
            None => None,
        }
    } else if s[pos] == OPEN {
        match items_at(s, pos + 1) {
            Some((items, end)) => Some((Tree::Node(items), end)),
            None => None,
        }
    } else {
        None
    }
}

/// The items of a list that are written from place `pos` on, up to the
/// bracket that closes the list, and the place after that bracket. Commas
/// between the items are passed over.
pub open spec fn items_at(s: Seq<u8>, pos: int) -> Option<(Seq<Tree>, int)>
    decreases s.len() - pos, 2nat,
{
    if pos < 0 || pos >= s.len() {
        None
    } else if s[pos] == CLOSE {
        Some((Seq::empty(), pos + 1))
    } else if s[pos] == COMMA {
        items_at(s, pos + 1)
    } else {
        match item_at(s, pos) {
            Some((first, next)) => if pos < next <= s.len() {
                match items_at(s, next) {
                    Some((rest, end)) => Some((seq![first] + rest, end)),
                    None => None,
                }
            } else {
                None
            },
            None => None,
        }
    }
}

/// The packet that a line writes at its start.
pub open spec fn packet_of(line: Seq<u8>) -> Option<Tree> {
    match item_at(line, 0) {
        Some((t, _)) => Some(t),
        None => None,
    }
}

/// The numbers end where the digits end.
pub proof fn lemma_number_at(s: Seq<u8>, pos: int, so_far: int)
    requires
        0 <= pos <= s.len(),
        0 <= so_far <= i64::MAX,
    ensures
        number_at(s, pos, so_far) matches Some((value, end)) ==> pos <= end <= s.len() && 0
            <= value <= i64::MAX && (pos < s.len() && is_digit(s[pos]) ==> pos < end),
    decreases s.len() - pos,
{
    if pos < s.len() && is_digit(s[pos]) {
        if so_far * 10 + (s[pos] - 48) <= i64::MAX {
            lemma_number_at(s, pos + 1, so_far * 10 + (s[pos] - 48));
        }
    }
}

impl List {
    /// What a digit counts.
    pub fn parse_digit(b: u8) -> (d: i64)
        requires
            is_digit(b),
        ensures
            d == b - 48,
    {
        (b - 48) as i64
    }

    /// Reads the digits from place `pos` on.
    pub fn parse_num(s: &[u8], pos: usize) -> (r: Option<(i64, usize)>)
        requires
            pos <= s.len(),
        ensures
            r.is_some() == number_at(s@, pos as int, 0).is_some(),
            r matches Some((value, end)) ==> number_at(s@, pos as int, 0) == Some(
                (value as int, end as int),
            ) && pos <= end <= s.len() && (pos < s.len() && is_digit(s[pos as int]) ==> pos
                < end),
    {
        let mut num: i64 = 0;
        let mut at: usize = pos;
        proof {
            lemma_number_at(s@, pos as int, 0);
        }
        while at < s.len() && 48 <= s[at] && s[at] <= 57
            invariant
                pos <= at <= s.len(),
                0 <= num,
                number_at(s@, pos as int, 0) == number_at(s@, at as int, num as int),
                pos < s.len() && is_digit(s[pos as int]) && at == pos ==> num == 0,
            decreases s.len() - at,
        {
            let d = List::parse_digit(s[at]);
            if num > (i64::MAX - d) / 10 {
                return None;
            }
            num = num * 10 + d;
            at += 1;
        }
        Some((num, at))
    }

    /// Reads a packet from place `pos` on.
    pub fn parse_from(s: &[u8], pos: usize) -> (r: Option<(List, usize)>)
        ensures
            r.is_some() == item_at(s@, pos as int).is_some(),
            r matches Some((packet, end)) ==> item_at(s@, pos as int) == Some(
                (packet.tree(), end as int),
            ) && pos < end <= s.len(),
        decreases s.len() - pos, 1nat,
    {
        if pos >= s.len() {
            return None;
        }
        if 48 <= s[pos] && s[pos] <= 57 {
            match List::parse_num(s, pos) {
                Some((value, end)) => Some((List::Int(value), end)),
                None => None,
            }
        } else if s[pos] == OPEN {
            match List::parse_list(s, pos + 1) {
                Some((items, end)) => {
                    let packet = List::List(items);
                    proof {
                        packet.lemma_tree();
                    }
                    Some((packet, end))
                },
                None => None,
            }
        } else {
            None
        }
    }

    /// Reads the items of a list from place `pos` on, which is the place
    /// after the bracket that opens the list.
    pub fn parse_list(s: &[u8], pos: usize) -> (r: Option<(Vec<List>, usize)>)
        ensures
            r.is_some() == items_at(s@, pos as int).is_some(),
            r matches Some((items, end)) ==> items_at(s@, pos as int) == Some(
                (trees(items@), end as int),
            ) && pos < end <= s.len(),
        decreases s.len() - pos, 2nat,
    {
        if pos >= s.len() {
            return None;
        }
        if s[pos] == CLOSE {
            let none: Vec<List> = Vec::new();
            assert(trees(none@) =~= Seq::<Tree>::empty());
            return Some((none, pos + 1));
        }
        if s[pos] == COMMA {
            return List::parse_list(s, pos + 1);
        }
        match List::parse_from(s, pos) {
            Some((first, next)) => {
                match List::parse_list(s, next) {
                    Some((rest, end)) => {
                        let ghost head = first.tree();
                        let ghost tail_trees = trees(rest@);
                        let mut list: Vec<List> = Vec::new();
                        list.push(first);
                        let mut rest = rest;
                        list.append(&mut rest);
                        assert(trees(list@) =~= seq![head] + tail_trees);
                        Some((list, end))
                    },
                    None => None,
                }
            },
            None => None,
        }
    }
}

/// The packets that lines write, empty lines left out; `None` where a line
/// that is not empty writes no packet.
pub open spec fn packets_in(ls: Seq<Seq<u8>>) -> Option<Seq<Tree>>
    decreases ls.len(),
{
    if ls.len() == 0 {
        Some(Seq::empty())
    } else {
        match packets_in(ls.drop_last()) {
            Some(before) => if ls.last().len() == 0 {
                Some(before)
            } else {
                match packet_of(ls.last()) {
                    Some(t) => Some(before.push(t)),
                    None => None,
                }
            },
            None => None,
        }
    }
}

/// If some first lines write no packets, neither do all.
pub proof fn lemma_packets_in_prefix(ls: Seq<Seq<u8>>, n: int)
    requires
        0 <= n <= ls.len(),
        packets_in(ls.take(n)).is_none(),
    ensures
        packets_in(ls).is_none(),
    decreases ls.len() - n,
{
    if n < ls.len() {
        assert(ls.take(n + 1).drop_last() =~= ls.take(n));
        lemma_packets_in_prefix(ls, n + 1);
    } else {
        assert(ls.take(n) =~= ls);
    }
}

impl List {
    /// Reads the packet at the start of a line; `None` where there is none.
    pub fn read(line: &[u8]) -> (r: Option<List>)
        ensures
            r.is_some() == packet_of(line@).is_some(),
            r matches Some(packet) ==> packet_of(line@) == Some(packet.tree()),
    {
        match List::parse_from(line, 0) {
            Some((packet, _)) => Some(packet),
            None => None,
        }
    }

    /// The packet at the start of a line.
    pub fn parse(line: &str) -> (packet: List)
        requires
            packet_of(line.spec_bytes()).is_some(),
        ensures
            packet_of(line.spec_bytes()) == Some(packet.tree()),
    {
        List::read(line.as_bytes()).unwrap()
    }
}

/// The packets of the text, one from each line that is not empty; `None`
/// where such a line writes no packet.
pub fn parse(input: &str) -> (r: Option<Vec<List>>)
    ensures
        r.is_some() == packets_in(lines_of(input.spec_bytes())).is_some(),
        r matches Some(packets) ==> packets_in(lines_of(input.spec_bytes())) == Some(
            trees(packets@),
        ),
{
    let all = lines(input.as_bytes());
    let ghost ls = lines_of(input.spec_bytes());
    let mut packets: Vec<List> = Vec::new();
    let mut i: usize = 0;
    assert(ls.take(0) =~= Seq::<Seq<u8>>::empty());
    assert(trees(packets@) =~= Seq::<Tree>::empty());
    while i < all.len()
        invariant
            i <= all.len(),
            rows(all@) == ls,
            ls == lines_of(input.spec_bytes()),
            packets_in(ls.take(i as int)) == Some(trees(packets@)),
        decreases all.len() - i,
    {
        proof {
            assert(rows(all@)[i as int] == all[i as int]@);
            assert(ls.take(i as int + 1).drop_last() =~= ls.take(i as int));
            assert(ls.take(i as int + 1).last() == all[i as int]@);
        }
        if all[i].len() > 0 {
            match List::read(all[i].as_slice()) {
                Some(packet) => {
                    let ghost before = trees(packets@);
                    let ghost t = packet.tree();
                    packets.push(packet);
                    assert(trees(packets@) =~= before.push(t));
                },
                None => {
                    proof {
                        lemma_packets_in_prefix(ls, i as int + 1);
                    }
                    return None;
                },
            }
        }
        i += 1;
    }
    assert(ls.take(i as int) =~= ls);
    Some(packets)
}

/// The packets of the text, one from each line that is not empty.
pub fn generator(input: &str) -> (packets: Vec<List>)
    requires
        packets_in(lines_of(input.spec_bytes())).is_some(),
    ensures
        packets_in(lines_of(input.spec_bytes())) == Some(trees(packets@)),
{
    parse(input).unwrap()
}

/// Over the first `pairs` pairs of packets, the sum of the numbers of the
/// pairs whose first packet comes before the second; pairs are numbered
/// from 1.
pub open spec fn pair_sum(ts: Seq<Tree>, pairs: usize) -> int
    decreases pairs,
{
    if pairs == 0 {
        0
    } else {
        pair_sum(ts, (pairs - 1) as usize) + if order(ts[2 * pairs - 2], ts[2 * pairs - 1]) < 0 {
            pairs as int
        } else {
            0
        }
    }
}

/// The sum of `pair_sum` over all pairs of a list.
pub open spec fn pair_total(input: Seq<List>) -> int {
    pair_sum(trees(input), (input.len() / 2) as usize)
}

/// The number of packets among the first `n` that come before `t`.
pub open spec fn count_before(ts: Seq<Tree>, t: Tree, n: usize) -> int
    decreases n,
{
    if n == 0 {
        0
    } else {
        count_before(ts, t, (n - 1) as usize) + if order(ts[n - 1], t) < 0 {
            1int
        } else {
            0int
        }
    }
}

/// The marker packet with the number `v`: a list of a list of `v`.
pub open spec fn divider(v: int) -> Tree {
    Tree::Node(seq![Tree::Node(seq![Tree::Leaf(v)])])
}

/// The place, counted from 1, at which the first marker and then the second
/// marker stand when they and the packets are put in order: one more than
/// the packets before the first, two more than those before the second.
pub open spec fn marker_product(input: Seq<List>) -> int {
    (count_before(trees(input), divider(2), input.len() as usize) + 1) * (count_before(
        trees(input),
        divider(6),
        input.len() as usize,
    ) + 2)
}

/// The most packets that the two parts take.
pub const MAX_PACKETS: usize = 0xfffe;

/// A marker packet.
pub fn make_divider(v: i64) -> (packet: List)
    ensures
        packet.tree() == divider(v as int),
{
    let mut inner: Vec<List> = Vec::new();
    inner.push(List::Int(v));
    let ghost leaves = trees(inner@);
    assert(leaves =~= seq![Tree::Leaf(v as int)]);
    let middle = List::List(inner);
    let ghost middle_tree = middle.tree();
    proof {
        middle.lemma_tree();
    }
    let mut outer: Vec<List> = Vec::new();
    outer.push(middle);
    assert(trees(outer@) =~= seq![middle_tree]);
    let packet = List::List(outer);
    proof {
        packet.lemma_tree();
    }
    packet
}

/// The sum of the numbers of the pairs of packets that are in order.
pub fn part1(input: &Vec<List>) -> (sum: usize)
    requires
        input.len() % 2 == 0,
        input.len() <= MAX_PACKETS,
    ensures
        sum == pair_total(input@),
{
    let ghost ts = trees(input@);
    let mut sum: usize = 0;
    let mut pairs: usize = 0;
    while 2 * pairs < input.len()
        invariant
            2 * pairs <= input.len() <= MAX_PACKETS,
            input.len() % 2 == 0,
            ts == trees(input@),
            sum == pair_sum(ts, pairs),
            sum <= pairs * pairs + pairs,
        decreases input.len() - 2 * pairs,
    {
        let first = &input[2 * pairs];
        let second = &input[2 * pairs + 1];
        pairs = pairs + 1;
        proof {
            assert(ts[2 * pairs - 2] == first.tree());
            assert(ts[2 * pairs - 1] == second.tree());
            assert(pairs * pairs + pairs == (pairs - 1) * (pairs - 1) + (pairs - 1) + 2 * pairs)
                by (nonlinear_arith);
            assert(pairs * pairs + pairs <= 0x8000 * 0x8000 + 0x8000) by (nonlinear_arith)
                requires
                    0 <= pairs <= 0x8000,
            ;
        }
        match first.cmp(second) {
            Ordering::Less => {
                sum = sum + pairs;
            },
            _ => {},
        }
    }
    sum
}

/// The product of the places at which the two marker packets stand when
/// they and the packets are put in order.
pub fn part2(input: &Vec<List>) -> (product: usize)
    requires
        input.len() <= MAX_PACKETS,
    ensures
        product == marker_product(input@),
{
    let ghost ts = trees(input@);
    let two = make_divider(2);
    let six = make_divider(6);
    let mut before_two: usize = 0;
    let mut before_six: usize = 0;
    let mut i: usize = 0;
    while i < input.len()
        invariant
            i <= input.len() <= MAX_PACKETS,
            ts == trees(input@),
            two.tree() == divider(2),
            six.tree() == divider(6),
            before_two == count_before(ts, divider(2), i),
            before_six == count_before(ts, divider(6), i),
            before_two <= i,
            before_six <= i,
        decreases input.len() - i,
    {
        let packet = &input[i];
        assert(ts[i + 1 - 1] == packet.tree());
        match packet.cmp(&two) {
            Ordering::Less => {
                before_two = before_two + 1;
            },
            _ => {},
        }
        match packet.cmp(&six) {
            Ordering::Less => {
                before_six = before_six + 1;
            },
            _ => {},
        }
        i += 1;
    }
    assert((before_two + 1) * (before_six + 2) <= 0xffff * 0x10000) by (nonlinear_arith)
        requires
            before_two <= 0xfffe,
            before_six <= 0xfffe,
    ;
    (before_two + 1) * (before_six + 2)
}

} // verus!
