//! Mixing a file of numbers: the numbers stand in a ring, kept as a linked
//! list in a vector, and each in turn is moved along the ring by as many
//! places as its value says.
use crate::remainder::lemma_wrapped;
use crate::sorting::{ascending, sorted};
use crate::text::{lines, lines_of, parse_signed, rows, signed_of};
use vstd::prelude::*;
use vstd::string::StringSliceAdditionalSpecFns;

verus! {

pub type Num = i64;

/// A place in the ring: its number, and the places after and before it.
#[derive(Clone, Copy, Debug)]
pub struct DoubleLinkedListNode {
    pub value: Num,
    pub next: usize,
    pub prev: usize,
}

/// The ring. `start` is the place that was entered first, `zero` the place
/// of the number 0 that was entered last.
#[derive(Debug)]
pub struct DoubleLinkedList {
    pub data: Vec<DoubleLinkedListNode>,
    pub start: usize,
    pub zero: Option<usize>,
}

pub const DECRYPTION_KEY: Num = 811589153;

pub const ITERATIONS: usize = 10;

/// The largest number that the first part takes.
pub const PLAIN_LIMIT: Num = 0x2000_0000_0000_0000;

/// The largest number that the second part takes.
pub const KEYED_LIMIT: Num = 0x8000_0000;

/// The number that a line writes, where it writes one that fits `Num`.
pub open spec fn number_of(line: Seq<u8>) -> Option<Num> {
    match signed_of(line) {
        Some(v) => if Num::MIN <= v <= Num::MAX {
            Some(v as Num)
        } else {
            None
        },
        None => None,
    }
}

/// Whether every line of the text writes a number.
pub open spec fn well_formed(text: Seq<u8>) -> bool {
    forall|i: int|
        0 <= i < lines_of(text).len() ==> number_of(#[trigger] lines_of(text)[i]).is_some()
}

/// Whether `numbers` are the numbers that the lines of the text write.
pub open spec fn text_says(text: Seq<u8>, numbers: Seq<Num>) -> bool {
    &&& numbers.len() == lines_of(text).len()
    &&& forall|i: int|
        0 <= i < numbers.len() ==> number_of(lines_of(text)[i]) == Some(#[trigger] numbers[i])
}

/// The numbers of the text, one from each line; `None` where a line writes
/// none.
pub fn parse(input: &str) -> (r: Option<Vec<Num>>)
    ensures
        r.is_some() == well_formed(input.spec_bytes()),
        r matches Some(numbers) ==> text_says(input.spec_bytes(), numbers@),
{
    let all = lines(input.as_bytes());
    let ghost ls = lines_of(input.spec_bytes());
    let mut numbers: Vec<Num> = Vec::new();
    let mut i: usize = 0;
    while i < all.len()
        invariant
            i <= all.len(),
            rows(all@) == ls,
            ls == lines_of(input.spec_bytes()),
            numbers.len() == i,
            forall|k: int| 0 <= k < i ==> number_of(ls[k]) == Some(#[trigger] numbers[k]),
        decreases all.len() - i,
    {
        assert(rows(all@)[i as int] == all[i as int]@);
        match parse_signed(all[i].as_slice()) {
            Some(v) => {
                numbers.push(v);
            },
            None => {
                assert(!number_of(lines_of(input.spec_bytes())[i as int]).is_some());
                return None;
            },
        }
        i += 1;
    }
    assert forall|k: int| 0 <= k < ls.len() implies number_of(#[trigger] ls[k]).is_some() by {
        assert(number_of(ls[k]) == Some(numbers[k]));
    }
    Some(numbers)
}

/// The numbers of the text, one from each line.
pub fn generator(input: &str) -> (numbers: Vec<Num>)
    requires
        well_formed(input.spec_bytes()),
    ensures
        text_says(input.spec_bytes(), numbers@),
{
    parse(input).unwrap()
}

/// Whether every link of the ring leads to a place of the ring.
pub open spec fn linked(nodes: Seq<DoubleLinkedListNode>) -> bool {
    forall|i: int|
        0 <= i < nodes.len() ==> (#[trigger] nodes[i]).next < nodes.len() && nodes[i].prev
            < nodes.len()
}

/// The ring after a number was entered before its first place, that is at
/// the end of the way round.
pub open spec fn entered(nodes: Seq<DoubleLinkedListNode>, start: int, value: Num) -> Seq<
    DoubleLinkedListNode,
> {
    if nodes.len() == 0 {
        seq![DoubleLinkedListNode { value, next: 0, prev: 0 }]
    } else {
        let tail = nodes[start].prev;
        let place = nodes.len() as usize;
        let first = nodes.update(start, DoubleLinkedListNode { prev: place, ..nodes[start] });
        let second = first.update(
            tail as int,
            DoubleLinkedListNode { next: place, ..first[tail as int] },
        );
        second.push(DoubleLinkedListNode { value, next: start as usize, prev: tail })
    }
}

/// The ring of the first `n` numbers, each times `factor`.
pub open spec fn ring_of(numbers: Seq<Num>, factor: int, n: nat) -> Seq<DoubleLinkedListNode>
    decreases n,
{
    if n == 0 {
        Seq::empty()
    } else {
        entered(ring_of(numbers, factor, (n - 1) as nat), 0, (numbers[n - 1] * factor) as Num)
    }
}

/// The place of the last 0 among the first `n` numbers.
pub open spec fn zero_of(numbers: Seq<Num>, n: nat) -> Option<usize>
    decreases n,
{
    if n == 0 {
        None
    } else if numbers[n - 1] == 0 {
        Some((n - 1) as usize)
    } else {
        zero_of(numbers, (n - 1) as nat)
    }
}

/// The place that one reaches from `node` by `steps` steps forwards.
pub open spec fn forwards(nodes: Seq<DoubleLinkedListNode>, node: int, steps: nat) -> int
    decreases steps,
{
    if steps == 0 {
        node
    } else {
        nodes[forwards(nodes, node, (steps - 1) as nat)].next as int
    }
}

/// The place that one reaches from `node` by `steps` steps backwards.
pub open spec fn backwards(nodes: Seq<DoubleLinkedListNode>, node: int, steps: nat) -> int
    decreases steps,
{
    if steps == 0 {
        node
    } else {
        nodes[backwards(nodes, node, (steps - 1) as nat)].prev as int
    }
}

/// The place after which a number that moves by `count` places comes to
/// stand: `count` steps forwards, or one more than `-count` steps backwards.
pub open spec fn sought(nodes: Seq<DoubleLinkedListNode>, node: int, count: int) -> int {
    if count > 0 {
        forwards(nodes, node, count as nat)
    } else if count < 0 {
        backwards(nodes, node, (1 - count) as nat)
    } else {
        node
    }
}

/// The number of places by which the number at `node` moves: the remainder
/// of its value by one less than the size of the ring, with the sign of the
/// value.
pub open spec fn shift_of(nodes: Seq<DoubleLinkedListNode>, node: int) -> int {
    let value = nodes[node].value as int;
    let span = nodes.len() - 1;
    if value >= 0 {
        value % span
    } else {
        -((-value) % span)
    }
}

/// The ring after the number at `node` was taken out and put in again
/// behind the place that `sought` gives.
pub open spec fn moved(nodes: Seq<DoubleLinkedListNode>, node: int) -> Seq<DoubleLinkedListNode> {
    let value = shift_of(nodes, node);
    if value == 0 {
        nodes
    } else {
        let new_prev = sought(nodes, node, value);
        let new_next = nodes[new_prev].next as int;
        let old_prev = nodes[node].prev as int;
        let old_next = nodes[node].next as int;
        let a = nodes.update(new_prev, DoubleLinkedListNode { next: node as usize, ..nodes[new_prev] });
        let b = a.update(new_next, DoubleLinkedListNode { prev: node as usize, ..a[new_next] });
        let c = b.update(node, DoubleLinkedListNode { next: new_next as usize, ..b[node] });
        let d = c.update(node, DoubleLinkedListNode { prev: new_prev as usize, ..c[node] });
        let e = d.update(old_prev, DoubleLinkedListNode { next: old_next as usize, ..d[old_prev] });
        e.update(old_next, DoubleLinkedListNode { prev: old_prev as usize, ..e[old_next] })
    }
}

/// The ring after the numbers at the first `n` places were moved, in the
/// order of the places.
pub open spec fn mixed(nodes: Seq<DoubleLinkedListNode>, n: nat) -> Seq<DoubleLinkedListNode>
    decreases n,
{
    if n == 0 {
        nodes
    } else {
        moved(mixed(nodes, (n - 1) as nat), n - 1)
    }
}

/// The ring after it was mixed `times` times.
pub open spec fn mixed_often(nodes: Seq<DoubleLinkedListNode>, times: nat) -> Seq<
    DoubleLinkedListNode,
>
    decreases times,
{
    if times == 0 {
        nodes
    } else {
        let before = mixed_often(nodes, (times - 1) as nat);
        mixed(before, before.len())
    }
}

/// Steps along links that lead to places of the ring lead to such places.
pub proof fn lemma_steps(nodes: Seq<DoubleLinkedListNode>, node: int, steps: nat)
    requires
        linked(nodes),
        0 <= node < nodes.len(),
    ensures
        0 <= forwards(nodes, node, steps) < nodes.len(),
        0 <= backwards(nodes, node, steps) < nodes.len(),
    decreases steps,
{
    if steps > 0 {
        lemma_steps(nodes, node, (steps - 1) as nat);
    }
}

/// Moving a number keeps the links within the ring, and the numbers where
/// they are.
pub proof fn lemma_moved(nodes: Seq<DoubleLinkedListNode>, node: int)
    requires
        linked(nodes),
        0 <= node < nodes.len(),
        nodes.len() >= 2,
    ensures
        linked(moved(nodes, node)),
        moved(nodes, node).len() == nodes.len(),
        forall|i: int|
            0 <= i < nodes.len() ==> (#[trigger] moved(nodes, node)[i]).value == nodes[i].value,
{
    let value = shift_of(nodes, node);
    if value != 0 {
        if value > 0 {
            lemma_steps(nodes, node, value as nat);
        } else {
            lemma_steps(nodes, node, (1 - value) as nat);
        }
        let new_prev = sought(nodes, node, value);
        assert(nodes[new_prev].next < nodes.len());
        assert(nodes[node].prev < nodes.len());
    }
}

/// Mixing keeps the links within the ring, and the numbers where they are.
pub proof fn lemma_mixed(nodes: Seq<DoubleLinkedListNode>, n: nat)
    requires
        linked(nodes),
        n <= nodes.len(),
        nodes.len() >= 2,
    ensures
        linked(mixed(nodes, n)),
        mixed(nodes, n).len() == nodes.len(),
        forall|i: int| 0 <= i < nodes.len() ==> (#[trigger] mixed(nodes, n)[i]).value == nodes[i].value,
    decreases n,
{
    if n > 0 {
        lemma_mixed(nodes, (n - 1) as nat);
        lemma_moved(mixed(nodes, (n - 1) as nat), n - 1);
        assert forall|i: int| 0 <= i < nodes.len() implies (#[trigger] mixed(nodes, n)[i]).value
            == nodes[i].value by {
            assert(mixed(nodes, (n - 1) as nat)[i].value == nodes[i].value);
        }
    }
}

impl DoubleLinkedList {
    /// Whether the place to start from and the place of 0 are places of
    /// the ring, whose links lead to places of the ring.
    pub open spec fn wf(&self) -> bool {
        &&& linked(self.data@)
        &&& self.data.len() > 0 ==> self.start < self.data.len()
        &&& self.zero matches Some(z) ==> z < self.data.len()
    }

    /// The empty ring.
    pub fn new() -> (list: DoubleLinkedList)
        ensures
            list.wf(),
            list.data@ == Seq::<DoubleLinkedListNode>::empty(),
            list.start == 0,
            list.zero.is_none(),
    {
        DoubleLinkedList { data: Vec::new(), start: 0, zero: None }
    }

    /// Push to the back of the list
    pub fn push(&mut self, value: Num)
        requires
            old(self).wf(),
        ensures
            final(self).wf(),
            final(self).data@ == entered(old(self).data@, old(self).start as int, value),
            final(self).start == if old(self).data.len() == 0 {
                0
            } else {
                old(self).start
            },
            final(self).zero == if value == 0 {
                Some(old(self).data.len())
            } else {
                old(self).zero
            },
    {
        let ghost before = self.data@;
        let mut node = DoubleLinkedListNode { value: 0, next: 0, prev: 0 };
        if self.data.len() == 0 {
            self.start = 0;
        } else {
            let head = self.start;
            let tail = self.data[head].prev;
            let new_posn = self.data.len();
            node.next = head;
            node.prev = tail;
            self.data[head].prev = new_posn;
            self.data[tail].next = new_posn;
        }
        if value == 0 {
            self.zero = Some(self.data.len());
        } else {
            node.value = value;
        }
        self.data.push(node);
        proof {
            assert(self.data@ =~= entered(before, old(self).start as int, value));
            assert forall|i: int| 0 <= i < self.data@.len() implies (#[trigger] self.data@[i]).next
                < self.data@.len() && self.data@[i].prev < self.data@.len() by {
                if i < before.len() {
                    assert(before[i].next < before.len());
                }
            }
        }
    }

    /// The place after which a number that moves by `count` places comes to
    /// stand.
    pub fn seek(&self, node: usize, count: Num) -> (place: usize)
        requires
            self.wf(),
            node < self.data.len(),
            Num::MIN < count,
        ensures
            place == sought(self.data@, node as int, count as int),
            place < self.data.len(),
    {
        let mut ptr = node;
        if count > 0 {
            let mut done: Num = 0;
            while done < count
                invariant
                    0 <= done <= count,
                    self.wf(),
                    ptr < self.data.len(),
                    ptr == forwards(self.data@, node as int, done as nat),
                decreases count - done,
            {
                ptr = self.data[ptr].next;
                done = done + 1;
            }
        } else if count < 0 {
            let mut done: Num = count;
            while done <= 0
                invariant
                    count <= done <= 1,
                    self.wf(),
                    ptr < self.data.len(),
                    ptr == backwards(self.data@, node as int, (done - count) as nat),
                decreases 1 - done,
            {
                ptr = self.data[ptr].prev;
                done = done + 1;
            }
        }
        ptr
    }

    /// Moves the number at `node` by as many places as its value says.
    pub fn process(&mut self, node: usize)
        requires
            old(self).wf(),
            node < old(self).data.len(),
            2 <= old(self).data.len() <= Num::MAX,
        ensures
            final(self).wf(),
            final(self).data@ == moved(old(self).data@, node as int),
            final(self).start == old(self).start,
            final(self).zero == old(self).zero,
    {
        let ghost before = self.data@;
        let value = (self.data[node].value) % ((self.data.len() - 1) as Num);
        proof {
            lemma_moved(before, node as int);
            assert(value == shift_of(before, node as int));
        }
        if value != 0 {
            // Get the new before and after nodes
            let new_prev = self.seek(node, value);
            let new_next = self.data[new_prev].next;
            // Get the old before and after nodes
            let old_prev = self.data[node].prev;
            let old_next = self.data[node].next;
            // Fix up all of the links
            self.data[new_prev].next = node;
            self.data[new_next].prev = node;
            self.data[node].next = new_next;
            self.data[node].prev = new_prev;
            self.data[old_prev].next = old_next;
            self.data[old_next].prev = old_prev;
            assert(self.data@ =~= moved(before, node as int));
        }
    }

    /// Moves every number once, in the order in which they were entered.
    pub fn shuffle(&mut self)
        requires
            old(self).wf(),
            2 <= old(self).data.len() <= Num::MAX,
        ensures
            final(self).wf(),
            final(self).data@ == mixed(old(self).data@, old(self).data.len() as nat),
            final(self).data.len() == old(self).data.len(),
            final(self).start == old(self).start,
            final(self).zero == old(self).zero,
    {
        let ghost before = self.data@;
        let mut ptr: usize = 0;
        while ptr < self.data.len()
            invariant
                ptr <= self.data.len(),
                self.data.len() == before.len(),
                2 <= before.len() <= Num::MAX,
                self.wf(),
                self.data@ == mixed(before, ptr as nat),
                self.start == old(self).start,
                self.zero == old(self).zero,
            decreases self.data.len() - ptr,
        {
            proof {
                lemma_moved(self.data@, ptr as int);
            }
            self.process(ptr);
            ptr += 1;
        }
    }
}

/// The targets as places on the way round a ring of `size` places from the
/// place of 0: their remainders by `size`.
pub open spec fn wrapped(targets: Seq<Num>, size: int) -> Seq<Num> {
    targets.map_values(|t: Num| (t as int % size) as Num)
}

/// The numbers that stand the given numbers of steps after `zero`.
pub open spec fn values_at(
    nodes: Seq<DoubleLinkedListNode>,
    zero: int,
    steps: Seq<Num>,
) -> Seq<Num> {
    steps.map_values(|s: Num| nodes[forwards(nodes, zero, s as nat)].value)
}

/// Steps add up.
pub proof fn lemma_forwards_add(nodes: Seq<DoubleLinkedListNode>, node: int, a: nat, b: nat)
    ensures
        forwards(nodes, forwards(nodes, node, a), b) == forwards(nodes, node, a + b),
    decreases b,
{
    if b > 0 {
        lemma_forwards_add(nodes, node, a, (b - 1) as nat);
    }
}

impl DoubleLinkedList {
    /// Find the given nodes relative to the 0 node: the numbers that
    /// stand so many steps after it, in the ascending order of the
    /// remainders of the targets by the size of the ring. Nothing where the
    /// ring has no 0.
    pub fn find_nodes(&self, targets: &[Num]) -> (result: Vec<Num>)
        requires
            self.wf(),
            self.data.len() <= Num::MAX,
        ensures
            self.zero.is_none() ==> result.len() == 0,
            self.zero matches Some(z) ==> exists|steps: Seq<Num>|
                #![auto]
                ascending(steps) && steps.to_multiset() == wrapped(
                    targets@,
                    self.data.len() as int,
                ).to_multiset() && result@ == values_at(self.data@, z as int, steps),
    {
        let mut result: Vec<Num> = Vec::new();
        if self.zero.is_none() {
            return result;
        }
        let list_size = self.data.len() as Num;
        let mut remainders: Vec<Num> = Vec::new();
        let mut i: usize = 0;
        while i < targets.len()
            invariant
                i <= targets.len(),
                list_size == self.data.len(),
                list_size > 0,
                remainders@ == wrapped(targets@.take(i as int), list_size as int),
            decreases targets.len() - i,
        {
            let r = targets[i] % list_size;
            let wrapped_target = if r < 0 {
                r + list_size
            } else {
                r
            };
            proof {
                lemma_wrapped(targets[i as int] as int, list_size as int);
            }
            let ghost before = remainders@;
            remainders.push(wrapped_target);
            assert(remainders@ =~= before.push(wrapped_target));
            assert(remainders@ =~= wrapped(targets@.take(i as int + 1), list_size as int));
            i += 1;
        }
        assert(targets@.take(i as int) =~= targets@);
        let sorted_targets = sorted(remainders.as_slice());
        let ghost steps = sorted_targets@;
        let zero = self.zero.unwrap();
        let mut current = zero;
        let mut current_pos: Num = 0;
        let mut k: usize = 0;
        proof {
            assert forall|j: int| 0 <= j < steps.len() implies 0 <= #[trigger] steps[j] by {
                assert(steps.to_multiset().count(steps[j]) > 0) by {
                    vstd::seq_lib::to_multiset_contains(steps, steps[j]);
                    assert(steps.contains(steps[j]));
                }
                vstd::seq_lib::to_multiset_contains(remainders@, steps[j]);
                let at = choose|at: int| 0 <= at < remainders@.len() && remainders@[at] == steps[j];
                assert(remainders@[at] == (targets@[at] as int % list_size as int) as Num);
            }
            assert(values_at(self.data@, zero as int, steps.take(0)) =~= Seq::<Num>::empty());
        }
        while k < sorted_targets.len()
            invariant
                k <= sorted_targets.len(),
                steps == sorted_targets@,
                ascending(steps),
                forall|j: int| 0 <= j < steps.len() ==> 0 <= #[trigger] steps[j],
                self.wf(),
                zero < self.data.len(),
                current < self.data.len(),
                0 <= current_pos,
                k > 0 ==> current_pos == steps[k - 1],
                k == 0 ==> current_pos == 0,
                current == forwards(self.data@, zero as int, current_pos as nat),
                result@ == values_at(self.data@, zero as int, steps.take(k as int)),
            decreases sorted_targets.len() - k,
        {
            let target = sorted_targets[k];
            proof {
                if k > 0 {
                    assert(steps[k - 1] <= steps[k as int]);
                }
                assert(0 <= steps[k as int]);
                lemma_forwards_add(
                    self.data@,
                    zero as int,
                    current_pos as nat,
                    (target - current_pos) as nat,
                );
            }
            current = self.seek(current, target - current_pos);
            result.push(self.data[current].value);
            current_pos = target;
            proof {
                assert(result@ =~= values_at(self.data@, zero as int, steps.take(k as int + 1)));
            }
            k += 1;
        }
        assert(steps.take(k as int) =~= steps);
        result
    }
}

/// The sum of the numbers.
pub open spec fn total(s: Seq<Num>) -> int
    decreases s.len(),
{
    if s.len() == 0 {
        0
    } else {
        total(s.drop_last()) + s.last()
    }
}

/// The three numbers of steps after the place of 0 at which the answer is
/// read.
pub open spec fn marks() -> Seq<Num> {
    seq![1000i64, 2000i64, 3000i64]
}

/// Whether `answer` is the sum of the numbers that stand 1000, 2000 and 3000
/// steps after the place of 0 on the way round the ring; 0 for a ring
/// without a 0.
pub open spec fn is_grove_sum(
    nodes: Seq<DoubleLinkedListNode>,
    zero: Option<usize>,
    answer: int,
) -> bool {
    match zero {
        None => answer == 0,
        Some(z) => exists|steps: Seq<Num>|
            #![auto]
            ascending(steps) && steps.to_multiset() == wrapped(marks(), nodes.len() as int).to_multiset()
                && answer == total(values_at(nodes, z as int, steps)),
    }
}

/// Whether every number is less than `limit` from 0.
pub open spec fn within(numbers: Seq<Num>, limit: int) -> bool {
    forall|i: int| 0 <= i < numbers.len() ==> -limit < #[trigger] numbers[i] < limit
}

/// The ring of the numbers, each times `factor`.
pub fn build(input: &Vec<Num>, factor: Num) -> (list: DoubleLinkedList)
    requires
        forall|i: int|
            0 <= i < input.len() ==> Num::MIN <= #[trigger] input[i] * factor <= Num::MAX,
        factor != 0,
    ensures
        list.wf(),
        list.data@ == ring_of(input@, factor as int, input.len() as nat),
        list.data.len() == input.len(),
        list.zero == zero_of(input@, input.len() as nat),
        list.start == 0,
        forall|i: int| 0 <= i < input.len() ==> (#[trigger] list.data[i]).value == input[i] * factor,
{
    let mut list = DoubleLinkedList::new();
    let mut i: usize = 0;
    while i < input.len()
        invariant
            i <= input.len(),
            factor != 0,
            forall|k: int|
                0 <= k < input.len() ==> Num::MIN <= #[trigger] input[k] * factor <= Num::MAX,
            list.wf(),
            list.data@ == ring_of(input@, factor as int, i as nat),
            list.data.len() == i,
            list.zero == zero_of(input@, i as nat),
            list.start == 0,
            forall|k: int| 0 <= k < i ==> (#[trigger] list.data[k]).value == input[k] * factor,
        decreases input.len() - i,
    {
        let ghost before = list.data@;
        assert(Num::MIN <= input[i as int] * factor <= Num::MAX);
        let value = input[i] * factor;
        proof {
            if value == 0 {
                assert(input[i as int] == 0) by (nonlinear_arith)
                    requires
                        input[i as int] * factor == 0,
                        factor != 0,
                ;
            } else {
                assert(input[i as int] != 0) by (nonlinear_arith)
                    requires
                        input[i as int] * factor != 0,
                ;
            }
        }
        list.push(value);
        proof {
            assert forall|k: int| 0 <= k < i + 1 implies (#[trigger] list.data[k]).value == input[k]
                * factor by {
                if k < i {
                    assert(before[k].value == input[k] * factor);
                }
            }
        }
        i += 1;
    }
    list
}

/// The sum of the numbers that stand 1000, 2000 and 3000 steps after the
/// place of 0.
pub fn grove_sum(list: &DoubleLinkedList) -> (answer: Num)
    requires
        list.wf(),
        list.data.len() <= Num::MAX,
        forall|i: int|
            0 <= i < list.data.len() ==> -(PLAIN_LIMIT as int) < (#[trigger] list.data[i]).value
                < PLAIN_LIMIT,
    ensures
        is_grove_sum(list.data@, list.zero, answer as int),
{
    let targets: [Num; 3] = [1000, 2000, 3000];
    assert(targets@ =~= marks());
    let found = list.find_nodes(targets.as_slice());
    if list.zero.is_none() {
        return 0;
    }
    let ghost z = list.zero.unwrap() as int;
    let ghost steps = choose|steps: Seq<Num>|
        #![auto]
        ascending(steps) && steps.to_multiset() == wrapped(
            targets@,
            list.data.len() as int,
        ).to_multiset() && found@ == values_at(list.data@, z, steps);
    proof {
        vstd::seq_lib::to_multiset_len(steps);
        vstd::seq_lib::to_multiset_len(wrapped(targets@, list.data.len() as int));
        assert(found.len() == 3);
        assert forall|k: int| 0 <= k < 3 implies 0 <= #[trigger] steps[k] by {
            vstd::seq_lib::to_multiset_contains(steps, steps[k]);
            assert(steps.contains(steps[k]));
            let w = wrapped(targets@, list.data.len() as int);
            vstd::seq_lib::to_multiset_contains(w, steps[k]);
            let at = choose|at: int| 0 <= at < w.len() && w[at] == steps[k];
            lemma_wrapped(targets@[at] as int, list.data.len() as int);
        }
        assert forall|k: int| 0 <= k < 3 implies -(PLAIN_LIMIT as int) < #[trigger] found@[k]
            < PLAIN_LIMIT by {
            lemma_steps(list.data@, z, steps[k] as nat);
            let place = forwards(list.data@, z, steps[k] as nat);
            assert(-(PLAIN_LIMIT as int) < list.data[place].value < PLAIN_LIMIT);
        }
        assert(found@.drop_last().drop_last().drop_last() =~= Seq::<Num>::empty());
        assert(total(found@) == found@[0] + found@[1] + found@[2]) by {
            assert(found@.drop_last().last() == found@[1]);
            assert(found@.drop_last().drop_last().last() == found@[0]);
            assert(total(found@.drop_last().drop_last().drop_last()) == 0);
            assert(total(found@.drop_last().drop_last()) == found@[0]);
            assert(total(found@.drop_last()) == found@[0] + found@[1]);
        }
    }
    found[0] + found[1] + found[2]
}

/// The sum of the three numbers after one mixing.
pub fn part1(input: &Vec<Num>) -> (answer: Num)
    requires
        2 <= input.len() <= Num::MAX,
        within(input@, PLAIN_LIMIT as int),
    ensures
        is_grove_sum(
            mixed(ring_of(input@, 1, input.len() as nat), input.len() as nat),
            zero_of(input@, input.len() as nat),
            answer as int,
        ),
{
    let mut list = build(input, 1);
    let ghost before = list.data@;
    proof {
        lemma_mixed(before, input.len() as nat);
    }
    list.shuffle();
    proof {
        assert forall|i: int| 0 <= i < list.data.len() implies -(PLAIN_LIMIT as int) < (
        #[trigger] list.data[i]).value < PLAIN_LIMIT by {
            assert(before[i].value == input[i] * 1);
        }
    }
    grove_sum(&list)
}

/// The sum of the three numbers when each number is first multiplied by
/// the key, and the ring is mixed ten times.
pub fn part2(input: &Vec<Num>) -> (answer: Num)
    requires
        2 <= input.len() <= Num::MAX,
        within(input@, KEYED_LIMIT as int),
    ensures
        is_grove_sum(
            mixed_often(
                ring_of(input@, DECRYPTION_KEY as int, input.len() as nat),
                ITERATIONS as nat,
            ),
            zero_of(input@, input.len() as nat),
            answer as int,
        ),
{
    proof {
        assert forall|i: int| 0 <= i < input.len() implies -(PLAIN_LIMIT as int) < (
        #[trigger] input[i]) * DECRYPTION_KEY < PLAIN_LIMIT by {
            let v = input[i] as int;
            assert(-0x8000_0000 < v < 0x8000_0000);
            assert(-0x8000_0000 * 811589153 < v * 811589153 < 0x8000_0000 * 811589153)
                by (nonlinear_arith)
                requires
                    -0x8000_0000 < v < 0x8000_0000,
            ;
        }
    }
    let mut list = build(input, DECRYPTION_KEY);
    let ghost before = list.data@;
    let mut round: usize = 0;
    while round < ITERATIONS
        invariant
            round <= ITERATIONS,
            2 <= input.len() <= Num::MAX,
            list.wf(),
            list.data.len() == input.len(),
            list.data@ == mixed_often(before, round as nat),
            list.zero == zero_of(input@, input.len() as nat),
            forall|i: int|
                0 <= i < list.data.len() ==> -(PLAIN_LIMIT as int) < (#[trigger] list.data[i]).value
                    < PLAIN_LIMIT,
        decreases ITERATIONS - round,
    {
        let ghost now = list.data@;
        proof {
            lemma_mixed(now, input.len() as nat);
        }
        list.shuffle();
        proof {
            assert forall|i: int| 0 <= i < list.data.len() implies -(PLAIN_LIMIT as int) < (
            #[trigger] list.data[i]).value < PLAIN_LIMIT by {
                assert(-(PLAIN_LIMIT as int) < now[i].value < PLAIN_LIMIT);
            }
        }
        round += 1;
    }
    grove_sum(&list)
}

} // verus!
