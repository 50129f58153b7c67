//! Monkeys that shout numbers: some know their number, the others compute
//! it from the numbers of two other monkeys. What the monkey `root` shouts,
//! and what the human has to shout for the two numbers of `root` to be
//! equal.
use crate::text::{
    lines, lines_of, parse_signed, rows, same_bytes, signed_of, words, words_of,
};
use vstd::prelude::*;
use vstd::slice::slice_subrange;
use vstd::string::StringSliceAdditionalSpecFns;

verus! {

pub type Num = i64;

/// What a monkey does.
#[derive(Clone, Copy, Debug, PartialEq, Eq, Structural)]
pub enum Operation {
    Literal(Num),
    Plus,
    Minus,
    Multiply,
    Divide,
    Equals,
    Human,
}

/// A monkey: its name, what it does, and the names of the monkeys whose
/// numbers it takes.
#[derive(Debug)]
pub struct Monkey {
    pub name: Vec<u8>,
    pub op: Operation,
    pub parameters: Vec<Vec<u8>>,
}

/// Whether a number fits `Num`.
pub open spec fn fits(v: int) -> bool {
    Num::MIN <= v <= Num::MAX
}

/// How far a number lies from 0.
pub open spec fn size_of(v: int) -> int {
    if v < 0 {
        -v
    } else {
        v
    }
}

/// The quotient of two numbers, rounded towards 0.
pub open spec fn quotient(a: int, b: int) -> int {
    if (a < 0) == (b < 0) {
        size_of(a) / size_of(b)
    } else {
        -(size_of(a) / size_of(b))
    }
}

/// What an operation makes of two numbers; `None` where it makes nothing:
/// the result does not fit, the divisor is 0, or the operation is that of
/// the human.
pub open spec fn applied(op: Operation, left: int, right: int) -> Option<int> {
    let result = match op {
        Operation::Literal(n) => Some(n as int),
        Operation::Plus => Some(left + right),
        Operation::Minus => Some(left - right),
        Operation::Multiply => Some(left * right),
        Operation::Divide => if right != 0 {
            Some(quotient(left, right))
        } else {
            None
        },
        Operation::Equals => Some(
            if left == right {
                1int
            } else {
                0int
            },
        ),
        Operation::Human => None,
    };
    match result {
        Some(v) => if fits(v) {
            Some(v)
        } else {
            None
        },
        None => None,
    }
}

/// The left number for which the operation, with the right number, gives
/// the result; for a product, the quotient rounded towards 0.
pub open spec fn left_for(op: Operation, right: int, result: int) -> Option<int> {
    match op {
        Operation::Plus => applied(Operation::Minus, result, right),
        Operation::Minus => applied(Operation::Plus, result, right),
        Operation::Multiply => applied(Operation::Divide, result, right),
        Operation::Divide => applied(Operation::Multiply, result, right),
        _ => None,
    }
}

/// The right number for which the operation, with the left number, gives
/// the result; for a product and a quotient, the quotient rounded towards
/// 0.
pub open spec fn right_for(op: Operation, left: int, result: int) -> Option<int> {
    match op {
        Operation::Plus => applied(Operation::Minus, result, left),
        Operation::Minus => applied(Operation::Minus, left, result),
        Operation::Multiply => applied(Operation::Divide, result, left),
        Operation::Divide => applied(Operation::Divide, left, result),
        _ => None,
    }
}

/// The quotient rounded towards 0; `None` for a divisor of 0 and for a
/// quotient that does not fit.
pub fn divide(left: Num, right: Num) -> (r: Option<Num>)
    ensures
        r.is_some() == (right != 0 && fits(quotient(left as int, right as int))),
        r matches Some(v) ==> v == quotient(left as int, right as int),
{
    if right == 0 {
        return None;
    }
    let a: u64 = if left < 0 {
        if left == Num::MIN {
            0x8000_0000_0000_0000
        } else {
            (-left) as u64
        }
    } else {
        left as u64
    };
    let b: u64 = if right < 0 {
        if right == Num::MIN {
            0x8000_0000_0000_0000
        } else {
            (-right) as u64
        }
    } else {
        right as u64
    };
    let q = a / b;
    if (left < 0) == (right < 0) {
        if q <= 0x7fff_ffff_ffff_ffff {
            Some(q as Num)
        } else {
            None
        }
    } else if q <= 0x7fff_ffff_ffff_ffff {
        Some(-(q as Num))
    } else {
        Some(Num::MIN)
    }
}

impl Operation {
    /// The operation that a sign names.
    pub fn parse(s: &[u8]) -> (r: Option<Operation>)
        ensures
            r == sign_of(s@),
    {
        if s.len() != 1 {
            None
        } else if s[0] == 43 {
            Some(Operation::Plus)
        } else if s[0] == 45 {
            Some(Operation::Minus)
        } else if s[0] == 42 {
            Some(Operation::Multiply)
        } else if s[0] == 47 {
            Some(Operation::Divide)
        } else {
            None
        }
    }

    /// What the operation makes of two numbers, where it makes something.
    pub fn try_evaluate(&self, left: Num, right: Num) -> (r: Option<Num>)
        ensures
            r.is_some() == applied(*self, left as int, right as int).is_some(),
            r matches Some(v) ==> applied(*self, left as int, right as int) == Some(v as int),
    {
        let wide: i128 = match self {
            Operation::Literal(n) => *n as i128,
            Operation::Plus => left as i128 + right as i128,
            Operation::Minus => left as i128 - right as i128,
            Operation::Multiply => {
                assert(-0x8000_0000_0000_0000 * 0x8000_0000_0000_0000 <= left * right
                    <= 0x8000_0000_0000_0000 * 0x8000_0000_0000_0000) by (nonlinear_arith)
                    requires
                        -0x8000_0000_0000_0000 <= left <= 0x8000_0000_0000_0000,
                        -0x8000_0000_0000_0000 <= right <= 0x8000_0000_0000_0000,
                ;
                left as i128 * right as i128
            },
            Operation::Divide => {
                return divide(left, right);
            },
            Operation::Equals => if left == right {
                1
            } else {
                0
            },
            Operation::Human => {
                return None;
            },
        };
        if -0x8000_0000_0000_0000 <= wide && wide <= 0x7fff_ffff_ffff_ffff {
            Some(wide as Num)
        } else {
            None
        }
    }

    /// What the operation makes of two numbers.
    pub fn evaluate(&self, left: Num, right: Num) -> (v: Num)
        requires
            applied(*self, left as int, right as int).is_some(),
        ensures
            applied(*self, left as int, right as int) == Some(v as int),
    {
        self.try_evaluate(left, right).unwrap()
    }

    /// The left number for which the operation gives the result, where
    /// there is one that fits.
    pub fn try_evaluate_for_left(&self, right: Num, result: Num) -> (r: Option<Num>)
        ensures
            r.is_some() == left_for(*self, right as int, result as int).is_some(),
            r matches Some(v) ==> left_for(*self, right as int, result as int) == Some(v as int),
    {
        match self {
            Operation::Plus => Operation::Minus.try_evaluate(result, right),
            Operation::Minus => Operation::Plus.try_evaluate(result, right),
            Operation::Multiply => Operation::Divide.try_evaluate(result, right),
            Operation::Divide => Operation::Multiply.try_evaluate(result, right),
            _ => None,
        }
    }

    /// The left number for which the operation gives the result.
    pub fn evaluate_for_left(&self, right: Num, result: Num) -> (v: Num)
        requires
            left_for(*self, right as int, result as int).is_some(),
        ensures
            left_for(*self, right as int, result as int) == Some(v as int),
    {
        self.try_evaluate_for_left(right, result).unwrap()
    }

    /// The right number for which the operation gives the result, where
    /// there is one that fits.
    pub fn try_evaluate_for_right(&self, left: Num, result: Num) -> (r: Option<Num>)
        ensures
            r.is_some() == right_for(*self, left as int, result as int).is_some(),
            r matches Some(v) ==> right_for(*self, left as int, result as int) == Some(v as int),
    {
        match self {
            Operation::Plus => Operation::Minus.try_evaluate(result, left),
            Operation::Minus => Operation::Minus.try_evaluate(left, result),
            Operation::Multiply => Operation::Divide.try_evaluate(result, left),
            Operation::Divide => Operation::Divide.try_evaluate(left, result),
            _ => None,
        }
    }

    /// The right number for which the operation gives the result.
    pub fn evaluate_for_right(&self, left: Num, result: Num) -> (v: Num)
        requires
            right_for(*self, left as int, result as int).is_some(),
        ensures
            right_for(*self, left as int, result as int) == Some(v as int),
    {
        self.try_evaluate_for_right(left, result).unwrap()
    }
}

/// The operation that a sign names.
pub open spec fn sign_of(s: Seq<u8>) -> Option<Operation> {
    if s.len() != 1 {
        None
    } else if s[0] == 43 {
        Some(Operation::Plus)
    } else if s[0] == 45 {
        Some(Operation::Minus)
    } else if s[0] == 42 {
        Some(Operation::Multiply)
    } else if s[0] == 47 {
        Some(Operation::Divide)
    } else {
        None
    }
}

/// The name that stands before the colon: the word without its last
/// character.
pub open spec fn name_of(word: Seq<u8>) -> Seq<u8> {
    if word.len() > 0 {
        word.drop_last()
    } else {
        word
    }
}

/// A monkey as a line describes it.
pub struct Job {
    pub name: Seq<u8>,
    pub op: Operation,
    pub parameters: Seq<Seq<u8>>,
}

impl View for Monkey {
    type V = Job;

    open spec fn view(&self) -> Job {
        Job { name: self.name@, op: self.op, parameters: rows(self.parameters@) }
    }
}

/// The monkey that a line describes: its first word without its last
/// character is the name; with four words, the third is the sign and the
/// second and fourth are the names of two monkeys; with any other number of
/// words, the second word is the number.
pub open spec fn job_of(line: Seq<u8>) -> Option<Job> {
    let w = words_of(line);
    if w.len() == 0 {
        None
    } else if w.len() == 4 {
        match sign_of(w[2]) {
            Some(op) => Some(Job { name: name_of(w[0]), op, parameters: seq![w[1], w[3]] }),
            None => None,
        }
    } else if w.len() >= 2 {
        match signed_of(w[1]) {
            Some(v) => if fits(v) {
                Some(
                    Job {
                        name: name_of(w[0]),
                        op: Operation::Literal(v as Num),
                        parameters: Seq::empty(),
                    },
                )
            } else {
                None
            },
            None => None,
        }
    } else {
        None
    }
}

/// Whether every line of the text describes a monkey.
pub open spec fn well_formed(text: Seq<u8>) -> bool {
    forall|i: int| 0 <= i < lines_of(text).len() ==> job_of(#[trigger] lines_of(text)[i]).is_some()
}

/// Whether `monkeys` are the monkeys that the lines of the text describe.
pub open spec fn text_says(text: Seq<u8>, monkeys: Seq<Monkey>) -> bool {
    &&& monkeys.len() == lines_of(text).len()
    &&& forall|i: int|
        0 <= i < monkeys.len() ==> job_of(lines_of(text)[i]) == Some((#[trigger] monkeys[i])@)
}

impl Monkey {
    /// Reads a monkey from its line.
    pub fn parse(line: &[u8]) -> (r: Option<Monkey>)
        ensures
            r.is_some() == job_of(line@).is_some(),
            r matches Some(m) ==> job_of(line@) == Some(m@),
    {
        let w = words(line);
        if w.len() == 0 {
            return None;
        }
        assert(rows(w@)[0] == w[0]@);
        // remove the colon
        let mut name = w[0].clone();
        name.pop();
        assert(name@ =~= name_of(w[0]@));
        if w.len() == 4 {
            proof {
                let ws = rows(w@);
                assert(ws[1] == w[1]@ && ws[2] == w[2]@ && ws[3] == w[3]@);
            }
            match Operation::parse(w[2].as_slice()) {
                Some(op) => {
                    let mut parameters: Vec<Vec<u8>> = Vec::new();
                    parameters.push(w[1].clone());
                    parameters.push(w[3].clone());
                    assert(rows(parameters@) =~= seq![w[1]@, w[3]@]);
                    Some(Monkey { name, op, parameters })
                },
                None => None,
            }
        } else if w.len() >= 2 {
            assert(rows(w@)[1] == w[1]@);
            match parse_signed(w[1].as_slice()) {
                Some(v) => {
                    let parameters: Vec<Vec<u8>> = Vec::new();
                    assert(rows(parameters@) =~= Seq::<Seq<u8>>::empty());
                    Some(Monkey { name, op: Operation::Literal(v), parameters })
                },
                None => None,
            }
        } else {
            None
        }
    }
}

/// The monkeys of the text, one from each line; `None` where a line
/// describes none.
pub fn parse(input: &str) -> (r: Option<Vec<Monkey>>)
    ensures
        r.is_some() == well_formed(input.spec_bytes()),
        r matches Some(monkeys) ==> text_says(input.spec_bytes(), monkeys@),
{
    let all = lines(input.as_bytes());
    let ghost ls = lines_of(input.spec_bytes());
    let mut monkeys: Vec<Monkey> = Vec::new();
    let mut i: usize = 0;
    while i < all.len()
        invariant
            i <= all.len(),
            rows(all@) == ls,
            ls == lines_of(input.spec_bytes()),
            monkeys.len() == i,
            forall|k: int| 0 <= k < i ==> job_of(ls[k]) == Some((#[trigger] monkeys[k])@),
        decreases all.len() - i,
    {
        assert(rows(all@)[i as int] == all[i as int]@);
        match Monkey::parse(all[i].as_slice()) {
            Some(m) => {
                monkeys.push(m);
            },
            None => {
                assert(!job_of(lines_of(input.spec_bytes())[i as int]).is_some());
                return None;
            },
        }
        i += 1;
    }
    assert forall|k: int| 0 <= k < ls.len() implies job_of(#[trigger] ls[k]).is_some() by {
        assert(job_of(ls[k]) == Some(monkeys[k]@));
    }
    Some(monkeys)
}

/// The monkeys of the text, one from each line.
pub fn generator(input: &str) -> (monkeys: Vec<Monkey>)
    requires
        well_formed(input.spec_bytes()),
    ensures
        text_says(input.spec_bytes(), monkeys@),
{
    parse(input).unwrap()
}

/// A monkey with the places of the monkeys whose numbers it takes, and the
/// number that was found for it.
#[derive(Debug)]
pub struct Calculation {
    pub op: Operation,
    pub parameters: Vec<usize>,
    pub cache: Option<Num>,
}

/// A monkey as the rules see it: what it does, and the places of the two
/// monkeys whose numbers it takes.
pub struct Node {
    pub op: Operation,
    pub left: int,
    pub right: int,
}

impl View for Calculation {
    type V = Node;

    open spec fn view(&self) -> Node {
        Node {
            op: self.op,
            left: if self.parameters.len() > 0 {
                self.parameters[0] as int
            } else {
                0
            },
            right: if self.parameters.len() > 1 {
                self.parameters[1] as int
            } else {
                0
            },
        }
    }
}

/// The monkeys as the rules see them.
pub open spec fn nodes_of(calcs: Seq<Calculation>) -> Seq<Node> {
    calcs.map_values(|c: Calculation| c@)
}

/// The jobs of the monkeys.
pub open spec fn jobs_of(monkeys: Seq<Monkey>) -> Seq<Job> {
    monkeys.map_values(|m: Monkey| m@)
}

/// The place of the last of the first `n` monkeys with the name.
pub open spec fn place_of(jobs: Seq<Job>, name: Seq<u8>, n: nat) -> Option<int>
    decreases n,
{
    if n == 0 {
        None
    } else if jobs[n - 1].name == name {
        Some(n - 1)
    } else {
        place_of(jobs, name, (n - 1) as nat)
    }
}

/// A place that `place_of` gives is a place of one of the monkeys.
pub proof fn lemma_place_of(jobs: Seq<Job>, name: Seq<u8>, n: nat)
    ensures
        place_of(jobs, name, n) matches Some(i) ==> 0 <= i < n,
    decreases n,
{
    if n > 0 {
        lemma_place_of(jobs, name, (n - 1) as nat);
    }
}

/// The monkey with the places of the monkeys that its job names; `None`
/// where it names a monkey that there is not.
pub open spec fn node_of(jobs: Seq<Job>, job: Job) -> Option<Node> {
    match job.op {
        Operation::Literal(_) => Some(Node { op: job.op, left: 0, right: 0 }),
        _ => if job.parameters.len() >= 2 && place_of(
            jobs,
            job.parameters[0],
            jobs.len(),
        ).is_some() && place_of(jobs, job.parameters[1], jobs.len()).is_some() {
            Some(
                Node {
                    op: job.op,
                    left: place_of(jobs, job.parameters[0], jobs.len()).unwrap(),
                    right: place_of(jobs, job.parameters[1], jobs.len()).unwrap(),
                },
            )
        } else {
            None
        },
    }
}

/// Whether every monkey names monkeys that there are.
pub open spec fn resolvable(jobs: Seq<Job>) -> bool {
    forall|i: int| 0 <= i < jobs.len() ==> node_of(jobs, #[trigger] jobs[i]).is_some()
}

/// The monkeys with their places. Only for resolvable jobs.
pub open spec fn resolved(jobs: Seq<Job>) -> Seq<Node> {
    Seq::new(jobs.len(), |i: int| node_of(jobs, jobs[i]).unwrap())
}

/// Whether every place that a monkey names is a place of a monkey.
pub open spec fn linked(nodes: Seq<Node>) -> bool {
    forall|i: int|
        0 <= i < nodes.len() ==> 0 <= (#[trigger] nodes[i]).left < nodes.len() && 0
            <= nodes[i].right < nodes.len()
}

/// The place of the last monkey with the name.
pub fn find_name(input: &Vec<Monkey>, name: &[u8]) -> (r: Option<usize>)
    ensures
        r.is_some() == place_of(jobs_of(input@), name@, input.len() as nat).is_some(),
        r matches Some(i) ==> place_of(jobs_of(input@), name@, input.len() as nat) == Some(
            i as int,
        ) && i < input.len(),
{
    let ghost jobs = jobs_of(input@);
    let mut found: Option<usize> = None;
    let mut i: usize = 0;
    while i < input.len()
        invariant
            i <= input.len(),
            jobs == jobs_of(input@),
            found.is_some() == place_of(jobs, name@, i as nat).is_some(),
            found matches Some(at) ==> place_of(jobs, name@, i as nat) == Some(at as int) && at < i,
        decreases input.len() - i,
    {
        assert(jobs[i as int].name == input[i as int].name@);
        if same_bytes(input[i].name.as_slice(), name) {
            found = Some(i);
        }
        i += 1;
    }
    found
}

impl Calculation {
    /// The monkey with the places of the monkeys that it names, and no
    /// number found yet but its own.
    pub fn new(monkey: &Monkey, names: &Vec<Monkey>) -> (r: Option<Calculation>)
        ensures
            r.is_some() == node_of(jobs_of(names@), monkey@).is_some(),
            r matches Some(c) ==> node_of(jobs_of(names@), monkey@) == Some(c@),
    {
        match monkey.op {
            Operation::Literal(n) => Some(
                Calculation { op: monkey.op, cache: Some(n), parameters: Vec::new() },
            ),
            _ => {
                if monkey.parameters.len() < 2 {
                    return None;
                }
                proof {
                    let ps = rows(monkey.parameters@);
                    assert(ps[0] == monkey.parameters[0]@ && ps[1] == monkey.parameters[1]@);
                }
                let left = find_name(names, monkey.parameters[0].as_slice());
                let right = find_name(names, monkey.parameters[1].as_slice());
                if left.is_none() || right.is_none() {
                    return None;
                }
                let mut parameters: Vec<usize> = Vec::new();
                parameters.push(left.unwrap());
                parameters.push(right.unwrap());
                Some(Calculation { op: monkey.op, cache: None, parameters })
            },
        }
    }
}

/// The monkeys with their places; `None` where one names a monkey that
/// there is not.
pub fn resolve(input: &Vec<Monkey>) -> (r: Option<Vec<Calculation>>)
    ensures
        r.is_some() == resolvable(jobs_of(input@)),
        r matches Some(calcs) ==> nodes_of(calcs@) == resolved(jobs_of(input@)) && linked(
            nodes_of(calcs@),
        ),
{
    let ghost jobs = jobs_of(input@);
    let mut calcs: Vec<Calculation> = Vec::new();
    let mut i: usize = 0;
    while i < input.len()
        invariant
            i <= input.len(),
            jobs == jobs_of(input@),
            calcs.len() == i,
            forall|k: int| 0 <= k < i ==> node_of(jobs, jobs[k]) == Some((#[trigger] calcs[k])@),
        decreases input.len() - i,
    {
        assert(jobs[i as int] == input[i as int]@);
        match Calculation::new(&input[i], input) {
            Some(c) => {
                calcs.push(c);
            },
            None => {
                assert(!node_of(jobs_of(input@), jobs_of(input@)[i as int]).is_some());
                return None;
            },
        }
        i += 1;
    }
    proof {
        assert forall|k: int| 0 <= k < jobs.len() implies node_of(jobs, #[trigger] jobs[k]).is_some() by {
            assert(node_of(jobs, jobs[k]) == Some(calcs[k]@));
        }
        assert(nodes_of(calcs@) =~= resolved(jobs));
        assert forall|k: int| 0 <= k < nodes_of(calcs@).len() implies 0 <= (
        #[trigger] nodes_of(calcs@)[k]).left < nodes_of(calcs@).len() && 0 <= nodes_of(
            calcs@,
        )[k].right < nodes_of(calcs@).len() by {
            assert(node_of(jobs, jobs[k]) == Some(calcs[k]@));
            match jobs[k].op {
                Operation::Literal(_) => {},
                _ => {
                    lemma_place_of(jobs, jobs[k].parameters[0], jobs.len());
                    lemma_place_of(jobs, jobs[k].parameters[1], jobs.len());
                },
            }
        }
    }
    Some(calcs)
}

/// What is found of a monkey's number: the number, that it hangs on what
/// the human shouts, or that there is none.
#[derive(Clone, Copy, Debug, PartialEq, Eq, Structural)]
pub enum Finding {
    Known(Num),
    Symbolic,
    Failed,
}

/// What two findings and an operation give.
pub open spec fn combined(op: Operation, left: Finding, right: Finding) -> Finding {
    match (left, right) {
        (Finding::Failed, _) => Finding::Failed,
        (_, Finding::Failed) => Finding::Failed,
        (Finding::Known(l), Finding::Known(r)) => match applied(op, l as int, r as int) {
            Some(v) => Finding::Known(v as Num),
            None => Finding::Failed,
        },
        _ => Finding::Symbolic,
    }
}

/// What is found of the number of the monkey at place `i` when one follows
/// the monkeys that it names through at most `depth` monkeys.
pub open spec fn finding(nodes: Seq<Node>, i: int, depth: nat) -> Finding
    decreases depth,
{
    if depth == 0 {
        Finding::Failed
    } else {
        match nodes[i].op {
            Operation::Literal(n) => Finding::Known(n),
            Operation::Human => Finding::Symbolic,
            op => combined(
                op,
                finding(nodes, nodes[i].left, (depth - 1) as nat),
                finding(nodes, nodes[i].right, (depth - 1) as nat),
            ),
        }
    }
}

/// What two findings and an operation give.
pub fn combine(op: Operation, left: Finding, right: Finding) -> (f: Finding)
    ensures
        f == combined(op, left, right),
{
    match (left, right) {
        (Finding::Failed, _) => Finding::Failed,
        (_, Finding::Failed) => Finding::Failed,
        (Finding::Known(l), Finding::Known(r)) => match op.try_evaluate(l, r) {
            Some(v) => Finding::Known(v),
            None => Finding::Failed,
        },
        _ => Finding::Symbolic,
    }
}

/// What is found of the number of each monkey when one follows the monkeys
/// that it names through as many monkeys as there are.
pub fn settle(calcs: &Vec<Calculation>) -> (found: Vec<Finding>)
    requires
        linked(nodes_of(calcs@)),
    ensures
        found.len() == calcs.len(),
        forall|i: int|
            0 <= i < calcs.len() ==> #[trigger] found[i] == finding(
                nodes_of(calcs@),
                i,
                calcs.len() as nat,
            ),
{
    let ghost nodes = nodes_of(calcs@);
    let mut found: Vec<Finding> = Vec::new();
    let mut i: usize = 0;
    while i < calcs.len()
        invariant
            i <= calcs.len(),
            found.len() == i,
            forall|k: int| 0 <= k < i ==> #[trigger] found[k] == Finding::Failed,
        decreases calcs.len() - i,
    {
        found.push(Finding::Failed);
        i += 1;
    }
    let mut depth: usize = 0;
    while depth < calcs.len()
        invariant
            depth <= calcs.len(),
            nodes == nodes_of(calcs@),
            linked(nodes),
            found.len() == calcs.len(),
            forall|k: int| 0 <= k < calcs.len() ==> #[trigger] found[k] == finding(nodes, k, depth as nat),
        decreases calcs.len() - depth,
    {
        let mut next: Vec<Finding> = Vec::new();
        let mut i: usize = 0;
        while i < calcs.len()
            invariant
                i <= calcs.len(),
                depth < calcs.len(),
                nodes == nodes_of(calcs@),
                linked(nodes),
                found.len() == calcs.len(),
                next.len() == i,
                forall|k: int|
                    0 <= k < calcs.len() ==> #[trigger] found[k] == finding(nodes, k, depth as nat),
                forall|k: int| 0 <= k < i ==> #[trigger] next[k] == finding(nodes, k, (depth + 1) as nat),
            decreases calcs.len() - i,
        {
            let c = &calcs[i];
            proof {
                assert(nodes[i as int] == c@);
                assert(0 <= nodes[i as int].left < nodes.len() && 0 <= nodes[i as int].right
                    < nodes.len());
            }
            let f = match c.op {
                Operation::Literal(n) => Finding::Known(n),
                Operation::Human => Finding::Symbolic,
                op => {
                    let l = if c.parameters.len() > 0 {
                        c.parameters[0]
                    } else {
                        0
                    };
                    let r = if c.parameters.len() > 1 {
                        c.parameters[1]
                    } else {
                        0
                    };
                    combine(op, found[l], found[r])
                },
            };
            next.push(f);
            i += 1;
        }
        found = next;
        depth += 1;
    }
    found
}

pub open spec fn root_name() -> Seq<u8> {
    seq![114u8, 111u8, 111u8, 116u8]
}

pub open spec fn human_name() -> Seq<u8> {
    seq![104u8, 117u8, 109u8, 110u8]
}

/// What the monkey `root` shouts; `None` where there is no such monkey, a
/// monkey names a monkey that there is not, or no number is found for
/// `root`.
pub open spec fn shouted(jobs: Seq<Job>) -> Option<Num> {
    if !resolvable(jobs) {
        None
    } else {
        match place_of(jobs, root_name(), jobs.len()) {
            Some(root) => match finding(resolved(jobs), root, jobs.len()) {
                Finding::Known(v) => Some(v),
                _ => None,
            },
            None => None,
        }
    }
}

/// What the monkey `root` shouts, where it shouts a number.
pub fn try_part1(input: &Vec<Monkey>) -> (r: Option<Num>)
    ensures
        r == shouted(jobs_of(input@)),
{
    let root_word: [u8; 4] = [114, 111, 111, 116];
    assert(root_word@ =~= root_name());
    let calcs = match resolve(input) {
        Some(c) => c,
        None => {
            return None;
        },
    };
    let root = match find_name(input, root_word.as_slice()) {
        Some(i) => i,
        None => {
            return None;
        },
    };
    let found = settle(&calcs);
    match found[root] {
        Finding::Known(v) => Some(v),
        _ => None,
    }
}

/// What the monkey `root` shouts.
pub fn part1(input: &Vec<Monkey>) -> (answer: Num)
    requires
        shouted(jobs_of(input@)).is_some(),
    ensures
        shouted(jobs_of(input@)) == Some(answer),
{
    try_part1(input).unwrap()
}

/// The monkeys of the second part: the monkey at `human` is the human,
/// and the monkey at `root` compares its two numbers.
pub open spec fn recast(nodes: Seq<Node>, human: int, root: int) -> Seq<Node> {
    nodes.update(human, Node { op: Operation::Human, ..nodes[human] }).update(
        root,
        Node { op: Operation::Equals, ..nodes[root] },
    )
}

/// Whether the operation takes two numbers.
pub open spec fn takes_two(op: Operation) -> bool {
    match op {
        Operation::Literal(_) => false,
        Operation::Human => false,
        _ => true,
    }
}

/// The number that the monkey at place `i` has to shout for `target`, where
/// one follows the one monkey of each pair whose number is not known, as
/// long as the number of the other is known, through at most `depth`
/// monkeys. `None` where the needed number is not found, or `depth` monkeys
/// are not enough.
pub open spec fn peeled(nodes: Seq<Node>, i: int, target: Num, depth: nat) -> Option<Num>
    decreases depth,
{
    if depth == 0 {
        None
    } else if !takes_two(nodes[i].op) {
        Some(target)
    } else {
        let left = finding(nodes, nodes[i].left, nodes.len());
        let right = finding(nodes, nodes[i].right, nodes.len());
        match (left, right) {
            (Finding::Known(l), _) => match right_for(nodes[i].op, l as int, target as int) {
                Some(t) => peeled(nodes, nodes[i].right, t as Num, (depth - 1) as nat),
                None => None,
            },
            (_, Finding::Known(r)) => match left_for(nodes[i].op, r as int, target as int) {
                Some(t) => peeled(nodes, nodes[i].left, t as Num, (depth - 1) as nat),
                None => None,
            },
            _ => Some(target),
        }
    }
}

/// What the human has to shout for the two numbers of `root` to be equal,
/// as `peeled` finds it from the number of `root` that is known; `None`
/// where a monkey is missing, both or none of the numbers of `root` are
/// known, or `peeled` finds nothing.
pub open spec fn needed(jobs: Seq<Job>) -> Option<Num> {
    if !resolvable(jobs) {
        None
    } else {
        match (place_of(jobs, human_name(), jobs.len()), place_of(jobs, root_name(), jobs.len())) {
            (Some(human), Some(root)) => {
                let nodes = recast(resolved(jobs), human, root);
                let left = finding(nodes, nodes[root].left, nodes.len());
                let right = finding(nodes, nodes[root].right, nodes.len());
                match (left, right) {
                    (Finding::Known(l), Finding::Symbolic) => peeled(
                        nodes,
                        nodes[root].right,
                        l,
                        nodes.len(),
                    ),
                    (Finding::Symbolic, Finding::Known(r)) => peeled(
                        nodes,
                        nodes[root].left,
                        r,
                        nodes.len(),
                    ),
                    _ => None,
                }
            },
            _ => None,
        }
    }
}

/// The number that the monkey at place `from` has to shout for `target`.
pub fn peel(calcs: &Vec<Calculation>, found: &Vec<Finding>, from: usize, target: Num) -> (r:
    Option<Num>)
    requires
        linked(nodes_of(calcs@)),
        from < calcs.len(),
        found.len() == calcs.len(),
        forall|i: int|
            0 <= i < calcs.len() ==> #[trigger] found[i] == finding(
                nodes_of(calcs@),
                i,
                calcs.len() as nat,
            ),
    ensures
        r == peeled(nodes_of(calcs@), from as int, target, calcs.len() as nat),
{
    let ghost nodes = nodes_of(calcs@);
    let mut at = from;
    let mut cur_result = target;
    let mut depth: usize = calcs.len();
    while depth > 0
        invariant
            nodes == nodes_of(calcs@),
            linked(nodes),
            at < calcs.len(),
            depth <= calcs.len(),
            found.len() == calcs.len(),
            forall|i: int|
                0 <= i < calcs.len() ==> #[trigger] found[i] == finding(nodes, i, calcs.len() as nat),
            peeled(nodes, at as int, cur_result, depth as nat) == peeled(
                nodes,
                from as int,
                target,
                calcs.len() as nat,
            ),
        decreases depth,
    {
        let c = &calcs[at];
        proof {
            assert(nodes[at as int] == c@);
            assert(0 <= nodes[at as int].left < nodes.len() && 0 <= nodes[at as int].right
                < nodes.len());
        }
        match c.op {
            Operation::Literal(_) => {
                return Some(cur_result);
            },
            Operation::Human => {
                return Some(cur_result);
            },
            op => {
                let l = if c.parameters.len() > 0 {
                    c.parameters[0]
                } else {
                    0
                };
                let r = if c.parameters.len() > 1 {
                    c.parameters[1]
                } else {
                    0
                };
                match (found[l], found[r]) {
                    (Finding::Known(n), _) => {
                        match op.try_evaluate_for_right(n, cur_result) {
                            Some(t) => {
                                at = r;
                                cur_result = t;
                            },
                            None => {
                                return None;
                            },
                        }
                    },
                    (_, Finding::Known(n)) => {
                        match op.try_evaluate_for_left(n, cur_result) {
                            Some(t) => {
                                at = l;
                                cur_result = t;
                            },
                            None => {
                                return None;
                            },
                        }
                    },
                    _ => {
                        return Some(cur_result);
                    },
                }
            },
        }
        depth -= 1;
    }
    None
}

/// What the human has to shout, where a number is found.
pub fn try_part2(input: &Vec<Monkey>) -> (r: Option<Num>)
    ensures
        r == needed(jobs_of(input@)),
{
    let root_word: [u8; 4] = [114, 111, 111, 116];
    let human_word: [u8; 4] = [104, 117, 109, 110];
    assert(root_word@ =~= root_name());
    assert(human_word@ =~= human_name());
    let mut calcs = match resolve(input) {
        Some(c) => c,
        None => {
            return None;
        },
    };
    let human = match find_name(input, human_word.as_slice()) {
        Some(i) => i,
        None => {
            return None;
        },
    };
    let root = match find_name(input, root_word.as_slice()) {
        Some(i) => i,
        None => {
            return None;
        },
    };
    let ghost before = nodes_of(calcs@);
    // Copy over the operations where we can change them with overrides
    calcs[human].op = Operation::Human;
    calcs[root].op = Operation::Equals;
    proof {
        assert(nodes_of(calcs@) =~= recast(before, human as int, root as int));
        assert forall|k: int| 0 <= k < nodes_of(calcs@).len() implies 0 <= (
        #[trigger] nodes_of(calcs@)[k]).left < nodes_of(calcs@).len() && 0 <= nodes_of(
            calcs@,
        )[k].right < nodes_of(calcs@).len() by {
            assert(0 <= before[k].left < before.len() && 0 <= before[k].right < before.len());
        }
    }
    let found = settle(&calcs);
    let c = &calcs[root];
    let ghost nodes = nodes_of(calcs@);
    proof {
        assert(nodes[root as int] == c@);
        assert(0 <= nodes[root as int].left < nodes.len() && 0 <= nodes[root as int].right
            < nodes.len());
    }
    let l = if c.parameters.len() > 0 {
        c.parameters[0]
    } else {
        0
    };
    let r = if c.parameters.len() > 1 {
        c.parameters[1]
    } else {
        0
    };
    match (found[l], found[r]) {
        (Finding::Known(n), Finding::Symbolic) => peel(&calcs, &found, r, n),
        (Finding::Symbolic, Finding::Known(n)) => peel(&calcs, &found, l, n),
        _ => None,
    }
}

/// What the human has to shout for the two numbers of `root` to be equal.
pub fn part2(input: &Vec<Monkey>) -> (answer: Num)
    requires
        needed(jobs_of(input@)).is_some(),
    ensures
        needed(jobs_of(input@)) == Some(answer),
{
    try_part2(input).unwrap()
}

} // verus!
