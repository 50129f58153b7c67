//! A one-register machine: the value of the register during each cycle, the
//! strength of the signal at chosen cycles, and the picture that the
//! register draws.
use crate::text::{
    decimal, decimal_of, lines, lines_of, parse_signed, push_char, rows, signed_of, words,
    words_of,
};
use vstd::prelude::*;
use vstd::string::StringSliceAdditionalSpecFns;

verus! {

/// An instruction.
#[derive(Debug)]
pub enum Command {
    AddX(i64),
    NoOp,
}

pub const FIRST_CHECK: usize = 20;

pub const PERIOD: usize = 40;

/// The most instructions that a program may have.
pub const MAX_PROGRAM: usize = 0x3fff_ffff;

/// The instruction that a line writes: `noop`, or `addx` and a number that
/// fits `i64`.
pub open spec fn command_of(line: Seq<u8>) -> Option<Command> {
    let w = words_of(line);
    if w.len() == 0 {
        None
    } else if w[0] == seq![110u8, 111u8, 111u8, 112u8] {
        Some(Command::NoOp)
    } else if w[0] == seq![97u8, 100u8, 100u8, 120u8] && w.len() >= 2 {
        match signed_of(w[1]) {
            Some(v) => if i64::MIN <= v <= i64::MAX {
                Some(Command::AddX(v as i64))
            } else {
                None
            },
            None => None,
        }
    } else {
        None
    }
}

/// Whether every line of the text writes an instruction.
pub open spec fn well_formed(text: Seq<u8>) -> bool {
    forall|i: int|
        0 <= i < lines_of(text).len() ==> command_of(#[trigger] lines_of(text)[i]).is_some()
}

/// Whether `program` holds the instructions that the lines write.
pub open spec fn text_says(text: Seq<u8>, program: Seq<Command>) -> bool {
    &&& program.len() == lines_of(text).len()
    &&& forall|i: int|
        0 <= i < program.len() ==> command_of(lines_of(text)[i]) == Some(#[trigger] program[i])
}

/// The register after the program: 1 and all that was added.
pub open spec fn register_after(program: Seq<Command>) -> int
    decreases program.len(),
{
    if program.len() == 0 {
        1
    } else {
        register_after(program.drop_last()) + match program.last() {
            Command::AddX(v) => v as int,
            Command::NoOp => 0,
        }
    }
}

/// The value of the register during each cycle of the program: an addition
/// takes two cycles and shows only after them, the other instruction takes
/// one.
pub open spec fn cycles(program: Seq<Command>) -> Seq<int>
    decreases program.len(),
{
    if program.len() == 0 {
        Seq::empty()
    } else {
        let before = cycles(program.drop_last());
        let x = register_after(program.drop_last());
        match program.last() {
            Command::AddX(_) => before.push(x).push(x),
            Command::NoOp => before.push(x),
        }
    }
}

/// The sum, over cycles 20, 60, 100 and so on, of the cycle's number times
/// the register's value during it.
pub open spec fn signal_sum(xs: Seq<int>) -> int
    decreases xs.len(),
{
    if xs.len() == 0 {
        0
    } else {
        signal_sum(xs.drop_last()) + if xs.len() >= 20 && (xs.len() - 20) % 40 == 0 {
            xs.last() * xs.len()
        } else {
            0
        }
    }
}

/// The pixel of a column: lit where the register is within one of it.
pub open spec fn pixel_of(value: int, column: int) -> char {
    if -1 <= value - column <= 1 {
        '#'
    } else {
        ' '
    }
}

/// The picture: one pixel for each cycle, and a line break after every 40.
pub open spec fn picture(xs: Seq<int>) -> Seq<char>
    decreases xs.len(),
{
    if xs.len() == 0 {
        Seq::empty()
    } else {
        let row = picture(xs.drop_last()).push(pixel_of(xs.last(), (xs.len() - 1) % 40));
        if xs.len() % 40 == 0 {
            row.push('\n')
        } else {
            row
        }
    }
}

impl Command {
    /// Reads an instruction from its line.
    pub fn parse(line: &[u8]) -> (r: Option<Command>)
        ensures
            r == command_of(line@),
    {
        let w = words(line);
        if w.len() == 0 {
            return None;
        }
        assert(rows(w@)[0] == w[0]@);
        let name = w[0].as_slice();
        if name.len() == 4 && name[0] == 110 && name[1] == 111 && name[2] == 111 && name[3] == 112 {
            assert(name@ =~= seq![110u8, 111u8, 111u8, 112u8]);
            Some(Command::NoOp)
        } else if name.len() == 4 && name[0] == 97 && name[1] == 100 && name[2] == 100 && name[3]
            == 120 && w.len() >= 2 {
            assert(name@ =~= seq![97u8, 100u8, 100u8, 120u8]);
            assert(rows(w@)[1] == w[1]@);
            match parse_signed(w[1].as_slice()) {
                Some(v) => Some(Command::AddX(v)),
                None => None,
            }
        } else {
            proof {
                let noop = seq![110u8, 111u8, 111u8, 112u8];
                let addx = seq![97u8, 100u8, 100u8, 120u8];
                if name@ == noop {
                    assert(noop.len() == 4 && noop[0] == 110 && noop[1] == 111 && noop[2] == 111
                        && noop[3] == 112);
                }
                if name@ == addx {
                    assert(addx.len() == 4 && addx[0] == 97 && addx[1] == 100 && addx[2] == 100
                        && addx[3] == 120);
                }
            }
            None
        }
    }
}

/// The program of the text, one instruction from each line; `None` where a
/// line writes none.
pub fn parse(input: &str) -> (r: Option<Vec<Command>>)
    ensures
        r.is_some() == well_formed(input.spec_bytes()),
        r matches Some(program) ==> text_says(input.spec_bytes(), program@),
{
    let all = lines(input.as_bytes());
    let ghost ls = lines_of(input.spec_bytes());
    let mut program: Vec<Command> = Vec::new();
    let mut i: usize = 0;
    while i < all.len()
        invariant
            i <= all.len(),
            rows(all@) == ls,
            ls == lines_of(input.spec_bytes()),
            program.len() == i,
            forall|k: int| 0 <= k < i ==> command_of(ls[k]) == Some(#[trigger] program[k]),
        decreases all.len() - i,
    {
        assert(rows(all@)[i as int] == all[i as int]@);
        match Command::parse(all[i].as_slice()) {
            Some(command) => {
                program.push(command);
            },
            None => {
                assert(!command_of(lines_of(input.spec_bytes())[i as int]).is_some());
                return None;
            },
        }
        i += 1;
    }
    assert forall|k: int| 0 <= k < ls.len() implies command_of(#[trigger] ls[k]).is_some() by {
        assert(command_of(ls[k]) == Some(program[k]));
    }
    Some(program)
}

/// The program of the text, one instruction from each line.
pub fn generator(input: &str) -> (program: Vec<Command>)
    requires
        well_formed(input.spec_bytes()),
    ensures
        text_says(input.spec_bytes(), program@),
{
    parse(input).unwrap()
}

/// The machine: the register before and after the last instruction, and
/// the cycles that have passed.
pub struct State {
    pub prev: i64,
    pub x: i64,
    pub time: usize,
}

impl State {
    /// Whether this is the machine after `program`.
    pub open spec fn is_after(&self, program: Seq<Command>) -> bool {
        &&& self.x == register_after(program)
        &&& self.time == cycles(program).len()
        &&& program.len() > 0 ==> self.prev == register_after(program.drop_last())
        &&& program.len() > 0 ==> self.time >= 1 && cycles(program).last() == self.prev
        &&& self.time <= 2 * program.len()
    }

    /// The machine before the first instruction.
    pub fn default() -> (s: State)
        ensures
            s.is_after(Seq::empty()),
            s.prev == 1,
    {
        State { prev: 1, x: 1, time: 0 }
    }

    /// Runs one instruction.
    pub fn execute(&mut self, cmd: &Command)
        requires
            old(self).time <= usize::MAX - 2,
            i64::MIN <= old(self).x + (match cmd {
                Command::AddX(v) => *v as int,
                Command::NoOp => 0,
            }) <= i64::MAX,
        ensures
            final(self).prev == old(self).x,
            final(self).x == old(self).x + (match cmd {
                Command::AddX(v) => *v as int,
                Command::NoOp => 0,
            }),
            final(self).time == old(self).time + (match cmd {
                Command::AddX(_) => 2int,
                Command::NoOp => 1int,
            }),
    {
        self.prev = self.x;
        match cmd {
            Command::AddX(val) => {
                self.x = self.x + *val;
                self.time = self.time + 2;
            },
            Command::NoOp => {
                self.time = self.time + 1;
            },
        }
    }
}

/// Whether the register stays within `i64` all through the program, which
/// is no longer than `MAX_PROGRAM`.
pub open spec fn runs(program: Seq<Command>) -> bool {
    &&& program.len() <= MAX_PROGRAM
    &&& forall|n: int|
        0 <= n <= program.len() ==> i64::MIN <= #[trigger] register_after(program.take(n))
            <= i64::MAX
}

/// Whether the sum of the signal strengths stays within `i64` all through
/// the program.
pub open spec fn signals_fit(program: Seq<Command>) -> bool {
    forall|n: int|
        0 <= n <= program.len() ==> i64::MIN <= #[trigger] signal_sum(cycles(program.take(n)))
            <= i64::MAX
}

/// The sum of the signal strengths at cycles 20, 60, 100 and so on, in
/// decimal.
pub fn part1(input: &Vec<Command>) -> (answer: String)
    requires
        runs(input@),
        signals_fit(input@),
    ensures
        answer@ == decimal_of(signal_sum(cycles(input@))),
{
    let mut next_cycle: usize = FIRST_CHECK;
    let mut state = State::default();
    let mut result: i64 = 0;
    let mut i: usize = 0;
    assert(input@.take(0) =~= Seq::<Command>::empty());
    while i < input.len()
        invariant
            i <= input.len(),
            runs(input@),
            signals_fit(input@),
            state.is_after(input@.take(i as int)),
            result == signal_sum(cycles(input@.take(i as int))),
            next_cycle >= 20,
            (next_cycle - 20) % 40 == 0,
            state.time < next_cycle <= state.time + 40,
        decreases input.len() - i,
    {
        let ghost before = input@.take(i as int);
        let ghost after = input@.take(i as int + 1);
        proof {
            assert(after.drop_last() =~= before);
            assert(after.last() == input@[i as int]);
            assert(i64::MIN <= register_after(after) <= i64::MAX);
            assert(i64::MIN <= signal_sum(cycles(after)) <= i64::MAX);
            let xs = cycles(after);
            let mid = cycles(before).push(state.x as int);
            assert(mid.drop_last() =~= cycles(before));
            assert(signal_sum(mid) == signal_sum(cycles(before)) + if mid.len() >= 20 && (
            mid.len() - 20) % 40 == 0 {
                state.x * mid.len()
            } else {
                0
            });
            match input@[i as int] {
                Command::AddX(_) => {
                    assert(xs.drop_last() =~= mid);
                    assert(signal_sum(xs) == signal_sum(mid) + if xs.len() >= 20 && (xs.len()
                        - 20) % 40 == 0 {
                        state.x * xs.len()
                    } else {
                        0
                    });
                },
                Command::NoOp => {
                    assert(xs =~= mid);
                },
            }
        }
        state.execute(&input[i]);
        if state.time >= next_cycle {
            assert(-0x8000_0000_0000_0000 * 0x1_0000_0000 <= state.prev * next_cycle
                <= 0x8000_0000_0000_0000 * 0x1_0000_0000) by (nonlinear_arith)
                requires
                    -0x8000_0000_0000_0000 <= state.prev <= 0x8000_0000_0000_0000,
                    0 <= next_cycle <= 0x1_0000_0000,
            ;
            let strength: i128 = state.prev as i128 * next_cycle as i128;
            result = (result as i128 + strength) as i64;
            next_cycle = next_cycle + PERIOD;
        }
        i += 1;
    }
    assert(input@.take(i as int) =~= input@);
    decimal(result)
}

/// The pixel of a column.
pub fn pixel(value: i64, column: usize) -> (c: char)
    requires
        column < 40,
    ensures
        c == pixel_of(value as int, column as int),
{
    let difference: i128 = value as i128 - column as i128;
    if -1 <= difference && difference <= 1 {
        '#'
    } else {
        ' '
    }
}

/// The picture that the register draws, a line of 40 pixels at a time.
pub fn part2(input: &Vec<Command>) -> (screen: String)
    requires
        runs(input@),
    ensures
        screen@ == picture(cycles(input@)),
{
    let mut result = String::new();
    let mut state = State::default();
    let mut time: usize = 0;
    let mut i: usize = 0;
    assert(input@.take(0) =~= Seq::<Command>::empty());
    while i < input.len()
        invariant
            i <= input.len(),
            runs(input@),
            state.is_after(input@.take(i as int)),
            time == state.time,
            result@ == picture(cycles(input@.take(i as int))),
        decreases input.len() - i,
    {
        let ghost before = input@.take(i as int);
        let ghost after = input@.take(i as int + 1);
        proof {
            assert(after.drop_last() =~= before);
            assert(after.last() == input@[i as int]);
            assert(i64::MIN <= register_after(after) <= i64::MAX);
        }
        state.execute(&input[i]);
        let ghost xs = cycles(after);
        assert(xs.take(time as int) =~= cycles(before));
        while time < state.time
            invariant
                i < input.len(),
                time <= state.time == xs.len(),
                xs == cycles(after),
                after.drop_last() == before,
                after.last() == input@[i as int],
                time >= cycles(before).len(),
                state.prev == register_after(before),
                result@ == picture(xs.take(time as int)),
            decreases state.time - time,
        {
            proof {
                assert(xs.take(time as int + 1).drop_last() =~= xs.take(time as int));
                assert(xs.take(time as int + 1).last() == xs[time as int]);
                assert(xs[time as int] == state.prev);
            }
            push_char(&mut result, pixel(state.prev, time % PERIOD));
            time = time + 1;
            if time % PERIOD == 0 {
                push_char(&mut result, '\n');
            }
        }
        assert(xs.take(time as int) =~= xs);
        i += 1;
    }
    assert(input@.take(i as int) =~= input@);
    result
}

} // verus!
