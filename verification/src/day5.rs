//! Supply stacks: a drawing of stacks of crates, and moves of crates from
//! stack to stack, one crate at a time or several together.
use crate::text::{
    lines, lines_of, natural_of, parse_natural, push_char, rows, words, words_of, NEWLINE,
    SPACE,
};
use vstd::prelude::*;
use vstd::slice::slice_subrange;
use vstd::string::StringSliceAdditionalSpecFns;

verus! {

/// The stacks, each from its bottom crate to its top crate.
#[derive(Clone, Debug)]
pub struct State {
    pub stacks: Vec<Vec<char>>,
}

/// A move of crates: how many, and the places of the stacks, counted from
/// 0.
#[derive(Debug)]
pub struct Move {
    pub num_to_move: usize,
    pub from: usize,
    pub to: usize,
}

/// The drawing and the moves.
#[derive(Debug)]
pub struct InputType {
    pub state: State,
    pub moves: Vec<Move>,
}

/// The crates of each stack.
pub open spec fn piles(v: Seq<Vec<char>>) -> Seq<Seq<char>> {
    v.map_values(|s: Vec<char>| s@)
}

impl View for State {
    type V = Seq<Seq<char>>;

    open spec fn view(&self) -> Seq<Seq<char>> {
        piles(self.stacks@)
    }
}

/// The place of the first empty line, that is of two newlines in a row; the
/// length of the text where there is none.
pub open spec fn blank_line_at(s: Seq<u8>) -> int
    decreases s.len(),
{
    if s.len() < 2 {
        s.len() as int
    } else {
        let before = blank_line_at(s.drop_last());
        if before < s.len() - 2 {
            before
        } else if s[s.len() - 2] == NEWLINE && s[s.len() - 1] == NEWLINE {
            s.len() - 2
        } else {
            s.len() as int
        }
    }
}

/// `blank_line_at` is the least place at which two newlines stand.
pub proof fn lemma_blank_line_at(s: Seq<u8>)
    ensures
        blank_line_at(s) == s.len() || 0 <= blank_line_at(s) <= s.len() - 2,
        blank_line_at(s) < s.len() ==> s[blank_line_at(s)] == NEWLINE && s[blank_line_at(s) + 1]
            == NEWLINE,
        forall|j: int|
            0 <= j < blank_line_at(s) && j + 1 < s.len() ==> !(#[trigger] s[j] == NEWLINE && s[j
                + 1] == NEWLINE),
    decreases s.len(),
{
    if s.len() >= 2 {
        let t = s.drop_last();
        lemma_blank_line_at(t);
        assert forall|j: int| 0 <= j < blank_line_at(s) && j + 1 < s.len() implies !(
        #[trigger] s[j] == NEWLINE && s[j + 1] == NEWLINE) by {
            if j + 1 < t.len() {
                assert(t[j] == s[j] && t[j + 1] == s[j + 1]);
            }
        }
    }
}

/// The number of stacks that a line of the drawing shows: a crate's letter
/// stands at every fourth place from place 1 on.
pub open spec fn columns(line: Seq<u8>) -> int {
    (line.len() as int + 2) / 4
}

/// The stacks after the first `n` columns of a line were put on them: a
/// letter goes on top of its stack, a space leaves the stack as it is.
pub open spec fn add_row_upto(stacks: Seq<Seq<char>>, line: Seq<u8>, n: int) -> Seq<Seq<char>> {
    Seq::new(
        (if stacks.len() >= n {
            stacks.len() as int
        } else {
            n
        }) as nat,
        |x: int|
            {
                let base = if x < stacks.len() {
                    stacks[x]
                } else {
                    Seq::empty()
                };
                if x < n && line[4 * x + 1] != SPACE {
                    base.push(line[4 * x + 1] as char)
                } else {
                    base
                }
            },
    )
}

/// The stacks after a line of the drawing was put on them.
pub open spec fn add_row(stacks: Seq<Seq<char>>, line: Seq<u8>) -> Seq<Seq<char>> {
    add_row_upto(stacks, line, columns(line))
}

/// The stacks that the lines of a drawing show, the last line lowest.
pub open spec fn stacks_of(drawing: Seq<Seq<u8>>) -> Seq<Seq<char>>
    decreases drawing.len(),
{
    if drawing.len() == 0 {
        Seq::empty()
    } else {
        add_row(stacks_of(drawing.skip(1)), drawing[0])
    }
}

/// The stacks that a text draws; its last line, which numbers the stacks,
/// is left out.
pub open spec fn drawn(text: Seq<u8>) -> Seq<Seq<char>> {
    let ls = lines_of(text);
    if ls.len() == 0 {
        Seq::empty()
    } else {
        stacks_of(ls.drop_last())
    }
}

/// The number that a word writes, where it fits `usize`.
pub open spec fn size_of(word: Seq<u8>) -> Option<int> {
    match natural_of(word) {
        Some(v) => if v <= usize::MAX {
            Some(v as int)
        } else {
            None
        },
        None => None,
    }
}

/// The move that a line writes: its second word is the number of crates,
/// its fourth and sixth are the stacks, counted from 1.
pub open spec fn move_of(line: Seq<u8>) -> Option<(int, int, int)> {
    let w = words_of(line);
    if w.len() < 6 {
        None
    } else if size_of(w[1]).is_some() && size_of(w[3]).is_some() && size_of(w[5]).is_some()
        && size_of(w[3]).unwrap() >= 1 && size_of(w[5]).unwrap() >= 1 {
        Some((size_of(w[1]).unwrap(), size_of(w[3]).unwrap() - 1, size_of(w[5]).unwrap() - 1))
    } else {
        None
    }
}

/// Whether the text has an empty line, and every line after it writes a
/// move.
pub open spec fn well_formed(text: Seq<u8>) -> bool {
    &&& blank_line_at(text) < text.len()
    &&& forall|i: int|
        0 <= i < lines_of(text.skip(blank_line_at(text) + 2)).len() ==> move_of(
            #[trigger] lines_of(text.skip(blank_line_at(text) + 2))[i],
        ).is_some()
}

impl Move {
    /// The three numbers of the move.
    pub open spec fn triple(&self) -> (int, int, int) {
        (self.num_to_move as int, self.from as int, self.to as int)
    }

    /// Reads a move from its line.
    pub fn parse(s: &[u8]) -> (r: Option<Move>)
        ensures
            r.is_some() == move_of(s@).is_some(),
            r matches Some(m) ==> move_of(s@) == Some(m.triple()),
    {
        let w = words(s);
        if w.len() < 6 {
            return None;
        }
        proof {
            let ws = rows(w@);
            assert(ws[1] == w[1]@ && ws[3] == w[3]@ && ws[5] == w[5]@);
        }
        let num = read_size(w[1].as_slice());
        let from = read_size(w[3].as_slice());
        let to = read_size(w[5].as_slice());
        if num.is_none() || from.is_none() || to.is_none() {
            return None;
        }
        if from.unwrap() < 1 || to.unwrap() < 1 {
            return None;
        }
        Some(Move { num_to_move: num.unwrap(), from: from.unwrap() - 1, to: to.unwrap() - 1 })
    }
}

/// Reads a number that fits `usize`.
pub fn read_size(word: &[u8]) -> (r: Option<usize>)
    ensures
        r.is_some() == size_of(word@).is_some(),
        r matches Some(c) ==> size_of(word@) == Some(c as int),
{
    match parse_natural(word) {
        Some(v) => if v <= usize::MAX as u64 {
            Some(v as usize)
        } else {
            None
        },
        None => None,
    }
}

/// Finds the first empty line.
pub fn find_blank_line(s: &[u8]) -> (at: usize)
    ensures
        at == blank_line_at(s@),
{
    proof {
        lemma_blank_line_at(s@);
    }
    if s.len() < 2 {
        return s.len();
    }
    let last = s.len() - 1;
    let mut i: usize = 0;
    while i < last
        invariant
            i <= last == s.len() - 1,
            forall|j: int|
                0 <= j < i && j + 1 < s.len() ==> !(#[trigger] s[j] == NEWLINE && s[j + 1]
                    == NEWLINE),
        decreases last - i,
    {
        if s[i] == NEWLINE && s[i + 1] == NEWLINE {
            proof {
                lemma_blank_line_at(s@);
                let b = blank_line_at(s@);
                if b < i {
                    assert(!(s@[b] == NEWLINE && s@[b + 1] == NEWLINE));
                }
                if b > i {
                    assert(s@[i as int] == NEWLINE);
                }
            }
            return i;
        }
        i += 1;
    }
    proof {
        lemma_blank_line_at(s@);
        let b = blank_line_at(s@);
        if b < s.len() {
            assert(!(s@[b] == NEWLINE && s@[b + 1] == NEWLINE));
        }
    }
    s.len()
}

impl State {
    /// Puts one line of the drawing on the stacks.
    pub fn add_line(&mut self, line: &[u8])
        ensures
            final(self)@ == add_row(old(self)@, line@),
    {
        let ghost start = self@;
        let mut x: usize = 0;
        assert(self@ =~= add_row_upto(start, line@, 0));
        while x < line.len() / 4 + 1 && 4 * x + 1 < line.len()
            invariant
                x <= columns(line@),
                self@ == add_row_upto(start, line@, x as int),
            decreases line.len() - x,
        {
            let ghost before = self@;
            assert(self.stacks.len() == before.len());
            if x >= self.stacks.len() {
                self.stacks.push(Vec::new());
            }
            let c = line[4 * x + 1];
            if c != SPACE {
                self.stacks[x].push(c as char);
            }
            proof {
                let goal = add_row_upto(start, line@, x as int + 1);
                assert(self@.len() == goal.len());
                assert forall|k: int| 0 <= k < goal.len() implies self@[k] == goal[k] by {
                    assert(self@[k] == self.stacks[k]@);
                    if k < before.len() {
                        assert(before[k] == add_row_upto(start, line@, x as int)[k]);
                    }
                    if k == x {
                        if c != SPACE {
                            assert(self@[k] =~= goal[k]);
                        } else {
                            assert(self@[k] =~= goal[k]);
                        }
                    }
                }
                assert(self@ =~= goal);
            }
            x += 1;
        }
        assert(x == columns(line@));
    }

    /// Reads the stacks from their drawing.
    pub fn parse(s: &[u8]) -> (state: State)
        ensures
            state@ == drawn(s@),
    {
        let all = lines(s);
        let mut state = State { stacks: Vec::new() };
        if all.len() == 0 {
            assert(state@ =~= Seq::<Seq<char>>::empty());
            return state;
        }
        let ghost drawing = lines_of(s@).drop_last();
        let mut k: usize = all.len() - 1;
        assert(drawing.skip(k as int) =~= Seq::<Seq<u8>>::empty());
        assert(state@ =~= stacks_of(drawing.skip(k as int)));
        while k > 0
            invariant
                k < all.len(),
                rows(all@) == lines_of(s@),
                drawing == lines_of(s@).drop_last(),
                state@ == stacks_of(drawing.skip(k as int)),
            decreases k,
        {
            k -= 1;
            proof {
                assert(rows(all@)[k as int] == all[k as int]@);
                assert(drawing.skip(k as int).skip(1) =~= drawing.skip(k as int + 1));
                assert(drawing.skip(k as int)[0] == all[k as int]@);
            }
            state.add_line(all[k].as_slice());
        }
        assert(drawing.skip(0) =~= drawing);
        state
    }

    /// The top crates of the stacks that have one, in the order of the
    /// stacks.
    pub fn get_top(&self) -> (top: String)
        ensures
            top@ == tops(self@),
    {
        let mut top = String::new();
        let mut i: usize = 0;
        assert(self@.take(0) =~= Seq::<Seq<char>>::empty());
        while i < self.stacks.len()
            invariant
                i <= self.stacks.len(),
                top@ == tops(self@.take(i as int)),
            decreases self.stacks.len() - i,
        {
            proof {
                assert(self@.take(i as int + 1).drop_last() =~= self@.take(i as int));
                assert(self@.take(i as int + 1).last() == self.stacks[i as int]@);
            }
            let stack = &self.stacks[i];
            if stack.len() > 0 {
                push_char(&mut top, stack[stack.len() - 1]);
            }
            i += 1;
        }
        assert(self@.take(i as int) =~= self@);
        top
    }

    /// Makes the moves, one crate at a time.
    pub fn do_moves(&mut self, cmds: &[Move])
        requires
            feasible(old(self)@, triples(cmds@), false),
        ensures
            final(self)@ == after_moves(old(self)@, triples(cmds@), false),
    {
        let ghost start = self@;
        let ghost ms = triples(cmds@);
        let mut i: usize = 0;
        assert(ms.take(0) =~= Seq::<(int, int, int)>::empty());
        while i < cmds.len()
            invariant
                i <= cmds.len(),
                ms == triples(cmds@),
                feasible(start, ms, false),
                self@ == after_moves(start, ms.take(i as int), false),
            decreases cmds.len() - i,
        {
            let cmd = &cmds[i];
            let ghost before = self@;
            proof {
                lemma_feasible_prefix(start, ms, false, i as int + 1);
                assert(ms.take(i as int + 1).drop_last() =~= ms.take(i as int));
                assert(ms.take(i as int + 1).last() == cmd.triple());
                assert(can_move(before, cmd.triple()));
            }
            let ghost source = before[cmd.from as int];
            let ghost target = before[cmd.to as int];
            let mut j: usize = 0;
            while j < cmd.num_to_move
                invariant
                    j <= cmd.num_to_move <= source.len(),
                    cmd.from < before.len(),
                    cmd.to < before.len(),
                    self@.len() == before.len(),
                    source == before[cmd.from as int],
                    target == before[cmd.to as int],
                    forall|k: int|
                        0 <= k < before.len() && k != cmd.from && k != cmd.to ==> self@[k]
                            == before[k],
                    cmd.from != cmd.to ==> self@[cmd.from as int] == source.take(source.len() - j),
                    cmd.from != cmd.to ==> self@[cmd.to as int] == target + lifted(
                        source,
                        j as int,
                    ),
                    cmd.from == cmd.to ==> self@[cmd.from as int] == source,
                decreases cmd.num_to_move - j,
            {
                assert(self.stacks[cmd.from as int]@ == self@[cmd.from as int]);
                let ch = self.stacks[cmd.from].pop().unwrap();
                self.stacks[cmd.to].push(ch);
                proof {
                    if cmd.from != cmd.to {
                        assert(self@[cmd.from as int] =~= source.take(source.len() - j - 1));
                        assert(self@[cmd.to as int] =~= target + lifted(source, j as int + 1));
                    } else {
                        assert(self@[cmd.from as int] =~= source);
                    }
                }
                j += 1;
            }
            assert(self@ =~= moved(before, cmd.triple(), false));
            i += 1;
        }
        assert(ms.take(i as int) =~= ms);
    }

    /// Makes the moves, all crates of a move together.
    pub fn do_moves_together(&mut self, cmds: &[Move])
        requires
            feasible(old(self)@, triples(cmds@), true),
        ensures
            final(self)@ == after_moves(old(self)@, triples(cmds@), true),
    {
        let ghost start = self@;
        let ghost ms = triples(cmds@);
        let mut i: usize = 0;
        assert(ms.take(0) =~= Seq::<(int, int, int)>::empty());
        while i < cmds.len()
            invariant
                i <= cmds.len(),
                ms == triples(cmds@),
                feasible(start, ms, true),
                self@ == after_moves(start, ms.take(i as int), true),
            decreases cmds.len() - i,
        {
            let cmd = &cmds[i];
            let ghost before = self@;
            proof {
                lemma_feasible_prefix(start, ms, true, i as int + 1);
                assert(ms.take(i as int + 1).drop_last() =~= ms.take(i as int));
                assert(ms.take(i as int + 1).last() == cmd.triple());
                assert(can_move(before, cmd.triple()));
            }
            let ghost source = before[cmd.from as int];
            let ghost target = before[cmd.to as int];
            assert(self.stacks[cmd.from as int]@ == source);
            let end = self.stacks[cmd.from].len();
            let from_posn = end - cmd.num_to_move;
            let mut j: usize = from_posn;
            while j < end
                invariant
                    from_posn <= j <= end == source.len(),
                    cmd.from < before.len(),
                    cmd.to < before.len(),
                    self@.len() == before.len(),
                    source == before[cmd.from as int],
                    target == before[cmd.to as int],
                    forall|k: int| 0 <= k < before.len() && k != cmd.to ==> self@[k] == before[k],
                    cmd.from != cmd.to ==> self@[cmd.to as int] == target + source.subrange(
                        from_posn as int,
                        j as int,
                    ),
                    cmd.from == cmd.to ==> self@[cmd.to as int] == source,
                decreases end - j,
            {
                if cmd.from != cmd.to {
                    assert(self.stacks[cmd.from as int]@ == self@[cmd.from as int]);
                    let ch = self.stacks[cmd.from][j];
                    self.stacks[cmd.to].push(ch);
                    assert(self@[cmd.to as int] =~= target + source.subrange(
                        from_posn as int,
                        j as int + 1,
                    ));
                }
                j += 1;
            }
            if cmd.from != cmd.to {
                self.stacks[cmd.from].truncate(from_posn);
                assert(self@[cmd.from as int] =~= source.take(from_posn as int));
                assert(source.subrange(from_posn as int, source.len() as int) =~= source.skip(
                    from_posn as int,
                ));
            }
            assert(self@ =~= moved(before, cmd.triple(), true));
            i += 1;
        }
        assert(ms.take(i as int) =~= ms);
    }
}

/// The top `n` crates of a stack in the order in which they are lifted off
/// one by one: the top crate first.
pub open spec fn lifted(stack: Seq<char>, n: int) -> Seq<char> {
    Seq::new(n as nat, |i: int| stack[stack.len() - 1 - i])
}

/// The letters of the top crates, stacks without a crate left out.
pub open spec fn tops(stacks: Seq<Seq<char>>) -> Seq<char>
    decreases stacks.len(),
{
    if stacks.len() == 0 {
        Seq::empty()
    } else if stacks.last().len() > 0 {
        tops(stacks.drop_last()).push(stacks.last().last())
    } else {
        tops(stacks.drop_last())
    }
}

/// The triples of the moves.
pub open spec fn triples(moves: Seq<Move>) -> Seq<(int, int, int)> {
    moves.map_values(|m: Move| m.triple())
}

/// Whether the move can be made: both stacks exist, and the one to take
/// from has enough crates.
pub open spec fn can_move(stacks: Seq<Seq<char>>, m: (int, int, int)) -> bool {
    &&& 0 <= m.1 < stacks.len()
    &&& 0 <= m.2 < stacks.len()
    &&& 0 <= m.0 <= stacks[m.1].len()
}

/// The stacks after a move. Crates that move together keep their order;
/// crates that move one at a time arrive in reverse. A move from a stack to
/// itself changes nothing.
pub open spec fn moved(stacks: Seq<Seq<char>>, m: (int, int, int), together: bool) -> Seq<
    Seq<char>,
> {
    let source = stacks[m.1];
    let kept = source.len() - m.0;
    if m.1 == m.2 {
        stacks
    } else {
        stacks.update(m.1, source.take(kept)).update(
            m.2,
            stacks[m.2] + if together {
                source.skip(kept)
            } else {
                lifted(source, m.0)
            },
        )
    }
}

/// The stacks after all the moves, in order.
pub open spec fn after_moves(
    stacks: Seq<Seq<char>>,
    moves: Seq<(int, int, int)>,
    together: bool,
) -> Seq<Seq<char>>
    decreases moves.len(),
{
    if moves.len() == 0 {
        stacks
    } else {
        moved(after_moves(stacks, moves.drop_last(), together), moves.last(), together)
    }
}

/// Whether each move can be made when its turn comes.
pub open spec fn feasible(
    stacks: Seq<Seq<char>>,
    moves: Seq<(int, int, int)>,
    together: bool,
) -> bool
    decreases moves.len(),
{
    if moves.len() == 0 {
        true
    } else {
        feasible(stacks, moves.drop_last(), together) && can_move(
            after_moves(stacks, moves.drop_last(), together),
            moves.last(),
        )
    }
}

/// If all moves can be made, so can the first `n` of them.
pub proof fn lemma_feasible_prefix(
    stacks: Seq<Seq<char>>,
    moves: Seq<(int, int, int)>,
    together: bool,
    n: int,
)
    requires
        feasible(stacks, moves, together),
        0 <= n <= moves.len(),
    ensures
        feasible(stacks, moves.take(n), together),
    decreases moves.len(),
{
    if n == moves.len() {
        assert(moves.take(n) =~= moves);
    } else {
        lemma_feasible_prefix(stacks, moves.drop_last(), together, n);
        assert(moves.drop_last().take(n) =~= moves.take(n));
    }
}

/// Whether `input` holds what the text says: the stacks of its drawing, and
/// the moves of the lines after the empty line.
pub open spec fn text_says(text: Seq<u8>, input: InputType) -> bool {
    let at = blank_line_at(text);
    let ls = lines_of(text.skip(at + 2));
    &&& input.state@ == drawn(text.take(at))
    &&& input.moves.len() == ls.len()
    &&& forall|i: int|
        0 <= i < ls.len() ==> move_of(ls[i]) == Some((#[trigger] input.moves[i]).triple())
}

/// Reads the drawing and the moves; `None` where the text has no empty
/// line, or a line after it writes no move.
pub fn parse(input: &str) -> (r: Option<InputType>)
    ensures
        r.is_some() == well_formed(input.spec_bytes()),
        r matches Some(v) ==> text_says(input.spec_bytes(), v),
{
    let bytes = input.as_bytes();
    let at = find_blank_line(bytes);
    if at >= bytes.len() {
        return None;
    }
    proof {
        lemma_blank_line_at(bytes@);
    }
    let drawing = slice_subrange(bytes, 0, at);
    let rest = slice_subrange(bytes, at + 2, bytes.len());
    assert(drawing@ =~= bytes@.take(at as int));
    assert(rest@ =~= bytes@.skip(at as int + 2));
    let state = State::parse(drawing);
    let all = lines(rest);
    let ghost ls = lines_of(rest@);
    let mut moves: Vec<Move> = Vec::new();
    let mut i: usize = 0;
    while i < all.len()
        invariant
            i <= all.len(),
            rows(all@) == ls,
            ls == lines_of(input.spec_bytes().skip(blank_line_at(input.spec_bytes()) + 2)),
            moves.len() == i,
            forall|k: int| 0 <= k < i ==> move_of(ls[k]) == Some((#[trigger] moves[k]).triple()),
        decreases all.len() - i,
    {
        assert(rows(all@)[i as int] == all[i as int]@);
        match Move::parse(all[i].as_slice()) {
            Some(m) => {
                moves.push(m);
            },
            None => {
                assert(!move_of(
                    lines_of(input.spec_bytes().skip(blank_line_at(input.spec_bytes()) + 2))[i as int],
                ).is_some());
                return None;
            },
        }
        i += 1;
    }
    assert forall|k: int| 0 <= k < ls.len() implies move_of(#[trigger] ls[k]).is_some() by {
        assert(move_of(ls[k]) == Some(moves[k].triple()));
    }
    Some(InputType { state, moves })
}

/// The drawing and the moves of the text.
pub fn generator(input: &str) -> (v: InputType)
    requires
        well_formed(input.spec_bytes()),
    ensures
        text_says(input.spec_bytes(), v),
{
    parse(input).unwrap()
}

/// A copy of the stacks.
pub fn copy_of(state: &State) -> (copy: State)
    ensures
        copy@ == state@,
{
    let mut stacks: Vec<Vec<char>> = Vec::new();
    let mut i: usize = 0;
    while i < state.stacks.len()
        invariant
            i <= state.stacks.len(),
            piles(stacks@) == state@.take(i as int),
        decreases state.stacks.len() - i,
    {
        let mut stack: Vec<char> = Vec::new();
        let source = &state.stacks[i];
        let mut j: usize = 0;
        while j < source.len()
            invariant
                j <= source.len(),
                stack@ == source@.take(j as int),
            decreases source.len() - j,
        {
            stack.push(source[j]);
            assert(stack@ =~= source@.take(j as int + 1));
            j += 1;
        }
        assert(source@.take(j as int) =~= source@);
        let ghost before = piles(stacks@);
        stacks.push(stack);
        assert(state@[i as int] == source@);
        assert(piles(stacks@) =~= before.push(source@));
        assert(piles(stacks@) =~= state@.take(i as int + 1));
        i += 1;
    }
    assert(state@.take(i as int) =~= state@);
    State { stacks }
}

/// The top crates after the moves were made one crate at a time.
pub fn part1(input: &InputType) -> (top: String)
    requires
        feasible(input.state@, triples(input.moves@), false),
    ensures
        top@ == tops(after_moves(input.state@, triples(input.moves@), false)),
{
    let mut state = copy_of(&input.state);
    state.do_moves(input.moves.as_slice());
    state.get_top()
}

/// The top crates after the moves were made with all crates of a move
/// together.
pub fn part2(input: &InputType) -> (top: String)
    requires
        feasible(input.state@, triples(input.moves@), true),
    ensures
        top@ == tops(after_moves(input.state@, triples(input.moves@), true)),
{
    let mut state = copy_of(&input.state);
    state.do_moves_together(input.moves.as_slice());
    state.get_top()
}

} // verus!
