//! Rocks that fall into a narrow chamber while jets of wind push them:
//! how high the tower is after a number of rocks.
use vstd::prelude::*;
use vstd::slice::slice_subrange;
use vstd::string::StringSliceAdditionalSpecFns;

verus! {

#[derive(Clone, Copy, Debug, PartialEq, Eq, Structural)]
pub enum Wind {
    Left,
    Right,
}

impl Wind {
    /// Where the wind takes what is at `x`, in the range from 0 up to
    /// `upper`; `None` at the wall.
    pub open spec fn blown(self, x: int, upper: int) -> Option<int> {
        match self {
            Wind::Left => if x > 0 {
                Some(x - 1)
            } else {
                None
            },
            Wind::Right => if x < upper - 1 {
                Some(x + 1)
            } else {
                None
            },
        }
    }

    /// The wind that a character stands for.
    pub open spec fn of(ch: u8) -> Option<Wind> {
        if ch == 60 {
            Some(Wind::Left)
        } else if ch == 62 {
            Some(Wind::Right)
        } else {
            None
        }
    }

    pub fn parse(ch: u8) -> (r: Option<Wind>)
        ensures
            r == Wind::of(ch),
    {
        if ch == 60 {
            Some(Wind::Left)
        } else if ch == 62 {
            Some(Wind::Right)
        } else {
            None
        }
    }

    /// What would be the new x given the range 0..upper?
    pub fn blow(&self, x: usize, upper: usize) -> (r: Option<usize>)
        requires
            upper >= 1,
        ensures
            match r {
                Some(nx) => self.blown(x as int, upper as int) == Some(nx as int),
                None => self.blown(x as int, upper as int).is_none(),
            },
    {
        match self {
            Wind::Left => if x > 0 {
                Some(x - 1)
            } else {
                None
            },
            Wind::Right => if x < upper - 1 {
                Some(x + 1)
            } else {
                None
            },
        }
    }
}

/// Whether a byte is white space of ASCII: a space, a tab, a line feed, a
/// form feed or a carriage return.
pub open spec fn is_blank(b: u8) -> bool {
    b == 32 || b == 9 || b == 10 || b == 12 || b == 13
}

/// The winds that the text writes, white space left out; `None` where
/// another character stands in it.
pub open spec fn winds_of(text: Seq<u8>) -> Option<Seq<Wind>>
    decreases text.len(),
{
    if text.len() == 0 {
        Some(Seq::empty())
    } else {
        match winds_of(text.drop_last()) {
            Some(before) => if is_blank(text.last()) {
                Some(before)
            } else {
                match Wind::of(text.last()) {
                    Some(w) => Some(before.push(w)),
                    None => None,
                }
            },
            None => None,
        }
    }
}

/// Where the first characters write no winds, the whole text writes none.
pub proof fn lemma_winds_fail(text: Seq<u8>, n: int)
    requires
        0 <= n <= text.len(),
        winds_of(text.take(n)).is_none(),
    ensures
        winds_of(text).is_none(),
    decreases text.len() - n,
{
    if n < text.len() {
        assert(text.take(n + 1).drop_last() =~= text.take(n));
        lemma_winds_fail(text, n + 1);
    } else {
        assert(text.take(n) =~= text);
    }
}

/// The winds that the text writes; `None` where it writes none.
pub fn parse(input: &str) -> (r: Option<Vec<Wind>>)
    ensures
        r.is_some() == winds_of(input.spec_bytes()).is_some(),
        r matches Some(winds) ==> winds_of(input.spec_bytes()) == Some(winds@),
{
    let bytes = input.as_bytes();
    let mut winds: Vec<Wind> = Vec::new();
    let mut i: usize = 0;
    assert(bytes@.take(0) =~= Seq::<u8>::empty());
    while i < bytes.len()
        invariant
            i <= bytes.len(),
            bytes@ == input.spec_bytes(),
            winds_of(bytes@.take(i as int)) == Some(winds@),
        decreases bytes.len() - i,
    {
        let b = bytes[i];
        proof {
            assert(bytes@.take(i as int + 1).drop_last() =~= bytes@.take(i as int));
            assert(bytes@.take(i as int + 1).last() == b);
        }
        if !(b == 32 || b == 9 || b == 10 || b == 12 || b == 13) {
            match Wind::parse(b) {
                Some(w) => {
                    winds.push(w);
                },
                None => {
                    proof {
                        lemma_winds_fail(bytes@, i as int + 1);
                    }
                    return None;
                },
            }
        }
        i += 1;
    }
    assert(bytes@.take(i as int) =~= bytes@);
    Some(winds)
}

pub fn generator(input: &str) -> (winds: Vec<Wind>)
    requires
        winds_of(input.spec_bytes()).is_some(),
    ensures
        winds_of(input.spec_bytes()) == Some(winds@),
{
    parse(input).unwrap()
}

#[derive(Clone, Copy, Debug, PartialEq, Eq, Structural)]
pub enum PieceKind {
    Bar,
    Plus,
    L,
    I,
    Square,
}

impl PieceKind {
    /// The rows of the rock from the bottom up, each a bitmask in the low
    /// bits.
    pub open spec fn rows(self) -> Seq<u8> {
        match self {
            PieceKind::Bar => seq![0xfu8],
            PieceKind::Plus => seq![0x2u8, 0x7u8, 0x2u8],
            PieceKind::L => seq![0x7u8, 0x4u8, 0x4u8],
            PieceKind::I => seq![0x1u8, 0x1u8, 0x1u8, 0x1u8],
            PieceKind::Square => seq![0x3u8, 0x3u8],
        }
    }

    /// The width of the rock.
    pub open spec fn width(self) -> int {
        match self {
            PieceKind::Bar => 4,
            PieceKind::Plus => 3,
            PieceKind::L => 3,
            PieceKind::I => 1,
            PieceKind::Square => 2,
        }
    }

    /// The height of the rock.
    pub open spec fn height(self) -> int {
        self.rows().len() as int
    }

    /// The rock that falls after `n` others.
    pub open spec fn nth(n: int) -> PieceKind {
        if n % 5 == 0 {
            PieceKind::Bar
        } else if n % 5 == 1 {
            PieceKind::Plus
        } else if n % 5 == 2 {
            PieceKind::L
        } else if n % 5 == 3 {
            PieceKind::I
        } else {
            PieceKind::Square
        }
    }

    /// Return the bitmask in the low bits
    pub fn shape(&self) -> (rows: Vec<u8>)
        ensures
            rows@ == self.rows(),
    {
        let rows = match self {
            PieceKind::Bar => vec![0xf],
            PieceKind::Plus => vec![0x2, 0x7, 0x2],
            PieceKind::L => vec![0x7, 0x4, 0x4],
            PieceKind::I => vec![0x1, 0x1, 0x1, 0x1],
            PieceKind::Square => vec![0x3, 0x3],
        };
        assert(rows@ =~= self.rows());
        rows
    }

    pub fn size(&self) -> (size: (usize, usize))
        ensures
            size.0 == self.width(),
            size.1 == self.height(),
    {
        match self {
            PieceKind::Bar => (4, 1),
            PieceKind::Plus | PieceKind::L => (3, 3),
            PieceKind::I => (1, 4),
            PieceKind::Square => (2, 2),
        }
    }
}

pub const INITIAL_X: usize = 2;

pub const BOARD_WIDTH: usize = 7;

pub const NEW_PIECE_HEIGHT: usize = 3;

/// The bits of a row of the rock when its left side is at `x`.
pub open spec fn mask_of(kind: PieceKind, x: int, row: int) -> u8 {
    kind.rows()[row] << (x as usize)
}

/// Whether the rock, with its left side at `x` and its bottom at `y`,
/// meets nothing that fills the chamber.
pub open spec fn free(filled: Seq<u8>, kind: PieceKind, x: int, y: int) -> bool {
    forall|row: int| 0 <= row < kind.height() ==> mask_of(kind, x, row) & #[trigger] filled[y + row] == 0
}

#[derive(Debug)]
pub struct Piece {
    /// width, height
    pub size: (usize, usize),
    /// a static list of the mask at each horizontal position.
    pub masks: Vec<Vec<u8>>,
    /// positions from the left wall
    pub x: usize,
    /// position from the bottom
    pub y: usize,
}

impl Piece {
    /// Whether the rock has masks for each place from side to side between
    /// the walls, each of the height of the rock, and is at one of the
    /// places.
    pub open spec fn fits(&self) -> bool {
        &&& 1 <= self.size.0 <= BOARD_WIDTH
        &&& self.masks.len() == BOARD_WIDTH + 1 - self.size.0
        &&& forall|x: int| 0 <= x < self.masks.len() ==> (#[trigger] self.masks[x]).len() == self.size.1
        &&& self.x < self.masks.len()
    }

    /// Whether this is a rock of the kind, with the masks for each place
    /// from side to side, at a place within the walls.
    pub open spec fn is(&self, kind: PieceKind) -> bool {
        &&& self.size.0 == kind.width()
        &&& self.size.1 == kind.height()
        &&& self.masks.len() == BOARD_WIDTH - kind.width() + 1
        &&& forall|x: int|
            0 <= x < self.masks.len() ==> (#[trigger] self.masks[x]).len() == kind.height()
        &&& forall|x: int, row: int|
            0 <= x < self.masks.len() && 0 <= row < kind.height() ==> #[trigger] self.masks[x][row]
                == mask_of(kind, x, row)
        &&& self.x < self.masks.len()
    }

    pub fn new(kind: PieceKind) -> (piece: Piece)
        ensures
            piece.is(kind),
            piece.x == 0,
            piece.y == 0,
    {
        let mut masks: Vec<Vec<u8>> = Vec::new();
        let size = kind.size();
        let base_mask = kind.shape();
        // Generate each shifted mask
        let mut x: usize = 0;
        while x <= BOARD_WIDTH - size.0
            invariant
                x <= BOARD_WIDTH - size.0 + 1,
                size.0 == kind.width(),
                size.1 == kind.height(),
                base_mask@ == kind.rows(),
                masks.len() == x,
                forall|c: int| 0 <= c < x ==> (#[trigger] masks[c]).len() == kind.height(),
                forall|c: int, row: int|
                    0 <= c < x && 0 <= row < kind.height() ==> #[trigger] masks[c][row] == mask_of(
                        kind,
                        c,
                        row,
                    ),
            decreases BOARD_WIDTH - size.0 + 1 - x,
        {
            let mut shifted: Vec<u8> = Vec::new();
            let mut row: usize = 0;
            while row < base_mask.len()
                invariant
                    row <= base_mask.len(),
                    x <= BOARD_WIDTH,
                    base_mask@ == kind.rows(),
                    shifted.len() == row,
                    forall|r: int| 0 <= r < row ==> #[trigger] shifted[r] == mask_of(kind, x as int, r),
                decreases base_mask.len() - row,
            {
                shifted.push(base_mask[row] << x);
                row += 1;
            }
            masks.push(shifted);
            x += 1;
        }
        Piece { size, masks, x: 0, y: 0 }
    }

    pub fn reset(&mut self, y: usize)
        ensures
            final(self).x == INITIAL_X,
            final(self).y == y,
            final(self).size == old(self).size,
            final(self).masks == old(self).masks,
    {
        self.x = INITIAL_X;
        self.y = y;
    }

    /// Does this piece overlap the given part of the board
    pub fn not_blocked(&self, x: usize, board: &[u8]) -> (clear: bool)
        requires
            x < self.masks.len(),
            board.len() == self.masks[x as int].len(),
        ensures
            clear == forall|row: int|
                0 <= row < board.len() ==> self.masks[x as int][row] & #[trigger] board[row] == 0,
    {
        let mut row: usize = 0;
        while row < board.len()
            invariant
                row <= board.len(),
                x < self.masks.len(),
                board.len() == self.masks[x as int].len(),
                forall|r: int| 0 <= r < row ==> self.masks[x as int][r] & #[trigger] board[r] == 0,
            decreases board.len() - row,
        {
            if self.masks[x][row] & board[row] != 0 {
                return false;
            }
            row += 1;
        }
        true
    }
}

/// The masks of a rock: for each place from side to side, its rows.
pub open spec fn masks_of(kind: PieceKind) -> Seq<Seq<u8>> {
    Seq::new(
        (BOARD_WIDTH - kind.width() + 1) as nat,
        |x: int| Seq::new(kind.height() as nat, |row: int| mask_of(kind, x, row)),
    )
}

/// The masks as sequences.
pub open spec fn grid(masks: Seq<Vec<u8>>) -> Seq<Seq<u8>> {
    masks.map_values(|m: Vec<u8>| m@)
}

/// A rock of the kind has the masks of the kind.
pub proof fn lemma_masks(piece: Piece, kind: PieceKind)
    requires
        piece.is(kind),
    ensures
        grid(piece.masks@) == masks_of(kind),
{
    let a = grid(piece.masks@);
    let b = masks_of(kind);
    assert(a.len() == b.len());
    assert forall|x: int| 0 <= x < a.len() implies a[x] =~= b[x] by {
        assert(piece.masks[x].len() == kind.height());
        assert forall|row: int| 0 <= row < kind.height() implies a[x][row] == b[x][row] by {
            assert(piece.masks[x][row] == mask_of(kind, x, row));
        }
    }
    assert(a =~= b);
}

/// Whether the rows of a rock meet nothing that fills the chamber, when the
/// bottom of the rock is at `y`.
pub open spec fn clear(filled: Seq<u8>, shape: Seq<u8>, y: int) -> bool {
    forall|row: int| 0 <= row < shape.len() ==> shape[row] & #[trigger] filled[y + row] == 0
}

/// Where the wind takes the rock: one place on, if no wall and nothing
/// that fills the chamber is in the way.
pub open spec fn pushed(filled: Seq<u8>, masks: Seq<Seq<u8>>, x: int, y: int, wind: Wind) -> int {
    match wind.blown(x, masks.len() as int) {
        Some(nx) => if clear(filled, masks[nx], y) {
            nx
        } else {
            x
        },
        None => x,
    }
}

/// The chamber with the rock put in place.
pub open spec fn placed(filled: Seq<u8>, shape: Seq<u8>, y: int) -> Seq<u8> {
    Seq::new(
        filled.len(),
        |r: int|
            if y <= r < y + shape.len() {
                filled[r] | shape[r - y]
            } else {
                filled[r]
            },
    )
}

pub struct Board {
    /// bitmap of the
    pub filled: Vec<u8>,
    /// The level of the first empty row
    pub current_height: usize,
}

impl Board {
    pub fn new(height: usize) -> (board: Board)
        ensures
            board.filled.len() == height,
            board.current_height == 0,
            forall|r: int| 0 <= r < height ==> #[trigger] board.filled[r] == 0,
    {
        let mut filled: Vec<u8> = Vec::new();
        let mut r: usize = 0;
        while r < height
            invariant
                r <= height,
                filled.len() == r,
                forall|k: int| 0 <= k < r ==> #[trigger] filled[k] == 0,
            decreases height - r,
        {
            filled.push(0);
            r += 1;
        }
        Board { filled, current_height: 0 }
    }

    /// If the piece can be blown in the given direction, do so.
    pub fn blow(&self, piece: &mut Piece, wind: Wind)
        requires
            old(piece).fits(),
            old(piece).y + old(piece).size.1 <= self.filled.len(),
        ensures
            final(piece).x == pushed(
                self.filled@,
                grid(old(piece).masks@),
                old(piece).x as int,
                old(piece).y as int,
                wind,
            ),
            final(piece).y == old(piece).y,
            final(piece).size == old(piece).size,
            final(piece).masks == old(piece).masks,
            final(piece).fits(),
    {
        if let Some(new_x) = wind.blow(piece.x, BOARD_WIDTH + 1 - piece.size.0) {
            let part = slice_subrange(self.filled.as_slice(), piece.y, piece.y + piece.size.1);
            let ghost shape = piece.masks[new_x as int]@;
            assert(grid(piece.masks@)[new_x as int] == shape);
            let ok = piece.not_blocked(new_x, part);
            proof {
                assert(ok == clear(self.filled@, shape, piece.y as int)) by {
                    if ok {
                        assert forall|row: int| 0 <= row < shape.len() implies shape[row]
                            & #[trigger] self.filled@[piece.y + row] == 0 by {
                            assert(part[row] == self.filled@[piece.y + row]);
                        }
                    }
                    if clear(self.filled@, shape, piece.y as int) {
                        assert forall|row: int| 0 <= row < part.len() implies shape[row]
                            & #[trigger] part[row] == 0 by {
                            assert(part[row] == self.filled@[piece.y + row]);
                        }
                    }
                }
            }
            if ok {
                piece.x = new_x;
            }
        }
    }

    /// Can the given piece fall another level?
    pub fn can_fall(&self, piece: &Piece) -> (can: bool)
        requires
            piece.fits(),
            piece.y + piece.size.1 <= self.filled.len() + 1,
        ensures
            can == (piece.y > 0 && clear(
                self.filled@,
                grid(piece.masks@)[piece.x as int],
                piece.y - 1,
            )),
    {
        if piece.y == 0 {
            return false;
        }
        let part = slice_subrange(self.filled.as_slice(), piece.y - 1, piece.y - 1 + piece.size.1);
        let ghost shape = piece.masks[piece.x as int]@;
        assert(grid(piece.masks@)[piece.x as int] == shape);
        let ok = piece.not_blocked(piece.x, part);
        proof {
            assert(ok == clear(self.filled@, shape, piece.y - 1)) by {
                if ok {
                    assert forall|row: int| 0 <= row < shape.len() implies shape[row]
                        & #[trigger] self.filled@[piece.y - 1 + row] == 0 by {
                        assert(part[row] == self.filled@[piece.y - 1 + row]);
                    }
                }
                if clear(self.filled@, shape, piece.y - 1) {
                    assert forall|row: int| 0 <= row < part.len() implies shape[row]
                        & #[trigger] part[row] == 0 by {
                        assert(part[row] == self.filled@[piece.y - 1 + row]);
                    }
                }
            }
        }
        ok
    }

    /// Put a piece into its final place on the board
    pub fn place_piece(&mut self, piece: &Piece)
        requires
            piece.fits(),
            piece.y + piece.size.1 <= old(self).filled.len(),
        ensures
            final(self).filled@ == placed(
                old(self).filled@,
                grid(piece.masks@)[piece.x as int],
                piece.y as int,
            ),
            final(self).current_height == if old(self).current_height >= piece.y + piece.size.1 {
                old(self).current_height as int
            } else {
                piece.y + piece.size.1
            },
    {
        let ghost before = self.filled@;
        let ghost shape = piece.masks[piece.x as int]@;
        assert(grid(piece.masks@)[piece.x as int] == shape);
        let mut row: usize = 0;
        while row < piece.size.1
            invariant
                row <= piece.size.1,
                piece.fits(),
                shape == piece.masks[piece.x as int]@,
                piece.y + piece.size.1 <= before.len(),
                self.filled.len() == before.len(),
                self.current_height == old(self).current_height,
                forall|r: int|
                    0 <= r < before.len() ==> #[trigger] self.filled[r] == if piece.y <= r < piece.y
                        + row {
                        before[r] | shape[r - piece.y]
                    } else {
                        before[r]
                    },
            decreases piece.size.1 - row,
        {
            let mask = piece.masks[piece.x][row];
            let old_row = self.filled[piece.y + row];
            self.filled.set(piece.y + row, old_row | mask);
            row += 1;
        }
        assert(self.filled@ =~= placed(before, shape, piece.y as int));
        if piece.y + piece.size.1 > self.current_height {
            self.current_height = piece.y + piece.size.1;
        }
    }
}

pub struct WindIter<'a> {
    pub data: &'a [Wind],
    pub posn: usize,
}

impl<'a> WindIter<'a> {
    pub fn new(data: &'a [Wind]) -> (iter: WindIter<'a>)
        ensures
            iter.data@ == data@,
            iter.posn == 0,
    {
        WindIter { data, posn: 0 }
    }

    pub fn next(&mut self) -> (wind: Wind)
        requires
            old(self).posn < old(self).data.len(),
        ensures
            wind == old(self).data[old(self).posn as int],
            final(self).posn == (old(self).posn + 1) % (old(self).data.len() as int),
            final(self).data@ == old(self).data@,
    {
        let old_posn = self.posn;
        self.posn = if self.posn + 1 == self.data.len() {
            0
        } else {
            self.posn + 1
        };
        proof {
            let n = self.data.len() as int;
            if old_posn + 1 == n {
                assert(n % n == 0) by (nonlinear_arith)
                    requires
                        n > 0,
                ;
            } else {
                assert((old_posn + 1) % n == old_posn + 1) by (nonlinear_arith)
                    requires
                        0 <= old_posn + 1 < n,
                ;
            }
        }
        self.data[old_posn]
    }

    pub fn get_posn(&self) -> (posn: usize)
        ensures
            posn == self.posn,
    {
        self.posn
    }
}

/// The tower: what fills the chamber, the level of the first empty row,
/// and the place of the next wind.
pub struct Tower {
    pub filled: Seq<u8>,
    pub height: int,
    pub posn: int,
}

/// The place of the rock, and of the next wind, after `n` winds from `posn`
/// on, when nothing but the walls is in the way.
pub open spec fn drifted(winds: Seq<Wind>, upper: int, x: int, posn: int, n: nat) -> (int, int)
    decreases n,
{
    if n == 0 {
        (x, posn)
    } else {
        let next = match winds[posn].blown(x, upper) {
            Some(nx) => nx,
            None => x,
        };
        drifted(winds, upper, next, (posn + 1) % (winds.len() as int), (n - 1) as nat)
    }
}

/// Where the rock comes to rest, and the place of the next wind then: while
/// it can fall it falls by one, and a wind pushes it.
pub open spec fn landed(
    filled: Seq<u8>,
    masks: Seq<Seq<u8>>,
    winds: Seq<Wind>,
    x: int,
    y: int,
    posn: int,
) -> (int, int, int)
    decreases y,
{
    if y > 0 && clear(filled, masks[x], y - 1) {
        landed(
            filled,
            masks,
            winds,
            pushed(filled, masks, x, y - 1, winds[posn]),
            y - 1,
            (posn + 1) % (winds.len() as int),
        )
    } else {
        (x, y, posn)
    }
}

/// The tower after a rock with the masks and of the height was dropped on
/// it: four winds push it before it comes near the tower, then it falls
/// until it comes to rest.
pub open spec fn dropped_rock(t: Tower, winds: Seq<Wind>, masks: Seq<Seq<u8>>, height: int) -> Tower {
    let (x, posn) = drifted(winds, masks.len() as int, INITIAL_X as int, t.posn, 4);
    let (x, y, posn) = landed(t.filled, masks, winds, x, t.height, posn);
    Tower {
        filled: placed(t.filled, masks[x], y),
        height: if t.height >= y + height {
            t.height
        } else {
            y + height
        },
        posn,
    }
}

/// The tower after a rock of the kind was dropped on it.
pub open spec fn dropped(t: Tower, winds: Seq<Wind>, kind: PieceKind) -> Tower {
    dropped_rock(t, winds, masks_of(kind), kind.height())
}

/// Where a rock and a wind were seen that had been seen before: the rock,
/// the wind, the number of rocks dropped, and the height of the tower.
#[derive(Clone, Copy, Debug)]
pub struct CycleInformation {
    pub kind: usize,
    pub wind: usize,
    pub start: u64,
    pub height: usize,
}

/// What is left when the cycle is known: the rocks still to drop, and the
/// rows that the cycles left out add.
#[derive(Clone, Copy, Debug)]
pub struct TailInformation {
    pub remaining_pieces: u64,
    pub extra_rows: u64,
}

/// What the search for a cycle knows.
pub struct Watch {
    pub seen: Set<(int, int)>,
    pub cycle: Option<CycleInformation>,
    pub tail: Option<TailInformation>,
}

/// The height of the tower with the rows that the cycles left out.
pub open spec fn total(height: int, tail: Option<TailInformation>) -> int {
    match tail {
        Some(info) => height + info.extra_rows,
        None => height,
    }
}

/// The tail when the cycle is seen again after `n` of `count` rocks, at the
/// given height.
pub open spec fn tail_of(info: CycleInformation, height: int, count: int, n: int) -> (int, int) {
    let cycle_time = n - info.start;
    let cycle_height = height - info.height;
    let remaining = count - n;
    ((remaining - 1) % cycle_time, (remaining / cycle_time) * cycle_height)
}

/// What the search knows when `n` of `count` rocks were dropped and the
/// next rock and wind are looked at, and whether it stops there.
pub open spec fn decided(w: Watch, key: (int, int), height: int, count: int, n: int) -> (Watch, bool) {
    match w.tail {
        Some(info) => if info.remaining_pieces == 0 {
            (w, true)
        } else {
            (
                Watch {
                    tail: Some(
                        TailInformation {
                            remaining_pieces: (info.remaining_pieces - 1) as u64,
                            extra_rows: info.extra_rows,
                        },
                    ),
                    ..w
                },
                false,
            )
        },
        None => match w.cycle {
            Some(info) => if (info.kind as int, info.wind as int) == key {
                let (rest, extra) = tail_of(info, height, count, n);
                (
                    Watch {
                        tail: Some(
                            TailInformation {
                                remaining_pieces: rest as u64,
                                extra_rows: extra as u64,
                            },
                        ),
                        ..w
                    },
                    (count - n) % (n - info.start) == 0,
                )
            } else {
                (w, false)
            },
            None => if w.seen.contains(key) {
                (
                    Watch {
                        seen: Set::empty(),
                        cycle: Some(
                            CycleInformation {
                                kind: key.0 as usize,
                                wind: key.1 as usize,
                                start: n as u64,
                                height: height as usize,
                            },
                        ),
                        tail: None,
                    },
                    false,
                )
            } else {
                (Watch { seen: w.seen.insert(key), ..w }, false)
            },
        },
    }
}

/// The height that is given when `n` of `count` rocks were dropped: while
/// no cycle is known, rocks are dropped; when a rock and a wind come
/// again that were seen before, the cycle starts there; when they come
/// once more, the cycles that fit into the rest are left out and their rows
/// added at the end. `None` where the chamber is full.
pub open spec fn run(t: Tower, w: Watch, winds: Seq<Wind>, count: int, n: int) -> Option<int>
    decreases count - n,
{
    if n >= count {
        Some(total(t.height, w.tail))
    } else {
        let (next, stop) = decided(w, (n % 5, t.posn), t.height, count, n);
        if stop {
            Some(total(t.height, next.tail))
        } else if t.height + 4 > t.filled.len() {
            None
        } else {
            run(dropped(t, winds, PieceKind::nth(n)), next, winds, count, n + 1)
        }
    }
}

/// The number of rows of the chamber.
pub const ROWS: usize = 500_000;

/// The most rocks that can be asked for.
pub const MOST_ROCKS: u64 = 1_000_000_000_000;

/// The empty chamber.
pub open spec fn empty_tower() -> Tower {
    Tower { filled: Seq::new(ROWS as nat, |r: int| 0u8), height: 0, posn: 0 }
}

/// What the search knows at the start.
pub open spec fn first_watch() -> Watch {
    Watch { seen: Set::empty(), cycle: None, tail: None }
}

/// The height of the tower after `count` rocks, as the search for a cycle
/// gives it; `None` where the chamber is full before it is known.
pub open spec fn tower_height(winds: Seq<Wind>, count: int) -> Option<int> {
    run(empty_tower(), first_watch(), winds, count, 0)
}

/// Drops the rock on the tower.
pub fn drop_piece(board: &mut Board, piece: &mut Piece, wind_itr: &mut WindIter)
    requires
        old(piece).fits(),
        old(piece).size.0 <= BOARD_WIDTH - INITIAL_X,
        old(piece).size.1 <= 4,
        old(board).current_height + 4 <= old(board).filled.len(),
        old(wind_itr).posn < old(wind_itr).data.len(),
    ensures
        (Tower {
            filled: final(board).filled@,
            height: final(board).current_height as int,
            posn: final(wind_itr).posn as int,
        }) == dropped_rock(
            (Tower {
                filled: old(board).filled@,
                height: old(board).current_height as int,
                posn: old(wind_itr).posn as int,
            }),
            old(wind_itr).data@,
            grid(old(piece).masks@),
            old(piece).size.1 as int,
        ),
        final(piece).fits(),
        final(piece).size == old(piece).size,
        final(piece).masks == old(piece).masks,
        final(wind_itr).data@ == old(wind_itr).data@,
        final(wind_itr).posn < final(wind_itr).data.len(),
        final(board).filled.len() == old(board).filled.len(),
        old(board).current_height <= final(board).current_height <= old(board).current_height + 4,
{
    let ghost winds = wind_itr.data@;
    let ghost masks = grid(piece.masks@);
    let ghost filled = board.filled@;
    let ghost upper = masks.len() as int;
    let ghost start = wind_itr.posn as int;
    // simulate the initial 3 level fall
    piece.reset(board.current_height);
    let mut i: usize = 0;
    while i <= NEW_PIECE_HEIGHT
        invariant
            i <= NEW_PIECE_HEIGHT + 1,
            piece.fits(),
            piece.size == old(piece).size,
            piece.masks == old(piece).masks,
            piece.y == board.current_height,
            masks == grid(piece.masks@),
            upper == masks.len(),
            wind_itr.data@ == winds,
            wind_itr.posn < winds.len(),
            drifted(winds, upper, piece.x as int, wind_itr.posn as int, (4 - i) as nat) == drifted(
                winds,
                upper,
                INITIAL_X as int,
                start,
                4,
            ),
        decreases NEW_PIECE_HEIGHT + 1 - i,
    {
        let wind = wind_itr.next();
        if let Some(new_x) = wind.blow(piece.x, BOARD_WIDTH + 1 - piece.size.0) {
            piece.x = new_x;
        }
        i += 1;
    }
    let ghost x1 = piece.x as int;
    let ghost posn1 = wind_itr.posn as int;
    // now check
    while board.can_fall(piece)
        invariant
            piece.fits(),
            piece.size == old(piece).size,
            piece.masks == old(piece).masks,
            piece.y <= board.current_height,
            board.current_height + 4 <= board.filled.len(),
            piece.size.1 <= 4,
            masks == grid(piece.masks@),
            filled == board.filled@,
            board.current_height == old(board).current_height,
            wind_itr.data@ == winds,
            wind_itr.posn < winds.len(),
            landed(filled, masks, winds, piece.x as int, piece.y as int, wind_itr.posn as int)
                == landed(filled, masks, winds, x1, board.current_height as int, posn1),
        decreases piece.y,
    {
        piece.y -= 1;
        let wind = wind_itr.next();
        board.blow(piece, wind);
    }
    board.place_piece(piece);
}

/// The height of the tower with the rows that the cycles left out.
pub fn finish(height: usize, tail: Option<TailInformation>) -> (rows: u64)
    requires
        height <= ROWS,
        tail matches Some(info) ==> info.extra_rows <= MOST_ROCKS * ROWS,
    ensures
        rows == total(height as int, tail),
{
    match tail {
        Some(info) => height as u64 + info.extra_rows,
        None => height as u64,
    }
}

/// A table with a place for each rock and each wind, all of them unmarked.
pub fn fresh_table(winds: usize) -> (table: Vec<Vec<bool>>)
    ensures
        marks(table@, winds as int, Set::empty()),
{
    let mut table: Vec<Vec<bool>> = Vec::new();
    let mut k: usize = 0;
    while k < 5
        invariant
            k <= 5,
            table.len() == k,
            forall|r: int| 0 <= r < k ==> (#[trigger] table[r]).len() == winds,
            forall|r: int, c: int| 0 <= r < k && 0 <= c < winds ==> !#[trigger] table[r][c],
        decreases 5 - k,
    {
        let mut row: Vec<bool> = Vec::new();
        let mut p: usize = 0;
        while p < winds
            invariant
                p <= winds,
                row.len() == p,
                forall|c: int| 0 <= c < p ==> !#[trigger] row[c],
            decreases winds - p,
        {
            row.push(false);
            p += 1;
        }
        table.push(row);
        k += 1;
    }
    table
}

/// Whether the table marks the rocks and winds of the set, and no others.
pub open spec fn marks(table: Seq<Vec<bool>>, winds: int, seen: Set<(int, int)>) -> bool {
    &&& table.len() == 5
    &&& forall|k: int| 0 <= k < 5 ==> (#[trigger] table[k]).len() == winds
    &&& forall|k: int, p: int|
        0 <= k < 5 && 0 <= p < winds ==> #[trigger] table[k][p] == seen.contains((k, p))
}

/// The five rocks, in the order in which they fall.
pub fn five_pieces() -> (pieces: Vec<Piece>)
    ensures
        pieces.len() == 5,
        forall|k: int| 0 <= k < 5 ==> (#[trigger] pieces[k]).is(PieceKind::nth(k)),
{
    let mut pieces: Vec<Piece> = Vec::new();
    pieces.push(Piece::new(PieceKind::Bar));
    pieces.push(Piece::new(PieceKind::Plus));
    pieces.push(Piece::new(PieceKind::L));
    pieces.push(Piece::new(PieceKind::I));
    pieces.push(Piece::new(PieceKind::Square));
    pieces
}

/// The height of the tower after `count` rocks, as the search for a cycle
/// gives it; `None` where the chamber is full before it is known.
pub fn try_drop_rocks(input: &Vec<Wind>, count: u64) -> (r: Option<u64>)
    requires
        input.len() > 0,
        count <= MOST_ROCKS,
    ensures
        match r {
            Some(height) => tower_height(input@, count as int) == Some(height as int),
            None => tower_height(input@, count as int).is_none(),
        },
        4 * count + 4 <= ROWS ==> r.is_some(),
{
    let ghost winds = input@;
    let ghost goal = tower_height(input@, count as int);
    let ghost mut watch = first_watch();
    let mut seen = fresh_table(input.len());
    let mut cycle: Option<CycleInformation> = None;
    let mut tail: Option<TailInformation> = None;
    let mut board = Board::new(ROWS);
    let mut wind_itr = WindIter::new(input.as_slice());
    let mut pieces = five_pieces();
    let mut piece_count: u64 = 0;
    assert(board.filled@ =~= empty_tower().filled);
    while piece_count < count
        invariant
            piece_count <= count <= MOST_ROCKS,
            winds == input@,
            winds.len() > 0,
            goal == tower_height(winds, count as int),
            board.filled.len() == ROWS,
            board.current_height <= ROWS,
            board.current_height <= 4 * piece_count,
            wind_itr.data@ == winds,
            wind_itr.posn < winds.len(),
            pieces.len() == 5,
            forall|k: int| 0 <= k < 5 ==> (#[trigger] pieces[k]).is(PieceKind::nth(k)),
            marks(seen@, winds.len() as int, watch.seen),
            watch.cycle == cycle,
            watch.tail == tail,
            cycle matches Some(info) ==> info.start < piece_count && info.height
                <= board.current_height,
            tail matches Some(info) ==> info.extra_rows <= MOST_ROCKS * ROWS,
            run(
                (Tower {
                    filled: board.filled@,
                    height: board.current_height as int,
                    posn: wind_itr.posn as int,
                }),
                watch,
                winds,
                count as int,
                piece_count as int,
            ) == goal,
        decreases count - piece_count,
    {
        let ghost tower = Tower {
            filled: board.filled@,
            height: board.current_height as int,
            posn: wind_itr.posn as int,
        };
        let ghost before = watch;
        // Check for cycles in the piece kind and wind
        let kind = (piece_count % 5) as usize;
        let posn = wind_itr.get_posn();
        let ghost key = (kind as int, posn as int);
        let ghost (next, stop) = decided(
            before,
            key,
            board.current_height as int,
            count as int,
            piece_count as int,
        );
        // Are we computing the tail?
        if let Some(info) = tail {
            // just count down the remaining rows
            if info.remaining_pieces == 0 {
                return Some(finish(board.current_height, tail));
            } else {
                tail = Some(
                    TailInformation {
                        remaining_pieces: info.remaining_pieces - 1,
                        extra_rows: info.extra_rows,
                    },
                );
            }
        } else if let Some(info) = cycle {
            // Check to see if we have found the second iteration of the cycle. If so,
            // compute the length of the cycle and how high our virtual stack needs to be.
            if info.kind == kind && info.wind == posn {
                let cycle_time = piece_count - info.start;
                let cycle_height = (board.current_height - info.height) as u64;
                let remaining = count - piece_count;
                assert((remaining / cycle_time) * cycle_height <= MOST_ROCKS * ROWS)
                    by (nonlinear_arith)
                    requires
                        remaining / cycle_time <= MOST_ROCKS,
                        cycle_height <= ROWS,
                ;
                // Set the tail information so that we handle the last partial cycle
                tail = Some(
                    TailInformation {
                        remaining_pieces: (remaining - 1) % cycle_time,
                        extra_rows: (remaining / cycle_time) * cycle_height,
                    },
                );
                if remaining % cycle_time == 0 {
                    return Some(finish(board.current_height, tail));
                }
            }
        } else {
            // Look for a repeat of kind and wind to identify the cycle.
            // The first cycle is usually different, but the second and later cycles are
            // identical. After the first, we set the cycle information and use that to
            // identify the second iteration.
            assert(seen[kind as int].len() == winds.len());
            if seen[kind][posn] {
                seen = fresh_table(input.len());
                cycle = Some(
                    CycleInformation {
                        kind,
                        wind: posn,
                        start: piece_count,
                        height: board.current_height,
                    },
                );
            } else {
                let ghost table = seen@;
                seen[kind][posn] = true;
                proof {
                    assert forall|k: int| 0 <= k < 5 implies (#[trigger] seen[k]).len()
                        == winds.len() by {
                        assert(table[k].len() == winds.len());
                    }
                    assert forall|k: int, p: int|
                        0 <= k < 5 && 0 <= p < winds.len() implies #[trigger] seen[k][p]
                        == before.seen.insert(key).contains((k, p)) by {
                        assert(table[k].len() == winds.len());
                        if k != kind {
                            assert(seen[k][p] == table[k][p]);
                        } else if p != posn {
                            assert(seen[k][p] == table[k][p]);
                        }
                    }
                }
            }
        }
        proof {
            watch = next;
            assert(!stop);
            assert(watch.cycle == cycle);
            assert(watch.tail == tail);
            assert(marks(seen@, winds.len() as int, watch.seen));
        }
        if board.current_height + 4 > ROWS {
            return None;
        }
        let ghost rock = PieceKind::nth(piece_count as int);
        proof {
            assert(pieces[kind as int].is(PieceKind::nth(kind as int)));
            assert(PieceKind::nth(kind as int) == rock);
            lemma_masks(pieces[kind as int], rock);
        }
        let ghost others = pieces@;
        drop_piece(&mut board, &mut pieces[kind], &mut wind_itr);
        proof {
            assert forall|k: int| 0 <= k < 5 implies (#[trigger] pieces[k]).is(PieceKind::nth(k)) by {
                if k != kind {
                    assert(pieces[k] == others[k]);
                    assert(others[k].is(PieceKind::nth(k)));
                } else {
                    assert(others[k].is(PieceKind::nth(k)));
                }
            }
        }
        piece_count += 1;
    }
    Some(finish(board.current_height, tail))
}

pub fn drop_rocks(input: &Vec<Wind>, count: u64) -> (height: u64)
    requires
        input.len() > 0,
        count <= MOST_ROCKS,
        tower_height(input@, count as int).is_some(),
    ensures
        tower_height(input@, count as int) == Some(height as int),
{
    try_drop_rocks(input, count).unwrap()
}

pub fn part1(input: &Vec<Wind>) -> (height: u64)
    requires
        input.len() > 0,
    ensures
        tower_height(input@, 2_022) == Some(height as int),
{
    try_drop_rocks(input, 2_022).unwrap()
}

pub fn part2(input: &Vec<Wind>) -> (height: u64)
    requires
        input.len() > 0,
        tower_height(input@, MOST_ROCKS as int).is_some(),
    ensures
        tower_height(input@, MOST_ROCKS as int) == Some(height as int),
{
    drop_rocks(input, 1_000_000_000_000)
}

} // verus!
