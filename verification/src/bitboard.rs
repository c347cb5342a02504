//! Squares, directions and 64-bit occupancy masks.
use vstd::prelude::*;
use vstd::std_specs::bits::axiom_u64_trailing_zeros;
use crate::repr::Color;

verus! {

/// A board cell. Cells are numbered rank by rank from A1 (0) to H8 (63), so that
/// a cell's number is eight times its rank plus its file.
#[derive(Debug, Copy, Clone, Hash, PartialEq, Eq, Structural)]
pub enum Square {
    A1, B1, C1, D1, E1, F1, G1, H1,
    A2, B2, C2, D2, E2, F2, G2, H2,
    A3, B3, C3, D3, E3, F3, G3, H3,
    A4, B4, C4, D4, E4, F4, G4, H4,
    A5, B5, C5, D5, E5, F5, G5, H5,
    A6, B6, C6, D6, E6, F6, G6, H6,
    A7, B7, C7, D7, E7, F7, G7, H7,
    A8, B8, C8, D8, E8, F8, G8, H8,
}

/// True when `i` numbers a board cell.
pub open spec fn on_board(i: int) -> bool {
    0 <= i < 64
}

impl Square {
    /// The cell's number, 0 to 63.
    #[verifier::opaque]
    pub open spec fn idx(self) -> int {
        match self {
            Square::A1 => 0,
            Square::B1 => 1,
            Square::C1 => 2,
            Square::D1 => 3,
            Square::E1 => 4,
            Square::F1 => 5,
            Square::G1 => 6,
            Square::H1 => 7,
            Square::A2 => 8,
            Square::B2 => 9,
            Square::C2 => 10,
            Square::D2 => 11,
            Square::E2 => 12,
            Square::F2 => 13,
            Square::G2 => 14,
            Square::H2 => 15,
            Square::A3 => 16,
            Square::B3 => 17,
            Square::C3 => 18,
            Square::D3 => 19,
            Square::E3 => 20,
            Square::F3 => 21,
            Square::G3 => 22,
            Square::H3 => 23,
            Square::A4 => 24,
            Square::B4 => 25,
            Square::C4 => 26,
            Square::D4 => 27,
            Square::E4 => 28,
            Square::F4 => 29,
            Square::G4 => 30,
            Square::H4 => 31,
            Square::A5 => 32,
            Square::B5 => 33,
            Square::C5 => 34,
            Square::D5 => 35,
            Square::E5 => 36,
            Square::F5 => 37,
            Square::G5 => 38,
            Square::H5 => 39,
            Square::A6 => 40,
            Square::B6 => 41,
            Square::C6 => 42,
            Square::D6 => 43,
            Square::E6 => 44,
            Square::F6 => 45,
            Square::G6 => 46,
            Square::H6 => 47,
            Square::A7 => 48,
            Square::B7 => 49,
            Square::C7 => 50,
            Square::D7 => 51,
            Square::E7 => 52,
            Square::F7 => 53,
            Square::G7 => 54,
            Square::H7 => 55,
            Square::A8 => 56,
            Square::B8 => 57,
            Square::C8 => 58,
            Square::D8 => 59,
            Square::E8 => 60,
            Square::F8 => 61,
            Square::G8 => 62,
            Square::H8 => 63,
        }
    }

    /// The cell with number `i`; H8 for every number past the board.
    #[verifier::opaque]
    pub open spec fn of(i: int) -> Square {
        if i == 0 {
            Square::A1
        } else if i == 1 {
            Square::B1
        } else if i == 2 {
            Square::C1
        } else if i == 3 {
            Square::D1
        } else if i == 4 {
            Square::E1
        } else if i == 5 {
            Square::F1
        } else if i == 6 {
            Square::G1
        } else if i == 7 {
            Square::H1
        } else if i == 8 {
            Square::A2
        } else if i == 9 {
            Square::B2
        } else if i == 10 {
            Square::C2
        } else if i == 11 {
            Square::D2
        } else if i == 12 {
            Square::E2
        } else if i == 13 {
            Square::F2
        } else if i == 14 {
            Square::G2
        } else if i == 15 {
            Square::H2
        } else if i == 16 {
            Square::A3
        } else if i == 17 {
            Square::B3
        } else if i == 18 {
            Square::C3
        } else if i == 19 {
            Square::D3
        } else if i == 20 {
            Square::E3
        } else if i == 21 {
            Square::F3
        } else if i == 22 {
            Square::G3
        } else if i == 23 {
            Square::H3
        } else if i == 24 {
            Square::A4
        } else if i == 25 {
            Square::B4
        } else if i == 26 {
            Square::C4
        } else if i == 27 {
            Square::D4
        } else if i == 28 {
            Square::E4
        } else if i == 29 {
            Square::F4
        } else if i == 30 {
            Square::G4
        } else if i == 31 {
            Square::H4
        } else if i == 32 {
            Square::A5
        } else if i == 33 {
            Square::B5
        } else if i == 34 {
            Square::C5
        } else if i == 35 {
            Square::D5
        } else if i == 36 {
            Square::E5
        } else if i == 37 {
            Square::F5
        } else if i == 38 {
            Square::G5
        } else if i == 39 {
            Square::H5
        } else if i == 40 {
            Square::A6
        } else if i == 41 {
            Square::B6
        } else if i == 42 {
            Square::C6
        } else if i == 43 {
            Square::D6
        } else if i == 44 {
            Square::E6
        } else if i == 45 {
            Square::F6
        } else if i == 46 {
            Square::G6
        } else if i == 47 {
            Square::H6
        } else if i == 48 {
            Square::A7
        } else if i == 49 {
            Square::B7
        } else if i == 50 {
            Square::C7
        } else if i == 51 {
            Square::D7
        } else if i == 52 {
            Square::E7
        } else if i == 53 {
            Square::F7
        } else if i == 54 {
            Square::G7
        } else if i == 55 {
            Square::H7
        } else if i == 56 {
            Square::A8
        } else if i == 57 {
            Square::B8
        } else if i == 58 {
            Square::C8
        } else if i == 59 {
            Square::D8
        } else if i == 60 {
            Square::E8
        } else if i == 61 {
            Square::F8
        } else if i == 62 {
            Square::G8
        } else {
            Square::H8
        }
    }

    /// Every cell's number is on the board, and `of` undoes `idx`.
    pub proof fn lemma_idx(self)
        ensures
            on_board(#[trigger] self.idx()),
            Square::of(self.idx()) == self,
    {
        reveal(Square::idx);
        reveal(Square::of);
    }

    /// `idx` undoes `of` on the board.
    pub proof fn lemma_of(i: int)
        requires
            on_board(i),
        ensures
            (#[trigger] Square::of(i)).idx() == i,
    {
        reveal(Square::idx);
        reveal(Square::of);
    }

    /// The cell's number.
    pub fn index(self) -> (i: u8)
        ensures
            i == self.idx(),
            i < 64,
    {
        reveal(Square::idx);
        match self {
            Square::A1 => 0,
            Square::B1 => 1,
            Square::C1 => 2,
            Square::D1 => 3,
            Square::E1 => 4,
            Square::F1 => 5,
            Square::G1 => 6,
            Square::H1 => 7,
            Square::A2 => 8,
            Square::B2 => 9,
            Square::C2 => 10,
            Square::D2 => 11,
            Square::E2 => 12,
            Square::F2 => 13,
            Square::G2 => 14,
            Square::H2 => 15,
            Square::A3 => 16,
            Square::B3 => 17,
            Square::C3 => 18,
            Square::D3 => 19,
            Square::E3 => 20,
            Square::F3 => 21,
            Square::G3 => 22,
            Square::H3 => 23,
            Square::A4 => 24,
            Square::B4 => 25,
            Square::C4 => 26,
            Square::D4 => 27,
            Square::E4 => 28,
            Square::F4 => 29,
            Square::G4 => 30,
            Square::H4 => 31,
            Square::A5 => 32,
            Square::B5 => 33,
            Square::C5 => 34,
            Square::D5 => 35,
            Square::E5 => 36,
            Square::F5 => 37,
            Square::G5 => 38,
            Square::H5 => 39,
            Square::A6 => 40,
            Square::B6 => 41,
            Square::C6 => 42,
            Square::D6 => 43,
            Square::E6 => 44,
            Square::F6 => 45,
            Square::G6 => 46,
            Square::H6 => 47,
            Square::A7 => 48,
            Square::B7 => 49,
            Square::C7 => 50,
            Square::D7 => 51,
            Square::E7 => 52,
            Square::F7 => 53,
            Square::G7 => 54,
            Square::H7 => 55,
            Square::A8 => 56,
            Square::B8 => 57,
            Square::C8 => 58,
            Square::D8 => 59,
            Square::E8 => 60,
            Square::F8 => 61,
            Square::G8 => 62,
            Square::H8 => 63,
        }
    }

    /// The cell with the given number.
    pub fn from_index(i: u8) -> (sq: Square)
        requires
            i < 64,
        ensures
            sq == Square::of(i as int),
            sq.idx() == i,
    {
        reveal(Square::idx);
        reveal(Square::of);
        match i {
            0 => Square::A1,
            1 => Square::B1,
            2 => Square::C1,
            3 => Square::D1,
            4 => Square::E1,
            5 => Square::F1,
            6 => Square::G1,
            7 => Square::H1,
            8 => Square::A2,
            9 => Square::B2,
            10 => Square::C2,
            11 => Square::D2,
            12 => Square::E2,
            13 => Square::F2,
            14 => Square::G2,
            15 => Square::H2,
            16 => Square::A3,
            17 => Square::B3,
            18 => Square::C3,
            19 => Square::D3,
            20 => Square::E3,
            21 => Square::F3,
            22 => Square::G3,
            23 => Square::H3,
            24 => Square::A4,
            25 => Square::B4,
            26 => Square::C4,
            27 => Square::D4,
            28 => Square::E4,
            29 => Square::F4,
            30 => Square::G4,
            31 => Square::H4,
            32 => Square::A5,
            33 => Square::B5,
            34 => Square::C5,
            35 => Square::D5,
            36 => Square::E5,
            37 => Square::F5,
            38 => Square::G5,
            39 => Square::H5,
            40 => Square::A6,
            41 => Square::B6,
            42 => Square::C6,
            43 => Square::D6,
            44 => Square::E6,
            45 => Square::F6,
            46 => Square::G6,
            47 => Square::H6,
            48 => Square::A7,
            49 => Square::B7,
            50 => Square::C7,
            51 => Square::D7,
            52 => Square::E7,
            53 => Square::F7,
            54 => Square::G7,
            55 => Square::H7,
            56 => Square::A8,
            57 => Square::B8,
            58 => Square::C8,
            59 => Square::D8,
            60 => Square::E8,
            61 => Square::F8,
            62 => Square::G8,
            _ => Square::H8,
        }
    }
}


/// The file (column) of cell number `s`, 0 for the A file.
pub open spec fn file_of(s: int) -> int {
    s % 8
}

/// The rank (row) of cell number `s`, 0 for the first rank.
pub open spec fn rank_of(s: int) -> int {
    s / 8
}

/// The number of the cell on file `f` and rank `r`.
pub open spec fn cell(f: int, r: int) -> int {
    r * 8 + f
}

/// One of the eight ways to go from a cell to a neighbour.
#[derive(Debug, Copy, Clone, Hash, PartialEq, Eq, Structural)]
pub enum Direction {
    Up,
    UpRight,
    Right,
    DownRight,
    Down,
    DownLeft,
    Left,
    UpLeft,
}

impl Direction {
    /// How far one step moves along the files: -1, 0 or 1.
    pub open spec fn df(self) -> int {
        match self {
            Direction::UpRight | Direction::Right | Direction::DownRight => 1,
            Direction::UpLeft | Direction::Left | Direction::DownLeft => -1,
            Direction::Up | Direction::Down => 0,
        }
    }

    /// How far one step moves along the ranks: -1, 0 or 1.
    pub open spec fn dr(self) -> int {
        match self {
            Direction::Up | Direction::UpRight | Direction::UpLeft => 1,
            Direction::Down | Direction::DownRight | Direction::DownLeft => -1,
            Direction::Left | Direction::Right => 0,
        }
    }

    /// The cell reached by one step from cell `s`, if that step stays on the board.
    pub open spec fn step_from(self, s: int) -> Option<int> {
        let f = file_of(s) + self.df();
        let r = rank_of(s) + self.dr();
        if 0 <= f < 8 && 0 <= r < 8 {
            Some(cell(f, r))
        } else {
            None
        }
    }

    /// The direction in which the pawns of `color` advance.
    pub open spec fn pawn_spec(color: Color) -> Direction {
        match color {
            Color::White => Direction::Up,
            Color::Black => Direction::Down,
        }
    }

    /// How far one step moves along the files.
    pub fn file_delta(self) -> (d: i8)
        ensures
            d == self.df(),
    {
        match self {
            Direction::UpRight | Direction::Right | Direction::DownRight => 1,
            Direction::UpLeft | Direction::Left | Direction::DownLeft => -1,
            Direction::Up | Direction::Down => 0,
        }
    }

    /// How far one step moves along the ranks.
    pub fn rank_delta(self) -> (d: i8)
        ensures
            d == self.dr(),
    {
        match self {
            Direction::Up | Direction::UpRight | Direction::UpLeft => 1,
            Direction::Down | Direction::DownRight | Direction::DownLeft => -1,
            Direction::Left | Direction::Right => 0,
        }
    }

    /// The change of the cell number made by one step.
    pub fn delta(self) -> (d: i8)
        ensures
            d == 8 * self.dr() + self.df(),
    {
        8 * self.rank_delta() + self.file_delta()
    }

    /// The direction in which the pawns of `color` advance.
    pub fn pawn(color: Color) -> (d: Direction)
        ensures
            d == Direction::pawn_spec(color),
    {
        match color {
            Color::White => Direction::Up,
            Color::Black => Direction::Down,
        }
    }
}

impl Square {
    /// The rank of the cell, 0 for the first rank.
    pub fn rank(self) -> (r: u8)
        ensures
            r == rank_of(self.idx()),
            r < 8,
    {
        self.index() / 8
    }

    /// The file of the cell, 0 for the A file.
    pub fn file(self) -> (f: u8)
        ensures
            f == file_of(self.idx()),
            f < 8,
    {
        self.index() % 8
    }

    /// The number, 0 to 14, of the diagonal that runs from the lower right to the
    /// upper left through the cell: rank plus file.
    pub fn main_diag(self) -> (d: u8)
        ensures
            d == rank_of(self.idx()) + file_of(self.idx()),
            d < 15,
    {
        self.rank() + self.file()
    }

    /// The number, 0 to 14, of the diagonal that runs from the lower left to the
    /// upper right through the cell: seven minus rank plus file.
    pub fn second_diag(self) -> (d: u8)
        ensures
            d == 7 - rank_of(self.idx()) + file_of(self.idx()),
            d < 15,
    {
        7 - self.rank() + self.file()
    }

    /// The mask that holds this cell alone.
    pub fn to_bitboard(self) -> (b: Bitboard)
        ensures
            b.0 == single(self.idx()),
    {
        Bitboard(1u64 << (self.index() as u64))
    }

    /// The neighbour in the given direction, if there is one on the board.
    pub fn step(self, direction: Direction) -> (r: Option<Square>)
        ensures
            match direction.step_from(self.idx()) {
                Some(t) => r == Some(Square::of(t)) && on_board(t) && r->0.idx() == t,
                None => r is None,
            },
    {
        let f: i8 = (self.file() as i8) + direction.file_delta();
        let r: i8 = (self.rank() as i8) + direction.rank_delta();
        if 0 <= f && f < 8 && 0 <= r && r < 8 {
            Some(Square::from_index((r * 8 + f) as u8))
        } else {
            None
        }
    }

    /// The cells met when walking from this cell in the given direction.
    pub fn ray(self, direction: Direction) -> (ray: Ray)
        ensures
            ray.square == self,
            ray.direction == direction,
    {
        Ray { square: self, direction }
    }
}

/// A walk over the board in one direction. It ends at the board's edge.
pub struct Ray {
    pub square: Square,
    pub direction: Direction,
}

impl Ray {
    /// Takes one step and returns the cell reached, or `None` at the edge of the
    /// board, where the walk stays.
    pub fn next(&mut self) -> (r: Option<Square>)
        ensures
            final(self).direction == old(self).direction,
            match old(self).direction.step_from(old(self).square.idx()) {
                Some(t) => r == Some(Square::of(t)) && final(self).square == Square::of(t)
                    && on_board(t) && r->0.idx() == t,
                None => r is None && final(self).square == old(self).square,
            },
    {
        match self.square.step(self.direction) {
            Some(t) => {
                self.square = t;
                Some(t)
            },
            None => None,
        }
    }
}

/// Whether bit `i` of `b` is set. No bit beyond the 64 of the board is.
pub open spec fn bit(b: u64, i: int) -> bool {
    0 <= i < 64 && (b >> (i as u64)) & 1 == 1
}

/// The mask with bit `i` alone.
pub open spec fn single(i: int) -> u64 {
    1u64 << (i as u64)
}

/// The number of the lowest set bit of a mask that is not zero.
pub open spec fn lowest(b: u64) -> int {
    vstd::std_specs::bits::u64_trailing_zeros(b) as int
}

/// The lowest set bit of a mask that is not zero is on the board, it is set, and
/// no bit below it is.
pub proof fn lemma_lowest(b: u64)
    requires
        b != 0,
    ensures
        on_board(lowest(b)),
        bit(b, lowest(b)),
        forall|j: int| 0 <= j < lowest(b) ==> !bit(b, j),
{
    axiom_u64_trailing_zeros(b);
    let tz = vstd::std_specs::bits::u64_trailing_zeros(b);
    assert forall|j: int| 0 <= j < lowest(b) implies !bit(b, j) by {
        let ju = j as u64;
        assert((b >> ju) & 1u64 == 0u64);
    }
}

/// The single-cell mask has exactly its own bit.
pub proof fn lemma_bit_single(s: int)
    requires
        on_board(s),
    ensures
        forall|j: int| #[trigger] bit(single(s), j) == (j == s),
{
    let su = s as u64;
    assert forall|j: int| #[trigger] bit(single(s), j) == (j == s) by {
        if 0 <= j < 64 {
            let ju = j as u64;
            assert((((1u64 << su) >> ju) & 1 == 1) == (ju == su)) by (bit_vector)
                requires
                    su < 64,
                    ju < 64,
            ;
        }
    }
}

/// The bits of a union.
pub proof fn lemma_bit_or(a: u64, b: u64)
    ensures
        forall|j: int| #[trigger] bit(a | b, j) == (bit(a, j) || bit(b, j)),
{
    assert forall|j: int| #[trigger] bit(a | b, j) == (bit(a, j) || bit(b, j)) by {
        if 0 <= j < 64 {
            let ju = j as u64;
            assert((((a | b) >> ju) & 1 == 1) == (((a >> ju) & 1 == 1) || ((b >> ju) & 1 == 1)))
                by (bit_vector);
        }
    }
}

/// The bits of an intersection.
pub proof fn lemma_bit_and(a: u64, b: u64)
    ensures
        forall|j: int| #[trigger] bit(a & b, j) == (bit(a, j) && bit(b, j)),
{
    assert forall|j: int| #[trigger] bit(a & b, j) == (bit(a, j) && bit(b, j)) by {
        if 0 <= j < 64 {
            let ju = j as u64;
            assert((((a & b) >> ju) & 1 == 1) == (((a >> ju) & 1 == 1) && ((b >> ju) & 1 == 1)))
                by (bit_vector);
        }
    }
}

/// The bits of a complement, on the board.
pub proof fn lemma_bit_not(a: u64)
    ensures
        forall|j: int| on_board(j) ==> #[trigger] bit(!a, j) == !bit(a, j),
{
    assert forall|j: int| on_board(j) implies #[trigger] bit(!a, j) == !bit(a, j) by {
        let ju = j as u64;
        assert((((!a) >> ju) & 1 == 1) == !((a >> ju) & 1 == 1)) by (bit_vector)
            requires
                ju < 64,
        ;
    }
}

/// A mask is zero exactly when none of its bits is set.
pub proof fn lemma_bit_zero(a: u64)
    ensures
        a == 0 <==> (forall|j: int| !#[trigger] bit(a, j)),
{
    if a == 0 {
        assert forall|j: int| !#[trigger] bit(a, j) by {
            if 0 <= j < 64 {
                let ju = j as u64;
                assert((0u64 >> ju) & 1 == 0) by (bit_vector);
            }
        }
    } else {
        lemma_lowest(a);
    }
}

/// Taking a cell out of a mask that does not hold it changes nothing.
pub proof fn lemma_clear_absent(m: u64, c: int)
    requires
        on_board(c),
        !bit(m, c),
    ensures
        m & !single(c) == m,
{
    let cu = c as u64;
    assert(m & !(1u64 << cu) == m) by (bit_vector)
        requires
            cu < 64,
            !((m >> cu) & 1 == 1),
    ;
}

/// Moving a cell of a mask to a cell outside it and back gives the mask again.
pub proof fn lemma_there_and_back(m: u64, a: int, b: int)
    requires
        on_board(a),
        on_board(b),
        bit(m, a),
        !bit(m, b),
    ensures
        (((m & !single(a)) | single(b)) & !single(b)) | single(a) == m,
{
    let au = a as u64;
    let bu = b as u64;
    assert((((m & !(1u64 << au)) | (1u64 << bu)) & !(1u64 << bu)) | (1u64 << au) == m)
        by (bit_vector)
        requires
            au < 64,
            bu < 64,
            (m >> au) & 1 == 1,
            !((m >> bu) & 1 == 1),
    ;
}

/// The only cell of a mask that goes to another cell is then the only cell.
pub proof fn lemma_single_moved(a: int, b: int)
    requires
        on_board(a),
        on_board(b),
    ensures
        (single(a) & !single(a)) | single(b) == single(b),
{
    let au = a as u64;
    let bu = b as u64;
    assert(((1u64 << au) & !(1u64 << au)) | (1u64 << bu) == (1u64 << bu)) by (bit_vector)
        requires
            au < 64,
            bu < 64,
    ;
}

/// The bits of a mask moved one rank up or one rank down.
pub proof fn lemma_bit_shift(x: u64, t: int)
    ensures
        bit(x << 8, t) <==> 8 <= t < 64 && bit(x, t - 8),
        bit(x >> 8, t) <==> 0 <= t < 56 && bit(x, t + 8),
{
    if 0 <= t < 64 {
        let tu = t as u64;
        assert((((x << 8) >> tu) & 1 == 1) == (tu >= 8 && (x >> ((tu - 8) as u64)) & 1 == 1))
            by (bit_vector)
            requires
                tu < 64,
        ;
        assert((((x >> 8) >> tu) & 1 == 1) == (tu < 56 && (x >> ((tu + 8) as u64)) & 1 == 1))
            by (bit_vector)
            requires
                tu < 64,
        ;
    }
}

/// Two masks that hold the same cells are the same mask.
pub proof fn lemma_bits_equal(a: u64, b: u64)
    requires
        forall|j: int| on_board(j) ==> bit(a, j) == bit(b, j),
    ensures
        a == b,
{
    let x = a ^ b;
    assert(x == 0 ==> a == b) by (bit_vector)
        requires
            x == a ^ b,
    ;
    if x != 0 {
        lemma_lowest(x);
        let j = lowest(x);
        let ju = j as u64;
        assert(((x >> ju) & 1 == 1) ==> (((a >> ju) & 1 == 1) != ((b >> ju) & 1 == 1)))
            by (bit_vector)
            requires
                x == a ^ b,
                ju < 64,
        ;
        assert(bit(a, j) == bit(b, j));
    }
}

/// The bits of a mask after one cell has left it for another.
pub proof fn lemma_bit_moved(m: u64, a: int, b: int)
    requires
        on_board(a),
        on_board(b),
    ensures
        forall|j: int|
            #[trigger] bit((m & !single(a)) | single(b), j) == ((bit(m, j) && j != a) || j == b),
{
    lemma_bit_single(a);
    lemma_bit_single(b);
    lemma_bit_not(single(a));
    lemma_bit_and(m, !single(a));
    lemma_bit_or(m & !single(a), single(b));
    assert forall|j: int|
        #[trigger] bit((m & !single(a)) | single(b), j) == ((bit(m, j) && j != a) || j == b) by {
        if on_board(j) {
            assert(bit(!single(a), j) == !bit(single(a), j));
        }
    }
}

/// A 64-bit set of cells, one bit per cell: bit `i` stands for cell number `i`.
#[derive(Debug, Copy, Clone, Hash, PartialEq, Eq, Structural)]
pub struct Bitboard(pub u64);

impl View for Bitboard {
    type V = Set<int>;

    /// The numbers of the cells in the set.
    open spec fn view(&self) -> Set<int> {
        Set::new(|i: int| bit(self.0, i))
    }
}

/// The diagonal flip of a mask, as bit operations.
pub open spec fn flip_diagonal_of(b: u64) -> u64 {
    let t4 = 0x0f0f0f0f00000000u64 & (b ^ (b << 28));
    let x4 = b ^ (t4 ^ (t4 >> 28));
    let t2 = 0x3333000033330000u64 & (x4 ^ (x4 << 14));
    let x2 = x4 ^ (t2 ^ (t2 >> 14));
    let t1 = 0x5500550055005500u64 & (x2 ^ (x2 << 7));
    x2 ^ (t1 ^ (t1 >> 7))
}

/// The diagonal flip exchanges file and rank: the cell on file `f` and rank `r`
/// is in the flipped mask exactly when the cell on file `r` and rank `f` is in
/// the mask.
pub proof fn lemma_flip_diagonal(b: u64, f: int, r: int)
    requires
        0 <= f < 8,
        0 <= r < 8,
    ensures
        bit(flip_diagonal_of(b), cell(f, r)) == bit(b, cell(r, f)),
{
    let fu = f as u64;
    let ru = r as u64;
    let i = (ru * 8 + fu) as u64;
    let j = (fu * 8 + ru) as u64;
    assert(((flip_diagonal_of(b) >> i) & 1 == 1) == ((b >> j) & 1 == 1)) by (bit_vector)
        requires
            fu < 8,
            ru < 8,
            i == ru * 8 + fu,
            j == fu * 8 + ru,
    ;
}

impl Bitboard {
    /// Whether the cell is in the set.
    pub open spec fn has(self, sq: Square) -> bool {
        bit(self.0, sq.idx())
    }

    /// The empty set.
    pub fn empty() -> (b: Bitboard)
        ensures
            b.0 == 0,
            b@ == Set::<int>::empty(),
    {
        proof {
            lemma_bit_zero(0);
            assert(Bitboard(0)@ =~= Set::<int>::empty());
        }
        Bitboard(0)
    }

    /// The set of all 64 cells.
    pub fn full() -> (b: Bitboard)
        ensures
            b.0 == u64::MAX,
    {
        Bitboard(u64::MAX)
    }

    /// The cells of the set, to be taken one by one from the lowest number up.
    pub fn squares(self) -> (it: Squares)
        ensures
            it.bitboard == self,
    {
        Squares { bitboard: self }
    }

    /// The set mirrored at the diagonal from A1 to H8.
    pub fn flip_diagonal(self) -> (b: Bitboard)
        ensures
            b.0 == flip_diagonal_of(self.0),
            forall|f: int, r: int|
                0 <= f < 8 && 0 <= r < 8 ==> bit(b.0, #[trigger] cell(f, r)) == bit(
                    self.0,
                    cell(r, f),
                ),
    {
        let k1: u64 = 0x5500550055005500;
        let k2: u64 = 0x3333000033330000;
        let k4: u64 = 0x0f0f0f0f00000000;
        let mut x: u64 = self.0;
        let t: u64 = k4 & (x ^ (x << 28));
        x = x ^ (t ^ (t >> 28));
        let t: u64 = k2 & (x ^ (x << 14));
        x = x ^ (t ^ (t >> 14));
        let t: u64 = k1 & (x ^ (x << 7));
        x = x ^ (t ^ (t >> 7));
        proof {
            assert forall|f: int, r: int| 0 <= f < 8 && 0 <= r < 8 implies bit(
                x,
                #[trigger] cell(f, r),
            ) == bit(self.0, cell(r, f)) by {
                lemma_flip_diagonal(self.0, f, r);
            }
        }
        Bitboard(x)
    }

    /// Whether the cell is in the set.
    pub fn at(self, square: Square) -> (r: bool)
        ensures
            r == self.has(square),
            r == self@.contains(square.idx()),
    {
        let i: u8 = square.index();
        let m: u64 = 1u64 << (i as u64);
        proof {
            lemma_bit_single(i as int);
            lemma_bit_and(self.0, m);
            lemma_bit_zero(self.0 & m);
            assert(m == single(i as int));
            assert(bit(m, i as int));
            assert(bit(self.0 & m, i as int) == (bit(self.0, i as int) && bit(m, i as int)));
            assert(bit(self.0 & m, i as int) == bit(self.0, i as int));
        }
        (self.0 & m) != 0
    }

    /// Puts the cell into the set.
    pub fn set(&mut self, square: Square)
        ensures
            final(self).0 == old(self).0 | single(square.idx()),
            forall|j: int|
                #[trigger] bit(final(self).0, j) == (bit(old(self).0, j) || j == square.idx()),
            final(self)@ == old(self)@.insert(square.idx()),
    {
        let i: u8 = square.index();
        let m: u64 = 1u64 << (i as u64);
        proof {
            assert(m == single(i as int));
            lemma_bit_single(i as int);
            lemma_bit_or(self.0, m);
        }
        self.0 = self.0 | m;
        assert(self@ =~= old(self)@.insert(square.idx()));
    }

    /// Takes the cell out of the set.
    pub fn unset(&mut self, square: Square)
        ensures
            final(self).0 == old(self).0 & !single(square.idx()),
            forall|j: int|
                #[trigger] bit(final(self).0, j) == (bit(old(self).0, j) && j != square.idx()),
            final(self)@ == old(self)@.remove(square.idx()),
    {
        let i: u8 = square.index();
        let m: u64 = 1u64 << (i as u64);
        proof {
            assert(m == single(i as int));
            lemma_bit_single(i as int);
            lemma_bit_not(m);
            lemma_bit_and(self.0, !m);
            assert forall|j: int| #[trigger]
                bit(self.0 & !m, j) == (bit(self.0, j) && j != i as int) by {
                if on_board(j) {
                    assert(bit(!m, j) == !bit(m, j));
                }
            }
        }
        self.0 = self.0 & !m;
        assert(self@ =~= old(self)@.remove(square.idx()));
    }

    /// The number of cells in the set.
    pub fn count(self) -> (n: u32)
        ensures
            n == count_bits(self.0, 64),
            n <= 64,
    {
        let mut rest = Squares { bitboard: self };
        let mut n: u32 = 0;
        let ghost mut done: int = 0;
        proof {
            lemma_pending_start(self.0);
        }
        loop
            invariant
                0 <= done <= 64,
                pending(self.0, rest.bitboard.0, done),
                n == count_bits(self.0, done),
                n <= done,
            ensures
                n == count_bits(self.0, 64),
                n <= 64,
            decreases 64 - done,
        {
            let ghost before = rest.bitboard.0;
            match rest.next() {
                None => {
                    proof {
                        lemma_pending_done(self.0, done);
                        lemma_count_skip(self.0, done, 64);
                    }
                    break ;
                },
                Some(sq) => {
                    proof {
                        lemma_pending_step(self.0, before, done);
                        lemma_count_skip(self.0, done, sq.idx());
                        done = sq.idx() + 1;
                    }
                    n = n + 1;
                },
            }
        }
        n
    }
}

/// The number of set bits among the lowest `n` bits of a mask.
pub open spec fn count_bits(b: u64, n: int) -> nat
    decreases n,
{
    if n <= 0 {
        0
    } else {
        count_bits(b, n - 1) + if bit(b, n - 1) {
            1nat
        } else {
            0nat
        }
    }
}

/// Bits that are not set do not count.
pub proof fn lemma_count_skip(b: u64, m: int, n: int)
    requires
        0 <= m <= n,
        forall|j: int| m <= j < n ==> !bit(b, j),
    ensures
        count_bits(b, n) == count_bits(b, m),
    decreases n - m,
{
    if m < n {
        lemma_count_skip(b, m, n - 1);
    }
}

/// What is left of the mask `all` once its cells below `from` have been taken:
/// `rest` holds exactly the cells of `all` numbered `from` and up.
pub open spec fn pending(all: u64, rest: u64, from: int) -> bool {
    forall|j: int|
        #![trigger bit(rest, j)]
        #![trigger bit(all, j)]
        bit(rest, j) == (bit(all, j) && j >= from)
}

/// At the start everything is left.
pub proof fn lemma_pending_start(all: u64)
    ensures
        pending(all, all, 0),
{
}

/// When nothing is left, no cell from `from` up is in the mask.
pub proof fn lemma_pending_done(all: u64, from: int)
    requires
        pending(all, 0, from),
    ensures
        forall|j: int| from <= j ==> !bit(all, j),
{
    lemma_bit_zero(0);
}

/// Taking the lowest cell that is left: it is a cell of `all`, no cell of `all`
/// lies between `from` and it, and what is left afterwards are the cells above it.
pub proof fn lemma_pending_step(all: u64, rest: u64, from: int)
    requires
        rest != 0,
        0 <= from,
        pending(all, rest, from),
    ensures
        from <= lowest(rest) < 64,
        bit(all, lowest(rest)),
        forall|j: int| from <= j < lowest(rest) ==> !bit(all, j),
        pending(all, rest & !single(lowest(rest)), lowest(rest) + 1),
{
    lemma_lowest(rest);
    let s = lowest(rest);
    lemma_bit_single(s);
    lemma_bit_not(single(s));
    lemma_bit_and(rest, !single(s));
    let after = rest & !single(s);
    assert forall|j: int|
        #![trigger bit(after, j)]
        #![trigger bit(all, j)]
        bit(after, j) == (bit(all, j) && j >= s + 1) by {
        assert(bit(after, j) == (bit(rest, j) && bit(!single(s), j)));
        if on_board(j) {
            assert(bit(!single(s), j) == !bit(single(s), j));
        }
    }
}

/// The cells of a set that have not been taken yet.
pub struct Squares {
    pub bitboard: Bitboard,
}

impl Squares {
    /// Takes the cell with the lowest number out of what is left and returns it;
    /// `None` when nothing is left.
    pub fn next(&mut self) -> (r: Option<Square>)
        ensures
            match r {
                None => old(self).bitboard.0 == 0 && final(self).bitboard.0 == 0,
                Some(sq) => old(self).bitboard.0 != 0 && sq.idx() == lowest(old(self).bitboard.0)
                    && final(self).bitboard.0 == old(self).bitboard.0 & !single(sq.idx()),
            },
    {
        let b: u64 = self.bitboard.0;
        if b == 0 {
            return None;
        }
        proof {
            lemma_lowest(b);
        }
        let zeros: u32 = b.trailing_zeros();
        let i: u8 = zeros as u8;
        let sq = Square::from_index(i);
        self.bitboard = Bitboard(b & !(1u64 << (i as u64)));
        Some(sq)
    }
}


/// The letter of file `f`, `a` to `h`.
pub open spec fn file_letter(f: int) -> char {
    if f == 0 {
        'a'
    } else if f == 1 {
        'b'
    } else if f == 2 {
        'c'
    } else if f == 3 {
        'd'
    } else if f == 4 {
        'e'
    } else if f == 5 {
        'f'
    } else if f == 6 {
        'g'
    } else {
        'h'
    }
}

/// The digit of rank `r`, `1` to `8`.
pub open spec fn rank_digit(r: int) -> char {
    if r == 0 {
        '1'
    } else if r == 1 {
        '2'
    } else if r == 2 {
        '3'
    } else if r == 3 {
        '4'
    } else if r == 4 {
        '5'
    } else if r == 5 {
        '6'
    } else if r == 6 {
        '7'
    } else {
        '8'
    }
}

impl Square {
    /// The name of the cell: the letter of its file, then the digit of its rank.
    pub open spec fn name(self) -> Seq<char> {
        seq![file_letter(file_of(self.idx())), rank_digit(rank_of(self.idx()))]
    }

    /// The name of the cell, such as `e4`.
    pub fn to_text(self) -> (s: &'static str)
        ensures
            s@ == self.name(),
    {
        reveal(Square::idx);
        let s = match self {
            Square::A1 => "a1",
            Square::B1 => "b1",
            Square::C1 => "c1",
            Square::D1 => "d1",
            Square::E1 => "e1",
            Square::F1 => "f1",
            Square::G1 => "g1",
            Square::H1 => "h1",
            Square::A2 => "a2",
            Square::B2 => "b2",
            Square::C2 => "c2",
            Square::D2 => "d2",
            Square::E2 => "e2",
            Square::F2 => "f2",
            Square::G2 => "g2",
            Square::H2 => "h2",
            Square::A3 => "a3",
            Square::B3 => "b3",
            Square::C3 => "c3",
            Square::D3 => "d3",
            Square::E3 => "e3",
            Square::F3 => "f3",
            Square::G3 => "g3",
            Square::H3 => "h3",
            Square::A4 => "a4",
            Square::B4 => "b4",
            Square::C4 => "c4",
            Square::D4 => "d4",
            Square::E4 => "e4",
            Square::F4 => "f4",
            Square::G4 => "g4",
            Square::H4 => "h4",
            Square::A5 => "a5",
            Square::B5 => "b5",
            Square::C5 => "c5",
            Square::D5 => "d5",
            Square::E5 => "e5",
            Square::F5 => "f5",
            Square::G5 => "g5",
            Square::H5 => "h5",
            Square::A6 => "a6",
            Square::B6 => "b6",
            Square::C6 => "c6",
            Square::D6 => "d6",
            Square::E6 => "e6",
            Square::F6 => "f6",
            Square::G6 => "g6",
            Square::H6 => "h6",
            Square::A7 => "a7",
            Square::B7 => "b7",
            Square::C7 => "c7",
            Square::D7 => "d7",
            Square::E7 => "e7",
            Square::F7 => "f7",
            Square::G7 => "g7",
            Square::H7 => "h7",
            Square::A8 => "a8",
            Square::B8 => "b8",
            Square::C8 => "c8",
            Square::D8 => "d8",
            Square::E8 => "e8",
            Square::F8 => "f8",
            Square::G8 => "g8",
            Square::H8 => "h8",
        };
        proof {
            reveal_strlit("a1");
            reveal_strlit("b1");
            reveal_strlit("c1");
            reveal_strlit("d1");
            reveal_strlit("e1");
            reveal_strlit("f1");
            reveal_strlit("g1");
            reveal_strlit("h1");
            reveal_strlit("a2");
            reveal_strlit("b2");
            reveal_strlit("c2");
            reveal_strlit("d2");
            reveal_strlit("e2");
            reveal_strlit("f2");
            reveal_strlit("g2");
            reveal_strlit("h2");
            reveal_strlit("a3");
            reveal_strlit("b3");
            reveal_strlit("c3");
            reveal_strlit("d3");
            reveal_strlit("e3");
            reveal_strlit("f3");
            reveal_strlit("g3");
            reveal_strlit("h3");
            reveal_strlit("a4");
            reveal_strlit("b4");
            reveal_strlit("c4");
            reveal_strlit("d4");
            reveal_strlit("e4");
            reveal_strlit("f4");
            reveal_strlit("g4");
            reveal_strlit("h4");
            reveal_strlit("a5");
            reveal_strlit("b5");
            reveal_strlit("c5");
            reveal_strlit("d5");
            reveal_strlit("e5");
            reveal_strlit("f5");
            reveal_strlit("g5");
            reveal_strlit("h5");
            reveal_strlit("a6");
            reveal_strlit("b6");
            reveal_strlit("c6");
            reveal_strlit("d6");
            reveal_strlit("e6");
            reveal_strlit("f6");
            reveal_strlit("g6");
            reveal_strlit("h6");
            reveal_strlit("a7");
            reveal_strlit("b7");
            reveal_strlit("c7");
            reveal_strlit("d7");
            reveal_strlit("e7");
            reveal_strlit("f7");
            reveal_strlit("g7");
            reveal_strlit("h7");
            reveal_strlit("a8");
            reveal_strlit("b8");
            reveal_strlit("c8");
            reveal_strlit("d8");
            reveal_strlit("e8");
            reveal_strlit("f8");
            reveal_strlit("g8");
            reveal_strlit("h8");
            assert(s@ =~= self.name());
        }
        s
    }
}

} // verus!
