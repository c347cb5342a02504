//! Masks of ranks, files and diagonals, and the attack tables that move
//! generation looks things up in.
use vstd::prelude::*;
use crate::bitboard::{bit, cell, file_of, on_board, rank_of, single, Bitboard, Direction, Square};
use crate::repr::{Color, Colored};

verus! {

/// A family of parallel lines of cells: the eight ranks, the eight files, the
/// fifteen main diagonals (lower right to upper left, numbered by rank plus
/// file) or the fifteen second diagonals (lower left to upper right, numbered by
/// seven minus rank plus file).
#[derive(Copy, Clone, Debug, PartialEq, Eq, Structural)]
pub enum Line {
    Rank,
    File,
    MainDiag,
    SecondDiag,
}

/// The main diagonal from H1 to A8.
pub const LONG_MAIN_DIAG: u64 = 0x0102040810204080;

/// The second diagonal from A1 to H8.
pub const LONG_SECOND_DIAG: u64 = 0x8040201008040201;

/// The first rank.
pub const FIRST_RANK: u64 = 0xFF;

/// The A file.
pub const FIRST_FILE: u64 = 0x0101010101010101;

impl Line {
    /// How many lines the family has.
    pub open spec fn number(self) -> int {
        match self {
            Line::Rank | Line::File => 8,
            Line::MainDiag | Line::SecondDiag => 15,
        }
    }

    /// The number of the line of this family through cell `s`.
    pub open spec fn index_of(self, s: int) -> int {
        match self {
            Line::Rank => rank_of(s),
            Line::File => file_of(s),
            Line::MainDiag => rank_of(s) + file_of(s),
            Line::SecondDiag => 7 - rank_of(s) + file_of(s),
        }
    }

    /// The mask of line number `k` of this family.
    pub open spec fn mask(self, k: int) -> u64 {
        match self {
            Line::Rank => FIRST_RANK << ((8 * k) as u64),
            Line::File => FIRST_FILE << (k as u64),
            Line::MainDiag => if k <= 7 {
                LONG_MAIN_DIAG >> ((8 * (7 - k)) as u64)
            } else {
                LONG_MAIN_DIAG << ((8 * (k - 7)) as u64)
            },
            Line::SecondDiag => if k <= 7 {
                LONG_SECOND_DIAG << ((8 * (7 - k)) as u64)
            } else {
                LONG_SECOND_DIAG >> ((8 * (k - 7)) as u64)
            },
        }
    }

    /// The family whose lines cross the lines of this one and tell the cells of
    /// one line apart: files for a rank, ranks for a file, and each kind of
    /// diagonal for the other.
    pub open spec fn crossing(self) -> Line {
        match self {
            Line::Rank => Line::File,
            Line::File => Line::Rank,
            Line::MainDiag => Line::SecondDiag,
            Line::SecondDiag => Line::MainDiag,
        }
    }

    /// The direction along a line of this family in which the coordinate grows.
    pub open spec fn up(self) -> Direction {
        match self {
            Line::Rank => Direction::Right,
            Line::File => Direction::Up,
            Line::MainDiag => Direction::UpLeft,
            Line::SecondDiag => Direction::UpRight,
        }
    }

    /// The direction along a line of this family in which the coordinate falls.
    pub open spec fn down(self) -> Direction {
        match self {
            Line::Rank => Direction::Left,
            Line::File => Direction::Down,
            Line::MainDiag => Direction::DownRight,
            Line::SecondDiag => Direction::DownLeft,
        }
    }

    /// The coordinate, 0 to 7, of cell `s` on its line of this family: its file on
    /// a rank, its rank on a file or a diagonal.
    pub open spec fn coord(self, s: int) -> int {
        match self {
            Line::Rank => file_of(s),
            _ => rank_of(s),
        }
    }

    /// The cell with coordinate `c` on the line of this family through cell `s`,
    /// if the line has such a cell.
    pub open spec fn cell_at(self, s: int, c: int) -> Option<int> {
        match self {
            Line::Rank => Some(cell(c, rank_of(s))),
            Line::File => Some(cell(file_of(s), c)),
            Line::MainDiag => {
                let f = rank_of(s) + file_of(s) - c;
                if 0 <= f < 8 {
                    Some(cell(f, c))
                } else {
                    None
                }
            },
            Line::SecondDiag => {
                let f = file_of(s) - rank_of(s) + c;
                if 0 <= f < 8 {
                    Some(cell(f, c))
                } else {
                    None
                }
            },
        }
    }

    /// The family whose lines cross the lines of this one.
    pub fn cross(self) -> (l: Line)
        ensures
            l == self.crossing(),
    {
        match self {
            Line::Rank => Line::File,
            Line::File => Line::Rank,
            Line::MainDiag => Line::SecondDiag,
            Line::SecondDiag => Line::MainDiag,
        }
    }

    /// The number of the line of this family through the cell.
    pub fn index(self, sq: Square) -> (k: u8)
        ensures
            k == self.index_of(sq.idx()),
            0 <= k < self.number(),
    {
        match self {
            Line::Rank => sq.rank(),
            Line::File => sq.file(),
            Line::MainDiag => sq.main_diag(),
            Line::SecondDiag => sq.second_diag(),
        }
    }

    /// The cells of line number `k` of this family.
    pub fn line(self, k: u8) -> (b: Bitboard)
        requires
            0 <= k < self.number(),
        ensures
            b.0 == self.mask(k as int),
    {
        match self {
            Line::Rank => Bitboard(FIRST_RANK << ((8 * k) as u64)),
            Line::File => Bitboard(FIRST_FILE << (k as u64)),
            Line::MainDiag => if k <= 7 {
                Bitboard(LONG_MAIN_DIAG >> ((8 * (7 - k)) as u64))
            } else {
                Bitboard(LONG_MAIN_DIAG << ((8 * (k - 7)) as u64))
            },
            Line::SecondDiag => if k <= 7 {
                Bitboard(LONG_SECOND_DIAG << ((8 * (7 - k)) as u64))
            } else {
                Bitboard(LONG_SECOND_DIAG >> ((8 * (k - 7)) as u64))
            },
        }
    }

    /// The cell with coordinate `c` on the line of this family through the cell.
    fn cell_on(self, sq: Square, c: u8) -> (r: Option<u8>)
        requires
            c < 8,
        ensures
            match self.cell_at(sq.idx(), c as int) {
                Some(t) => r == Some(t as u8) && on_board(t),
                None => r is None,
            },
    {
        let f: u8 = sq.file();
        let r: u8 = sq.rank();
        match self {
            Line::Rank => Some(r * 8 + c),
            Line::File => Some(c * 8 + f),
            Line::MainDiag => {
                if c <= r + f && r + f - c < 8 {
                    Some(c * 8 + (r + f - c))
                } else {
                    None
                }
            },
            Line::SecondDiag => {
                if r <= f + c && f + c - r < 8 {
                    Some(c * 8 + (f + c - r))
                } else {
                    None
                }
            },
        }
    }
}

/// The union of the lines numbered `lo` to `hi`, both included, of a family.
pub open spec fn span(line: Line, lo: int, hi: int) -> u64
    decreases hi - lo + 1,
{
    if hi < lo {
        0
    } else {
        span(line, lo, hi - 1) | line.mask(hi)
    }
}

/// The union of the lines of a family from number `i` to number `j`, both
/// included, whichever of the two is the larger.
pub open spec fn between_mask(line: Line, i: int, j: int) -> u64 {
    if i <= j {
        span(line, i, j)
    } else {
        span(line, j, i)
    }
}

/// The mask of the single cell that lies `df` files and `dr` ranks from cell
/// `s`, or the empty mask where there is no such cell on the board.
pub open spec fn jump(s: int, df: int, dr: int) -> u64 {
    let f = file_of(s) + df;
    let r = rank_of(s) + dr;
    if 0 <= f < 8 && 0 <= r < 8 {
        single(cell(f, r))
    } else {
        0
    }
}

/// The cells that a knight on cell `s` attacks.
pub open spec fn knight_mask(s: int) -> u64 {
    jump(s, -2, 1) | jump(s, -1, 2) | jump(s, 1, 2) | jump(s, 2, 1) | jump(s, 2, -1) | jump(
        s,
        1,
        -2,
    ) | jump(s, -1, -2) | jump(s, -2, -1)
}

/// The cells that a king on cell `s` attacks.
pub open spec fn king_mask(s: int) -> u64 {
    jump(s, -1, 1) | jump(s, 0, 1) | jump(s, 1, 1) | jump(s, 1, 0) | jump(s, 1, -1) | jump(
        s,
        0,
        -1,
    ) | jump(s, -1, -1) | jump(s, -1, 0)
}

/// The cells that a pawn of the given colour on cell `s` attacks.
pub open spec fn pawn_mask(color: Color, s: int) -> u64 {
    match color {
        Color::White => jump(s, -1, 1) | jump(s, 1, 1),
        Color::Black => jump(s, 1, -1) | jump(s, -1, -1),
    }
}

/// The cells seen when walking from cell `s` in direction `dir` over a line whose
/// occupancy is the eight-bit `pattern` (bit `c` for the cell with coordinate
/// `c`), after `seen` occupied cells have been passed, for at most `fuel` steps.
/// The first mask holds the cells reached before any occupied cell was passed,
/// the first occupied cell included; the second holds the cells reached after
/// exactly one was passed, the second occupied cell included.
pub open spec fn scan(
    axis: Line,
    pattern: u64,
    s: int,
    dir: Direction,
    seen: int,
    fuel: nat,
) -> (u64, u64)
    decreases fuel,
{
    if fuel == 0 {
        (0, 0)
    } else {
        match dir.step_from(s) {
            None => (0, 0),
            Some(t) => {
                let rest = scan(
                    axis,
                    pattern,
                    t,
                    dir,
                    if bit(pattern, axis.coord(t)) {
                        seen + 1
                    } else {
                        seen
                    },
                    (fuel - 1) as nat,
                );
                (
                    (if seen == 0 {
                        single(t)
                    } else {
                        0
                    }) | rest.0,
                    (if seen == 1 {
                        single(t)
                    } else {
                        0
                    }) | rest.1,
                )
            },
        }
    }
}

/// The table entry of a slider on cell `s` that moves along its line of the
/// family `axis`, where `pattern` is the occupancy of that line: the cells that
/// it attacks, and the cells behind the first occupied cell in either direction,
/// up to and with the second.
pub open spec fn slide_entry(axis: Line, s: int, pattern: u64) -> (u64, u64) {
    let up = scan(axis, pattern, s, axis.up(), 0, 7);
    let down = scan(axis, pattern, s, axis.down(), 0, 7);
    (up.0 | down.0, up.1 | down.1)
}

/// The occupancy of the cells with coordinates below `n` on the line of the
/// family `axis` through cell `s`: bit `c` is set when the cell with coordinate
/// `c` is in `occupied`.
pub open spec fn pattern_of(axis: Line, occupied: u64, s: int, n: int) -> u64
    decreases n,
{
    if n <= 0 {
        0
    } else {
        let below = pattern_of(axis, occupied, s, n - 1);
        match axis.cell_at(s, n - 1) {
            Some(t) => if bit(occupied, t) {
                below | single(n - 1)
            } else {
                below
            },
            None => below,
        }
    }
}

/// What a slider on cell `s` that moves along its line of the family `axis`
/// attacks on a board with the given occupied cells, and the cells behind its
/// first blocker in either direction, up to and with the second.
pub open spec fn slide_masks(axis: Line, occupied: u64, s: int) -> (u64, u64) {
    slide_entry(axis, s, pattern_of(axis, occupied, s, 8))
}

/// The cells that must not be attacked when the side of the given colour
/// castles on the king's side: where the king stands, passes and lands.
pub open spec fn safe_king_castle(color: Color) -> u64 {
    match color {
        Color::White => 0x0000_0000_0000_0070,
        Color::Black => 0x7000_0000_0000_0000,
    }
}

/// The cells that must not be attacked when the side castles on the queen's side.
pub open spec fn safe_queen_castle(color: Color) -> u64 {
    match color {
        Color::White => 0x0000_0000_0000_001C,
        Color::Black => 0x1C00_0000_0000_0000,
    }
}

/// The cells that must be empty when the side castles on the king's side.
pub open spec fn free_king_castle(color: Color) -> u64 {
    match color {
        Color::White => 0x0000_0000_0000_0060,
        Color::Black => 0x6000_0000_0000_0000,
    }
}

/// The cells that must be empty when the side castles on the queen's side.
pub open spec fn free_queen_castle(color: Color) -> u64 {
    match color {
        Color::White => 0x0000_0000_0000_000E,
        Color::Black => 0x0E00_0000_0000_0000,
    }
}

/// The four castling masks of a side: what must be unattacked and what must be
/// empty, on the king's side and on the queen's side.
pub fn castle_masks(color: Color) -> (m: (u64, u64, u64, u64))
    ensures
        m.0 == safe_king_castle(color),
        m.1 == free_king_castle(color),
        m.2 == safe_queen_castle(color),
        m.3 == free_queen_castle(color),
{
    match color {
        Color::White => (0x70, 0x60, 0x1C, 0x0E),
        Color::Black => (
            0x7000_0000_0000_0000,
            0x6000_0000_0000_0000,
            0x1C00_0000_0000_0000,
            0x0E00_0000_0000_0000,
        ),
    }
}

proof fn lemma_or_assoc(a: u64, b: u64, c: u64)
    ensures
        (a | b) | c == a | (b | c),
{
    assert((a | b) | c == a | (b | c)) by (bit_vector);
}

proof fn lemma_or_zero(a: u64)
    ensures
        a | 0 == a,
        0 | a == a,
{
    assert(a | 0 == a) by (bit_vector);
    assert(0 | a == a) by (bit_vector);
}

proof fn lemma_pattern_bound(p: u64, c: u64)
    requires
        p < 256,
        c < 8,
    ensures
        p | (1u64 << c) < 256,
{
    assert(p | (1u64 << c) < 256) by (bit_vector)
        requires
            p < 256,
            c < 8,
    ;
}

/// The single-cell mask of `jump`.
fn jump_to(sq: Square, df: i8, dr: i8) -> (m: u64)
    requires
        -2 <= df <= 2,
        -2 <= dr <= 2,
    ensures
        m == jump(sq.idx(), df as int, dr as int),
{
    let f: i8 = (sq.file() as i8) + df;
    let r: i8 = (sq.rank() as i8) + dr;
    if 0 <= f && f < 8 && 0 <= r && r < 8 {
        1u64 << ((r * 8 + f) as u64)
    } else {
        0
    }
}

/// Walks from the cell in the given direction over a line with the given
/// occupancy pattern.
fn scan_ray(axis: Line, pattern: u64, origin: Square, dir: Direction) -> (r: (u64, u64))
    ensures
        r == scan(axis, pattern, origin.idx(), dir, 0, 7),
{
    let mut attack: u64 = 0;
    let mut xray: u64 = 0;
    let mut seen: u8 = 0;
    let mut cur: Square = origin;
    let mut fuel: u8 = 7;
    proof {
        let all = scan(axis, pattern, origin.idx(), dir, 0, 7);
        lemma_or_zero(all.0);
        lemma_or_zero(all.1);
    }
    while fuel > 0
        invariant
            fuel <= 7,
            seen <= 7 - fuel,
            scan(axis, pattern, origin.idx(), dir, 0, 7) == (
                attack | scan(axis, pattern, cur.idx(), dir, seen as int, fuel as nat).0,
                xray | scan(axis, pattern, cur.idx(), dir, seen as int, fuel as nat).1,
            ),
        decreases fuel,
    {
        let ghost here = scan(axis, pattern, cur.idx(), dir, seen as int, fuel as nat);
        match cur.step(dir) {
            None => {
                fuel = 0;
            },
            Some(t) => {
                let m: u64 = t.to_bitboard().0;
                let c: u8 = match axis {
                    Line::Rank => t.file(),
                    _ => t.rank(),
                };
                let occupied: bool = (pattern >> (c as u64)) & 1 == 1;
                let ghost next_seen: int = if occupied {
                    seen + 1
                } else {
                    seen as int
                };
                let ghost rest = scan(axis, pattern, t.idx(), dir, next_seen, (fuel - 1) as nat);
                proof {
                    assert(occupied == bit(pattern, axis.coord(t.idx())));
                    assert(here.0 == (if seen == 0 {
                        m
                    } else {
                        0
                    }) | rest.0);
                    assert(here.1 == (if seen == 1 {
                        m
                    } else {
                        0
                    }) | rest.1);
                    lemma_or_assoc(attack, m, rest.0);
                    lemma_or_assoc(xray, m, rest.1);
                    lemma_or_zero(rest.0);
                    lemma_or_zero(rest.1);
                }
                if seen == 0 {
                    attack = attack | m;
                } else if seen == 1 {
                    xray = xray | m;
                }
                if occupied {
                    seen = seen + 1;
                }
                cur = t;
                fuel = fuel - 1;
            },
        }
    }
    proof {
        lemma_or_zero(attack);
        lemma_or_zero(xray);
    }
    (attack, xray)
}

/// The occupancy pattern of the line of the family `axis` through the cell.
fn line_pattern(axis: Line, sq: Square, occupied: u64) -> (p: u64)
    ensures
        p == pattern_of(axis, occupied, sq.idx(), 8),
        p < 256,
{
    let mut p: u64 = 0;
    let mut c: u8 = 0;
    while c < 8
        invariant
            c <= 8,
            p < 256,
            p == pattern_of(axis, occupied, sq.idx(), c as int),
        decreases 8 - c,
    {
        match axis.cell_on(sq, c) {
            Some(t) => {
                if (occupied >> (t as u64)) & 1 == 1 {
                    proof {
                        lemma_pattern_bound(p, c as u64);
                    }
                    p = p | (1u64 << (c as u64));
                }
            },
            None => {},
        }
        c = c + 1;
    }
    p
}

/// The table of one family of lines: for the slider on cell `s` and the
/// occupancy pattern `p` of its line, entry number `s * 256 + p`.
pub open spec fn is_slide_table(axis: Line, t: Seq<(Bitboard, Bitboard)>) -> bool {
    &&& t.len() == 64 * 256
    &&& forall|s: int, p: int|
        0 <= s < 64 && 0 <= p < 256 ==> {
            let e = #[trigger] t[s * 256 + p];
            (e.0.0, e.1.0) == slide_entry(axis, s, p as u64)
        }
}

/// Builds the table of one family of lines.
pub fn generate_slide(axis: Line) -> (t: Vec<(Bitboard, Bitboard)>)
    ensures
        is_slide_table(axis, t@),
{
    let mut t: Vec<(Bitboard, Bitboard)> = Vec::new();
    let (up, down) = match axis {
        Line::Rank => (Direction::Right, Direction::Left),
        Line::File => (Direction::Up, Direction::Down),
        Line::MainDiag => (Direction::UpLeft, Direction::DownRight),
        Line::SecondDiag => (Direction::UpRight, Direction::DownLeft),
    };
    let mut s: u8 = 0;
    while s < 64
        invariant
            s <= 64,
            up == axis.up(),
            down == axis.down(),
            t@.len() == s * 256,
            forall|s0: int, q: int|
                0 <= s0 < s && 0 <= q < 256 ==> {
                    let e = #[trigger] t@[s0 * 256 + q];
                    (e.0.0, e.1.0) == slide_entry(axis, s0, q as u64)
                },
        decreases 64 - s,
    {
        let origin = Square::from_index(s);
        let mut p: u64 = 0;
        while p < 256
            invariant
                s < 64,
                p <= 256,
                origin.idx() == s,
                up == axis.up(),
                down == axis.down(),
                t@.len() == s * 256 + p,
                forall|s0: int, q: int|
                    0 <= s0 < s && 0 <= q < 256 ==> {
                        let e = #[trigger] t@[s0 * 256 + q];
                        (e.0.0, e.1.0) == slide_entry(axis, s0, q as u64)
                    },
                forall|q: int|
                    0 <= q < p ==> {
                        let e = #[trigger] t@[s * 256 + q];
                        (e.0.0, e.1.0) == slide_entry(axis, s as int, q as u64)
                    },
            decreases 256 - p,
        {
            let a = scan_ray(axis, p, origin, up);
            let b = scan_ray(axis, p, origin, down);
            t.push((Bitboard(a.0 | b.0), Bitboard(a.1 | b.1)));
            p = p + 1;
        }
        s = s + 1;
    }
    t
}

/// The table of the sliders that move along a rank.
pub fn generate_slide_horizontal() -> (t: Vec<(Bitboard, Bitboard)>)
    ensures
        is_slide_table(Line::Rank, t@),
{
    generate_slide(Line::Rank)
}

/// The table of the sliders that move along a file.
pub fn generate_slide_vertical() -> (t: Vec<(Bitboard, Bitboard)>)
    ensures
        is_slide_table(Line::File, t@),
{
    generate_slide(Line::File)
}

/// The table of the sliders that move along a main diagonal.
pub fn generate_slide_main_diagonal() -> (t: Vec<(Bitboard, Bitboard)>)
    ensures
        is_slide_table(Line::MainDiag, t@),
{
    generate_slide(Line::MainDiag)
}

/// The table of the sliders that move along a second diagonal.
pub fn generate_slide_second_diagonal() -> (t: Vec<(Bitboard, Bitboard)>)
    ensures
        is_slide_table(Line::SecondDiag, t@),
{
    generate_slide(Line::SecondDiag)
}

/// A table with one mask per cell, where `f` gives the mask of each cell.
pub open spec fn is_cell_table(f: spec_fn(int) -> u64, t: Seq<Bitboard>) -> bool {
    &&& t.len() == 64
    &&& forall|s: int| 0 <= s < 64 ==> (#[trigger] t[s]).0 == f(s)
}

/// The cells that a knight attacks from each cell.
pub fn knight_moves() -> (t: Vec<Bitboard>)
    ensures
        is_cell_table(|s: int| knight_mask(s), t@),
{
    let mut t: Vec<Bitboard> = Vec::new();
    let mut s: u8 = 0;
    while s < 64
        invariant
            s <= 64,
            t@.len() == s,
            forall|s0: int| 0 <= s0 < s ==> (#[trigger] t@[s0]).0 == knight_mask(s0),
        decreases 64 - s,
    {
        let sq = Square::from_index(s);
        let m: u64 = jump_to(sq, -2, 1) | jump_to(sq, -1, 2) | jump_to(sq, 1, 2) | jump_to(
            sq,
            2,
            1,
        ) | jump_to(sq, 2, -1) | jump_to(sq, 1, -2) | jump_to(sq, -1, -2) | jump_to(sq, -2, -1);
        t.push(Bitboard(m));
        s = s + 1;
    }
    t
}

/// The cells that a king attacks from each cell.
pub fn king_moves() -> (t: Vec<Bitboard>)
    ensures
        is_cell_table(|s: int| king_mask(s), t@),
{
    let mut t: Vec<Bitboard> = Vec::new();
    let mut s: u8 = 0;
    while s < 64
        invariant
            s <= 64,
            t@.len() == s,
            forall|s0: int| 0 <= s0 < s ==> (#[trigger] t@[s0]).0 == king_mask(s0),
        decreases 64 - s,
    {
        let sq = Square::from_index(s);
        let m: u64 = jump_to(sq, -1, 1) | jump_to(sq, 0, 1) | jump_to(sq, 1, 1) | jump_to(
            sq,
            1,
            0,
        ) | jump_to(sq, 1, -1) | jump_to(sq, 0, -1) | jump_to(sq, -1, -1) | jump_to(sq, -1, 0);
        t.push(Bitboard(m));
        s = s + 1;
    }
    t
}

/// The cells that a pawn of each colour attacks from each cell.
pub fn pawn_attacks() -> (t: Colored<Vec<Bitboard>>)
    ensures
        is_cell_table(|s: int| pawn_mask(Color::White, s), t.0@),
        is_cell_table(|s: int| pawn_mask(Color::Black, s), t.1@),
{
    let mut white: Vec<Bitboard> = Vec::new();
    let mut black: Vec<Bitboard> = Vec::new();
    let mut s: u8 = 0;
    while s < 64
        invariant
            s <= 64,
            white@.len() == s,
            black@.len() == s,
            forall|s0: int|
                0 <= s0 < s ==> (#[trigger] white@[s0]).0 == pawn_mask(Color::White, s0),
            forall|s0: int|
                0 <= s0 < s ==> (#[trigger] black@[s0]).0 == pawn_mask(Color::Black, s0),
        decreases 64 - s,
    {
        let sq = Square::from_index(s);
        white.push(Bitboard(jump_to(sq, -1, 1) | jump_to(sq, 1, 1)));
        black.push(Bitboard(jump_to(sq, 1, -1) | jump_to(sq, -1, -1)));
        s = s + 1;
    }
    Colored(white, black)
}

/// The table of the unions of neighbouring lines of one family: for the lines
/// `i` and `j`, entry number `i * 16 + j` is the union of the lines from the one
/// to the other.
pub open spec fn is_between_table(line: Line, t: Seq<Bitboard>) -> bool {
    &&& t.len() == 16 * line.number()
    &&& forall|i: int, j: int|
        0 <= i < line.number() && 0 <= j < line.number() ==> (#[trigger] t[i * 16 + j]).0
            == between_mask(line, i, j)
}

/// The union of the lines numbered `lo` to `hi` of a family.
fn span_of(line: Line, lo: u8, hi: u8) -> (m: u64)
    requires
        lo <= hi < line.number(),
    ensures
        m == span(line, lo as int, hi as int),
{
    let mut m: u64 = 0;
    let mut k: u8 = lo;
    while k <= hi
        invariant
            lo <= k <= hi + 1,
            hi < line.number(),
            m == span(line, lo as int, k - 1),
        decreases hi + 1 - k,
    {
        m = m | line.line(k).0;
        k = k + 1;
    }
    m
}

/// Builds the table of the unions of neighbouring lines of one family.
pub fn generate_between(line: Line) -> (t: Vec<Bitboard>)
    ensures
        is_between_table(line, t@),
{
    let n: u8 = match line {
        Line::Rank | Line::File => 8,
        Line::MainDiag | Line::SecondDiag => 15,
    };
    let mut t: Vec<Bitboard> = Vec::new();
    let mut i: u8 = 0;
    while i < n
        invariant
            i <= n,
            n == line.number(),
            t@.len() == i * 16,
            forall|i0: int, j0: int|
                0 <= i0 < i && 0 <= j0 < n ==> (#[trigger] t@[i0 * 16 + j0]).0 == between_mask(
                    line,
                    i0,
                    j0,
                ),
        decreases n - i,
    {
        let mut j: u8 = 0;
        while j < 16
            invariant
                i < n,
                j <= 16,
                n == line.number(),
                t@.len() == i * 16 + j,
                forall|i0: int, j0: int|
                    0 <= i0 < i && 0 <= j0 < n ==> (#[trigger] t@[i0 * 16 + j0]).0
                        == between_mask(line, i0, j0),
                forall|j0: int|
                    0 <= j0 < j && j0 < n ==> (#[trigger] t@[i * 16 + j0]).0 == between_mask(
                        line,
                        i as int,
                        j0,
                    ),
            decreases 16 - j,
        {
            let m: u64 = if j >= n {
                0
            } else if i <= j {
                span_of(line, i, j)
            } else {
                span_of(line, j, i)
            };
            t.push(Bitboard(m));
            j = j + 1;
        }
        i = i + 1;
    }
    t
}

/// The unions of neighbouring files.
pub fn generate_files() -> (t: Vec<Bitboard>)
    ensures
        is_between_table(Line::File, t@),
{
    generate_between(Line::File)
}

/// The unions of neighbouring ranks.
pub fn generate_ranks() -> (t: Vec<Bitboard>)
    ensures
        is_between_table(Line::Rank, t@),
{
    generate_between(Line::Rank)
}

/// The unions of neighbouring main diagonals.
pub fn generate_main_diags() -> (t: Vec<Bitboard>)
    ensures
        is_between_table(Line::MainDiag, t@),
{
    generate_between(Line::MainDiag)
}

/// The unions of neighbouring second diagonals.
pub fn generate_second_diags() -> (t: Vec<Bitboard>)
    ensures
        is_between_table(Line::SecondDiag, t@),
{
    generate_between(Line::SecondDiag)
}

/// The attack tables: built once from the geometry of the board, and read by
/// move generation ever after.
pub struct Tables {
    horizontal: Vec<(Bitboard, Bitboard)>,
    vertical: Vec<(Bitboard, Bitboard)>,
    main_diagonal: Vec<(Bitboard, Bitboard)>,
    second_diagonal: Vec<(Bitboard, Bitboard)>,
    knight: Vec<Bitboard>,
    king: Vec<Bitboard>,
    pawn: Colored<Vec<Bitboard>>,
    files_between: Vec<Bitboard>,
    ranks_between: Vec<Bitboard>,
    main_diags_between: Vec<Bitboard>,
    second_diags_between: Vec<Bitboard>,
}

impl Tables {
    /// Every table holds what its generator promises.
    #[verifier::type_invariant]
    pub closed spec fn wf(self) -> bool {
        &&& is_slide_table(Line::Rank, self.horizontal@)
        &&& is_slide_table(Line::File, self.vertical@)
        &&& is_slide_table(Line::MainDiag, self.main_diagonal@)
        &&& is_slide_table(Line::SecondDiag, self.second_diagonal@)
        &&& is_cell_table(|s: int| knight_mask(s), self.knight@)
        &&& is_cell_table(|s: int| king_mask(s), self.king@)
        &&& is_cell_table(|s: int| pawn_mask(Color::White, s), self.pawn.0@)
        &&& is_cell_table(|s: int| pawn_mask(Color::Black, s), self.pawn.1@)
        &&& is_between_table(Line::File, self.files_between@)
        &&& is_between_table(Line::Rank, self.ranks_between@)
        &&& is_between_table(Line::MainDiag, self.main_diags_between@)
        &&& is_between_table(Line::SecondDiag, self.second_diags_between@)
    }

    /// Builds all tables.
    pub fn new() -> (t: Tables)
        ensures
            t.wf(),
    {
        Tables {
            horizontal: generate_slide_horizontal(),
            vertical: generate_slide_vertical(),
            main_diagonal: generate_slide_main_diagonal(),
            second_diagonal: generate_slide_second_diagonal(),
            knight: knight_moves(),
            king: king_moves(),
            pawn: pawn_attacks(),
            files_between: generate_files(),
            ranks_between: generate_ranks(),
            main_diags_between: generate_main_diags(),
            second_diags_between: generate_second_diags(),
        }
    }

    /// The cells that a knight on the cell attacks.
    pub fn knight(&self, sq: Square) -> (b: Bitboard)
        ensures
            b.0 == knight_mask(sq.idx()),
    {
        proof {
            use_type_invariant(self);
        }
        self.knight[sq.index() as usize]
    }

    /// The cells that a king on the cell attacks.
    pub fn king(&self, sq: Square) -> (b: Bitboard)
        ensures
            b.0 == king_mask(sq.idx()),
    {
        proof {
            use_type_invariant(self);
        }
        self.king[sq.index() as usize]
    }

    /// The cells that a pawn of the given colour on the cell attacks.
    pub fn pawn(&self, color: Color, sq: Square) -> (b: Bitboard)
        ensures
            b.0 == pawn_mask(color, sq.idx()),
    {
        proof {
            use_type_invariant(self);
        }
        match color {
            Color::White => self.pawn.0[sq.index() as usize],
            Color::Black => self.pawn.1[sq.index() as usize],
        }
    }

    /// What a slider on the cell that moves along its line of the family `axis`
    /// attacks on a board with the given occupied cells, and the cells behind
    /// its first blocker in either direction, up to and with the second.
    pub fn slide(&self, axis: Line, sq: Square, occupied: Bitboard) -> (r: (Bitboard, Bitboard))
        ensures
            (r.0.0, r.1.0) == slide_masks(axis, occupied.0, sq.idx()),
    {
        proof {
            use_type_invariant(self);
        }
        let p: u64 = line_pattern(axis, sq, occupied.0);
        let i: usize = (sq.index() as usize) * 256 + (p as usize);
        match axis {
            Line::Rank => self.horizontal[i],
            Line::File => self.vertical[i],
            Line::MainDiag => self.main_diagonal[i],
            Line::SecondDiag => self.second_diagonal[i],
        }
    }

    /// The union of the lines of a family from the one through the first cell to
    /// the one through the second.
    pub fn between(&self, line: Line, a: Square, b: Square) -> (m: Bitboard)
        ensures
            m.0 == between_mask(line, line.index_of(a.idx()), line.index_of(b.idx())),
    {
        proof {
            use_type_invariant(self);
        }
        let i: usize = (line.index(a) as usize) * 16 + (line.index(b) as usize);
        match line {
            Line::File => self.files_between[i],
            Line::Rank => self.ranks_between[i],
            Line::MainDiag => self.main_diags_between[i],
            Line::SecondDiag => self.second_diags_between[i],
        }
    }
}

} // verus!
