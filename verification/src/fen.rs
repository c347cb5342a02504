//! Reading cells and positions from text.
use vstd::prelude::*;
use crate::bitboard::{cell, on_board, Bitboard, Square};
use crate::pieces::{Piece, Pieces};
use crate::position::{Board, Position};
use crate::repr::{CastlingRights, Color, Colored};
use crate::{ChessError, Fault};

verus! {

/// The position from which a game starts, as text.
pub const STARTING_POS_FEN: &'static str = "rnbqkbnr/pppppppp/8/8/8/8/PPPPPPPP/RNBQKBNR w KQkq - 0 1";

/// Whether the character separates the parts of a text: a character with the
/// Unicode property `White_Space`.
pub open spec fn is_space(c: char) -> bool {
    let n = c as u32;
    (9 <= n <= 13) || n == 0x20 || n == 0x85 || n == 0xA0 || n == 0x1680 || (0x2000 <= n
        <= 0x200A) || n == 0x2028 || n == 0x2029 || n == 0x202F || n == 0x205F || n == 0x3000
}

/// The first place at or after `i` that holds no separator.
pub open spec fn word_start(s: Seq<char>, i: int) -> int
    decreases s.len() - i,
{
    if 0 <= i < s.len() && is_space(s[i]) {
        word_start(s, i + 1)
    } else {
        i
    }
}

/// The first place at or after `i` that holds a separator, or the end.
pub open spec fn word_end(s: Seq<char>, i: int) -> int
    decreases s.len() - i,
{
    if 0 <= i < s.len() && !is_space(s[i]) {
        word_end(s, i + 1)
    } else {
        i
    }
}

/// Where part number `n` of the text starts, counting from `i` on; the end of
/// the text where there is no such part.
pub open spec fn part_start(s: Seq<char>, n: nat, i: int) -> int
    decreases n,
{
    if n == 0 {
        word_start(s, i)
    } else {
        part_start(s, (n - 1) as nat, word_end(s, word_start(s, i)))
    }
}

/// Part number `n` of the text, the parts being what its separators leave;
/// empty where there is no such part.
pub open spec fn part(s: Seq<char>, n: nat) -> Seq<char> {
    let a = part_start(s, n, 0);
    if 0 <= a <= word_end(s, a) <= s.len() {
        s.subrange(a, word_end(s, a))
    } else {
        Seq::empty()
    }
}

/// The cell that a text of two characters names: a file letter from `a` to `h`,
/// small or capital, and a rank digit from `1` to `8`.
pub open spec fn square_named(s: Seq<char>) -> Option<Square> {
    if s.len() != 2 {
        None
    } else {
        let f = s[0] as u32;
        let r = s[1] as u32;
        let file = if 97 <= f <= 104 {
            f - 97
        } else {
            f - 65
        };
        if ((97 <= f <= 104) || (65 <= f <= 72)) && 49 <= r <= 56 {
            Some(Square::of(cell(file, r - 49)))
        } else {
            None
        }
    }
}

/// The colour and kind of the piece that a letter stands for: a capital letter
/// for White, a small one for Black.
pub open spec fn piece_lettered(c: char) -> Option<(Color, Piece)> {
    if c == 'P' {
        Some((Color::White, Piece::Pawn))
    } else if c == 'N' {
        Some((Color::White, Piece::Knight))
    } else if c == 'B' {
        Some((Color::White, Piece::Bishop))
    } else if c == 'R' {
        Some((Color::White, Piece::Rook))
    } else if c == 'Q' {
        Some((Color::White, Piece::Queen))
    } else if c == 'K' {
        Some((Color::White, Piece::King))
    } else if c == 'p' {
        Some((Color::Black, Piece::Pawn))
    } else if c == 'n' {
        Some((Color::Black, Piece::Knight))
    } else if c == 'b' {
        Some((Color::Black, Piece::Bishop))
    } else if c == 'r' {
        Some((Color::Black, Piece::Rook))
    } else if c == 'q' {
        Some((Color::Black, Piece::Queen))
    } else if c == 'k' {
        Some((Color::Black, Piece::King))
    } else {
        None
    }
}

/// The board without pieces.
pub open spec fn empty_board() -> Board {
    Colored(Pieces::none(), Pieces::none())
}

/// The board described by the first `n` characters of a layout, and the rank
/// and the file of the cell that the next character is about. The layout
/// starts on the eighth rank at the A file and describes the ranks one after
/// the other, each from the A file to the H file. A piece letter puts that
/// piece on the cell and goes one file on; a digit from `1` to `8` goes that
/// many files on; `/` goes from the end of a rank to the start of the rank
/// below. `None` for any other character, for a rank that is longer than
/// eight cells, for a `/` before the end of a rank, and for a ninth rank.
pub open spec fn layout(s: Seq<char>, n: int) -> Option<(Board, int, int)>
    decreases n,
{
    if n <= 0 {
        Some((empty_board(), 7, 0))
    } else {
        match layout(s, n - 1) {
            None => None,
            Some((board, rank, file)) => {
                let c = s[n - 1];
                let d = c as u32;
                match piece_lettered(c) {
                    Some((color, piece)) => if file < 8 {
                        Some(
                            (
                                board.with(color, board.of(color).dropped(piece, cell(file, rank))),
                                rank,
                                file + 1,
                            ),
                        )
                    } else {
                        None
                    },
                    None => if c == '/' {
                        if file == 8 && rank > 0 {
                            Some((board, rank - 1, 0))
                        } else {
                            None
                        }
                    } else if 49 <= d <= 56 {
                        if file + (d - 48) <= 8 {
                            Some((board, rank, file + (d - 48)))
                        } else {
                            None
                        }
                    } else {
                        None
                    },
                }
            },
        }
    }
}

/// The board that a whole layout describes: all eight ranks, each of eight
/// cells. `None` for a layout that cannot be read or that ends too early.
pub open spec fn layout_board(s: Seq<char>) -> Option<Board> {
    match layout(s, s.len() as int) {
        Some((board, rank, file)) => if rank == 0 && file == 8 {
            Some(board)
        } else {
            None
        },
        None => None,
    }
}

/// The side that a turn text names.
pub open spec fn turn_named(s: Seq<char>) -> Option<Color> {
    if s.len() != 1 {
        None
    } else if s[0] == 'w' || s[0] == 'W' {
        Some(Color::White)
    } else if s[0] == 'b' || s[0] == 'B' {
        Some(Color::Black)
    } else {
        None
    }
}

/// The castling rights named by the first `n` characters of a text: `K` and `Q`
/// for White's two wings, `k` and `q` for Black's, `-` for nothing.
pub open spec fn rights_named(s: Seq<char>, n: int) -> Option<Colored<CastlingRights>>
    decreases n,
{
    if n <= 0 {
        Some(
            Colored(
                CastlingRights { kingside: false, queenside: false },
                CastlingRights { kingside: false, queenside: false },
            ),
        )
    } else {
        match rights_named(s, n - 1) {
            None => None,
            Some(r) => {
                let c = s[n - 1];
                if c == 'K' {
                    Some(Colored(CastlingRights { kingside: true, ..r.0 }, r.1))
                } else if c == 'Q' {
                    Some(Colored(CastlingRights { queenside: true, ..r.0 }, r.1))
                } else if c == 'k' {
                    Some(Colored(r.0, CastlingRights { kingside: true, ..r.1 }))
                } else if c == 'q' {
                    Some(Colored(r.0, CastlingRights { queenside: true, ..r.1 }))
                } else if c == '-' {
                    Some(r)
                } else {
                    None
                }
            },
        }
    }
}

/// The number that the first `n` characters of a text of digits stand for, if it
/// is at most 65535.
pub open spec fn digits_value(s: Seq<char>, n: int) -> Option<int>
    decreases n,
{
    if n <= 0 {
        Some(0)
    } else {
        match digits_value(s, n - 1) {
            None => None,
            Some(v) => {
                let d = s[n - 1] as u32;
                if 48 <= d <= 57 && v * 10 + (d - 48) <= 65535 {
                    Some(v * 10 + (d - 48))
                } else {
                    None
                }
            },
        }
    }
}

/// The number that a text stands for: one digit or more, after a `+` or
/// without, with a value of at most 65535.
pub open spec fn number_named(s: Seq<char>) -> Option<int> {
    let digits = if s.len() > 0 && s[0] == '+' {
        s.subrange(1, s.len() as int)
    } else {
        s
    };
    if digits.len() == 0 {
        None
    } else {
        digits_value(digits, digits.len() as int)
    }
}

/// The cell that an en-passant text names: `Some(None)` for `-`, `None` for a
/// text that names no cell.
pub open spec fn passing_named(s: Seq<char>) -> Option<Option<Square>> {
    if s =~= seq!['-'] {
        Some(None)
    } else {
        match square_named(s) {
            Some(sq) => Some(Some(sq)),
            None => None,
        }
    }
}

/// The part of a position text that cannot be read, if any: the first of the
/// layout, the turn, the castling rights, the en-passant cell, the half-move
/// clock and the number of the move. A part that is missing cannot be read. A
/// layout that gives a side two kings cannot be read either. What follows the
/// sixth part is not read.
pub open spec fn fen_fault(s: Seq<char>) -> Option<(Fault, Seq<char>)> {
    if layout_board(part(s, 0)) is None || !layout_board(part(s, 0))->0.tidy() {
        Some((Fault::Fen, "Invalid pieces FEN"@))
    } else if turn_named(part(s, 1)) is None {
        Some((Fault::Fen, "Invalid turn FEN"@))
    } else if part(s, 2).len() == 0 || rights_named(part(s, 2), part(s, 2).len() as int) is None {
        Some((Fault::Fen, "Invalid castling rights FEN"@))
    } else if passing_named(part(s, 3)) is None {
        Some((Fault::Square, part(s, 3)))
    } else if number_named(part(s, 4)) is None {
        Some((Fault::Fen, "Invalid half-move FEN"@))
    } else if number_named(part(s, 5)) is None {
        Some((Fault::Fen, "Invalid full-move FEN"@))
    } else {
        None
    }
}

/// The position that a text without fault describes.
pub open spec fn fen_position(s: Seq<char>) -> Position {
    Position {
        board: layout_board(part(s, 0))->0,
        turn: turn_named(part(s, 1))->0,
        castling_rights: rights_named(part(s, 2), part(s, 2).len() as int)->0,
        en_passant: passing_named(part(s, 3))->0,
        half_moves: number_named(part(s, 4))->0 as u16,
    }
}

/// The position from which a game starts.
pub open spec fn initial_position() -> Position {
    Position {
        board: Colored(
            Pieces {
                pawns: Bitboard(0x0000_0000_0000_FF00),
                knights: Bitboard(0x0000_0000_0000_0042),
                bishops: Bitboard(0x0000_0000_0000_0024),
                rooks: Bitboard(0x0000_0000_0000_0081),
                queens: Bitboard(0x0000_0000_0000_0008),
                kings: Bitboard(0x0000_0000_0000_0010),
            },
            Pieces {
                pawns: Bitboard(0x00FF_0000_0000_0000),
                knights: Bitboard(0x4200_0000_0000_0000),
                bishops: Bitboard(0x2400_0000_0000_0000),
                rooks: Bitboard(0x8100_0000_0000_0000),
                queens: Bitboard(0x0800_0000_0000_0000),
                kings: Bitboard(0x1000_0000_0000_0000),
            },
        ),
        turn: Color::White,
        castling_rights: Colored(
            CastlingRights { kingside: true, queenside: true },
            CastlingRights { kingside: true, queenside: true },
        ),
        en_passant: None,
        half_moves: 0,
    }
}

/// Whether the character separates the parts of a text.
fn space(c: char) -> (r: bool)
    ensures
        r == is_space(c),
{
    let n: u32 = c as u32;
    (9 <= n && n <= 13) || n == 0x20 || n == 0x85 || n == 0xA0 || n == 0x1680 || (0x2000 <= n
        && n <= 0x200A) || n == 0x2028 || n == 0x2029 || n == 0x202F || n == 0x205F || n == 0x3000
}

/// The characters of a text.
pub fn chars_of(text: &str) -> (v: Vec<char>)
    ensures
        v@ == text@,
{
    let n: usize = text.unicode_len();
    let mut v: Vec<char> = Vec::new();
    let mut i: usize = 0;
    while i < n
        invariant
            i <= n,
            n == text@.len(),
            v@ == text@.subrange(0, i as int),
        decreases n - i,
    {
        v.push(text.get_char(i));
        assert(v@ =~= text@.subrange(0, i + 1));
        i = i + 1;
    }
    assert(v@ =~= text@);
    v
}

/// The first place at or after `i` that holds no separator.
fn skip_spaces(v: &Vec<char>, i: usize) -> (j: usize)
    requires
        i <= v@.len(),
    ensures
        j == word_start(v@, i as int),
        i <= j <= v@.len(),
{
    let mut j: usize = i;
    while j < v.len() && space(v[j])
        invariant
            i <= j <= v@.len(),
            word_start(v@, i as int) == word_start(v@, j as int),
        decreases v@.len() - j,
    {
        j = j + 1;
    }
    j
}

/// The first place at or after `i` that holds a separator, or the end.
fn skip_word(v: &Vec<char>, i: usize) -> (j: usize)
    requires
        i <= v@.len(),
    ensures
        j == word_end(v@, i as int),
        i <= j <= v@.len(),
{
    let mut j: usize = i;
    while j < v.len() && !space(v[j])
        invariant
            i <= j <= v@.len(),
            word_end(v@, i as int) == word_end(v@, j as int),
        decreases v@.len() - j,
    {
        j = j + 1;
    }
    j
}

/// Where part number `n` of the text starts and ends.
fn find_part(v: &Vec<char>, n: u8) -> (r: (usize, usize))
    ensures
        r.0 <= r.1 <= v@.len(),
        v@.subrange(r.0 as int, r.1 as int) == part(v@, n as nat),
{
    let mut a: usize = 0;
    let mut k: u8 = n;
    while k > 0
        invariant
            a <= v@.len(),
            part_start(v@, n as nat, 0) == part_start(v@, k as nat, a as int),
        decreases k,
    {
        let b = skip_spaces(v, a);
        a = skip_word(v, b);
        k = k - 1;
    }
    let start = skip_spaces(v, a);
    let end = skip_word(v, start);
    (start, end)
}

/// The piece that a letter stands for.
fn piece_for(c: char) -> (r: Option<(Color, Piece)>)
    ensures
        r == piece_lettered(c),
{
    if c == 'P' {
        Some((Color::White, Piece::Pawn))
    } else if c == 'N' {
        Some((Color::White, Piece::Knight))
    } else if c == 'B' {
        Some((Color::White, Piece::Bishop))
    } else if c == 'R' {
        Some((Color::White, Piece::Rook))
    } else if c == 'Q' {
        Some((Color::White, Piece::Queen))
    } else if c == 'K' {
        Some((Color::White, Piece::King))
    } else if c == 'p' {
        Some((Color::Black, Piece::Pawn))
    } else if c == 'n' {
        Some((Color::Black, Piece::Knight))
    } else if c == 'b' {
        Some((Color::Black, Piece::Bishop))
    } else if c == 'r' {
        Some((Color::Black, Piece::Rook))
    } else if c == 'q' {
        Some((Color::Black, Piece::Queen))
    } else if c == 'k' {
        Some((Color::Black, Piece::King))
    } else {
        None
    }
}

/// Reads the layout that stands between the places `a` and `b`.
fn read_layout(v: &Vec<char>, a: usize, b: usize) -> (r: Option<Board>)
    requires
        a <= b <= v@.len(),
    ensures
        r == layout_board(v@.subrange(a as int, b as int)),
{
    let ghost s = v@.subrange(a as int, b as int);
    let mut board: Board = Colored(Pieces::empty(), Pieces::empty());
    let mut rank: u8 = 7;
    let mut file: u8 = 0;
    let mut i: usize = a;
    assert(board == empty_board());
    while i < b
        invariant
            a <= i <= b <= v@.len(),
            s == v@.subrange(a as int, b as int),
            rank <= 7,
            file <= 8,
            layout(s, i - a) == Some((board, rank as int, file as int)),
        decreases b - i,
    {
        let c: char = v[i];
        let d: u32 = c as u32;
        assert(s[i - a] == c);
        let ghost before = (board, rank as int, file as int);
        let mut read: bool = false;
        match piece_for(c) {
            Some((color, piece)) => {
                if file < 8 {
                    let mut pieces: Pieces = *board.get(color);
                    pieces.drop(piece, Square::from_index(rank * 8 + file));
                    board.put(color, pieces);
                    file = file + 1;
                    read = true;
                }
            },
            None => {
                if c == '/' {
                    if file == 8 && rank > 0 {
                        rank = rank - 1;
                        file = 0;
                        read = true;
                    }
                } else if 49 <= d && d <= 56 {
                    let step: u8 = (d - 48) as u8;
                    if file + step <= 8 {
                        file = file + step;
                        read = true;
                    }
                }
            },
        }
        if !read {
            assert(layout(s, i - a + 1) is None);
            proof {
                lemma_layout_fails(s, i - a + 1, b - a);
            }
            return None;
        }
        i = i + 1;
    }
    if rank == 0 && file == 8 {
        Some(board)
    } else {
        None
    }
}

/// A layout that cannot be read up to some place cannot be read further.
pub proof fn lemma_layout_fails(s: Seq<char>, m: int, n: int)
    requires
        m <= n,
        layout(s, m) is None,
    ensures
        layout(s, n) is None,
    decreases n - m,
{
    if m < n {
        lemma_layout_fails(s, m, n - 1);
    }
}

/// Castling rights that cannot be read up to some place cannot be read further.
pub proof fn lemma_rights_fail(s: Seq<char>, m: int, n: int)
    requires
        m <= n,
        rights_named(s, m) is None,
    ensures
        rights_named(s, n) is None,
    decreases n - m,
{
    if m < n {
        lemma_rights_fail(s, m, n - 1);
    }
}

/// Digits that cannot be read up to some place cannot be read further.
pub proof fn lemma_digits_fail(s: Seq<char>, m: int, n: int)
    requires
        m <= n,
        digits_value(s, m) is None,
    ensures
        digits_value(s, n) is None,
    decreases n - m,
{
    if m < n {
        lemma_digits_fail(s, m, n - 1);
    }
}

/// Reads the castling rights that stand between the places `a` and `b`.
fn read_rights(v: &Vec<char>, a: usize, b: usize) -> (r: Option<Colored<CastlingRights>>)
    requires
        a <= b <= v@.len(),
    ensures
        r == rights_named(v@.subrange(a as int, b as int), b - a),
{
    let ghost s = v@.subrange(a as int, b as int);
    let mut white = CastlingRights { kingside: false, queenside: false };
    let mut black = CastlingRights { kingside: false, queenside: false };
    let mut i: usize = a;
    while i < b
        invariant
            a <= i <= b <= v@.len(),
            s == v@.subrange(a as int, b as int),
            rights_named(s, i - a) == Some(Colored(white, black)),
        decreases b - i,
    {
        let c: char = v[i];
        assert(s[i - a] == c);
        if c == 'K' {
            white = CastlingRights { kingside: true, queenside: white.queenside };
        } else if c == 'Q' {
            white = CastlingRights { kingside: white.kingside, queenside: true };
        } else if c == 'k' {
            black = CastlingRights { kingside: true, queenside: black.queenside };
        } else if c == 'q' {
            black = CastlingRights { kingside: black.kingside, queenside: true };
        } else if c == '-' {
        } else {
            assert(rights_named(s, i - a + 1) is None);
            proof {
                lemma_rights_fail(s, i - a + 1, b - a);
            }
            return None;
        }
        i = i + 1;
    }
    Some(Colored(white, black))
}

/// Reads the number that stands between the places `a` and `b`.
fn read_number(v: &Vec<char>, a: usize, b: usize) -> (r: Option<u16>)
    requires
        a <= b <= v@.len(),
    ensures
        match number_named(v@.subrange(a as int, b as int)) {
            Some(n) => r == Some(n as u16) && 0 <= n <= 65535,
            None => r is None,
        },
{
    let ghost whole = v@.subrange(a as int, b as int);
    assert(whole.len() == b - a);
    let from: usize = if a < b && v[a] == '+' {
        a + 1
    } else {
        a
    };
    let ghost s = v@.subrange(from as int, b as int);
    proof {
        if a < b {
            assert(whole[0] == v@[a as int]);
        }
        if from == a {
            assert(s =~= whole);
        } else {
            assert(s =~= whole.subrange(1, whole.len() as int));
        }
    }
    if from == b {
        return None;
    }
    assert(number_named(whole) == digits_value(s, b - from));
    let mut value: u32 = 0;
    let mut i: usize = from;
    while i < b
        invariant
            from <= i <= b <= v@.len(),
            s == v@.subrange(from as int, b as int),
            whole == v@.subrange(a as int, b as int),
            number_named(whole) == digits_value(s, b - from),
            value <= 65535,
            digits_value(s, i - from) == Some(value as int),
        decreases b - i,
    {
        let d: u32 = v[i] as u32;
        assert(s[i - from] == v@[i as int]);
        if 48 <= d && d <= 57 && value * 10 + (d - 48) <= 65535 {
            value = value * 10 + (d - 48);
        } else {
            assert(digits_value(s, i - from + 1) is None);
            proof {
                lemma_digits_fail(s, i - from + 1, b - from);
            }
            return None;
        }
        i = i + 1;
    }
    Some(value as u16)
}

/// Reads the cell that the characters between the places `a` and `b` name.
fn read_square(v: &Vec<char>, a: usize, b: usize) -> (r: Option<Square>)
    requires
        a <= b <= v@.len(),
    ensures
        r == square_named(v@.subrange(a as int, b as int)),
{
    let ghost s = v@.subrange(a as int, b as int);
    if b - a != 2 {
        return None;
    }
    let f: u32 = v[a] as u32;
    let r: u32 = v[a + 1] as u32;
    assert(s[0] == v@[a as int] && s[1] == v@[a + 1]);
    if !(49 <= r && r <= 56) {
        return None;
    }
    let file: u32 = if 97 <= f && f <= 104 {
        f - 97
    } else if 65 <= f && f <= 72 {
        f - 65
    } else {
        return None;
    };
    Some(Square::from_index(((r - 49) * 8 + file) as u8))
}

impl Square {
    /// Reads a cell from its name: a file letter from `a` to `h`, small or
    /// capital, and a rank digit from `1` to `8`.
    pub fn parse(text: &str) -> (r: Result<Square, ChessError>)
        ensures
            match square_named(text@) {
                Some(sq) => r == Ok::<Square, ChessError>(sq),
                None => r is Err && r->Err_0.is(Fault::Square, text@),
            },
    {
        let v = chars_of(text);
        assert(v@.subrange(0, v@.len() as int) =~= text@);
        match read_square(&v, 0, v.len()) {
            Some(sq) => Ok(sq),
            None => Err(ChessError::ParseSquare(String::from_str(text))),
        }
    }
}

impl std::str::FromStr for Square {
    type Err = ChessError;

    /// Reads a cell from its name, as `Square::parse` does.
    fn from_str(string: &str) -> (r: Result<Square, ChessError>)
        ensures
            match square_named(string@) {
                Some(sq) => r == Ok::<Square, ChessError>(sq),
                None => r is Err && r->Err_0.is(Fault::Square, string@),
            },
    {
        Square::parse(string)
    }
}

impl Position {
    /// The position from which a game starts.
    pub fn starting() -> (p: Position)
        ensures
            p == initial_position(),
            p.sound(),
    {
        proof {
            crate::game::lemma_initial_sound();
        }
        Position {
            board: Colored(
                Pieces {
                    pawns: Bitboard(0x0000_0000_0000_FF00),
                    knights: Bitboard(0x0000_0000_0000_0042),
                    bishops: Bitboard(0x0000_0000_0000_0024),
                    rooks: Bitboard(0x0000_0000_0000_0081),
                    queens: Bitboard(0x0000_0000_0000_0008),
                    kings: Bitboard(0x0000_0000_0000_0010),
                },
                Pieces {
                    pawns: Bitboard(0x00FF_0000_0000_0000),
                    knights: Bitboard(0x4200_0000_0000_0000),
                    bishops: Bitboard(0x2400_0000_0000_0000),
                    rooks: Bitboard(0x8100_0000_0000_0000),
                    queens: Bitboard(0x0800_0000_0000_0000),
                    kings: Bitboard(0x1000_0000_0000_0000),
                },
            ),
            turn: Color::White,
            castling_rights: Colored(
                CastlingRights { kingside: true, queenside: true },
                CastlingRights { kingside: true, queenside: true },
            ),
            en_passant: None,
            half_moves: 0,
        }
    }

    /// Reads a position from its text of six parts with separators between
    /// them: the layout of the pieces, the side to move, the castling rights, the
    /// en-passant cell, the half-move clock and the number of the move. The
    /// layout has eight ranks of eight cells each, so no cell holds two pieces,
    /// and it gives no side two kings. The number of the move is read and not
    /// kept; what follows it is not read.
    pub fn from_fen(fen: &str) -> (r: Result<Position, ChessError>)
        ensures
            match fen_fault(fen@) {
                None => r == Ok::<Position, ChessError>(fen_position(fen@)),
                Some((fault, detail)) => r is Err && r->Err_0.is(fault, detail),
            },
            r is Ok ==> r->Ok_0.board.tidy(),
    {
        let v = chars_of(fen);
        let pieces = find_part(&v, 0);
        let board = match read_layout(&v, pieces.0, pieces.1) {
            Some(board) => board,
            None => {
                return Err(ChessError::InvalidFEN(String::from_str("Invalid pieces FEN")));
            },
        };
        if !board.is_tidy() {
            return Err(ChessError::InvalidFEN(String::from_str("Invalid pieces FEN")));
        }
        let side = find_part(&v, 1);
        let turn = if side.1 - side.0 == 1 && (v[side.0] == 'w' || v[side.0] == 'W') {
            Color::White
        } else if side.1 - side.0 == 1 && (v[side.0] == 'b' || v[side.0] == 'B') {
            Color::Black
        } else {
            return Err(ChessError::InvalidFEN(String::from_str("Invalid turn FEN")));
        };
        proof {
            assert(part(v@, 1)[0] == v@[side.0 as int]);
        }
        let castling = find_part(&v, 2);
        let castling_rights = match read_rights(&v, castling.0, castling.1) {
            Some(rights) => rights,
            None => {
                return Err(
                    ChessError::InvalidFEN(String::from_str("Invalid castling rights FEN")),
                );
            },
        };
        if castling.0 == castling.1 {
            return Err(ChessError::InvalidFEN(String::from_str("Invalid castling rights FEN")));
        }
        let passing = find_part(&v, 3);
        let en_passant = if passing.1 - passing.0 == 1 && v[passing.0] == '-' {
            assert(part(v@, 3) =~= seq!['-']);
            None
        } else {
            assert(!(part(v@, 3) =~= seq!['-'])) by {
                if part(v@, 3).len() == 1 {
                    assert(part(v@, 3)[0] == v@[passing.0 as int]);
                }
            }
            match read_square(&v, passing.0, passing.1) {
                Some(sq) => Some(sq),
                None => {
                    let named = fen.substring_char(passing.0, passing.1);
                    return Err(ChessError::ParseSquare(String::from_str(named)));
                },
            }
        };
        let clock = find_part(&v, 4);
        let half_moves = match read_number(&v, clock.0, clock.1) {
            Some(n) => n,
            None => {
                return Err(ChessError::InvalidFEN(String::from_str("Invalid half-move FEN")));
            },
        };
        let number = find_part(&v, 5);
        if read_number(&v, number.0, number.1).is_none() {
            return Err(ChessError::InvalidFEN(String::from_str("Invalid full-move FEN")));
        }
        Ok(Position { board, turn, castling_rights, en_passant, half_moves })
    }
}

} // verus!
