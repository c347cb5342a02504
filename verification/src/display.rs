//! A position as text, for a terminal.
use vstd::prelude::*;
use colored::Colorize;
use crate::bitboard::{bit, rank_digit, Bitboard, Square};
use crate::pieces::Piece;
use crate::position::Position;

verus! {

/// The escape character, with which the codes of a terminal begin.
pub open spec fn escape() -> char {
    '\x1b'
}

/// The code that ends a colour.
pub open spec fn reset() -> Seq<char> {
    seq![escape(), '[', '0', 'm']
}

/// The number of cyan among a terminal's colours, in digits.
pub open spec fn cyan_code() -> Seq<char> {
    seq!['3', '6']
}

/// The number of magenta among a terminal's colours, in digits.
pub open spec fn magenta_code() -> Seq<char> {
    seq!['3', '5']
}

/// The text between the code that starts the colour of the given number and
/// the code that ends it.
pub open spec fn painted(code: Seq<char>, text: Seq<char>) -> Seq<char> {
    seq![escape(), '['] + code + seq!['m'] + text + reset()
}

/// Whether `cell` shows the text in the colour of the given number: it is the
/// text in that colour, or the bare text where colours are switched off, or the
/// text with the closing code alone where they were switched off while the text
/// was written.
pub open spec fn shown(text: Seq<char>, code: Seq<char>, cell: Seq<char>) -> bool {
    cell == text || cell == painted(code, text) || cell == text + reset()
}

/// The text in cyan. This is `Colorize::cyan` of the crate `colored`, written
/// out as a `String` by its `Display`. Whether colours are on depends on the
/// terminal and on the override of that crate, so of a text that holds no
/// escape character the contract says only that it comes back as one of the
/// forms of `shown`; of another text, in which that crate may rewrite closing
/// codes, it says nothing.
#[verifier::external_body]
fn cyan(text: &str) -> (s: String)
    ensures
        !text@.contains(escape()) ==> shown(text@, cyan_code(), s@),
{
    text.cyan().to_string()
}

/// The text in magenta. This is `Colorize::magenta` of the crate `colored`,
/// written out as a `String` by its `Display`; the contract is that of `cyan`
/// with the number of magenta.
#[verifier::external_body]
fn magenta(text: &str) -> (s: String)
    ensures
        !text@.contains(escape()) ==> shown(text@, magenta_code(), s@),
{
    text.magenta().to_string()
}

/// One row of a printed board: the first `n` cells of the row, each followed by
/// a blank.
pub open spec fn row_text(cells: Seq<Seq<char>>, row: int, n: int) -> Seq<char>
    decreases n,
{
    if n <= 0 {
        Seq::empty()
    } else {
        row_text(cells, row, n - 1) + cells[row * 8 + n - 1] + seq![' ']
    }
}

/// The first `n` rows of a printed board, from the eighth rank down: each row
/// is followed by the digit of its rank and a line break.
pub open spec fn rows_text(cells: Seq<Seq<char>>, n: int) -> Seq<char>
    decreases n,
{
    if n <= 0 {
        Seq::empty()
    } else {
        rows_text(cells, n - 1) + row_text(cells, 8 - n, 8) + seq![rank_digit(8 - n), '\n']
    }
}

/// A printed board: the eight rows, and below them the letters of the files.
pub open spec fn board_text(cells: Seq<Seq<char>>) -> Seq<char> {
    rows_text(cells, 8) + "a b c d e f g h \n"@
}

/// The views of the texts.
pub open spec fn views(cells: Seq<String>) -> Seq<Seq<char>> {
    Seq::new(cells.len(), |i: int| cells[i]@)
}

/// The digit of a rank as a text.
fn digit(rank: u8) -> (s: &'static str)
    requires
        rank < 8,
    ensures
        s@ == seq![rank_digit(rank as int)],
{
    proof {
        reveal_strlit("1");
        reveal_strlit("2");
        reveal_strlit("3");
        reveal_strlit("4");
        reveal_strlit("5");
        reveal_strlit("6");
        reveal_strlit("7");
        reveal_strlit("8");
    }
    let s = if rank == 0 {
        "1"
    } else if rank == 1 {
        "2"
    } else if rank == 2 {
        "3"
    } else if rank == 3 {
        "4"
    } else if rank == 4 {
        "5"
    } else if rank == 5 {
        "6"
    } else if rank == 6 {
        "7"
    } else {
        "8"
    };
    assert(s@ =~= seq![rank_digit(rank as int)]);
    s
}

/// Lays out the texts of the 64 cells as a printed board.
pub fn lay_out(cells: &Vec<String>) -> (text: String)
    requires
        cells@.len() == 64,
    ensures
        text@ == board_text(views(cells@)),
{
    let ghost v = views(cells@);
    let mut text = String::new();
    let mut done: u8 = 0;
    proof {
        reveal_strlit(" ");
        reveal_strlit("\n");
    }
    while done < 8
        invariant
            done <= 8,
            cells@.len() == 64,
            v == views(cells@),
            " "@ == seq![' '],
            "\n"@ == seq!['\n'],
            text@ == rows_text(v, done as int),
        decreases 8 - done,
    {
        let row: u8 = 7 - done;
        let ghost start = text@;
        let mut col: u8 = 0;
        while col < 8
            invariant
                col <= 8,
                row < 8,
                cells@.len() == 64,
                v == views(cells@),
                " "@ == seq![' '],
                text@ == start + row_text(v, row as int, col as int),
            decreases 8 - col,
        {
            let i: usize = (row as usize) * 8 + (col as usize);
            text.append(cells[i].as_str());
            text.append(" ");
            assert(v[row * 8 + col] == cells@[i as int]@);
            assert(text@ =~= start + row_text(v, row as int, col + 1));
            col = col + 1;
        }
        text.append(digit(row));
        text.append("\n");
        assert(text@ =~= rows_text(v, done + 1));
        done = done + 1;
    }
    text.append("a b c d e f g h \n");
    text
}

/// The first `n` marks of one row of a printed mask: `O` for a cell of the
/// mask and `.` for any other.
pub open spec fn mask_row(b: u64, row: int, n: int) -> Seq<char>
    decreases n,
{
    if n <= 0 {
        Seq::empty()
    } else {
        mask_row(b, row, n - 1).push(
            if bit(b, row * 8 + n - 1) {
                'O'
            } else {
                '.'
            },
        )
    }
}

/// The first `n` rows of a printed mask, from the eighth rank down, each with a
/// line break after it.
pub open spec fn mask_rows(b: u64, n: int) -> Seq<char>
    decreases n,
{
    if n <= 0 {
        Seq::empty()
    } else {
        mask_rows(b, n - 1) + mask_row(b, 8 - n, 8) + seq!['\n']
    }
}

impl Bitboard {
    /// The set as eight lines of eight marks, the eighth rank first: `O` for a
    /// cell of the set and `.` for any other.
    pub fn to_text(&self) -> (text: String)
        ensures
            text@ == mask_rows(self.0, 8),
    {
        let mut text = String::new();
        let mut done: u8 = 0;
        proof {
            reveal_strlit("O");
            reveal_strlit(".");
            reveal_strlit("\n");
        }
        while done < 8
            invariant
                done <= 8,
                "O"@ == seq!['O'],
                "."@ == seq!['.'],
                "\n"@ == seq!['\n'],
                text@ == mask_rows(self.0, done as int),
            decreases 8 - done,
        {
            let rank: u8 = 7 - done;
            let ghost start = text@;
            let mut file: u8 = 0;
            while file < 8
                invariant
                    file <= 8,
                    rank < 8,
                    "O"@ == seq!['O'],
                    "."@ == seq!['.'],
                    text@ == start + mask_row(self.0, rank as int, file as int),
                decreases 8 - file,
            {
                if self.at(Square::from_index(rank * 8 + file)) {
                    text.append("O");
                } else {
                    text.append(".");
                }
                assert(text@ =~= start + mask_row(self.0, rank as int, file + 1));
                file = file + 1;
            }
            text.append("\n");
            assert(text@ =~= mask_rows(self.0, done + 1));
            done = done + 1;
        }
        text
    }
}

/// The letter of a piece as a text.
fn letter(piece: Piece) -> (s: &'static str)
    ensures
        s@ == seq![piece.ascii()],
{
    proof {
        reveal_strlit("p");
        reveal_strlit("N");
        reveal_strlit("B");
        reveal_strlit("R");
        reveal_strlit("Q");
        reveal_strlit("K");
    }
    let s = match piece {
        Piece::Pawn => "p",
        Piece::Knight => "N",
        Piece::Bishop => "B",
        Piece::Rook => "R",
        Piece::Queen => "Q",
        Piece::King => "K",
    };
    assert(s@ =~= seq![piece.ascii()]);
    s
}

impl Position {
    /// Whether `cell` is what the printed board shows of cell `s`: a dot where
    /// the cell is empty, else the letter of the piece on it, in cyan for a
    /// piece of White and in magenta for one of Black.
    pub open spec fn cell_shown(self, s: int, cell: Seq<char>) -> bool {
        match self.board.0.piece_on(s) {
            Some(piece) => shown(seq![piece.ascii()], cyan_code(), cell),
            None => match self.board.1.piece_on(s) {
                Some(piece) => shown(seq![piece.ascii()], magenta_code(), cell),
                None => cell == seq!['.'],
            },
        }
    }

    /// The position as a printed board: a dot for an empty cell and the letter
    /// of its piece for any other, White's pieces in cyan and Black's in magenta
    /// where the terminal shows colours.
    pub fn to_ascii(&self) -> (text: String)
        ensures
            exists|cells: Seq<Seq<char>>|
                {
                    &&& cells.len() == 64
                    &&& forall|s: int| 0 <= s < 64 ==> self.cell_shown(s, #[trigger] cells[s])
                    &&& text@ == board_text(cells)
                },
    {
        let mut cells: Vec<String> = Vec::new();
        let mut i: u8 = 0;
        proof {
            reveal_strlit(".");
        }
        while i < 64
            invariant
                i <= 64,
                cells@.len() == i,
                "."@ == seq!['.'],
                forall|s: int| 0 <= s < i ==> self.cell_shown(s, (#[trigger] cells@[s])@),
            decreases 64 - i,
        {
            let sq = Square::from_index(i);
            let cell = match self.board.0.at(sq) {
                Some(piece) => {
                    proof {
                        lemma_letter_plain(piece);
                    }
                    cyan(letter(piece))
                },
                None => match self.board.1.at(sq) {
                    Some(piece) => {
                        proof {
                            lemma_letter_plain(piece);
                        }
                        magenta(letter(piece))
                    },
                    None => String::from_str("."),
                },
            };
            cells.push(cell);
            i = i + 1;
        }
        let text = lay_out(&cells);
        proof {
            let v = views(cells@);
            assert forall|s: int| 0 <= s < 64 implies self.cell_shown(s, #[trigger] v[s]) by {
                assert(v[s] == cells@[s]@);
            }
        }
        text
    }
}

/// The letter of a piece holds no escape character.
proof fn lemma_letter_plain(piece: Piece)
    ensures
        !seq![piece.ascii()].contains(escape()),
{
    let q = seq![piece.ascii()];
    if q.contains(escape()) {
        let i = choose|i: int| 0 <= i < q.len() && q[i] == escape();
        assert(q[i] == piece.ascii());
    }
}

} // verus!
