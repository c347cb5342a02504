//! The decisions behind the line-based protocol that drives the engine: which
//! command a line gives, how deep a search is asked for, and which board a
//! `position` command sets up. A line comes as its words.
use vstd::prelude::*;
use crate::fen::{fen_fault, fen_position, initial_position};
use crate::position::Position;
use crate::{ChessError, Chessboard, Fault};

verus! {

/// What a line asks for.
#[derive(Copy, Clone, Debug, PartialEq, Eq, Structural)]
pub enum Command {
    /// `uci`: the engine names itself.
    Identify,
    /// `position`: a board is set up.
    Position,
    /// `go`: the engine searches.
    Go,
    /// `isready`: the engine answers that it is.
    Ready,
    /// Anything else, and a line without a word.
    Other,
}

/// The depth of a search that is asked for without one.
pub const DEFAULT_DEPTH: i32 = 6;

/// The command that the first of the words names.
pub open spec fn command_named(words: Seq<Seq<char>>) -> Command {
    if words.len() == 0 {
        Command::Other
    } else if words[0] == "uci"@ {
        Command::Identify
    } else if words[0] == "position"@ {
        Command::Position
    } else if words[0] == "go"@ {
        Command::Go
    } else if words[0] == "isready"@ {
        Command::Ready
    } else {
        Command::Other
    }
}

/// The views of the words.
pub open spec fn word_views(words: Seq<String>) -> Seq<Seq<char>> {
    Seq::new(words.len(), |i: int| words[i]@)
}

/// The number that the first `n` characters of a text of digits stand for,
/// with the given sign, if it fits in 32 bits.
pub open spec fn signed_value(s: Seq<char>, negative: bool, n: int) -> Option<int>
    decreases n,
{
    if n <= 0 {
        Some(0)
    } else {
        match signed_value(s, negative, n - 1) {
            None => None,
            Some(v) => {
                let d = s[n - 1] as u32;
                let next = if negative {
                    v * 10 - (d - 48)
                } else {
                    v * 10 + (d - 48)
                };
                if 48 <= d <= 57 && -0x8000_0000 <= next <= 0x7fff_ffff {
                    Some(next)
                } else {
                    None
                }
            },
        }
    }
}

/// The whole number that a text stands for: one digit or more, after a sign or
/// without, with a value that fits in 32 bits.
pub open spec fn integer_named(s: Seq<char>) -> Option<int> {
    let signed = s.len() > 0 && (s[0] == '+' || s[0] == '-');
    let digits = if signed {
        s.subrange(1, s.len() as int)
    } else {
        s
    };
    if digits.len() == 0 {
        None
    } else {
        signed_value(digits, s[0] == '-', digits.len() as int)
    }
}

/// The depth that the settings of a `go` command ask for. The words after the
/// first come in pairs of a name and a number; a last word without a partner
/// is not read. `depth` is the depth found so far, and the pairs from number
/// `k` on are still to be read. The last pair named `depth` decides. `None`
/// when a number cannot be read.
pub open spec fn depth_from(words: Seq<Seq<char>>, k: int, depth: int) -> Option<int>
    decreases words.len() - 2 * k,
{
    if k < 0 || 2 * k + 2 >= words.len() {
        Some(depth)
    } else {
        match integer_named(words[2 * k + 2]) {
            None => None,
            Some(v) => depth_from(
                words,
                k + 1,
                if words[2 * k + 1] == "depth"@ {
                    v
                } else {
                    depth
                },
            ),
        }
    }
}

/// Numbers that cannot be read up to some place cannot be read further.
pub proof fn lemma_signed_fails(s: Seq<char>, negative: bool, m: int, n: int)
    requires
        m <= n,
        signed_value(s, negative, m) is None,
    ensures
        signed_value(s, negative, n) is None,
    decreases n - m,
{
    if m < n {
        lemma_signed_fails(s, negative, m, n - 1);
    }
}

/// Whether the word is the given text.
fn word_is(word: &String, text: &str) -> (r: bool)
    ensures
        r == (word@ == text@),
{
    let n: usize = word.as_str().unicode_len();
    if n != text.unicode_len() {
        return false;
    }
    let mut i: usize = 0;
    while i < n
        invariant
            i <= n,
            n == word@.len(),
            n == text@.len(),
            forall|j: int| 0 <= j < i ==> word@[j] == text@[j],
        decreases n - i,
    {
        if word.as_str().get_char(i) != text.get_char(i) {
            return false;
        }
        i = i + 1;
    }
    assert(word@ =~= text@);
    true
}

/// Reads a whole number.
fn read_integer(word: &String) -> (r: Option<i32>)
    ensures
        match integer_named(word@) {
            Some(v) => r == Some(v as i32) && -0x8000_0000 <= v <= 0x7fff_ffff,
            None => r is None,
        },
{
    let text = word.as_str();
    let n: usize = text.unicode_len();
    if n == 0 {
        return None;
    }
    let first: char = text.get_char(0);
    let negative: bool = first == '-';
    let from: usize = if first == '+' || first == '-' {
        1
    } else {
        0
    };
    let ghost s = word@.subrange(from as int, n as int);
    proof {
        if from == 0 {
            assert(s =~= word@);
        }
    }
    if from == n {
        return None;
    }
    assert(integer_named(word@) == signed_value(s, negative, n - from));
    let mut value: i64 = 0;
    let mut i: usize = from;
    while i < n
        invariant
            from <= i <= n,
            n == word@.len(),
            text@ == word@,
            s == word@.subrange(from as int, n as int),
            integer_named(word@) == signed_value(s, negative, n - from),
            -0x8000_0000 <= value <= 0x7fff_ffff,
            signed_value(s, negative, i - from) == Some(value as int),
        decreases n - i,
    {
        let d: u32 = text.get_char(i) as u32;
        assert(s[i - from] == word@[i as int]);
        if !(48 <= d && d <= 57) {
            assert(signed_value(s, negative, i - from + 1) is None);
            proof {
                lemma_signed_fails(s, negative, i - from + 1, n - from);
            }
            return None;
        }
        let next: i64 = if negative {
            value * 10 - (d as i64 - 48)
        } else {
            value * 10 + (d as i64 - 48)
        };
        if next < -0x8000_0000 || next > 0x7fff_ffff {
            assert(signed_value(s, negative, i - from + 1) is None);
            proof {
                lemma_signed_fails(s, negative, i - from + 1, n - from);
            }
            return None;
        }
        value = next;
        i = i + 1;
    }
    Some(value as i32)
}

impl Command {
    /// The command that the words of a line give.
    pub fn parse(words: &Vec<String>) -> (c: Command)
        ensures
            c == command_named(word_views(words@)),
    {
        if words.len() == 0 {
            return Command::Other;
        }
        assert(word_views(words@)[0] == words@[0]@);
        if word_is(&words[0], "uci") {
            Command::Identify
        } else if word_is(&words[0], "position") {
            Command::Position
        } else if word_is(&words[0], "go") {
            Command::Go
        } else if word_is(&words[0], "isready") {
            Command::Ready
        } else {
            Command::Other
        }
    }
}

/// The depth that a `go` command asks for: that of its last setting named
/// `depth`; six where it has none. Every setting has a whole number as its
/// value; `None` where one has not.
pub fn go_depth(words: &Vec<String>) -> (r: Option<i32>)
    ensures
        match depth_from(word_views(words@), 0, DEFAULT_DEPTH as int) {
            Some(d) => r == Some(d as i32) && -0x8000_0000 <= d <= 0x7fff_ffff,
            None => r is None,
        },
{
    let ghost w = word_views(words@);
    let n: usize = words.len();
    let mut depth: i32 = DEFAULT_DEPTH;
    let mut j: usize = 1;
    let ghost mut k: int = 0;
    if n < 3 {
        return Some(depth);
    }
    while j < n - 1
        invariant
            w == word_views(words@),
            n == words@.len(),
            n >= 3,
            j == 2 * k + 1,
            0 <= k,
            j <= n,
            depth_from(w, 0, DEFAULT_DEPTH as int) == depth_from(w, k, depth as int),
        decreases n - j,
    {
        assert(w[j + 1] == words@[j + 1]@);
        assert(w[j as int] == words@[j as int]@);
        match read_integer(&words[j + 1]) {
            None => {
                return None;
            },
            Some(v) => {
                if word_is(&words[j], "depth") {
                    depth = v;
                }
            },
        }
        j = j + 2;
        proof {
            k = k + 1;
        }
    }
    Some(depth)
}

/// The words from number `a` up to number `b`, with a blank after each.
pub open spec fn joined(words: Seq<Seq<char>>, a: int, b: int) -> Seq<char>
    decreases b - a,
{
    if b <= a {
        Seq::empty()
    } else {
        joined(words, a, b - 1) + words[b - 1] + seq![' ']
    }
}

/// Where the moves of a `position` command start, and the position that they
/// are played from: after `startpos` and one more word from the starting
/// position; else after the six words that describe a position, which follow
/// the second word. The kind of error and its text where the command is too
/// short or the description cannot be read.
pub open spec fn set_up(words: Seq<Seq<char>>) -> Result<(Position, int), (Fault, Seq<char>)> {
    if words.len() >= 2 && words[1] == "startpos"@ {
        Ok((initial_position(), 3))
    } else if words.len() < 8 {
        Err((Fault::Fen, "Invalid position command"@))
    } else {
        match fen_fault(joined(words, 2, 8)) {
            Some(e) => Err(e),
            None => Ok((fen_position(joined(words, 2, 8)), 9)),
        }
    }
}

/// Whether the board `b` is what the moves named by the words from number
/// `from` up to number `n`, played from the position `start`, lead to: its
/// position is the one after the last of them, and the boards behind it are
/// those that the moves before were played on.
pub open spec fn played(
    b: Chessboard,
    start: Position,
    words: Seq<Seq<char>>,
    from: int,
    n: int,
) -> bool
    decreases n - from,
{
    if n <= from {
        b.position == start && b.previous is None
    } else {
        &&& b.previous is Some
        &&& played(*b.previous->0, start, words, from, n - 1)
        &&& (*b.previous->0).move_named(words[n - 1]) is Ok
        &&& b.position == (*b.previous->0).position.after(
            (*b.previous->0).move_named(words[n - 1])->Ok_0,
        )
    }
}

/// The board that a `position` command sets up: the position that it names,
/// with the moves that it lists played on it. The error where the command is too
/// short, where the position cannot be read, or where a move cannot be read on
/// the board that it is to be played on.
pub fn next_board(words: &Vec<String>) -> (r: Result<Chessboard, ChessError>)
    ensures
        match set_up(word_views(words@)) {
            Err((fault, detail)) => r is Err && r->Err_0.is(fault, detail),
            Ok((start, from)) => match r {
                Ok(b) => played(b, start, word_views(words@), from, words@.len() as int),
                Err(e) => exists|n: int, b: Chessboard|
                    from <= n < words@.len() && played(b, start, word_views(words@), from, n)
                        && #[trigger] b.move_named(word_views(words@)[n]) is Err && e.is(
                        b.move_named(word_views(words@)[n])->Err_0.0,
                        b.move_named(word_views(words@)[n])->Err_0.1,
                    ),
            },
        },
{
    let ghost w = word_views(words@);
    let n: usize = words.len();
    let mut board: Chessboard;
    let from: usize;
    if n >= 2 && word_is(&words[1], "startpos") {
        assert(w[1] == words@[1]@);
        board = Chessboard::starting();
        from = 3;
    } else {
        if n >= 2 {
            assert(w[1] == words@[1]@);
        }
        if n < 8 {
            return Err(ChessError::InvalidFEN(String::from_str("Invalid position command")));
        }
        let mut text = String::new();
        let mut i: usize = 2;
        proof {
            reveal_strlit(" ");
        }
        while i < 8
            invariant
                2 <= i <= 8 <= n,
                n == words@.len(),
                w == word_views(words@),
                " "@ == seq![' '],
                text@ == joined(w, 2, i as int),
            decreases 8 - i,
        {
            assert(w[i as int] == words@[i as int]@);
            text.append(words[i].as_str());
            text.append(" ");
            assert(text@ =~= joined(w, 2, i + 1));
            i = i + 1;
        }
        board = match Chessboard::from_fen(text.as_str()) {
            Ok(b) => b,
            Err(e) => {
                return Err(e);
            },
        };
        from = 9;
    }
    let ghost start = board.position;
    let mut i: usize = from;
    if n <= from {
        return Ok(board);
    }
    while i < n
        invariant
            from <= i <= n,
            n == words@.len(),
            w == word_views(words@),
            set_up(w) == Ok::<(Position, int), (Fault, Seq<char>)>((start, from as int)),
            played(board, start, w, from as int, i as int),
        decreases n - i,
    {
        assert(w[i as int] == words@[i as int]@);
        match board.parse_move(words[i].as_str()) {
            Ok(mv) => {
                let next = board.make_move(mv);
                board = next;
            },
            Err(e) => {
                assert(played(board, start, w, from as int, i as int) && board.move_named(
                    w[i as int],
                ) is Err);
                return Err(e);
            },
        }
        i = i + 1;
    }
    Ok(board)
}

} // verus!
