//! The geometry of the board: the cells along a ray, the cells of a line, and
//! what the masks and tables of `constants` hold, cell by cell.
use vstd::prelude::*;
use crate::bitboard::{
    bit, cell, file_of, lemma_bit_or, lemma_bit_single, on_board, rank_of, single, Direction,
};
use crate::constants::{jump, pattern_of, scan, slide_masks, Line};

verus! {

/// The coordinate `x` moved `j` steps in the direction of the sign of `d`.
pub open spec fn along(x: int, d: int, j: int) -> int {
    if d > 0 {
        x + j
    } else if d < 0 {
        x - j
    } else {
        x
    }
}

/// The cell `j` steps from cell `s` in the given direction, if it is on the board.
#[verifier::opaque]
pub open spec fn ray_cell(s: int, dir: Direction, j: int) -> Option<int> {
    let f = along(file_of(s), dir.df(), j);
    let r = along(rank_of(s), dir.dr(), j);
    if 0 <= f < 8 && 0 <= r < 8 {
        Some(cell(f, r))
    } else {
        None
    }
}

/// The opposite direction.
pub open spec fn reverse(dir: Direction) -> Direction {
    match dir {
        Direction::Up => Direction::Down,
        Direction::UpRight => Direction::DownLeft,
        Direction::Right => Direction::Left,
        Direction::DownRight => Direction::UpLeft,
        Direction::Down => Direction::Up,
        Direction::DownLeft => Direction::UpRight,
        Direction::Left => Direction::Right,
        Direction::UpLeft => Direction::DownRight,
    }
}

/// A cell of the board is the cell of its file and rank, and the other way
/// round.
pub proof fn lemma_cell(f: int, r: int)
    requires
        0 <= f < 8,
        0 <= r < 8,
    ensures
        on_board(cell(f, r)),
        file_of(cell(f, r)) == f,
        rank_of(cell(f, r)) == r,
{
}

/// The first step of a ray is the step of its direction, and the cell after
/// cell number `j` of a ray is cell number `j + 1`.
pub proof fn lemma_ray_step(s: int, dir: Direction, j: int)
    requires
        on_board(s),
        0 <= j,
    ensures
        ray_cell(s, dir, 0) == Some(s),
        ray_cell(s, dir, 1) == dir.step_from(s),
        ray_cell(s, dir, j) matches Some(t) ==> on_board(t) && dir.step_from(t) == ray_cell(
            s,
            dir,
            j + 1,
        ) && ray_cell(t, reverse(dir), j) == Some(s),
        ray_cell(s, dir, j) is None ==> ray_cell(s, dir, j + 1) is None,
        j >= 8 ==> ray_cell(s, dir, j) is None,
{
    reveal(ray_cell);
    let f = along(file_of(s), dir.df(), j);
    let r = along(rank_of(s), dir.dr(), j);
    if 0 <= f < 8 && 0 <= r < 8 {
        lemma_cell(f, r);
    }
}

/// The cells of a ray are different from one another.
pub proof fn lemma_ray_distinct(s: int, dir: Direction, i: int, j: int)
    requires
        on_board(s),
        0 <= i < j,
        ray_cell(s, dir, j) is Some,
    ensures
        ray_cell(s, dir, i) is Some,
        ray_cell(s, dir, i) != ray_cell(s, dir, j),
{
    reveal(ray_cell);
    let f = along(file_of(s), dir.df(), j);
    let r = along(rank_of(s), dir.dr(), j);
    let f2 = along(file_of(s), dir.df(), i);
    let r2 = along(rank_of(s), dir.dr(), i);
    lemma_cell(f, r);
    lemma_cell(f2, r2);
}

/// A ray followed from one of its cells goes on along the same ray.
pub proof fn lemma_ray_from_cell(s: int, dir: Direction, i: int, j: int)
    requires
        on_board(s),
        0 <= i,
        0 <= j,
        ray_cell(s, dir, i) is Some,
    ensures
        ray_cell(ray_cell(s, dir, i)->0, dir, j) == ray_cell(s, dir, i + j),
        j <= i ==> ray_cell(ray_cell(s, dir, i)->0, reverse(dir), j) == ray_cell(s, dir, i - j),
        j >= i ==> ray_cell(ray_cell(s, dir, i)->0, reverse(dir), j) == ray_cell(
            s,
            reverse(dir),
            j - i,
        ),
{
    reveal(ray_cell);
    let f = along(file_of(s), dir.df(), i);
    let r = along(rank_of(s), dir.dr(), i);
    lemma_cell(f, r);
}

/// The number of cells that meet `occupied` among the first `n` cells of the ray
/// from cell `s`.
pub open spec fn blockers(occupied: spec_fn(int) -> bool, s: int, dir: Direction, n: int) -> int
    decreases n,
{
    if n <= 0 {
        0
    } else {
        match ray_cell(s, dir, n) {
            None => blockers(occupied, s, dir, n - 1),
            Some(t) => blockers(occupied, s, dir, n - 1) + if occupied(t) {
                1int
            } else {
                0int
            },
        }
    }
}

/// The number of blockers is not negative and grows with the number of cells.
pub proof fn lemma_blockers_grow(
    occupied: spec_fn(int) -> bool,
    s: int,
    dir: Direction,
    m: int,
    n: int,
)
    requires
        m <= n,
    ensures
        0 <= blockers(occupied, s, dir, m) <= blockers(occupied, s, dir, n),
    decreases n - m, n,
{
    if m < n {
        lemma_blockers_grow(occupied, s, dir, m, n - 1);
    } else if n > 0 {
        lemma_blockers_grow(occupied, s, dir, n - 1, n - 1);
    }
}

/// Where there is no blocker among the first `n` cells, none of them meets
/// `occupied`.
pub proof fn lemma_blockers_none(
    occupied: spec_fn(int) -> bool,
    s: int,
    dir: Direction,
    n: int,
    i: int,
)
    requires
        1 <= i <= n,
        blockers(occupied, s, dir, n) == 0,
        ray_cell(s, dir, i) is Some,
    ensures
        !occupied(ray_cell(s, dir, i)->0),
    decreases n,
{
    lemma_blockers_grow(occupied, s, dir, n - 1, n - 1);
    if i < n {
        lemma_blockers_none(occupied, s, dir, n - 1, i);
    }
}

/// Where none of the first `n` cells meets `occupied`, there is no blocker.
pub proof fn lemma_blockers_clear(occupied: spec_fn(int) -> bool, s: int, dir: Direction, n: int)
    requires
        forall|i: int|
            1 <= i <= n && ray_cell(s, dir, i) is Some ==> !occupied(
                #[trigger] ray_cell(s, dir, i)->0,
            ),
    ensures
        blockers(occupied, s, dir, n) == 0,
    decreases n,
{
    if n > 0 {
        lemma_blockers_clear(occupied, s, dir, n - 1);
        if ray_cell(s, dir, n) is Some {
            assert(!occupied(ray_cell(s, dir, n)->0));
        }
    }
}

/// Two ways to say which cells are occupied that agree on the first `n` cells
/// of a ray, but for the cell number `skip`, count the same blockers, but for
/// that cell.
pub proof fn lemma_blockers_differ(
    first: spec_fn(int) -> bool,
    second: spec_fn(int) -> bool,
    s: int,
    dir: Direction,
    n: int,
    skip: int,
)
    requires
        forall|i: int|
            1 <= i <= n && i != skip && ray_cell(s, dir, i) is Some ==> first(
                #[trigger] ray_cell(s, dir, i)->0,
            ) == second(ray_cell(s, dir, i)->0),
    ensures
        blockers(first, s, dir, n) - blockers(second, s, dir, n) == if 1 <= skip <= n && ray_cell(
            s,
            dir,
            skip,
        ) is Some {
            (if first(ray_cell(s, dir, skip)->0) {
                1int
            } else {
                0int
            }) - (if second(ray_cell(s, dir, skip)->0) {
                1int
            } else {
                0int
            })
        } else {
            0
        },
    decreases n,
{
    if n > 0 {
        lemma_blockers_differ(first, second, s, dir, n - 1, skip);
        if n != skip && ray_cell(s, dir, n) is Some {
            assert(first(ray_cell(s, dir, n)->0) == second(ray_cell(s, dir, n)->0));
        }
    }
}

/// The cells of `occupied`, as a way to say which cells are occupied.
pub open spec fn in_mask(occupied: u64) -> spec_fn(int) -> bool {
    |t: int| bit(occupied, t)
}

/// The cells whose coordinate on a line is in the pattern of the line.
pub open spec fn in_pattern(axis: Line, pattern: u64) -> spec_fn(int) -> bool {
    |t: int| bit(pattern, axis.coord(t))
}

/// Whether a walk from cell `s` in the given direction reaches cell `t` after
/// it has passed exactly `passed` occupied cells.
pub open spec fn reaches(
    occupied: spec_fn(int) -> bool,
    s: int,
    dir: Direction,
    t: int,
    passed: int,
) -> bool {
    exists|j: int|
        1 <= j < 8 && #[trigger] ray_cell(s, dir, j) == Some(t) && blockers(
            occupied,
            s,
            dir,
            j - 1,
        ) == passed
}

/// The blockers among the first `n` cells of a ray are the first cell, if it is
/// occupied, and the blockers among the first `n - 1` cells of the ray from there.
pub proof fn lemma_blockers_shift(occupied: spec_fn(int) -> bool, s: int, dir: Direction, n: int)
    requires
        on_board(s),
        1 <= n,
        ray_cell(s, dir, 1) is Some,
    ensures
        blockers(occupied, s, dir, n) == blockers(occupied, ray_cell(s, dir, 1)->0, dir, n - 1)
            + if occupied(ray_cell(s, dir, 1)->0) {
            1int
        } else {
            0int
        },
    decreases n,
{
    let t1 = ray_cell(s, dir, 1)->0;
    lemma_ray_step(s, dir, 1);
    if n > 1 {
        lemma_blockers_shift(occupied, s, dir, n - 1);
        lemma_ray_from_cell(s, dir, 1, n - 1);
    } else {
        assert(blockers(occupied, s, dir, 0) == 0);
        assert(blockers(occupied, t1, dir, 0) == 0);
    }
}

/// The first or the second mask of a scan.
pub open spec fn scan_part(
    axis: Line,
    pattern: u64,
    s: int,
    dir: Direction,
    seen: int,
    fuel: nat,
    passed: int,
) -> u64 {
    if passed == 0 {
        scan(axis, pattern, s, dir, seen, fuel).0
    } else {
        scan(axis, pattern, s, dir, seen, fuel).1
    }
}

/// One step of a scan: a cell is in a mask of the scan when it is the first
/// cell of the walk and the count stands at the mask's number, or when it is in
/// that mask of the scan that goes on from the first cell.
pub proof fn lemma_scan_unfold(
    axis: Line,
    pattern: u64,
    s: int,
    dir: Direction,
    seen: int,
    fuel: nat,
    passed: int,
    t: int,
)
    requires
        on_board(s),
        fuel > 0,
        passed == 0 || passed == 1,
        dir.step_from(s) is Some,
    ensures
        bit(scan_part(axis, pattern, s, dir, seen, fuel, passed), t) <==> (seen == passed && t
            == dir.step_from(s)->0) || bit(
            scan_part(
                axis,
                pattern,
                dir.step_from(s)->0,
                dir,
                if bit(pattern, axis.coord(dir.step_from(s)->0)) {
                    seen + 1
                } else {
                    seen
                },
                (fuel - 1) as nat,
                passed,
            ),
            t,
        ),
{
    let t1 = dir.step_from(s)->0;
    let next = if bit(pattern, axis.coord(t1)) {
        seen + 1
    } else {
        seen
    };
    let rest = scan(axis, pattern, t1, dir, next, (fuel - 1) as nat);
    lemma_ray_step(s, dir, 0);
    lemma_bit_single(t1);
    crate::bitboard::lemma_bit_zero(0);
    let a0: u64 = if seen == 0 {
        single(t1)
    } else {
        0
    };
    let a1: u64 = if seen == 1 {
        single(t1)
    } else {
        0
    };
    lemma_bit_or(a0, rest.0);
    lemma_bit_or(a1, rest.1);
}

/// A cell in a mask of a scan is reached by the walk while the count of
/// occupied cells passed stands at the mask's number.
pub proof fn lemma_scan_sound(
    axis: Line,
    pattern: u64,
    s: int,
    dir: Direction,
    seen: int,
    fuel: nat,
    passed: int,
    t: int,
) -> (j: int)
    requires
        on_board(s),
        fuel <= 7,
        passed == 0 || passed == 1,
        bit(scan_part(axis, pattern, s, dir, seen, fuel, passed), t),
    ensures
        1 <= j <= fuel,
        ray_cell(s, dir, j) == Some(t),
        seen + blockers(in_pattern(axis, pattern), s, dir, j - 1) == passed,
    decreases fuel,
{
    let occ = in_pattern(axis, pattern);
    crate::bitboard::lemma_bit_zero(0);
    lemma_ray_step(s, dir, 0);
    if fuel == 0 || dir.step_from(s) is None {
        0
    } else {
        let t1 = dir.step_from(s)->0;
        let next = if bit(pattern, axis.coord(t1)) {
            seen + 1
        } else {
            seen
        };
        lemma_scan_unfold(axis, pattern, s, dir, seen, fuel, passed, t);
        assert(blockers(occ, s, dir, 0) == 0);
        if seen == passed && t == t1 {
            1
        } else {
            let j = lemma_scan_sound(axis, pattern, t1, dir, next, (fuel - 1) as nat, passed, t);
            lemma_ray_from_cell(s, dir, 1, j);
            lemma_blockers_shift(occ, s, dir, j);
            j + 1
        }
    }
}

/// A cell that the walk reaches while the count of occupied cells passed stands
/// at a mask's number is in that mask of the scan.
pub proof fn lemma_scan_complete(
    axis: Line,
    pattern: u64,
    s: int,
    dir: Direction,
    seen: int,
    fuel: nat,
    passed: int,
    t: int,
    j: int,
)
    requires
        on_board(s),
        fuel <= 7,
        passed == 0 || passed == 1,
        1 <= j <= fuel,
        ray_cell(s, dir, j) == Some(t),
        seen + blockers(in_pattern(axis, pattern), s, dir, j - 1) == passed,
    ensures
        bit(scan_part(axis, pattern, s, dir, seen, fuel, passed), t),
    decreases fuel,
{
    let occ = in_pattern(axis, pattern);
    lemma_ray_step(s, dir, 0);
    if dir.step_from(s) is None {
        lemma_ray_none_after(s, dir, 1, j);
    } else {
        let t1 = dir.step_from(s)->0;
        let next = if bit(pattern, axis.coord(t1)) {
            seen + 1
        } else {
            seen
        };
        lemma_scan_unfold(axis, pattern, s, dir, seen, fuel, passed, t);
        assert(blockers(occ, s, dir, 0) == 0);
        if j > 1 {
            lemma_ray_from_cell(s, dir, 1, j - 1);
            lemma_blockers_shift(occ, s, dir, j - 1);
            lemma_scan_complete(
                axis,
                pattern,
                t1,
                dir,
                next,
                (fuel - 1) as nat,
                passed,
                t,
                j - 1,
            );
        }
    }
}

/// A ray that has left the board does not come back.
pub proof fn lemma_ray_none_after(s: int, dir: Direction, i: int, j: int)
    requires
        on_board(s),
        0 <= i <= j,
        ray_cell(s, dir, i) is None,
    ensures
        ray_cell(s, dir, j) is None,
{
    reveal(ray_cell);
}


/// What the pattern of a line holds, bit by bit: bit `c` is set when the line
/// has a cell with coordinate `c` and that cell is occupied.
pub proof fn lemma_pattern_bit(axis: Line, occupied: u64, s: int, n: int, c: int)
    requires
        on_board(s),
        0 <= n <= 8,
    ensures
        bit(pattern_of(axis, occupied, s, n), c) <==> 0 <= c < n && axis.cell_at(s, c) is Some
            && bit(occupied, axis.cell_at(s, c)->0),
    decreases n,
{
    crate::bitboard::lemma_bit_zero(0);
    if n > 0 {
        lemma_pattern_bit(axis, occupied, s, n - 1, c);
        let below = pattern_of(axis, occupied, s, n - 1);
        lemma_bit_single(n - 1);
        lemma_bit_or(below, single(n - 1));
    }
}

/// Whether the direction runs along the lines of the family.
pub open spec fn runs_along(axis: Line, dir: Direction) -> bool {
    dir == axis.up() || dir == axis.down()
}

/// A cell of a ray along a line is the cell of that line with its coordinate,
/// and it is on the same line of the family as the cell that the ray starts
/// from.
pub proof fn lemma_on_line(axis: Line, s: int, dir: Direction, j: int)
    requires
        on_board(s),
        runs_along(axis, dir),
        0 <= j,
        ray_cell(s, dir, j) is Some,
    ensures
        0 <= axis.coord(ray_cell(s, dir, j)->0) < 8,
        axis.cell_at(s, axis.coord(ray_cell(s, dir, j)->0)) == ray_cell(s, dir, j),
        axis.index_of(ray_cell(s, dir, j)->0) == axis.index_of(s),
        on_board(ray_cell(s, dir, j)->0),
{
    reveal(ray_cell);
    let f = along(file_of(s), dir.df(), j);
    let r = along(rank_of(s), dir.dr(), j);
    lemma_cell(f, r);
}

/// How the number of the crossing line changes along a ray: by one for each
/// step along a rank or a file, by two for each step along a diagonal, up in
/// the one direction and down in the other.
pub proof fn lemma_crossing_along(axis: Line, s: int, dir: Direction, j: int)
    requires
        on_board(s),
        runs_along(axis, dir),
        0 <= j,
        ray_cell(s, dir, j) is Some,
    ensures
        axis.crossing().index_of(ray_cell(s, dir, j)->0) - axis.crossing().index_of(s) == (match dir {
            Direction::Right | Direction::Up => j,
            Direction::Left | Direction::Down => -j,
            Direction::UpLeft | Direction::DownLeft => -2 * j,
            Direction::DownRight | Direction::UpRight => 2 * j,
        }),
{
    reveal(ray_cell);
    let f = along(file_of(s), dir.df(), j);
    let r = along(rank_of(s), dir.dr(), j);
    lemma_cell(f, r);
}

/// A cell of a ray along one family of lines is on another line of every other
/// family than the cell that the ray starts from.
pub proof fn lemma_other_line(axis: Line, other: Line, s: int, dir: Direction, j: int)
    requires
        on_board(s),
        runs_along(axis, dir),
        axis != other,
        1 <= j,
        ray_cell(s, dir, j) is Some,
    ensures
        other.index_of(ray_cell(s, dir, j)->0) != other.index_of(s),
{
    reveal(ray_cell);
    let f = along(file_of(s), dir.df(), j);
    let r = along(rank_of(s), dir.dr(), j);
    lemma_cell(f, r);
}

/// Whether a slider on cell `a` that moves along its line of the family `axis`
/// reaches cell `t` after it has passed exactly `passed` occupied cells.
pub open spec fn slides(occupied: u64, axis: Line, a: int, t: int, passed: int) -> bool {
    reaches(in_mask(occupied), a, axis.up(), t, passed) || reaches(
        in_mask(occupied),
        a,
        axis.down(),
        t,
        passed,
    )
}

/// Along a line, the pattern of the line counts the same blockers as the
/// occupied cells.
pub proof fn lemma_pattern_blockers(axis: Line, occupied: u64, s: int, dir: Direction, n: int)
    requires
        on_board(s),
        runs_along(axis, dir),
        0 <= n,
    ensures
        blockers(in_pattern(axis, pattern_of(axis, occupied, s, 8)), s, dir, n) == blockers(
            in_mask(occupied),
            s,
            dir,
            n,
        ),
{
    let first = in_pattern(axis, pattern_of(axis, occupied, s, 8));
    let second = in_mask(occupied);
    assert forall|i: int| 1 <= i <= n && i != 0 && ray_cell(s, dir, i) is Some implies first(
        #[trigger] ray_cell(s, dir, i)->0,
    ) == second(ray_cell(s, dir, i)->0) by {
        let t = ray_cell(s, dir, i)->0;
        lemma_on_line(axis, s, dir, i);
        lemma_pattern_bit(axis, occupied, s, 8, axis.coord(t));
    }
    lemma_blockers_differ(first, second, s, dir, n, 0);
}

/// What the slide tables hold, cell by cell: the first mask holds the cells
/// that the slider reaches before it has passed an occupied cell, and the second
/// those that it reaches after it has passed exactly one.
pub proof fn lemma_slide_masks(axis: Line, occupied: u64, a: int, t: int, passed: int)
    requires
        on_board(a),
        passed == 0 || passed == 1,
    ensures
        bit(
            if passed == 0 {
                slide_masks(axis, occupied, a).0
            } else {
                slide_masks(axis, occupied, a).1
            },
            t,
        ) <==> slides(occupied, axis, a, t, passed),
{
    let pattern = pattern_of(axis, occupied, a, 8);
    let up = scan(axis, pattern, a, axis.up(), 0, 7);
    let down = scan(axis, pattern, a, axis.down(), 0, 7);
    lemma_bit_or(up.0, down.0);
    lemma_bit_or(up.1, down.1);
    let occ = in_mask(occupied);
    if bit(scan_part(axis, pattern, a, axis.up(), 0, 7, passed), t) {
        let j = lemma_scan_sound(axis, pattern, a, axis.up(), 0, 7, passed, t);
        lemma_pattern_blockers(axis, occupied, a, axis.up(), j - 1);
        assert(ray_cell(a, axis.up(), j) == Some(t));
        assert(reaches(occ, a, axis.up(), t, passed));
    }
    if bit(scan_part(axis, pattern, a, axis.down(), 0, 7, passed), t) {
        let j = lemma_scan_sound(axis, pattern, a, axis.down(), 0, 7, passed, t);
        lemma_pattern_blockers(axis, occupied, a, axis.down(), j - 1);
        assert(ray_cell(a, axis.down(), j) == Some(t));
        assert(reaches(occ, a, axis.down(), t, passed));
    }
    if reaches(occ, a, axis.up(), t, passed) {
        let j = choose|j: int|
            1 <= j < 8 && #[trigger] ray_cell(a, axis.up(), j) == Some(t) && blockers(
                occ,
                a,
                axis.up(),
                j - 1,
            ) == passed;
        lemma_pattern_blockers(axis, occupied, a, axis.up(), j - 1);
        lemma_scan_complete(axis, pattern, a, axis.up(), 0, 7, passed, t, j);
    }
    if reaches(occ, a, axis.down(), t, passed) {
        let j = choose|j: int|
            1 <= j < 8 && #[trigger] ray_cell(a, axis.down(), j) == Some(t) && blockers(
                occ,
                a,
                axis.down(),
                j - 1,
            ) == passed;
        lemma_pattern_blockers(axis, occupied, a, axis.down(), j - 1);
        lemma_scan_complete(axis, pattern, a, axis.down(), 0, 7, passed, t, j);
    }
}

/// The mask of a line holds the cells of that line.
pub proof fn lemma_line_mask(line: Line, k: int, t: int)
    requires
        0 <= k < line.number(),
    ensures
        bit(line.mask(k), t) <==> on_board(t) && line.index_of(t) == k,
{
    if on_board(t) {
        let ku = k as u64;
        let tu = t as u64;
        match line {
            Line::Rank => {
                assert((((0xFFu64 << (8 * ku) as u64) >> tu) & 1 == 1) == (tu / 8 == ku))
                    by (bit_vector)
                    requires
                        ku < 8,
                        tu < 64,
                ;
            },
            Line::File => {
                assert((((0x0101010101010101u64 << ku) >> tu) & 1 == 1) == (tu % 8 == ku))
                    by (bit_vector)
                    requires
                        ku < 8,
                        tu < 64,
                ;
            },
            Line::MainDiag => {
                if k <= 7 {
                    assert((((0x0102040810204080u64 >> (8 * (7 - ku)) as u64) >> tu) & 1 == 1) == (tu
                        / 8 + tu % 8 == ku)) by (bit_vector)
                        requires
                            ku <= 7,
                            tu < 64,
                    ;
                } else {
                    assert((((0x0102040810204080u64 << (8 * (ku - 7)) as u64) >> tu) & 1 == 1) == (tu
                        / 8 + tu % 8 == ku)) by (bit_vector)
                        requires
                            7 < ku < 15,
                            tu < 64,
                    ;
                }
            },
            Line::SecondDiag => {
                if k <= 7 {
                    assert((((0x8040201008040201u64 << (8 * (7 - ku)) as u64) >> tu) & 1 == 1) == (7
                        + tu % 8 == ku + tu / 8)) by (bit_vector)
                        requires
                            ku <= 7,
                            tu < 64,
                    ;
                } else {
                    assert((((0x8040201008040201u64 >> (8 * (ku - 7)) as u64) >> tu) & 1 == 1) == (7
                        + tu % 8 == ku + tu / 8)) by (bit_vector)
                        requires
                            7 < ku < 15,
                            tu < 64,
                    ;
                }
            },
        }
    }
}

/// The union of some lines of a family holds the cells of those lines.
pub proof fn lemma_span(line: Line, lo: int, hi: int, t: int)
    requires
        0 <= lo,
        hi < line.number(),
    ensures
        bit(crate::constants::span(line, lo, hi), t) <==> on_board(t) && lo <= line.index_of(t)
            <= hi,
    decreases hi - lo + 1,
{
    crate::bitboard::lemma_bit_zero(0);
    if hi >= lo {
        lemma_span(line, lo, hi - 1, t);
        lemma_line_mask(line, hi, t);
        lemma_bit_or(crate::constants::span(line, lo, hi - 1), line.mask(hi));
    }
}

/// The mask of a jump holds the cell that the jump leads to, if it is on the
/// board.
pub proof fn lemma_jump(s: int, df: int, dr: int, t: int)
    requires
        on_board(s),
    ensures
        bit(jump(s, df, dr), t) <==> 0 <= file_of(s) + df < 8 && 0 <= rank_of(s)
            + dr < 8 && t == cell(file_of(s) + df, rank_of(s) + dr),
{
    crate::bitboard::lemma_bit_zero(0);
    let f = file_of(s) + df;
    let r = rank_of(s) + dr;
    if 0 <= f < 8 && 0 <= r < 8 {
        lemma_cell(f, r);
        lemma_bit_single(cell(f, r));
    }
}

/// Whether two cells of the board touch, side by side or corner to corner.
pub open spec fn adjacent(s: int, d: int) -> bool {
    &&& on_board(s)
    &&& on_board(d)
    &&& s != d
    &&& -1 <= file_of(d) - file_of(s) <= 1
    &&& -1 <= rank_of(d) - rank_of(s) <= 1
}

/// Whether a knight's jump leads from the one cell to the other: one file and
/// two ranks, or two files and one rank.
pub open spec fn knight_jump(s: int, d: int) -> bool {
    let df = file_of(d) - file_of(s);
    let dr = rank_of(d) - rank_of(s);
    &&& on_board(s)
    &&& on_board(d)
    &&& ((df == 1 || df == -1) && (dr == 2 || dr == -2)) || ((df == 2 || df == -2) && (dr == 1
        || dr == -1))
}

/// Whether a pawn of the given colour on the one cell attacks the other: one
/// file to the side and one rank ahead.
pub open spec fn pawn_takes(color: crate::repr::Color, s: int, d: int) -> bool {
    &&& on_board(s)
    &&& on_board(d)
    &&& file_of(d) - file_of(s) == 1 || file_of(d) - file_of(s) == -1
    &&& rank_of(d) - rank_of(s) == Direction::pawn_spec(color).dr()
}

/// The cells that a knight attacks are those that a knight's jump leads to.
pub proof fn lemma_knight_jumps(s: int, t: int)
    requires
        on_board(s),
    ensures
        bit(crate::constants::knight_mask(s), t) <==> knight_jump(s, t),
{
    let j1 = jump(s, -2, 1);
    let j2 = jump(s, -1, 2);
    let j3 = jump(s, 1, 2);
    let j4 = jump(s, 2, 1);
    let j5 = jump(s, 2, -1);
    let j6 = jump(s, 1, -2);
    let j7 = jump(s, -1, -2);
    let j8 = jump(s, -2, -1);
    lemma_bit_or(j1, j2);
    lemma_bit_or(j1 | j2, j3);
    lemma_bit_or(j1 | j2 | j3, j4);
    lemma_bit_or(j1 | j2 | j3 | j4, j5);
    lemma_bit_or(j1 | j2 | j3 | j4 | j5, j6);
    lemma_bit_or(j1 | j2 | j3 | j4 | j5 | j6, j7);
    lemma_bit_or(j1 | j2 | j3 | j4 | j5 | j6 | j7, j8);
    lemma_jump(s, -2, 1, t);
    lemma_jump(s, -1, 2, t);
    lemma_jump(s, 1, 2, t);
    lemma_jump(s, 2, 1, t);
    lemma_jump(s, 2, -1, t);
    lemma_jump(s, 1, -2, t);
    lemma_jump(s, -1, -2, t);
    lemma_jump(s, -2, -1, t);
    if on_board(t) {
        lemma_cell(file_of(t), rank_of(t));
    }
}

/// The cells that a king attacks are those that touch its cell.
pub proof fn lemma_king_steps(s: int, t: int)
    requires
        on_board(s),
    ensures
        bit(crate::constants::king_mask(s), t) <==> adjacent(s, t),
{
    let j1 = jump(s, -1, 1);
    let j2 = jump(s, 0, 1);
    let j3 = jump(s, 1, 1);
    let j4 = jump(s, 1, 0);
    let j5 = jump(s, 1, -1);
    let j6 = jump(s, 0, -1);
    let j7 = jump(s, -1, -1);
    let j8 = jump(s, -1, 0);
    lemma_bit_or(j1, j2);
    lemma_bit_or(j1 | j2, j3);
    lemma_bit_or(j1 | j2 | j3, j4);
    lemma_bit_or(j1 | j2 | j3 | j4, j5);
    lemma_bit_or(j1 | j2 | j3 | j4 | j5, j6);
    lemma_bit_or(j1 | j2 | j3 | j4 | j5 | j6, j7);
    lemma_bit_or(j1 | j2 | j3 | j4 | j5 | j6 | j7, j8);
    lemma_jump(s, -1, 1, t);
    lemma_jump(s, 0, 1, t);
    lemma_jump(s, 1, 1, t);
    lemma_jump(s, 1, 0, t);
    lemma_jump(s, 1, -1, t);
    lemma_jump(s, 0, -1, t);
    lemma_jump(s, -1, -1, t);
    lemma_jump(s, -1, 0, t);
    if on_board(t) {
        lemma_cell(file_of(t), rank_of(t));
    }
}

/// The cells that a pawn attacks are the two ahead of it to the sides.
pub proof fn lemma_pawn_takes(color: crate::repr::Color, s: int, t: int)
    requires
        on_board(s),
    ensures
        bit(crate::constants::pawn_mask(color, s), t) <==> pawn_takes(color, s, t),
{
    match color {
        crate::repr::Color::White => {
            lemma_bit_or(jump(s, -1, 1), jump(s, 1, 1));
            lemma_jump(s, -1, 1, t);
            lemma_jump(s, 1, 1, t);
        },
        crate::repr::Color::Black => {
            lemma_bit_or(jump(s, 1, -1), jump(s, -1, -1));
            lemma_jump(s, 1, -1, t);
            lemma_jump(s, -1, -1, t);
        },
    }
    if on_board(t) {
        lemma_cell(file_of(t), rank_of(t));
    }
}

/// Two rays from one cell that meet after a step or more are one ray, and they
/// meet after the same number of steps.
pub proof fn lemma_rays_meet(s: int, d1: Direction, n1: int, d2: Direction, n2: int)
    requires
        on_board(s),
        1 <= n1,
        1 <= n2,
        ray_cell(s, d1, n1) is Some,
        ray_cell(s, d1, n1) == ray_cell(s, d2, n2),
    ensures
        d1 == d2,
        n1 == n2,
{
    reveal(ray_cell);
    let f1 = along(file_of(s), d1.df(), n1);
    let r1 = along(rank_of(s), d1.dr(), n1);
    let f2 = along(file_of(s), d2.df(), n2);
    let r2 = along(rank_of(s), d2.dr(), n2);
    lemma_cell(f1, r1);
    lemma_cell(f2, r2);
}

/// A ray does not come back to the cell that it starts from.
pub proof fn lemma_ray_leaves(s: int, dir: Direction, j: int)
    requires
        on_board(s),
        1 <= j,
    ensures
        ray_cell(s, dir, j) != Some(s),
{
    lemma_ray_step(s, dir, 0);
    if ray_cell(s, dir, j) is Some {
        lemma_ray_distinct(s, dir, 0, j);
    }
}


/// What a slider attacks, and what lies behind its first blocker, does not
/// depend on whether its own cell counts as occupied: two sets of occupied
/// cells that differ in that cell at most give the same masks.
pub proof fn lemma_own_cell_ignored(axis: Line, occupied: u64, other: u64, s: int)
    requires
        on_board(s),
        forall|c: int| c != s ==> bit(occupied, c) == bit(other, c),
    ensures
        slide_masks(axis, occupied, s) == slide_masks(axis, other, s),
{
    let first = in_mask(occupied);
    let second = in_mask(other);
    assert forall|dir: Direction, n: int| 0 <= n implies #[trigger] blockers(first, s, dir, n)
        == blockers(second, s, dir, n) by {
        assert forall|i: int| 1 <= i <= n && i != 0 && ray_cell(s, dir, i) is Some implies first(
            #[trigger] ray_cell(s, dir, i)->0,
        ) == second(ray_cell(s, dir, i)->0) by {
            lemma_ray_leaves(s, dir, i);
        }
        lemma_blockers_differ(first, second, s, dir, n, 0);
    }
    let m1 = slide_masks(axis, occupied, s);
    let m2 = slide_masks(axis, other, s);
    assert forall|t: int| on_board(t) implies bit(m1.0, t) == bit(m2.0, t) by {
        lemma_slide_masks(axis, occupied, s, t, 0);
        lemma_slide_masks(axis, other, s, t, 0);
        lemma_reaches_same(first, second, s, axis.up(), t, 0);
        lemma_reaches_same(first, second, s, axis.down(), t, 0);
    }
    assert forall|t: int| on_board(t) implies bit(m1.1, t) == bit(m2.1, t) by {
        lemma_slide_masks(axis, occupied, s, t, 1);
        lemma_slide_masks(axis, other, s, t, 1);
        lemma_reaches_same(first, second, s, axis.up(), t, 1);
        lemma_reaches_same(first, second, s, axis.down(), t, 1);
    }
    crate::bitboard::lemma_bits_equal(m1.0, m2.0);
    crate::bitboard::lemma_bits_equal(m1.1, m2.1);
}

/// Two ways to say which cells are occupied that count the same blockers along
/// a ray reach the same cells along it.
pub proof fn lemma_reaches_same(
    first: spec_fn(int) -> bool,
    second: spec_fn(int) -> bool,
    s: int,
    dir: Direction,
    t: int,
    passed: int,
)
    requires
        forall|n: int| 0 <= n ==> #[trigger] blockers(first, s, dir, n) == blockers(
            second,
            s,
            dir,
            n,
        ),
    ensures
        reaches(first, s, dir, t, passed) == reaches(second, s, dir, t, passed),
{
    if reaches(first, s, dir, t, passed) {
        let j = choose|j: int|
            1 <= j < 8 && #[trigger] ray_cell(s, dir, j) == Some(t) && blockers(
                first,
                s,
                dir,
                j - 1,
            ) == passed;
        assert(blockers(second, s, dir, j - 1) == passed);
        assert(ray_cell(s, dir, j) == Some(t));
    }
    if reaches(second, s, dir, t, passed) {
        let j = choose|j: int|
            1 <= j < 8 && #[trigger] ray_cell(s, dir, j) == Some(t) && blockers(
                second,
                s,
                dir,
                j - 1,
            ) == passed;
        assert(blockers(first, s, dir, j - 1) == passed);
        assert(ray_cell(s, dir, j) == Some(t));
    }
}

} // verus!
