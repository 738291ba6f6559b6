use vstd::prelude::*;

use crate::board::Board;
use crate::board::Field;
use crate::board::peers_at;
use crate::board::same_cell;
use crate::generator::solvable;
use crate::solver::solution_of;
use crate::text::base_for_len;
use crate::text::cell_render;
use crate::text::digit_val;
use crate::text::field_val;
use crate::text::givens_consistent;
use crate::text::givens_in_range;
use crate::text::parses_to;
use crate::text::render;
use crate::text::render_upto;
use crate::text::render_width;

verus! {

/// No two cells that share a line, a column or a block hold the same placed
/// number: what `consistent`, kept by every mutation, says of two fixed
/// peers.
pub proof fn lemma_no_fixed_peer_conflict(b: Board, i: int, j: int)
    requires
        b.consistent(),
        0 <= i < b.size(),
        0 <= j < b.size(),
        b.peers(i, j),
        b.cell(i) is Number,
        b.cell(j) is Number,
    ensures
        b.cell(i)->Number_0 != b.cell(j)->Number_0,
{
    assert(!b.cell(j).allows(b.cell(i)->Number_0));
}

/// An open cell never lists a value that a peer holds as a placed number:
/// what `consistent` says of an option list beside a fixed peer.
pub proof fn lemma_options_exclude_fixed_peers(b: Board, i: int, j: int)
    requires
        b.consistent(),
        0 <= i < b.size(),
        0 <= j < b.size(),
        b.peers(i, j),
        b.cell(i) is Number,
        b.cell(j) is OptionList,
    ensures
        !b.cell(j)->OptionList_0@.contains(b.cell(i)->Number_0),
{
    assert(!b.cell(j).allows(b.cell(i)->Number_0));
}

/// A solvable board always solves. `generate` ensures that a full solution
/// refines every board it returns, and `solve` ensures that failure is
/// reported only on boards with no solution at all — so solving a generated
/// puzzle succeeds.
pub proof fn lemma_solvable_boards_solve(b: Board, res: Option<Board>)
    requires
        solvable(b),
        res is None ==> forall|s: Board| !(#[trigger] solution_of(s, b)),
    ensures
        res is Some,
{
    if res is None {
        let s = choose|s: Board| #[trigger] solution_of(s, b);
    }
}

/// A board refined by some solved consistent board is solvable. In
/// particular an all-open board of any supported order is: the fixed board
/// that `canonical_solution` builds refines it, so by
/// `lemma_solvable_boards_solve` the solver always completes an empty
/// board.
pub proof fn lemma_refined_board_solvable(b: Board, s: Board)
    requires
        s.wf(),
        s.consistent(),
        s.solved(),
        s.refines(b),
    ensures
        solvable(b),
{
    assert(solution_of(s, b));
}

/// The compact text of a board: what `print` yields in compact mode, less
/// the trailing newline — the line that `read` takes back.
pub open spec fn compact_line(b: Board) -> Seq<u8> {
    render_upto(b, false, render_width(b), b.size())
}

/// In compact mode the text is the cell fields side by side: `width` bytes
/// for each cell, in index order.
proof fn lemma_compact_structure(b: Board, width: int, i: int)
    requires
        b.wf(),
        width == render_width(b),
        0 <= i <= b.size(),
    ensures
        render_upto(b, false, width, i).len() == width * i,
        forall|j: int|
            0 <= j < i ==> #[trigger] render_upto(b, false, width, i).subrange(
                width * j,
                width * (j + 1),
            ) =~= cell_render(b.cell(j), width),
    decreases i,
{
    if i > 0 {
        lemma_compact_structure(b, width, i - 1);
        let prev = render_upto(b, false, width, i - 1);
        let cur = render_upto(b, false, width, i);
        assert(cur =~= prev + cell_render(b.cell(i - 1), width));
        assert forall|j: int|
            0 <= j < i implies #[trigger] cur.subrange(width * j, width * (j + 1)) =~= cell_render(
            b.cell(j),
            width,
        ) by {
            if j < i - 1 {
                assert(cur.subrange(width * j, width * (j + 1)) =~= prev.subrange(
                    width * j,
                    width * (j + 1),
                ));
            } else {
                assert(cur.subrange(width * j, width * (j + 1)) =~= cell_render(b.cell(j), width));
            }
        }
    }
}

/// The compact line of a solved board parses back field by field: each
/// field is the 1-indexed number of its cell.
proof fn lemma_compact_fields(b: Board, j: int)
    requires
        b.wf(),
        b.solved(),
        2 <= b.base,
        0 <= j < b.size(),
    ensures
        field_val(compact_line(b), render_width(b), j) == Some(
            (b.cell(j)->Number_0 + 1) as usize,
        ),
{
    let width = render_width(b);
    let s = compact_line(b);
    lemma_compact_structure(b, width, b.size());
    let n = b.cell(j)->Number_0;
    assert(b.cell(j).allows(n));
    assert(n < b.line_size);
    let piece = s.subrange(width * j, width * (j + 1));
    assert(piece =~= cell_render(b.cell(j), width));
    if width == 1 {
        assert(b.line_size <= 9);
        assert(s[j] == piece[0]);
        assert(s[j] == (48 + n + 1) as u8);
        assert(digit_val(s[j]) == Some((n + 1) as usize));
    } else {
        assert(s[2 * j] == piece[0] && s[2 * j + 1] == piece[1]) by {
            assert(piece[0] == s[width * j + 0] && piece[1] == s[width * j + 1]);
        }
        let v = n + 1;
        crate::board::lemma_dims(b);
        assert(v / 10 <= 8 && 0 <= v % 10 <= 9 && v == 10 * (v / 10) + v % 10)
            by (nonlinear_arith)
            requires
                1 <= v <= 82,
        ;
        assert(digit_val(s[2 * j]) == Some((v / 10) as usize));
        assert(digit_val(s[2 * j + 1]) == Some((v % 10) as usize));
        assert(field_val(s, width, j) == Some((10 * (v / 10) + v % 10) as usize));
    }
}

/// Printing a solved board compactly and reading the line back reproduces
/// the same fixed assignment: the length picks the same base again, every
/// field is a legal given (so `read` succeeds), and the board it builds
/// holds cell for cell the numbers of the printed board.
pub proof fn lemma_print_read_round_trip(b: Board, rd: Board)
    requires
        b.wf(),
        b.consistent(),
        b.solved(),
        2 <= b.base,
        rd.base == b.base,
        rd.line_size == b.line_size,
        rd.content@.len() == b.content@.len(),
        parses_to(compact_line(b), render_width(b), rd),
    ensures
        render(b, false) =~= compact_line(b) + seq![10u8],
        base_for_len(compact_line(b).len() as int) == Some(
            (b.base, render_width(b) as usize),
        ),
        givens_in_range(compact_line(b), render_width(b), b.size(), b.line_size),
        givens_consistent(compact_line(b), render_width(b), b.base, b.line_size, b.size()),
        rd.same_state(b),
{
    let width = render_width(b);
    let s = compact_line(b);
    lemma_compact_structure(b, width, b.size());
    assert(render(b, false) =~= s + seq![10u8]);
    // the length encodes the same base and width again
    assert(((2 * 2) * (2 * 2) == 16) && ((3 * 3) * (3 * 3) == 81) && ((4 * 4) * (4 * 4) == 256)
        && ((5 * 5) * (5 * 5) == 625) && ((6 * 6) * (6 * 6) == 1296) && ((7 * 7) * (7 * 7) == 2401)
        && ((8 * 8) * (8 * 8) == 4096) && ((9 * 9) * (9 * 9) == 6561) && (2 * 2 == 4) && (3 * 3
        == 9) && (4 * 4 == 16) && (5 * 5 == 25) && (6 * 6 == 36) && (7 * 7 == 49) && (8 * 8 == 64)
        && (9 * 9 == 81)) by (nonlinear_arith);
    assert(s.len() == width * b.size());
    assert(b.content@.len() == b.line_size * b.line_size);
    assert(base_for_len(s.len() as int) == Some((b.base, width as usize))) by {
        if b.base == 2 {
            assert(b.line_size == 4 && b.size() == 16 && width == 1);
        } else if b.base == 3 {
            assert(b.line_size == 9 && b.size() == 81 && width == 1);
        } else if b.base == 4 {
            assert(b.line_size == 16 && b.size() == 256 && width == 2);
        } else if b.base == 5 {
            assert(b.line_size == 25 && b.size() == 625 && width == 2);
        } else if b.base == 6 {
            assert(b.line_size == 36 && b.size() == 1296 && width == 2);
        } else if b.base == 7 {
            assert(b.line_size == 49 && b.size() == 2401 && width == 2);
        } else if b.base == 8 {
            assert(b.line_size == 64 && b.size() == 4096 && width == 2);
        } else {
            assert(b.base == 9);
            assert(b.line_size == 81 && b.size() == 6561 && width == 2);
        }
    }
    // every field parses to its cell's 1-indexed number
    assert forall|j: int| 0 <= j < b.size() implies #[trigger] field_val(s, width, j) == Some(
        (b.cell(j)->Number_0 + 1) as usize,
    ) by {
        lemma_compact_fields(b, j);
    }
    // so every given is in range
    assert forall|j: int| 0 <= j < b.size() implies (match #[trigger] field_val(s, width, j) {
        Some(d) => 1 <= d <= b.line_size,
        None => true,
    }) by {
        let n = b.cell(j)->Number_0;
        assert(b.cell(j).allows(n));
        assert(n < b.line_size);
    }
    // and no two given peers are equal
    assert forall|j1: int, j2: int|
        #![trigger field_val(s, width, j1), field_val(s, width, j2)]
        (0 <= j1 < b.size() && 0 <= j2 < b.size() && peers_at(
            b.base as int,
            b.line_size as int,
            j1,
            j2,
        ) && field_val(s, width, j1) is Some && field_val(s, width, j2) is Some) implies field_val(
        s,
        width,
        j1,
    )->Some_0 != field_val(s, width, j2)->Some_0 by {
        let n1 = b.cell(j1)->Number_0;
        let n2 = b.cell(j2)->Number_0;
        lemma_no_fixed_peer_conflict(b, j1, j2);
        assert(b.cell(j1).wf(b.line_size) && b.cell(j2).wf(b.line_size));
        assert(b.cell(j1).allows(n1) && b.cell(j2).allows(n2));
        assert(n1 < b.line_size && n2 < b.line_size);
    }
    // the read result repeats the printed numbers cell for cell
    assert forall|j: int| 0 <= j < rd.size() implies same_cell(#[trigger] rd.cell(j), b.cell(j)) by {
        let n = b.cell(j)->Number_0;
        assert(b.cell(j).wf(b.line_size));
        assert(b.cell(j).allows(n));
        assert(n < b.line_size);
        assert(field_val(s, width, j) == Some((n + 1) as usize));
        assert(rd.cell(j) == Field::Number(((n + 1) as usize - 1) as usize));
    }
}

} // verus!
