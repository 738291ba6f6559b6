use vstd::prelude::*;

use crate::board::Board;
use crate::board::Field;
use crate::board::peers_at;
use crate::board::lemma_refines_trans;
use crate::board::lemma_same_state_props;
use crate::board_iterator::IterType;
use crate::board_iterator::group_cell_index;

verus! {

/// What the inner fixed-point loop of the solver decided about one board.
enum SolverStep {
    Unsolvable,
    BranchOnOptionList(usize),
    Solved,
}

/// The cell is open and still lists `n` among its options.
pub open spec fn option_allows(f: Field, n: usize) -> bool {
    f is OptionList && f.allows(n)
}

/// Within group `g` of the given traversal order, position `k` is the only
/// one whose cell is open and still lists `n`: a hidden single.
pub open spec fn sole_position(b: Board, kind: IterType, g: int, k: int, n: usize) -> bool {
    &&& 0 <= k < b.line_size
    &&& option_allows(
        b.cell(group_cell_index(kind, b.base as int, b.line_size as int, g, k)),
        n,
    )
    &&& forall|k2: int|
        0 <= k2 < b.line_size && k2 != k ==> !option_allows(
            b.cell(#[trigger] group_cell_index(kind, b.base as int, b.line_size as int, g, k2)),
            n,
        )
}

/// How many options a cell still keeps open; a placed number weighs
/// nothing.
pub open spec fn cell_weight(f: Field) -> nat {
    match f {
        Field::Number(_) => 0,
        Field::OptionList(v) => v@.len(),
    }
}

/// The summed weight of the first `i` cells.
pub open spec fn weight_upto(b: Board, i: int) -> nat
    decreases i,
{
    if i <= 0 {
        0
    } else {
        weight_upto(b, i - 1) + cell_weight(b.cell(i - 1))
    }
}

/// The summed weight of the whole board: how much remains open. Every
/// solver step shrinks it, which bounds the search.
pub open spec fn weight(b: Board) -> nat {
    weight_upto(b, b.size())
}

/// Summed weights respect a pointwise bound, with slack `d` at one index.
proof fn lemma_weight_upto_le(a: Board, b: Board, idx: int, d: nat, i: int)
    requires
        b.content@.len() == a.content@.len(),
        forall|k: int|
            0 <= k < a.size() ==> cell_weight(#[trigger] b.cell(k)) <= cell_weight(a.cell(k)),
        0 <= idx < a.size(),
        cell_weight(b.cell(idx)) + d <= cell_weight(a.cell(idx)),
        0 <= i <= a.size(),
    ensures
        weight_upto(b, i) <= weight_upto(a, i),
        idx < i ==> weight_upto(b, i) + d <= weight_upto(a, i),
    decreases i,
{
    if i > 0 {
        lemma_weight_upto_le(a, b, idx, d, i - 1);
    }
}

/// Boards with the same state have the same weight.
proof fn lemma_weight_upto_same(a: Board, b: Board, i: int)
    requires
        a.same_state(b),
        0 <= i <= a.size(),
    ensures
        weight_upto(a, i) == weight_upto(b, i),
    decreases i,
{
    if i > 0 {
        lemma_weight_upto_same(a, b, i - 1);
        assert(crate::board::same_cell(a.cell(i - 1), b.cell(i - 1)));
    }
}

/// The whole weight is at least the weight of any one cell.
proof fn lemma_weight_ge_cell(b: Board, idx: int, i: int)
    requires
        0 <= idx < i <= b.size(),
    ensures
        weight_upto(b, i) >= cell_weight(b.cell(idx)),
    decreases i,
{
    if idx < i - 1 {
        lemma_weight_ge_cell(b, idx, i - 1);
    }
}

/// A successful placement lowers the weight by at least the option count of
/// the cell it filled.
proof fn lemma_weight_placed(prev: Board, cur: Board, idx: int, val: usize)
    requires
        cur.placed(prev, idx, val),
        0 <= idx < prev.size(),
        prev.cell(idx) is OptionList,
    ensures
        weight(cur) + prev.cell(idx)->OptionList_0@.len() <= weight(prev),
{
    assert forall|k: int| 0 <= k < prev.size() implies cell_weight(#[trigger] cur.cell(k))
        <= cell_weight(prev.cell(k)) by {
        if k != idx {
            if prev.peers(idx, k) {
                assert(crate::board::pruned_cell(prev.cell(k), cur.cell(k), val));
            } else {
                assert(cur.cell(k) == prev.cell(k));
            }
        }
    }
    lemma_weight_upto_le(prev, cur, idx, prev.cell(idx)->OptionList_0@.len(), prev.size());
}

/// Striking a still-listed option from one cell lowers the weight.
proof fn lemma_weight_removed(prev: Board, cur: Board, idx: int, val: usize)
    requires
        cur.content@.len() == prev.content@.len(),
        forall|k: int| 0 <= k < cur.size() && k != idx ==> #[trigger] cur.cell(k) == prev.cell(k),
        crate::board::pruned(prev.cell(idx), cur.cell(idx), val),
        prev.cell(idx) is OptionList,
        prev.cell(idx).allows(val),
        0 <= idx < prev.size(),
    ensures
        weight(cur) + 1 <= weight(prev),
{
    assert forall|k: int| 0 <= k < prev.size() implies cell_weight(#[trigger] cur.cell(k))
        <= cell_weight(prev.cell(k)) by {
        if k != idx {
            assert(cur.cell(k) == prev.cell(k));
        }
    }
    lemma_weight_upto_le(prev, cur, idx, 1, prev.size());
}

/// Powers of three, the per-board coin of the search measure.
pub open spec fn pow3(n: nat) -> nat
    decreases n,
{
    if n == 0 {
        1
    } else {
        3 * pow3((n - 1) as nat)
    }
}

proof fn lemma_pow3_pos(n: nat)
    ensures
        pow3(n) >= 1,
    decreases n,
{
    if n > 0 {
        lemma_pow3_pos((n - 1) as nat);
    }
}

proof fn lemma_pow3_mono(m: nat, n: nat)
    requires
        m <= n,
    ensures
        pow3(m) <= pow3(n),
    decreases n,
{
    if m < n {
        lemma_pow3_mono(m, (n - 1) as nat);
        lemma_pow3_pos((n - 1) as nat);
    }
}

/// The search measure of a stack of boards: a branch step trades one board
/// for two strictly lighter ones, so the sum of `pow3(weight)` shrinks.
pub open spec fn stack_measure(s: Seq<Board>) -> nat
    decreases s.len(),
{
    if s.len() == 0 {
        0
    } else {
        stack_measure(s.drop_last()) + pow3(weight(s.last()))
    }
}

proof fn lemma_stack_measure_push(s: Seq<Board>, b: Board)
    ensures
        stack_measure(s.push(b)) == stack_measure(s) + pow3(weight(b)),
{
    assert(s.push(b).drop_last() =~= s);
    assert(s.push(b).last() == b);
}

/// `s` is a full solution of `b`: solved, consistent, and refining `b`, so
/// it keeps every given of `b`.
pub open spec fn solution_of(s: Board, b: Board) -> bool {
    s.wf() && s.consistent() && s.solved() && s.refines(b)
}

/// The line, column and block of the `k`-th cell of a traversal group.
#[verifier::rlimit(100)]
#[verifier::spinoff_prover]
proof fn lemma_group_cell_coords(base: int, ls: int, kind: IterType, g: int, k: int)
    requires
        1 <= base <= 9,
        ls == base * base,
        !(kind is FieldIter),
        0 <= g < ls,
        0 <= k < ls,
    ensures
        0 <= group_cell_index(kind, base, ls, g, k) < ls * ls,
        kind is LineIter ==> crate::board::line_of(ls, group_cell_index(kind, base, ls, g, k))
            == g && crate::board::col_of(ls, group_cell_index(kind, base, ls, g, k)) == k,
        kind is ColIter ==> crate::board::col_of(ls, group_cell_index(kind, base, ls, g, k)) == g
            && crate::board::line_of(ls, group_cell_index(kind, base, ls, g, k)) == k,
        kind is QuadIter ==> crate::board::block_of(
            base,
            ls,
            group_cell_index(kind, base, ls, g, k),
        ) == g && crate::board::line_of(ls, group_cell_index(kind, base, ls, g, k)) == (g / base)
            * base + k / base && crate::board::col_of(
            ls,
            group_cell_index(kind, base, ls, g, k),
        ) == (g % base) * base + k % base,
{
    match kind {
        IterType::LineIter => {
            let idx = g * ls + k;
            assert(0 <= idx < ls * ls) by (nonlinear_arith)
                requires
                    0 <= g < ls,
                    0 <= k < ls,
                    idx == g * ls + k,
            ;
            vstd::arithmetic::div_mod::lemma_fundamental_div_mod_converse(idx, ls, g, k);
        },
        IterType::ColIter => {
            let idx = k * ls + g;
            assert(0 <= idx < ls * ls) by (nonlinear_arith)
                requires
                    0 <= g < ls,
                    0 <= k < ls,
                    idx == k * ls + g,
            ;
            vstd::arithmetic::div_mod::lemma_fundamental_div_mod_converse(idx, ls, k, g);
        },
        IterType::QuadIter => {
            let row = (g / base) * base + k / base;
            let col = (g % base) * base + k % base;
            let idx = row * ls + col;
            assert((0 <= g / base < base) && (0 <= g % base < base) && (0 <= k / base < base) && (0
                <= k % base < base) && (0 <= row < ls) && (0 <= col < ls) && (0 <= idx < ls * ls))
                by (nonlinear_arith)
                requires
                    1 <= base,
                    ls == base * base,
                    0 <= g < ls,
                    0 <= k < ls,
                    row == (g / base) * base + k / base,
                    col == (g % base) * base + k % base,
                    idx == row * ls + col,
            ;
            vstd::arithmetic::div_mod::lemma_fundamental_div_mod_converse(idx, ls, row, col);
            vstd::arithmetic::div_mod::lemma_fundamental_div_mod_converse(
                row,
                base,
                g / base,
                k / base,
            );
            vstd::arithmetic::div_mod::lemma_fundamental_div_mod_converse(
                col,
                base,
                g % base,
                k % base,
            );
            vstd::arithmetic::div_mod::lemma_fundamental_div_mod(g, base);
            assert(crate::board::line_of(ls, idx) == row && crate::board::col_of(ls, idx) == col);
            assert(row / base == g / base && col / base == g % base);
            assert(crate::board::block_of(base, ls, idx) == (g / base) * base + g % base);
            assert(g == base * (g / base) + g % base);
            assert(group_cell_index(kind, base, ls, g, k) == idx);
            assert((g / base) * base + g % base == g) by (nonlinear_arith)
                requires
                    g == base * (g / base) + g % base,
            ;
            assert(crate::board::block_of(base, ls, group_cell_index(kind, base, ls, g, k)) == g);
            assert(crate::board::line_of(ls, group_cell_index(kind, base, ls, g, k)) == (g / base)
                * base + k / base);
            assert(crate::board::col_of(ls, group_cell_index(kind, base, ls, g, k)) == (g % base)
                * base + k % base);
            assert(0 <= group_cell_index(kind, base, ls, g, k) < ls * ls);
        },
        IterType::FieldIter => {},
    }
}

/// Distinct positions of one traversal group address distinct cells that
/// share that group's line, column or block.
proof fn lemma_group_cell_peers(base: int, ls: int, kind: IterType, g: int, k1: int, k2: int)
    requires
        1 <= base <= 9,
        ls == base * base,
        !(kind is FieldIter),
        0 <= g < ls,
        0 <= k1 < ls,
        0 <= k2 < ls,
        k1 != k2,
    ensures
        group_cell_index(kind, base, ls, g, k1) != group_cell_index(kind, base, ls, g, k2),
        peers_at(
            base,
            ls,
            group_cell_index(kind, base, ls, g, k1),
            group_cell_index(kind, base, ls, g, k2),
        ),
{
    lemma_group_cell_coords(base, ls, kind, g, k1);
    lemma_group_cell_coords(base, ls, kind, g, k2);
    let i1 = group_cell_index(kind, base, ls, g, k1);
    let i2 = group_cell_index(kind, base, ls, g, k2);
    match kind {
        IterType::LineIter => {
            assert(crate::board::col_of(ls, i1) != crate::board::col_of(ls, i2));
        },
        IterType::ColIter => {
            assert(crate::board::line_of(ls, i1) != crate::board::line_of(ls, i2));
        },
        IterType::QuadIter => {
            if i1 == i2 {
                assert((g / base) * base + k1 / base == (g / base) * base + k2 / base);
                assert((g % base) * base + k1 % base == (g % base) * base + k2 % base);
                vstd::arithmetic::div_mod::lemma_fundamental_div_mod(k1, base);
                vstd::arithmetic::div_mod::lemma_fundamental_div_mod(k2, base);
                assert(k1 == base * (k1 / base) + k1 % base);
                assert(false);
            }
        },
        IterType::FieldIter => {},
    }
}

/// A solved consistent board places every value below `line_size` somewhere
/// in every line, column and block: there are as many cells in a group as
/// values, and no value repeats.
proof fn lemma_solution_covers(s: Board, kind: IterType, g: int, n: usize)
    requires
        s.wf(),
        s.consistent(),
        s.solved(),
        !(kind is FieldIter),
        0 <= g < s.line_size,
        n < s.line_size,
    ensures
        exists|k: int|
            0 <= k < s.line_size && s.cell(
                #[trigger] group_cell_index(kind, s.base as int, s.line_size as int, g, k),
            ) == Field::Number(n),
{
    let base = s.base as int;
    let ls = s.line_size as int;
    assert(1 <= base) by (nonlinear_arith)
        requires
            ls == base * base,
            ls > 0,
            base >= 0,
    ;
    let f = |k: int| s.cell(group_cell_index(kind, base, ls, g, k))->Number_0 as int;
    let positions = vstd::set_lib::set_int_range(0, ls);
    let values = positions.map(f);
    vstd::set_lib::lemma_int_range(0, ls);
    assert forall|k: int| positions.contains(k) implies s.cell(
        #[trigger] group_cell_index(kind, base, ls, g, k),
    ) is Number && 0 <= f(k) < ls by {
        lemma_group_cell_coords(base, ls, kind, g, k);
        let i = group_cell_index(kind, base, ls, g, k);
        assert(s.cell(i) is Number);
        let m = s.cell(i)->Number_0;
        assert(s.cell(i).allows(m));
        assert(m < s.line_size);
    }
    assert(vstd::relations::injective_on(f, positions)) by {
        assert forall|k1: int, k2: int|
            positions.contains(k1) && positions.contains(k2) && #[trigger] f(k1) == #[trigger] f(
                k2,
            ) implies k1 == k2 by {
            if k1 != k2 {
                lemma_group_cell_peers(base, ls, kind, g, k1, k2);
                let i1 = group_cell_index(kind, base, ls, g, k1);
                let i2 = group_cell_index(kind, base, ls, g, k2);
                lemma_group_cell_coords(base, ls, kind, g, k1);
                lemma_group_cell_coords(base, ls, kind, g, k2);
                assert(s.peers(i1, i2));
                assert(!s.cell(i2).allows(s.cell(i1)->Number_0));
                assert(s.cell(i2).allows(s.cell(i2)->Number_0));
                assert(false);
            }
        }
    }
    vstd::set_lib::lemma_map_size(positions, values, f);
    assert(values.subset_of(vstd::set_lib::set_int_range(0, ls))) by {
        assert forall|v: int| values.contains(v) implies vstd::set_lib::set_int_range(
            0,
            ls,
        ).contains(v) by {
            let k = choose|k: int| positions.contains(k) && v == f(k);
            assert(0 <= f(k) < ls);
        }
    }
    vstd::set_lib::lemma_subset_equality(values, vstd::set_lib::set_int_range(0, ls));
    assert(values.contains(n as int));
    let k = choose|k: int| positions.contains(k) && n as int == f(k);
    lemma_group_cell_coords(base, ls, kind, g, k);
    assert(s.cell(group_cell_index(kind, base, ls, g, k)) == Field::Number(n));
}

/// A hidden single is forced: every solution of the board places that value
/// in that cell.
proof fn lemma_hidden_single_forced(b: Board, s: Board, kind: IterType, g: int, k: int, n: usize)
    requires
        b.wf(),
        b.consistent(),
        !(kind is FieldIter),
        0 <= g < b.line_size,
        sole_position(b, kind, g, k, n),
        n < b.line_size,
        solution_of(s, b),
    ensures
        s.cell(group_cell_index(kind, b.base as int, b.line_size as int, g, k)) == Field::Number(
            n,
        ),
{
    let base = b.base as int;
    let ls = b.line_size as int;
    assert(1 <= base) by (nonlinear_arith)
        requires
            ls == base * base,
            ls > 0,
            base >= 0,
    ;
    lemma_solution_covers(s, kind, g, n);
    let k2 = choose|k2: int|
        0 <= k2 < s.line_size && s.cell(#[trigger] group_cell_index(kind, base, ls, g, k2))
            == Field::Number(n);
    if k2 != k {
        let i2 = group_cell_index(kind, base, ls, g, k2);
        lemma_group_cell_coords(base, ls, kind, g, k2);
        assert(s.cell(i2).allows(n));
        assert(b.cell(i2).allows(n));
        if b.cell(i2) is OptionList {
            assert(option_allows(b.cell(i2), n));
            assert(false);
        } else {
            // a fixed peer with value n beside an option list that still has
            // n would contradict the board's consistency
            let i1 = group_cell_index(kind, base, ls, g, k);
            lemma_group_cell_coords(base, ls, kind, g, k);
            lemma_group_cell_peers(base, ls, kind, g, k2, k);
            assert(0 <= i1 < b.size() && 0 <= i2 < b.size());
            assert(b.peers(i2, i1));
            assert(b.cell(i2) == Field::Number(n));
            assert(!b.cell(i1).allows(n));
            assert(false);
        }
    }
}

/// Placing a value that a solution agrees with keeps it a solution.
proof fn lemma_place_keeps_solution(prev: Board, cur: Board, idx: int, val: usize, s: Board)
    requires
        prev.wf(),
        cur.placed(prev, idx, val),
        0 <= idx < prev.size(),
        solution_of(s, prev),
        s.cell(idx) == Field::Number(val),
    ensures
        solution_of(s, cur),
{
    assert forall|i: int, n: usize|
        0 <= i < s.size() && #[trigger] s.cell(i).allows(n) implies cur.cell(i).allows(n) by {
        assert(s.cell(i) is Number);
        assert(prev.cell(i).allows(n));
        if i == idx {
            assert(cur.cell(i) == Field::Number(val));
        } else if prev.peers(idx, i) {
            assert(crate::board::pruned_cell(prev.cell(i), cur.cell(i), val));
            if prev.cell(i) is OptionList {
                assert(s.peers(idx, i));
                assert(!s.cell(i).allows(val));
                assert(n != val);
            }
        } else {
            assert(cur.cell(i) == prev.cell(i));
        }
    }
}

/// Striking a value that a solution avoids keeps it a solution.
proof fn lemma_remove_keeps_solution(prev: Board, cur: Board, idx: int, val: usize, s: Board)
    requires
        cur.base == prev.base,
        cur.line_size == prev.line_size,
        cur.content@.len() == prev.content@.len(),
        forall|k: int| 0 <= k < cur.size() && k != idx ==> #[trigger] cur.cell(k) == prev.cell(k),
        crate::board::pruned(prev.cell(idx), cur.cell(idx), val),
        0 <= idx < prev.size(),
        solution_of(s, prev),
        s.cell(idx) != Field::Number(val),
    ensures
        solution_of(s, cur),
{
    assert forall|i: int, n: usize|
        0 <= i < s.size() && #[trigger] s.cell(i).allows(n) implies cur.cell(i).allows(n) by {
        assert(s.cell(i) is Number);
        assert(prev.cell(i).allows(n));
        if i == idx {
            assert(n != val);
        } else {
            assert(cur.cell(i) == prev.cell(i));
        }
    }
}

/// A board with an optionless open cell has no solution.
proof fn lemma_empty_cell_unsolvable(b: Board, idx: int)
    requires
        0 <= idx < b.size(),
        b.cell(idx) is OptionList,
        b.cell(idx)->OptionList_0@.len() == 0,
    ensures
        forall|s: Board| !(#[trigger] solution_of(s, b)),
{
    assert forall|s: Board| !(#[trigger] solution_of(s, b)) by {
        if solution_of(s, b) {
            assert(s.cell(idx) is Number);
            let m = s.cell(idx)->Number_0;
            assert(s.cell(idx).allows(m));
            assert(b.cell(idx).allows(m));
            let l = b.cell(idx)->OptionList_0@;
            assert(l.contains(m));
        }
    }
}

/// A hidden-single placement keeps every solution: the board is consistent,
/// so the value was forced.
proof fn lemma_propagation_step(before: Board, cur: Board, kind: IterType, index: usize, num: usize)
    requires
        before.wf(),
        before.consistent(),
        !(kind is FieldIter),
        num < before.line_size,
        index < before.content@.len(),
        option_allows(before.cell(index as int), num),
        exists|g: int, k: int|
            0 <= g < before.line_size && #[trigger] sole_position(before, kind, g, k, num) && index
                == group_cell_index(
                kind,
                before.base as int,
                before.line_size as int,
                g,
                k,
            ),
        cur.placed(before, index as int, num),
    ensures
        forall|s: Board| #[trigger] solution_of(s, before) ==> solution_of(s, cur),
{
    let (g, k) = choose|g: int, k: int|
        0 <= g < before.line_size && #[trigger] sole_position(before, kind, g, k, num) && index
            == group_cell_index(kind, before.base as int, before.line_size as int, g, k);
    assert forall|s: Board| #[trigger] solution_of(s, before) implies solution_of(s, cur) by {
        lemma_hidden_single_forced(before, s, kind, g, k, num);
        lemma_place_keeps_solution(before, cur, index as int, num, s);
    }
}

/// A still-listed option of an open cell can always be placed on a
/// consistent board: a fixed peer with that value would contradict the
/// consistency of the option list.
proof fn lemma_propagation_no_conflict(before: Board, index: usize, num: usize)
    requires
        before.wf(),
        before.consistent(),
        index < before.content@.len(),
        option_allows(before.cell(index as int), num),
    ensures
        before.can_place(index as int, num),
{
    assert(before.cell(index as int).allows(num));
    assert(before.cell(index as int).wf(before.line_size));
    assert(num < before.line_size);
    assert(before.base >= 1) by (nonlinear_arith)
        requires
            before.line_size == before.base * before.base,
            before.line_size * before.line_size > index >= 0,
            before.base >= 0,
    ;
    if before.has_number_peer(index as int, num) {
        let j2 = choose|j2: int|
            0 <= j2 < before.size() && before.peers(index as int, j2) && before.cell(j2)
                == Field::Number(num);
        assert(before.peers(j2, index as int));
        assert(!before.cell(index as int).allows(num));
    }
}

/// Whether `v` lists the value `n`.
fn contains_val(v: &Vec<usize>, n: usize) -> (r: bool)
    ensures
        r == v@.contains(n),
{
    let mut i: usize = 0;
    while i < v.len()
        invariant
            i <= v@.len(),
            forall|k: int| 0 <= k < i ==> v@[k] != n,
        decreases v@.len() - i,
    {
        if v[i] == n {
            proof {
                assert(v@.contains(n)) by {
                    assert(v@[i as int] == n);
                }
            }
            return true;
        }
        i += 1;
    }
    false
}

impl Board {
    /// Scan every group of the given traversal order for a value with
    /// exactly one open cell that still lists it, and report the first such
    /// value with the board index of that cell.
    fn find_single_option(&self, kind: IterType) -> (r: Option<(usize, usize)>)
        requires
            self.wf(),
            !(kind is FieldIter),
        ensures
            r matches Some((num, idx)) ==> num < self.line_size && idx < self.content@.len()
                && option_allows(self.cell(idx as int), num) && exists|g: int, k: int|
                0 <= g < self.line_size && #[trigger] sole_position(*self, kind, g, k, num) && idx
                    == group_cell_index(kind, self.base as int, self.line_size as int, g, k) && (
                forall|g2: int, k2: int, n2: usize|
                    0 <= g2 < g && n2 < self.line_size ==> !(#[trigger] sole_position(
                        *self,
                        kind,
                        g2,
                        k2,
                        n2,
                    ))) && (forall|k2: int, n2: usize|
                    n2 < num ==> !(#[trigger] sole_position(*self, kind, g, k2, n2))),
            r is None ==> forall|g: int, k: int, n: usize|
                0 <= g < self.line_size && n < self.line_size ==> !(#[trigger] sole_position(
                    *self,
                    kind,
                    g,
                    k,
                    n,
                )),
    {
        let ls = self.line_size;
        let mut g: usize = 0;
        while g < ls
            invariant
                self.wf(),
                ls == self.line_size,
                g <= ls,
                !(kind is FieldIter),
                forall|g2: int, k2: int, n2: usize|
                    0 <= g2 < g && n2 < ls ==> !(#[trigger] sole_position(
                        *self,
                        kind,
                        g2,
                        k2,
                        n2,
                    )),
            decreases ls - g,
        {
            proof {
                assert(self.base >= 1) by (nonlinear_arith)
                    requires
                        self.line_size == self.base * self.base,
                        self.line_size > g >= 0,
                ;
            }
            let mut n: usize = 0;
            while n < ls
                invariant
                    self.wf(),
                    self.base >= 1,
                    ls == self.line_size,
                    g < ls,
                    n <= ls,
                    !(kind is FieldIter),
                    forall|g2: int, k2: int, n2: usize|
                        0 <= g2 < g && n2 < ls ==> !(#[trigger] sole_position(
                            *self,
                            kind,
                            g2,
                            k2,
                            n2,
                        )),
                    forall|k2: int, n2: usize|
                        n2 < n ==> !(#[trigger] sole_position(*self, kind, g as int, k2, n2)),
                decreases ls - n,
            {
                let mut it = match kind {
                    IterType::LineIter => self.line_iter(g),
                    IterType::ColIter => self.col_iter(g),
                    IterType::QuadIter => self.quad_iter(g),
                    IterType::FieldIter => {
                        proof {
                            assert(false);
                        }
                        self.line_iter(g)
                    },
                };
                let mut k: usize = 0;
                let mut cnt: usize = 0;
                let mut hit_idx: usize = 0;
                let ghost mut hit_k: int = 0;
                let ghost mut hit2_k: int = 0;
                while k < ls
                    invariant
                        self.wf(),
                        ls == self.line_size,
                        g < ls,
                        k <= ls,
                        cnt <= k,
                        it.wf(),
                        it.itertype == kind,
                        it.base == self.base,
                        it.line_size == self.line_size,
                        it.group == g as int,
                        it.pos == k,
                        !(kind is FieldIter),
                        cnt == 0 ==> forall|k2: int|
                            0 <= k2 < k ==> !option_allows(
                                self.cell(
                                    #[trigger] group_cell_index(
                                        kind,
                                        self.base as int,
                                        self.line_size as int,
                                        g as int,
                                        k2,
                                    ),
                                ),
                                n,
                            ),
                        cnt == 1 ==> 0 <= hit_k < k && option_allows(
                            self.cell(
                                group_cell_index(
                                    kind,
                                    self.base as int,
                                    self.line_size as int,
                                    g as int,
                                    hit_k,
                                ),
                            ),
                            n,
                        ) && hit_idx == group_cell_index(
                            kind,
                            self.base as int,
                            self.line_size as int,
                            g as int,
                            hit_k,
                        ) && hit_idx < self.content@.len() && forall|k2: int|
                            0 <= k2 < k && k2 != hit_k ==> !option_allows(
                                self.cell(
                                    #[trigger] group_cell_index(
                                        kind,
                                        self.base as int,
                                        self.line_size as int,
                                        g as int,
                                        k2,
                                    ),
                                ),
                                n,
                            ),
                        cnt >= 2 ==> 0 <= hit_k < k && 0 <= hit2_k < k && hit_k != hit2_k
                            && option_allows(
                            self.cell(
                                group_cell_index(
                                    kind,
                                    self.base as int,
                                    self.line_size as int,
                                    g as int,
                                    hit_k,
                                ),
                            ),
                            n,
                        ) && option_allows(
                            self.cell(
                                group_cell_index(
                                    kind,
                                    self.base as int,
                                    self.line_size as int,
                                    g as int,
                                    hit2_k,
                                ),
                            ),
                            n,
                        ),
                    decreases ls - k,
                {
                    let idx_opt = it.next();
                    let idx = match idx_opt {
                        Some(i) => i,
                        None => {
                            proof {
                                assert(false);
                            }
                            0
                        },
                    };
                    let present = match &self.content[idx] {
                        Field::OptionList(v) => contains_val(v, n),
                        _ => false,
                    };
                    proof {
                        assert(present == option_allows(self.cell(idx as int), n));
                    }
                    if present {
                        if cnt == 0 {
                            hit_idx = idx;
                            proof {
                                hit_k = k as int;
                            }
                        } else if cnt == 1 {
                            proof {
                                hit2_k = k as int;
                            }
                        }
                        cnt = cnt + 1;
                    }
                    k += 1;
                }
                if cnt == 1 {
                    proof {
                        assert(sole_position(*self, kind, g as int, hit_k, n));
                    }
                    return Some((n, hit_idx));
                }
                proof {
                    // no hit or several hits: the pair (g, n) has no sole
                    // position
                    assert forall|k2: int| !(#[trigger] sole_position(*self, kind, g as int, k2, n))
                        by {
                        if sole_position(*self, kind, g as int, k2, n) {
                            if cnt == 0 {
                                assert(option_allows(
                                    self.cell(
                                        group_cell_index(
                                            kind,
                                            self.base as int,
                                            self.line_size as int,
                                            g as int,
                                            k2,
                                        ),
                                    ),
                                    n,
                                ));
                            } else {
                                assert(cnt >= 2);
                                if hit_k != k2 {
                                    assert(!option_allows(
                                        self.cell(
                                            group_cell_index(
                                                kind,
                                                self.base as int,
                                                self.line_size as int,
                                                g as int,
                                                hit_k,
                                            ),
                                        ),
                                        n,
                                    ));
                                } else {
                                    assert(!option_allows(
                                        self.cell(
                                            group_cell_index(
                                                kind,
                                                self.base as int,
                                                self.line_size as int,
                                                g as int,
                                                hit2_k,
                                            ),
                                        ),
                                        n,
                                    ));
                                }
                            }
                        }
                    }
                }
                n += 1;
            }
            g += 1;
        }
        None
    }

    /// The first open cell with the fewest remaining options, with that
    /// count; `None` when every cell holds a placed number.
    fn find_min_options(&self) -> (r: Option<(usize, usize)>)
        requires
            self.wf(),
        ensures
            r is None ==> forall|j: int|
                0 <= j < self.size() ==> !((#[trigger] self.cell(j)) is OptionList),
            r matches Some((idx, c)) ==> idx < self.content@.len() && self.cell(
                idx as int,
            ) is OptionList && c == self.cell(idx as int)->OptionList_0@.len() && (forall|j: int|
                0 <= j < self.size() && (#[trigger] self.cell(j)) is OptionList ==> self.cell(
                    j,
                )->OptionList_0@.len() >= c) && (forall|j: int|
                0 <= j < idx ==> !((#[trigger] self.cell(j)) is OptionList) || self.cell(
                    j,
                )->OptionList_0@.len() > c),
    {
        let mut j: usize = 0;
        let mut have = false;
        let mut best_idx: usize = 0;
        let mut best_cnt: usize = 0;
        while j < self.content.len()
            invariant
                self.wf(),
                j <= self.content@.len(),
                !have ==> forall|i: int| 0 <= i < j ==> !((#[trigger] self.cell(i)) is OptionList),
                have ==> best_idx < j && self.cell(best_idx as int) is OptionList && best_cnt
                    == self.cell(best_idx as int)->OptionList_0@.len(),
                have ==> forall|i: int|
                    0 <= i < j && (#[trigger] self.cell(i)) is OptionList ==> self.cell(
                        i,
                    )->OptionList_0@.len() >= best_cnt,
                have ==> forall|i: int|
                    0 <= i < best_idx ==> !((#[trigger] self.cell(i)) is OptionList) || self.cell(
                        i,
                    )->OptionList_0@.len() > best_cnt,
            decreases self.content@.len() - j,
        {
            let cnt_here = match &self.content[j] {
                Field::OptionList(v) => Some(v.len()),
                _ => None,
            };
            if let Some(c) = cnt_here {
                if !have || c < best_cnt {
                    have = true;
                    best_idx = j;
                    best_cnt = c;
                }
            }
            j += 1;
        }
        if have {
            Some((best_idx, best_cnt))
        } else {
            None
        }
    }

    /// Solve by constraint propagation and stack-based backtracking: hidden
    /// singles per line, column and block, then naked singles, and a guess
    /// on the cell with the fewest options when propagation stalls, with a
    /// sibling board pushed for the other options. Any returned board is a
    /// fully placed, consistent refinement of the input, so every given of
    /// the input is kept; a board that is already solved comes back
    /// unchanged; and the search is complete: it reports failure only when
    /// no solution refines the input at all.
    pub fn solve(self) -> (res: Option<Board>)
        requires
            self.wf(),
            self.consistent(),
        ensures
            res matches Some(b) ==> b.wf() && b.consistent() && b.solved() && b.refines(self),
            self.solved() ==> res == Some(self),
            res is None ==> forall|s: Board| !(#[trigger] solution_of(s, self)),
    {
        let ghost orig = self;
        let mut stack: Vec<Board> = Vec::new();
        stack.push(self);
        proof {
            assert forall|s: Board| #[trigger] solution_of(s, orig) implies exists|k: int|
                0 <= k < stack@.len() && solution_of(s, #[trigger] stack@[k]) by {
                assert(stack@[0] == orig);
                assert(solution_of(s, stack@[0]));
            }
        }
        loop
            invariant
                orig == self,
                orig.wf(),
                orig.consistent(),
                forall|k: int|
                    0 <= k < stack@.len() ==> (#[trigger] stack@[k]).wf() && stack@[k].consistent()
                        && stack@[k].refines(orig),
                orig.solved() ==> stack@ =~= seq![orig],
                forall|s: Board|
                    #[trigger] solution_of(s, orig) ==> exists|k: int|
                        0 <= k < stack@.len() && solution_of(s, #[trigger] stack@[k]),
            decreases stack_measure(stack@),
        {
            let ghost pre_stack = stack@;
            let popped = stack.pop();
            let mut current = match popped {
                Some(b) => b,
                None => {
                    proof {
                        if orig.solved() {
                            assert(pre_stack.len() == seq![orig].len());
                        }
                        assert forall|s: Board| !(#[trigger] solution_of(s, self)) by {
                            if solution_of(s, orig) {
                                let k = choose|k: int|
                                    0 <= k < pre_stack.len() && solution_of(
                                        s,
                                        #[trigger] pre_stack[k],
                                    );
                            }
                        }
                    }
                    return None;
                },
            };
            let ghost w_pop = weight(current);
            proof {
                assert(current == pre_stack[pre_stack.len() - 1]);
                assert(current.wf() && current.consistent() && current.refines(orig));
                assert(stack@ =~= pre_stack.drop_last());
                assert(stack_measure(pre_stack) == stack_measure(stack@) + pow3(weight(current)));
                assert forall|s: Board| #[trigger] solution_of(s, orig) implies solution_of(
                    s,
                    current,
                ) || exists|k: int| 0 <= k < stack@.len() && solution_of(s, #[trigger] stack@[k]) by {
                    let k = choose|k: int|
                        0 <= k < pre_stack.len() && solution_of(s, #[trigger] pre_stack[k]);
                    if k < pre_stack.len() - 1 {
                        assert(stack@[k] == pre_stack[k]);
                        assert(solution_of(s, stack@[k]));
                    } else {
                        assert(pre_stack[k] == current);
                    }
                }
            }
            let mut step = SolverStep::Unsolvable;
            loop
                invariant
                    weight(current) <= w_pop,
                    orig.wf(),
                    orig.consistent(),
                    current.wf(),
                    current.consistent(),
                    current.refines(orig),
                    forall|k: int|
                        0 <= k < stack@.len() ==> (#[trigger] stack@[k]).wf()
                            && stack@[k].consistent() && stack@[k].refines(orig),
                    orig.solved() ==> current == orig && stack@.len() == 0,
                    forall|s: Board|
                        #[trigger] solution_of(s, orig) ==> solution_of(s, current) || exists|
                            k: int,
                        | 0 <= k < stack@.len() && solution_of(s, #[trigger] stack@[k]),
                ensures
                    current.wf(),
                    current.consistent(),
                    current.refines(orig),
                    weight(current) <= w_pop,
                    forall|k: int|
                        0 <= k < stack@.len() ==> (#[trigger] stack@[k]).wf()
                            && stack@[k].consistent() && stack@[k].refines(orig),
                    forall|s: Board|
                        #[trigger] solution_of(s, orig) ==> solution_of(s, current) || exists|
                            k: int,
                        | 0 <= k < stack@.len() && solution_of(s, #[trigger] stack@[k]),
                    step is Unsolvable ==> forall|s: Board| !(#[trigger] solution_of(s, current)),
                    step is Solved ==> current.solved(),
                    orig.solved() ==> step is Solved && current == orig && stack@.len() == 0,
                    step matches SolverStep::BranchOnOptionList(bidx) ==> bidx
                        < current.content@.len()
                        && current.cell(bidx as int) is OptionList && current.cell(
                        bidx as int,
                    )->OptionList_0@.len() >= 2,
                decreases weight(current),
            {
                let ghost w_it = weight(current);
                let mut cont = false;
                // hidden singles per line
                let kind = IterType::LineIter;
                let found = current.find_single_option(kind);
                if let Some((num, index)) = found {
                    proof {
                        if orig.solved() {
                            assert(current.cell(index as int) is Number);
                        }
                    }
                    cont = true;
                    let ghost before = current;
                    let ok = current.set_num_index(index, num);
                    proof {
                        lemma_propagation_no_conflict(before, index, num);
                        if ok {
                            crate::board::lemma_place_refines(before, current, index as int, num);
                            lemma_refines_trans(current, before, orig);
                            assert(before.cell(index as int)->OptionList_0@.contains(num));
                            lemma_weight_placed(before, current, index as int, num);
                            assert(weight(current) < w_it);
                            lemma_propagation_step(before, current, kind, index, num);
                        }
                    }
                    if !ok {
                        step = SolverStep::Unsolvable;
                        break;
                    }
                }
                // hidden singles per column
                let kind = IterType::ColIter;
                let found = current.find_single_option(kind);
                if let Some((num, index)) = found {
                    proof {
                        if orig.solved() {
                            assert(current.cell(index as int) is Number);
                        }
                    }
                    cont = true;
                    let ghost before = current;
                    let ok = current.set_num_index(index, num);
                    proof {
                        lemma_propagation_no_conflict(before, index, num);
                        if ok {
                            crate::board::lemma_place_refines(before, current, index as int, num);
                            lemma_refines_trans(current, before, orig);
                            assert(before.cell(index as int)->OptionList_0@.contains(num));
                            lemma_weight_placed(before, current, index as int, num);
                            assert(weight(current) < w_it);
                            lemma_propagation_step(before, current, kind, index, num);
                        }
                    }
                    if !ok {
                        step = SolverStep::Unsolvable;
                        break;
                    }
                }
                // hidden singles per block
                let kind = IterType::QuadIter;
                let found = current.find_single_option(kind);
                if let Some((num, index)) = found {
                    proof {
                        if orig.solved() {
                            assert(current.cell(index as int) is Number);
                        }
                    }
                    cont = true;
                    let ghost before = current;
                    let ok = current.set_num_index(index, num);
                    proof {
                        lemma_propagation_no_conflict(before, index, num);
                        if ok {
                            crate::board::lemma_place_refines(before, current, index as int, num);
                            lemma_refines_trans(current, before, orig);
                            assert(before.cell(index as int)->OptionList_0@.contains(num));
                            lemma_weight_placed(before, current, index as int, num);
                            assert(weight(current) < w_it);
                            lemma_propagation_step(before, current, kind, index, num);
                        }
                    }
                    if !ok {
                        step = SolverStep::Unsolvable;
                        break;
                    }
                }
                // the open cell with the fewest options: a naked single, a
                // dead branch, or the place to guess
                let min = current.find_min_options();
                let mut branch_idx: usize = 0;
                let mut have_branch = false;
                if let Some((min_idx, min_cnt)) = min {
                    proof {
                        if orig.solved() {
                            assert(current.cell(min_idx as int) is Number);
                        }
                    }
                    if min_cnt == 0 {
                        proof {
                            lemma_empty_cell_unsolvable(current, min_idx as int);
                        }
                        step = SolverStep::Unsolvable;
                        break;
                    } else if min_cnt == 1 {
                        cont = true;
                        let picked = current.get_first_option_list(min_idx);
                        let num = match picked {
                            Some(v) => v,
                            None => {
                                proof {
                                    assert(false);
                                }
                                step = SolverStep::Unsolvable;
                                break;
                            },
                        };
                        let ghost before = current;
                        let ok = current.set_num_index(min_idx, num);
                        proof {
                            lemma_propagation_no_conflict(before, min_idx, num);
                            if ok {
                                crate::board::lemma_place_refines(
                                    before,
                                    current,
                                    min_idx as int,
                                    num,
                                );
                                lemma_refines_trans(current, before, orig);
                                lemma_weight_placed(before, current, min_idx as int, num);
                                assert(weight(current) < w_it);
                                // a naked single is forced: any solution
                                // uses the one listed value
                                assert forall|s: Board| #[trigger] solution_of(
                                    s,
                                    before,
                                ) implies solution_of(s, current) by {
                                    assert(s.cell(min_idx as int) is Number);
                                    let m = s.cell(min_idx as int)->Number_0;
                                    assert(s.cell(min_idx as int).allows(m));
                                    assert(before.cell(min_idx as int).allows(m));
                                    let l = before.cell(min_idx as int)->OptionList_0@;
                                    assert(l.contains(m) && l.contains(num) && l.len() == 1);
                                    let i1 = choose|i: int| 0 <= i < l.len() && l[i] == m;
                                    let i2 = choose|i: int| 0 <= i < l.len() && l[i] == num;
                                    assert(i1 == 0 && i2 == 0);
                                    assert(s.cell(min_idx as int) == Field::Number(num));
                                    lemma_place_keeps_solution(
                                        before,
                                        current,
                                        min_idx as int,
                                        num,
                                        s,
                                    );
                                }
                            }
                        }
                        if !ok {
                            step = SolverStep::Unsolvable;
                            break;
                        }
                    } else {
                        branch_idx = min_idx;
                        have_branch = true;
                    }
                }
                // completion check
                if current.all_numbers() {
                    step = SolverStep::Solved;
                    break;
                }
                if !cont {
                    proof {
                        if !have_branch {
                            assert forall|j: int| 0 <= j < current.size() implies (
                            #[trigger] current.cell(j)) is Number by {
                                assert(!(current.cell(j) is OptionList));
                            }
                            assert(current.solved());
                        }
                    }
                    step = SolverStep::BranchOnOptionList(branch_idx);
                    break;
                }
            }
            match step {
                SolverStep::Solved => {
                    return Some(current);
                },
                SolverStep::BranchOnOptionList(idx) => {
                    let already = current.get_num_index(idx);
                    if let Some(_) = already {
                        proof {
                            assert(false);
                        }
                        return None;
                    }
                    let picked = current.get_first_option_list(idx);
                    let number = match picked {
                        Some(v) => v,
                        None => {
                            proof {
                                assert(false);
                            }
                            return None;
                        },
                    };
                    let mut new_board = current.clone();
                    proof {
                        lemma_same_state_props(new_board, current);
                    }
                    let ghost before = current;
                    let ok = current.set_num_index(idx, number);
                    if !ok {
                        proof {
                            lemma_propagation_no_conflict(before, idx, number);
                            assert(false);
                        }
                        return None;
                    }
                    proof {
                        crate::board::lemma_place_refines(before, current, idx as int, number);
                        lemma_refines_trans(current, before, orig);
                    }
                    let ghost nb0 = new_board;
                    new_board.remove_from_option_list(idx, number);
                    proof {
                        assert(new_board.refines(nb0));
                        lemma_refines_trans(new_board, nb0, before);
                        lemma_refines_trans(new_board, before, orig);
                    }
                    let ghost s0 = stack@;
                    stack.push(new_board);
                    stack.push(current);
                    proof {
                        lemma_stack_measure_push(s0, new_board);
                        lemma_stack_measure_push(s0.push(new_board), current);
                        let wc = weight(before);
                        assert(wc >= 2) by {
                            lemma_weight_ge_cell(before, idx as int, before.size());
                        }
                        lemma_weight_placed(before, current, idx as int, number);
                        assert(weight(current) + 2 <= wc);
                        assert(weight(nb0) == wc) by {
                            lemma_weight_upto_same(nb0, before, before.size());
                        }
                        assert(crate::board::same_cell(nb0.cell(idx as int), before.cell(idx as int)));
                        assert(number < nb0.line_size) by {
                            assert(before.cell(idx as int).allows(number));
                            assert(before.cell(idx as int).wf(before.line_size));
                        }
                        lemma_weight_removed(nb0, new_board, idx as int, number);
                        assert(weight(new_board) + 1 <= wc);
                        lemma_pow3_mono(weight(current), (wc - 2) as nat);
                        lemma_pow3_mono(weight(new_board), (wc - 1) as nat);
                        lemma_pow3_mono((wc - 2) as nat, (wc - 1) as nat);
                        assert(pow3(wc) == 3 * pow3((wc - 1) as nat));
                        lemma_pow3_pos((wc - 1) as nat);
                        assert(pow3(weight(current)) + pow3(weight(new_board)) < pow3(wc));
                        lemma_pow3_mono(wc, w_pop);
                        assert(stack_measure(stack@) < stack_measure(pre_stack));
                        // a solution settles the branch cell either on the
                        // guessed value or on one of the remaining options,
                        // so it survives on one of the two pushed boards
                        assert forall|s: Board| #[trigger] solution_of(s, orig) implies exists|
                            k: int,
                        | 0 <= k < stack@.len() && solution_of(s, #[trigger] stack@[k]) by {
                            if solution_of(s, before) {
                                assert(s.cell(idx as int) is Number);
                                let m = s.cell(idx as int)->Number_0;
                                if m == number {
                                    assert(s.cell(idx as int) == Field::Number(number));
                                    lemma_place_keeps_solution(
                                        before,
                                        current,
                                        idx as int,
                                        number,
                                        s,
                                    );
                                    assert(stack@[stack@.len() - 1] == current);
                                    assert(solution_of(s, stack@[stack@.len() - 1]));
                                } else {
                                    assert(solution_of(s, nb0)) by {
                                        lemma_same_state_props(nb0, before);
                                        lemma_refines_trans(s, before, nb0);
                                    }
                                    assert(s.cell(idx as int) != Field::Number(number));
                                    assert(crate::board::pruned(
                                        nb0.cell(idx as int),
                                        new_board.cell(idx as int),
                                        number,
                                    ));
                                    lemma_remove_keeps_solution(
                                        nb0,
                                        new_board,
                                        idx as int,
                                        number,
                                        s,
                                    );
                                    assert(stack@[stack@.len() - 2] == new_board);
                                    assert(solution_of(s, stack@[stack@.len() - 2]));
                                }
                            } else {
                                let k = choose|k: int|
                                    0 <= k < s0.len() && solution_of(s, #[trigger] s0[k]);
                                assert(stack@[k] == s0[k]);
                                assert(solution_of(s, stack@[k]));
                            }
                        }
                    }
                },
                SolverStep::Unsolvable => {
                    proof {
                        lemma_pow3_pos(w_pop);
                        assert(stack_measure(stack@) < stack_measure(pre_stack));
                        // the abandoned board admits no solution, so every
                        // solution still sits somewhere on the stack
                        assert forall|s: Board| #[trigger] solution_of(s, orig) implies exists|
                            k: int,
                        | 0 <= k < stack@.len() && solution_of(s, #[trigger] stack@[k]) by {
                            assert(!solution_of(s, current));
                        }
                    }
                },
            }
        }
    }

    /// Whether every cell holds a placed number.
    fn all_numbers(&self) -> (r: bool)
        ensures
            r == self.solved(),
    {
        let mut j: usize = 0;
        while j < self.content.len()
            invariant
                j <= self.content@.len(),
                forall|i: int| 0 <= i < j ==> (#[trigger] self.cell(i)) is Number,
            decreases self.content@.len() - j,
        {
            let is_num = match &self.content[j] {
                Field::Number(_) => true,
                _ => false,
            };
            if !is_num {
                proof {
                    assert(!(self.cell(j as int) is Number));
                }
                return false;
            }
            j += 1;
        }
        true
    }
}

} // verus!
