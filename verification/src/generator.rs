use vstd::prelude::*;

use crate::board::Board;
use crate::board::Field;
use crate::board::col_of;
use crate::board::lemma_linear_index;
use crate::board::lemma_same_state_props;
use crate::board::line_of;
use crate::board::peers_at;
use crate::solver::solution_of;

verus! {

/// A full solution exists among the boards that refine `b`.
pub open spec fn solvable(b: Board) -> bool {
    exists|s: Board| #[trigger] solution_of(s, b)
}

/// Every cell of `b` is open with the full range of values.
pub open spec fn all_open(b: Board) -> bool {
    &&& forall|i: int| 0 <= i < b.size() ==> (#[trigger] b.cell(i)) is OptionList
    &&& forall|i: int, n: usize|
        0 <= i < b.size() ==> ((#[trigger] b.cell(i).allows(n)) <==> n < b.line_size)
}

/// Every cell of `b` is the corresponding placed number of `s`, or an open
/// cell whose single admitted value is that number: the shape that carving
/// holes out of a solved board leaves behind.
pub open spec fn carved_from(b: Board, s: Board) -> bool {
    forall|i: int|
        0 <= i < b.size() ==> ((#[trigger] b.cell(i)) == s.cell(i) || (b.cell(i) is OptionList
            && forall|n: usize| #[trigger] b.cell(i).allows(n) <==> n == s.cell(i)->Number_0))
}

/// The value of cell `i` in the fixed shifted-rows solution: the cell in
/// line `r` and column `c` holds `(base * (r % base) + r / base + c)` modulo
/// the line size.
pub open spec fn canon_val(base: int, ls: int, i: int) -> int {
    (base * (line_of(ls, i) % base) + line_of(ls, i) / base + col_of(ls, i)) % ls
}

/// Non-negative numbers less than a modulus apart with equal remainders are
/// equal.
proof fn lemma_mod_eq_bounded(m: int, a: int, b: int)
    requires
        m > 0,
        0 <= a,
        0 <= b,
        a % m == b % m,
        -m < a - b < m,
    ensures
        a == b,
{
    vstd::arithmetic::div_mod::lemma_fundamental_div_mod(a, m);
    vstd::arithmetic::div_mod::lemma_fundamental_div_mod(b, m);
    assert(a == b) by (nonlinear_arith)
        requires
            a == m * (a / m) + a % m,
            b == m * (b / m) + b % m,
            a % m == b % m,
            -m < a - b < m,
            m > 0,
    ;
}

/// Two distinct cells of one line, one column or one block get different
/// values from the shifted-rows formula.
proof fn lemma_canon_distinct(base: int, ls: int, i: int, j: int)
    requires
        2 <= base <= 9,
        ls == base * base,
        0 <= i < ls * ls,
        0 <= j < ls * ls,
        peers_at(base, ls, i, j),
    ensures
        canon_val(base, ls, i) != canon_val(base, ls, j),
{
    lemma_linear_index(ls, i);
    lemma_linear_index(ls, j);
    let r1 = line_of(ls, i);
    let c1 = col_of(ls, i);
    let r2 = line_of(ls, j);
    let c2 = col_of(ls, j);
    vstd::arithmetic::div_mod::lemma_fundamental_div_mod(r1, base);
    vstd::arithmetic::div_mod::lemma_mod_division_less_than_divisor(r1, base);
    vstd::arithmetic::div_mod::lemma_fundamental_div_mod(r2, base);
    vstd::arithmetic::div_mod::lemma_mod_division_less_than_divisor(r2, base);
    vstd::arithmetic::div_mod::lemma_fundamental_div_mod(c1, base);
    vstd::arithmetic::div_mod::lemma_mod_division_less_than_divisor(c1, base);
    vstd::arithmetic::div_mod::lemma_fundamental_div_mod(c2, base);
    vstd::arithmetic::div_mod::lemma_mod_division_less_than_divisor(c2, base);
    let k1 = base * (r1 % base) + r1 / base;
    let k2 = base * (r2 % base) + r2 / base;
    assert((0 <= r1 / base < base) && (0 <= r2 / base < base) && (0 <= c1 / base < base) && (0
        <= c2 / base < base) && (0 <= k1 < ls) && (0 <= k2 < ls)) by (nonlinear_arith)
        requires
            2 <= base,
            ls == base * base,
            0 <= r1 < ls,
            0 <= r2 < ls,
            0 <= c1 < ls,
            0 <= c2 < ls,
            0 <= r1 % base < base,
            0 <= r2 % base < base,
            k1 == base * (r1 % base) + r1 / base,
            k2 == base * (r2 % base) + r2 / base,
    ;
    if canon_val(base, ls, i) == canon_val(base, ls, j) {
        assert((k1 + c1) % ls == (k2 + c2) % ls);
        if r1 == r2 {
            assert(k1 == k2);
            lemma_mod_eq_bounded(ls, k1 + c1, k2 + c2);
            assert(c1 == c2);
            assert(i == j);
        } else if c1 == c2 {
            lemma_mod_eq_bounded(ls, k1 + c1, k2 + c2);
            assert(k1 == k2);
            vstd::arithmetic::div_mod::lemma_fundamental_div_mod_converse(
                k1,
                base,
                r1 % base,
                r1 / base,
            );
            vstd::arithmetic::div_mod::lemma_fundamental_div_mod_converse(
                k2,
                base,
                r2 % base,
                r2 / base,
            );
            assert(r1 % base == r2 % base && r1 / base == r2 / base);
            assert(r1 == r2);
        } else {
            // the cells share a block: both coordinate digits of the block
            // agree, so the value difference is a base-digit pair and must
            // vanish
            assert(crate::board::block_of(base, ls, i) == crate::board::block_of(base, ls, j));
            vstd::arithmetic::div_mod::lemma_fundamental_div_mod_converse(
                crate::board::block_of(base, ls, i),
                base,
                r1 / base,
                c1 / base,
            );
            vstd::arithmetic::div_mod::lemma_fundamental_div_mod_converse(
                crate::board::block_of(base, ls, j),
                base,
                r2 / base,
                c2 / base,
            );
            assert(r1 / base == r2 / base && c1 / base == c2 / base);
            assert(-ls < (k1 + c1) - (k2 + c2) < ls) by (nonlinear_arith)
                requires
                    2 <= base,
                    ls == base * base,
                    k1 == base * (r1 % base) + r1 / base,
                    k2 == base * (r2 % base) + r2 / base,
                    r1 / base == r2 / base,
                    c1 / base == c2 / base,
                    c1 == base * (c1 / base) + c1 % base,
                    c2 == base * (c2 / base) + c2 % base,
                    0 <= r1 % base < base,
                    0 <= r2 % base < base,
                    0 <= c1 % base < base,
                    0 <= c2 % base < base,
            ;
            lemma_mod_eq_bounded(ls, k1 + c1, k2 + c2);
            assert(r1 % base == r2 % base && c1 % base == c2 % base) by (nonlinear_arith)
                requires
                    2 <= base,
                    k1 + c1 == k2 + c2,
                    k1 == base * (r1 % base) + r1 / base,
                    k2 == base * (r2 % base) + r2 / base,
                    r1 / base == r2 / base,
                    c1 == base * (c1 / base) + c1 % base,
                    c2 == base * (c2 / base) + c2 % base,
                    c1 / base == c2 / base,
                    0 <= r1 % base < base,
                    0 <= r2 % base < base,
                    0 <= c1 % base < base,
                    0 <= c2 % base < base,
            ;
            assert(r1 == r2 && c1 == c2);
            assert(i == j);
        }
    }
}

/// The shifted-rows solution of order `base`: a fully placed, consistent
/// board that refines every all-open board of the same order. It is the
/// generator's deterministic last resort, and the witness that an open
/// board is always solvable.
pub fn canonical_solution(base: usize) -> (b: Board)
    requires
        2 <= base <= 9,
    ensures
        b.wf(),
        b.consistent(),
        b.solved(),
        b.base == base,
        b.line_size == base * base,
        b.content@.len() == b.line_size * b.line_size,
        forall|b0: Board| b0.wf() && b0.base == base && #[trigger] all_open(b0) ==> b.refines(b0),
{
    proof {
        assert(base * base <= 81 && (base * base) * (base * base) <= 6561) by (nonlinear_arith)
            requires
                2 <= base <= 9,
        ;
    }
    let ls = base * base;
    let board_size = ls * ls;
    let mut content: Vec<Field> = Vec::new();
    let mut i: usize = 0;
    while i < board_size
        invariant
            2 <= base <= 9,
            ls == base * base,
            board_size == ls * ls,
            ls <= 81,
            board_size <= 6561,
            i <= board_size,
            content@.len() == i,
            forall|k: int|
                0 <= k < i ==> #[trigger] content@[k] == Field::Number(
                    canon_val(base as int, ls as int, k) as usize,
                ),
            forall|k: int|
                0 <= k < i ==> 0 <= #[trigger] canon_val(base as int, ls as int, k) < ls,
        decreases board_size - i,
    {
        proof {
            lemma_linear_index(ls as int, i as int);
        }
        let r = i / ls;
        let c = i % ls;
        proof {
            assert((base * (r % base) <= 72) && (r / base < base)) by (nonlinear_arith)
                requires
                    2 <= base <= 9,
                    ls == base * base,
                    0 <= r < ls,
                    r % base < base,
            ;
        }
        let v = (base * (r % base) + r / base + c) % ls;
        proof {
            assert(v as int == canon_val(base as int, ls as int, i as int));
        }
        content.push(Field::Number(v));
        i += 1;
    }
    let b = Board { content, base, line_size: ls };
    proof {
        assert forall|k: int| 0 <= k < b.size() implies (#[trigger] b.cell(k)) is Number && (forall|
            n: usize,
        | #[trigger] b.cell(k).allows(n) ==> n < b.line_size) by {}
        assert forall|x: int, y: int|
            0 <= x < b.size() && 0 <= y < b.size() && #[trigger] b.peers(x, y) && b.cell(
                x,
            ) is Number implies !(#[trigger] b.cell(y)).allows(b.cell(x)->Number_0) by {
            lemma_canon_distinct(base as int, ls as int, x, y);
        }
        assert forall|b0: Board|
            b0.wf() && b0.base == base && #[trigger] all_open(b0) implies b.refines(b0) by {
            assert forall|i2: int, n: usize|
                0 <= i2 < b.size() && #[trigger] b.cell(i2).allows(n) implies b0.cell(i2).allows(
                n,
            ) by {
                assert(n < b.line_size);
            }
        }
    }
    b
}

/// Relies on rand::random_range: a uniform draw from `0..n` lies below `n`;
/// the range is non-empty, so the call does not panic.
#[verifier::external_body]
fn rand_below(n: usize) -> (r: usize)
    requires
        n >= 1,
    ensures
        r < n,
{
    rand::random_range(0..n)
}

impl Board {
    /// Generate a puzzle of order `base`: seed a blank board with five
    /// random placements, solve it (retrying with fresh seeds when the
    /// seeding turned out unsolvable; after the bounded retries, falling
    /// back to the fixed shifted-rows solution), then carve holes by
    /// clearing random cells of the solution. Carving a cell keeps exactly
    /// the value that was there as its one option, so the solution survives
    /// cell for cell: every cell of the puzzle is either the solution's
    /// number or an open cell admitting only it, and the puzzle is always
    /// solvable.
    pub fn generate(base: usize) -> (b: Board)
        requires
            2 <= base <= 9,
        ensures
            b.wf(),
            b.consistent(),
            b.base == base,
            b.line_size == base * base,
            solvable(b),
            exists|s: Board| #[trigger] solution_of(s, b) && carved_from(b, s),
    {
        proof {
            assert(base * base <= 81 && (base * base) * (base * base) <= 6561 && (base * base) * (
            base * base) >= 16) by (nonlinear_arith)
                requires
                    2 <= base <= 9,
            ;
        }
        let line_size = base * base;
        let board_size = line_size * line_size;
        let num_to_delete = board_size * 100 / 70;
        let numbers_count_max: usize = 5;
        let mut b0 = Board::new();
        b0.reset(base);
        let mut solution = Board::new();
        let mut have = false;
        let mut attempts: usize = 10000;
        while attempts > 0 && !have
            invariant
                2 <= base <= 9,
                line_size == base * base,
                board_size == line_size * line_size,
                1 <= board_size <= 6561,
                numbers_count_max == 5,
                b0.wf(),
                b0.consistent(),
                b0.base == base,
                b0.line_size == line_size,
                b0.content@.len() == board_size,
                all_open(b0),
                have ==> solution.wf() && solution.consistent() && solution.solved()
                    && solution.base == base && solution.line_size == line_size
                    && solution.content@.len() == board_size,
            decreases attempts,
        {
            attempts -= 1;
            let mut current = b0.clone();
            proof {
                lemma_same_state_props(current, b0);
            }
            let mut numbers_count: usize = 0;
            let mut stuck = false;
            while numbers_count < numbers_count_max && !stuck
                invariant
                    2 <= base <= 9,
                    board_size >= 1,
                    numbers_count <= numbers_count_max,
                    current.wf(),
                    current.consistent(),
                    current.base == base,
                    current.line_size == line_size,
                    current.content@.len() == board_size,
                decreases numbers_count_max - numbers_count, (if stuck {
                    0int
                } else {
                    1int
                }),
            {
                let mut pick_idx: usize = 0;
                let mut pick_num: usize = 0;
                let mut picked = false;
                let mut tries: usize = 64;
                while tries > 0 && !picked
                    invariant
                        board_size >= 1,
                        current.content@.len() == board_size,
                        picked ==> pick_idx < board_size && current.cell(pick_idx as int)
                            is OptionList && current.cell(pick_idx as int).allows(pick_num),
                    decreases tries,
                {
                    tries -= 1;
                    let idx = rand_below(board_size);
                    match current.get_option_list(idx) {
                        Some(list) => {
                            let li = rand_below(list.len());
                            pick_idx = idx;
                            pick_num = list[li];
                            picked = true;
                            proof {
                                assert(current.cell(idx as int).allows(pick_num)) by {
                                    assert(list@.contains(list@[li as int]));
                                }
                            }
                        },
                        None => {},
                    }
                }
                if !picked {
                    // random probing found nothing: take the first open cell
                    let mut j: usize = 0;
                    while j < board_size
                        invariant
                            j <= board_size,
                            current.content@.len() == board_size,
                            picked ==> pick_idx < board_size && current.cell(pick_idx as int)
                                is OptionList && current.cell(pick_idx as int).allows(pick_num),
                        decreases board_size - j,
                    {
                        if !picked {
                            match current.get_first_option_list(j) {
                                Some(v) => {
                                    pick_idx = j;
                                    pick_num = v;
                                    picked = true;
                                },
                                None => {},
                            }
                        }
                        j += 1;
                    }
                }
                if !picked {
                    // no open cell is left anywhere: stop seeding
                    stuck = true;
                } else {
                    let ghost before = current;
                    let ok = current.set_num_index(pick_idx, pick_num);
                    proof {
                        // a listed option of an open cell on a consistent
                        // board can always be placed
                        if !ok {
                            assert(before.has_number_peer(pick_idx as int, pick_num));
                            let j2 = choose|j2: int|
                                0 <= j2 < before.size() && before.peers(pick_idx as int, j2)
                                    && before.cell(j2) == crate::board::Field::Number(pick_num);
                            assert(before.peers(j2, pick_idx as int));
                            assert(!before.cell(pick_idx as int).allows(pick_num));
                            assert(false);
                        }
                    }
                    if !ok {
                        stuck = true;
                    } else {
                        numbers_count += 1;
                    }
                }
            }
            match current.solve() {
                Some(sol) => {
                    solution = sol;
                    have = true;
                },
                None => {},
            }
        }
        if !have {
            // every bounded attempt failed: fall back to the fixed solution
            solution = canonical_solution(base);
        }
        let ghost s = solution;
        proof {
            assert(s.refines(solution));
            assert(carved_from(solution, s));
        }
        let mut d: usize = 0;
        while d < num_to_delete
            invariant
                board_size >= 1,
                solution.wf(),
                solution.consistent(),
                solution.base == base,
                solution.line_size == line_size,
                solution.content@.len() == board_size,
                s.wf(),
                s.consistent(),
                s.solved(),
                s.refines(solution),
                carved_from(solution, s),
            decreases num_to_delete - d,
        {
            let idx = rand_below(board_size);
            let ghost prev_sol = solution;
            solution.clear_num_index(idx);
            proof {
                assert(s.refines(solution)) by {
                    assert forall|i: int, n: usize|
                        0 <= i < s.size() && #[trigger] s.cell(i).allows(n) implies solution.cell(
                        i,
                    ).allows(n) by {
                        assert(prev_sol.cell(i).allows(n));
                    }
                }
                assert(carved_from(solution, s)) by {
                    assert forall|i: int|
                        0 <= i < solution.size() implies ((#[trigger] solution.cell(i)) == s.cell(i)
                            || (solution.cell(i) is OptionList && forall|n: usize|
                            #[trigger] solution.cell(i).allows(n) <==> n == s.cell(
                                i,
                            )->Number_0)) by {
                        if i == idx && prev_sol.cell(i) is Number {
                            assert(prev_sol.cell(i) == s.cell(i));
                            assert forall|n: usize| #[trigger] solution.cell(i).allows(n) <==> n
                                == s.cell(i)->Number_0 by {
                                assert(solution.cell(i).allows(n) <==> prev_sol.cell(i).allows(n));
                            }
                        } else {
                            assert(solution.cell(i) == prev_sol.cell(i));
                        }
                    }
                }
            }
            d += 1;
        }
        proof {
            assert(solvable(solution)) by {
                assert(solution_of(s, solution));
            }
            assert(solution_of(s, solution) && carved_from(solution, s));
        }
        solution
    }
}

} // verus!
