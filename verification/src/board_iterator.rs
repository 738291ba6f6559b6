use vstd::prelude::*;

use crate::board::Board;

verus! {

/// The four traversal orders a `BoardIter` can walk: one line, one column,
/// one block, or the whole grid in linear order.
#[derive(Clone, Copy)]
pub enum IterType {
    LineIter,
    ColIter,
    QuadIter,
    FieldIter,
}

/// A finite cursor over the cells of one constraint group (or of the whole
/// grid): `next` yields the board index of each cell of the group in turn.
pub struct BoardIter {
    pub itertype: IterType,
    pub base: usize,
    pub line_size: usize,
    pub group: usize,
    pub pos: usize,
}

/// The board index of the `k`-th cell of group `g` in the given traversal
/// order. For a block, `g` numbers blocks row-major and `k` walks the
/// `base * base` sub-grid row-major.
pub open spec fn group_cell_index(kind: IterType, base: int, ls: int, g: int, k: int) -> int {
    match kind {
        IterType::LineIter => g * ls + k,
        IterType::ColIter => k * ls + g,
        IterType::QuadIter => ((g / base) * base + k / base) * ls + (g % base) * base + k % base,
        IterType::FieldIter => k,
    }
}

impl BoardIter {
    /// How many cells the traversal yields.
    pub open spec fn group_len(self) -> int {
        match self.itertype {
            IterType::FieldIter => self.line_size * self.line_size,
            _ => self.line_size as int,
        }
    }

    pub open spec fn wf(self) -> bool {
        &&& self.line_size == self.base * self.base
        &&& self.base <= 9
        &&& 1 <= self.base
        &&& (self.itertype is FieldIter || self.group < self.line_size)
        &&& self.pos <= self.group_len()
    }

    /// A cursor over the cells of line `line` of `b`.
    pub fn new_line_iter(b: &Board, line: usize) -> (it: BoardIter)
        requires
            b.wf(),
            b.base >= 1,
            line < b.line_size,
        ensures
            it.wf(),
            it.itertype is LineIter,
            it.base == b.base,
            it.line_size == b.line_size,
            it.group == line,
            it.pos == 0,
    {
        BoardIter {
            itertype: IterType::LineIter,
            base: b.base,
            line_size: b.line_size,
            group: line,
            pos: 0,
        }
    }

    /// A cursor over the cells of column `col` of `b`.
    pub fn new_col_iter(b: &Board, col: usize) -> (it: BoardIter)
        requires
            b.wf(),
            b.base >= 1,
            col < b.line_size,
        ensures
            it.wf(),
            it.itertype is ColIter,
            it.base == b.base,
            it.line_size == b.line_size,
            it.group == col,
            it.pos == 0,
    {
        BoardIter {
            itertype: IterType::ColIter,
            base: b.base,
            line_size: b.line_size,
            group: col,
            pos: 0,
        }
    }

    /// A cursor over the cells of the block of `b` that holds the cell in
    /// `line` and `col`.
    pub fn new_quad_iter(b: &Board, line: usize, col: usize) -> (it: BoardIter)
        requires
            b.wf(),
            b.base >= 1,
            line < b.line_size,
            col < b.line_size,
        ensures
            it.wf(),
            it.itertype is QuadIter,
            it.base == b.base,
            it.line_size == b.line_size,
            it.group == (line as int / b.base as int) * b.base as int + col as int
                / b.base as int,
            it.pos == 0,
    {
        proof {
            let base = b.base as int;
            let ls = b.line_size as int;
            assert((0 <= line as int / base < base) && (0 <= col as int / base < base) && ((line
                as int / base) * base + col as int / base < ls) && (ls <= 81))
                by (nonlinear_arith)
                requires
                    1 <= base <= 9,
                    ls == base * base,
                    0 <= line < ls,
                    0 <= col < ls,
            ;
        }
        let group = (line / b.base) * b.base + col / b.base;
        BoardIter { itertype: IterType::QuadIter, base: b.base, line_size: b.line_size, group, pos: 0 }
    }

    /// A cursor over all cells of `b` in linear index order.
    pub fn new_field_iter(b: &Board) -> (it: BoardIter)
        requires
            b.wf(),
            b.base >= 1,
        ensures
            it.wf(),
            it.itertype is FieldIter,
            it.base == b.base,
            it.line_size == b.line_size,
            it.pos == 0,
    {
        BoardIter {
            itertype: IterType::FieldIter,
            base: b.base,
            line_size: b.line_size,
            group: 0,
            pos: 0,
        }
    }

    /// The board index of the next cell of the group, or `None` once the
    /// group boundary is reached.
    pub fn next(&mut self) -> (r: Option<usize>)
        requires
            old(self).wf(),
        ensures
            final(self).wf(),
            final(self).itertype == old(self).itertype,
            final(self).base == old(self).base,
            final(self).line_size == old(self).line_size,
            final(self).group == old(self).group,
            old(self).pos < old(self).group_len() ==> (final(self).pos == old(self).pos + 1 && (r
                matches Some(idx) && idx == group_cell_index(
                old(self).itertype,
                old(self).base as int,
                old(self).line_size as int,
                old(self).group as int,
                old(self).pos as int,
            ) && idx < old(self).line_size * old(self).line_size)),
            old(self).pos >= old(self).group_len() ==> r is None && final(self).pos == old(
                self,
            ).pos,
    {
        let ls = self.line_size;
        let base = self.base;
        let g = self.group;
        let k = self.pos;
        proof {
            assert(ls <= 81 && ls * ls <= 6561) by (nonlinear_arith)
                requires
                    ls == base * base,
                    base <= 9,
            ;
        }
        let at_end = match self.itertype {
            IterType::FieldIter => k >= ls * ls,
            _ => k >= ls,
        };
        if at_end {
            return None;
        }
        let idx = match self.itertype {
            IterType::LineIter => {
                proof {
                    assert(g * ls + k < ls * ls) by (nonlinear_arith)
                        requires
                            0 <= g < ls,
                            0 <= k < ls,
                    ;
                }
                g * ls + k
            },
            IterType::ColIter => {
                proof {
                    assert(k * ls + g < ls * ls) by (nonlinear_arith)
                        requires
                            0 <= g < ls,
                            0 <= k < ls,
                    ;
                }
                k * ls + g
            },
            IterType::QuadIter => {
                proof {
                    let gi = g as int;
                    let ki = k as int;
                    let bi = base as int;
                    let lsi = ls as int;
                    let row = (gi / bi) * bi + ki / bi;
                    let col = (gi % bi) * bi + ki % bi;
                    assert((0 <= row < lsi) && (0 <= col < lsi) && (row * lsi + col < lsi * lsi))
                        by (nonlinear_arith)
                        requires
                            1 <= bi <= 9,
                            lsi == bi * bi,
                            0 <= gi < lsi,
                            0 <= ki < lsi,
                            row == (gi / bi) * bi + ki / bi,
                            col == (gi % bi) * bi + ki % bi,
                    ;
                }
                ((g / base) * base + k / base) * ls + (g % base) * base + k % base
            },
            IterType::FieldIter => k,
        };
        self.pos = k + 1;
        Some(idx)
    }
}

impl Board {
    /// A cursor over line `line`; an out-of-range line degrades to line 0.
    pub fn line_iter(&self, line: usize) -> (it: BoardIter)
        requires
            self.wf(),
            self.base >= 1,
        ensures
            it.wf(),
            it.itertype is LineIter,
            it.base == self.base,
            it.line_size == self.line_size,
            it.pos == 0,
            it.group == if line < self.line_size {
                line as int
            } else {
                0
            },
    {
        proof {
            assert(self.line_size >= 1) by (nonlinear_arith)
                requires
                    self.line_size == self.base * self.base,
                    self.base >= 1,
            ;
        }
        if self.check_valid_coord(line, 0) {
            BoardIter::new_line_iter(self, line)
        } else {
            BoardIter::new_line_iter(self, 0)
        }
    }

    /// A cursor over column `col`; an out-of-range column degrades to
    /// column 0.
    pub fn col_iter(&self, col: usize) -> (it: BoardIter)
        requires
            self.wf(),
            self.base >= 1,
        ensures
            it.wf(),
            it.itertype is ColIter,
            it.base == self.base,
            it.line_size == self.line_size,
            it.pos == 0,
            it.group == if col < self.line_size {
                col as int
            } else {
                0
            },
    {
        proof {
            assert(self.line_size >= 1) by (nonlinear_arith)
                requires
                    self.line_size == self.base * self.base,
                    self.base >= 1,
            ;
        }
        if self.check_valid_coord(0, col) {
            BoardIter::new_col_iter(self, col)
        } else {
            BoardIter::new_col_iter(self, 0)
        }
    }

    /// A cursor over block `quad_idx`, blocks numbered row-major; an
    /// out-of-range block degrades to block 0.
    pub fn quad_iter(&self, quad_idx: usize) -> (it: BoardIter)
        requires
            self.wf(),
            self.base >= 1,
        ensures
            it.wf(),
            it.itertype is QuadIter,
            it.base == self.base,
            it.line_size == self.line_size,
            it.pos == 0,
            it.group == if quad_idx < self.line_size {
                quad_idx as int
            } else {
                0
            },
    {
        proof {
            assert(self.line_size >= 1 && self.line_size <= 81) by (nonlinear_arith)
                requires
                    self.line_size == self.base * self.base,
                    1 <= self.base <= 9,
            ;
        }
        if quad_idx < self.line_size {
            proof {
                let q = quad_idx as int;
                let b = self.base as int;
                let ls = self.line_size as int;
                vstd::arithmetic::div_mod::lemma_fundamental_div_mod(q, b);
                vstd::arithmetic::div_mod::lemma_mod_division_less_than_divisor(q, b);
                assert((q * b == (q / b) * ls + (q % b) * b) && (0 <= (q % b) * b < ls))
                    by (nonlinear_arith)
                    requires
                        1 <= b,
                        ls == b * b,
                        q == (q / b) * b + q % b,
                        0 <= q % b < b,
                        0 <= q / b,
                ;
                vstd::arithmetic::div_mod::lemma_fundamental_div_mod_converse(
                    q * b,
                    ls,
                    q / b,
                    (q % b) * b,
                );
                assert((q * b) % ls == (q % b) * b);
                assert(((q % b) * b) / b == q % b && (q / b) * b + ((q % b) * b) / b == q)
                    by (nonlinear_arith)
                    requires
                        1 <= b,
                        q == (q / b) * b + q % b,
                        0 <= q % b < b,
                ;
                assert(q * b <= 81 * 9) by (nonlinear_arith)
                    requires
                        0 <= q <= 81,
                        0 <= b <= 9,
                ;
            }
            let col = (quad_idx * self.base) % self.line_size;
            let it = BoardIter::new_quad_iter(self, quad_idx, col);
            proof {
                let q = quad_idx as int;
                let b = self.base as int;
                assert(it.group == (q / b) * b + ((q % b) * b) / b);
            }
            it
        } else {
            BoardIter::new_quad_iter(self, 0, 0)
        }
    }

    /// A cursor over the whole grid in linear index order.
    pub fn iter(&self) -> (it: BoardIter)
        requires
            self.wf(),
            self.base >= 1,
        ensures
            it.wf(),
            it.itertype is FieldIter,
            it.base == self.base,
            it.line_size == self.line_size,
            it.pos == 0,
    {
        proof {
            assert(self.line_size >= 1) by (nonlinear_arith)
                requires
                    self.line_size == self.base * self.base,
                    self.base >= 1,
            ;
        }
        BoardIter::new_field_iter(self)
    }
}

} // verus!
