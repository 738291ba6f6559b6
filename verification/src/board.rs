use vstd::prelude::*;

verus! {

/// One cell of the grid: a placed number, or the list of values that are
/// still possible there.
#[derive(Clone)]
pub enum Field {
    Number(usize),
    OptionList(Vec<usize>),
}

impl Field {
    /// The values this cell still admits: a placed number admits exactly
    /// itself, an open cell admits the entries of its option list.
    pub open spec fn allows(self, n: usize) -> bool {
        match self {
            Field::Number(m) => m == n,
            Field::OptionList(v) => v@.contains(n),
        }
    }

    /// Every value the cell mentions lies below `line_size`, and an option
    /// list keeps its values strictly ascending: sorted, with no
    /// duplicates, its head the least option.
    pub open spec fn wf(self, line_size: usize) -> bool {
        &&& forall|n: usize| #[trigger] self.allows(n) ==> n < line_size
        &&& self is OptionList ==> strictly_ascending(self->OptionList_0@)
    }
}

/// The entries are strictly ascending.
pub open spec fn strictly_ascending(v: Seq<usize>) -> bool {
    forall|a: int, b: int| 0 <= a < b < v.len() ==> v[a] < v[b]
}

/// Two cells hold the same state: equal numbers, or option lists with the
/// same entries in the same order.
pub open spec fn same_cell(a: Field, b: Field) -> bool {
    match (a, b) {
        (Field::Number(n), Field::Number(m)) => n == m,
        (Field::OptionList(v), Field::OptionList(w)) => v@ == w@,
        _ => false,
    }
}

/// `b` is what `a` becomes when the value `val` is struck from its options:
/// an open cell keeps exactly its other options.
pub open spec fn pruned(a: Field, b: Field, val: usize) -> bool {
    &&& b is OptionList
    &&& forall|n: usize| #[trigger] b.allows(n) <==> a.allows(n) && n != val
    &&& a is OptionList ==> b->OptionList_0@.len() <= a->OptionList_0@.len()
    &&& (a is OptionList && a.allows(val)) ==> b->OptionList_0@.len() < a->OptionList_0@.len()
}

/// What a peer cell looks like after the value `val` was propagated over it:
/// placed numbers stay as they are, option lists lose `val`.
pub open spec fn pruned_cell(a: Field, b: Field, val: usize) -> bool {
    match a {
        Field::Number(_) => b == a,
        Field::OptionList(_) => pruned(a, b, val),
    }
}

/// The grid line that holds linear index `i`.
pub open spec fn line_of(ls: int, i: int) -> int {
    i / ls
}

/// The grid column that holds linear index `i`.
pub open spec fn col_of(ls: int, i: int) -> int {
    i % ls
}

/// The block (quadrant) that holds linear index `i`, numbered row-major.
pub open spec fn block_of(base: int, ls: int, i: int) -> int {
    (line_of(ls, i) / base) * base + col_of(ls, i) / base
}

/// Two distinct cells share a line, a column, or a block.
pub open spec fn peers_at(base: int, ls: int, i: int, j: int) -> bool {
    i != j && (line_of(ls, i) == line_of(ls, j) || col_of(ls, i) == col_of(ls, j)
        || block_of(base, ls, i) == block_of(base, ls, j))
}

/// A Sudoku board of order `base`: `line_size = base * base`, and
/// `line_size * line_size` cells stored row-major.
pub struct Board {
    pub content: Vec<Field>,
    pub base: usize,
    pub line_size: usize,
}

impl Board {
    pub open spec fn size(self) -> int {
        self.content@.len() as int
    }

    pub open spec fn cell(self, i: int) -> Field {
        self.content@[i]
    }

    pub open spec fn peers(self, i: int, j: int) -> bool {
        peers_at(self.base as int, self.line_size as int, i, j)
    }

    /// Structural well-formedness: the dimensions fit together and every
    /// cell speaks only of values below `line_size`.
    pub open spec fn wf(self) -> bool {
        &&& self.line_size == self.base * self.base
        &&& self.base <= 9
        &&& self.content@.len() == self.line_size * self.line_size
        &&& forall|i: int| 0 <= i < self.size() ==> (#[trigger] self.cell(i)).wf(self.line_size)
    }

    /// The Sudoku constraint, incrementally maintained: a placed number is
    /// neither placed in nor still allowed by any cell of its line, column
    /// or block.
    pub open spec fn consistent(self) -> bool {
        forall|i: int, j: int|
            0 <= i < self.size() && 0 <= j < self.size() && #[trigger] self.peers(i, j)
                && self.cell(i) is Number ==> !(#[trigger] self.cell(j)).allows(
                self.cell(i)->Number_0,
            )
    }

    /// A cell of `self` that is a placed number equal to `val` and a peer of
    /// cell `i`.
    pub open spec fn has_number_peer(self, i: int, val: usize) -> bool {
        exists|j: int|
            0 <= j < self.size() && #[trigger] self.peers(i, j) && self.cell(j) == Field::Number(
                val,
            )
    }

    /// Every cell holds a placed number.
    pub open spec fn solved(self) -> bool {
        forall|i: int| 0 <= i < self.size() ==> (#[trigger] self.cell(i)) is Number
    }

    /// Every assignment admitted by `self` is admitted by `other`.
    pub open spec fn refines(self, other: Board) -> bool {
        &&& self.base == other.base
        &&& self.line_size == other.line_size
        &&& self.content@.len() == other.content@.len()
        &&& forall|i: int, n: usize|
            0 <= i < self.size() && #[trigger] self.cell(i).allows(n) ==> other.cell(i).allows(n)
    }

    /// The two boards hold the same state, cell for cell.
    pub open spec fn same_state(self, other: Board) -> bool {
        &&& self.base == other.base
        &&& self.line_size == other.line_size
        &&& self.content@.len() == other.content@.len()
        &&& forall|i: int| 0 <= i < self.size() ==> same_cell(#[trigger] self.cell(i), other.cell(i))
    }
}

/// Cells with the same state admit the same values.
pub proof fn lemma_same_cell_allows(a: Field, b: Field)
    requires
        same_cell(a, b),
    ensures
        forall|n: usize| #![trigger a.allows(n)] #![trigger b.allows(n)] a.allows(n) <==> b.allows(
            n,
        ),
        a is Number <==> b is Number,
        a is Number ==> a->Number_0 == b->Number_0,
        a is OptionList ==> a->OptionList_0@ == b->OptionList_0@,
{
}

/// Boards with the same state agree on well-formedness, consistency and
/// being solved, and refine each other.
pub proof fn lemma_same_state_props(a: Board, b: Board)
    requires
        a.same_state(b),
    ensures
        a.wf() <==> b.wf(),
        a.consistent() <==> b.consistent(),
        a.solved() <==> b.solved(),
        a.refines(b),
        b.refines(a),
{
    assert forall|i: int| 0 <= i < a.size() implies (a.cell(i) is Number <==> b.cell(i) is Number)
        && (a.cell(i) is Number ==> a.cell(i)->Number_0 == b.cell(i)->Number_0) && (forall|n: usize|
        #[trigger] a.cell(i).allows(n) <==> b.cell(i).allows(n)) by {
        lemma_same_cell_allows(a.cell(i), b.cell(i));
    }
    assert(a.wf() ==> b.wf()) by {
        if a.wf() {
            assert forall|i: int| 0 <= i < b.size() implies (#[trigger] b.cell(i)).wf(
                b.line_size,
            ) by {
                lemma_same_cell_allows(a.cell(i), b.cell(i));
            }
        }
    }
    assert(b.wf() ==> a.wf()) by {
        if b.wf() {
            assert forall|i: int| 0 <= i < a.size() implies (#[trigger] a.cell(i)).wf(
                a.line_size,
            ) by {
                lemma_same_cell_allows(a.cell(i), b.cell(i));
            }
        }
    }
    assert(a.consistent() ==> b.consistent()) by {
        if a.consistent() {
            assert forall|i: int, j: int|
                0 <= i < b.size() && 0 <= j < b.size() && #[trigger] b.peers(i, j) && b.cell(
                    i,
                ) is Number implies !(#[trigger] b.cell(j)).allows(b.cell(i)->Number_0) by {
                lemma_same_cell_allows(a.cell(i), b.cell(i));
                lemma_same_cell_allows(a.cell(j), b.cell(j));
                assert(a.peers(i, j));
            }
        }
    }
    assert(b.consistent() ==> a.consistent()) by {
        if b.consistent() {
            assert forall|i: int, j: int|
                0 <= i < a.size() && 0 <= j < a.size() && #[trigger] a.peers(i, j) && a.cell(
                    i,
                ) is Number implies !(#[trigger] a.cell(j)).allows(a.cell(i)->Number_0) by {
                lemma_same_cell_allows(a.cell(i), b.cell(i));
                lemma_same_cell_allows(a.cell(j), b.cell(j));
                assert(b.peers(i, j));
            }
        }
    }
}

/// Placing a value that the target cell allowed only narrows the board:
/// the result refines the board it was placed on.
pub proof fn lemma_place_refines(prev: Board, cur: Board, idx: int, val: usize)
    requires
        cur.placed(prev, idx, val),
        0 <= idx < prev.size(),
        prev.cell(idx).allows(val),
    ensures
        cur.refines(prev),
{
    assert forall|i: int, n: usize|
        0 <= i < cur.size() && #[trigger] cur.cell(i).allows(n) implies prev.cell(i).allows(n) by {
        if i == idx {
            assert(cur.cell(i) == Field::Number(val));
        } else if prev.peers(idx, i) {
            assert(pruned_cell(prev.cell(i), cur.cell(i), val));
        } else {
            assert(cur.cell(i) == prev.cell(i));
        }
    }
}

/// The refinement order is transitive.
pub proof fn lemma_refines_trans(a: Board, b: Board, c: Board)
    requires
        a.refines(b),
        b.refines(c),
    ensures
        a.refines(c),
{
}

impl Board {
    /// An empty board of order zero; it holds no cells until `reset` or
    /// `read` gives it a shape.
    pub fn new() -> (b: Board)
        ensures
            b.wf(),
            b.consistent(),
            b.base == 0,
            b.line_size == 0,
            b.content@.len() == 0,
    {
        Board { content: Vec::new(), base: 0, line_size: 0 }
    }

    /// A deep copy: the clone holds the same state and is independently
    /// owned.
    pub fn clone(&self) -> (b: Board)
        ensures
            b.same_state(*self),
    {
        let mut content: Vec<Field> = Vec::new();
        let mut i: usize = 0;
        while i < self.content.len()
            invariant
                i <= self.content@.len(),
                content@.len() == i,
                forall|k: int| 0 <= k < i ==> same_cell(#[trigger] content@[k], self.content@[k]),
            decreases self.content@.len() - i,
        {
            let copy = match &self.content[i] {
                Field::Number(n) => Field::Number(*n),
                Field::OptionList(v) => Field::OptionList(copy_values(v)),
            };
            content.push(copy);
            i += 1;
        }
        Board { content, base: self.base, line_size: self.line_size }
    }

    /// Give the board order `base`: `line_size * line_size` cells, each open
    /// with the full range of values.
    pub(crate) fn reset(&mut self, base: usize)
        requires
            2 <= base <= 9,
        ensures
            final(self).wf(),
            final(self).consistent(),
            final(self).base == base,
            final(self).line_size == base * base,
            final(self).content@.len() == final(self).line_size * final(self).line_size,
            forall|i: int|
                0 <= i < final(self).size() ==> (#[trigger] final(self).cell(i)) is OptionList,
            forall|i: int, n: usize|
                0 <= i < final(self).size() ==> ((#[trigger] final(self).cell(i).allows(n)) <==> n
                    < final(self).line_size),
    {
        self.base = base;
        assert(base <= 9);
        assert(base * base <= 81) by (nonlinear_arith)
            requires
                base <= 9,
        ;
        self.line_size = base * base;
        assert(self.line_size * self.line_size <= 81 * 81) by (nonlinear_arith)
            requires
                self.line_size <= 81,
        ;
        let board_size = self.line_size * self.line_size;
        let mut content: Vec<Field> = Vec::new();
        let mut i: usize = 0;
        while i < board_size
            invariant
                i <= board_size,
                self.line_size == base * base,
                base <= 9,
                board_size == self.line_size * self.line_size,
                content@.len() == i,
                forall|k: int| 0 <= k < i ==> (#[trigger] content@[k]) is OptionList,
                forall|k: int, n: usize|
                    0 <= k < i ==> ((#[trigger] content@[k].allows(n)) <==> n < self.line_size),
                forall|k: int|
                    0 <= k < i ==> strictly_ascending((#[trigger] content@[k])->OptionList_0@),
            decreases board_size - i,
        {
            content.push(Field::OptionList(full_options(self.line_size)));
            i += 1;
        }
        self.content = content;
    }

    /// The placed number at `idx`, if there is one.
    pub fn get_num_index(&self, idx: usize) -> (r: Option<usize>)
        requires
            idx < self.content@.len(),
        ensures
            r matches Some(n) ==> self.cell(idx as int) == Field::Number(n),
            r is None ==> !(self.cell(idx as int) is Number),
    {
        if let Field::Number(n) = &self.content[idx] {
            Some(*n)
        } else {
            None
        }
    }

    /// Demote a placed number to an open cell that admits only the value
    /// that was there; the admitted values of every cell stay as they were.
    pub fn clear_num_index(&mut self, idx: usize)
        requires
            old(self).wf(),
            idx < old(self).content@.len(),
        ensures
            final(self).wf(),
            final(self).base == old(self).base,
            final(self).line_size == old(self).line_size,
            final(self).content@.len() == old(self).content@.len(),
            forall|k: int|
                0 <= k < final(self).size() && k != idx ==> final(self).cell(k) == old(self).cell(
                    k,
                ),
            forall|k: int, n: usize|
                0 <= k < final(self).size() ==> ((#[trigger] final(self).cell(k).allows(n)) <==> old(self).cell(k).allows(n)),
            old(self).cell(idx as int) is Number ==> final(self).cell(idx as int) is OptionList,
            !(old(self).cell(idx as int) is Number) ==> *final(self) == *old(self),
            old(self).consistent() ==> final(self).consistent(),
    {
        let replacement = if let Field::Number(n) = &self.content[idx] {
            let mut v: Vec<usize> = Vec::new();
            v.push(*n);
            Some(Field::OptionList(v))
        } else {
            None
        };
        if let Some(cell) = replacement {
            let ghost prev = *self;
            self.content.set(idx, cell);
            proof {
                assert forall|k: int, n: usize| 0 <= k < self.size() implies ((
                #[trigger] self.cell(k).allows(n)) <==> prev.cell(k).allows(n)) by {
                    if k == idx {
                        assert(self.cell(k).allows(n) ==> self.cell(k)->OptionList_0@[0] == n);
                        assert(prev.cell(k)->Number_0 == self.cell(k)->OptionList_0@[0]);
                        if prev.cell(k).allows(n) {
                            assert(self.cell(k)->OptionList_0@.contains(n)) by {
                                assert(self.cell(k)->OptionList_0@[0] == n);
                            }
                        }
                    }
                }
                assert(old(self).consistent() ==> self.consistent()) by {
                    if old(self).consistent() {
                        assert forall|i: int, j: int|
                            0 <= i < self.size() && 0 <= j < self.size() && #[trigger] self.peers(
                                i,
                                j,
                            ) && self.cell(i) is Number implies !(#[trigger] self.cell(j)).allows(
                            self.cell(i)->Number_0,
                        ) by {
                            assert(old(self).peers(i, j));
                            assert(self.cell(i) == old(self).cell(i));
                            assert(!old(self).cell(j).allows(old(self).cell(i)->Number_0));
                        }
                    }
                }
                assert forall|i: int| 0 <= i < self.size() implies (#[trigger] self.cell(i)).wf(
                    self.line_size,
                ) by {
                    assert(prev.cell(i).wf(prev.line_size));
                }
            }
        }
    }
}

/// A fresh copy of a vector of values.
fn copy_values(v: &Vec<usize>) -> (w: Vec<usize>)
    ensures
        w@ == v@,
{
    let mut w: Vec<usize> = Vec::new();
    let mut i: usize = 0;
    while i < v.len()
        invariant
            i <= v@.len(),
            w@ == v@.subrange(0, i as int),
        decreases v@.len() - i,
    {
        w.push(v[i]);
        assert(w@ =~= v@.subrange(0, i + 1 as int));
        i += 1;
    }
    assert(w@ =~= v@);
    w
}

/// The full option list `0, 1, .., line_size - 1`.
fn full_options(line_size: usize) -> (v: Vec<usize>)
    ensures
        v@.len() == line_size,
        forall|k: int| 0 <= k < line_size ==> v@[k] == k,
        forall|n: usize| #[trigger] v@.contains(n) <==> n < line_size,
        strictly_ascending(v@),
{
    let mut v: Vec<usize> = Vec::new();
    let mut n: usize = 0;
    while n < line_size
        invariant
            n <= line_size,
            v@.len() == n,
            forall|k: int| 0 <= k < n ==> v@[k] == k,
        decreases line_size - n,
    {
        v.push(n);
        n += 1;
    }
    assert forall|m: usize| #[trigger] v@.contains(m) <==> m < line_size by {
        if m < line_size {
            assert(v@[m as int] == m);
        }
    }
    v
}

/// The board dimensions that well-formedness bounds.
pub proof fn lemma_dims(b: Board)
    requires
        b.wf(),
    ensures
        b.line_size <= 81,
        b.content@.len() <= 6561,
{
    assert(b.line_size <= 81 && b.line_size * b.line_size <= 6561) by (nonlinear_arith)
        requires
            b.line_size == b.base * b.base,
            b.base <= 9,
    ;
}

/// Splitting a linear index below `ls * ls` into line and column.
pub proof fn lemma_linear_index(ls: int, idx: int)
    requires
        0 < ls,
        0 <= idx < ls * ls,
    ensures
        0 <= idx / ls < ls,
        0 <= idx % ls < ls,
        idx == (idx / ls) * ls + idx % ls,
{
    vstd::arithmetic::div_mod::lemma_fundamental_div_mod(idx, ls);
    vstd::arithmetic::div_mod::lemma_mod_division_less_than_divisor(idx, ls);
    vstd::arithmetic::div_mod::lemma_div_pos_is_pos(idx, ls);
    assert(idx == (idx / ls) * ls + idx % ls) by (nonlinear_arith)
        requires
            idx == ls * (idx / ls) + idx % ls,
    ;
    if idx / ls >= ls {
        assert(ls * (idx / ls) >= ls * ls) by (nonlinear_arith)
            requires
                idx / ls >= ls,
                ls > 0,
        ;
    }
}

/// A sequence extended by one element contains exactly the old elements and
/// the new one.
pub proof fn lemma_contains_push(s: Seq<usize>, x: usize, n: usize)
    ensures
        s.push(x).contains(n) <==> s.contains(n) || n == x,
{
    if s.push(x).contains(n) {
        let k = choose|k: int| 0 <= k < s.push(x).len() && s.push(x)[k] == n;
        if k < s.len() {
            assert(s[k] == n);
        }
    }
    if s.contains(n) {
        let k = choose|k: int| 0 <= k < s.len() && s[k] == n;
        assert(s.push(x)[k] == n);
    }
    if n == x {
        assert(s.push(x)[s.len() as int] == n);
    }
}

/// A board whose admitted values only shrank, and whose placed numbers
/// stayed, is still consistent.
pub proof fn lemma_consistent_shrink(a: Board, b: Board)
    requires
        a.consistent(),
        b.base == a.base,
        b.line_size == a.line_size,
        b.content@.len() == a.content@.len(),
        forall|j: int| 0 <= j < b.size() && a.cell(j) is Number ==> #[trigger] b.cell(j) == a.cell(j),
        forall|j: int| 0 <= j < b.size() && (#[trigger] b.cell(j)) is Number ==> a.cell(j) is Number,
        forall|j: int, n: usize|
            0 <= j < b.size() && #[trigger] b.cell(j).allows(n) ==> a.cell(j).allows(n),
    ensures
        b.consistent(),
{
    assert forall|i: int, j: int|
        0 <= i < b.size() && 0 <= j < b.size() && #[trigger] b.peers(i, j) && b.cell(
            i,
        ) is Number implies !(#[trigger] b.cell(j)).allows(b.cell(i)->Number_0) by {
        assert(a.peers(i, j));
        assert(a.cell(i) is Number);
        assert(b.cell(i) == a.cell(i));
        assert(!a.cell(j).allows(a.cell(i)->Number_0));
    }
}

/// Keep the entries of `v` other than `val`.
fn filter_out(v: &Vec<usize>, val: usize) -> (w: Vec<usize>)
    ensures
        forall|n: usize| #[trigger] w@.contains(n) <==> v@.contains(n) && n != val,
        w@.len() <= v@.len(),
        v@.contains(val) ==> w@.len() < v@.len(),
        strictly_ascending(v@) ==> strictly_ascending(w@),
{
    let mut w: Vec<usize> = Vec::new();
    let mut i: usize = 0;
    while i < v.len()
        invariant
            i <= v@.len(),
            w@.len() <= i,
            v@.subrange(0, i as int).contains(val) ==> w@.len() < i,
            forall|n: usize|
                #[trigger] w@.contains(n) <==> v@.subrange(0, i as int).contains(n) && n != val,
            strictly_ascending(v@) ==> (strictly_ascending(w@) && (w@.len() > 0 ==> exists|jj: int|
                0 <= jj < i && (#[trigger] v@[jj]) == w@.last())),
        decreases v@.len() - i,
    {
        let x = v[i];
        let ghost wpre = w@;
        if x != val {
            w.push(x);
            proof {
                if strictly_ascending(v@) {
                    assert forall|a: int, b: int|
                        0 <= a < b < w@.len() implies w@[a] < w@[b] by {
                        if b == w@.len() - 1 && wpre.len() > 0 {
                            let jj = choose|jj: int|
                                0 <= jj < i && (#[trigger] v@[jj]) == wpre.last();
                            if a == wpre.len() - 1 {
                                assert(w@[a] == v@[jj] && v@[jj] < v@[i as int]);
                            } else {
                                assert(w@[a] == wpre[a] && wpre[a] < wpre.last());
                                assert(wpre.last() == v@[jj] && v@[jj] < v@[i as int]);
                            }
                        }
                    }
                    assert(v@[i as int] == w@.last());
                }
            }
        }
        proof {
            assert(v@.subrange(0, i + 1 as int) =~= v@.subrange(0, i as int).push(v@[i as int]));
            assert forall|n: usize| #[trigger] w@.contains(n) <==> v@.subrange(
                0,
                i + 1 as int,
            ).contains(n) && n != val by {
                lemma_contains_push(v@.subrange(0, i as int), v@[i as int], n);
                if x != val {
                    lemma_contains_push(wpre, x, n);
                }
            }
        }
        i += 1;
    }
    assert(v@.subrange(0, v@.len() as int) =~= v@);
    w
}

impl Board {
    /// The exact condition under which `set_num_index` succeeds.
    pub open spec fn can_place(self, idx: int, val: usize) -> bool {
        &&& self.base != 0
        &&& val < self.line_size
        &&& 0 <= idx < self.size()
        &&& !(self.cell(idx) is Number)
        &&& !self.has_number_peer(idx, val)
    }

    /// The state after `val` was successfully placed at `idx` on `prev`:
    /// the target is fixed, every peer lost the option `val`, and nothing
    /// else moved.
    pub open spec fn placed(self, prev: Board, idx: int, val: usize) -> bool {
        &&& self.base == prev.base
        &&& self.line_size == prev.line_size
        &&& self.content@.len() == prev.content@.len()
        &&& self.cell(idx) == Field::Number(val)
        &&& forall|j: int|
            0 <= j < self.size() && j != idx && prev.peers(idx, j) ==> pruned_cell(
                prev.cell(j),
                #[trigger] self.cell(j),
                val,
            )
        &&& forall|j: int|
            0 <= j < self.size() && j != idx && !prev.peers(idx, j) ==> #[trigger] self.cell(j)
                == prev.cell(j)
    }

    /// Linear index of the cell in `line` and `col`.
    pub fn idx_from_line_col(&self, line: usize, col: usize) -> (idx: usize)
        requires
            self.wf(),
            line < self.line_size,
            col < self.line_size,
        ensures
            idx == line * self.line_size + col,
            idx < self.content@.len(),
            line_of(self.line_size as int, idx as int) == line,
            col_of(self.line_size as int, idx as int) == col,
    {
        proof {
            lemma_dims(*self);
            assert(line * self.line_size + col < self.line_size * self.line_size)
                by (nonlinear_arith)
                requires
                    line < self.line_size,
                    col < self.line_size,
            ;
            vstd::arithmetic::div_mod::lemma_fundamental_div_mod_converse(
                (line * self.line_size + col) as int,
                self.line_size as int,
                line as int,
                col as int,
            );
        }
        line * self.line_size + col
    }

    /// Line and column of a linear index. The split is pure arithmetic, but
    /// the division below needs a shaped board (`line_size > 0`), and an
    /// index past the grid belongs to no line: both bounds are required
    /// rather than given a made-up answer.
    pub fn line_col_from_idx(&self, idx: usize) -> (r: (usize, usize))
        requires
            self.wf(),
            idx < self.content@.len(),
        ensures
            r.0 == line_of(self.line_size as int, idx as int),
            r.1 == col_of(self.line_size as int, idx as int),
            r.0 < self.line_size,
            r.1 < self.line_size,
            idx == r.0 * self.line_size + r.1,
    {
        proof {
            assert(self.line_size > 0) by (nonlinear_arith)
                requires
                    (self.line_size * self.line_size) > idx >= 0,
            ;
            lemma_linear_index(self.line_size as int, idx as int);
        }
        let line = idx / self.line_size;
        (line, idx - line * self.line_size)
    }

    /// The top-left corner of the block holding `(line, col)`: both
    /// coordinates rounded down to a multiple of `base`.
    pub fn quadrant_start_from_line_col(&self, line: usize, col: usize) -> (r: (usize, usize))
        requires
            self.wf(),
            self.base > 0,
            line < self.line_size,
            col < self.line_size,
        ensures
            r.0 == (line as int / self.base as int) * self.base as int,
            r.1 == (col as int / self.base as int) * self.base as int,
            r.0 <= line,
            r.1 <= col,
    {
        proof {
            let bi = self.base as int;
            let li = line as int;
            let ci = col as int;
            assert((li / bi) * bi <= li && (ci / bi) * bi <= ci && 0 <= (li / bi) * bi && 0 <= (ci
                / bi) * bi) by (nonlinear_arith)
                requires
                    bi > 0,
                    li >= 0,
                    ci >= 0,
            ;
        }
        ((line / self.base) * self.base, (col / self.base) * self.base)
    }

    /// Whether `idx` addresses a cell.
    pub fn check_valid_index(&self, idx: usize) -> (r: bool)
        ensures
            r == (idx < self.content@.len()),
    {
        !(idx >= self.content.len())
    }

    /// Whether `num` is a value a cell may hold.
    pub fn check_valid_number(&self, num: usize) -> (r: bool)
        ensures
            r == (num < self.line_size),
    {
        !(num >= self.line_size)
    }

    /// Whether `(line, col)` addresses a cell.
    pub fn check_valid_coord(&self, line: usize, col: usize) -> (r: bool)
        requires
            self.wf(),
        ensures
            r == (line < self.line_size && col < self.line_size),
    {
        line < self.line_size && col < self.line_size
    }
}

impl Board {
    /// Whether the distinct cells `i` and `j` share a line, a column or a
    /// block.
    fn is_peer(&self, i: usize, j: usize) -> (r: bool)
        requires
            self.wf(),
            i < self.content@.len(),
            j < self.content@.len(),
        ensures
            r == self.peers(i as int, j as int),
    {
        if i == j {
            return false;
        }
        let (li, ci) = self.line_col_from_idx(i);
        let (lj, cj) = self.line_col_from_idx(j);
        if li == lj || ci == cj {
            return true;
        }
        proof {
            assert(self.base > 0) by (nonlinear_arith)
                requires
                    self.line_size == self.base * self.base,
                    self.line_size > li >= 0,
            ;
        }
        let (si_l, si_c) = self.quadrant_start_from_line_col(li, ci);
        let (sj_l, sj_c) = self.quadrant_start_from_line_col(lj, cj);
        let r = si_l == sj_l && si_c == sj_c;
        proof {
            let base = self.base as int;
            let ls = self.line_size as int;
            let bi = block_of(base, ls, i as int);
            let bj = block_of(base, ls, j as int);
            let qi_l = li as int / base;
            let qi_c = ci as int / base;
            let qj_l = lj as int / base;
            let qj_c = cj as int / base;
            assert(0 <= qi_c < base && 0 <= qj_c < base) by (nonlinear_arith)
                requires
                    base > 0,
                    ls == base * base,
                    0 <= ci < ls,
                    0 <= cj < ls,
                    qi_c == ci as int / base,
                    qj_c == cj as int / base,
            ;
            assert(bi == qi_l * base + qi_c && bj == qj_l * base + qj_c);
            if bi == bj {
                vstd::arithmetic::div_mod::lemma_fundamental_div_mod_converse(bi, base, qi_l, qi_c);
                vstd::arithmetic::div_mod::lemma_fundamental_div_mod_converse(bj, base, qj_l, qj_c);
                assert(qi_l == qj_l && qi_c == qj_c);
            }
            if qi_l == qj_l && qi_c == qj_c {
                assert(bi == bj);
            }
            assert((si_l == sj_l && si_c == sj_c) ==> (qi_l == qj_l && qi_c == qj_c))
                by (nonlinear_arith)
                requires
                    base > 0,
                    si_l == qi_l * base,
                    sj_l == qj_l * base,
                    si_c == qi_c * base,
                    sj_c == qj_c * base,
            ;
        }
        r
    }

    /// Propagate the placement of `val` over the cell at `idx`: an open cell
    /// loses the option `val`; a cell already fixed to `val` reports the
    /// conflict and nothing changes.
    fn update_field(&mut self, idx: usize, val: usize) -> (r: bool)
        requires
            old(self).wf(),
            idx < old(self).content@.len(),
        ensures
            final(self).wf(),
            final(self).base == old(self).base,
            final(self).line_size == old(self).line_size,
            final(self).content@.len() == old(self).content@.len(),
            forall|k: int|
                0 <= k < final(self).size() && k != idx ==> #[trigger] final(self).cell(k) == old(self).cell(k),
            r <==> !(old(self).cell(idx as int) == Field::Number(val)),
            r ==> pruned_cell(old(self).cell(idx as int), final(self).cell(idx as int), val),
            !r ==> *final(self) == *old(self),
    {
        let keep = match &self.content[idx] {
            Field::Number(n) => *n != val,
            Field::OptionList(_) => true,
        };
        if !keep {
            return false;
        }
        let filtered = match &self.content[idx] {
            Field::OptionList(v) => Some(filter_out(v, val)),
            Field::Number(_) => None,
        };
        if let Some(w) = filtered {
            let ghost prev = *self;
            self.content.set(idx, Field::OptionList(w));
            proof {
                assert(pruned(prev.cell(idx as int), self.cell(idx as int), val));
                assert forall|i: int| 0 <= i < self.size() implies (#[trigger] self.cell(i)).wf(
                    self.line_size,
                ) by {
                    assert(prev.cell(i).wf(prev.line_size));
                    if i == idx {
                        assert forall|n: usize| #[trigger] self.cell(i).allows(n) implies n
                            < self.line_size by {
                            assert(prev.cell(i).allows(n));
                        }
                    }
                }
            }
        }
        true
    }

    /// The first still-possible value of the open cell at `idx`, if any:
    /// the head of its option list, which on a well-formed board is the
    /// least remaining option, since lists are kept strictly ascending.
    pub fn get_first_option_list(&self, idx: usize) -> (r: Option<usize>)
        requires
            idx < self.content@.len(),
        ensures
            r matches Some(v) ==> self.cell(idx as int) is OptionList && self.cell(
                idx as int,
            ).allows(v) && v == self.cell(idx as int)->OptionList_0@[0],
            self.wf() ==> (r matches Some(v) ==> forall|n: usize|
                #[trigger] self.cell(idx as int).allows(n) ==> v <= n),
            r is None <==> (self.cell(idx as int) is Number || self.cell(
                idx as int,
            )->OptionList_0@.len() == 0),
    {
        match &self.content[idx] {
            Field::OptionList(list) => {
                if list.len() > 0 {
                    proof {
                        assert(list@.contains(list@[0]));
                        if self.wf() {
                            assert(self.cell(idx as int).wf(self.line_size));
                            assert forall|n: usize|
                                #[trigger] self.cell(idx as int).allows(n) implies list@[0]
                                <= n by {
                                let kk = choose|kk: int| 0 <= kk < list@.len() && list@[kk] == n;
                                if kk > 0 {
                                    assert(list@[0] < list@[kk]);
                                }
                            }
                        }
                    }
                    Some(list[0])
                } else {
                    None
                }
            },
            _ => None,
        }
    }

    /// The option list of the open cell at `idx`, if it is non-empty.
    pub fn get_option_list(&self, idx: usize) -> (r: Option<&Vec<usize>>)
        requires
            idx < self.content@.len(),
        ensures
            r matches Some(v) ==> self.cell(idx as int) is OptionList && v@ == self.cell(
                idx as int,
            )->OptionList_0@ && v@.len() > 0,
            r is None <==> (self.cell(idx as int) is Number || self.cell(
                idx as int,
            )->OptionList_0@.len() == 0),
    {
        match &self.content[idx] {
            Field::OptionList(list) => {
                if list.len() > 0 {
                    Some(list)
                } else {
                    None
                }
            },
            _ => None,
        }
    }

    /// Strike `val` from the option list at `idx`; a no-op on a placed
    /// number or on out-of-range arguments.
    pub fn remove_from_option_list(&mut self, idx: usize, val: usize)
        requires
            old(self).wf(),
        ensures
            final(self).wf(),
            final(self).base == old(self).base,
            final(self).line_size == old(self).line_size,
            final(self).content@.len() == old(self).content@.len(),
            forall|k: int|
                0 <= k < final(self).size() && k != idx ==> #[trigger] final(self).cell(k) == old(self).cell(k),
            (val < old(self).line_size && idx < old(self).content@.len() && old(self).cell(
                idx as int,
            ) is OptionList) ==> pruned(old(self).cell(idx as int), final(self).cell(idx as int), val),
            !(val < old(self).line_size && idx < old(self).content@.len() && old(self).cell(
                idx as int,
            ) is OptionList) ==> *final(self) == *old(self),
            forall|j: int, n: usize|
                0 <= j < final(self).size() && #[trigger] final(self).cell(j).allows(n) ==> old(self).cell(j).allows(n),
            old(self).consistent() ==> final(self).consistent(),
    {
        if self.check_valid_number(val) && self.check_valid_index(idx) {
            let filtered = match &self.content[idx] {
                Field::OptionList(v) => Some(filter_out(v, val)),
                Field::Number(_) => None,
            };
            if let Some(w) = filtered {
                let ghost prev = *self;
                self.content.set(idx, Field::OptionList(w));
                proof {
                    assert(pruned(prev.cell(idx as int), self.cell(idx as int), val));
                    assert forall|i: int| 0 <= i < self.size() implies (#[trigger] self.cell(
                        i,
                    )).wf(self.line_size) by {
                        assert(prev.cell(i).wf(prev.line_size));
                        if i == idx {
                            assert forall|n: usize| #[trigger] self.cell(i).allows(n) implies n
                                < self.line_size by {
                                assert(prev.cell(i).allows(n));
                            }
                        }
                    }
                }
            }
        }
        proof {
            if old(self).consistent() {
                lemma_consistent_shrink(*old(self), *self);
            }
        }
    }
}

impl Board {
    /// Place `val` at `idx`: succeeds exactly when the arguments are in
    /// range, the target cell is open, and no peer already holds `val`. On
    /// success the target becomes `Number(val)` and every peer loses the
    /// option `val`. On a fixed target nothing changes and the call fails;
    /// consistency is maintained by every outcome.
    pub fn set_num_index(&mut self, idx: usize, val: usize) -> (r: bool)
        requires
            old(self).wf(),
            old(self).consistent(),
        ensures
            final(self).wf(),
            final(self).consistent(),
            final(self).base == old(self).base,
            final(self).line_size == old(self).line_size,
            final(self).content@.len() == old(self).content@.len(),
            r == old(self).can_place(idx as int, val),
            r ==> final(self).placed(*old(self), idx as int, val),
            forall|j: int|
                0 <= j < final(self).size() && old(self).cell(j) is Number ==> #[trigger] final(self).cell(j) == old(self).cell(j),
            !r ==> *final(self) == *old(self),
            forall|j: int|
                0 <= j < final(self).size() && j != idx ==> (#[trigger] final(self).cell(j) == old(
                    self,
                ).cell(j)) || pruned_cell(old(self).cell(j), final(self).cell(j), val),
    {
        if self.base == 0 {
            return false;
        }
        if !self.check_valid_number(val) {
            return false;
        }
        if !self.check_valid_index(idx) {
            return false;
        }
        let target_is_number = match &self.content[idx] {
            Field::Number(_) => true,
            _ => false,
        };
        if target_is_number {
            return false;
        }
        let board_size = self.content.len();
        // scan for a fixed peer already holding `val` before any option
        // list is touched: this failure leaves the board bit for bit as it
        // was
        let mut j: usize = 0;
        while j < board_size
            invariant
                *self == *old(self),
                old(self).wf(),
                old(self).consistent(),
                j <= board_size,
                board_size == old(self).content@.len(),
                idx < board_size,
                val < old(self).line_size,
                old(self).base != 0,
                !(old(self).cell(idx as int) is Number),
                forall|k: int|
                    0 <= k < j && old(self).peers(idx as int, k) ==> !(#[trigger] old(self).cell(k)
                        == Field::Number(val)),
            decreases board_size - j,
        {
            if j != idx {
                let peer = self.is_peer(idx, j);
                if peer {
                    let conflict = match &self.content[j] {
                        Field::Number(m) => *m == val,
                        _ => false,
                    };
                    if conflict {
                        proof {
                            assert(old(self).has_number_peer(idx as int, val)) by {
                                assert(old(self).peers(idx as int, j as int));
                                assert(old(self).cell(j as int) == Field::Number(val));
                            }
                        }
                        return false;
                    }
                }
            }
            j += 1;
        }
        let mut j: usize = 0;
        while j < board_size
            invariant
                old(self).wf(),
                old(self).consistent(),
                self.wf(),
                self.base == old(self).base,
                self.line_size == old(self).line_size,
                self.content@.len() == old(self).content@.len(),
                board_size == self.content@.len(),
                j <= board_size,
                idx < board_size,
                val < self.line_size,
                self.base != 0,
                !(old(self).cell(idx as int) is Number),
                forall|k: int|
                    0 <= k < board_size && (k >= j || k == idx || !old(self).peers(idx as int, k))
                        ==> #[trigger] self.cell(k) == old(self).cell(k),
                forall|k: int|
                    0 <= k < j && k != idx && old(self).peers(idx as int, k) ==> pruned_cell(
                        old(self).cell(k),
                        #[trigger] self.cell(k),
                        val,
                    ),
                forall|k: int|
                    0 <= k < board_size && old(self).peers(idx as int, k) ==> !(#[trigger] old(
                        self,
                    ).cell(k) == Field::Number(val)),
            decreases board_size - j,
        {
            if j != idx {
                let peer = self.is_peer(idx, j);
                proof {
                    assert(self.peers(idx as int, j as int) == old(self).peers(
                        idx as int,
                        j as int,
                    ));
                }
                if peer {
                    if !self.update_field(j, val) {
                        proof {
                            // the conflict scan above already excluded a
                            // fixed peer holding `val`
                            assert(self.cell(j as int) == old(self).cell(j as int));
                            assert(old(self).cell(j as int) == Field::Number(val));
                            assert(false);
                        }
                        return false;
                    }
                }
            }
            j += 1;
        }
        let ghost prev = *self;
        self.content.set(idx, Field::Number(val));
        proof {
            assert(!old(self).has_number_peer(idx as int, val)) by {
                if old(self).has_number_peer(idx as int, val) {
                    let k = choose|k: int|
                        0 <= k < old(self).size() && old(self).peers(idx as int, k) && old(self).cell(k) == Field::Number(val);
                    assert(!(old(self).cell(k) == Field::Number(val)));
                }
            }
            assert(old(self).can_place(idx as int, val));
            assert(self.placed(*old(self), idx as int, val)) by {
                assert(self.cell(idx as int) == Field::Number(val));
                assert forall|j: int|
                    0 <= j < self.size() && j != idx && old(self).peers(
                        idx as int,
                        j,
                    ) implies pruned_cell(old(self).cell(j), #[trigger] self.cell(j), val) by {
                    assert(self.cell(j) == prev.cell(j));
                    assert(pruned_cell(old(self).cell(j), prev.cell(j), val));
                }
                assert forall|j: int|
                    0 <= j < self.size() && j != idx && !old(self).peers(idx as int, j) implies (
                #[trigger] self.cell(j)) == old(self).cell(j) by {
                    assert(self.cell(j) == prev.cell(j));
                }
            }
            assert forall|i: int| 0 <= i < self.size() implies (#[trigger] self.cell(i)).wf(
                self.line_size,
            ) by {
                assert(prev.cell(i).wf(prev.line_size));
                if i == idx {
                    assert forall|n: usize| #[trigger] self.cell(i).allows(n) implies n
                        < self.line_size by {}
                }
            }
            assert forall|a: int, b: int|
                0 <= a < self.size() && 0 <= b < self.size() && #[trigger] self.peers(a, b)
                    && self.cell(a) is Number implies !(#[trigger] self.cell(b)).allows(
                self.cell(a)->Number_0,
            ) by {
                assert(old(self).peers(a, b));
                let v = self.cell(a)->Number_0;
                if a == idx {
                    assert(v == val);
                    if old(self).cell(b) is Number {
                        assert(self.cell(b) == old(self).cell(b));
                        assert(!(old(self).cell(b) == Field::Number(val)));
                        assert(!self.cell(b).allows(val));
                    } else {
                        assert(pruned_cell(old(self).cell(b), self.cell(b), val));
                        assert(!self.cell(b).allows(val));
                    }
                } else {
                    assert(old(self).cell(a) is Number && old(self).cell(a)->Number_0 == v) by {
                        if old(self).peers(idx as int, a) {
                            assert(pruned_cell(old(self).cell(a), self.cell(a), val));
                        } else {
                            assert(self.cell(a) == old(self).cell(a));
                        }
                    }
                    assert(!old(self).cell(b).allows(v));
                    if b == idx {
                        assert(old(self).peers(idx as int, a));
                        assert(!(old(self).cell(a) == Field::Number(val)));
                        assert(v != val);
                        assert(!self.cell(b).allows(v));
                    } else {
                        if old(self).peers(idx as int, b) {
                            assert(pruned_cell(old(self).cell(b), self.cell(b), val));
                        } else {
                            assert(self.cell(b) == old(self).cell(b));
                        }
                    }
                }
            }
        }
        true
    }
}

} // verus!
