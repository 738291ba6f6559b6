use vstd::prelude::*;

use crate::board::Board;
use crate::board::Field;
use crate::board::peers_at;
use vstd::string::StringSliceAdditionalSpecFns;

verus! {

/// The numeric value of an ASCII digit byte.
pub open spec fn digit_val(b: u8) -> Option<usize> {
    if 48 <= b <= 57 {
        Some((b - 48) as usize)
    } else {
        None
    }
}

/// The base and field width (bytes per cell) that a text of `len` bytes can
/// encode: the first `i` in 2..=9 with `i^4 == len` (one byte per cell) or
/// `2 * i^4 == len` (two bytes per cell, so values above 9 fit).
pub open spec fn base_for_len(len: int) -> Option<(usize, usize)> {
    if len == 16 {
        Some((2, 1))
    } else if len == 32 {
        Some((2, 2))
    } else if len == 81 {
        Some((3, 1))
    } else if len == 162 {
        Some((3, 2))
    } else if len == 256 {
        Some((4, 1))
    } else if len == 512 {
        Some((4, 2))
    } else if len == 625 {
        Some((5, 1))
    } else if len == 1250 {
        Some((5, 2))
    } else if len == 1296 {
        Some((6, 1))
    } else if len == 2592 {
        Some((6, 2))
    } else if len == 2401 {
        Some((7, 1))
    } else if len == 4802 {
        Some((7, 2))
    } else if len == 4096 {
        Some((8, 1))
    } else if len == 8192 {
        Some((8, 2))
    } else if len == 6561 {
        Some((9, 1))
    } else if len == 13122 {
        Some((9, 2))
    } else {
        None
    }
}

/// The number written in field `j` of `s`, or `None` when the field does
/// not consist of digits.
pub open spec fn field_val(s: Seq<u8>, digits: int, j: int) -> Option<usize> {
    if digits == 1 {
        digit_val(s[j])
    } else {
        match (digit_val(s[2 * j]), digit_val(s[2 * j + 1])) {
            (Some(a), Some(b)) => Some((10 * a + b) as usize),
            _ => None,
        }
    }
}

/// Every field of `s` that parses lies in `1..=ls`.
pub open spec fn givens_in_range(s: Seq<u8>, digits: int, size: int, ls: usize) -> bool {
    forall|j: int|
        0 <= j < size ==> (match #[trigger] field_val(s, digits, j) {
            Some(d) => 1 <= d <= ls,
            None => true,
        })
}

/// No two fields of `s` in one line, column or block parse to the same
/// value.
pub open spec fn givens_consistent(
    s: Seq<u8>,
    digits: int,
    base: usize,
    ls: usize,
    size: int,
) -> bool {
    forall|j1: int, j2: int|
        #![trigger field_val(s, digits, j1), field_val(s, digits, j2)]
        (0 <= j1 < size && 0 <= j2 < size && peers_at(base as int, ls as int, j1, j2) && field_val(
            s,
            digits,
            j1,
        ) is Some && field_val(s, digits, j2) is Some) ==> field_val(s, digits, j1)->Some_0
            != field_val(s, digits, j2)->Some_0
}

/// A field of `s` that is a peer of cell `j` parses to `n + 1`.
pub open spec fn has_peer_given(s: Seq<u8>, digits: int, b: Board, j: int, n: usize) -> bool {
    exists|j2: int|
        0 <= j2 < b.size() && j2 != j && #[trigger] peers_at(
            b.base as int,
            b.line_size as int,
            j,
            j2,
        ) && field_val(s, digits, j2) == Some((n + 1) as usize)
}

/// The board state that a successful read of `s` leaves: every parsed field
/// is placed 1-indexed, every other cell is open and admits exactly the
/// in-range values that no peer field claims.
pub open spec fn parses_to(s: Seq<u8>, digits: int, b: Board) -> bool {
    forall|j: int|
        0 <= j < b.size() ==> (match #[trigger] field_val(s, digits, j) {
            Some(d) => b.cell(j) == Field::Number((d - 1) as usize),
            None => b.cell(j) is OptionList && (forall|n: usize|
                (#[trigger] b.cell(j).allows(n)) <==> (n < b.line_size && !has_peer_given(
                    s,
                    digits,
                    b,
                    j,
                    n,
                ))),
        })
}

/// The one or two bytes that render a cell: the 1-indexed number, zero
/// padded to the field width, or dot padding for an open cell.
pub open spec fn cell_render(f: Field, width: int) -> Seq<u8> {
    match f {
        Field::Number(n) => if width == 1 {
            seq![(48 + n + 1) as u8]
        } else {
            seq![(48 + (n + 1) / 10) as u8, (48 + (n + 1) % 10) as u8]
        },
        Field::OptionList(_) => if width == 1 {
            seq![46u8]
        } else {
            seq![46u8, 46u8]
        },
    }
}

/// The separator bytes printed after cell `i` in pretty mode: a dashed rule
/// after a block row, a newline after a line, a bar after a block column.
pub open spec fn sep_render(base: int, ls: int, width: int, i: int) -> Seq<u8> {
    if (i / ls) % base == base - 1 && i % ls == ls - 1 {
        seq![10u8] + Seq::new((width * ls + base - 1) as nat, |k: int| 45u8) + seq![10u8]
    } else if i % ls == ls - 1 {
        seq![10u8]
    } else if i % base == base - 1 {
        seq![124u8]
    } else {
        Seq::empty()
    }
}

/// The text of the first `i` cells of `b`.
pub open spec fn render_upto(b: Board, pretty: bool, width: int, i: int) -> Seq<u8>
    decreases i,
{
    if i <= 0 {
        Seq::empty()
    } else {
        render_upto(b, pretty, width, i - 1) + cell_render(b.cell(i - 1), width) + (if pretty {
            sep_render(b.base as int, b.line_size as int, width, i - 1)
        } else {
            Seq::empty()
        })
    }
}

/// The field width `print` uses: two bytes per cell once values can exceed
/// one digit.
pub open spec fn render_width(b: Board) -> int {
    if b.line_size > 9 {
        2
    } else {
        1
    }
}

/// The full text that `print` produces: all cells, and in compact mode a
/// trailing newline.
pub open spec fn render(b: Board, pretty: bool) -> Seq<u8> {
    render_upto(b, pretty, render_width(b), b.size()) + (if !pretty {
        seq![10u8]
    } else {
        Seq::empty()
    })
}

/// Relies on String::from_utf8: bytes below 128 are valid UTF-8 and decode
/// to one character per byte, each the same code point.
#[verifier::external_body]
fn string_from_ascii(bytes: Vec<u8>) -> (r: String)
    requires
        forall|k: int| 0 <= k < bytes@.len() ==> bytes@[k] < 128,
    ensures
        r@.len() == bytes@.len(),
        forall|k: int| 0 <= k < bytes@.len() ==> r@[k] == bytes@[k] as char,
{
    match String::from_utf8(bytes) {
        Ok(s) => s,
        Err(_) => String::new(),
    }
}

/// The base and field width encoded by a byte length.
fn base_digits_for_len(len: usize) -> (r: Option<(usize, usize)>)
    ensures
        r == base_for_len(len as int),
        match r {
            Some(p) => 2 <= p.0 <= 9 && 1 <= p.1 <= 2 && len == p.1 * ((p.0 * p.0) * (p.0 * p.0)),
            None => true,
        },
{
    proof {
        assert(((2 * 2) * (2 * 2) == 16) && ((3 * 3) * (3 * 3) == 81) && ((4 * 4) * (4 * 4)
            == 256) && ((5 * 5) * (5 * 5) == 625) && ((6 * 6) * (6 * 6) == 1296) && ((7 * 7) * (7
            * 7) == 2401) && ((8 * 8) * (8 * 8) == 4096) && ((9 * 9) * (9 * 9) == 6561))
            by (nonlinear_arith);
    }
    if len == 16 {
        Some((2, 1))
    } else if len == 32 {
        Some((2, 2))
    } else if len == 81 {
        Some((3, 1))
    } else if len == 162 {
        Some((3, 2))
    } else if len == 256 {
        Some((4, 1))
    } else if len == 512 {
        Some((4, 2))
    } else if len == 625 {
        Some((5, 1))
    } else if len == 1250 {
        Some((5, 2))
    } else if len == 1296 {
        Some((6, 1))
    } else if len == 2592 {
        Some((6, 2))
    } else if len == 2401 {
        Some((7, 1))
    } else if len == 4802 {
        Some((7, 2))
    } else if len == 4096 {
        Some((8, 1))
    } else if len == 8192 {
        Some((8, 2))
    } else if len == 6561 {
        Some((9, 1))
    } else if len == 13122 {
        Some((9, 2))
    } else {
        None
    }
}

/// The digit byte at `p`, parsed.
fn parse_digit(b: u8) -> (r: Option<usize>)
    ensures
        r == digit_val(b),
{
    if b >= 48 && b <= 57 {
        Some((b - 48) as usize)
    } else {
        None
    }
}

impl Board {
    /// Read a board from one line of text: the base is inferred from the
    /// byte length, then every parsable fixed-width field is placed as a
    /// 1-indexed given, and a field that does not parse leaves an open
    /// cell. A doubled length is always read as two-byte fields, also for
    /// orders 2 and 3 (lengths 32 and 162), whose single-byte form is the
    /// canonical one. Returns false, with the board untouched, when the length
    /// matches no base; returns false when a given is out of range or two
    /// given peers are equal.
    pub fn read(&mut self, input: &str) -> (r: bool)
        ensures
            ({
                let s = input.spec_bytes();
                match base_for_len(s.len() as int) {
                    None => !r && *final(self) == *old(self),
                    Some((base, digits)) => {
                        &&& final(self).wf()
                        &&& final(self).consistent()
                        &&& final(self).base == base
                        &&& final(self).line_size == base * base
                        &&& final(self).content@.len() == final(self).line_size * final(self).line_size
                        &&& (r <==> givens_in_range(
                            s,
                            digits as int,
                            final(self).size(),
                            final(self).line_size,
                        ) && givens_consistent(
                            s,
                            digits as int,
                            base,
                            final(self).line_size,
                            final(self).size(),
                        ))
                        &&& (r ==> parses_to(s, digits as int, *final(self)))
                    },
                }
            }),
    {
        let bytes = input.as_bytes();
        let ghost s = input.spec_bytes();
        let len = bytes.len();
        let found = base_digits_for_len(len);
        let (base, digits) = match found {
            Some(p) => p,
            None => {
                return false;
            },
        };
        self.reset(base);
        let ls = self.line_size;
        let board_size = self.content.len();
        proof {
            assert(ls <= 81 && ls * ls <= 6561) by (nonlinear_arith)
                requires
                    ls == base * base,
                    base <= 9,
            ;
            assert(s.len() == digits * board_size);
        }
        let mut i: usize = 0;
        while i < board_size
            invariant
                self.wf(),
                self.consistent(),
                self.base == base,
                self.line_size == ls,
                ls == base * base,
                2 <= base <= 9,
                ls <= 81,
                1 <= digits <= 2,
                self.content@.len() == board_size,
                board_size == ls * ls,
                board_size <= 6561,
                bytes@ == s,
                s == input.spec_bytes(),
                s.len() == digits * board_size,
                base_for_len(s.len() as int) == Some((base, digits)),
                i <= board_size,
                forall|j: int|
                    0 <= j < i ==> (match #[trigger] field_val(s, digits as int, j) {
                        Some(d) => self.cell(j) == Field::Number((d - 1) as usize) && 1 <= d <= ls,
                        None => true,
                    }),
                forall|j: int|
                    0 <= j < board_size && !(j < i && field_val(s, digits as int, j) is Some) ==> (
                    #[trigger] self.cell(j)) is OptionList && (forall|n: usize|
                        (#[trigger] self.cell(j).allows(n)) <==> (n < ls && !(exists|j2: int|
                            0 <= j2 < i && j2 != j && #[trigger] peers_at(
                                base as int,
                                ls as int,
                                j,
                                j2,
                            ) && field_val(s, digits as int, j2) == Some((n + 1) as usize)))),
                forall|j: int|
                    0 <= j < board_size && (#[trigger] self.cell(j)) is Number ==> j < i
                        && field_val(s, digits as int, j) == Some(
                        (self.cell(j)->Number_0 + 1) as usize,
                    ),
            decreases board_size - i,
        {
            let fv: Option<usize> = if digits == 1 {
                parse_digit(bytes[i])
            } else {
                let a = parse_digit(bytes[2 * i]);
                let b = parse_digit(bytes[2 * i + 1]);
                match (a, b) {
                    (Some(x), Some(y)) => Some(10 * x + y),
                    _ => None,
                }
            };
            proof {
                assert(fv == field_val(s, digits as int, i as int));
            }
            if let Some(num) = fv {
                if num == 0 {
                    proof {
                        assert(!givens_in_range(s, digits as int, board_size as int, ls)) by {
                            assert(field_val(s, digits as int, i as int) == Some(0usize));
                        }
                    }
                    return false;
                }
                let ghost prev = *self;
                let ok = self.set_num_index(i, num - 1);
                if !ok {
                    proof {
                        if num - 1 >= ls {
                            assert(!givens_in_range(s, digits as int, board_size as int, ls)) by {
                                assert(field_val(s, digits as int, i as int) == Some(num));
                            }
                        } else {
                            assert(prev.has_number_peer(i as int, (num - 1) as usize));
                            let j2 = choose|j2: int|
                                0 <= j2 < prev.size() && prev.peers(i as int, j2) && prev.cell(j2)
                                    == Field::Number((num - 1) as usize);
                            assert(field_val(s, digits as int, j2) == Some(num));
                            assert(!givens_consistent(
                                s,
                                digits as int,
                                base,
                                ls,
                                board_size as int,
                            )) by {
                                assert(peers_at(base as int, ls as int, j2, i as int));
                                assert(field_val(s, digits as int, i as int) == Some(num));
                            }
                        }
                    }
                    return false;
                }
                proof {
                    lemma_read_step(prev, *self, s, digits as int, i as int, num, base, ls);
                }
            } else {
                proof {
                    assert forall|j: int|
                        0 <= j < board_size && !(j < i + 1 && field_val(s, digits as int, j)
                            is Some) implies (#[trigger] self.cell(j)) is OptionList && (forall|
                        n: usize,
                    |
                        (#[trigger] self.cell(j).allows(n)) <==> (n < ls && !(exists|j2: int|
                            0 <= j2 < i + 1 && j2 != j && #[trigger] peers_at(
                                base as int,
                                ls as int,
                                j,
                                j2,
                            ) && field_val(s, digits as int, j2) == Some((n + 1) as usize)))) by {
                        assert forall|n: usize| (#[trigger] self.cell(j).allows(n)) <==> (n < ls
                            && !(exists|j2: int|
                            0 <= j2 < i + 1 && j2 != j && #[trigger] peers_at(
                                base as int,
                                ls as int,
                                j,
                                j2,
                            ) && field_val(s, digits as int, j2) == Some((n + 1) as usize))) by {
                            assert forall|j2: int|
                                0 <= j2 < i + 1 && j2 != j && #[trigger] peers_at(
                                    base as int,
                                    ls as int,
                                    j,
                                    j2,
                                ) && field_val(s, digits as int, j2) == Some(
                                    (n + 1) as usize,
                                ) implies j2 < i by {
                                if j2 == i {
                                    assert(field_val(s, digits as int, i as int) is None);
                                }
                            }
                        }
                    }
                }
            }
            i += 1;
        }
        proof {
            assert(givens_in_range(s, digits as int, board_size as int, ls));
            assert forall|j1: int, j2: int|
                #![trigger field_val(s, digits as int, j1), field_val(s, digits as int, j2)]
                (0 <= j1 < board_size && 0 <= j2 < board_size && peers_at(
                    base as int,
                    ls as int,
                    j1,
                    j2,
                ) && field_val(s, digits as int, j1) is Some && field_val(s, digits as int, j2)
                    is Some) implies field_val(s, digits as int, j1)->Some_0 != field_val(
                s,
                digits as int,
                j2,
            )->Some_0 by {
                let d1 = field_val(s, digits as int, j1)->Some_0;
                let d2 = field_val(s, digits as int, j2)->Some_0;
                assert(self.cell(j1) == Field::Number((d1 - 1) as usize));
                assert(self.cell(j2) == Field::Number((d2 - 1) as usize));
                assert(self.peers(j1, j2));
                if d1 == d2 {
                    assert(self.cell(j2).allows((d1 - 1) as usize));
                }
            }
            assert(parses_to(s, digits as int, *self)) by {
                assert forall|j: int| 0 <= j < self.size() implies (match #[trigger] field_val(
                    s,
                    digits as int,
                    j,
                ) {
                    Some(d) => self.cell(j) == Field::Number((d - 1) as usize),
                    None => self.cell(j) is OptionList && (forall|n: usize|
                        (#[trigger] self.cell(j).allows(n)) <==> (n < self.line_size
                            && !has_peer_given(s, digits as int, *self, j, n))),
                }) by {
                    if field_val(s, digits as int, j) is None {
                        assert forall|n: usize| (#[trigger] self.cell(j).allows(n)) <==> (n
                            < self.line_size && !has_peer_given(s, digits as int, *self, j, n)) by {
                            assert((exists|j2: int|
                                0 <= j2 < board_size && j2 != j && #[trigger] peers_at(
                                    base as int,
                                    ls as int,
                                    j,
                                    j2,
                                ) && field_val(s, digits as int, j2) == Some((n + 1) as usize))
                                == has_peer_given(s, digits as int, *self, j, n));
                        }
                    }
                }
            }
        }
        true
    }
}

impl Board {
    /// Render the board as text: each cell as its 1-indexed number or dot
    /// padding, one or two bytes wide; pretty mode inserts bars between
    /// blocks, newlines between lines and dashed rules between block rows,
    /// compact mode appends one newline. Every character is ASCII.
    #[verifier::rlimit(100)]
    pub fn print(&self, pretty_print: bool) -> (r: String)
        requires
            self.wf(),
        ensures
            r@.len() == render(*self, pretty_print).len(),
            forall|k: int|
                0 <= k < r@.len() ==> r@[k] == render(*self, pretty_print)[k] as char,
            forall|k: int| 0 <= k < render(*self, pretty_print).len() ==> render(*self, pretty_print)[k] < 128,
    {
        let ls = self.line_size;
        let base = self.base;
        let width: usize = if ls > 9 {
            2
        } else {
            1
        };
        let mut out: Vec<u8> = Vec::new();
        let n_cells = self.content.len();
        proof {
            crate::board::lemma_dims(*self);
        }
        let mut i: usize = 0;
        while i < n_cells
            invariant
                self.wf(),
                ls == self.line_size,
                base == self.base,
                n_cells == self.content@.len(),
                n_cells <= 6561,
                ls <= 81,
                width as int == render_width(*self),
                i <= n_cells,
                out@ == render_upto(*self, pretty_print, width as int, i as int),
                forall|k: int| 0 <= k < out@.len() ==> out@[k] < 128,
            decreases n_cells - i,
        {
            proof {
                assert(base >= 1 && ls >= 1) by (nonlinear_arith)
                    requires
                        ls == base * base,
                        (ls * ls) > i >= 0,
                        n_cells == ls * ls,
                ;
            }
            let ghost out_cell = out@ + cell_render(self.cell(i as int), width as int);
            match &self.content[i] {
                Field::Number(n) => {
                    proof {
                        assert(self.cell(i as int).allows(*n));
                        assert(*n < ls);
                    }
                    let v = *n + 1;
                    if width == 1 {
                        out.push(48 + (v as u8));
                    } else {
                        proof {
                            assert(v / 10 <= 8 && v % 10 <= 9 && v == 10 * (v / 10) + v % 10)
                                by (nonlinear_arith)
                                requires
                                    1 <= v <= 82,
                            ;
                        }
                        out.push(48 + ((v / 10) as u8));
                        out.push(48 + ((v % 10) as u8));
                    }
                },
                Field::OptionList(_) => {
                    out.push(46);
                    if width == 2 {
                        out.push(46);
                    }
                },
            }
            proof {
                assert(out@ =~= out_cell);
            }
            if pretty_print {
                if ((i / ls) % base == base - 1) && (i % ls == ls - 1) {
                    out.push(10);
                    let dashes = width * ls + base - 1;
                    let ghost out_dash_start = out@;
                    let mut d: usize = 0;
                    while d < dashes
                        invariant
                            d <= dashes,
                            out@ == out_dash_start + Seq::new(d as nat, |k: int| 45u8),
                        decreases dashes - d,
                    {
                        out.push(45);
                        proof {
                            assert(out@ =~= out_dash_start + Seq::new((d + 1) as nat, |k: int| 45u8));
                        }
                        d += 1;
                    }
                    out.push(10);
                    proof {
                        assert(out@ =~= out_cell + sep_render(
                            base as int,
                            ls as int,
                            width as int,
                            i as int,
                        ));
                    }
                } else if i % ls == ls - 1 {
                    out.push(10);
                } else if i % base == base - 1 {
                    out.push(124);
                }
            }
            proof {
                assert(out@ =~= render_upto(*self, pretty_print, width as int, i as int + 1));
            }
            i += 1;
        }
        if !pretty_print {
            out.push(10);
        }
        proof {
            assert(out@ =~= render(*self, pretty_print));
        }
        string_from_ascii(out)
    }
}

/// One parse step: placing the 1-indexed given of field `i` keeps the loop
/// invariant of `read`.
proof fn lemma_read_step(
    prev: Board,
    cur: Board,
    s: Seq<u8>,
    digits: int,
    i: int,
    num: usize,
    base: usize,
    ls: usize,
)
    requires
        prev.wf(),
        prev.base == base,
        prev.line_size == ls,
        ls == base * base,
        ls <= 81,
        0 <= i < prev.size(),
        field_val(s, digits, i) == Some(num),
        1 <= num,
        ((num - 1) as usize) < ls,
        cur.placed(prev, i, (num - 1) as usize),
        cur.base == base,
        cur.line_size == ls,
        cur.content@.len() == prev.content@.len(),
        forall|j: int|
            0 <= j < i ==> (match #[trigger] field_val(s, digits, j) {
                Some(d) => prev.cell(j) == Field::Number((d - 1) as usize) && 1 <= d <= ls,
                None => true,
            }),
        forall|j: int|
            0 <= j < prev.size() && !(j < i && field_val(s, digits, j) is Some) ==> (
            #[trigger] prev.cell(j)) is OptionList && (forall|n: usize|
                (#[trigger] prev.cell(j).allows(n)) <==> (n < ls && !(exists|j2: int|
                    0 <= j2 < i && j2 != j && #[trigger] peers_at(base as int, ls as int, j, j2)
                        && field_val(s, digits, j2) == Some((n + 1) as usize)))),
        forall|j: int|
            0 <= j < prev.size() && (#[trigger] prev.cell(j)) is Number ==> j < i && field_val(
                s,
                digits,
                j,
            ) == Some((prev.cell(j)->Number_0 + 1) as usize),
    ensures
        forall|j: int|
            0 <= j < i + 1 ==> (match #[trigger] field_val(s, digits, j) {
                Some(d) => cur.cell(j) == Field::Number((d - 1) as usize) && 1 <= d <= ls,
                None => true,
            }),
        forall|j: int|
            0 <= j < cur.size() && !(j < i + 1 && field_val(s, digits, j) is Some) ==> (
            #[trigger] cur.cell(j)) is OptionList && (forall|n: usize|
                (#[trigger] cur.cell(j).allows(n)) <==> (n < ls && !(exists|j2: int|
                    0 <= j2 < i + 1 && j2 != j && #[trigger] peers_at(base as int, ls as int, j, j2)
                        && field_val(s, digits, j2) == Some((n + 1) as usize)))),
        forall|j: int|
            0 <= j < cur.size() && (#[trigger] cur.cell(j)) is Number ==> j < i + 1 && field_val(
                s,
                digits,
                j,
            ) == Some((cur.cell(j)->Number_0 + 1) as usize),
{
    let val = (num - 1) as usize;
    assert forall|j: int| 0 <= j < i + 1 implies (match #[trigger] field_val(s, digits, j) {
        Some(d) => cur.cell(j) == Field::Number((d - 1) as usize) && 1 <= d <= ls,
        None => true,
    }) by {
        if j < i {
            if field_val(s, digits, j) is Some {
                assert(prev.cell(j) is Number);
                assert(cur.cell(j) == prev.cell(j));
            }
        } else {
            assert(cur.cell(i) == Field::Number(val));
            assert(num <= ls) by {
                assert(val < ls);
            }
        }
    }
    assert forall|j: int|
        0 <= j < cur.size() && !(j < i + 1 && field_val(s, digits, j) is Some) implies (
    #[trigger] cur.cell(j)) is OptionList && (forall|n: usize|
        (#[trigger] cur.cell(j).allows(n)) <==> (n < ls && !(exists|j2: int|
            0 <= j2 < i + 1 && j2 != j && #[trigger] peers_at(base as int, ls as int, j, j2)
                && field_val(s, digits, j2) == Some((n + 1) as usize)))) by {
        assert(j != i);
        assert(prev.cell(j) is OptionList);
        if prev.peers(i, j) {
            assert(crate::board::pruned_cell(prev.cell(j), cur.cell(j), val));
        } else {
            assert(cur.cell(j) == prev.cell(j));
        }
        assert(cur.cell(j) is OptionList);
        assert forall|n: usize| (#[trigger] cur.cell(j).allows(n)) <==> (n < ls && !(exists|
            j2: int,
        |
            0 <= j2 < i + 1 && j2 != j && #[trigger] peers_at(base as int, ls as int, j, j2)
                && field_val(s, digits, j2) == Some((n + 1) as usize))) by {
            let old_ex = exists|j2: int|
                0 <= j2 < i && j2 != j && #[trigger] peers_at(base as int, ls as int, j, j2)
                    && field_val(s, digits, j2) == Some((n + 1) as usize);
            let new_ex = exists|j2: int|
                0 <= j2 < i + 1 && j2 != j && #[trigger] peers_at(base as int, ls as int, j, j2)
                    && field_val(s, digits, j2) == Some((n + 1) as usize);
            assert(prev.cell(j).allows(n) <==> (n < ls && !old_ex));
            if prev.peers(i, j) {
                assert(cur.cell(j).allows(n) <==> (prev.cell(j).allows(n) && n != val));
                if n < ls {
                    if new_ex && !old_ex {
                        let j2 = choose|j2: int|
                            0 <= j2 < i + 1 && j2 != j && #[trigger] peers_at(
                                base as int,
                                ls as int,
                                j,
                                j2,
                            ) && field_val(s, digits, j2) == Some((n + 1) as usize);
                        assert(j2 == i);
                        assert((n + 1) as usize == num);
                        assert(n == val);
                    }
                    if n == val {
                        assert(peers_at(base as int, ls as int, j, i));
                        assert(field_val(s, digits, i) == Some((n + 1) as usize)) by {
                            assert((n + 1) as usize == num);
                        }
                        assert(new_ex);
                    }
                    if old_ex {
                        assert(new_ex);
                    }
                } else {
                    assert(!cur.cell(j).allows(n)) by {
                        if cur.cell(j).allows(n) {
                            assert(prev.cell(j).allows(n));
                            assert(prev.cell(j).wf(ls));
                        }
                    }
                }
            } else {
                assert(cur.cell(j) == prev.cell(j));
                assert(!peers_at(base as int, ls as int, j, i));
                if new_ex && !old_ex {
                    let j2 = choose|j2: int|
                        0 <= j2 < i + 1 && j2 != j && #[trigger] peers_at(
                            base as int,
                            ls as int,
                            j,
                            j2,
                        ) && field_val(s, digits, j2) == Some((n + 1) as usize);
                    assert(j2 == i);
                }
                if old_ex {
                    assert(new_ex);
                }
            }
        }
    }
    assert forall|j: int|
        0 <= j < cur.size() && (#[trigger] cur.cell(j)) is Number implies j < i + 1 && field_val(
            s,
            digits,
            j,
        ) == Some((cur.cell(j)->Number_0 + 1) as usize) by {
        if j != i {
            if prev.peers(i, j) {
                assert(crate::board::pruned_cell(prev.cell(j), cur.cell(j), val));
                assert(prev.cell(j) is Number ==> cur.cell(j) == prev.cell(j));
                if !(prev.cell(j) is Number) {
                    assert(cur.cell(j) is OptionList);
                }
            } else {
                assert(cur.cell(j) == prev.cell(j));
            }
            assert(prev.cell(j) is Number);
        } else {
            assert(cur.cell(i) == Field::Number(val));
            assert((val + 1) as usize == num);
        }
    }
}

} // verus!
