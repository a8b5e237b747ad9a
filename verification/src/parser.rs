//! The formula parser: text to concrete syntax tree.
//!
//! The grammar covers numbers, A1-style cell references with an optional
//! sheet prefix, ranges, function calls, the four arithmetic operators and
//! parentheses.  The parser is a recursive descent over bytes; its whole
//! behaviour is the spec-level descent below, which the executable code is
//! proved to compute.

use crate::ast::{BinOp, Cst, CstList};
use vstd::prelude::*;

verus! {

/// The spec-level mirror of a parsed tree: names as sequences.
pub enum GCst {
    Number(int),
    CellRef { sheet: Option<Seq<u8>>, col: int, row: int },
    Range { sheet: Option<Seq<u8>>, start_col: int, start_row: int, end_col: int, end_row: int },
    Func { name: Seq<u8>, args: GList },
    Op { op: BinOp, lhs: Box<GCst>, rhs: Box<GCst> },
}

/// The spec-level mirror of an argument list.
pub enum GList {
    Nil,
    Cons(Box<GCst>, Box<GList>),
}

/// What a concrete tree says, at the spec level.
pub open spec fn view_cst(c: Cst) -> GCst
    decreases c,
{
    match c {
        Cst::Number(n) => GCst::Number(n as int),
        Cst::CellRef { sheet, col, row } => GCst::CellRef {
            sheet: match sheet {
                Some(v) => Some(v@),
                None => None,
            },
            col: col as int,
            row: row as int,
        },
        Cst::Range { sheet, start_col, start_row, end_col, end_row } => GCst::Range {
            sheet: match sheet {
                Some(v) => Some(v@),
                None => None,
            },
            start_col: start_col as int,
            start_row: start_row as int,
            end_col: end_col as int,
            end_row: end_row as int,
        },
        Cst::Func { name, args } => GCst::Func { name: name@, args: view_cst_list(args) },
        Cst::Op { op, lhs, rhs } => GCst::Op {
            op,
            lhs: Box::new(view_cst(*lhs)),
            rhs: Box::new(view_cst(*rhs)),
        },
    }
}

/// What a concrete argument list says, at the spec level.
pub open spec fn view_cst_list(l: CstList) -> GList
    decreases l,
{
    match l {
        CstList::Nil => GList::Nil,
        CstList::Cons(h, t) => GList::Cons(
            Box::new(view_cst(*h)),
            Box::new(view_cst_list(*t)),
        ),
    }
}

pub open spec fn is_digit(b: u8) -> bool {
    48 <= b <= 57
}

pub open spec fn is_letter(b: u8) -> bool {
    (65 <= b <= 90) || (97 <= b <= 122)
}

pub open spec fn is_ident_char(b: u8) -> bool {
    is_letter(b) || is_digit(b) || b == 95
}

/// The first position at or after `i` that is not a space.
pub open spec fn sp_ws(s: Seq<u8>, i: int) -> int
    decreases s.len() - i,
{
    if 0 <= i < s.len() && s[i] == 32 {
        sp_ws(s, i + 1)
    } else {
        i
    }
}

/// Reading a run of digits into an accumulator; numbers above the cap are
/// rejected rather than wrapped.
pub open spec fn sp_num(s: Seq<u8>, i: int, acc: int) -> Option<(int, int)>
    decreases s.len() - i,
{
    if 0 <= i < s.len() && is_digit(s[i]) {
        if acc > 9999999 {
            None
        } else {
            sp_num(s, i + 1, acc * 10 + (s[i] - 48))
        }
    } else {
        Some((acc, i))
    }
}

/// An unsigned integer literal starting at `i`.
pub open spec fn sp_u32(s: Seq<u8>, i: int) -> Option<(int, int)> {
    if 0 <= i < s.len() && is_digit(s[i]) {
        sp_num(s, i, 0)
    } else {
        None
    }
}

/// The end of the identifier run starting at `i`.
pub open spec fn sp_ident_end(s: Seq<u8>, i: int) -> int
    decreases s.len() - i,
{
    if 0 <= i < s.len() && is_ident_char(s[i]) {
        sp_ident_end(s, i + 1)
    } else {
        i
    }
}

/// Splitting an identifier into an A1 reference: leading letters as a
/// bijective base-26 column, trailing digits as a one-based row.
pub open spec fn sp_letters_end(w: Seq<u8>, i: int) -> int
    decreases w.len() - i,
{
    if 0 <= i < w.len() && is_letter(w[i]) {
        sp_letters_end(w, i + 1)
    } else {
        i
    }
}

/// The upper-cased letter value 0..25.
pub open spec fn letter_val(b: u8) -> int {
    if b >= 97 {
        b - 97
    } else {
        b - 65
    }
}

/// The zero-based column of a letter run, bijective base 26.
pub open spec fn sp_col_val(w: Seq<u8>, i: int, end: int, acc: int) -> int
    decreases end - i,
{
    if i < end {
        sp_col_val(w, i + 1, end, acc * 26 + letter_val(w[i]) + 1)
    } else {
        acc - 1
    }
}

/// An identifier read as an A1 cell address, if it has that shape and is on
/// the grid.
pub open spec fn sp_addr_of_ident(w: Seq<u8>) -> Option<(int, int)> {
    let le = sp_letters_end(w, 0);
    if 1 <= le <= 3 && le < w.len() && (forall|j: int| le <= j < w.len() ==> is_digit(#[trigger] w[j]))
        && w.len() - le <= 7 {
        let col = sp_col_val(w, 0, le, 0);
        let row = sp_digits_val(w, le, w.len() as int, 0);
        if 1 <= row <= crate::navigator::MAX_ROWS && 0 <= col < crate::navigator::MAX_COLS {
            Some((col, row - 1))
        } else {
            None
        }
    } else {
        None
    }
}

/// The value of a digit run.
pub open spec fn sp_digits_val(w: Seq<u8>, i: int, end: int, acc: int) -> int
    decreases end - i,
{
    if i < end {
        sp_digits_val(w, i + 1, end, acc * 10 + (w[i] - 48))
    } else {
        acc
    }
}

/// A factor: a number, a parenthesised expression, a function call, or a
/// (possibly sheet-qualified, possibly ranged) cell reference.
pub open spec fn sp_factor(s: Seq<u8>, i0: int, fuel: nat) -> Option<(GCst, int)>
    decreases fuel,
{
    if fuel == 0 {
        None
    } else {
        let i = sp_ws(s, i0);
        if 0 <= i < s.len() && is_digit(s[i]) {
            match sp_u32(s, i) {
                Some((v, j)) => Some((GCst::Number(v), j)),
                None => None,
            }
        } else if 0 <= i < s.len() && s[i] == 40 {
            match sp_expr(s, i + 1, (fuel - 1) as nat) {
                Some((a, j)) => {
                    let j2 = sp_ws(s, j);
                    if 0 <= j2 < s.len() && s[j2] == 41 {
                        Some((a, j2 + 1))
                    } else {
                        None
                    }
                },
                None => None,
            }
        } else if 0 <= i < s.len() && is_letter(s[i]) {
            let e = sp_ident_end(s, i);
            let w = s.subrange(i, e);
            if 0 <= e < s.len() && s[e] == 40 {
                let j2 = sp_ws(s, e + 1);
                if 0 <= j2 < s.len() && s[j2] == 41 {
                    Some((GCst::Func { name: w, args: GList::Nil }, j2 + 1))
                } else {
                    match sp_args(s, e + 1, (fuel - 1) as nat) {
                        Some((args, k)) => {
                            let k2 = sp_ws(s, k);
                            if 0 <= k2 < s.len() && s[k2] == 41 {
                                Some((GCst::Func { name: w, args }, k2 + 1))
                            } else {
                                None
                            }
                        },
                        None => None,
                    }
                }
            } else if 0 <= e < s.len() && s[e] == 33 {
                let e2 = sp_ident_end(s, e + 1);
                let w2 = s.subrange(e + 1, e2);
                match sp_addr_of_ident(w2) {
                    Some((c, r)) => sp_maybe_range(s, e2, Some(w), c, r),
                    None => None,
                }
            } else {
                match sp_addr_of_ident(w) {
                    Some((c, r)) => sp_maybe_range(s, e, None, c, r),
                    None => None,
                }
            }
        } else {
            None
        }
    }
}

/// A reference continued by `:` into a range, or left as a single cell.
pub open spec fn sp_maybe_range(s: Seq<u8>, i: int, sheet: Option<Seq<u8>>, c: int, r: int) -> Option<
    (GCst, int),
> {
    if 0 <= i < s.len() && s[i] == 58 {
        let e = sp_ident_end(s, i + 1);
        let w2 = s.subrange(i + 1, e);
        match sp_addr_of_ident(w2) {
            Some((c2, r2)) => Some(
                (GCst::Range { sheet, start_col: c, start_row: r, end_col: c2, end_row: r2 }, e),
            ),
            None => None,
        }
    } else {
        Some((GCst::CellRef { sheet, col: c, row: r }, i))
    }
}

/// A non-empty argument list: an expression, then optionally a comma and
/// further arguments.
pub open spec fn sp_args(s: Seq<u8>, i: int, fuel: nat) -> Option<(GList, int)>
    decreases fuel,
{
    if fuel == 0 {
        None
    } else {
        match sp_expr(s, i, (fuel - 1) as nat) {
            Some((a, k)) => {
                let j = sp_ws(s, k);
                if 0 <= j < s.len() && s[j] == 44 {
                    match sp_args(s, j + 1, (fuel - 1) as nat) {
                        Some((rest, k2)) => Some(
                            (GList::Cons(Box::new(a), Box::new(rest)), k2),
                        ),
                        None => None,
                    }
                } else {
                    Some((GList::Cons(Box::new(a), Box::new(GList::Nil)), k))
                }
            },
            None => None,
        }
    }
}

/// A term: factors combined by `*` and `/`, associating left.
pub open spec fn sp_term(s: Seq<u8>, i: int, fuel: nat) -> Option<(GCst, int)>
    decreases fuel,
{
    if fuel == 0 {
        None
    } else {
        match sp_factor(s, i, (fuel - 1) as nat) {
            Some((a, j)) => sp_term_rest(s, j, a, (fuel - 1) as nat),
            None => None,
        }
    }
}

/// Further `* factor` and `/ factor` parts.
pub open spec fn sp_term_rest(s: Seq<u8>, i: int, acc: GCst, fuel: nat) -> Option<(GCst, int)>
    decreases fuel,
{
    if fuel == 0 {
        None
    } else {
        let j = sp_ws(s, i);
        if 0 <= j < s.len() && (s[j] == 42 || s[j] == 47) {
            match sp_factor(s, j + 1, (fuel - 1) as nat) {
                Some((b, k)) => sp_term_rest(
                    s,
                    k,
                    GCst::Op {
                        op: if s[j] == 42 {
                            BinOp::Mul
                        } else {
                            BinOp::Div
                        },
                        lhs: Box::new(acc),
                        rhs: Box::new(b),
                    },
                    (fuel - 1) as nat,
                ),
                None => None,
            }
        } else {
            Some((acc, i))
        }
    }
}

/// An expression: terms combined by `+` and `-`, associating left.
pub open spec fn sp_expr(s: Seq<u8>, i: int, fuel: nat) -> Option<(GCst, int)>
    decreases fuel,
{
    if fuel == 0 {
        None
    } else {
        match sp_term(s, i, (fuel - 1) as nat) {
            Some((a, j)) => sp_expr_rest(s, j, a, (fuel - 1) as nat),
            None => None,
        }
    }
}

/// Further `+ term` and `- term` parts.
pub open spec fn sp_expr_rest(s: Seq<u8>, i: int, acc: GCst, fuel: nat) -> Option<(GCst, int)>
    decreases fuel,
{
    if fuel == 0 {
        None
    } else {
        let j = sp_ws(s, i);
        if 0 <= j < s.len() && (s[j] == 43 || s[j] == 45) {
            match sp_term(s, j + 1, (fuel - 1) as nat) {
                Some((b, k)) => sp_expr_rest(
                    s,
                    k,
                    GCst::Op {
                        op: if s[j] == 43 {
                            BinOp::Add
                        } else {
                            BinOp::Sub
                        },
                        lhs: Box::new(acc),
                        rhs: Box::new(b),
                    },
                    (fuel - 1) as nat,
                ),
                None => None,
            }
        } else {
            Some((acc, i))
        }
    }
}

/// The fuel that lets the descent read the whole text.
pub open spec fn sp_fuel(s: Seq<u8>) -> nat {
    (4 * s.len() + 64) as nat
}

/// The whole formula text, spaces allowed, nothing trailing.
pub open spec fn sp_formula(s: Seq<u8>) -> Option<GCst> {
    if s.len() > 100000 {
        None
    } else {
        match sp_expr(s, 0, sp_fuel(s)) {
            Some((a, j)) => {
                if sp_ws(s, j) == s.len() {
                    Some(a)
                } else {
                    None
                }
            },
            None => None,
        }
    }
}

/// The first position at or after `i` that is not a space.
fn skip_ws(s: &Vec<u8>, i: usize) -> (r: usize)
    requires
        i <= s@.len(),
    ensures
        r == sp_ws(s@, i as int),
        i <= r <= s@.len(),
{
    let mut k = i;
    let n = s.len();
    while k < n && s[k] == 32
        invariant
            i <= k <= n,
            n == s@.len(),
            sp_ws(s@, i as int) == sp_ws(s@, k as int),
        decreases n - k,
    {
        k = k + 1;
    }
    k
}

/// A run of digits into a number, rejecting values above the cap.
fn p_num(s: &Vec<u8>, i: usize, acc: u32) -> (r: Option<(u32, usize)>)
    requires
        i <= s@.len(),
        acc <= 99999999,
    ensures
        match r {
            Some(p) => sp_num(s@, i as int, acc as int) == Some((p.0 as int, p.1 as int))
                && p.1 <= s@.len() && i <= p.1,
            None => sp_num(s@, i as int, acc as int) is None,
        },
    decreases s@.len() - i,
{
    if i < s.len() && 48 <= s[i] && s[i] <= 57 {
        if acc > 9999999 {
            None
        } else {
            p_num(s, i + 1, acc * 10 + ((s[i] - 48) as u32))
        }
    } else {
        Some((acc, i))
    }
}

/// An unsigned integer literal starting at `i`.
fn p_u32(s: &Vec<u8>, i: usize) -> (r: Option<(u32, usize)>)
    requires
        i <= s@.len(),
    ensures
        match r {
            Some(p) => sp_u32(s@, i as int) == Some((p.0 as int, p.1 as int)) && p.1 <= s@.len()
                && i <= p.1,
            None => sp_u32(s@, i as int) is None,
        },
{
    if i < s.len() && 48 <= s[i] && s[i] <= 57 {
        p_num(s, i, 0)
    } else {
        None
    }
}

/// The end of the identifier run starting at `i`.
fn ident_end(s: &Vec<u8>, i: usize) -> (r: usize)
    requires
        i <= s@.len(),
    ensures
        r == sp_ident_end(s@, i as int),
        i <= r <= s@.len(),
{
    let mut k = i;
    let n = s.len();
    while k < n && ((65 <= s[k] && s[k] <= 90) || (97 <= s[k] && s[k] <= 122) || (48 <= s[k] && s[k]
        <= 57) || s[k] == 95)
        invariant
            i <= k <= n,
            n == s@.len(),
            sp_ident_end(s@, i as int) == sp_ident_end(s@, k as int),
        decreases n - k,
    {
        k = k + 1;
    }
    k
}

/// The bytes of `s` between the two positions.
pub fn copy_range(s: &Vec<u8>, from: usize, to: usize) -> (r: Vec<u8>)
    requires
        from <= to <= s@.len(),
    ensures
        r@ == s@.subrange(from as int, to as int),
{
    let mut out: Vec<u8> = Vec::new();
    let mut k = from;
    while k < to
        invariant
            from <= k <= to <= s@.len(),
            out@ == s@.subrange(from as int, k as int),
        decreases to - k,
    {
        out.push(s[k]);
        proof {
            assert(out@ =~= s@.subrange(from as int, k + 1 as int));
        }
        k = k + 1;
    }
    out
}

/// An identifier read as an A1 address, if it has that shape.
fn addr_of_ident(w: &Vec<u8>) -> (r: Option<(u32, u32)>)
    ensures
        match r {
            Some(p) => sp_addr_of_ident(w@) == Some((p.0 as int, p.1 as int)),
            None => sp_addr_of_ident(w@) is None,
        },
{
    let n = w.len();
    let mut le: usize = 0;
    while le < n && ((65 <= w[le] && w[le] <= 90) || (97 <= w[le] && w[le] <= 122))
        invariant
            le <= n,
            n == w@.len(),
            sp_letters_end(w@, 0) == sp_letters_end(w@, le as int),
            forall|j: int| 0 <= j < le ==> is_letter(#[trigger] w@[j]),
        decreases n - le,
    {
        le = le + 1;
    }
    proof {
        assert(sp_letters_end(w@, le as int) == le);
    }
    if !(1 <= le && le <= 3 && le < n) {
        return None;
    }
    let mut j = le;
    while j < n && 48 <= w[j] && w[j] <= 57
        invariant
            le <= j <= n,
            n == w@.len(),
            forall|k: int| le <= k < j ==> is_digit(#[trigger] w@[k]),
        decreases n - j,
    {
        j = j + 1;
    }
    if j < n {
        proof {
            assert(!is_digit(w@[j as int]));
        }
        return None;
    }
    if n - le > 7 {
        return None;
    }
    let mut col_acc: u32 = 0;
    let mut k: usize = 0;
    while k < le
        invariant
            k <= le <= 3,
            1 <= le,
            le < n == w@.len(),
            sp_letters_end(w@, 0) == le,
            n - le <= 7,
            forall|j2: int| 0 <= j2 < le ==> is_letter(#[trigger] w@[j2]),
            forall|j2: int| le <= j2 < n ==> is_digit(#[trigger] w@[j2]),
            col_acc <= 18278,
            k >= 1 ==> col_acc >= 1,
            sp_col_val(w@, 0, le as int, 0) == sp_col_val(w@, k as int, le as int, col_acc as int),
        decreases le - k,
    {
        let b = w[k];
        let v: u32 = if b >= 97 {
            (b - 97) as u32
        } else {
            (b - 65) as u32
        };
        proof {
            assert(is_letter(w@[k as int]));
            assert(v == letter_val(w@[k as int]));
            assert(v <= 25);
        }
        let ghost old_acc = col_acc;
        col_acc = col_acc * 26 + v + 1;
        proof {
            assert(sp_col_val(w@, k as int, le as int, old_acc as int) == sp_col_val(
                w@,
                k as int + 1,
                le as int,
                col_acc as int,
            ));
        }
        if col_acc > 18278 {
            proof {
                lemma_col_val_ge(w@, k as int + 1, le as int, col_acc as int);
                assert(sp_col_val(w@, 0, le as int, 0) >= 16384);
            }
            return None;
        }
        k = k + 1;
    }
    let col = col_acc - 1;
    let mut row_acc: u32 = 0;
    let mut k2 = le;
    while k2 < n
        invariant
            le <= k2 <= n == w@.len(),
            n - le <= 7,
            forall|j2: int| le <= j2 < n ==> is_digit(#[trigger] w@[j2]),
            row_acc <= 9999999,
            sp_digits_val(w@, le as int, n as int, 0) == sp_digits_val(
                w@,
                k2 as int,
                n as int,
                row_acc as int,
            ),
            row_acc < pow10((k2 - le) as nat),
        decreases n - k2,
    {
        proof {
            assert(is_digit(w@[k2 as int]));
            reveal_with_fuel(pow10, 9);
            lemma_pow10_mono((k2 - le) as nat, 6);
            assert(pow10(6) == 1000000);
            assert(row_acc < 1000000);
        }
        row_acc = row_acc * 10 + ((w[k2] - 48) as u32);
        k2 = k2 + 1;
        proof {
            assert(pow10((k2 - le) as nat) == 10 * pow10((k2 - le - 1) as nat));
        }
    }
    let row = row_acc;
    if 1 <= row && row <= 1048576 && col < 16384 {
        Some((col, row - 1))
    } else {
        None
    }
}

/// A factor, as the spec descent reads it.
fn p_factor(s: &Vec<u8>, i0: usize, fuel: usize) -> (r: Option<(Cst, usize)>)
    requires
        i0 <= s@.len(),
    ensures
        match r {
            Some(p) => sp_factor(s@, i0 as int, fuel as nat) == Some((view_cst(p.0), p.1 as int))
                && p.1 <= s@.len(),
            None => sp_factor(s@, i0 as int, fuel as nat) is None,
        },
    decreases fuel,
{
    if fuel == 0 {
        return None;
    }
    let i = skip_ws(s, i0);
    if i < s.len() && 48 <= s[i] && s[i] <= 57 {
        match p_u32(s, i) {
            Some((v, j)) => Some((Cst::Number(v as i64), j)),
            None => None,
        }
    } else if i < s.len() && s[i] == 40 {
        match p_expr(s, i + 1, fuel - 1) {
            Some((a, j)) => {
                let j2 = skip_ws(s, j);
                if j2 < s.len() && s[j2] == 41 {
                    Some((a, j2 + 1))
                } else {
                    None
                }
            },
            None => None,
        }
    } else if i < s.len() && ((65 <= s[i] && s[i] <= 90) || (97 <= s[i] && s[i] <= 122)) {
        let e = ident_end(s, i);
        let w = copy_range(s, i, e);
        if e < s.len() && s[e] == 40 {
            let j2 = skip_ws(s, e + 1);
            if j2 < s.len() && s[j2] == 41 {
                proof {
                    assert(view_cst_list(CstList::Nil) == GList::Nil);
                }
                Some((Cst::Func { name: w, args: CstList::Nil }, j2 + 1))
            } else {
                match p_args(s, e + 1, fuel - 1) {
                    Some((args, k)) => {
                        let k2 = skip_ws(s, k);
                        if k2 < s.len() && s[k2] == 41 {
                            Some((Cst::Func { name: w, args }, k2 + 1))
                        } else {
                            None
                        }
                    },
                    None => None,
                }
            }
        } else if e < s.len() && s[e] == 33 {
            let e2 = ident_end(s, e + 1);
            let w2 = copy_range(s, e + 1, e2);
            match addr_of_ident(&w2) {
                Some((c, rr)) => p_maybe_range(s, e2, Some(w), c, rr),
                None => None,
            }
        } else {
            match addr_of_ident(&w) {
                Some((c, rr)) => p_maybe_range(s, e, None, c, rr),
                None => None,
            }
        }
    } else {
        None
    }
}

/// A reference continued by `:` into a range, or left as a single cell.
fn p_maybe_range(s: &Vec<u8>, i: usize, sheet: Option<Vec<u8>>, c: u32, rr: u32) -> (r: Option<
    (Cst, usize),
>)
    requires
        i <= s@.len(),
    ensures
        ({
            let gsheet = match sheet {
                Some(v) => Some(v@),
                None => None,
            };
            match r {
                Some(p) => sp_maybe_range(s@, i as int, gsheet, c as int, rr as int) == Some(
                    (view_cst(p.0), p.1 as int),
                ) && p.1 <= s@.len(),
                None => sp_maybe_range(s@, i as int, gsheet, c as int, rr as int) is None,
            }
        }),
{
    if i < s.len() && s[i] == 58 {
        let e = ident_end(s, i + 1);
        let w2 = copy_range(s, i + 1, e);
        match addr_of_ident(&w2) {
            Some((c2, r2)) => Some(
                (
                    Cst::Range {
                        sheet,
                        start_col: c,
                        start_row: rr,
                        end_col: c2,
                        end_row: r2,
                    },
                    e,
                ),
            ),
            None => None,
        }
    } else {
        Some((Cst::CellRef { sheet, col: c, row: rr }, i))
    }
}

/// A non-empty argument list.
fn p_args(s: &Vec<u8>, i: usize, fuel: usize) -> (r: Option<(CstList, usize)>)
    requires
        i <= s@.len(),
    ensures
        match r {
            Some(p) => sp_args(s@, i as int, fuel as nat) == Some(
                (view_cst_list(p.0), p.1 as int),
            ) && p.1 <= s@.len(),
            None => sp_args(s@, i as int, fuel as nat) is None,
        },
    decreases fuel,
{
    if fuel == 0 {
        return None;
    }
    match p_expr(s, i, fuel - 1) {
        Some((a, k)) => {
            let j = skip_ws(s, k);
            if j < s.len() && s[j] == 44 {
                match p_args(s, j + 1, fuel - 1) {
                    Some((rest, k2)) => Some(
                        (CstList::Cons(Box::new(a), Box::new(rest)), k2),
                    ),
                    None => None,
                }
            } else {
                proof {
                    assert(view_cst_list(CstList::Nil) == GList::Nil);
                }
                Some((CstList::Cons(Box::new(a), Box::new(CstList::Nil)), k))
            }
        },
        None => None,
    }
}

/// A term.
fn p_term(s: &Vec<u8>, i: usize, fuel: usize) -> (r: Option<(Cst, usize)>)
    requires
        i <= s@.len(),
    ensures
        match r {
            Some(p) => sp_term(s@, i as int, fuel as nat) == Some((view_cst(p.0), p.1 as int))
                && p.1 <= s@.len(),
            None => sp_term(s@, i as int, fuel as nat) is None,
        },
    decreases fuel,
{
    if fuel == 0 {
        return None;
    }
    match p_factor(s, i, fuel - 1) {
        Some((a, j)) => p_term_rest(s, j, a, fuel - 1),
        None => None,
    }
}

/// Further `* factor` and `/ factor` parts.
fn p_term_rest(s: &Vec<u8>, i: usize, acc: Cst, fuel: usize) -> (r: Option<(Cst, usize)>)
    requires
        i <= s@.len(),
    ensures
        match r {
            Some(p) => sp_term_rest(s@, i as int, view_cst(acc), fuel as nat) == Some(
                (view_cst(p.0), p.1 as int),
            ) && p.1 <= s@.len(),
            None => sp_term_rest(s@, i as int, view_cst(acc), fuel as nat) is None,
        },
    decreases fuel,
{
    if fuel == 0 {
        return None;
    }
    let j = skip_ws(s, i);
    if j < s.len() && (s[j] == 42 || s[j] == 47) {
        let op = if s[j] == 42 {
            BinOp::Mul
        } else {
            BinOp::Div
        };
        match p_factor(s, j + 1, fuel - 1) {
            Some((b, k)) => p_term_rest(
                s,
                k,
                Cst::Op { op, lhs: Box::new(acc), rhs: Box::new(b) },
                fuel - 1,
            ),
            None => None,
        }
    } else {
        Some((acc, i))
    }
}

/// An expression.
fn p_expr(s: &Vec<u8>, i: usize, fuel: usize) -> (r: Option<(Cst, usize)>)
    requires
        i <= s@.len(),
    ensures
        match r {
            Some(p) => sp_expr(s@, i as int, fuel as nat) == Some((view_cst(p.0), p.1 as int))
                && p.1 <= s@.len(),
            None => sp_expr(s@, i as int, fuel as nat) is None,
        },
    decreases fuel,
{
    if fuel == 0 {
        return None;
    }
    match p_term(s, i, fuel - 1) {
        Some((a, j)) => p_expr_rest(s, j, a, fuel - 1),
        None => None,
    }
}

/// Further `+ term` and `- term` parts.
fn p_expr_rest(s: &Vec<u8>, i: usize, acc: Cst, fuel: usize) -> (r: Option<(Cst, usize)>)
    requires
        i <= s@.len(),
    ensures
        match r {
            Some(p) => sp_expr_rest(s@, i as int, view_cst(acc), fuel as nat) == Some(
                (view_cst(p.0), p.1 as int),
            ) && p.1 <= s@.len(),
            None => sp_expr_rest(s@, i as int, view_cst(acc), fuel as nat) is None,
        },
    decreases fuel,
{
    if fuel == 0 {
        return None;
    }
    let j = skip_ws(s, i);
    if j < s.len() && (s[j] == 43 || s[j] == 45) {
        let op = if s[j] == 43 {
            BinOp::Add
        } else {
            BinOp::Sub
        };
        match p_term(s, j + 1, fuel - 1) {
            Some((b, k)) => p_expr_rest(
                s,
                k,
                Cst::Op { op, lhs: Box::new(acc), rhs: Box::new(b) },
                fuel - 1,
            ),
            None => None,
        }
    } else {
        Some((acc, i))
    }
}

/// The whole formula text: the spec descent's reading of it.
pub fn parse_formula_text(s: &Vec<u8>) -> (r: Option<Cst>)
    ensures
        match r {
            Some(cst) => sp_formula(s@) == Some(view_cst(cst)),
            None => sp_formula(s@) is None,
        },
{
    if s.len() > 100000 {
        return None;
    }
    let fuel: usize = 4 * s.len() + 64;
    match p_expr(s, 0, fuel) {
        Some((a, j)) => {
            let j2 = skip_ws(s, j);
            if j2 == s.len() {
                Some(a)
            } else {
                None
            }
        },
        None => None,
    }
}

/// Powers of ten.
pub open spec fn pow10(n: nat) -> int
    decreases n,
{
    if n == 0 {
        1
    } else {
        10 * pow10((n - 1) as nat)
    }
}

proof fn lemma_pow10_mono(a: nat, b: nat)
    requires
        a <= b,
    ensures
        1 <= pow10(a) <= pow10(b),
    decreases b,
{
    if b > 0 {
        if a == b {
            lemma_pow10_mono((a - 1) as nat, (b - 1) as nat);
        } else {
            lemma_pow10_mono(a, (b - 1) as nat);
        }
    }
}

/// A bijective base-26 accumulator only grows.
proof fn lemma_col_val_ge(w: Seq<u8>, i: int, end: int, acc: int)
    requires
        0 <= i <= end,
        acc >= 1,
        forall|j: int| 0 <= j < end ==> is_letter(#[trigger] w[j]),
        end <= w.len(),
    ensures
        sp_col_val(w, i, end, acc) >= acc - 1,
    decreases end - i,
{
    if i < end {
        lemma_col_val_ge(w, i + 1, end, acc * 26 + letter_val(w[i]) + 1);
    }
}

} // verus!
