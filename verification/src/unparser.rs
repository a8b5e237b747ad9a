//! The formula unparser: identity trees back to canonical text.
//!
//! References are materialised through the navigator's current positions and
//! the id managers' current names, so a structural edit or a sheet rename
//! changes the rendered text while the stored tree stays untouched.  The
//! canonical form uses A1 notation, the registered (upper-cased) function
//! spellings, and parentheses only where precedence demands them.

use crate::ast::{Ast, AstList, BinOp};
use crate::base::{CellId, SheetId};
use crate::container::{alist_get, alist_has};
use crate::id_manager::{injective, IdManager};
use crate::navigator::{spec_cell_idx, Data, MAX_COLS, MAX_ROWS};
use crate::sheet_nav::{same_structure, Navigator};
use vstd::prelude::*;
use vstd::utf8::is_ascii_chars;
use vstd::string::StrSliceExecFns;

verus! {

/// The decimal digits of a non-negative number, most significant first.
pub open spec fn spec_digits(n: int) -> Seq<u8>
    decreases n,
{
    if n < 10 {
        seq![(48 + if n >= 0 {
            n
        } else {
            0
        }) as u8]
    } else {
        spec_digits(n / 10) + seq![(48 + n % 10) as u8]
    }
}

/// The bijective base-26 letters of a zero-based column.
pub open spec fn spec_col_name(c: int) -> Seq<u8>
    decreases c,
{
    if c < 26 {
        seq![(65 + if c >= 0 {
            c
        } else {
            0
        }) as u8]
    } else {
        spec_col_name(c / 26 - 1) + seq![(65 + c % 26) as u8]
    }
}

/// The ASCII bytes of a name's characters.
pub open spec fn chars_as_bytes(s: Seq<char>) -> Seq<u8> {
    Seq::new(s.len(), |i: int| s[i] as u8)
}

/// The unique name bound to the id, as ASCII bytes; nothing when the id is
/// unbound or its name does not fit in ASCII.
pub open spec fn spec_name_bytes(contents: Map<Seq<char>, u32>, id: u32) -> Option<Seq<u8>> {
    if exists|k: Seq<char>| contents.contains_key(k) && #[trigger] contents[k] == id {
        let k = choose|k: Seq<char>| contents.contains_key(k) && #[trigger] contents[k] == id;
        if is_ascii_chars(k) {
            Some(chars_as_bytes(k))
        } else {
            None
        }
    } else {
        None
    }
}

/// The A1 text of a cell at its current position on the sheet.
pub open spec fn spec_cell_text(data: Data, cell: CellId) -> Option<Seq<u8>> {
    match spec_cell_idx(data, cell) {
        Some(p) => Some(spec_col_name(p.1) + spec_digits(p.0 + 1)),
        None => None,
    }
}

/// The binding strength of a rendered node: atoms bind tightest, then the
/// multiplicative operators, then the additive ones.
pub open spec fn spec_prec(ast: Ast) -> int {
    match ast {
        Ast::Op { op, .. } => match op {
            BinOp::Add => 1,
            BinOp::Sub => 1,
            BinOp::Mul => 2,
            BinOp::Div => 2,
        },
        _ => 3,
    }
}

pub open spec fn spec_op_byte(op: BinOp) -> u8 {
    match op {
        BinOp::Add => 43,
        BinOp::Sub => 45,
        BinOp::Mul => 42,
        BinOp::Div => 47,
    }
}

/// Wraps a rendered operand in parentheses when required.
pub open spec fn spec_wrap(s: Seq<u8>, need: bool) -> Seq<u8> {
    if need {
        seq![40u8] + s + seq![41u8]
    } else {
        s
    }
}

/// The canonical text of a tree: `None` when a reference does not resolve,
/// a name is unbound or non-ASCII, or a literal is negative.
pub open spec fn spec_unparse(
    ast: Ast,
    nav: Navigator,
    sheets: Map<Seq<char>, u32>,
    funcs: Map<Seq<char>, u32>,
    curr: SheetId,
) -> Option<Seq<u8>>
    decreases ast,
{
    match ast {
        Ast::Number(n) => if n >= 0 {
            Some(spec_digits(n as int))
        } else {
            None
        },
        Ast::CellRef { sheet, cell } => match nav.spec_data(sheet) {
            Some(d) => match spec_cell_text(d, cell) {
                Some(t) => if sheet == curr {
                    Some(t)
                } else {
                    match spec_name_bytes(sheets, sheet) {
                        Some(nm) => Some(nm + seq![33u8] + t),
                        None => None,
                    }
                },
                None => None,
            },
            None => None,
        },
        Ast::Range { sheet, start, end } => match nav.spec_data(sheet) {
            Some(d) => match (spec_cell_text(d, start), spec_cell_text(d, end)) {
                (Some(t1), Some(t2)) => if sheet == curr {
                    Some(t1 + seq![58u8] + t2)
                } else {
                    match spec_name_bytes(sheets, sheet) {
                        Some(nm) => Some(nm + seq![33u8] + t1 + seq![58u8] + t2),
                        None => None,
                    }
                },
                _ => None,
            },
            None => None,
        },
        Ast::Func { func, args } => match spec_name_bytes(funcs, func) {
            Some(nm) => match spec_unparse_args(args, nav, sheets, funcs, curr) {
                Some(a) => Some(nm + seq![40u8] + a + seq![41u8]),
                None => None,
            },
            None => None,
        },
        Ast::Op { op, lhs, rhs } => {
            let me = spec_prec(ast);
            match (
                spec_unparse(*lhs, nav, sheets, funcs, curr),
                spec_unparse(*rhs, nav, sheets, funcs, curr),
            ) {
                (Some(l), Some(r)) => Some(
                    spec_wrap(l, spec_prec(*lhs) < me) + seq![spec_op_byte(op)] + spec_wrap(
                        r,
                        spec_prec(*rhs) <= me,
                    ),
                ),
                _ => None,
            }
        },
    }
}

/// The comma-joined argument texts.
pub open spec fn spec_unparse_args(
    l: AstList,
    nav: Navigator,
    sheets: Map<Seq<char>, u32>,
    funcs: Map<Seq<char>, u32>,
    curr: SheetId,
) -> Option<Seq<u8>>
    decreases l,
{
    match l {
        AstList::Nil => Some(Seq::empty()),
        AstList::Cons(h, t) => match spec_unparse(*h, nav, sheets, funcs, curr) {
            Some(hs) => match *t {
                AstList::Nil => Some(hs),
                AstList::Cons(..) => match spec_unparse_args(*t, nav, sheets, funcs, curr) {
                    Some(ts) => Some(hs + seq![44u8] + ts),
                    None => None,
                },
            },
            None => None,
        },
    }
}

/// The decimal digits of a number.
pub fn render_digits(n: u64) -> (r: Vec<u8>)
    ensures
        r@ == spec_digits(n as int),
    decreases n,
{
    if n < 10 {
        let mut v: Vec<u8> = Vec::new();
        v.push(48 + (n as u8));
        proof {
            assert(v@ =~= spec_digits(n as int));
        }
        v
    } else {
        let mut v = render_digits(n / 10);
        v.push(48 + ((n % 10) as u8));
        proof {
            assert(v@ =~= spec_digits((n / 10) as int) + seq![(48 + (n as int) % 10) as u8]);
        }
        v
    }
}

/// The bijective base-26 letters of a zero-based column.
pub fn render_col_name(c: u32) -> (r: Vec<u8>)
    ensures
        r@ == spec_col_name(c as int),
    decreases c,
{
    if c < 26 {
        let mut v: Vec<u8> = Vec::new();
        v.push(65 + (c as u8));
        proof {
            assert(v@ =~= spec_col_name(c as int));
        }
        v
    } else {
        let mut v = render_col_name(c / 26 - 1);
        v.push(65 + ((c % 26) as u8));
        proof {
            assert(v@ =~= spec_col_name((c as int) / 26 - 1) + seq![(65 + (c as int) % 26) as u8]);
        }
        v
    }
}

/// The ASCII bytes of a manager's unique name for the id.
fn render_name(mgr: &IdManager, id: u32) -> (r: Option<Vec<u8>>)
    requires
        injective(mgr.contents()),
    ensures
        match r {
            Some(v) => spec_name_bytes(mgr.contents(), id) == Some(v@),
            None => spec_name_bytes(mgr.contents(), id) is None,
        },
{
    broadcast use vstd::string::is_ascii_spec_bytes;

    match mgr.get_string(&id) {
        Some(name) => {
            proof {
                let k = choose|k: Seq<char>|
                    mgr.contents().contains_key(k) && #[trigger] mgr.contents()[k] == id;
                assert(mgr.contents().contains_key(name@) && mgr.contents()[name@] == id);
                assert(k == name@);
            }
            let s = name.as_str();
            if s.is_ascii() {
                let bytes = s.as_bytes_vec();
                proof {
                    assert(bytes@ =~= chars_as_bytes(name@));
                }
                Some(bytes)
            } else {
                None
            }
        },
        None => None,
    }
}

/// Positions on a well-formed sheet fit within one grid.
proof fn lemma_cell_idx_bounds(data: Data, id: CellId)
    requires
        data.wf(),
        spec_cell_idx(data, id) is Some,
    ensures
        0 <= spec_cell_idx(data, id).unwrap().0 <= 2 * MAX_ROWS,
        0 <= spec_cell_idx(data, id).unwrap().1 <= 2 * MAX_COLS,
{
    match id {
        CellId::NormalCell(c) => {
            let ids = crate::navigator::effective_ids(c);
            assert(data.rows@[data.rows@.index_of(ids.0)] == ids.0);
            assert(data.cols@[data.cols@.index_of(ids.1)] == ids.1);
        },
        CellId::BlockCell(b) => {
            let bp = alist_get(data.blocks@, b.block_id);
            assert(bp.wf()) by {
                let j = choose|j: int|
                    0 <= j < data.blocks@.len() && data.blocks@[j].0 == b.block_id;
                assert(data.blocks@[j].1.wf());
            }
            let ids = crate::navigator::effective_ids(bp.master);
            assert(data.rows@[data.rows@.index_of(ids.0)] == ids.0);
            assert(data.cols@[data.cols@.index_of(ids.1)] == ids.1);
            assert(bp.rows@[bp.rows@.index_of(b.row)] == b.row);
            assert(bp.cols@[bp.cols@.index_of(b.col)] == b.col);
        },
    }
}

/// A navigator with the same sheets and data resolves every cell the same
/// way.
pub proof fn lemma_same_structure_data(a: Navigator, b: Navigator)
    requires
        same_structure(a, b),
        a.wf(),
    ensures
        forall|s: SheetId| #[trigger] a.spec_data(s) == b.spec_data(s),
{
    assert forall|s: SheetId| #[trigger] a.spec_data(s) == b.spec_data(s) by {
        if alist_has(a.sheets@, s) {
            let i = choose|i: int| 0 <= i < a.sheets@.len() && a.sheets@[i].0 == s;
            assert(b.sheets@[i].0 == s);
            assert(alist_has(b.sheets@, s));
            let ja = choose|j: int| 0 <= j < a.sheets@.len() && a.sheets@[j].0 == s;
            let jb = choose|j: int| 0 <= j < b.sheets@.len() && b.sheets@[j].0 == s;
            assert(a.sheets@[jb].0 == s);
            assert(ja == jb);
            assert(a.sheets@[ja].1.data == b.sheets@[ja].1.data);
        } else {
            if alist_has(b.sheets@, s) {
                let i = choose|i: int| 0 <= i < b.sheets@.len() && b.sheets@[i].0 == s;
                assert(a.sheets@[i].0 == s);
            }
        }
    }
}

/// Rendered digits are decimal digit bytes whose value reads back to the
/// rendered number.
proof fn lemma_digits_props(n: int)
    requires
        0 <= n,
    ensures
        spec_digits(n).len() >= 1,
        forall|i: int|
            0 <= i < spec_digits(n).len() ==> crate::parser::is_digit(#[trigger] spec_digits(n)[i]),
        crate::parser::sp_digits_val(spec_digits(n), 0, spec_digits(n).len() as int, 0) == n,
    decreases n,
{
    if n < 10 {
        let w = spec_digits(n);
        assert(w[0] == (48 + n) as u8);
        assert(crate::parser::sp_digits_val(w, 0, 1, 0) == crate::parser::sp_digits_val(
            w,
            1,
            1,
            n,
        ));
    } else {
        lemma_digits_props(n / 10);
        let w = spec_digits(n / 10);
        let d = (48 + n % 10) as u8;
        assert(spec_digits(n) =~= w.push(d));
        assert forall|i: int|
            0 <= i < spec_digits(n).len() implies crate::parser::is_digit(
            #[trigger] spec_digits(n)[i],
        ) by {
            if i < w.len() {
                assert(spec_digits(n)[i] == w[i]);
            }
        }
        lemma_digits_val_push(w, d, 0, 0);
    }
}

/// Appending one digit multiplies the read-back value by ten and adds it.
proof fn lemma_digits_val_push(w: Seq<u8>, d: u8, i: int, acc: int)
    requires
        0 <= i <= w.len(),
        48 <= d <= 57,
    ensures
        crate::parser::sp_digits_val(w.push(d), i, w.len() as int + 1, acc) == 10
            * crate::parser::sp_digits_val(w, i, w.len() as int, acc) + (d - 48),
    decreases w.len() - i,
{
    let p = w.push(d);
    let le = w.len() as int;
    if i < w.len() {
        assert(p[i] == w[i]);
        lemma_digits_val_push(w, d, i + 1, acc * 10 + (w[i] - 48));
        assert(crate::parser::sp_digits_val(p, i, le + 1, acc) == crate::parser::sp_digits_val(
            p,
            i + 1,
            le + 1,
            acc * 10 + (w[i] - 48),
        ));
        assert(crate::parser::sp_digits_val(w, i, le, acc) == crate::parser::sp_digits_val(
            w,
            i + 1,
            le,
            acc * 10 + (w[i] - 48),
        ));
    } else {
        assert(p[i] == d);
        assert(crate::parser::sp_digits_val(p, i, le + 1, acc) == crate::parser::sp_digits_val(
            p,
            i + 1,
            le + 1,
            acc * 10 + (d - 48),
        ));
        assert(crate::parser::sp_digits_val(p, le + 1, le + 1, acc * 10 + (d - 48)) == acc * 10 + (
        d - 48));
        assert(crate::parser::sp_digits_val(w, i, le, acc) == acc);
    }
}

/// The greedy digit scan reads exactly the digit run's value when that
/// value fits under the parser's cap.
proof fn lemma_num_reads_digits(w: Seq<u8>, i: int, acc: int)
    requires
        0 <= i <= w.len(),
        0 <= acc,
        forall|j: int| 0 <= j < w.len() ==> crate::parser::is_digit(#[trigger] w[j]),
        crate::parser::sp_digits_val(w, i, w.len() as int, acc) <= 9999999,
    ensures
        crate::parser::sp_num(w, i, acc) == Some(
            (crate::parser::sp_digits_val(w, i, w.len() as int, acc), w.len() as int),
        ),
        crate::parser::sp_digits_val(w, i, w.len() as int, acc) >= acc,
    decreases w.len() - i,
{
    if i < w.len() {
        lemma_num_reads_digits(w, i + 1, acc * 10 + (w[i] - 48));
    }
}

/// Law (one corner of the parse-unparse round trip): the rendered text of a
/// numeric literal parses back to that very literal.
pub proof fn lemma_number_round_trip(n: int)
    requires
        0 <= n <= 9999999,
    ensures
        crate::parser::sp_formula(spec_digits(n)) == Some(crate::parser::GCst::Number(n)),
{
    let s = spec_digits(n);
    lemma_digits_props(n);
    let ln = s.len() as int;
    assert(crate::parser::is_digit(s[0]));
    assert(crate::parser::sp_ws(s, 0) == 0);
    lemma_num_reads_digits(s, 0, 0);
    assert(crate::parser::sp_u32(s, 0) == Some((n, ln)));
    assert(ln <= 8) by {
        reveal_with_fuel(crate::parser::pow10, 9);
        lemma_digits_len_le(n, 8);
    }
    let fuel = crate::parser::sp_fuel(s);
    assert(fuel >= 64);
    assert(crate::parser::sp_factor(s, 0, (fuel - 2) as nat) == Some(
        (crate::parser::GCst::Number(n), ln),
    ));
    assert(crate::parser::sp_ws(s, ln) == ln);
    assert(crate::parser::sp_term_rest(s, ln, crate::parser::GCst::Number(n), (fuel - 2) as nat)
        == Some((crate::parser::GCst::Number(n), ln)));
    assert(crate::parser::sp_term(s, 0, (fuel - 1) as nat) == Some(
        (crate::parser::GCst::Number(n), ln),
    ));
    assert(crate::parser::sp_expr_rest(s, ln, crate::parser::GCst::Number(n), (fuel - 1) as nat)
        == Some((crate::parser::GCst::Number(n), ln)));
    assert(crate::parser::sp_expr(s, 0, fuel) == Some((crate::parser::GCst::Number(n), ln)));
}

/// A rendered number has no more digits than its magnitude allows.
proof fn lemma_digits_len_le(n: int, k: int)
    requires
        0 <= n,
        1 <= k,
        n < crate::parser::pow10(k as nat),
    ensures
        spec_digits(n).len() <= k,
    decreases n,
{
    reveal_with_fuel(crate::parser::pow10, 9);
    if n >= 10 {
        assert(crate::parser::pow10(k as nat) == 10 * crate::parser::pow10((k - 1) as nat));
        assert(k >= 2) by {
            if k == 1 {
                assert(crate::parser::pow10(1nat) == 10);
            }
        }
        lemma_digits_len_le(n / 10, k - 1);
    }
}

/// Appending one letter steps the bijective base-26 read-back.
proof fn lemma_col_val_push(w: Seq<u8>, d: u8, i: int, acc: int)
    requires
        0 <= i <= w.len(),
        crate::parser::is_letter(d),
    ensures
        crate::parser::sp_col_val(w.push(d), i, w.len() as int + 1, acc) == (
        crate::parser::sp_col_val(w, i, w.len() as int, acc) + 1) * 26 + crate::parser::letter_val(
            d,
        ),
    decreases w.len() - i,
{
    let p = w.push(d);
    let le = w.len() as int;
    if i < w.len() {
        assert(p[i] == w[i]);
        lemma_col_val_push(w, d, i + 1, acc * 26 + crate::parser::letter_val(w[i]) + 1);
        assert(crate::parser::sp_col_val(p, i, le + 1, acc) == crate::parser::sp_col_val(
            p,
            i + 1,
            le + 1,
            acc * 26 + crate::parser::letter_val(w[i]) + 1,
        ));
        assert(crate::parser::sp_col_val(w, i, le, acc) == crate::parser::sp_col_val(
            w,
            i + 1,
            le,
            acc * 26 + crate::parser::letter_val(w[i]) + 1,
        ));
    } else {
        assert(p[i] == d);
        assert(crate::parser::sp_col_val(p, i, le + 1, acc) == crate::parser::sp_col_val(
            p,
            i + 1,
            le + 1,
            acc * 26 + crate::parser::letter_val(d) + 1,
        ));
        assert(crate::parser::sp_col_val(p, le + 1, le + 1, acc * 26 + crate::parser::letter_val(
            d,
        ) + 1) == acc * 26 + crate::parser::letter_val(d) + 1 - 1);
        assert(crate::parser::sp_col_val(w, i, le, acc) == acc - 1);
    }
}

/// Rendered column letters are upper-case letters whose value reads back to
/// the rendered column.
proof fn lemma_col_props(c: int)
    requires
        0 <= c,
    ensures
        spec_col_name(c).len() >= 1,
        forall|i: int|
            0 <= i < spec_col_name(c).len() ==> crate::parser::is_letter(
                #[trigger] spec_col_name(c)[i],
            ) && !crate::parser::is_digit(spec_col_name(c)[i]) && spec_col_name(c)[i] != 95,
        crate::parser::sp_col_val(spec_col_name(c), 0, spec_col_name(c).len() as int, 0) == c,
    decreases c,
{
    if c < 26 {
        let w = spec_col_name(c);
        assert(w[0] == (65 + c) as u8);
        assert(crate::parser::sp_col_val(w, 0, 1, 0) == crate::parser::sp_col_val(
            w,
            1,
            1,
            crate::parser::letter_val(w[0]) + 1,
        ));
    } else {
        lemma_col_props(c / 26 - 1);
        let w = spec_col_name(c / 26 - 1);
        let d = (65 + c % 26) as u8;
        assert(spec_col_name(c) =~= w.push(d));
        assert forall|i: int|
            0 <= i < spec_col_name(c).len() implies crate::parser::is_letter(
            #[trigger] spec_col_name(c)[i],
        ) && !crate::parser::is_digit(spec_col_name(c)[i]) && spec_col_name(c)[i] != 95 by {
            if i < w.len() {
                assert(spec_col_name(c)[i] == w[i]);
            }
        }
        lemma_col_val_push(w, d, 0, 0);
        assert((c / 26 - 1 + 1) * 26 + crate::parser::letter_val(d) == c);
    }
}

/// The room bijective base-26 lengths leave: all columns of `k` letters or
/// fewer sit under this cap.
pub open spec fn col_cap(k: int) -> int
    decreases k,
{
    if k <= 1 {
        26
    } else {
        26 * col_cap(k - 1) + 26
    }
}

/// A column under the cap renders in at most `k` letters.
proof fn lemma_col_len_le(c: int, k: int)
    requires
        0 <= c,
        1 <= k,
        c < col_cap(k),
    ensures
        spec_col_name(c).len() <= k,
    decreases c,
{
    if c >= 26 {
        assert(k >= 2) by {
            if k == 1 {
                assert(col_cap(1) == 26);
            }
        }
        assert(col_cap(k) == 26 * col_cap(k - 1) + 26);
        lemma_col_len_le(c / 26 - 1, k - 1);
    }
}

/// The letter scan stops exactly where the letters stop.
proof fn lemma_letters_end_at(w: Seq<u8>, i: int, le: int)
    requires
        0 <= i <= le <= w.len(),
        forall|j: int| i <= j < le ==> crate::parser::is_letter(#[trigger] w[j]),
        le == w.len() || !crate::parser::is_letter(w[le]),
    ensures
        crate::parser::sp_letters_end(w, i) == le,
    decreases le - i,
{
    if i < le {
        lemma_letters_end_at(w, i + 1, le);
    }
}

/// The identifier scan stops exactly where the identifier characters stop.
proof fn lemma_ident_end_at(w: Seq<u8>, i: int, e: int)
    requires
        0 <= i <= e <= w.len(),
        forall|j: int| i <= j < e ==> crate::parser::is_ident_char(#[trigger] w[j]),
        e == w.len() || !crate::parser::is_ident_char(w[e]),
    ensures
        crate::parser::sp_ident_end(w, i) == e,
    decreases e - i,
{
    if i < e {
        lemma_ident_end_at(w, i + 1, e);
    }
}

/// Law (a second corner of the parse-unparse round trip): the rendered A1
/// text of an on-grid position parses back to the reference to that very
/// position.
pub proof fn lemma_cellref_round_trip(c: int, r: int)
    requires
        0 <= c < 16384,
        0 <= r < 1048576,
    ensures
        crate::parser::sp_formula(spec_col_name(c) + spec_digits(r + 1)) == Some(
            crate::parser::GCst::CellRef { sheet: None, col: c, row: r },
        ),
{
    let cw = spec_col_name(c);
    let dw = spec_digits(r + 1);
    let s = cw + dw;
    let le = cw.len() as int;
    let ln = s.len() as int;
    lemma_col_props(c);
    lemma_digits_props(r + 1);
    assert(forall|j: int| 0 <= j < le ==> #[trigger] s[j] == cw[j]);
    assert(forall|j: int| le <= j < ln ==> #[trigger] s[j] == dw[j - le]);
    assert(crate::parser::is_letter(s[0]) && !crate::parser::is_digit(s[0]) && s[0] != 40 && s[0]
        != 32);
    assert(crate::parser::sp_ws(s, 0) == 0);
    lemma_letters_end_at(s, 0, le);
    lemma_ident_end_at(s, 0, ln);
    assert(s.subrange(0, ln) =~= s);
    // the identifier reads back as an address
    assert(crate::parser::sp_letters_end(s, 0) == le);
    assert(1 <= le <= 3) by {
        reveal_with_fuel(col_cap, 4);
        lemma_col_len_le(c, 3);
    }
    assert(ln - le <= 7) by {
        reveal_with_fuel(crate::parser::pow10, 9);
        lemma_digits_len_le(r + 1, 7);
    }
    assert(forall|j: int| le <= j < ln ==> crate::parser::is_digit(#[trigger] s[j]));
    assert(crate::parser::sp_col_val(s, 0, le, 0) == c) by {
        lemma_col_val_congr(cw, s, 0, le, 0);
    }
    assert(crate::parser::sp_digits_val(s, le, ln, 0) == r + 1) by {
        lemma_digits_val_congr(dw, s, le, 0, ln, 0);
    }
    assert(crate::parser::sp_addr_of_ident(s) == Some((c, r)));
    // the factor takes the reference branch and consumes everything
    let fuel = crate::parser::sp_fuel(s);
    assert(crate::parser::sp_maybe_range(s, ln, None, c, r) == Some(
        (crate::parser::GCst::CellRef { sheet: None, col: c, row: r }, ln),
    ));
    let g = crate::parser::GCst::CellRef { sheet: None, col: c, row: r };
    assert(crate::parser::sp_factor(s, 0, (fuel - 2) as nat) == Some((g, ln)));
    assert(crate::parser::sp_ws(s, ln) == ln);
    assert(crate::parser::sp_term_rest(s, ln, g, (fuel - 2) as nat) == Some((g, ln)));
    assert(crate::parser::sp_term(s, 0, (fuel - 1) as nat) == Some((g, ln)));
    assert(crate::parser::sp_expr_rest(s, ln, g, (fuel - 1) as nat) == Some((g, ln)));
    assert(crate::parser::sp_expr(s, 0, fuel) == Some((g, ln)));
}

/// The base-26 read-back only looks at the scanned range.
proof fn lemma_col_val_congr(w: Seq<u8>, s: Seq<u8>, i: int, end: int, acc: int)
    requires
        0 <= i <= end <= w.len(),
        end <= s.len(),
        forall|j: int| 0 <= j < end ==> #[trigger] s[j] == w[j],
    ensures
        crate::parser::sp_col_val(s, i, end, acc) == crate::parser::sp_col_val(w, i, end, acc),
    decreases end - i,
{
    if i < end {
        lemma_col_val_congr(w, s, i + 1, end, acc * 26 + crate::parser::letter_val(w[i]) + 1);
    }
}

/// The digit read-back only looks at the scanned range.
proof fn lemma_digits_val_congr(w: Seq<u8>, s: Seq<u8>, off: int, i: int, end: int, acc: int)
    requires
        0 <= i,
        0 <= off,
        off + i <= end <= s.len(),
        end - off <= w.len(),
        forall|j: int| off <= j < end ==> #[trigger] s[j] == w[j - off],
    ensures
        crate::parser::sp_digits_val(s, off + i, end, acc) == crate::parser::sp_digits_val(
            w,
            i,
            end - off,
            acc,
        ),
    decreases end - (off + i),
{
    if off + i < end {
        lemma_digits_val_congr(w, s, off, i + 1, end, acc * 10 + (w[i] - 48));
    }
}

/// Law: renaming a sheet rewrites the rendered prefix to the new name while
/// every stored tree is untouched — the unparser reads trees immutably and
/// resolves the sheet id through the manager's current binding, which the
/// rename moves without changing the id.
pub proof fn lemma_rename_renders_new_name(
    c: Map<Seq<char>, u32>,
    old_name: Seq<char>,
    new_name: Seq<char>,
    id: u32,
)
    requires
        injective(c),
        c.contains_key(old_name),
        c[old_name] == id,
        !c.contains_key(new_name),
        is_ascii_chars(new_name),
    ensures
        spec_name_bytes(c.remove(old_name).insert(new_name, id), id) == Some(
            chars_as_bytes(new_name),
        ),
{
    let c2 = c.remove(old_name).insert(new_name, id);
    assert(c2.contains_key(new_name) && c2[new_name] == id);
    assert forall|k: Seq<char>|
        c2.contains_key(k) && #[trigger] c2[k] == id implies k == new_name by {
        if k != new_name {
            assert(c.contains_key(k) && c[k] == id);
            assert(k == old_name);
        }
    }
    let w = choose|k: Seq<char>| c2.contains_key(k) && #[trigger] c2[k] == id;
    assert(w == new_name);
}

/// Law: after inserting a fresh row at or above a referenced row, the
/// reference's rendered text names the next row down — same column letters,
/// row digits one higher — while the stored identity is unchanged.
pub proof fn lemma_insert_row_shifts_rendered_ref(
    d: Data,
    d2: Data,
    idx: int,
    fresh: u32,
    cell: crate::base::NormalCellId,
)
    requires
        d.wf(),
        d2.rows@ == d.rows@.insert(idx, fresh),
        d2.cols@ == d.cols@,
        0 <= idx <= d.rows@.len(),
        !d.rows@.contains(fresh),
        cell.follow_row is None,
        cell.follow_col is None,
        d.rows@.contains(cell.row),
        d.cols@.contains(cell.col),
        d.rows@.index_of(cell.row) >= idx,
    ensures
        spec_cell_text(d, CellId::NormalCell(cell)) == Some(
            spec_col_name(d.cols@.index_of(cell.col)) + spec_digits(
                d.rows@.index_of(cell.row) + 1,
            ),
        ),
        spec_cell_text(d2, CellId::NormalCell(cell)) == Some(
            spec_col_name(d.cols@.index_of(cell.col)) + spec_digits(
                d.rows@.index_of(cell.row) + 2,
            ),
        ),
{
    crate::navigator::lemma_insert_row_shifts_index(d.rows@, idx, fresh, cell.row);
    assert(crate::navigator::effective_ids(cell) == (cell.row, cell.col));
}

/// Law: the rendered name of a formula function id is the registered,
/// upper-cased spelling, whatever spelling the id was first asked for under.
pub proof fn lemma_func_renders_registered_spelling(c: Map<Seq<char>, u32>, n: u32, s: Seq<char>)
    requires
        injective(c),
        forall|k: Seq<char>| c.contains_key(k) ==> #[trigger] c[k] < n,
        is_ascii_chars(crate::id_manager::upper_of(s)),
    ensures
        spec_name_bytes(
            crate::id_manager::contents_after(c, n, crate::id_manager::upper_of(s)),
            crate::id_manager::id_of(c, n, crate::id_manager::upper_of(s)),
        ) == Some(chars_as_bytes(crate::id_manager::upper_of(s))),
{
    let u = crate::id_manager::upper_of(s);
    let c2 = crate::id_manager::contents_after(c, n, u);
    let id = crate::id_manager::id_of(c, n, u);
    crate::id_manager::lemma_get_string_after_get_id(c, n, u);
    assert(c2.contains_key(u) && c2[u] == id);
    let w = choose|k: Seq<char>| c2.contains_key(k) && #[trigger] c2[k] == id;
    assert(w == u);
}

/// Rendering only reads the navigator's data, so two navigators with the
/// same sheets and data render every tree the same way.
pub proof fn lemma_unparse_congr(
    ast: Ast,
    a: Navigator,
    b: Navigator,
    sheets: Map<Seq<char>, u32>,
    funcs: Map<Seq<char>, u32>,
    curr: SheetId,
)
    requires
        same_structure(a, b),
        a.wf(),
    ensures
        spec_unparse(ast, a, sheets, funcs, curr) == spec_unparse(ast, b, sheets, funcs, curr),
    decreases ast,
{
    lemma_same_structure_data(a, b);
    match ast {
        Ast::Op { op, lhs, rhs } => {
            lemma_unparse_congr(*lhs, a, b, sheets, funcs, curr);
            lemma_unparse_congr(*rhs, a, b, sheets, funcs, curr);
        },
        Ast::Func { func, args } => {
            lemma_unparse_args_congr(args, a, b, sheets, funcs, curr);
        },
        _ => {},
    }
}

/// As above, for argument lists.
pub proof fn lemma_unparse_args_congr(
    l: AstList,
    a: Navigator,
    b: Navigator,
    sheets: Map<Seq<char>, u32>,
    funcs: Map<Seq<char>, u32>,
    curr: SheetId,
)
    requires
        same_structure(a, b),
        a.wf(),
    ensures
        spec_unparse_args(l, a, sheets, funcs, curr) == spec_unparse_args(
            l,
            b,
            sheets,
            funcs,
            curr,
        ),
    decreases l,
{
    match l {
        AstList::Nil => {},
        AstList::Cons(h, t) => {
            lemma_unparse_congr(*h, a, b, sheets, funcs, curr);
            lemma_unparse_args_congr(*t, a, b, sheets, funcs, curr);
        },
    }
}

/// The canonical text of a stored formula, rendered through the current
/// navigator positions and the current sheet and function names.
pub fn unparse(
    ast: &Ast,
    nav: &mut Navigator,
    sheets: &IdManager,
    funcs: &IdManager,
    curr: SheetId,
) -> (r: Option<Vec<u8>>)
    requires
        old(nav).wf(),
        injective(sheets.contents()),
        injective(funcs.contents()),
    ensures
        final(nav).wf(),
        same_structure(*old(nav), *final(nav)),
        match r {
            Some(v) => spec_unparse(*ast, *old(nav), sheets.contents(), funcs.contents(), curr)
                == Some(v@),
            None => spec_unparse(
                *ast,
                *old(nav),
                sheets.contents(),
                funcs.contents(),
                curr,
            ) is None,
        },
    decreases *ast,
{
    match ast {
        Ast::Number(n) => {
            if *n >= 0 {
                Some(render_digits(*n as u64))
            } else {
                None
            }
        },
        Ast::CellRef { sheet, cell } => {
            let prefix = if *sheet == curr {
                Some(Vec::new())
            } else {
                match render_name(sheets, *sheet) {
                    Some(mut nm) => {
                        nm.push(33);
                        Some(nm)
                    },
                    None => None,
                }
            };
            let text = render_cell_text(nav, *sheet, cell);
            proof {
                lemma_same_structure_data(*old(nav), *nav);
            }
            match (prefix, text) {
                (Some(p), Some(t)) => {
                    let joined = concat_bytes(p, t);
                    Some(joined)
                },
                _ => None,
            }
        },
        Ast::Range { sheet, start, end } => {
            let prefix = if *sheet == curr {
                Some(Vec::new())
            } else {
                match render_name(sheets, *sheet) {
                    Some(mut nm) => {
                        nm.push(33);
                        Some(nm)
                    },
                    None => None,
                }
            };
            let t1 = render_cell_text(nav, *sheet, start);
            proof {
                lemma_same_structure_data(*old(nav), *nav);
            }
            let ghost mid = *nav;
            let t2 = render_cell_text(nav, *sheet, end);
            proof {
                lemma_same_structure_data(mid, *nav);
            }
            match (prefix, t1, t2) {
                (Some(p), Some(a), Some(b)) => {
                    let mut joined = concat_bytes(p, a);
                    joined.push(58);
                    let joined2 = concat_bytes(joined, b);
                    Some(joined2)
                },
                _ => None,
            }
        },
        Ast::Func { func, args } => {
            match render_name(funcs, *func) {
                Some(nm) => {
                    match unparse_args(args, nav, sheets, funcs, curr) {
                        Some(a) => {
                            let mut out = nm;
                            out.push(40);
                            let mut out2 = concat_bytes(out, a);
                            out2.push(41);
                            Some(out2)
                        },
                        None => None,
                    }
                },
                None => None,
            }
        },
        Ast::Op { op, lhs, rhs } => {
            let me: u32 = match op {
                BinOp::Add => 1,
                BinOp::Sub => 1,
                BinOp::Mul => 2,
                BinOp::Div => 2,
            };
            let l = unparse(lhs, nav, sheets, funcs, curr);
            let ghost mid = *nav;
            let r2 = unparse(rhs, nav, sheets, funcs, curr);
            proof {
                lemma_unparse_congr(
                    **rhs,
                    *old(nav),
                    mid,
                    sheets.contents(),
                    funcs.contents(),
                    curr,
                );
            }
            match (l, r2) {
                (Some(lv), Some(rv)) => {
                    let lp = prec_of(lhs);
                    let rp = prec_of(rhs);
                    let lw = wrap_bytes(lv, lp < me);
                    let rw = wrap_bytes(rv, rp <= me);
                    let opb: u8 = match op {
                        BinOp::Add => 43,
                        BinOp::Sub => 45,
                        BinOp::Mul => 42,
                        BinOp::Div => 47,
                    };
                    let mut out = lw;
                    out.push(opb);
                    let out2 = concat_bytes(out, rw);
                    Some(out2)
                },
                _ => None,
            }
        },
    }
}

/// The comma-joined argument texts.
fn unparse_args(
    l: &AstList,
    nav: &mut Navigator,
    sheets: &IdManager,
    funcs: &IdManager,
    curr: SheetId,
) -> (r: Option<Vec<u8>>)
    requires
        old(nav).wf(),
        injective(sheets.contents()),
        injective(funcs.contents()),
    ensures
        final(nav).wf(),
        same_structure(*old(nav), *final(nav)),
        match r {
            Some(v) => spec_unparse_args(
                *l,
                *old(nav),
                sheets.contents(),
                funcs.contents(),
                curr,
            ) == Some(v@),
            None => spec_unparse_args(
                *l,
                *old(nav),
                sheets.contents(),
                funcs.contents(),
                curr,
            ) is None,
        },
    decreases *l,
{
    match l {
        AstList::Nil => {
            let v: Vec<u8> = Vec::new();
            proof {
                assert(v@ =~= Seq::<u8>::empty());
            }
            Some(v)
        },
        AstList::Cons(h, t) => {
            let hs = unparse(h, nav, sheets, funcs, curr);
            let ghost mid = *nav;
            match hs {
                Some(hv) => {
                    match &**t {
                        AstList::Nil => Some(hv),
                        AstList::Cons(..) => {
                            let ts = unparse_args(t, nav, sheets, funcs, curr);
                            proof {
                                lemma_unparse_args_congr(
                                    **t,
                                    *old(nav),
                                    mid,
                                    sheets.contents(),
                                    funcs.contents(),
                                    curr,
                                );
                            }
                            match ts {
                                Some(tv) => {
                                    let mut out = hv;
                                    out.push(44);
                                    let out2 = concat_bytes(out, tv);
                                    Some(out2)
                                },
                                None => None,
                            }
                        },
                    }
                },
                None => None,
            }
        },
    }
}

/// The A1 text of the cell at its current position on the sheet.
fn render_cell_text(nav: &mut Navigator, sheet: SheetId, cell: &CellId) -> (r: Option<Vec<u8>>)
    requires
        old(nav).wf(),
    ensures
        final(nav).wf(),
        same_structure(*old(nav), *final(nav)),
        match r {
            Some(v) => old(nav).spec_data(sheet) is Some && spec_cell_text(
                old(nav).spec_data(sheet).unwrap(),
                *cell,
            ) == Some(v@),
            None => old(nav).spec_data(sheet) is None || spec_cell_text(
                old(nav).spec_data(sheet).unwrap(),
                *cell,
            ) is None,
        },
{
    match nav.fetch_cell_idx(sheet, cell) {
        Some(p) => {
            proof {
                lemma_cell_idx_bounds(old(nav).spec_data(sheet).unwrap(), *cell);
            }
            let col = render_col_name(p.1 as u32);
            let row = render_digits((p.0 + 1) as u64);
            let out = concat_bytes(col, row);
            Some(out)
        },
        None => None,
    }
}

/// The precedence of a rendered node.
fn prec_of(ast: &Ast) -> (r: u32)
    ensures
        r == spec_prec(*ast),
{
    match ast {
        Ast::Op { op, .. } => match op {
            BinOp::Add => 1,
            BinOp::Sub => 1,
            BinOp::Mul => 2,
            BinOp::Div => 2,
        },
        _ => 3,
    }
}

/// Joins two byte strings.
fn concat_bytes(a: Vec<u8>, b: Vec<u8>) -> (r: Vec<u8>)
    ensures
        r@ == a@ + b@,
{
    let mut out = a;
    let n = b.len();
    let mut i: usize = 0;
    while i < n
        invariant
            i <= n,
            n == b@.len(),
            out@ == a@ + b@.subrange(0, i as int),
        decreases n - i,
    {
        out.push(b[i]);
        proof {
            assert(out@ =~= a@ + b@.subrange(0, i as int + 1));
        }
        i = i + 1;
    }
    proof {
        assert(b@.subrange(0, n as int) =~= b@);
    }
    out
}

/// Wraps an operand in parentheses when required.
fn wrap_bytes(s: Vec<u8>, need: bool) -> (r: Vec<u8>)
    ensures
        r@ == spec_wrap(s@, need),
{
    if need {
        let mut out: Vec<u8> = Vec::new();
        out.push(40);
        let mut out2 = concat_bytes(out, s);
        out2.push(41);
        proof {
            assert(out2@ =~= seq![40u8] + s@ + seq![41u8]);
        }
        out2
    } else {
        s
    }
}

} // verus!
