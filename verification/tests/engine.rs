use logisheets::ast::{Ast, AstList, BinOp, Cst, CstList};
use logisheets::base::{CellId, NormalCellId};
use logisheets::bond::{coupncd, coupnum, couppcd};
use logisheets::container::{Cell, DataContainer, SheetDataContainer};
use logisheets::cell_value::{CellError, CellValue};
use logisheets::datetime::get_serial_num_by_date_1900;
use logisheets::formula_manager::{detect_cycles, dirty_set, reach_from, Vertex};
use logisheets::gents::{DescriptorManager, FileGroup, TS};
use logisheets::id_manager::{IdManager, NameIdManager};
use logisheets::navigator::MAX_COLS;
use logisheets::parser::parse_formula_text;
use logisheets::sheet_nav::Navigator;
use logisheets::sheet_pos::SheetPosManager;
use logisheets::style::{
    get_init_border, handle, BorderManager, BorderPayload, BorderPayloadType, BorderStyleType,
};
use logisheets::theme::{CtSrgbColor, CtSystemColor, EgColorChoice};
use logisheets::unparser::unparse;
use logisheets::worksheet::{
    get_comments, get_formula, get_merge_cells, get_sheet_dimension, get_style_id, get_value,
    ApiErr, DisplayValue,
};

#[test]
fn test_couppcd() {
    let settle = get_serial_num_by_date_1900(2018, 12, 31).unwrap();
    let maturity = get_serial_num_by_date_1900(2021, 2, 28).unwrap();
    let freq = 4;
    let res = couppcd(settle, maturity, freq);
    assert_eq!(res, get_serial_num_by_date_1900(2018, 11, 30).unwrap());

    let settle = get_serial_num_by_date_1900(2018, 12, 31).unwrap();
    let maturity = get_serial_num_by_date_1900(2021, 2, 28).unwrap();
    let freq = 1;
    let res = couppcd(settle, maturity, freq);
    assert_eq!(res, get_serial_num_by_date_1900(2018, 2, 28).unwrap());
}

#[test]
fn test_coupncd() {
    let settle = get_serial_num_by_date_1900(2018, 12, 31).unwrap();
    let maturity = get_serial_num_by_date_1900(2021, 2, 28).unwrap();
    let freq = 4;
    let res = coupncd(settle, maturity, freq);
    assert_eq!(res, get_serial_num_by_date_1900(2019, 2, 28).unwrap());

    let settle = get_serial_num_by_date_1900(2018, 12, 31).unwrap();
    let maturity = get_serial_num_by_date_1900(2021, 2, 28).unwrap();
    let freq = 1;
    let res = coupncd(settle, maturity, freq);
    assert_eq!(res, get_serial_num_by_date_1900(2019, 2, 28).unwrap());
}

#[test]
fn test_coupnum() {
    let settle = get_serial_num_by_date_1900(2018, 12, 31).unwrap();
    let maturity = get_serial_num_by_date_1900(2021, 2, 28).unwrap();
    let freq = 4;
    let res = coupnum(settle, maturity, freq);
    assert_eq!(res, 9);

    let settle = get_serial_num_by_date_1900(2018, 12, 31).unwrap();
    let maturity = get_serial_num_by_date_1900(2021, 2, 28).unwrap();
    let freq = 2;
    let res = coupnum(settle, maturity, freq);
    assert_eq!(res, 5);
}

#[test]
fn id_manager_is_stable_and_invertible() {
    let mut m = IdManager::new(0);
    let a = m.get_id("Sheet1");
    let b = m.get_id("Sheet2");
    assert_eq!(a, 0);
    assert_eq!(b, 1);
    // stability: asking again hands back the same id
    assert_eq!(m.get_id("Sheet1"), a);
    assert_eq!(m.get_id("Sheet2"), b);
    // inverse lookup recovers the registered name
    assert_eq!(m.get_string(&a).unwrap(), "Sheet1");
    assert_eq!(m.get_string(&b).unwrap(), "Sheet2");
    assert!(m.get_string(&7).is_none());
    assert_eq!(m.has("Sheet1"), Some(a));
    assert_eq!(m.has("Missing"), None);
}

#[test]
fn id_manager_rename_keeps_id() {
    let mut m = IdManager::new(0);
    let a = m.get_id("Sheet1");
    m.rename("Sheet1", String::from("Data"));
    assert_eq!(m.has("Sheet1"), None);
    assert_eq!(m.has("Data"), Some(a));
    assert_eq!(m.get_string(&a).unwrap(), "Data");
}

#[test]
fn func_ids_are_case_insensitive() {
    let mut m = IdManager::new(0);
    let a = m.get_func_id("sum");
    let b = m.get_func_id("SUM");
    let c = m.get_func_id("Sum");
    assert_eq!(a, b);
    assert_eq!(b, c);
    // the registered spelling is the upper-cased one
    assert_eq!(m.get_string(&a).unwrap(), "SUM");
}

#[test]
fn name_id_manager_keys_by_book() {
    let mut m = NameIdManager::new(0);
    let a = m.get_id(&(0, String::from("total")));
    let b = m.get_id(&(1, String::from("total")));
    let c = m.get_id(&(0, String::from("total")));
    assert_ne!(a, b);
    assert_eq!(a, c);
}

#[test]
fn navigator_row_col_roundtrip() {
    let mut nav = Navigator::new();
    nav.add_sheet(9, 16, 8);
    for idx in 0..16usize {
        let rid = nav.fetch_row_id(9, idx).unwrap();
        assert_eq!(nav.fetch_row_idx(9, rid).unwrap(), idx);
    }
    for idx in 0..8usize {
        let cid = nav.fetch_col_id(9, idx).unwrap();
        assert_eq!(nav.fetch_col_idx(9, cid).unwrap(), idx);
    }
    // cells resolve back to their position too
    let cell = nav.fetch_cell_id(9, 3, 2).unwrap();
    assert_eq!(nav.fetch_cell_idx(9, &cell), Some((3, 2)));
}

#[test]
fn navigator_insert_row_shifts_positions() {
    let mut nav = Navigator::new();
    nav.add_sheet(0, 10, 10);
    let row3 = nav.fetch_row_id(0, 3).unwrap();
    assert!(nav.insert_row(0, 0));
    // the id that sat at position 3 now sits at position 4
    assert_eq!(nav.fetch_row_idx(0, row3).unwrap(), 4);
    // deleting the inserted top row moves it back
    assert!(nav.delete_row(0, 0));
    assert_eq!(nav.fetch_row_idx(0, row3).unwrap(), 3);
}

#[test]
fn navigator_blocks_win_over_normal_cells() {
    let mut nav = Navigator::new();
    nav.add_sheet(0, 10, 10);
    let master = NormalCellId { row: 2, col: 2, follow_row: None, follow_col: None };
    let bid = nav.create_block(0, master, 2, 2).unwrap();
    match nav.fetch_cell_id(0, 3, 3).unwrap() {
        CellId::BlockCell(b) => {
            assert_eq!(b.block_id, bid);
            assert_eq!(nav.fetch_block_cell_idx(0, &b).unwrap(), (3, 3));
        },
        CellId::NormalCell(_) => panic!("expected a block cell"),
    }
    match nav.fetch_cell_id(0, 0, 0).unwrap() {
        CellId::NormalCell(c) => {
            assert_eq!(c.row, 0);
            assert_eq!(c.col, 0);
        },
        CellId::BlockCell(_) => panic!("expected a normal cell"),
    }
}

#[test]
fn container_stores_and_replaces_cells() {
    let mut dc = DataContainer::new();
    let mut sc = SheetDataContainer::new();
    let id = CellId::NormalCell(NormalCellId { row: 0, col: 0, follow_row: None, follow_col: None });
    sc.set_cell(id, Cell { value: CellValue::Number(1), style: 0 });
    sc.set_cell(id, Cell { value: CellValue::Number(2), style: 0 });
    dc.set_sheet(5, sc);
    let got = dc.get_cell(5, &id).unwrap();
    assert_eq!(got.value, CellValue::Number(2));
    assert!(dc.get_cell(4, &id).is_none());
}

#[test]
fn detect_cycles_finds_mutual_reference() {
    // A1 feeds B1 and B1 feeds A1: both are on a cycle, C1 is not
    let a1: Vertex = (0, CellId::NormalCell(NormalCellId { row: 0, col: 0, follow_row: None, follow_col: None }));
    let b1: Vertex = (0, CellId::NormalCell(NormalCellId { row: 0, col: 1, follow_row: None, follow_col: None }));
    let c1: Vertex = (0, CellId::NormalCell(NormalCellId { row: 0, col: 2, follow_row: None, follow_col: None }));
    let edges = vec![(a1, b1), (b1, a1), (b1, c1)];
    let vertices = vec![a1, b1, c1];
    let cyc = detect_cycles(&edges, &vertices);
    assert!(cyc.contains(&a1));
    assert!(cyc.contains(&b1));
    assert!(!cyc.contains(&c1));
    // an acyclic graph yields the empty set
    let edges2 = vec![(a1, b1), (b1, c1)];
    let cyc2 = detect_cycles(&edges2, &vertices);
    assert!(cyc2.is_empty());
}

#[test]
fn dirty_set_orders_dependents_after_precedents() {
    let a1: Vertex = (0, CellId::NormalCell(NormalCellId { row: 0, col: 0, follow_row: None, follow_col: None }));
    let a2: Vertex = (0, CellId::NormalCell(NormalCellId { row: 1, col: 0, follow_row: None, follow_col: None }));
    let a3: Vertex = (0, CellId::NormalCell(NormalCellId { row: 2, col: 0, follow_row: None, follow_col: None }));
    // A1 feeds A2, A2 feeds A3
    let edges = vec![(a1, a2), (a2, a3)];
    let out = dirty_set(&edges, &vec![a1]);
    assert_eq!(out.len(), 3);
    let pos = |v: &Vertex| out.iter().position(|x| x == v).unwrap();
    assert!(pos(&a1) < pos(&a2));
    assert!(pos(&a2) < pos(&a3));
    // editing only A2 leaves A1 out
    let out2 = dirty_set(&edges, &vec![a2]);
    assert_eq!(out2.len(), 2);
    assert!(!out2.contains(&a1));
}

#[test]
fn reach_from_follows_edges_transitively() {
    let a: Vertex = (0, CellId::NormalCell(NormalCellId { row: 0, col: 0, follow_row: None, follow_col: None }));
    let b: Vertex = (0, CellId::NormalCell(NormalCellId { row: 1, col: 0, follow_row: None, follow_col: None }));
    let c: Vertex = (0, CellId::NormalCell(NormalCellId { row: 2, col: 0, follow_row: None, follow_col: None }));
    let edges = vec![(a, b), (b, c)];
    let r = reach_from(&edges, a);
    assert!(r.contains(&b));
    assert!(r.contains(&c));
    assert!(!r.contains(&a));
}

#[test]
fn parser_reads_sum_formula() {
    let bytes: Vec<u8> = b"SUM(A1:A3)".to_vec();
    match parse_formula_text(&bytes).unwrap() {
        Cst::Func { name, args } => {
            assert_eq!(name, b"SUM".to_vec());
            match args {
                CstList::Cons(head, tail) => {
                    match *head {
                        Cst::Range { sheet, start_col, start_row, end_col, end_row } => {
                            assert!(sheet.is_none());
                            assert_eq!((start_col, start_row), (0, 0));
                            assert_eq!((end_col, end_row), (0, 2));
                        },
                        _ => panic!("expected a range argument"),
                    }
                    assert!(matches!(*tail, CstList::Nil));
                },
                CstList::Nil => panic!("expected one argument"),
            }
        },
        _ => panic!("expected a function call"),
    }
}

#[test]
fn parser_reads_sum_of_refs_and_sheet_prefix() {
    let bytes: Vec<u8> = b"A1+A2".to_vec();
    match parse_formula_text(&bytes).unwrap() {
        Cst::Op { op, lhs, rhs } => {
            assert_eq!(op, logisheets::ast::BinOp::Add);
            assert!(matches!(*lhs, Cst::CellRef { col: 0, row: 0, .. }));
            assert!(matches!(*rhs, Cst::CellRef { col: 0, row: 1, .. }));
        },
        _ => panic!("expected an addition"),
    }
    let bytes2: Vec<u8> = b"Sheet1!B2".to_vec();
    match parse_formula_text(&bytes2).unwrap() {
        Cst::CellRef { sheet, col, row } => {
            assert_eq!(sheet.unwrap(), b"Sheet1".to_vec());
            assert_eq!((col, row), (1, 1));
        },
        _ => panic!("expected a cell reference"),
    }
    assert!(parse_formula_text(&b"1+".to_vec()).is_none());
    assert!(parse_formula_text(&b"ZZZZ1".to_vec()).is_none());
}

#[test]
fn theme_colors_render_with_alpha() {
    let srgb = EgColorChoice::SrgbClr(CtSrgbColor { val: String::from("112233") });
    assert_eq!(srgb.get_color(), "FF112233");
    let sys = EgColorChoice::SysClr(CtSystemColor {
        val: String::from("windowText"),
        last_clr: Some(String::from("000000")),
    });
    assert_eq!(sys.get_color(), "FF000000");
    let sys_none = EgColorChoice::SysClr(CtSystemColor {
        val: String::from("windowText"),
        last_clr: None,
    });
    assert_eq!(sys_none.get_color(), "");
    assert_eq!(logisheets::theme::default_charset(), 1);
}

#[test]
fn border_handle_sets_edges() {
    let mut b = get_init_border();
    handle(&mut b, BorderPayloadType::LeftBorderColor(String::from("FF0000FF")));
    let left = b.left.clone().unwrap();
    assert_eq!(left.style, BorderStyleType::NoneStyle);
    assert_eq!(left.color.unwrap().rgb.unwrap(), "FF0000FF");
    handle(&mut b, BorderPayloadType::LeftBorderStyle(BorderStyleType::Thin));
    assert_eq!(b.left.clone().unwrap().style, BorderStyleType::Thin);
    handle(&mut b, BorderPayloadType::Outline(true));
    assert!(b.outline);
}

#[test]
fn border_manager_deduplicates_and_executes() {
    let mut m = BorderManager::new(0);
    let first = m.get_id(get_init_border());
    assert_eq!(first, 0);
    assert_eq!(m.get_id(get_init_border()), 0);
    let payload = BorderPayload {
        id: 0,
        change: BorderPayloadType::TopBorderStyle(BorderStyleType::Medium),
    };
    let (m2, new_id) = m.execute(&payload);
    assert_ne!(new_id, 0);
    let stored = m2.get_data(new_id).unwrap();
    assert_eq!(stored.top.clone().unwrap().style, BorderStyleType::Medium);
    // an unknown base id applies nothing and hands back id zero
    let (_, zero) = m2.execute(&BorderPayload {
        id: 99,
        change: BorderPayloadType::Outline(true),
    });
    assert_eq!(zero, 0);
}

#[test]
fn sheet_pos_order_and_hiding() {
    let mut sp = SheetPosManager::new();
    sp.append(10);
    sp.append(20);
    sp.append(10);
    assert_eq!(sp.get_sheet_idx(&10), Some(0));
    assert_eq!(sp.get_sheet_idx(&20), Some(1));
    assert_eq!(sp.get_sheet_id(1), Some(20));
    assert_eq!(sp.get_sheet_id(2), None);
    assert!(!sp.is_hidden(&10));
    sp.set_hidden(10, true);
    assert!(sp.is_hidden(&10));
    sp.set_hidden(10, false);
    assert!(!sp.is_hidden(&10));
}

#[test]
fn serial_dates_roundtrip() {
    let s = get_serial_num_by_date_1900(2021, 2, 28).unwrap();
    let d = logisheets::datetime::get_date_by_serial_num_1900(s);
    assert_eq!((d.year, d.month, d.day), (2021, 2, 28));
    assert_eq!(get_serial_num_by_date_1900(1900, 1, 1).unwrap(), 1);
    assert!(get_serial_num_by_date_1900(2021, 2, 29).is_none());
    assert!(get_serial_num_by_date_1900(1899, 5, 1).is_none());
}

#[test]
fn cell_errors_have_display_text() {
    assert_eq!(CellError::Div0.text(), "#DIV/0!");
    assert_eq!(CellError::Circ.text(), "#CIRC!");
    assert_eq!(CellError::Name.text(), "#NAME?");
    assert_eq!(CellError::Na.text(), "#N/A");
}

struct Demo;

impl TS for Demo {
    fn register(manager: &mut DescriptorManager) {
        manager.add_descriptor(String::from("demo"), String::from("export interface Demo {}"));
    }
}

#[test]
fn file_group_generates_entries_and_index() {
    let mut g = FileGroup::new();
    g.add::<Demo>();
    let entries = g.gen_entries(true);
    assert_eq!(entries.len(), 2);
    assert_eq!(entries[0].0, "demo.ts");
    assert_eq!(entries[0].1, "export interface Demo {}");
    assert_eq!(entries[1].0, "index.ts");
    assert_eq!(entries[1].1, "export * from './demo'\n");
}

fn plain(row: u32, col: u32) -> CellId {
    CellId::NormalCell(NormalCellId { row, col, follow_row: None, follow_col: None })
}

#[test]
fn unparse_renders_addition_and_parse_reads_it_back() {
    let mut nav = Navigator::new();
    nav.add_sheet(0, 10, 10);
    let sheets = IdManager::new(0);
    let funcs = IdManager::new(0);
    let ast = Ast::Op {
        op: BinOp::Add,
        lhs: Box::new(Ast::CellRef { sheet: 0, cell: plain(0, 0) }),
        rhs: Box::new(Ast::CellRef { sheet: 0, cell: plain(1, 0) }),
    };
    let text = unparse(&ast, &mut nav, &sheets, &funcs, 0).unwrap();
    assert_eq!(text, b"A1+A2".to_vec());
    // the canonical text parses back to the same formula
    match parse_formula_text(&text).unwrap() {
        Cst::Op { op, lhs, rhs } => {
            assert_eq!(op, BinOp::Add);
            assert!(matches!(*lhs, Cst::CellRef { col: 0, row: 0, .. }));
            assert!(matches!(*rhs, Cst::CellRef { col: 0, row: 1, .. }));
        },
        _ => panic!("expected an addition"),
    }
}

#[test]
fn unparse_uses_registered_upper_case_function_spelling() {
    let mut nav = Navigator::new();
    nav.add_sheet(0, 10, 10);
    let sheets = IdManager::new(0);
    let mut funcs = IdManager::new(0);
    // asked for in lower case, registered upper-cased
    let sum = funcs.get_func_id("sum");
    let ast = Ast::Func {
        func: sum,
        args: AstList::Cons(
            Box::new(Ast::Range { sheet: 0, start: plain(0, 0), end: plain(2, 0) }),
            Box::new(AstList::Nil),
        ),
    };
    let text = unparse(&ast, &mut nav, &sheets, &funcs, 0).unwrap();
    assert_eq!(text, b"SUM(A1:A3)".to_vec());
    // and the id is the one SUM would get
    assert_eq!(funcs.get_func_id("SUM"), sum);
}

#[test]
fn unparse_rewrites_sheet_prefix_after_rename() {
    let mut nav = Navigator::new();
    nav.add_sheet(0, 10, 10);
    nav.add_sheet(1, 10, 10);
    let mut sheets = IdManager::new(0);
    let main = sheets.get_id("Main");
    let s1 = sheets.get_id("Sheet1");
    let funcs = IdManager::new(0);
    let ast = Ast::CellRef { sheet: s1, cell: plain(0, 0) };
    let before = unparse(&ast, &mut nav, &sheets, &funcs, main).unwrap();
    assert_eq!(before, b"Sheet1!A1".to_vec());
    sheets.rename("Sheet1", String::from("Data"));
    // the very same stored tree now renders with the new name
    let after = unparse(&ast, &mut nav, &sheets, &funcs, main).unwrap();
    assert_eq!(after, b"Data!A1".to_vec());
}

#[test]
fn unparse_reflects_row_insertion() {
    let mut nav = Navigator::new();
    nav.add_sheet(0, 10, 10);
    let sheets = IdManager::new(0);
    let funcs = IdManager::new(0);
    let ast = Ast::CellRef { sheet: 0, cell: plain(2, 0) };
    let before = unparse(&ast, &mut nav, &sheets, &funcs, 0).unwrap();
    assert_eq!(before, b"A3".to_vec());
    assert!(nav.insert_row(0, 0));
    // the reference is unchanged; its rendered position moved down one row
    let after = unparse(&ast, &mut nav, &sheets, &funcs, 0).unwrap();
    assert_eq!(after, b"A4".to_vec());
}

#[test]
fn unparse_parenthesises_by_precedence() {
    let mut nav = Navigator::new();
    nav.add_sheet(0, 10, 10);
    let sheets = IdManager::new(0);
    let funcs = IdManager::new(0);
    // (A1+A2)*A3 keeps its parentheses; A1+A2*A3 needs none
    let sum = Ast::Op {
        op: BinOp::Add,
        lhs: Box::new(Ast::CellRef { sheet: 0, cell: plain(0, 0) }),
        rhs: Box::new(Ast::CellRef { sheet: 0, cell: plain(1, 0) }),
    };
    let ast = Ast::Op {
        op: BinOp::Mul,
        lhs: Box::new(sum),
        rhs: Box::new(Ast::CellRef { sheet: 0, cell: plain(2, 0) }),
    };
    let text = unparse(&ast, &mut nav, &sheets, &funcs, 0).unwrap();
    assert_eq!(text, b"(A1+A2)*A3".to_vec());
    assert!(parse_formula_text(&text).is_some());
}

#[test]
fn get_formula_tracks_row_insertion() {
    let mut nav = Navigator::new();
    nav.add_sheet(0, 10, 10);
    let sheets = IdManager::new(0);
    let funcs = IdManager::new(0);
    let ast = Ast::Op {
        op: BinOp::Add,
        lhs: Box::new(Ast::CellRef { sheet: 0, cell: plain(0, 0) }),
        rhs: Box::new(Ast::CellRef { sheet: 0, cell: plain(1, 0) }),
    };
    let formulas = vec![((0u32, plain(2, 0)), ast)];
    let text = get_formula(&mut nav, &formulas, &sheets, &funcs, 0, 2, 0).unwrap();
    assert_eq!(text, b"A1+A2".to_vec());
    // inserting a row above shifts the formula cell and both references
    assert!(nav.insert_row(0, 0));
    let text2 = get_formula(&mut nav, &formulas, &sheets, &funcs, 0, 3, 0).unwrap();
    assert_eq!(text2, b"A2+A3".to_vec());
    // a cell without a formula renders empty
    let none = get_formula(&mut nav, &formulas, &sheets, &funcs, 0, 0, 0).unwrap();
    assert!(none.is_empty());
}

#[test]
fn get_value_maps_stored_variants() {
    let mut nav = Navigator::new();
    nav.add_sheet(0, 10, 10);
    let mut texts = IdManager::new(0);
    let hello = texts.get_id("hello");
    let mut sc = SheetDataContainer::new();
    sc.set_cell(plain(0, 0), Cell { value: CellValue::Number(3), style: 0 });
    sc.set_cell(plain(1, 0), Cell { value: CellValue::String(hello), style: 0 });
    sc.set_cell(plain(2, 0), Cell { value: CellValue::Error(CellError::Div0), style: 0 });
    let mut dc = DataContainer::new();
    dc.set_sheet(0, sc);
    assert_eq!(get_value(&mut nav, &dc, &texts, 0, 0, 0).unwrap(), DisplayValue::Number(3));
    assert_eq!(
        get_value(&mut nav, &dc, &texts, 0, 1, 0).unwrap(),
        DisplayValue::Str(String::from("hello"))
    );
    assert_eq!(
        get_value(&mut nav, &dc, &texts, 0, 2, 0).unwrap(),
        DisplayValue::ErrorText(String::from("#DIV/0!"))
    );
    // an absent cell is empty; an off-grid position is a lookup failure
    assert_eq!(get_value(&mut nav, &dc, &texts, 0, 5, 5).unwrap(), DisplayValue::Empty);
    assert_eq!(get_value(&mut nav, &dc, &texts, 0, 99, 0), Err(ApiErr::NotFound));
}

#[test]
fn get_style_id_falls_back_cell_row_col_default() {
    let mut nav = Navigator::new();
    nav.add_sheet(0, 10, 10);
    let mut sc = SheetDataContainer::new();
    sc.set_cell(plain(0, 0), Cell { value: CellValue::Blank, style: 7 });
    sc.row_info.push((1, logisheets::container::RowInfo { style: 8, height: 20 }));
    sc.col_info.push((2, logisheets::container::ColInfo { style: 9, width: 30 }));
    let mut dc = DataContainer::new();
    dc.set_sheet(0, sc);
    assert_eq!(get_style_id(&mut nav, &dc, 0, 0, 0).unwrap(), 7);
    assert_eq!(get_style_id(&mut nav, &dc, 0, 1, 0).unwrap(), 8);
    assert_eq!(get_style_id(&mut nav, &dc, 0, 3, 2).unwrap(), 9);
    assert_eq!(get_style_id(&mut nav, &dc, 0, 3, 3).unwrap(), 0);
}

#[test]
fn get_merge_cells_resolves_stored_pairs() {
    let mut nav = Navigator::new();
    nav.add_sheet(0, 10, 10);
    let orphan = NormalCellId { row: 99, col: 0, follow_row: None, follow_col: None };
    let merges = vec![
        (
            NormalCellId { row: 1, col: 1, follow_row: None, follow_col: None },
            NormalCellId { row: 2, col: 3, follow_row: None, follow_col: None },
        ),
        (orphan, orphan),
    ];
    let out = get_merge_cells(&mut nav, 0, &merges);
    // the pair with an unknown row id is left out
    assert_eq!(out.len(), 1);
    assert_eq!((out[0].row_start, out[0].col_start), (1, 1));
    assert_eq!((out[0].row_end, out[0].col_end), (2, 3));
}

#[test]
fn get_sheet_dimension_is_componentwise_max() {
    let mut nav = Navigator::new();
    nav.add_sheet(0, 10, 10);
    let mut sc = SheetDataContainer::new();
    sc.set_cell(plain(3, 2), Cell { value: CellValue::Number(1), style: 0 });
    sc.set_cell(plain(1, 5), Cell { value: CellValue::Number(2), style: 0 });
    assert_eq!(get_sheet_dimension(&mut nav, &sc, 0), (3, 5));
    let empty = SheetDataContainer::new();
    assert_eq!(get_sheet_dimension(&mut nav, &empty, 0), (0, 0));
}

#[test]
fn get_comments_resolves_cells_and_authors() {
    let mut nav = Navigator::new();
    nav.add_sheet(0, 10, 10);
    let mut authors = IdManager::new(0);
    let who = authors.get_id("ann");
    let list = vec![
        (plain(2, 1), who, String::from("check this")),
        (plain(99, 0), who, String::from("lost")),
    ];
    let out = get_comments(&mut nav, &authors, 0, &list);
    // the comment on an unresolvable cell is left out
    assert_eq!(out.len(), 1);
    assert_eq!((out[0].row, out[0].col), (2, 1));
    assert_eq!(out[0].author, "ann");
    assert_eq!(out[0].content, "check this");
}

#[test]
fn unparse_round_trips_leaves() {
    let mut nav = Navigator::new();
    nav.add_sheet(0, 5, 1000);
    let sheets = IdManager::new(0);
    let funcs = IdManager::new(0);
    // a numeric literal
    let num = Ast::Number(9042);
    let t1 = unparse(&num, &mut nav, &sheets, &funcs, 0).unwrap();
    assert_eq!(t1, b"9042".to_vec());
    assert!(matches!(parse_formula_text(&t1).unwrap(), Cst::Number(9042)));
    // a reference in the three-letter column range
    let wide = Ast::CellRef { sheet: 0, cell: plain(0, 730) };
    let t2 = unparse(&wide, &mut nav, &sheets, &funcs, 0).unwrap();
    assert_eq!(t2, b"ABC1".to_vec());
    match parse_formula_text(&t2).unwrap() {
        Cst::CellRef { sheet, col, row } => {
            assert!(sheet.is_none());
            assert_eq!((col, row), (730, 0));
        },
        _ => panic!("expected a cell reference"),
    }
}

#[test]
fn ast_number_is_constructible() {
    let a = Ast::Number(3);
    assert!(matches!(a, Ast::Number(3)));
    assert_eq!(MAX_COLS, 16384);
}
