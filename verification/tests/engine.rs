use quadratic_core::cell_value::value_from_parts;
use quadratic_core::code::CodeCellLanguage;
use quadratic_core::code::CodeCellRunOutput;
use quadratic_core::code::CodeCellRunResult;
use quadratic_core::code::RunError;
use quadratic_core::code::Value as Output;
use quadratic_core::content::Content;
use quadratic_core::controller::GridController;
use quadratic_core::controller::TransactionError;
use quadratic_core::decimal::Decimal;
use quadratic_core::formatting::CellFmtArray;
use quadratic_core::formatting::CellFormatSummary;
use quadratic_core::formatting::FormatValue;
use quadratic_core::formatting::NumericFormat;
use quadratic_core::formatting::NumericFormatKind;
use quadratic_core::grid::Grid;
use quadratic_core::grid::OperationError;
use quadratic_core::operation::Operation;
use quadratic_core::plane::Bounds;
use quadratic_core::plane::Plane;
use quadratic_core::position::ArraySize;
use quadratic_core::position::Pos;
use quadratic_core::position::Rect;
use quadratic_core::position::SheetId;
use quadratic_core::position::SheetPos;
use quadratic_core::position::SheetRect;
use quadratic_core::rle::RunLengthEncoding;
use quadratic_core::runs::ColumnData;
use quadratic_core::sequencer::SequencedTransaction;
use quadratic_core::sequencer::Sequencer;
use quadratic_core::sheet::Sheet;
use quadratic_core::text::push_natural;
use quadratic_core::text::split;
use quadratic_core::text::trim_text;
use quadratic_core::text::unpack_currency;
use quadratic_core::text::unpack_percentage;
use quadratic_core::text::white_space;
use quadratic_core::transaction::reversed;
use quadratic_core::transaction::TransactionSummary;
use quadratic_core::transaction::TransactionType;
use quadratic_core::values::Array;
use quadratic_core::values::CellValue;

fn decimal(unscaled: &str, scale: i64) -> Decimal {
    Decimal { unscaled: String::from(unscaled), scale }
}

fn number(unscaled: &str, scale: i64) -> CellValue {
    CellValue::Number(decimal(unscaled, scale))
}

fn text(s: &str) -> CellValue {
    CellValue::Text(String::from(s))
}

fn at(sheet_id: SheetId, x: i64, y: i64) -> SheetPos {
    SheetPos { x, y, sheet_id }
}

fn one(sheet_id: SheetId, x: i64, y: i64) -> SheetRect {
    SheetRect::single_pos(at(sheet_id, x, y))
}

fn shown(gc: &GridController, sheet_id: SheetId, x: i64, y: i64) -> Option<CellValue> {
    gc.sheet(sheet_id).unwrap().get_cell_value(Pos { x, y })
}

fn runs_of(c: &ColumnData<bool>) -> Vec<(i64, i64, bool)> {
    (0..c.len()).map(|i| (c.block(i).start, c.block(i).last, c.block(i).value)).collect()
}

#[test]
fn column_store_sets_gets_and_merges() {
    let mut c: ColumnData<bool> = ColumnData::new();
    assert!(c.is_empty());
    c.set_range(0, 4, true);
    c.set_range(5, 9, true);
    assert_eq!(runs_of(&c), vec![(0, 9, true)]);
    c.set_range(3, 6, false);
    assert_eq!(runs_of(&c), vec![(0, 2, true), (3, 6, false), (7, 9, true)]);
    assert_eq!(c.get(2), Some(&true));
    assert_eq!(c.get(3), Some(&false));
    assert_eq!(c.get(10), None);
    assert_eq!(c.get(-1), None);
    c.remove_range(0, 7);
    assert_eq!(runs_of(&c), vec![(8, 9, true)]);
    assert_eq!(c.block(0).len(), 2);
    assert_eq!(c.extent(), Some((8, 9)));
    assert_eq!(c.rows_in(0, 8), vec![8]);
}

#[test]
fn column_store_ignores_an_empty_range() {
    let mut c: ColumnData<bool> = ColumnData::new();
    c.set_range(1, 3, true);
    c.set_range(5, 4, false);
    c.remove_range(3, 2);
    assert_eq!(runs_of(&c), vec![(1, 3, true)]);
}

#[test]
fn column_store_overlap_overwrites() {
    let mut c: ColumnData<bool> = ColumnData::new();
    c.set_range(i64::MIN, i64::MAX, true);
    assert_eq!(c.block(0).len(), u64::MAX);
    c.set_range(-1, 1, false);
    assert_eq!(runs_of(&c), vec![(i64::MIN, -2, true), (-1, 1, false), (2, i64::MAX, true)]);
    assert_eq!(c.find(0), Some(1));
    assert_eq!(c.find(i64::MAX), Some(2));
}

#[test]
fn setting_a_uniform_range_again_keeps_the_runs() {
    let mut c: ColumnData<bool> = ColumnData::new();
    c.set_range(0, 9, true);
    c.set_range(20, 29, false);
    let before = runs_of(&c);
    c.set_range(2, 7, true);
    assert_eq!(runs_of(&c), before);
    assert_eq!(c.len(), 2);
    c.set_range(20, 29, false);
    assert_eq!(runs_of(&c), before);
}

#[test]
fn plane_keeps_strips_in_order_and_drops_empty_ones() {
    let mut p: Plane<bool> = Plane::new();
    p.set(5, 1, Some(true));
    p.set(-2, 7, Some(false));
    p.set(3, 3, Some(true));
    assert_eq!(p.strip_count(), 3);
    assert_eq!((p.strip_key(0), p.strip_key(1), p.strip_key(2)), (-2, 3, 5));
    assert_eq!(p.get(3, 3), Some(&true));
    assert_eq!(p.get(3, 4), None);
    assert_eq!(p.get(4, 3), None);
    assert_eq!(p.bounds(), Some(Bounds { min_key: -2, max_key: 5, min_row: 1, max_row: 7 }));
    assert_eq!(p.positions_in(-2, 3, 0, 10), vec![(-2, 7), (3, 3)]);
    p.set(3, 3, None);
    assert_eq!(p.strip_count(), 2);
    assert_eq!(p.find_strip(3), (false, 1));
    assert_eq!(p.find_strip(5), (true, 1));
    p.set_range(-2, 0, 10, None);
    p.set(5, 1, None);
    assert_eq!(p.bounds(), None);
}

#[test]
fn run_length_encoding_merges_and_indexes() {
    let mut r: RunLengthEncoding<Option<bool>> = RunLengthEncoding::new();
    r.push(None);
    r.push(None);
    r.push(Some(true));
    r.push(None);
    assert_eq!(r.size(), 4);
    assert_eq!(r.run_count(), 3);
    assert_eq!(r.run(0), (&None, 2));
    assert_eq!(r.get_at(2), Some(&Some(true)));
    assert_eq!(r.get_at(3), Some(&None));
    assert_eq!(r.get_at(4), None);
    let same = RunLengthEncoding::repeat(Some(7i16), 3);
    assert_eq!(same.size(), 3);
    assert_eq!(same.run_count(), 1);
    assert_eq!(RunLengthEncoding::repeat(Some(7i16), 0).run_count(), 0);
}

#[test]
fn reading_text_follows_the_fixed_order() {
    let gc = GridController::new();
    let id = gc.sheet_ids()[0];
    let pos = at(id, 0, 0);

    let (ops, value) = gc.string_to_cell_value(pos, "$12.50");
    assert_eq!(value, number("1250", 2));
    assert_eq!(ops.len(), 2);
    assert_eq!(
        ops[0],
        Operation::SetCellFormats {
            sheet_rect: one(id, 0, 0),
            attr: CellFmtArray::NumericFormat(RunLengthEncoding::repeat(
                Some(NumericFormat { kind: NumericFormatKind::Currency, symbol: Some(String::from("$")) }),
                1
            )),
        }
    );
    assert_eq!(
        ops[1],
        Operation::SetCellFormats {
            sheet_rect: one(id, 0, 0),
            attr: CellFmtArray::NumericDecimals(RunLengthEncoding::repeat(Some(2), 1)),
        }
    );

    let (ops, value) = gc.string_to_cell_value(pos, "50%");
    assert_eq!(value, number("5", 1));
    assert_eq!(
        ops,
        vec![Operation::SetCellFormats {
            sheet_rect: one(id, 0, 0),
            attr: CellFmtArray::NumericFormat(RunLengthEncoding::repeat(
                Some(NumericFormat { kind: NumericFormatKind::Percentage, symbol: None }),
                1
            )),
        }]
    );

    let (ops, value) = gc.string_to_cell_value(pos, "hello");
    assert_eq!(value, text("hello"));
    assert!(ops.is_empty());

    let (ops, value) = gc.string_to_cell_value(pos, "");
    assert_eq!(value, CellValue::Blank);
    assert!(ops.is_empty());

    let (ops, value) = gc.string_to_cell_value(pos, "-3.25");
    assert_eq!(value, number("-325", 2));
    assert!(ops.is_empty());
}

#[test]
fn money_keeps_decimal_places_that_are_set() {
    let mut gc = GridController::new();
    let id = gc.sheet_ids()[0];
    gc.set_cell_format(one(id, 2, 2), FormatValue::NumericDecimals(Some(4)), None);
    let (ops, value) = gc.string_to_cell_value(at(id, 2, 2), "$12.50");
    assert_eq!(value, number("1250", 2));
    assert_eq!(ops.len(), 1);
    let (ops, _) = gc.string_to_cell_value(at(id, 2, 3), "$12.50");
    assert_eq!(ops.len(), 2);
}

#[test]
fn value_from_parts_prefers_money_over_a_plain_number() {
    let id = SheetId { id: 1 };
    let (ops, value) = value_from_parts(
        at(id, 0, 0),
        "x",
        Some((String::from("€"), decimal("7", 0))),
        Some(decimal("9", 0)),
        Some(decimal("1", 0)),
        true,
    );
    assert_eq!(value, number("7", 0));
    assert_eq!(ops.len(), 1);
    let (ops, value) = value_from_parts(at(id, 0, 0), "x", None, None, Some(decimal("1", 0)), false);
    assert_eq!(value, number("1", 0));
    assert_eq!(ops.len(), 1);
    let (ops, value) = value_from_parts(at(id, 0, 0), "", Some((String::from("$"), decimal("7", 0))), None, None, false);
    assert_eq!(value, CellValue::Blank);
    assert!(ops.is_empty());
}

#[test]
fn currency_and_percentage_literals() {
    assert_eq!(unpack_currency("$12.50"), Some((String::from("$"), decimal("1250", 2))));
    assert_eq!(unpack_currency("£3"), Some((String::from("£"), decimal("3", 0))));
    assert_eq!(unpack_currency("12.50"), None);
    assert_eq!(unpack_currency("$abc"), None);
    assert_eq!(unpack_currency(""), None);
    assert_eq!(unpack_percentage("50%"), Some(decimal("5", 1)));
    assert_eq!(unpack_percentage("12.5%"), Some(decimal("125", 3)));
    assert_eq!(unpack_percentage("%"), None);
    assert_eq!(unpack_percentage("50"), None);
}

#[test]
fn decimals_parse_render_and_shrink() {
    assert_eq!(Decimal::parse("12"), Some(decimal("12", 0)));
    assert_eq!(Decimal::parse("12.50"), Some(decimal("1250", 2)));
    assert_eq!(Decimal::parse("1e3"), Some(decimal("1", -3)));
    assert_eq!(Decimal::parse("twelve"), None);
    assert_eq!(decimal("1250", 2).to_text(), "12.50");
    assert_eq!(decimal("-5", 1).to_text(), "-0.5");
    assert_eq!(decimal("not digits", 0).to_text(), "");
    assert_eq!(decimal("50", 0).hundredth(), Some(decimal("5", 1)));
    assert_eq!(decimal("1", i64::MAX).hundredth(), None);
    assert!(decimal("5", 1).same(&decimal("5", 1)));
    assert!(!decimal("5", 1).same(&decimal("50", 2)));
}

#[test]
fn values_show_as_text() {
    assert_eq!(CellValue::Blank.to_display(), "");
    assert_eq!(text("1, 1").to_display(), "1, 1");
    assert_eq!(number("12", 0).to_display(), "12");
    assert_eq!(CellValue::Logical(true).to_display(), "TRUE");
    assert_eq!(CellValue::Logical(false).to_display(), "FALSE");
    assert_eq!(CellValue::Error(String::from("bad")).to_display(), "bad");
    assert!(text("a").same(&text("a")));
    assert!(!text("a").same(&CellValue::Error(String::from("a"))));
    assert_eq!(number("12", 0).duplicate(), number("12", 0));
}

#[test]
fn typing_trims_and_replaces_code() {
    let mut gc = GridController::new();
    let id = gc.sheet_ids()[0];
    gc.set_cell_code(at(id, 1, 1), CodeCellLanguage::Python, String::from("1"), String::new(), None);
    let ops = gc.set_cell_value_operations(at(id, 1, 1), String::from("  7  "));
    assert_eq!(
        ops,
        vec![
            Operation::SetCellCode { sheet_pos: at(id, 1, 1), code_cell_value: None },
            Operation::SetCellValues { sheet_rect: one(id, 1, 1), values: Array::from_value(number("7", 0)) },
        ]
    );
    assert!(gc.set_cell_value_operations(at(SheetId { id: 99 }, 1, 1), String::from("7")).is_empty());
    gc.set_cell_value(at(id, 1, 1), String::from("  7  "), None);
    assert_eq!(shown(&gc, id, 1, 1), Some(number("7", 0)));
    assert!(gc.sheet(id).unwrap().get_code_cell(Pos { x: 1, y: 1 }).is_none());
}

#[test]
fn undo_and_redo_follow_the_stack_discipline() {
    let mut gc = GridController::new();
    let id = gc.sheet_ids()[0];
    let empty = GridController::with_sheet(id);
    assert!(!gc.has_undo() && !gc.js_has_redo());

    gc.set_cell_value(at(id, 0, 0), String::from("a"), Some(String::from("c1")));
    gc.set_cell_bold(one(id, 0, 0), Some(true), None);
    gc.set_cell_value(at(id, 0, 1), String::from("$3"), None);
    assert_eq!(gc.undo_len(), 3);
    let after_three = (shown(&gc, id, 0, 0), shown(&gc, id, 0, 1));

    let summary = gc.undo(Some(String::from("now"))).unwrap();
    assert_eq!(summary.cell_regions_modified.len(), 3);
    assert_eq!(shown(&gc, id, 0, 1), None);
    assert_eq!(gc.redo_len(), 1);

    gc.redo(None).unwrap();
    assert_eq!((shown(&gc, id, 0, 0), shown(&gc, id, 0, 1)), after_three);
    assert_eq!(
        gc.sheet(id).unwrap().get_numeric_decimals(Pos { x: 0, y: 1 }),
        Some(2)
    );
    assert_eq!(gc.undo_len(), 3);
    assert!(!gc.has_redo());

    gc.undo(None);
    gc.undo(None);
    let first = gc.undo(None).unwrap();
    assert_eq!(first.cursor, Some(String::from("c1")));
    assert!(gc.undo(None).is_none());
    assert_eq!(gc.grid(), empty.grid());
    assert_eq!(gc.redo_len(), 3);

    // a new transaction of the user clears the redo stack
    gc.set_cell_value(at(id, 5, 5), String::from("x"), None);
    assert!(!gc.has_redo());
    let before = shown(&gc, id, 5, 5);
    assert!(gc.redo(None).is_none());
    assert_eq!(shown(&gc, id, 5, 5), before);
}

#[test]
fn an_empty_transaction_leaves_no_trace() {
    let mut gc = GridController::new();
    let s = gc.set_in_progress_transaction(vec![], Some(String::from("c")), true, TransactionType::Normal).unwrap();
    assert!(s.is_empty());
    assert_eq!(s.cursor, Some(String::from("c")));
    assert_eq!(gc.undo_len(), 0);
    assert_eq!(TransactionSummary::default(), TransactionSummary::new());
}

#[test]
fn a_stale_operation_is_passed_over() {
    let mut gc = GridController::new();
    let id = gc.sheet_ids()[0];
    gc.set_cell_value(at(id, 0, 0), String::from("kept"), None);
    gc.set_cell_value(at(id, 1, 1), String::from("undone"), None);
    gc.undo(None);
    assert!(gc.has_redo());
    let before = gc.grid().clone();

    let gone = SheetId { id: 12345 };
    let ops = vec![Operation::SetCellValues { sheet_rect: one(gone, 0, 0), values: Array::from_value(text("x")) }];
    let s = gc.set_in_progress_transaction(ops, None, false, TransactionType::Normal).unwrap();
    assert!(s.is_empty());
    assert_eq!(gc.grid(), &before);
    // the list was not empty: the transaction is on the undo stack and nothing can be redone
    assert_eq!(gc.undo_len(), 2);
    assert!(!gc.has_redo());
    assert!(gc.redo(None).is_none());

    // undoing it takes back nothing, and the transaction before it stays
    let undone = gc.undo(None).unwrap();
    assert!(undone.is_empty());
    assert_eq!(gc.grid(), &before);
    assert_eq!((gc.undo_len(), gc.redo_len()), (1, 1));
    assert_eq!(shown(&gc, id, 0, 0), Some(text("kept")));
}

#[test]
fn a_malformed_operation_stops_the_transaction() {
    let mut gc = GridController::new();
    let id = gc.sheet_ids()[0];
    let wide = SheetRect::new_pos_span(Pos { x: 0, y: 0 }, Pos { x: 1, y: 0 }, id);
    let ops = vec![
        Operation::SetCellValues { sheet_rect: one(id, 0, 0), values: Array::from_value(text("kept")) },
        Operation::SetCellValues { sheet_rect: wide, values: Array::from_value(text("bad")) },
        Operation::SetCellValues { sheet_rect: one(id, 3, 3), values: Array::from_value(text("never")) },
    ];
    let failure = gc.set_in_progress_transaction(ops, None, false, TransactionType::Normal).unwrap_err();
    assert_eq!(failure.index, 1);
    assert_eq!(failure.summary.cell_regions_modified, vec![one(id, 0, 0)]);
    assert_eq!(shown(&gc, id, 0, 0), Some(text("kept")));
    assert_eq!(shown(&gc, id, 1, 0), None);
    assert_eq!(shown(&gc, id, 3, 3), None);
    assert_eq!(gc.undo_len(), 1);
    gc.undo(None);
    assert_eq!(shown(&gc, id, 0, 0), None);
}

#[test]
fn begin_apply_commit() {
    let mut gc = GridController::new();
    let id = gc.sheet_ids()[0];
    gc.begin(TransactionType::Normal);
    let bad = SheetRect::new_pos_span(Pos { x: 0, y: 0 }, Pos { x: 0, y: 1 }, id);
    let r = gc.apply(
        vec![Operation::SetCellFormats {
            sheet_rect: bad,
            attr: CellFmtArray::Bold(RunLengthEncoding::repeat(Some(true), 3)),
        }],
        false,
    );
    assert_eq!(r, Err(TransactionError { index: 0 }));
    assert!(gc.in_transaction());
    let s = gc.commit(None);
    assert!(s.is_empty());
    assert!(!gc.in_transaction());
    assert_eq!(gc.undo_len(), 1);

    gc.begin(TransactionType::Normal);
    assert_eq!(gc.apply(vec![], false), Ok(()));
    gc.commit(None);
    assert_eq!(gc.undo_len(), 1);
}

#[test]
fn trimming_takes_white_space_from_both_ends() {
    assert_eq!(trim_text("  7  "), "7");
    assert_eq!(trim_text("\t a b \n"), "a b");
    assert_eq!(trim_text(""), "");
    assert_eq!(trim_text(" \u{a0}\u{3000} "), "");
    assert_eq!(trim_text("x"), "x");
    for code in 0u32..0x3100 {
        if let Some(c) = char::from_u32(code) {
            assert_eq!(white_space(c), c.is_whitespace());
            let around = format!("{c}a{c}b{c}");
            assert_eq!(trim_text(&around), around.trim());
        }
    }
    assert!(!white_space('\u{feff}') && !white_space('\u{200b}'));
}

#[test]
fn grid_applies_and_inverts_single_operations() {
    let id = SheetId { id: 7 };
    let mut grid = Grid::new();
    let add = Operation::AddSheet { sheet: Sheet::new(id, String::from("S"), String::from("a0")), index: 0 };
    assert_eq!(grid.apply(add), Ok(Some(Operation::DeleteSheet { sheet_id: id })));
    assert_eq!(grid.sheet_ids(), vec![id]);
    assert_eq!(grid.sheet_id_to_index(id), Some(0));
    assert_eq!(grid.sheet_index_to_id(1), None);

    let again = Operation::AddSheet { sheet: Sheet::new(id, String::from("T"), String::from("a1")), index: 0 };
    assert_eq!(grid.apply(again), Ok(None));

    let rename = Operation::SetSheetName { sheet_id: id, name: String::from("New") };
    assert_eq!(grid.apply(rename), Ok(Some(Operation::SetSheetName { sheet_id: id, name: String::from("S") })));
    assert_eq!(grid.sheet(0).name(), "New");

    let colour = Operation::SetSheetColor { sheet_id: id, color: Some(String::from("red")) };
    assert_eq!(grid.apply(colour), Ok(Some(Operation::SetSheetColor { sheet_id: id, color: None })));

    let mismatch = Operation::SetCellValues {
        sheet_rect: SheetRect::new_pos_span(Pos { x: 0, y: 0 }, Pos { x: 2, y: 2 }, id),
        values: Array::new_empty(ArraySize { w: 2, h: 2 }),
    };
    assert_eq!(grid.apply(mismatch), Err(OperationError::SizeMismatch));

    let removed = grid.apply(Operation::DeleteSheet { sheet_id: id }).unwrap().unwrap();
    assert_eq!(grid.sheet_count(), 0);
    assert_eq!(grid.apply(removed), Ok(Some(Operation::DeleteSheet { sheet_id: id })));
    assert_eq!(grid.sheet(0).name(), "New");
}

#[test]
fn deleting_a_rectangle_clears_values_code_and_formats() {
    let mut gc = GridController::new();
    let id = gc.sheet_ids()[0];
    gc.set_cell_value(at(id, 0, 0), String::from("a"), None);
    gc.set_cell_code(at(id, 1, 1), CodeCellLanguage::Formula, String::from("1"), String::new(), None);
    gc.set_cell_bold(one(id, 0, 0), Some(true), None);
    let rect = SheetRect::new_pos_span(Pos { x: 0, y: 0 }, Pos { x: 1, y: 1 }, id);

    let ops = gc.delete_cells_rect_operations(rect);
    assert_eq!(
        ops,
        vec![
            Operation::SetCellValues { sheet_rect: rect, values: Array::new_empty(ArraySize { w: 2, h: 2 }) },
            Operation::SetCellCode { sheet_pos: at(id, 1, 1), code_cell_value: None },
        ]
    );
    assert_eq!(gc.clear_formatting_operations(rect).len(), 8);
    assert_eq!(gc.delete_values_and_formatting_operations(rect).len(), 10);

    let expected = gc.copy_to_clipboard(rect);
    let (summary, copy) = gc.cut_to_clipboard(rect, None);
    assert_eq!(copy.plain_text, "a\t\n\t");
    assert_eq!(
        copy.html,
        "<tbody><tr><td><span style={font-weight:bold;}>a</span></td><td></tr><tr><td></td><td></tr></tbody></table>"
    );
    assert_eq!(copy.clipboard, expected.clipboard);
    assert_eq!(summary.cell_regions_modified.len(), 10);
    assert_eq!(shown(&gc, id, 0, 0), None);
    assert!(gc.sheet(id).unwrap().get_code_cell(Pos { x: 1, y: 1 }).is_none());
    assert_eq!(
        gc.sheet(id).unwrap().get_cell_format_summary(Pos { x: 0, y: 0 }),
        CellFormatSummary { bold: None, italic: None, text_color: None, fill_color: None }
    );
    gc.undo(None);
    assert_eq!(shown(&gc, id, 0, 0), Some(text("a")));
    assert_eq!(gc.sheet(id).unwrap().get_cell_format_summary(Pos { x: 0, y: 0 }).bold, Some(true));
    assert!(gc.sheet(id).unwrap().get_code_cell(Pos { x: 1, y: 1 }).is_some());

    gc.delete_cell_values(rect, None);
    assert_eq!(shown(&gc, id, 0, 0), None);
    assert_eq!(gc.sheet(id).unwrap().get_cell_format_summary(Pos { x: 0, y: 0 }).bold, Some(true));
}

#[test]
fn a_value_in_the_way_spills_the_code_output() {
    let mut gc = GridController::new();
    let id = gc.sheet_ids()[0];
    gc.set_cell_code(at(id, 0, 0), CodeCellLanguage::Python, String::from("[1, 2, 3]"), String::new(), None);
    let mut block = Array::new_empty(ArraySize { w: 1, h: 3 });
    block.set(0, 0, CellValue::Logical(true));
    block.set(0, 1, text("two"));
    block.set(0, 2, text("three"));
    let summary = gc.set_code_cell_output(
        at(id, 0, 0),
        CodeCellRunOutput {
            std_out: None,
            std_err: None,
            result: CodeCellRunResult::Success { output_value: Output::Array(block), cells_accessed: vec![] },
        },
    );
    assert!(summary.code_cells_modified.is_empty());
    assert_eq!(gc.undo_len(), 1);
    assert!(!gc.sheet(id).unwrap().code_cell_spilled(Pos { x: 0, y: 0 }));
    assert_eq!(shown(&gc, id, 0, 0), Some(CellValue::Logical(true)));
    assert_eq!(shown(&gc, id, 0, 2), Some(text("three")));
    assert_eq!(shown(&gc, id, 0, 3), None);
    assert_eq!(shown(&gc, id, 1, 1), None);

    // a direct value in the way marks the output spilled
    gc.set_cell_value(at(id, 0, 1), String::from("mine"), None);
    assert!(gc.sheet(id).unwrap().code_cell_spilled(Pos { x: 0, y: 0 }));
    assert_eq!(shown(&gc, id, 0, 0), Some(CellValue::Error(String::from("spill"))));
    assert_eq!(shown(&gc, id, 0, 1), Some(text("mine")));
    assert_eq!(shown(&gc, id, 0, 2), None);

    // taking the value away clears the mark, and no code has to run
    let summary = gc.delete_cell_values(one(id, 0, 1), None);
    assert!(summary.code_cells_modified.is_empty());
    assert!(!gc.sheet(id).unwrap().code_cell_spilled(Pos { x: 0, y: 0 }));
    assert_eq!(shown(&gc, id, 0, 1), Some(text("two")));
    assert_eq!(gc.sheet(id).unwrap().get_cell_value_only(Pos { x: 0, y: 1 }), None);
}

#[test]
fn a_failed_run_shows_its_error() {
    let mut gc = GridController::new();
    let id = gc.sheet_ids()[0];
    let s = gc.set_cell_code(at(id, 2, 2), CodeCellLanguage::Python, String::from("1/0"), String::from("t"), None);
    assert_eq!(s.code_cells_modified, vec![at(id, 2, 2)]);
    gc.set_code_cell_output(
        at(id, 2, 2),
        CodeCellRunOutput {
            std_out: None,
            std_err: Some(String::from("boom")),
            result: CodeCellRunResult::Failure { error: RunError { span: None, msg: String::from("division") } },
        },
    );
    assert_eq!(shown(&gc, id, 2, 2), Some(CellValue::Error(String::from("division"))));
    assert_eq!(gc.sheet(id).unwrap().get_code_cell_value(Pos { x: 2, y: 2 }), Some(CellValue::Error(String::from("division"))));
    // storing output where there is no code changes nothing
    let none = gc.set_code_cell_output(
        at(id, 9, 9),
        CodeCellRunOutput {
            std_out: None,
            std_err: None,
            result: CodeCellRunResult::Success { output_value: Output::Single(text("x")), cells_accessed: vec![] },
        },
    );
    assert!(none.is_empty());
}

#[test]
fn pasting_plain_text_fills_rows_and_columns() {
    let mut gc = GridController::new();
    let id = gc.sheet_ids()[0];
    gc.paste_plain_text(id, Pos { x: 2, y: 3 }, String::from("a\t$5\n\t10%"), None);
    assert_eq!(shown(&gc, id, 2, 3), Some(text("a")));
    assert_eq!(shown(&gc, id, 3, 3), Some(number("5", 0)));
    assert_eq!(shown(&gc, id, 2, 4), None);
    assert_eq!(shown(&gc, id, 3, 4), Some(number("1", 1)));
    assert_eq!(gc.undo_len(), 1);
    assert_eq!(split("a\tb\t", '\t'), vec!["a", "b", ""]);
    assert_eq!(split("", '\n'), vec![""]);
    assert_eq!(split("\n", '\n'), vec!["", ""]);
    let s = gc.paste_from_clipboard(id, Pos { x: 0, y: 0 }, None, None, None);
    assert!(s.is_empty());
}

#[test]
fn shared_transactions_wait_for_their_turn() {
    let tx = |n: u64| SequencedTransaction { id: n as u128, sequence_num: n, operations: vec![] };
    let numbers = |v: &Vec<SequencedTransaction>| v.iter().map(|t| t.sequence_num).collect::<Vec<u64>>();
    let mut s = Sequencer::new(0);
    assert_eq!(numbers(&s.receive(tx(3))), Vec::<u64>::new());
    assert_eq!(numbers(&s.receive(tx(2))), Vec::<u64>::new());
    assert_eq!(numbers(&s.receive(tx(3))), Vec::<u64>::new());
    assert_eq!(s.waiting_count(), 2);
    assert_eq!(s.current(), 0);
    assert_eq!(numbers(&s.receive(tx(1))), vec![1, 2, 3]);
    assert_eq!(s.current(), 3);
    assert_eq!(s.waiting_count(), 0);
    assert_eq!(numbers(&s.receive(tx(2))), Vec::<u64>::new());
    assert_eq!(numbers(&s.receive(tx(5))), Vec::<u64>::new());
    assert_eq!(numbers(&s.receive(tx(4))), vec![4, 5]);
    let mut end = Sequencer::new(u64::MAX - 1);
    assert_eq!(numbers(&end.receive(tx(u64::MAX))), vec![u64::MAX]);
    assert_eq!(numbers(&end.receive(tx(u64::MAX))), Vec::<u64>::new());
}

#[test]
fn a_replayed_transaction_leaves_the_history_alone() {
    let mut gc = GridController::new();
    let id = gc.sheet_ids()[0];
    gc.set_cell_value(at(id, 0, 0), String::from("mine"), None);
    gc.undo(None);
    let ops = vec![Operation::SetCellValues { sheet_rect: one(id, 1, 1), values: Array::from_value(text("theirs")) }];
    gc.received_transaction(ops).unwrap();
    assert_eq!(shown(&gc, id, 1, 1), Some(text("theirs")));
    assert_eq!((gc.undo_len(), gc.redo_len()), (0, 1));
}

#[test]
fn sheets_are_named_by_the_text_of_their_identifiers() {
    let id = SheetId { id: 0x0123456789abcdef0123456789abcdef };
    let gc = GridController::with_sheet(id);
    let name = id.to_text();
    assert_eq!(name, "01234567-89ab-cdef-0123-456789abcdef");
    assert_eq!(SheetId::parse(&name), Some(id));
    assert_eq!(SheetId::parse("no identifier"), None);
    assert_ne!(SheetId::new(), SheetId::new());
    let fresh = SheetId::new().id;
    assert_eq!((fresh >> 76) & 0xf, 4);
    assert_eq!((fresh >> 62) & 0x3, 2);
    assert_eq!(&SheetId { id: fresh }.to_text()[14..15], "4");
    assert_eq!(gc.js_sheet_id_to_index(name.clone()), Some(0));
    assert_eq!(gc.sheet_index_of(String::from("?")), None);
    assert_eq!(gc.js_sheet_index_to_id(0), Ok(name.clone()));
    assert_eq!(gc.js_sheet_index_to_id(1), Err(()));
    assert_eq!(gc.js_sheet_name(name.clone()), "Sheet 1");
    assert_eq!(gc.js_sheet_color(name.clone()), "");
    assert_eq!(gc.js_sheet_order(name.clone()), "a0");
    assert_eq!(gc.sheet_labels(name), Some((String::from("Sheet 1"), String::new(), String::from("a0"))));
    assert_eq!(gc.sheet_labels(String::from("x")), None);
    assert_eq!(GridController::js_new().sheet_ids().len(), 1);
}

#[test]
fn rectangles_and_sizes() {
    let r = Rect::new_span(Pos { x: 3, y: -1 }, Pos { x: 1, y: 2 });
    assert_eq!(r, Rect { min: Pos { x: 1, y: -1 }, max: Pos { x: 3, y: 2 } });
    assert_eq!(r.size(), Some(ArraySize { w: 3, h: 4 }));
    assert_eq!(ArraySize { w: 3, h: 4 }.len(), 12);
    assert!(r.contains(Pos { x: 2, y: 0 }) && !r.contains(Pos { x: 4, y: 0 }));
    assert_eq!(Rect { min: Pos { x: 1, y: 1 }, max: Pos { x: 0, y: 1 } }.size(), None);
    assert_eq!(Rect { min: Pos { x: i64::MIN, y: 0 }, max: Pos { x: i64::MAX, y: 0 } }.size(), None);
    assert_eq!(ArraySize::new(0, 3), None);
    assert_eq!(reversed(vec![1, 2, 3]), vec![3, 2, 1]);
}

#[test]
fn sheets_are_added_named_and_deleted() {
    let mut gc = GridController::new();
    let first = gc.sheet_ids()[0];
    let s = gc.add_sheet(Some(String::from("c")));
    assert!(s.sheet_list_modified);
    assert_eq!(s.cursor, Some(String::from("c")));
    let ids = gc.sheet_ids();
    assert_eq!(ids.len(), 2);
    assert_eq!(ids[0], first);
    let second = ids[1];
    assert_eq!(gc.sheet(second).unwrap().name(), "Sheet 2");
    assert_eq!(gc.sheet(second).unwrap().order(), "a1");

    gc.set_sheet_name(second, String::from("Costs"), None);
    gc.set_sheet_color(second, Some(String::from("red")), None);
    assert_eq!(gc.sheet(second).unwrap().name(), "Costs");
    assert_eq!(gc.sheet(second).unwrap().color(), Some(String::from("red")));
    gc.undo(None);
    assert_eq!(gc.sheet(second).unwrap().color(), None);
    gc.undo(None);
    assert_eq!(gc.sheet(second).unwrap().name(), "Sheet 2");

    gc.delete_sheet(first, None);
    assert_eq!(gc.sheet_ids(), vec![second]);
    gc.undo(None);
    assert_eq!(gc.sheet_ids(), vec![first, second]);

    // an identifier that the grid has already adds nothing
    gc.add_sheet_as(first, None);
    assert_eq!(gc.sheet_ids(), vec![first, second]);
}

#[test]
fn the_tenth_sheet_is_named_by_its_number() {
    let mut gc = GridController::new();
    for _ in 0..11 {
        gc.add_sheet(None);
    }
    let ids = gc.sheet_ids();
    assert_eq!(gc.sheet(ids[9]).unwrap().name(), "Sheet 10");
    assert_eq!(gc.sheet(ids[9]).unwrap().order(), "a9");
    assert_eq!(gc.sheet(ids[11]).unwrap().name(), "Sheet 12");
    assert_eq!(gc.sheet(ids[11]).unwrap().order(), "a11");
}

#[test]
fn a_sheet_is_copied_with_what_it_holds() {
    let mut gc = GridController::new();
    let first = gc.sheet_ids()[0];
    gc.add_sheet(None);
    let second = gc.sheet_ids()[1];
    gc.set_cell_value(at(first, 1, 2), String::from("hello"), None);
    gc.set_cell_bold(one(first, 1, 2), Some(true), None);

    let copy = SheetId { id: 77 };
    gc.duplicate_sheet_as(first, copy, None);
    assert_eq!(gc.sheet_ids(), vec![first, copy, second]);
    let sheet = gc.sheet(copy).unwrap();
    assert_eq!(sheet.name(), "Sheet 1 Copy");
    assert_eq!(sheet.get_cell_value(Pos { x: 1, y: 2 }), Some(text("hello")));
    assert_eq!(sheet.get_cell_format_summary(Pos { x: 1, y: 2 }).bold, Some(true));
    assert_eq!(sheet.bounds(false), gc.sheet(first).unwrap().bounds(false));

    // the copy is a sheet of its own
    gc.set_cell_value(at(copy, 1, 2), String::from("other"), None);
    assert_eq!(shown(&gc, first, 1, 2), Some(text("hello")));

    // a sheet that the grid lacks is not copied
    let before = gc.undo_len();
    gc.duplicate_sheet_as(SheetId { id: 5 }, SheetId { id: 6 }, None);
    assert_eq!(gc.sheet_ids().len(), 3);
    assert_eq!(gc.undo_len(), before);

    gc.duplicate_sheet(second, None);
    assert_eq!(gc.sheet_ids().len(), 4);
    assert_eq!(gc.sheet_ids()[2], second);
    assert_eq!(gc.sheet(gc.sheet_ids()[3]).unwrap().name(), "Sheet 2 Copy");
}

#[test]
fn a_sheet_moves_before_another_or_to_the_end() {
    let mut gc = GridController::new();
    gc.add_sheet(None);
    gc.add_sheet(None);
    let ids = gc.sheet_ids();
    let (a, b, c) = (ids[0], ids[1], ids[2]);
    gc.set_cell_value(at(a, 0, 0), String::from("kept"), None);

    gc.move_sheet(a, None, None);
    assert_eq!(gc.sheet_ids(), vec![b, c, a]);
    assert_eq!(shown(&gc, a, 0, 0), Some(text("kept")));
    gc.move_sheet(a, Some(c), None);
    assert_eq!(gc.sheet_ids(), vec![b, a, c]);
    gc.move_sheet(c, Some(b), None);
    assert_eq!(gc.sheet_ids(), vec![c, b, a]);
    gc.undo(None);
    assert_eq!(gc.sheet_ids(), vec![b, a, c]);
    gc.redo(None);
    assert_eq!(gc.sheet_ids(), vec![c, b, a]);

    // before itself, or before a sheet that the grid lacks: nothing moves
    let before = gc.undo_len();
    gc.move_sheet(b, Some(b), None);
    gc.move_sheet(b, Some(SheetId { id: 3 }), None);
    gc.move_sheet(SheetId { id: 3 }, None, None);
    assert_eq!(gc.sheet_ids(), vec![c, b, a]);
    assert_eq!(gc.undo_len(), before);
}

#[test]
fn a_controller_over_a_grid_has_no_history() {
    let mut grid = Grid::new();
    let id = SheetId { id: 9 };
    let sheet = Sheet::new(id, String::from("One"), String::from("a0"));
    assert!(grid.apply(Operation::AddSheet { sheet, index: 0 }).is_ok());
    let gc = GridController::from_grid(grid);
    assert_eq!(gc.sheet_ids(), vec![id]);
    assert!(!gc.has_undo());
    assert!(!gc.has_redo());
    assert!(!gc.in_transaction());
}

#[test]
fn numbers_are_written_in_decimal_digits() {
    let mut out = String::from("n");
    push_natural(&mut out, 0);
    push_natural(&mut out, 7);
    push_natural(&mut out, 10);
    push_natural(&mut out, 4096);
    push_natural(&mut out, u128::MAX);
    assert_eq!(out, format!("n0710{}{}", 4096, u128::MAX));
}

#[test]
fn copies_of_columns_and_planes_hold_the_same() {
    let mut c: ColumnData<bool> = ColumnData::new();
    c.set_range(0, 4, true);
    c.set_range(2, 3, false);
    let d = c.duplicate();
    assert_eq!(runs_of(&d), vec![(0, 1, true), (2, 3, false), (4, 4, true)]);
    assert_eq!(d, c);
    let mut p: Plane<bool> = Plane::new();
    p.set_range(3, 0, 9, Some(true));
    p.set_range(1, 5, 5, Some(false));
    let q = p.duplicate();
    assert_eq!(q, p);
    assert_eq!(q.get(1, 5), Some(&false));
    assert_eq!(q.get(3, 10), None);
}
