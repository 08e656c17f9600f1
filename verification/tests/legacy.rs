use quadratic_core::borders::CellBorder;
use quadratic_core::borders::CellBorderStyle;
use quadratic_core::borders::SheetBorders;
use quadratic_core::code::CodeCellLanguage;
use quadratic_core::code::CodeCellRunOutput;
use quadratic_core::code::CodeCellRunResult;
use quadratic_core::code::CodeCellValue;
use quadratic_core::code::RunError;
use quadratic_core::code::Span;
use quadratic_core::code::Value as Output;
use quadratic_core::controller::GridController;
use quadratic_core::decimal::Decimal;
use quadratic_core::formatting::FormatValue;
use quadratic_core::legacy::block_of;
use quadratic_core::legacy::text_to_value;
use quadratic_core::legacy::JsArrayOutput;
use quadratic_core::legacy::JsBorders;
use quadratic_core::legacy::JsCell;
use quadratic_core::legacy::JsCellEvalResult;
use quadratic_core::legacy::JsCellType;
use quadratic_core::position::ArraySize;
use quadratic_core::position::Pos;
use quadratic_core::position::Rect;
use quadratic_core::position::SheetId;
use quadratic_core::position::SheetPos;
use quadratic_core::position::SheetRect;
use quadratic_core::values::Array;
use quadratic_core::values::CellValue;

fn text(s: &str) -> CellValue {
    CellValue::Text(String::from(s))
}

fn cell(kind: JsCellType) -> JsCell {
    JsCell {
        x: 1,
        y: 2,
        cell_type: kind,
        value: String::from("shown"),
        array_cells: None,
        dependent_cells: None,
        evaluation_result: None,
        formula_code: Some(String::from("A1 + 1")),
        last_modified: Some(String::from("yesterday")),
        ai_prompt: None,
        python_code: Some(String::from("print(1)")),
    }
}

fn run(success: bool, array_output: Option<JsArrayOutput>) -> JsCellEvalResult {
    JsCellEvalResult {
        success,
        std_out: Some(String::from("out")),
        std_err: None,
        output_value: Some(String::from("7")),
        cells_accessed: vec![(0, 0), (3, 4)],
        array_output,
        formatted_code: String::from("pretty"),
        error_span: Some((2, 5)),
    }
}

#[test]
fn a_text_cell_has_a_value_and_no_code() {
    let c = cell(JsCellType::Text);
    assert_eq!(c.to_cell_value(), Some(text("shown")));
    assert_eq!(c.to_code_cell_value(SheetId { id: 1 }), None);
    assert_eq!(cell(JsCellType::Computed).to_cell_value(), None);
    assert_eq!(cell(JsCellType::Computed).to_code_cell_value(SheetId { id: 1 }), None);
    assert_eq!(cell(JsCellType::Python).to_cell_value(), None);
}

#[test]
fn a_code_cell_keeps_language_source_and_time() {
    let id = SheetId { id: 1 };
    assert_eq!(
        cell(JsCellType::Python).to_code_cell_value(id),
        Some(CodeCellValue {
            language: CodeCellLanguage::Python,
            code_string: String::from("print(1)"),
            formatted_code_string: None,
            last_modified: String::from("yesterday"),
            output: None,
        })
    );
    let formula = cell(JsCellType::Formula).to_code_cell_value(id).unwrap();
    assert_eq!((formula.language, formula.code_string.as_str()), (CodeCellLanguage::Formula, "A1 + 1"));
    let script = cell(JsCellType::Javascript).to_code_cell_value(id).unwrap();
    assert_eq!((script.language, script.code_string.as_str()), (CodeCellLanguage::JavaScript, ""));
    let mut bare = cell(JsCellType::Sql);
    bare.last_modified = None;
    let sql = bare.to_code_cell_value(id).unwrap();
    assert_eq!((sql.language, sql.last_modified.as_str()), (CodeCellLanguage::Sql, ""));
}

#[test]
fn a_run_becomes_output() {
    let id = SheetId { id: 9 };
    let mut c = cell(JsCellType::Python);
    c.evaluation_result = Some(run(true, None));
    let code = c.to_code_cell_value(id).unwrap();
    assert_eq!(code.formatted_code_string, Some(String::from("pretty")));
    assert_eq!(
        code.output,
        Some(CodeCellRunOutput {
            std_out: Some(String::from("out")),
            std_err: None,
            result: CodeCellRunResult::Success {
                output_value: Output::Single(text("7")),
                cells_accessed: vec![SheetPos { x: 0, y: 0, sheet_id: id }, SheetPos { x: 3, y: 4, sheet_id: id }],
            },
        })
    );

    let mut blank = run(true, None);
    blank.output_value = None;
    match blank.to_run_output(id).unwrap().result {
        CodeCellRunResult::Success { output_value, .. } => assert_eq!(output_value, Output::Single(CellValue::Blank)),
        _ => panic!("a run that succeeded"),
    }

    assert_eq!(
        run(false, None).to_run_output(id).unwrap().result,
        CodeCellRunResult::Failure { error: RunError { span: Some(Span { start: 2, end: 5 }), msg: String::new() } }
    );
}

#[test]
fn lists_and_tables_become_blocks() {
    let list = JsArrayOutput::Array(vec![Some(text("a")), None, Some(CellValue::Logical(true))]);
    let mut expected = Array::new_empty(ArraySize { w: 1, h: 3 });
    expected.set(0, 0, text("a"));
    expected.set(0, 2, CellValue::Logical(true));
    assert_eq!(block_of(&list), Some(expected));

    let table = JsArrayOutput::Block(vec![vec![Some(text("a")), Some(text("b"))], vec![None, Some(text("d"))]]);
    let block = block_of(&table).unwrap();
    assert_eq!((block.width(), block.height()), (2, 2));
    assert_eq!(block.get(1, 0), Some(&text("b")));
    assert_eq!(block.get(0, 1), Some(&CellValue::Blank));
    assert_eq!(block.get(1, 1), Some(&text("d")));
    assert_eq!(block.get(2, 0), None);
    assert_eq!(block.cell(1, 1), Some(&text("d")));

    assert_eq!(block_of(&JsArrayOutput::Array(vec![])), None);
    assert_eq!(block_of(&JsArrayOutput::Block(vec![])), None);
    assert_eq!(block_of(&JsArrayOutput::Block(vec![vec![], vec![]])), None);
    let ragged = JsArrayOutput::Block(vec![vec![Some(text("a")), Some(text("b"))], vec![None]]);
    assert_eq!(block_of(&ragged), None);
    assert_eq!(run(true, Some(ragged)).to_run_output(SheetId { id: 1 }), None);
    assert_eq!(Array::new_row_major(ArraySize { w: 2, h: 1 }, &vec![text("a")]), None);
}

#[test]
fn texts_of_the_first_format_read_as_numbers_where_they_can() {
    assert_eq!(text_to_value(String::from("1.5")), CellValue::Number(Decimal { unscaled: String::from("15"), scale: 1 }));
    assert_eq!(text_to_value(String::from("one")), text("one"));
}

#[test]
fn borders_of_the_first_format_are_drawn() {
    let line = CellBorder { color: None, style: Some(CellBorderStyle::Dashed) };
    let mut borders = SheetBorders::new();
    JsBorders { x: 2, y: 3, horizontal: Some(line.clone()), vertical: None }.draw(&mut borders);
    assert_eq!(borders.line(true, Pos { x: 2, y: 3 }), Some(line.clone()));
    assert_eq!(borders.line(false, Pos { x: 2, y: 3 }), None);
    JsBorders { x: 2, y: 3, horizontal: None, vertical: Some(line.clone()) }.draw(&mut borders);
    assert_eq!(borders.line(true, Pos { x: 2, y: 3 }), Some(line.clone()));
    assert_eq!(borders.line(false, Pos { x: 2, y: 3 }), Some(line));
}

#[test]
fn bounds_are_tight_and_may_leave_formats_aside() {
    let mut gc = GridController::new();
    let id = gc.sheet_ids()[0];
    assert_eq!(gc.sheet(id).unwrap().bounds(false), None);
    gc.set_cell_value(SheetPos { x: 2, y: 3, sheet_id: id }, String::from("a"), None);
    gc.set_cell_code(
        SheetPos { x: -1, y: 5, sheet_id: id },
        CodeCellLanguage::Python,
        String::from("1"),
        String::new(),
        None,
    );
    gc.set_cell_format(
        SheetRect::new_pos_span(Pos { x: 7, y: 0 }, Pos { x: 8, y: 1 }, id),
        FormatValue::FillColor(Some(String::from("red"))),
        None,
    );
    let sheet = gc.sheet(id).unwrap();
    assert_eq!(sheet.bounds(true), Some(Rect { min: Pos { x: -1, y: 3 }, max: Pos { x: 2, y: 5 } }));
    assert_eq!(sheet.bounds(false), Some(Rect { min: Pos { x: -1, y: 0 }, max: Pos { x: 8, y: 5 } }));
}
