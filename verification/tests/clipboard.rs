use quadratic_core::borders::BorderSelection;
use quadratic_core::borders::BorderSides;
use quadratic_core::borders::CellBorder;
use quadratic_core::borders::CellBorderStyle;
use quadratic_core::borders::JsRenderBorder;
use quadratic_core::clipboard::Clipboard;
use quadratic_core::clipboard::ClipboardCell;
use quadratic_core::code::CodeCellLanguage;
use quadratic_core::code::CodeCellRunOutput;
use quadratic_core::code::CodeCellRunResult;
use quadratic_core::code::CodeCellValue;
use quadratic_core::code::Value as Output;
use quadratic_core::controller::GridController;
use quadratic_core::decimal::Decimal;
use quadratic_core::formatting::CellAlign;
use quadratic_core::formatting::CellFmtArray;
use quadratic_core::formatting::CellFormatSummary;
use quadratic_core::formatting::CellWrap;
use quadratic_core::formatting::NumericFormat;
use quadratic_core::formatting::NumericFormatKind;
use quadratic_core::markup::clipboard_html;
use quadratic_core::markup::clipboard_payload;
use quadratic_core::position::Pos;
use quadratic_core::position::SheetId;
use quadratic_core::position::SheetPos;
use quadratic_core::position::SheetRect;
use quadratic_core::rle::RunLengthEncoding;
use quadratic_core::values::CellValue;
use serde_json::Value;

fn number(n: i64) -> CellValue {
    CellValue::Number(Decimal { unscaled: n.to_string(), scale: 0 })
}

fn text(s: &str) -> CellValue {
    CellValue::Text(String::from(s))
}

fn value_to_json(v: &Option<CellValue>) -> Value {
    let mut m = serde_json::Map::new();
    match v {
        None => return Value::Null,
        Some(CellValue::Blank) => {
            m.insert(String::from("type"), Value::from("blank"));
        }
        Some(CellValue::Text(s)) => {
            m.insert(String::from("type"), Value::from("text"));
            m.insert(String::from("value"), Value::from(s.as_str()));
        }
        Some(CellValue::Number(d)) => {
            m.insert(String::from("type"), Value::from("number"));
            m.insert(String::from("value"), Value::from(d.to_text()));
        }
        Some(CellValue::Logical(b)) => {
            m.insert(String::from("type"), Value::from("logical"));
            m.insert(String::from("value"), Value::from(*b));
        }
        Some(CellValue::Error(e)) => {
            m.insert(String::from("type"), Value::from("error"));
            m.insert(String::from("value"), Value::from(e.as_str()));
        }
    }
    Value::Object(m)
}

fn value_from_json(v: &Value) -> Option<Option<CellValue>> {
    if v.is_null() {
        return Some(None);
    }
    let kind = v.get("type")?.as_str()?;
    let out = match kind {
        "blank" => CellValue::Blank,
        "text" => CellValue::Text(String::from(v.get("value")?.as_str()?)),
        "number" => CellValue::Number(Decimal::parse(v.get("value")?.as_str()?)?),
        "logical" => CellValue::Logical(v.get("value")?.as_bool()?),
        "error" => CellValue::Error(String::from(v.get("value")?.as_str()?)),
        _ => return None,
    };
    Some(Some(out))
}

fn runs_to_json<T>(r: &RunLengthEncoding<Option<T>>, one: &dyn Fn(&T) -> Value) -> Value
where
    T: quadratic_core::content::Content,
{
    let mut runs = Vec::new();
    for i in 0..r.run_count() {
        let (v, n) = r.run(i);
        let item = match v {
            Some(t) => one(t),
            None => Value::Null,
        };
        runs.push(Value::Array(vec![item, Value::from(n as u64)]));
    }
    Value::Array(runs)
}

fn runs_from_json<T>(v: &Value, one: &dyn Fn(&Value) -> Option<T>) -> Option<RunLengthEncoding<Option<T>>>
where
    T: quadratic_core::content::Content,
{
    let mut out = RunLengthEncoding::new();
    for run in v.as_array()? {
        let pair = run.as_array()?;
        let n = pair.get(1)?.as_u64()?;
        for _ in 0..n {
            let item = if pair.get(0)?.is_null() { None } else { Some(one(pair.get(0)?)?) };
            out.push(item);
        }
    }
    Some(out)
}

fn align_name(a: &CellAlign) -> Value {
    Value::from(match a {
        CellAlign::Center => "center",
        CellAlign::Left => "left",
        CellAlign::Right => "right",
    })
}

fn align_named(v: &Value) -> Option<CellAlign> {
    match v.as_str()? {
        "center" => Some(CellAlign::Center),
        "left" => Some(CellAlign::Left),
        "right" => Some(CellAlign::Right),
        _ => None,
    }
}

fn wrap_name(a: &CellWrap) -> Value {
    Value::from(match a {
        CellWrap::Overflow => "overflow",
        CellWrap::Wrap => "wrap",
        CellWrap::Clip => "clip",
    })
}

fn wrap_named(v: &Value) -> Option<CellWrap> {
    match v.as_str()? {
        "overflow" => Some(CellWrap::Overflow),
        "wrap" => Some(CellWrap::Wrap),
        "clip" => Some(CellWrap::Clip),
        _ => None,
    }
}

fn numeric_to_json(f: &NumericFormat) -> Value {
    let mut m = serde_json::Map::new();
    let kind = match f.kind {
        NumericFormatKind::Number => "NUMBER",
        NumericFormatKind::Currency => "CURRENCY",
        NumericFormatKind::Percentage => "PERCENTAGE",
        NumericFormatKind::Exponential => "EXPONENTIAL",
    };
    m.insert(String::from("type"), Value::from(kind));
    m.insert(
        String::from("symbol"),
        match &f.symbol {
            Some(s) => Value::from(s.as_str()),
            None => Value::Null,
        },
    );
    Value::Object(m)
}

fn numeric_from_json(v: &Value) -> Option<NumericFormat> {
    let kind = match v.get("type")?.as_str()? {
        "NUMBER" => NumericFormatKind::Number,
        "CURRENCY" => NumericFormatKind::Currency,
        "PERCENTAGE" => NumericFormatKind::Percentage,
        "EXPONENTIAL" => NumericFormatKind::Exponential,
        _ => return None,
    };
    let symbol = v.get("symbol").and_then(|s| s.as_str()).map(String::from);
    Some(NumericFormat { kind, symbol })
}

fn format_to_json(f: &CellFmtArray) -> Value {
    let mut m = serde_json::Map::new();
    match f {
        CellFmtArray::Align(r) => m.insert(String::from("Align"), runs_to_json(r, &align_name)),
        CellFmtArray::Wrap(r) => m.insert(String::from("Wrap"), runs_to_json(r, &wrap_name)),
        CellFmtArray::NumericFormat(r) => m.insert(String::from("NumericFormat"), runs_to_json(r, &numeric_to_json)),
        CellFmtArray::NumericDecimals(r) => {
            m.insert(String::from("NumericDecimals"), runs_to_json(r, &|n: &i16| Value::from(*n)))
        }
        CellFmtArray::Bold(r) => m.insert(String::from("Bold"), runs_to_json(r, &|b: &bool| Value::from(*b))),
        CellFmtArray::Italic(r) => m.insert(String::from("Italic"), runs_to_json(r, &|b: &bool| Value::from(*b))),
        CellFmtArray::TextColor(r) => {
            m.insert(String::from("TextColor"), runs_to_json(r, &|s: &String| Value::from(s.as_str())))
        }
        CellFmtArray::FillColor(r) => {
            m.insert(String::from("FillColor"), runs_to_json(r, &|s: &String| Value::from(s.as_str())))
        }
    };
    Value::Object(m)
}

fn format_from_json(v: &Value) -> Option<CellFmtArray> {
    let (name, runs) = v.as_object()?.iter().next()?;
    let text_of = |s: &Value| s.as_str().map(String::from);
    Some(match name.as_str() {
        "Align" => CellFmtArray::Align(runs_from_json(runs, &align_named)?),
        "Wrap" => CellFmtArray::Wrap(runs_from_json(runs, &wrap_named)?),
        "NumericFormat" => CellFmtArray::NumericFormat(runs_from_json(runs, &numeric_from_json)?),
        "NumericDecimals" => {
            CellFmtArray::NumericDecimals(runs_from_json(runs, &|n: &Value| n.as_i64().map(|n| n as i16))?)
        }
        "Bold" => CellFmtArray::Bold(runs_from_json(runs, &|b: &Value| b.as_bool())?),
        "Italic" => CellFmtArray::Italic(runs_from_json(runs, &|b: &Value| b.as_bool())?),
        "TextColor" => CellFmtArray::TextColor(runs_from_json(runs, &text_of)?),
        "FillColor" => CellFmtArray::FillColor(runs_from_json(runs, &text_of)?),
        _ => return None,
    })
}

fn line_to_json(b: &Option<CellBorder>) -> Value {
    match b {
        None => Value::Null,
        Some(b) => {
            let mut m = serde_json::Map::new();
            m.insert(
                String::from("color"),
                match &b.color {
                    Some(c) => Value::from(c.as_str()),
                    None => Value::Null,
                },
            );
            m.insert(
                String::from("type"),
                match b.style {
                    Some(CellBorderStyle::Line1) => Value::from("line1"),
                    Some(CellBorderStyle::Line2) => Value::from("line2"),
                    Some(CellBorderStyle::Line3) => Value::from("line3"),
                    Some(CellBorderStyle::Dotted) => Value::from("dotted"),
                    Some(CellBorderStyle::Dashed) => Value::from("dashed"),
                    Some(CellBorderStyle::Double) => Value::from("double"),
                    None => Value::Null,
                },
            );
            Value::Object(m)
        }
    }
}

fn line_from_json(v: &Value) -> Option<Option<CellBorder>> {
    if v.is_null() {
        return Some(None);
    }
    let color = v.get("color").and_then(|c| c.as_str()).map(String::from);
    let style = match v.get("type").and_then(|t| t.as_str()) {
        Some("line1") => Some(CellBorderStyle::Line1),
        Some("line2") => Some(CellBorderStyle::Line2),
        Some("line3") => Some(CellBorderStyle::Line3),
        Some("dotted") => Some(CellBorderStyle::Dotted),
        Some("dashed") => Some(CellBorderStyle::Dashed),
        Some("double") => Some(CellBorderStyle::Double),
        _ => None,
    };
    Some(Some(CellBorder { color, style }))
}

fn to_json(c: &Clipboard) -> String {
    let mut m = serde_json::Map::new();
    m.insert(String::from("w"), Value::from(c.w));
    m.insert(String::from("h"), Value::from(c.h));
    let mut cells = Vec::new();
    for cell in &c.cells {
        let mut e = serde_json::Map::new();
        e.insert(String::from("value"), value_to_json(&cell.value));
        e.insert(String::from("spill"), value_to_json(&cell.spill));
        cells.push(Value::Object(e));
    }
    m.insert(String::from("cells"), Value::Array(cells));
    m.insert(String::from("formats"), Value::Array(c.formats.iter().map(format_to_json).collect()));
    let mut borders = Vec::new();
    for (x, y, sides) in &c.borders {
        let s = match sides {
            None => Value::Null,
            Some(s) => Value::Array(vec![
                line_to_json(&s.left),
                line_to_json(&s.top),
                line_to_json(&s.right),
                line_to_json(&s.bottom),
            ]),
        };
        borders.push(Value::Array(vec![Value::from(*x), Value::from(*y), s]));
    }
    m.insert(String::from("borders"), Value::Array(borders));
    let mut code = Vec::new();
    for (pos, cell) in &c.code {
        let mut p = serde_json::Map::new();
        p.insert(String::from("x"), Value::from(pos.x));
        p.insert(String::from("y"), Value::from(pos.y));
        let mut e = serde_json::Map::new();
        let language = match cell.language {
            CodeCellLanguage::Python => "Python",
            CodeCellLanguage::Formula => "Formula",
            CodeCellLanguage::JavaScript => "JavaScript",
            CodeCellLanguage::Sql => "Sql",
        };
        e.insert(String::from("language"), Value::from(language));
        e.insert(String::from("code_string"), Value::from(cell.code_string.as_str()));
        e.insert(String::from("formatted_code_string"), Value::Null);
        e.insert(String::from("last_modified"), Value::from(cell.last_modified.as_str()));
        e.insert(String::from("output"), Value::Null);
        code.push(Value::Array(vec![Value::Object(p), Value::Object(e)]));
    }
    m.insert(String::from("code"), Value::Array(code));
    Value::Object(m).to_string()
}

fn from_json(json: &str) -> Option<Clipboard> {
    let v: Value = serde_json::from_str(json).ok()?;
    let w = v.get("w")?.as_u64()? as u32;
    let h = v.get("h")?.as_u64()? as u32;
    let mut cells = Vec::new();
    for cell in v.get("cells")?.as_array()? {
        cells.push(ClipboardCell {
            value: value_from_json(cell.get("value")?)?,
            spill: value_from_json(cell.get("spill")?)?,
        });
    }
    let mut formats = Vec::new();
    for f in v.get("formats")?.as_array()? {
        formats.push(format_from_json(f)?);
    }
    let mut borders = Vec::new();
    for b in v.get("borders")?.as_array()? {
        let e = b.as_array()?;
        let sides = match e.get(2)? {
            Value::Null => None,
            Value::Array(s) => Some(BorderSides {
                left: line_from_json(s.get(0)?)?,
                top: line_from_json(s.get(1)?)?,
                right: line_from_json(s.get(2)?)?,
                bottom: line_from_json(s.get(3)?)?,
            }),
            _ => return None,
        };
        borders.push((e.get(0)?.as_i64()?, e.get(1)?.as_i64()?, sides));
    }
    let mut code = Vec::new();
    for c in v.get("code")?.as_array()? {
        let e = c.as_array()?;
        let pos = Pos { x: e.get(0)?.get("x")?.as_i64()?, y: e.get(0)?.get("y")?.as_i64()? };
        let cell = e.get(1)?;
        let language = match cell.get("language")?.as_str()? {
            "Python" => CodeCellLanguage::Python,
            "Formula" => CodeCellLanguage::Formula,
            "JavaScript" => CodeCellLanguage::JavaScript,
            "Sql" => CodeCellLanguage::Sql,
            _ => return None,
        };
        code.push((
            pos,
            CodeCellValue {
                language,
                code_string: String::from(cell.get("code_string")?.as_str()?),
                formatted_code_string: None,
                last_modified: String::from(cell.get("last_modified")?.as_str()?),
                output: None,
            },
        ));
    }
    Some(Clipboard { w, h, cells, formats, borders, code })
}

/// What a clipboard hands to another program: the plain text and the table
/// in markup with the serialized snapshot in its attribute.
fn copy(gc: &GridController, rect: SheetRect) -> (String, String) {
    let c = gc.copy_to_clipboard(rect);
    let html = clipboard_html(&to_json(&c.clipboard), &c.html);
    (c.plain_text, html)
}

/// Pastes what another program handed over: the snapshot in the markup where
/// there is one, else the plain text.
fn paste(gc: &mut GridController, sheet_id: SheetId, pos: Pos, plain_text: Option<String>, html: Option<String>) {
    let snapshot = html.and_then(|h| clipboard_payload(&h)).and_then(|json| from_json(&json));
    gc.paste_from_clipboard(sheet_id, pos, plain_text, snapshot, None);
}

fn result_of(n: i64) -> CodeCellRunOutput {
    CodeCellRunOutput {
        std_out: None,
        std_err: None,
        result: CodeCellRunResult::Success { output_value: Output::Single(number(n)), cells_accessed: vec![] },
    }
}

fn black_line() -> CellBorder {
    CellBorder { color: Some(String::from("#000000")), style: Some(CellBorderStyle::Line1) }
}

fn has_line(lines: &Vec<JsRenderBorder>, x: i64, y: i64, w: Option<u64>, h: Option<u64>) -> bool {
    lines.iter().any(|b| b.x == x && b.y == y && b.w == w && b.h == h && b.style == black_line())
}

#[test]
fn test_copy_to_clipboard() {
    let mut gc = GridController::new();
    let sheet_id = gc.sheet_ids()[0];

    gc.set_cell_value(SheetPos { x: 1, y: 1, sheet_id }, String::from("1, 1"), None);
    gc.set_cell_bold(SheetRect::single_pos(SheetPos { x: 1, y: 1, sheet_id }), Some(true), None);

    gc.set_cell_value(SheetPos { x: 3, y: 2, sheet_id }, String::from("12"), None);
    gc.set_cell_italic(SheetRect::single_pos(SheetPos { x: 3, y: 2, sheet_id }), Some(true), None);

    let sheet_rect = SheetRect { min: Pos { x: 1, y: 1 }, max: Pos { x: 3, y: 2 }, sheet_id };

    let (plain_text, _) = copy(&gc, sheet_rect);
    assert_eq!(plain_text, String::from("1, 1\t\t\n\t\t12"));

    let sheet_rect = SheetRect::new_pos_span(Pos { x: 0, y: 0 }, Pos { x: 3, y: 3 }, sheet_id);
    let clipboard = copy(&gc, sheet_rect);

    // paste using plain_text
    let mut gc = GridController::new();
    let sheet_id = gc.sheet_ids()[0];
    paste(&mut gc, sheet_id, Pos { x: 0, y: 0 }, Some(clipboard.clone().0), None);
    let sheet = gc.sheet(sheet_id).unwrap();
    assert_eq!(sheet.get_cell_value(Pos { x: 1, y: 1 }), Some(text("1, 1")));
    assert_eq!(sheet.get_cell_value(Pos { x: 3, y: 2 }), Some(number(12)));

    // paste using html
    let mut gc = GridController::new();
    let sheet_id = gc.sheet_ids()[0];
    paste(&mut gc, sheet_id, Pos { x: 0, y: 0 }, Some(String::from("")), Some(clipboard.clone().1));
    let sheet = gc.sheet(sheet_id).unwrap();
    assert_eq!(sheet.get_cell_value(Pos { x: 1, y: 1 }), Some(text("1, 1")));
    assert_eq!(
        sheet.get_cell_format_summary(Pos { x: 1, y: 1 }),
        CellFormatSummary { bold: Some(true), italic: None, text_color: None, fill_color: None }
    );
    assert_eq!(sheet.get_cell_value(Pos { x: 3, y: 2 }), Some(number(12)));
    assert_eq!(
        sheet.get_cell_format_summary(Pos { x: 3, y: 2 }),
        CellFormatSummary { bold: None, italic: Some(true), text_color: None, fill_color: None }
    );
}

#[test]
fn test_copy_code_to_clipboard() {
    let mut gc = GridController::new();
    let sheet_id = gc.sheet_ids()[0];

    gc.set_cell_code(
        SheetPos { x: 1, y: 1, sheet_id },
        CodeCellLanguage::Formula,
        String::from("1 + 1"),
        String::new(),
        None,
    );
    gc.set_code_cell_output(SheetPos { x: 1, y: 1, sheet_id }, result_of(2));

    assert_eq!(gc.undo_len(), 1);

    let sheet_rect = SheetRect::new_pos_span(Pos { x: 1, y: 1 }, Pos { x: 1, y: 1 }, sheet_id);
    let clipboard = copy(&gc, sheet_rect);

    // paste using html
    let mut gc = GridController::new();
    let sheet_id = gc.sheet_ids()[0];

    assert_eq!(gc.undo_len(), 0);

    // overwrite an existing code cell
    gc.set_cell_code(
        SheetPos { x: 0, y: 0, sheet_id },
        CodeCellLanguage::Formula,
        String::from("2 + 2"),
        String::new(),
        None,
    );
    gc.set_code_cell_output(SheetPos { x: 0, y: 0, sheet_id }, result_of(4));

    assert_eq!(gc.undo_len(), 1);

    paste(&mut gc, sheet_id, Pos { x: 0, y: 0 }, Some(String::from("")), Some(clipboard.1));
    // the pasted code comes without output and is run anew
    assert_eq!(gc.sheet(sheet_id).unwrap().get_cell_value(Pos { x: 0, y: 0 }), None);
    assert_eq!(
        gc.sheet(sheet_id).unwrap().get_code_cell(Pos { x: 0, y: 0 }).unwrap().code_string,
        String::from("1 + 1")
    );
    gc.set_code_cell_output(SheetPos { x: 0, y: 0, sheet_id }, result_of(2));
    let sheet = gc.sheet(sheet_id).unwrap();
    assert_eq!(sheet.get_cell_value(Pos { x: 0, y: 0 }), Some(number(2)));

    assert_eq!(gc.undo_len(), 2);

    // the code cell that was there before
    gc.undo(None);
    let sheet = gc.sheet(sheet_id).unwrap();
    assert_eq!(sheet.get_cell_value(Pos { x: 0, y: 0 }), Some(number(4)));

    assert_eq!(gc.undo_len(), 1);

    // empty code cell
    gc.undo(None);
    let sheet = gc.sheet(sheet_id).unwrap();
    assert_eq!(sheet.get_cell_value(Pos { x: 0, y: 0 }), None);

    assert_eq!(gc.undo_len(), 0);
}

#[test]
fn test_copy_borders_to_clipboard() {
    let mut gc = GridController::new();
    let sheet_id = gc.sheet_ids()[0];

    gc.set_borders(
        SheetRect::single_pos(SheetPos { x: 0, y: 0, sheet_id }),
        vec![BorderSelection::All],
        Some(black_line()),
        None,
    );

    let sheet_rect = SheetRect::single_pos(SheetPos { x: 0, y: 0, sheet_id });
    let clipboard = copy(&gc, sheet_rect);

    paste(&mut gc, sheet_id, Pos { x: 3, y: 3 }, Some(String::from("")), Some(clipboard.1));

    let sheet = gc.sheet(sheet_id).unwrap();
    let copied = sheet.border_sides(Pos { x: 0, y: 0 });
    let pasted = sheet.border_sides(Pos { x: 3, y: 3 });

    // compare the border info of the two cells
    assert_eq!(copied, pasted);
    assert_eq!(pasted.left, Some(black_line()));
    assert_eq!(pasted.bottom, Some(black_line()));
}

#[test]
fn test_copy_borders_inside() {
    let mut gc = GridController::new();
    let sheet_id = gc.sheet_ids()[0];

    gc.set_borders(
        SheetRect::new_pos_span(Pos { x: 0, y: 0 }, Pos { x: 4, y: 4 }, sheet_id),
        vec![BorderSelection::Outer],
        Some(black_line()),
        None,
    );

    let horizontal = gc.sheet(sheet_id).unwrap().borders().get_render_horizontal_borders();
    let vertical = gc.sheet(sheet_id).unwrap().borders().get_render_vertical_borders();
    assert!(has_line(&horizontal, 0, 0, Some(5), None));
    assert!(has_line(&horizontal, 0, 5, Some(5), None));
    assert!(has_line(&vertical, 0, 0, None, Some(5)));
    assert!(has_line(&vertical, 5, 0, None, Some(5)));

    let (_, html) = copy(&gc, SheetRect::new_pos_span(Pos { x: 0, y: 0 }, Pos { x: 4, y: 4 }, sheet_id));
    paste(&mut gc, sheet_id, Pos { x: 0, y: 10 }, None, Some(html));

    let horizontal = gc.sheet(sheet_id).unwrap().borders().get_render_horizontal_borders();
    let vertical = gc.sheet(sheet_id).unwrap().borders().get_render_vertical_borders();
    assert!(has_line(&horizontal, 0, 10, Some(5), None));
    assert!(has_line(&horizontal, 0, 15, Some(5), None));
    assert!(has_line(&vertical, 0, 10, None, Some(5)));
    assert!(has_line(&vertical, 5, 10, None, Some(5)));
}

#[test]
fn test_paste_from_quadratic_clipboard() {
    let mut gc = GridController::new();
    let sheet_id = gc.sheet_ids()[0];

    let pasted_output = String::from(
        r#"<table data-quadratic="&#x7B;&quot;w&quot;&#x3A;4&#x2C;&quot;h&quot;&#x3A;4&#x2C;&quot;cells&quot;&#x3A;&#x5B;&#x7B;&quot;value&quot;&#x3A;null&#x2C;&quot;spill&quot;&#x3A;null&#x7D;&#x2C;&#x7B;&quot;value&quot;&#x3A;null&#x2C;&quot;spill&quot;&#x3A;null&#x7D;&#x2C;&#x7B;&quot;value&quot;&#x3A;null&#x2C;&quot;spill&quot;&#x3A;null&#x7D;&#x2C;&#x7B;&quot;value&quot;&#x3A;null&#x2C;&quot;spill&quot;&#x3A;null&#x7D;&#x2C;&#x7B;&quot;value&quot;&#x3A;null&#x2C;&quot;spill&quot;&#x3A;null&#x7D;&#x2C;&#x7B;&quot;value&quot;&#x3A;&#x7B;&quot;type&quot;&#x3A;&quot;text&quot;&#x2C;&quot;value&quot;&#x3A;&quot;1&#x2C;&#x20;1&quot;&#x7D;&#x2C;&quot;spill&quot;&#x3A;null&#x7D;&#x2C;&#x7B;&quot;value&quot;&#x3A;null&#x2C;&quot;spill&quot;&#x3A;null&#x7D;&#x2C;&#x7B;&quot;value&quot;&#x3A;null&#x2C;&quot;spill&quot;&#x3A;null&#x7D;&#x2C;&#x7B;&quot;value&quot;&#x3A;null&#x2C;&quot;spill&quot;&#x3A;null&#x7D;&#x2C;&#x7B;&quot;value&quot;&#x3A;null&#x2C;&quot;spill&quot;&#x3A;null&#x7D;&#x2C;&#x7B;&quot;value&quot;&#x3A;null&#x2C;&quot;spill&quot;&#x3A;null&#x7D;&#x2C;&#x7B;&quot;value&quot;&#x3A;&#x7B;&quot;type&quot;&#x3A;&quot;number&quot;&#x2C;&quot;value&quot;&#x3A;&quot;12&quot;&#x7D;&#x2C;&quot;spill&quot;&#x3A;null&#x7D;&#x2C;&#x7B;&quot;value&quot;&#x3A;null&#x2C;&quot;spill&quot;&#x3A;null&#x7D;&#x2C;&#x7B;&quot;value&quot;&#x3A;null&#x2C;&quot;spill&quot;&#x3A;null&#x7D;&#x2C;&#x7B;&quot;value&quot;&#x3A;null&#x2C;&quot;spill&quot;&#x3A;null&#x7D;&#x2C;&#x7B;&quot;value&quot;&#x3A;null&#x2C;&quot;spill&quot;&#x3A;null&#x7D;&#x5D;&#x2C;&quot;formats&quot;&#x3A;&#x5B;&#x7B;&quot;Align&quot;&#x3A;&#x5B;&#x5B;null&#x2C;16&#x5D;&#x5D;&#x7D;&#x2C;&#x7B;&quot;Wrap&quot;&#x3A;&#x5B;&#x5B;null&#x2C;16&#x5D;&#x5D;&#x7D;&#x2C;&#x7B;&quot;NumericFormat&quot;&#x3A;&#x5B;&#x5B;null&#x2C;16&#x5D;&#x5D;&#x7D;&#x2C;&#x7B;&quot;NumericDecimals&quot;&#x3A;&#x5B;&#x5B;null&#x2C;16&#x5D;&#x5D;&#x7D;&#x2C;&#x7B;&quot;Bold&quot;&#x3A;&#x5B;&#x5B;null&#x2C;5&#x5D;&#x2C;&#x5B;true&#x2C;1&#x5D;&#x2C;&#x5B;null&#x2C;10&#x5D;&#x5D;&#x7D;&#x2C;&#x7B;&quot;Italic&quot;&#x3A;&#x5B;&#x5B;null&#x2C;11&#x5D;&#x2C;&#x5B;true&#x2C;1&#x5D;&#x2C;&#x5B;null&#x2C;4&#x5D;&#x5D;&#x7D;&#x2C;&#x7B;&quot;TextColor&quot;&#x3A;&#x5B;&#x5B;null&#x2C;16&#x5D;&#x5D;&#x7D;&#x2C;&#x7B;&quot;FillColor&quot;&#x3A;&#x5B;&#x5B;null&#x2C;16&#x5D;&#x5D;&#x7D;&#x5D;&#x2C;&quot;borders&quot;&#x3A;&#x5B;&#x5B;1&#x2C;0&#x2C;null&#x5D;&#x2C;&#x5B;1&#x2C;1&#x2C;null&#x5D;&#x2C;&#x5B;1&#x2C;2&#x2C;null&#x5D;&#x2C;&#x5B;1&#x2C;3&#x2C;null&#x5D;&#x2C;&#x5B;3&#x2C;0&#x2C;null&#x5D;&#x2C;&#x5B;3&#x2C;1&#x2C;null&#x5D;&#x2C;&#x5B;3&#x2C;2&#x2C;null&#x5D;&#x2C;&#x5B;3&#x2C;3&#x2C;null&#x5D;&#x5D;&#x2C;&quot;code&quot;&#x3A;&#x5B;&#x5D;&#x7D;"><tbody><tr><td></td><td></td><td></td><td></tr><tr><td></td><td><span style={font-weight:bold;}>1, 1</span></td><td></td><td></tr><tr><td></td><td></td><td></td><td><span style={font-style:italic;}>12</span></tr><tr><td></td><td></td><td></td><td></tr></tbody></table>"#,
    );

    paste(&mut gc, sheet_id, Pos { x: 1, y: 2 }, None, Some(pasted_output));

    let sheet = gc.sheet(sheet_id).unwrap();
    let cell11 = sheet.get_cell_value(Pos { x: 2, y: 3 });
    assert_eq!(cell11.unwrap(), text("1, 1"));
    let cell21 = sheet.get_cell_value(Pos { x: 4, y: 4 });
    assert_eq!(cell21.unwrap(), number(12));
}

#[test]
fn copy_markup_mirrors_bold_and_italic() {
    let mut gc = GridController::new();
    let sheet_id = gc.sheet_ids()[0];
    gc.set_cell_value(SheetPos { x: 0, y: 0, sheet_id }, String::from("a"), None);
    gc.set_cell_bold(SheetRect::single_pos(SheetPos { x: 0, y: 0, sheet_id }), Some(true), None);
    gc.set_cell_value(SheetPos { x: 1, y: 0, sheet_id }, String::from("b"), None);
    gc.set_cell_italic(SheetRect::single_pos(SheetPos { x: 1, y: 0, sheet_id }), Some(true), None);
    let c = gc.copy_to_clipboard(SheetRect::new_pos_span(Pos { x: 0, y: 0 }, Pos { x: 1, y: 1 }, sheet_id));
    assert_eq!(c.plain_text, "a\tb\n\t");
    assert_eq!(
        c.html,
        "<tbody><tr><td><span style={font-weight:bold;}>a</span></td><td><span style={font-style:italic;}>b</span></tr><tr><td></td><td></tr></tbody></table>"
    );
}

#[test]
fn markup_escapes_and_finds_the_snapshot() {
    let html = clipboard_html("{\"w\":1}", "<tbody></tbody></table>");
    assert_eq!(html, "<table data-quadratic=\"&#x7B;&quot;w&quot;&#x3A;1&#x7D;\"><tbody></tbody></table>");
    assert_eq!(clipboard_payload(&html), Some(String::from("{\"w\":1}")));
    assert_eq!(clipboard_payload("<table><tbody></tbody></table>"), None);
    assert_eq!(clipboard_payload("<table data-quadratic=\"&nosuchentity;\"><tbody>"), None);
}
