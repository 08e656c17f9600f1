use quadratic_core::borders::BorderSelection;
use quadratic_core::borders::BorderSides;
use quadratic_core::borders::CellBorder;
use quadratic_core::borders::CellBorderStyle;
use quadratic_core::borders::CellBorders;
use quadratic_core::borders::JsRenderBorder;
use quadratic_core::borders::SheetBorders;
use quadratic_core::controller::GridController;
use quadratic_core::position::Pos;
use quadratic_core::position::Rect;
use quadratic_core::position::SheetPos;
use quadratic_core::position::SheetRect;
use quadratic_core::selection::set_borders_operations;

fn line() -> CellBorder {
    CellBorder { color: Some(String::from("#000000")), style: Some(CellBorderStyle::Line1) }
}

#[test]
fn test_set_borders() {
    let mut grid_controller = GridController::new();
    let sheet_id = grid_controller.sheet_ids()[0];
    let sheet_rect = SheetRect::single_pos(SheetPos { x: 0, y: 0, sheet_id });
    let selections = vec![BorderSelection::Top, BorderSelection::Left];
    let style = Some(line());

    grid_controller.set_borders(sheet_rect, selections, style.clone(), None);

    let borders = grid_controller.sheet(sheet_id).unwrap().border_sides(Pos { x: 0, y: 0 });
    let borders = [borders.left, borders.top, borders.right, borders.bottom];

    assert_eq!(borders.len(), 4);
    assert_eq!(borders[0], style);
    assert_eq!(borders[1], style);
    assert_eq!(borders[2], None);
    assert_eq!(borders[3], None);
}

#[test]
fn sheet_borders_draw_each_run_as_one_line() {
    let mut b = SheetBorders::new();
    b.set_horizontal_border(Rect { min: Pos { x: 1, y: 2 }, max: Pos { x: 4, y: 3 } }, line());
    b.set_vertical_border(Rect { min: Pos { x: 7, y: 0 }, max: Pos { x: 7, y: 9 } }, line());
    assert_eq!(
        b.get_render_horizontal_borders(),
        vec![
            JsRenderBorder { x: 1, y: 2, w: Some(4), h: None, style: line() },
            JsRenderBorder { x: 1, y: 3, w: Some(4), h: None, style: line() },
        ]
    );
    assert_eq!(
        b.get_render_vertical_borders(),
        vec![JsRenderBorder { x: 7, y: 0, w: None, h: Some(10), style: line() }]
    );
    assert_eq!(b.cell_borders(Pos { x: 1, y: 2 }), CellBorders { h: Some(line()), v: None });
    assert_eq!(b.line(false, Pos { x: 7, y: 9 }), Some(line()));
    assert_eq!(
        b.sides(Pos { x: 6, y: 2 }),
        BorderSides { left: None, top: None, right: Some(line()), bottom: None }
    );
    assert_eq!(
        b.sides(Pos { x: 2, y: 1 }),
        BorderSides { left: None, top: None, right: None, bottom: Some(line()) }
    );
}

#[test]
fn border_commands_choose_their_lines() {
    let mut gc = GridController::new();
    let id = gc.sheet_ids()[0];
    let rect = SheetRect::new_pos_span(Pos { x: 0, y: 0 }, Pos { x: 1, y: 1 }, id);
    assert_eq!(set_borders_operations(rect, &vec![BorderSelection::All], &Some(line())).len(), 6);
    assert_eq!(set_borders_operations(rect, &vec![BorderSelection::Outer, BorderSelection::Inner], &None).len(), 6);
    let single = SheetRect::single_pos(SheetPos { x: 0, y: 0, sheet_id: id });
    assert_eq!(set_borders_operations(single, &vec![BorderSelection::Inner], &Some(line())).len(), 0);

    gc.set_borders(rect, vec![BorderSelection::Inner], Some(line()), None);
    let sheet = gc.sheet(id).unwrap();
    assert_eq!(
        sheet.border_sides(Pos { x: 0, y: 0 }),
        BorderSides { left: None, top: None, right: Some(line()), bottom: Some(line()) }
    );
    assert_eq!(
        sheet.border_sides(Pos { x: 1, y: 1 }),
        BorderSides { left: Some(line()), top: Some(line()), right: None, bottom: None }
    );

    gc.set_borders(rect, vec![BorderSelection::Clear], Some(line()), None);
    assert!(gc.sheet(id).unwrap().borders().get_render_horizontal_borders().is_empty());
    assert!(gc.sheet(id).unwrap().borders().get_render_vertical_borders().is_empty());
    gc.undo(None);
    assert_eq!(gc.sheet(id).unwrap().borders().get_render_horizontal_borders().len(), 1);
}

#[test]
fn a_line_drawn_over_another_splits_it() {
    let other = CellBorder { color: Some(String::from("#ff0000")), style: Some(CellBorderStyle::Dashed) };
    let mut b = SheetBorders::new();
    b.set_horizontal_border(Rect { min: Pos { x: 0, y: 0 }, max: Pos { x: 4, y: 0 } }, line());
    b.set_horizontal_border(Rect { min: Pos { x: 2, y: 0 }, max: Pos { x: 3, y: 0 } }, other.clone());
    assert_eq!(
        b.get_render_horizontal_borders(),
        vec![
            JsRenderBorder { x: 0, y: 0, w: Some(2), h: None, style: line() },
            JsRenderBorder { x: 2, y: 0, w: Some(2), h: None, style: other },
            JsRenderBorder { x: 4, y: 0, w: Some(1), h: None, style: line() },
        ]
    );
    assert_eq!(b.get_render_vertical_borders(), vec![]);
}

#[test]
fn lines_that_touch_and_agree_are_drawn_as_one() {
    let mut b = SheetBorders::new();
    b.set_vertical_border(Rect { min: Pos { x: 0, y: 0 }, max: Pos { x: 0, y: 1 } }, line());
    b.set_vertical_border(Rect { min: Pos { x: 0, y: 2 }, max: Pos { x: 0, y: 4 } }, line());
    assert_eq!(
        b.get_render_vertical_borders(),
        vec![JsRenderBorder { x: 0, y: 0, w: None, h: Some(5), style: line() }]
    );
    assert_eq!(b.get_render_horizontal_borders(), vec![]);
    let copy = b.duplicate();
    assert_eq!(copy, b);
}
