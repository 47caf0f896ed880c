use occur_sheet::cell::{Category, Cell};
use occur_sheet::coordinates::Coordinates;
use occur_sheet::spreadsheet::SpreadSheet;

fn basic_grid() -> Vec<Vec<&'static str>> {
    vec![
        vec!["2", "3", "1"],
        vec!["0", "1", "3"],
        vec!["2", "1", "4"],
        vec!["=#(0,1,2,2,1)", "=#(1,0,2,1,0)", "=#(0,0,2,2,3)"],
    ]
}

fn edit(sheet: &mut SpreadSheet, row: u32, col: u32, descriptor: &str) -> String {
    let mut cell = Cell::new();
    cell.set_category(Cell::from_formula(descriptor));
    cell.set_coordinates(Coordinates::from(row, col));
    sheet.insert_spread_cell(cell);
    let line = format!("{} {} {}", row, col, descriptor);
    let block = sheet.changes_string(&line);
    sheet.clear_changes();
    block
}

#[test]
fn basic_count() {
    let sheet = SpreadSheet::load(&basic_grid());
    // The region rows 0..=2, cols 1..=2 holds three cells reporting 1.
    assert_eq!(sheet.view_string(), "2;3;1\n0;1;3\n2;1;4\n3;1;2\n");
}

#[test]
fn self_cycle_is_faulty() {
    let sheet = SpreadSheet::load(&vec![vec!["=#(0,0,0,0,5)"]]);
    assert_eq!(sheet.view_string(), "P\n");
}

#[test]
fn mutual_cycle_is_faulty() {
    let sheet = SpreadSheet::load(&vec![vec!["=#(0,1,0,1,0)", "=#(0,0,0,0,0)"]]);
    assert_eq!(sheet.view_string(), "P;P\n");
}

#[test]
fn cycle_taints_its_family_but_not_constants() {
    // (0,0) and (0,1) form a cycle; (0,2) counts (0,1) and is tainted;
    // (1,0) counts only the constant (1,1) and stays.
    let grid = vec![
        vec!["=#(0,1,0,1,0)", "=#(0,0,0,0,0)", "=#(0,1,0,1,0)"],
        vec!["=#(1,1,1,1,4)", "4", "9"],
    ];
    let sheet = SpreadSheet::load(&grid);
    assert_eq!(sheet.view_string(), "P;P;P\n1;4;9\n");
}

#[test]
fn count_saturates_at_255() {
    let mut top: Vec<&str> = Vec::new();
    let mut bottom: Vec<&str> = Vec::new();
    for i in 0..256 {
        top.push("7");
        bottom.push(if i == 0 { "=#(0,0,0,255,7)" } else { "0" });
    }
    let sheet = SpreadSheet::load(&vec![top, bottom]);
    let view = sheet.view_string();
    let second = view.lines().nth(1).unwrap();
    assert!(second.starts_with("255;0;"));
}

#[test]
fn incremental_propagation() {
    let mut sheet = SpreadSheet::load(&basic_grid());
    let block = edit(&mut sheet, 0, 1, "1");
    assert_eq!(block, "after \"0 1 1\":\n0 1 1\n3 0 4\n3 2 1\n");
    assert_eq!(sheet.view_string(), "2;1;1\n0;1;3\n2;1;4\n4;1;1\n");
}

#[test]
fn edit_with_formula_outside_any_cycle() {
    let mut sheet = SpreadSheet::load(&basic_grid());
    let block = edit(&mut sheet, 0, 0, "=#(3,0,3,0,2)");
    assert_eq!(block, "after \"0 0 =#(3,0,3,0,2)\":\n0 0 0\n");
    assert_eq!(sheet.view_string(), "0;3;1\n0;1;3\n2;1;4\n3;1;2\n");
}

#[test]
fn edit_introducing_cycle() {
    let mut sheet = SpreadSheet::load(&basic_grid());
    // (0,1) now counts (3,0), whose region holds (0,1): a cycle.
    let block = edit(&mut sheet, 0, 1, "=#(3,0,3,0,2)");
    assert_eq!(block, "after \"0 1 =#(3,0,3,0,2)\":\n0 1 P\n3 0 P\n3 2 P\n");
    assert_eq!(sheet.view_string(), "2;P;1\n0;1;3\n2;1;4\nP;1;P\n");
}

#[test]
fn repeated_edit_changes_nothing() {
    let mut sheet = SpreadSheet::load(&basic_grid());
    edit(&mut sheet, 1, 0, "9");
    let view = sheet.view_string();
    let block = edit(&mut sheet, 1, 0, "9");
    assert_eq!(block, "after \"1 0 9\":\n");
    assert_eq!(sheet.view_string(), view);
}

#[test]
fn edit_with_same_value_is_empty() {
    let mut sheet = SpreadSheet::load(&basic_grid());
    let block = edit(&mut sheet, 2, 2, " 4 ");
    assert_eq!(block, "after \"2 2  4 \":\n");
}

#[test]
fn faulty_cell_made_constant_is_counted() {
    let grid = vec![vec!["x", "=#(0,0,0,0,6)"]];
    let mut sheet = SpreadSheet::load(&grid);
    assert_eq!(sheet.view_string(), "P;0\n");
    let block = edit(&mut sheet, 0, 0, "6");
    assert_eq!(block, "after \"0 0 6\":\n0 0 6\n0 1 1\n");
}

#[test]
fn decrement_stays_at_zero_and_faulty_spreads() {
    let grid = vec![vec!["5", "=#(0,0,0,0,5)", "=#(0,1,0,1,1)"]];
    let mut sheet = SpreadSheet::load(&grid);
    assert_eq!(sheet.view_string(), "5;1;1\n");
    let block = edit(&mut sheet, 0, 0, "4");
    assert_eq!(block, "after \"0 0 4\":\n0 0 4\n0 1 0\n0 2 0\n");
    let block = edit(&mut sheet, 0, 0, "bad");
    assert_eq!(block, "after \"0 0 bad\":\n0 0 P\n0 1 P\n0 2 P\n");
}

#[test]
fn view_round_trip() {
    let sheet = SpreadSheet::load(&basic_grid());
    let view = sheet.view_string();
    let rows: Vec<Vec<&str>> = view.lines().map(|l| l.split(';').collect()).collect();
    let again = SpreadSheet::load(&rows);
    assert_eq!(again.view_string(), view);
}

#[test]
fn empty_grid() {
    let sheet = SpreadSheet::load(&Vec::new());
    assert_eq!(sheet.view_string(), "");
    let empty = SpreadSheet::new();
    assert_eq!(empty.view_string(), "");
}

#[test]
fn one_by_one_grid() {
    let sheet = SpreadSheet::load(&vec![vec!["17"]]);
    assert_eq!(sheet.view_string(), "17\n");
}

#[test]
fn region_is_whole_grid() {
    let grid = vec![vec!["1", "1"], vec!["1", "=#(0,0,1,0,1)"]];
    let sheet = SpreadSheet::load(&grid);
    assert_eq!(sheet.view_string(), "1;1\n1;2\n");
    let grid = vec![vec!["1", "1"], vec!["1", "=#(0,0,1,1,1)"]];
    let sheet = SpreadSheet::load(&grid);
    assert_eq!(sheet.view_string(), "1;1\n1;P\n");
}

#[test]
fn out_of_bounds_and_ill_formed_regions_are_faulty() {
    let grid = vec![vec!["1", "=#(0,0,0,5,1)", "=#(0,2,0,0,1)"]];
    let sheet = SpreadSheet::load(&grid);
    assert_eq!(sheet.view_string(), "1;P;P\n");
}

#[test]
fn chained_formulas_evaluate_bottom_up() {
    let grid = vec![vec!["=#(0,1,0,1,1)", "=#(0,2,0,2,3)", "3"]];
    let sheet = SpreadSheet::load(&grid);
    assert_eq!(sheet.view_string(), "1;1;3\n");
}

#[test]
fn handle_of_coordinates() {
    let sheet = SpreadSheet::load(&basic_grid());
    assert_eq!(sheet.get_index_node_from_crd(&Coordinates::from(2, 1)), 7);
    assert_eq!(sheet.get_index_node_from_crd(&Coordinates::from(3, 2)), 11);
}

#[test]
fn staged_load_matches_load() {
    let grid = basic_grid();
    let mut sheet = SpreadSheet::from_rows(&grid);
    sheet.link_nodes();
    let mut quarantined: Vec<u32> = Vec::new();
    sheet.handle_cycles(&mut quarantined);
    assert!(quarantined.is_empty());
    sheet.evaluate_all();
    assert_eq!(sheet.view_string(), SpreadSheet::load(&grid).view_string());
}

#[test]
fn quarantine_reports_family() {
    let grid = vec![vec!["=#(0,1,0,1,0)", "=#(0,0,0,0,0)", "3"]];
    let mut sheet = SpreadSheet::from_rows(&grid);
    sheet.link_nodes();
    let mut quarantined: Vec<u32> = Vec::new();
    sheet.handle_cycles(&mut quarantined);
    quarantined.sort();
    assert_eq!(quarantined, vec![0, 1]);
    assert!(matches!(sheet.cells[0].category, Category::FaultyCell));
    assert!(matches!(sheet.cells[2].category, Category::StaticCell(_)));
}

#[test]
fn repeated_formula_edit_changes_nothing() {
    let mut sheet = SpreadSheet::load(&basic_grid());
    let view = sheet.view_string();
    let block = edit(&mut sheet, 3, 0, "=#(0,1,2,2,1)");
    assert_eq!(block, "after \"3 0 =#(0,1,2,2,1)\":\n");
    assert_eq!(sheet.view_string(), view);
}

#[test]
fn new_content_with_same_value_records_nothing() {
    let mut sheet = SpreadSheet::load(&basic_grid());
    // (3,0) counts 3 ones; a constant 3 reports the same.
    let block = edit(&mut sheet, 3, 0, "3");
    assert_eq!(block, "after \"3 0 3\":\n");
    assert_eq!(sheet.view_string(), "2;3;1\n0;1;3\n2;1;4\n3;1;2\n");
}

#[test]
fn family_walks_through_formulas_only() {
    let grid = vec![vec!["=#(0,1,0,1,0)", "=#(0,0,0,0,0)", "=#(0,1,0,1,3)", "=#(0,3,0,3,5)"], vec!["5", "6", "7", "8"]];
    let mut sheet = SpreadSheet::from_rows(&grid);
    sheet.link_nodes();
    let mut family: Vec<u32> = Vec::new();
    sheet.get_family(0, &mut family);
    family.sort();
    assert_eq!(family, vec![0, 1, 2]);
    let mut none: Vec<u32> = Vec::new();
    sheet.get_family(4, &mut none);
    assert!(none.is_empty());
}

#[test]
fn check_cycle_orders_acyclic_sheet() {
    let mut sheet = SpreadSheet::from_rows(&basic_grid());
    sheet.link_nodes();
    assert!(sheet.check_cycle().is_none());
    assert_eq!(sheet.order.len(), 12);
    let mut cyclic = SpreadSheet::from_rows(&vec![vec!["=#(0,0,0,0,1)", "2"]]);
    cyclic.link_nodes();
    let family = cyclic.check_cycle().unwrap();
    assert_eq!(family, vec![0]);
}

#[test]
fn evaluate_cell_counts_region() {
    let mut sheet = SpreadSheet::from_rows(&basic_grid());
    sheet.link_nodes();
    sheet.evaluate_cell(&Coordinates::from(3, 2));
    assert_eq!(sheet.cells[11].get_special(), Some(2));
    assert_eq!(sheet.cells[9].get_special(), Some(0));
}

#[test]
fn spread_information_passes_change_up() {
    let mut sheet = SpreadSheet::load(&vec![vec!["5", "=#(0,0,0,0,5)", "=#(0,1,0,1,1)"]]);
    let mut cell = sheet.cells[0];
    cell.set_category(Category::StaticCell(occur_sheet::cell::StaticCell::from(4)));
    sheet.cells[0] = cell;
    sheet.spread_information(0, Some(5));
    assert_eq!(sheet.view_string(), "4;0;0\n");
    assert!(sheet.changes.iter().all(|c| *c));
}

#[test]
fn out_of_bounds_formula_edit_is_faulty_and_spreads() {
    let mut sheet = SpreadSheet::load(&basic_grid());
    // (0,2) reports 1; the counter of 1s at (3,0) and of 3s at (3,2) cover it.
    let block = edit(&mut sheet, 0, 2, "=#(0,0,9,9,1)");
    assert_eq!(block, "after \"0 2 =#(0,0,9,9,1)\":\n0 2 P\n3 0 P\n3 2 P\n");
    assert_eq!(sheet.view_string(), "2;3;P\n0;1;3\n2;1;4\nP;1;P\n");
}

#[test]
fn saturated_count_can_fall_below_true_count() {
    // Row 0: x = 0, y counts 0s in {x} (so y = 1), then 254 zeros.
    // (1,0) counts 0s over all 256 cells of row 0: 255, its true count.
    let mut top: Vec<&str> = vec!["0", "=#(0,0,0,0,0)"];
    let mut bottom: Vec<&str> = vec!["=#(0,0,0,255,0)"];
    for _ in 0..254 {
        top.push("0");
    }
    for _ in 0..255 {
        bottom.push("7");
    }
    let mut sheet = SpreadSheet::load(&vec![top, bottom]);
    assert!(sheet.view_string().lines().nth(1).unwrap().starts_with("255;"));
    // x := 5 makes y report 0: the true count of (1,0) stays 255. Taking y's
    // change first saturates at 255, then x's change lowers it to 254.
    edit(&mut sheet, 0, 0, "5");
    assert!(sheet.view_string().starts_with("5;0;0;"));
    assert!(sheet.view_string().lines().nth(1).unwrap().starts_with("254;"));
}
