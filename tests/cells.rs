use occur_sheet::cell::{display_string, Category, Cell, OccurCell, StaticCell};
use occur_sheet::check::check_extension;
use occur_sheet::coordinates::Coordinates;
use occur_sheet::descriptor::{classify, split_edit_line};
use occur_sheet::rectangle::Rectangle;

fn formula(r1: u32, c1: u32, r2: u32, c2: u32, v: u32) -> Category {
    Category::OccurCell(OccurCell {
        occurrence: 0,
        rectangle: Rectangle::from(Coordinates::from(r1, c1), Coordinates::from(r2, c2)),
        value: v,
    })
}

#[test]
fn classify_constants() {
    assert_eq!(classify("0"), Category::StaticCell(StaticCell::from(0)));
    assert_eq!(classify(" 255 "), Category::StaticCell(StaticCell::from(255)));
    assert_eq!(classify("256"), Category::FaultyCell);
    assert_eq!(classify(""), Category::FaultyCell);
    assert_eq!(classify("-1"), Category::FaultyCell);
    assert_eq!(classify("1 2"), Category::StaticCell(StaticCell::from(12)));
}

#[test]
fn classify_formulas() {
    assert_eq!(classify("=#(7, 2, 3, 0, 7)"), formula(7, 2, 3, 0, 7));
    assert_eq!(classify("=#(8999, 2, 130, 1, 23)"), formula(8999, 2, 130, 1, 23));
    assert_eq!(classify("=#(2, 1, 13, abd, 23)"), Category::FaultyCell);
    assert_eq!(classify("=#(2, 2, 13, 1, 23)d"), Category::FaultyCell);
    assert_eq!(classify("=#(2, 2, 90, 1, 256)"), Category::FaultyCell);
    assert_eq!(classify("=#(2, 2, -1, 1, 23)"), Category::FaultyCell);
    assert_eq!(classify("=#(1,2,3,4)"), Category::FaultyCell);
    assert_eq!(classify("=#(1,2,3,4,5,6)"), Category::FaultyCell);
    assert_eq!(classify("=#(4294967296,0,0,0,1)"), Category::FaultyCell);
    assert_eq!(classify("=#(4294967295,0,0,0,1)"), formula(4294967295, 0, 0, 0, 1));
}

#[test]
fn parse_formula_fills_rectangle_and_target() {
    let mut occ = OccurCell::new();
    assert!(occ.parse_formula("=#(1, 2, 3, 4, 5)"));
    assert_eq!(occ.rectangle, Rectangle::from(Coordinates::from(1, 2), Coordinates::from(3, 4)));
    assert_eq!(occ.value, 5);
    assert_eq!(occ.occurrence, 0);
    let before = occ;
    assert!(!occ.parse_formula("12"));
    assert_eq!(occ, before);
}

#[test]
fn set_category_rejects_ill_formed_region() {
    let mut cell = Cell::new();
    cell.set_category(formula(2, 0, 1, 0, 3));
    assert_eq!(cell.category, Category::FaultyCell);
    cell.set_category(formula(1, 0, 2, 0, 3));
    assert_eq!(cell.category, formula(1, 0, 2, 0, 3));
}

#[test]
fn counts_saturate() {
    let mut cell = Cell::from(0, Coordinates::new(), formula(0, 0, 0, 0, 1));
    cell.decrement_occ();
    assert_eq!(cell.get_occurrence(), Some(0));
    cell.set_occurrence(255);
    cell.increment_occ();
    assert_eq!(cell.get_occurrence(), Some(255));
    cell.decrement_occ();
    assert_eq!(cell.get_occurrence(), Some(254));
    cell.increment_occ();
    assert_eq!(cell.get_special(), Some(255));
}

#[test]
fn reported_and_target_values() {
    let mut stat = Cell::from(3, Coordinates::from(1, 2), Category::StaticCell(StaticCell::from(42)));
    assert_eq!(stat.get_value(), Some(42));
    assert_eq!(stat.get_special(), Some(42));
    assert_eq!(stat.get_occurrence(), None);
    assert_eq!(stat.get_value_string(), "42");
    assert_eq!(stat.get_index(), 3);
    assert_eq!(stat.get_coordinates(), Coordinates::from(1, 2));
    let mut occ = Cell::from(0, Coordinates::new(), formula(0, 0, 0, 0, 9));
    occ.set_occurrence(4);
    assert_eq!(occ.get_value(), Some(9));
    assert_eq!(occ.get_special(), Some(4));
    let mut faulty = Cell::new();
    assert_eq!(faulty.get_value(), None);
    assert_eq!(faulty.get_special(), None);
    assert_eq!(faulty.get_value_string(), "P");
    faulty.set_index(8);
    assert_eq!(faulty.index, 8);
}

#[test]
fn display_strings() {
    assert_eq!(display_string(Some(0)), "0");
    assert_eq!(display_string(Some(7)), "7");
    assert_eq!(display_string(Some(255)), "255");
    assert_eq!(display_string(Some(4294967295)), "4294967295");
    assert_eq!(display_string(None), "P");
}

#[test]
fn rectangle_checks() {
    let mut rect = Rectangle::from(Coordinates::from(0, 1), Coordinates::from(2, 3));
    assert!(rect.is_valid());
    assert!(rect.rect_respecting_max(2, 3));
    assert!(!rect.rect_respecting_max(1, 3));
    assert!(!rect.rect_respecting_max(2, 2));
    let bad = Rectangle::from(Coordinates::from(3, 1), Coordinates::from(2, 3));
    assert!(!bad.is_valid());
    assert_eq!(Rectangle::new(), Rectangle::from(Coordinates::new(), Coordinates::new()));
}

#[test]
fn coordinates_order_row_first() {
    assert!(Coordinates::from(0, 9) < Coordinates::from(1, 0));
    assert!(Coordinates::from(1, 1) < Coordinates::from(1, 2));
    assert_eq!(Coordinates::new(), Coordinates::from(0, 0));
}

#[test]
fn check_extension_positions() {
    let v1 = vec!["/target/debug/prog", "data.csv", "user.txt", "view.csv", "changes.txt"];
    let v2 = vec!["/target/debug/prog", "data.csv", "view.csv", "user.txt", "changes.txt"];
    let v3 = vec!["/target/debug/prog", "user.txt", "changes.txt", "data.csv", "view.csv"];
    assert!(check_extension(&v1));
    assert!(!check_extension(&v2));
    assert!(!check_extension(&v3));
    assert!(!check_extension(&vec!["prog", "data"]));
    assert!(check_extension(&vec!["prog"]));
}

#[test]
fn static_and_occur_constructors() {
    assert_eq!(StaticCell::new().value, 0);
    let occ = OccurCell::from(Rectangle::from(Coordinates::from(1, 1), Coordinates::from(2, 2)));
    assert_eq!(occ.value, 0);
    assert_eq!(occ.occurrence, 0);
}

#[test]
fn check_formula_cases() {
    assert!(OccurCell::check_formula("=#(7, 2, 3, 0, 7)"));
    assert!(!OccurCell::check_formula("=#(2, 1, 13, abd, 23)"));
    assert!(!OccurCell::check_formula("=#(2, 2, 13, 1, 23)d"));
    assert!(OccurCell::check_formula("=#(8999, 2, 130, 1, 23)"));
    assert!(!OccurCell::check_formula("=#(2, 2, 90, 1, 256)"));
    assert!(!OccurCell::check_formula("=#(2, 2, -1, 1, 23)"));
    assert!(!OccurCell::check_formula("12"));
}

#[test]
fn check_number_cases() {
    assert!(StaticCell::check_number("0"));
    assert!(StaticCell::check_number(" 255"));
    assert!(!StaticCell::check_number("256"));
    assert!(!StaticCell::check_number("=#(0,0,0,0,1)"));
    assert!(!StaticCell::check_number("P"));
}

#[test]
fn three_digit_values_take_no_leading_zero() {
    assert_eq!(classify("05"), Category::StaticCell(StaticCell::from(5)));
    assert_eq!(classify("00"), Category::StaticCell(StaticCell::from(0)));
    assert_eq!(classify("007"), Category::FaultyCell);
    assert_eq!(classify("0255"), Category::FaultyCell);
    assert_eq!(classify("=#(0,0,0,0,099)"), Category::FaultyCell);
    assert_eq!(classify("=#(007,0,0,0,99)"), formula(7, 0, 0, 0, 99));
}

#[test]
fn increment_clamps_large_count() {
    let mut cell = Cell::from(0, Coordinates::new(), formula(0, 0, 0, 0, 1));
    cell.set_occurrence(300);
    cell.increment_occ();
    assert_eq!(cell.get_occurrence(), Some(255));
}

#[test]
fn edit_lines_split_into_row_column_and_descriptor() {
    assert_eq!(split_edit_line("0 1 1"), Some((0, 1, 4)));
    assert_eq!(split_edit_line("12 3 =#(0, 0, 1, 1, 7)"), Some((12, 3, 5)));
    let line = "2 2  4 ";
    let (_, _, start) = split_edit_line(line).unwrap();
    assert_eq!(&line[start..], " 4 ");
    assert_eq!(split_edit_line("1 2"), None);
    assert_eq!(split_edit_line("a 2 3"), None);
    assert_eq!(split_edit_line("4294967296 0 1"), None);
}
