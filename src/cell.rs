//! Cells: constants, counting formulas and faulty cells, and how they are shown.

use vstd::prelude::*;
use vstd::string::StringSliceAdditionalSpecFns;
use crate::coordinates::Coordinates;
use crate::descriptor::{classify, classify_spec};
use crate::rectangle::Rectangle;

verus! {

/// A cell holding a constant.
#[derive(Clone, Copy, Debug, PartialEq, Eq, Structural)]
pub struct StaticCell {
    pub value: u32,
}

/// A cell counting how many cells of `rectangle` report `value`;
/// `occurrence` is the count, computed by the sheet.
#[derive(Clone, Copy, Debug, PartialEq, Eq, Structural, Default)]
pub struct OccurCell {
    pub occurrence: u32,
    pub rectangle: Rectangle,
    pub value: u32,
}

/// What a cell is: a constant, a counting formula, or faulty (no value).
#[derive(Clone, Copy, Debug, PartialEq, Eq, Structural)]
pub enum Category {
    StaticCell(StaticCell),
    OccurCell(OccurCell),
    FaultyCell,
}

/// A cell of the sheet: its node handle, its position and its content.
#[derive(Clone, Copy, Debug, PartialEq, Eq, Structural)]
pub struct Cell {
    pub index: u32,
    pub coordinates: Coordinates,
    pub category: Category,
}

/// The value a cell contributes when counted: the constant, the count, or
/// nothing for a faulty cell.
pub open spec fn reported(c: Category) -> Option<u32> {
    match c {
        Category::StaticCell(s) => Some(s.value),
        Category::OccurCell(o) => Some(o.occurrence),
        Category::FaultyCell => None,
    }
}

/// What a category becomes when stored in a cell: a counting formula over a
/// rectangle that is not well formed is faulty.
pub open spec fn stored(c: Category) -> Category {
    match c {
        Category::OccurCell(o) => if o.rectangle.well_formed() {
            c
        } else {
            Category::FaultyCell
        },
        _ => c,
    }
}

pub open spec fn digit_char(d: nat) -> char {
    if d == 0 { '0' } else if d == 1 { '1' } else if d == 2 { '2' } else if d == 3 { '3' }
    else if d == 4 { '4' } else if d == 5 { '5' } else if d == 6 { '6' } else if d == 7 { '7' }
    else if d == 8 { '8' } else { '9' }
}

/// Decimal digits of `n`, most significant first, without leading zeros.
pub open spec fn decimal(n: nat) -> Seq<char>
    decreases n,
{
    if n < 10 {
        seq![digit_char(n)]
    } else {
        decimal(n / 10).push(digit_char(n % 10))
    }
}

/// How a reported value is shown: its decimal digits, or `P` when absent.
pub open spec fn display(v: Option<u32>) -> Seq<char> {
    match v {
        Some(n) => decimal(n as nat),
        None => seq!['P'],
    }
}

fn digit_str(d: u32) -> (r: &'static str)
    requires
        d < 10,
    ensures
        r@ == seq![digit_char(d as nat)],
{
    proof {
        reveal_strlit("0"); reveal_strlit("1"); reveal_strlit("2"); reveal_strlit("3");
        reveal_strlit("4"); reveal_strlit("5"); reveal_strlit("6"); reveal_strlit("7");
        reveal_strlit("8"); reveal_strlit("9");
    }
    if d == 0 { "0" } else if d == 1 { "1" } else if d == 2 { "2" } else if d == 3 { "3" }
    else if d == 4 { "4" } else if d == 5 { "5" } else if d == 6 { "6" } else if d == 7 { "7" }
    else if d == 8 { "8" } else { "9" }
}

/// Appends the decimal digits of `n` to `s`.
pub fn push_decimal(s: &mut String, n: u32)
    ensures
        final(s)@ == old(s)@ + decimal(n as nat),
    decreases n,
{
    if n >= 10 {
        push_decimal(s, n / 10);
    }
    s.append(digit_str(n % 10));
    proof {
        assert(decimal(n as nat) == if n < 10 { seq![digit_char(n as nat)] } else {
            decimal((n / 10) as nat).push(digit_char((n % 10) as nat))
        });
    }
    assert(final(s)@ =~= old(s)@ + decimal(n as nat));
}

/// The text shown for a reported value: decimal digits, or `P` when absent.
pub fn display_string(v: Option<u32>) -> (r: String)
    ensures
        r@ == display(v),
{
    match v {
        Some(n) => {
            let mut s = String::new();
            push_decimal(&mut s, n);
            assert(s@ =~= decimal(n as nat));
            s
        },
        None => {
            proof { reveal_strlit("P"); }
            String::from_str("P")
        },
    }
}

impl Cell {
    /// A faulty cell at the origin, with handle 0.
    pub fn new() -> (r: Cell)
        ensures
            r.index == 0,
            r.coordinates.row == 0 && r.coordinates.col == 0,
            r.category == Category::FaultyCell,
    {
        Cell { index: 0, coordinates: Coordinates::new(), category: Category::FaultyCell }
    }

    pub fn from(index: u32, coordinates: Coordinates, category: Category) -> (r: Cell)
        ensures
            r.index == index,
            r.coordinates == coordinates,
            r.category == category,
    {
        Cell { index, coordinates, category }
    }

    /// Classifies a cell descriptor: a constant 0..=255, a counting formula
    /// `=#(r1,c1,r2,c2,v)`, or faulty for anything else.
    pub fn from_formula(formula: &str) -> (r: Category)
        ensures
            r == classify_spec(formula.spec_bytes()),
    {
        classify(formula)
    }

    pub fn set_coordinates(&mut self, coordinates: Coordinates)
        ensures
            *final(self) == (Cell { coordinates, ..*old(self) }),
    {
        self.coordinates = coordinates;
    }

    /// Replaces the content; a counting formula over a rectangle that is not
    /// well formed is stored as faulty.
    pub fn set_category(&mut self, new_category: Category)
        ensures
            *final(self) == (Cell { category: stored(new_category), ..*old(self) }),
    {
        if let Category::OccurCell(occ_cell) = new_category {
            if !occ_cell.rectangle.is_valid() {
                self.category = Category::FaultyCell;
            } else {
                self.category = new_category;
            }
        } else {
            self.category = new_category;
        }
    }

    pub fn set_index(&mut self, index: u32)
        ensures
            *final(self) == (Cell { index, ..*old(self) }),
    {
        self.index = index;
    }

    pub fn get_index(&mut self) -> (r: u32)
        ensures
            *final(self) == *old(self),
            r == old(self).index,
    {
        self.index
    }

    /// The constant of a constant cell, or the value a formula counts.
    pub fn get_value(&mut self) -> (r: Option<u32>)
        ensures
            *final(self) == *old(self),
            r == match old(self).category {
                Category::OccurCell(o) => Some(o.value),
                Category::StaticCell(s) => Some(s.value),
                Category::FaultyCell => None::<u32>,
            },
    {
        match self.category {
            Category::OccurCell(occ) => Some(occ.value),
            Category::StaticCell(stat) => Some(stat.value),
            _ => None,
        }
    }

    /// Sets the count of a formula cell; other cells are left as they are.
    pub fn set_occurrence(&mut self, occurrence: u32)
        ensures
            *final(self) == match old(self).category {
                Category::OccurCell(o) => Cell {
                    category: Category::OccurCell(OccurCell { occurrence, ..o }),
                    ..*old(self)
                },
                _ => *old(self),
            },
    {
        if let Category::OccurCell(mut occ) = self.category {
            occ.occurrence = occurrence;
            self.category = Category::OccurCell(occ);
        }
    }

    pub fn get_occurrence(&mut self) -> (r: Option<u32>)
        ensures
            *final(self) == *old(self),
            r == match old(self).category {
                Category::OccurCell(o) => Some(o.occurrence),
                _ => None::<u32>,
            },
    {
        match self.category {
            Category::OccurCell(occ) => Some(occ.occurrence),
            _ => None,
        }
    }

    pub fn get_coordinates(&mut self) -> (r: Coordinates)
        ensures
            *final(self) == *old(self),
            r == old(self).coordinates,
    {
        self.coordinates
    }

    /// Lowers the count of a formula cell by one, staying at 0.
    pub fn decrement_occ(&mut self)
        ensures
            *final(self) == match old(self).category {
                Category::OccurCell(o) => Cell {
                    category: Category::OccurCell(OccurCell {
                        occurrence: if o.occurrence == 0 { 0 } else { (o.occurrence - 1) as u32 },
                        ..o
                    }),
                    ..*old(self)
                },
                _ => *old(self),
            },
    {
        match self.category {
            Category::OccurCell(mut cell) => {
                if cell.occurrence > 0 {
                    cell.occurrence = cell.occurrence - 1;
                }
                self.category = Category::OccurCell(cell);
            },
            _ => {},
        }
    }

    /// Raises the count of a formula cell by one, saturating at 255.
    pub fn increment_occ(&mut self)
        ensures
            *final(self) == match old(self).category {
                Category::OccurCell(o) => Cell {
                    category: Category::OccurCell(OccurCell {
                        occurrence: if o.occurrence >= 255 { 255 } else { (o.occurrence + 1) as u32 },
                        ..o
                    }),
                    ..*old(self)
                },
                _ => *old(self),
            },
    {
        match self.category {
            Category::OccurCell(mut cell) => {
                if cell.occurrence < 255 {
                    cell.occurrence = cell.occurrence + 1;
                } else {
                    cell.occurrence = 255;
                }
                self.category = Category::OccurCell(cell);
            },
            _ => {},
        }
    }

    /// The reported value as text: decimal digits, or `P` for a faulty cell.
    pub fn get_value_string(&mut self) -> (r: String)
        ensures
            *final(self) == *old(self),
            r@ == display(reported(old(self).category)),
    {
        display_string(self.get_special())
    }

    pub fn is_static(&self) -> (r: bool)
        ensures
            r == (self.category is StaticCell),
    {
        match self.category {
            Category::StaticCell(_) => true,
            _ => false,
        }
    }

    /// The reported value: the constant, the count, or `None` when faulty.
    pub fn get_special(&self) -> (r: Option<u32>)
        ensures
            r == reported(self.category),
    {
        match self.category {
            Category::StaticCell(cell) => Some(cell.value),
            Category::OccurCell(cell) => Some(cell.occurrence),
            Category::FaultyCell => None,
        }
    }
}

impl StaticCell {
    pub fn new() -> (r: StaticCell)
        ensures
            r.value == 0,
    {
        StaticCell::from(0)
    }

    pub fn from(value: u32) -> (r: StaticCell)
        ensures
            r.value == value,
    {
        StaticCell { value }
    }

    /// Whether the descriptor, whitespace ignored, is a constant 0..=255.
    pub fn check_number(number: &str) -> (r: bool)
        ensures
            r == (classify_spec(number.spec_bytes()) is StaticCell),
    {
        match classify(number) {
            Category::StaticCell(_) => true,
            _ => false,
        }
    }
}

impl OccurCell {
    /// A formula over the single origin cell, counting 0, with count 0.
    pub fn new() -> (r: OccurCell)
        ensures
            r.occurrence == 0,
            r.value == 0,
            r.rectangle.begin.row == 0 && r.rectangle.begin.col == 0,
            r.rectangle.end.row == 0 && r.rectangle.end.col == 0,
    {
        OccurCell { occurrence: 0, rectangle: Rectangle::new(), value: 0 }
    }

    pub fn from(rectangle: Rectangle) -> (r: OccurCell)
        ensures
            r.occurrence == 0,
            r.value == 0,
            r.rectangle == rectangle,
    {
        OccurCell { occurrence: 0, rectangle, value: 0 }
    }

    /// Whether the descriptor, whitespace ignored, is a formula `=#(r1,c1,r2,c2,v)`.
    pub fn check_formula(formula: &str) -> (r: bool)
        ensures
            r == (classify_spec(formula.spec_bytes()) is OccurCell),
    {
        match classify(formula) {
            Category::OccurCell(_) => true,
            _ => false,
        }
    }

    /// Reads a formula `=#(r1,c1,r2,c2,v)` into this cell's rectangle and
    /// target. Returns false, leaving the cell unchanged, when the text is not
    /// such a formula.
    pub fn parse_formula(&mut self, formula: &str) -> (r: bool)
        ensures
            r == (classify_spec(formula.spec_bytes()) is OccurCell),
            r ==> match classify_spec(formula.spec_bytes()) {
                Category::OccurCell(o) => final(self).rectangle == o.rectangle
                    && final(self).value == o.value,
                _ => false,
            },
            !r ==> *final(self) == *old(self),
            final(self).occurrence == old(self).occurrence,
    {
        match classify(formula) {
            Category::OccurCell(o) => {
                self.rectangle = o.rectangle;
                self.value = o.value;
                true
            },
            _ => false,
        }
    }
}

} // verus!
