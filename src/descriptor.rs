//! The grammar of cell descriptors and its parser.

use vstd::prelude::*;
use vstd::string::StringSliceAdditionalSpecFns;
use crate::cell::{Category, OccurCell, StaticCell};
use crate::coordinates::Coordinates;
use crate::rectangle::Rectangle;

verus! {

/// ASCII whitespace: space, tab, line feed, vertical tab, form feed, carriage return.
pub open spec fn is_ws(b: u8) -> bool {
    b == 32 || (9 <= b && b <= 13)
}

/// The bytes of `s` with every whitespace byte taken out.
pub open spec fn strip_ws(s: Seq<u8>) -> Seq<u8>
    decreases s.len(),
{
    if s.len() == 0 {
        s
    } else if is_ws(s.last()) {
        strip_ws(s.drop_last())
    } else {
        strip_ws(s.drop_last()).push(s.last())
    }
}

pub open spec fn is_digit(b: u8) -> bool {
    48 <= b && b <= 57
}

/// The number that a string of decimal digits denotes.
pub open spec fn digits_value(s: Seq<u8>) -> nat
    decreases s.len(),
{
    if s.len() == 0 {
        0
    } else {
        digits_value(s.drop_last()) * 10 + (s.last() - 48) as nat
    }
}

/// A non-empty string of decimal digits whose value is at most `max`.
pub open spec fn is_number(s: Seq<u8>, max: nat) -> bool {
    &&& s.len() > 0
    &&& forall|i: int| 0 <= i < s.len() ==> is_digit(#[trigger] s[i])
    &&& digits_value(s) <= max
}

/// A value 0..=255 as the grammar writes it: one or two digits, or three
/// digits without a leading zero.
pub open spec fn is_byte_text(s: Seq<u8>) -> bool {
    &&& is_number(s, 255)
    &&& s.len() <= 3
    &&& s.len() == 3 ==> s[0] != 48
}

/// Positions of the commas in `s`, in increasing order.
pub open spec fn commas(s: Seq<u8>) -> Seq<int>
    decreases s.len(),
{
    if s.len() == 0 {
        Seq::empty()
    } else if s.last() == 44 {
        commas(s.drop_last()).push(s.len() - 1)
    } else {
        commas(s.drop_last())
    }
}

/// The `k`-th of the five pieces of `s` between its four commas `c`.
pub open spec fn piece(s: Seq<u8>, c: Seq<int>, k: int) -> Seq<u8> {
    s.subrange(if k == 0 { 0 } else { c[k - 1] + 1 }, if k == 4 { s.len() as int } else { c[k] })
}

pub open spec fn is_formula_text(t: Seq<u8>) -> bool {
    &&& t.len() >= 4
    &&& t[0] == 61 && t[1] == 35 && t[2] == 40 && t.last() == 41
    &&& commas(t.subrange(3, t.len() - 1)).len() == 4
    &&& forall|k: int| 0 <= k < 4 ==> is_number(
        #[trigger] piece(t.subrange(3, t.len() - 1), commas(t.subrange(3, t.len() - 1)), k),
        u32::MAX as nat,
    )
    &&& is_byte_text(piece(t.subrange(3, t.len() - 1), commas(t.subrange(3, t.len() - 1)), 4))
}

pub open spec fn formula_field(t: Seq<u8>, k: int) -> u32 {
    digits_value(piece(t.subrange(3, t.len() - 1), commas(t.subrange(3, t.len() - 1)), k)) as u32
}

/// Classification of a descriptor once its whitespace is gone.
pub open spec fn classify_stripped(t: Seq<u8>) -> Category {
    if is_byte_text(t) {
        Category::StaticCell(StaticCell { value: digits_value(t) as u32 })
    } else if is_formula_text(t) {
        Category::OccurCell(OccurCell {
            occurrence: 0,
            rectangle: Rectangle {
                begin: Coordinates { row: formula_field(t, 0), col: formula_field(t, 1) },
                end: Coordinates { row: formula_field(t, 2), col: formula_field(t, 3) },
            },
            value: formula_field(t, 4),
        })
    } else {
        Category::FaultyCell
    }
}

/// A descriptor is a constant 0..=255, or a formula `=#(r1,c1,r2,c2,v)` with
/// four unsigned 32-bit numbers and a target 0..=255 (see `is_byte_text`); whitespace anywhere is
/// ignored. Anything else is faulty.
pub open spec fn classify_spec(s: Seq<u8>) -> Category {
    classify_stripped(strip_ws(s))
}

/// Copies `s` without its whitespace bytes.
fn strip(s: &[u8]) -> (r: Vec<u8>)
    ensures
        r@ == strip_ws(s@),
{
    let mut r: Vec<u8> = Vec::new();
    let mut i: usize = 0;
    while i < s.len()
        invariant
            i <= s@.len(),
            r@ == strip_ws(s@.take(i as int)),
        decreases s@.len() - i,
    {
        let b = s[i];
        assert(s@.take(i + 1).drop_last() =~= s@.take(i as int));
        if !(b == 32 || (9 <= b && b <= 13)) {
            r.push(b);
        }
        i = i + 1;
    }
    assert(s@.take(i as int) =~= s@);
    r
}

proof fn lemma_capped_step(x: nat, d: nat, cap: nat)
    requires
        d < 10,
    ensures
        (if x < cap { x } else { cap }) * 10 + d >= cap ==> (if x * 10 + d < cap { x * 10 + d } else { cap }) == cap,
        (if x < cap { x } else { cap }) * 10 + d < cap ==> x * 10 + d < cap && x < cap,
{
}

/// The number written in `t[lo..hi]`, when that is a non-empty run of digits
/// with value at most `max`.
fn parse_number(t: &Vec<u8>, lo: usize, hi: usize, max: u32) -> (r: Option<u32>)
    requires
        lo <= hi <= t@.len(),
    ensures
        r is Some == is_number(t@.subrange(lo as int, hi as int), max as nat),
        r matches Some(v) ==> v == digits_value(t@.subrange(lo as int, hi as int)),
{
    if lo == hi {
        return None;
    }
    let cap: u64 = max as u64 + 1;
    let mut acc: u64 = 0;
    let mut i: usize = lo;
    while i < hi
        invariant
            lo <= i <= hi <= t@.len(),
            cap == max + 1,
            forall|j: int| lo <= j < i ==> is_digit(#[trigger] t@[j]),
            acc as nat == (if digits_value(t@.subrange(lo as int, i as int)) < cap {
                digits_value(t@.subrange(lo as int, i as int))
            } else {
                cap as nat
            }),
        decreases hi - i,
    {
        let b = t[i];
        if !(48 <= b && b <= 57) {
            assert(t@.subrange(lo as int, hi as int)[i - lo] == b);
            return None;
        }
        let d: u64 = (b - 48) as u64;
        let ghost x = digits_value(t@.subrange(lo as int, i as int));
        assert(t@.subrange(lo as int, i + 1).drop_last() =~= t@.subrange(lo as int, i as int));
        proof { lemma_capped_step(x, d as nat, cap as nat); }
        let next: u64 = acc * 10 + d;
        if next >= cap {
            acc = cap;
        } else {
            acc = next;
        }
        i = i + 1;
    }
    assert forall|j: int| 0 <= j < t@.subrange(lo as int, hi as int).len() implies is_digit(
        #[trigger] t@.subrange(lo as int, hi as int)[j],
    ) by {
        assert(t@.subrange(lo as int, hi as int)[j] == t@[lo + j]);
    }
    if acc >= cap {
        None
    } else {
        Some(acc as u32)
    }
}

/// The value written in `t[lo..hi]`, when that is a byte value as the grammar
/// writes it (`is_byte_text`).
fn parse_byte(t: &Vec<u8>, lo: usize, hi: usize) -> (r: Option<u32>)
    requires
        lo <= hi <= t@.len(),
    ensures
        r is Some == is_byte_text(t@.subrange(lo as int, hi as int)),
        r matches Some(v) ==> v == digits_value(t@.subrange(lo as int, hi as int)),
{
    if hi - lo > 3 || (hi - lo == 3 && t[lo] == 48) {
        assert(hi - lo == 3 ==> t@.subrange(lo as int, hi as int)[0] == t@[lo as int]);
        return None;
    }
    assert(hi - lo == 3 ==> t@.subrange(lo as int, hi as int)[0] == t@[lo as int]);
    parse_number(t, lo, hi, 255)
}

/// Positions of the commas in `t[lo..hi]`, relative to `lo`.
fn comma_positions(t: &Vec<u8>, lo: usize, hi: usize) -> (r: Vec<usize>)
    requires
        lo <= hi <= t@.len(),
    ensures
        r@.len() == commas(t@.subrange(lo as int, hi as int)).len(),
        forall|k: int| 0 <= k < r@.len() ==> r@[k] as int == #[trigger] commas(
            t@.subrange(lo as int, hi as int),
        )[k],
{
    let mut r: Vec<usize> = Vec::new();
    let mut i: usize = lo;
    while i < hi
        invariant
            lo <= i <= hi <= t@.len(),
            r@.len() == commas(t@.subrange(lo as int, i as int)).len(),
            forall|k: int| 0 <= k < r@.len() ==> r@[k] as int == #[trigger] commas(
                t@.subrange(lo as int, i as int),
            )[k],
        decreases hi - i,
    {
        assert(t@.subrange(lo as int, i + 1).drop_last() =~= t@.subrange(lo as int, i as int));
        if t[i] == 44 {
            r.push(i - lo);
        }
        i = i + 1;
    }
    r
}

/// Classifies a cell descriptor (see `classify_spec`).
pub fn classify(formula: &str) -> (r: Category)
    ensures
        r == classify_spec(formula.spec_bytes()),
{
    let t = strip(formula.as_bytes());
    let n = t.len();
    if let Some(v) = parse_byte(&t, 0, n) {
        assert(t@.subrange(0, n as int) =~= t@);
        return Category::StaticCell(StaticCell { value: v });
    }
    assert(t@.subrange(0, n as int) =~= t@);
    if n < 4 || t[0] != 61 || t[1] != 35 || t[2] != 40 || t[n - 1] != 41 {
        return Category::FaultyCell;
    }
    let ghost inner = t@.subrange(3, n - 1);
    let c = comma_positions(&t, 3, n - 1);
    if c.len() != 4 {
        return Category::FaultyCell;
    }
    proof {
        lemma_commas_bounds(inner);
    }
    let ghost cs = commas(inner);
    assert forall|k: int| 0 <= k < 5 implies #[trigger] piece(inner, cs, k) =~= t@.subrange(
        3 + (if k == 0 { 0 } else { cs[k - 1] + 1 }),
        3 + (if k == 4 { inner.len() as int } else { cs[k] }),
    ) by {}
    let r1 = parse_number(&t, 3, 3 + c[0], u32::MAX);
    let c1 = parse_number(&t, 3 + c[0] + 1, 3 + c[1], u32::MAX);
    let r2 = parse_number(&t, 3 + c[1] + 1, 3 + c[2], u32::MAX);
    let c2 = parse_number(&t, 3 + c[2] + 1, 3 + c[3], u32::MAX);
    let v = parse_byte(&t, 3 + c[3] + 1, n - 1);
    assert(piece(inner, cs, 0) == t@.subrange(3, 3 + c[0]));
    assert(piece(inner, cs, 1) == t@.subrange(3 + c[0] + 1, 3 + c[1]));
    assert(piece(inner, cs, 2) == t@.subrange(3 + c[1] + 1, 3 + c[2]));
    assert(piece(inner, cs, 3) == t@.subrange(3 + c[2] + 1, 3 + c[3]));
    assert(piece(inner, cs, 4) == t@.subrange(3 + c[3] + 1, n - 1));
    match (r1, c1, r2, c2, v) {
        (Some(r1), Some(c1), Some(r2), Some(c2), Some(v)) => {
            Category::OccurCell(OccurCell {
                occurrence: 0,
                rectangle: Rectangle {
                    begin: Coordinates { row: r1, col: c1 },
                    end: Coordinates { row: r2, col: c2 },
                },
                value: v,
            })
        },
        _ => {
            assert(!is_formula_text(t@) || !(r1 is Some && c1 is Some && r2 is Some && c2 is Some)
                || v is None) by {
                if is_formula_text(t@) {
                    assert(is_number(piece(inner, cs, 0), u32::MAX as nat));
                    assert(is_number(piece(inner, cs, 1), u32::MAX as nat));
                    assert(is_number(piece(inner, cs, 2), u32::MAX as nat));
                    assert(is_number(piece(inner, cs, 3), u32::MAX as nat));
                }
            }
            Category::FaultyCell
        },
    }
}

/// The commas of `s` lie inside it, in strictly increasing order.
proof fn lemma_commas_bounds(s: Seq<u8>)
    ensures
        forall|k: int| 0 <= k < commas(s).len() ==> 0 <= #[trigger] commas(s)[k] < s.len(),
        forall|k: int, j: int| 0 <= k < j < commas(s).len() ==> commas(s)[k] < commas(s)[j],
    decreases s.len(),
{
    if s.len() > 0 {
        let p = s.drop_last();
        lemma_commas_bounds(p);
        if s.last() == 44 {
            assert(commas(s) == commas(p).push(s.len() - 1));
            assert forall|k: int| 0 <= k < commas(s).len() implies 0 <= #[trigger] commas(s)[k]
                < s.len() by {
                if k < commas(p).len() {
                    assert(commas(s)[k] == commas(p)[k]);
                }
            }
        } else {
            assert(commas(s) == commas(p));
        }
    }
}

/// ASCII decimal digits of `n`, most significant first.
pub open spec fn decimal_bytes(n: nat) -> Seq<u8>
    decreases n,
{
    if n < 10 {
        seq![(48 + n) as u8]
    } else {
        decimal_bytes(n / 10).push((48 + n % 10) as u8)
    }
}

/// The text of a reported value as bytes: its digits, or `P`.
pub open spec fn display_bytes(v: Option<u32>) -> Seq<u8> {
    match v {
        Some(n) => decimal_bytes(n as nat),
        None => seq![80u8],
    }
}

proof fn lemma_decimal_bytes(n: nat)
    ensures
        decimal_bytes(n).len() > 0,
        forall|i: int| 0 <= i < decimal_bytes(n).len() ==> is_digit(#[trigger] decimal_bytes(n)[i]),
        digits_value(decimal_bytes(n)) == n,
        strip_ws(decimal_bytes(n)) == decimal_bytes(n),
    decreases n,
{
    let d = decimal_bytes(n);
    if n < 10 {
        assert(d.drop_last() =~= Seq::<u8>::empty());
        assert(strip_ws(d.drop_last()) =~= Seq::<u8>::empty());
        assert(strip_ws(d) =~= d);
        assert(d.last() - 48 == n);
        assert(digits_value(d) == digits_value(d.drop_last()) * 10 + (d.last() - 48) as nat);
    } else {
        lemma_decimal_bytes(n / 10);
        assert(d.drop_last() =~= decimal_bytes(n / 10));
        assert(strip_ws(d) =~= d);
        assert(d.last() - 48 == n % 10);
        assert(digits_value(d) == digits_value(d.drop_last()) * 10 + (d.last() - 48) as nat);
        assert((n / 10) * 10 + n % 10 == n);
    }
}

/// The text of a value in the byte range reads back as that constant, and
/// `P` reads back as faulty.
pub proof fn lemma_display_classifies(v: Option<u32>)
    requires
        v matches Some(n) ==> n <= 255,
    ensures
        classify_spec(display_bytes(v)) == match v {
            Some(n) => Category::StaticCell(StaticCell { value: n }),
            None => Category::FaultyCell,
        },
{
    match v {
        Some(n) => {
            lemma_decimal_bytes(n as nat);
            let d = decimal_bytes(n as nat);
            if n >= 10 {
                lemma_decimal_bytes((n / 10) as nat);
                assert(d.drop_last() == decimal_bytes((n / 10) as nat));
                if n >= 100 {
                    let d1 = decimal_bytes((n / 10) as nat);
                    assert(d1.drop_last() == decimal_bytes((n / 100) as nat));
                    assert(decimal_bytes((n / 100) as nat) == seq![(48 + n / 100) as u8]);
                    assert(d1.len() == 2);
                    assert(d[0] == d1[0]);
                    assert(d1[0] == decimal_bytes((n / 100) as nat)[0]);
                } else {
                    assert(decimal_bytes((n / 10) as nat) == seq![(48 + n / 10) as u8]);
                }
            }
            assert(d.len() <= 3);
        },
        None => {
            let p = seq![80u8];
            assert(p.drop_last() =~= Seq::<u8>::empty());
            assert(strip_ws(p.drop_last()) =~= Seq::<u8>::empty());
            assert(strip_ws(p) =~= p);
            assert(!is_digit(p[0]));
        },
    }
}

/// Position of the first space in `s` at or after `from`, or `s.len()`.
pub open spec fn space_from(s: Seq<u8>, from: int) -> int
    decreases s.len() - from,
{
    if from >= s.len() {
        s.len() as int
    } else if s[from] == 32 {
        from
    } else {
        space_from(s, from + 1)
    }
}

/// An edit line `row col descriptor`: a row and a column written as decimal
/// numbers, each followed by one space, then the descriptor. Gives the row,
/// the column and where the descriptor starts.
pub open spec fn edit_line_spec(s: Seq<u8>) -> Option<(u32, u32, int)> {
    let i = space_from(s, 0);
    let j = space_from(s, i + 1);
    if i < s.len() && j < s.len() && is_number(s.subrange(0, i), u32::MAX as nat) && is_number(
        s.subrange(i + 1, j),
        u32::MAX as nat,
    ) {
        Some((digits_value(s.subrange(0, i)) as u32, digits_value(s.subrange(i + 1, j)) as u32, j + 1))
    } else {
        None
    }
}

fn find_space(s: &Vec<u8>, from: usize) -> (r: usize)
    requires
        from <= s@.len(),
    ensures
        r == space_from(s@, from as int),
        from <= r <= s@.len(),
    decreases s@.len() - from,
{
    if from == s.len() {
        from
    } else if s[from] == 32 {
        from
    } else {
        find_space(s, from + 1)
    }
}

/// Splits an edit line into its row, its column and the byte position where
/// its descriptor starts (see `edit_line_spec`).
pub fn split_edit_line(line: &str) -> (r: Option<(u32, u32, usize)>)
    ensures
        r matches Some((row, col, k)) ==> edit_line_spec(line.spec_bytes()) == Some((row, col, k as int)),
        r is None ==> edit_line_spec(line.spec_bytes()) is None,
{
    let b = line.as_bytes();
    let mut t: Vec<u8> = Vec::new();
    let mut k: usize = 0;
    while k < b.len()
        invariant
            k <= b@.len(),
            t@ == b@.take(k as int),
        decreases b@.len() - k,
    {
        t.push(b[k]);
        k = k + 1;
        assert(t@ =~= b@.take(k as int));
    }
    assert(t@ =~= b@);
    let i = find_space(&t, 0);
    if i == t.len() {
        return None;
    }
    let j = find_space(&t, i + 1);
    if j == t.len() {
        return None;
    }
    match (parse_number(&t, 0, i, u32::MAX), parse_number(&t, i + 1, j, u32::MAX)) {
        (Some(row), Some(col)) => Some((row, col, j + 1)),
        _ => None,
    }
}

} // verus!
