//! Checks on the command line's file names.

use vstd::prelude::*;
use vstd::string::StringSliceAdditionalSpecFns;

verus! {

/// What follows the first `.` of `s`, if `s` holds one.
pub open spec fn after_first_dot(s: Seq<u8>) -> Option<Seq<u8>>
    decreases s.len(),
{
    if s.len() == 0 {
        None
    } else if s[0] == 46 {
        Some(s.drop_first())
    } else {
        after_first_dot(s.drop_first())
    }
}

/// The bytes of `s` before its first `.` (all of `s` if it holds none).
pub open spec fn up_to_dot(s: Seq<u8>) -> Seq<u8>
    decreases s.len(),
{
    if s.len() == 0 {
        s
    } else if s[0] == 46 {
        Seq::empty()
    } else {
        seq![s[0]] + up_to_dot(s.drop_first())
    }
}

/// The second `.`-separated token of a file name, if it has one.
pub open spec fn second_token(s: Seq<u8>) -> Option<Seq<u8>> {
    match after_first_dot(s) {
        Some(rest) => Some(up_to_dot(rest)),
        None => None,
    }
}

/// The extension expected at argument position `i`: `txt` at even
/// positions, `csv` at odd ones.
pub open spec fn expected_extension(i: int) -> Seq<u8> {
    if i % 2 == 0 { seq![116u8, 120u8, 116u8] } else { seq![99u8, 115u8, 118u8] }
}

/// Position of the first `.` in `s` at or after `from`, or `s.len()`.
fn find_dot(s: &[u8], from: usize) -> (r: usize)
    requires
        from <= s@.len(),
    ensures
        from <= r <= s@.len(),
        r < s@.len() ==> s@[r as int] == 46,
        forall|j: int| from <= j < r ==> s@[j] != 46,
        after_first_dot(s@.subrange(from as int, s@.len() as int)) == if r < s@.len() {
            Some(s@.subrange(r + 1, s@.len() as int))
        } else {
            None::<Seq<u8>>
        },
        up_to_dot(s@.subrange(from as int, s@.len() as int)) == s@.subrange(from as int, r as int),
    decreases s@.len() - from,
{
    let ghost t = s@.subrange(from as int, s@.len() as int);
    if from == s.len() {
        assert(t.len() == 0);
        assert(s@.subrange(from as int, from as int) =~= t);
        return from;
    }
    if s[from] == 46 {
        assert(t[0] == 46);
        assert(t.drop_first() =~= s@.subrange(from + 1, s@.len() as int));
        assert(up_to_dot(t) =~= s@.subrange(from as int, from as int));
        return from;
    }
    let r = find_dot(s, from + 1);
    assert(t.drop_first() =~= s@.subrange(from + 1, s@.len() as int));
    assert(seq![t[0]] + s@.subrange(from + 1, r as int) =~= s@.subrange(from as int, r as int));
    r
}

fn bytes_equal(a: &[u8], lo: usize, hi: usize, b: &[u8]) -> (r: bool)
    requires
        lo <= hi <= a@.len(),
    ensures
        r == (a@.subrange(lo as int, hi as int) == b@),
{
    if hi - lo != b.len() {
        assert(a@.subrange(lo as int, hi as int).len() != b@.len());
        return false;
    }
    let mut k: usize = 0;
    while k < b.len()
        invariant
            lo <= hi <= a@.len(),
            hi - lo == b@.len(),
            k <= b@.len(),
            forall|j: int| 0 <= j < k ==> a@[lo + j] == b@[j],
        decreases b@.len() - k,
    {
        if a[lo + k] != b[k] {
            assert(a@.subrange(lo as int, hi as int)[k as int] != b@[k as int]);
            return false;
        }
        k = k + 1;
    }
    assert(a@.subrange(lo as int, hi as int) =~= b@);
    true
}

/// Whether each argument after the first (the program) names a file with
/// the expected extension: `csv` at odd positions, `txt` at even ones, the
/// extension being the token after the first `.`.
pub fn check_extension(vector: &Vec<&str>) -> (r: bool)
    ensures
        r == forall|i: int| 1 <= i < vector@.len() ==> second_token(#[trigger] vector@[i].spec_bytes())
            == Some(expected_extension(i)),
{
    let txt: [u8; 3] = [116, 120, 116];
    let csv: [u8; 3] = [99, 115, 118];
    assert(txt@ =~= expected_extension(0));
    assert(csv@ =~= expected_extension(1));
    let mut i: usize = 1;
    while i < vector.len()
        invariant
            1 <= i <= vector@.len() || vector@.len() == 0,
            txt@ == expected_extension(0),
            csv@ == expected_extension(1),
            forall|j: int| 1 <= j < i && j < vector@.len() ==> second_token(#[trigger] vector@[j].spec_bytes())
                == Some(expected_extension(j)),
        decreases vector@.len() - i,
    {
        let name = vector[i].as_bytes();
        let first = find_dot(name, 0);
        assert(name@.subrange(0, name@.len() as int) =~= name@);
        if first == name.len() {
            return false;
        }
        let second = find_dot(name, first + 1);
        let expected: &[u8] = if i % 2 == 0 { txt.as_slice() } else { csv.as_slice() };
        assert(expected@ == expected_extension(i as int));
        if !bytes_equal(name, first + 1, second, expected) {
            return false;
        }
        i = i + 1;
    }
    true
}

} // verus!
