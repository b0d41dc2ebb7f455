//! The text of an OFF file, as far as it is whole numbers: the magic line,
//! the line of counts, and the lines of triangles. The coordinates of the
//! vertices are decimal fractions; of their lines only the fields are found
//! here.

use vstd::prelude::*;
use vstd::slice::slice_subrange;
use crate::geometry::types::Triangle;

verus! {

/// What can be wrong with the text of an OFF file.
#[derive(Clone, Copy, Debug, PartialEq, Eq)]
pub enum OFFError {
    /// The text does not have the form of the file, with the reason.
    String(&'static str),
    /// A field that should be a whole number is none, or one too large.
    ParseInt,
}

/// What the next line of an OFF file holds.
#[derive(Clone, Copy, Debug, PartialEq, Eq, Structural)]
pub enum LineKind {
    /// The coordinates of a vertex.
    Vertex,
    /// The corners of a triangle.
    Triangle,
    /// Nothing that belongs to the mesh.
    Rest,
}

/// Blank, tab, line feed, vertical tab, form feed or carriage return.
pub open spec fn spec_is_space(b: u8) -> bool {
    b == 32 || (9 <= b <= 13)
}

/// A decimal digit.
pub open spec fn spec_is_digit(b: u8) -> bool {
    48 <= b <= 57
}

/// The first place at or after `from` that holds no white space; the length
/// of the text if there is none.
pub open spec fn after_spaces(s: Seq<u8>, from: int) -> int
    decreases s.len() - from,
{
    if from < 0 || from >= s.len() || !spec_is_space(s[from]) {
        from
    } else {
        after_spaces(s, from + 1)
    }
}

/// The first place at or after `from` that holds white space; the length of
/// the text if there is none.
pub open spec fn after_field(s: Seq<u8>, from: int) -> int
    decreases s.len() - from,
{
    if from < 0 || from >= s.len() || spec_is_space(s[from]) {
        from
    } else {
        after_field(s, from + 1)
    }
}

/// The first place at or after `from` that holds no digit; the length of the
/// text if there is none.
pub open spec fn after_digits(s: Seq<u8>, from: int) -> int
    decreases s.len() - from,
{
    if from < 0 || from >= s.len() || !spec_is_digit(s[from]) {
        from
    } else {
        after_digits(s, from + 1)
    }
}

/// The text is one or more decimal digits.
pub open spec fn is_digits(s: Seq<u8>) -> bool {
    s.len() > 0 && forall|i: int| 0 <= i < s.len() ==> spec_is_digit(#[trigger] s[i])
}

/// The number that the digits write.
pub open spec fn decimal(s: Seq<u8>) -> nat
    decreases s.len(),
{
    if s.len() == 0 {
        0
    } else {
        decimal(s.drop_last()) * 10 + (s.last() - 48) as nat
    }
}

/// The number that a field writes: digits, after a plus sign or none, that
/// write a number no greater than `usize::MAX`.
pub open spec fn index_of(field: Seq<u8>) -> Option<usize> {
    let digits = if field.len() > 0 && field[0] == 43 {
        field.skip(1)
    } else {
        field
    };
    if is_digits(digits) && decimal(digits) <= usize::MAX {
        Some(decimal(digits) as usize)
    } else {
        None
    }
}

/// Whether the byte is white space.
pub fn is_space(b: u8) -> (r: bool)
    ensures
        r == spec_is_space(b),
{
    b == 32 || (9 <= b && b <= 13)
}

/// Whether the line is the magic line: the letters OFF and a line feed.
pub fn is_magic(line: &[u8]) -> (r: bool)
    ensures
        r == (line@ == seq![79u8, 70u8, 70u8, 10u8]),
{
    let r = line.len() == 4 && line[0] == 79 && line[1] == 70 && line[2] == 70 && line[3] == 10;
    proof {
        if r {
            assert(line@ =~= seq![79u8, 70u8, 70u8, 10u8]);
        }
    }
    r
}

/// The first place at or after `from` that holds no white space.
pub fn skip_spaces(line: &[u8], from: usize) -> (to: usize)
    requires
        from <= line@.len(),
    ensures
        to == after_spaces(line@, from as int),
        from <= to <= line@.len(),
        to < line@.len() ==> !spec_is_space(line@[to as int]),
{
    let mut i: usize = from;
    while i < line.len() && is_space(line[i])
        invariant
            from <= i <= line@.len(),
            after_spaces(line@, from as int) == after_spaces(line@, i as int),
        decreases line@.len() - i,
    {
        i = i + 1;
    }
    i
}

/// The first place at or after `from` that holds white space.
pub fn skip_field(line: &[u8], from: usize) -> (to: usize)
    requires
        from <= line@.len(),
    ensures
        to == after_field(line@, from as int),
        from <= to <= line@.len(),
        from < line@.len() && !spec_is_space(line@[from as int]) ==> from < to,
        forall|i: int| from <= i < to ==> !spec_is_space(#[trigger] line@[i]),
{
    let mut i: usize = from;
    while i < line.len() && !is_space(line[i])
        invariant
            from <= i <= line@.len(),
            after_field(line@, from as int) == after_field(line@, i as int),
            from < line@.len() && !spec_is_space(line@[from as int]) && i < line@.len() && spec_is_space(
                line@[i as int],
            ) ==> from < i,
            forall|k: int| from <= k < i ==> !spec_is_space(#[trigger] line@[k]),
        decreases line@.len() - i,
    {
        i = i + 1;
    }
    i
}

/// The first place at or after `from` that holds no digit.
pub fn skip_digits(line: &[u8], from: usize) -> (to: usize)
    requires
        from <= line@.len(),
    ensures
        to == after_digits(line@, from as int),
        from <= to <= line@.len(),
        forall|i: int| from <= i < to ==> spec_is_digit(#[trigger] line@[i]),
        to < line@.len() ==> !spec_is_digit(line@[to as int]),
{
    let mut i: usize = from;
    while i < line.len() && 48 <= line[i] && line[i] <= 57
        invariant
            from <= i <= line@.len(),
            after_digits(line@, from as int) == after_digits(line@, i as int),
            forall|k: int| from <= k < i ==> spec_is_digit(#[trigger] line@[k]),
        decreases line@.len() - i,
    {
        i = i + 1;
    }
    i
}

/// More digits write a number that is no smaller.
pub proof fn lemma_decimal_grows(s: Seq<u8>, n: int)
    requires
        0 <= n <= s.len(),
    ensures
        decimal(s.take(n)) <= decimal(s),
    decreases s.len() - n,
{
    if n < s.len() {
        lemma_decimal_grows(s, n + 1);
        assert(s.take(n + 1).drop_last() =~= s.take(n));
    } else {
        assert(s.take(n) =~= s);
    }
}

/// The number that the digits from `from` to `to` write, if it is no greater
/// than `usize::MAX`.
pub fn parse_digits(line: &[u8], from: usize, to: usize) -> (value: Option<usize>)
    requires
        from <= to <= line@.len(),
        forall|i: int| from <= i < to ==> spec_is_digit(#[trigger] line@[i]),
    ensures
        value == (if decimal(line@.subrange(from as int, to as int)) <= usize::MAX {
            Some(decimal(line@.subrange(from as int, to as int)) as usize)
        } else {
            None
        }),
{
    let ghost digits = line@.subrange(from as int, to as int);
    let mut value: usize = 0;
    let mut i: usize = from;
    assert(digits.take(0) =~= Seq::<u8>::empty());
    while i < to
        invariant
            from <= i <= to <= line@.len(),
            digits == line@.subrange(from as int, to as int),
            forall|k: int| from <= k < to ==> spec_is_digit(#[trigger] line@[k]),
            value == decimal(digits.take(i - from)),
        decreases to - i,
    {
        let digit: usize = (line[i] - 48) as usize;
        proof {
            let next = digits.take(i - from + 1);
            assert(next.drop_last() =~= digits.take(i - from));
            assert(next.last() == line@[i as int]);
            assert(spec_is_digit(line@[i as int]));
            lemma_decimal_grows(digits, i - from + 1);
        }
        if value > (usize::MAX - digit) / 10 {
            return None;
        }
        value = value * 10 + digit;
        i = i + 1;
    }
    assert(digits.take(to - from) =~= digits);
    Some(value)
}

/// The number that the field from `from` to `to` writes.
pub fn parse_index(line: &[u8], from: usize, to: usize) -> (value: Option<usize>)
    requires
        from <= to <= line@.len(),
    ensures
        value == index_of(line@.subrange(from as int, to as int)),
{
    let ghost field = line@.subrange(from as int, to as int);
    let start: usize = if from < to && line[from] == 43 {
        from + 1
    } else {
        from
    };
    let ghost digits = line@.subrange(start as int, to as int);
    proof {
        if start > from {
            assert(field[0] == 43);
            assert(field.skip(1) =~= digits);
        } else {
            assert(field =~= digits);
            if field.len() > 0 {
                assert(field[0] == line@[from as int]);
            }
        }
    }
    let end: usize = skip_digits(line, start);
    if start == to || end < to {
        proof {
            if start < to {
                assert(!spec_is_digit(line@[end as int]));
                assert(digits[end - start] == line@[end as int]);
            }
        }
        return None;
    }
    proof {
        assert forall|i: int| 0 <= i < digits.len() implies spec_is_digit(#[trigger] digits[i]) by {
            assert(digits[i] == line@[start + i]);
        }
    }
    parse_digits(line, start, to)
}

/// The line of counts has the form: a number, white space, a number, white
/// space, a number, white space, and nothing more.
pub open spec fn counts_form(s: Seq<u8>) -> bool {
    let a = after_digits(s, 0);
    let b0 = after_spaces(s, a);
    let b = after_digits(s, b0);
    let c0 = after_spaces(s, b);
    let c = after_digits(s, c0);
    let end = after_spaces(s, c);
    &&& 0 < a
    &&& a < b0 < b
    &&& b < c0 < c
    &&& c < end
    &&& end == s.len()
}

/// The counts of vertices and of triangles that the second line of the file
/// announces.
pub open spec fn counts_of(s: Seq<u8>) -> Result<(usize, usize), OFFError> {
    let a = after_digits(s, 0);
    let b0 = after_spaces(s, a);
    let b = after_digits(s, b0);
    if !counts_form(s) {
        Err(OFFError::String("Could not decode vertices and triangle count"))
    } else if decimal(s.subrange(0, a)) > usize::MAX || decimal(s.subrange(b0, b)) > usize::MAX {
        Err(OFFError::ParseInt)
    } else {
        Ok((decimal(s.subrange(0, a)) as usize, decimal(s.subrange(b0, b)) as usize))
    }
}

/// The counts of vertices and of triangles on the line of counts. A third
/// number has to follow them, and is not looked at.
pub fn parse_counts(line: &[u8]) -> (counts: Result<(usize, usize), OFFError>)
    ensures
        counts == counts_of(line@),
{
    let a: usize = skip_digits(line, 0);
    let b0: usize = skip_spaces(line, a);
    let b: usize = skip_digits(line, b0);
    let c0: usize = skip_spaces(line, b);
    let c: usize = skip_digits(line, c0);
    let end: usize = skip_spaces(line, c);
    if !(0 < a && a < b0 && b0 < b && b < c0 && c0 < c && c < end && end == line.len()) {
        return Err(OFFError::String("Could not decode vertices and triangle count"));
    }
    match (parse_digits(line, 0, a), parse_digits(line, b0, b)) {
        (Some(nb_vertices), Some(nb_triangles)) => Ok((nb_vertices, nb_triangles)),
        _ => Err(OFFError::ParseInt),
    }
}

/// Where field `k` of the line begins: after the white space that follows
/// the fields before it.
pub open spec fn field_start(s: Seq<u8>, k: nat) -> int
    decreases k,
{
    if k == 0 {
        after_spaces(s, 0)
    } else {
        after_spaces(s, after_field(s, field_start(s, (k - 1) as nat)))
    }
}

/// Field `k` of the line, if the line has that many.
pub open spec fn field(s: Seq<u8>, k: nat) -> Option<Seq<u8>> {
    let from = field_start(s, k);
    if 0 <= from < s.len() {
        Some(s.subrange(from, after_field(s, from)))
    } else {
        None
    }
}

/// `corners` with corner `k` read from the field after it, where the line
/// has that field.
pub open spec fn with_field(s: Seq<u8>, corners: Result<Triangle, OFFError>, k: nat) -> Result<
    Triangle,
    OFFError,
> {
    match (corners, field(s, k + 1)) {
        (Ok(t), Some(text)) => match index_of(text) {
            Some(value) => Ok(
                [
                    if k == 0 { value } else { t[0] },
                    if k == 1 { value } else { t[1] },
                    if k == 2 { value } else { t[2] },
                ],
            ),
            None => Err(OFFError::ParseInt),
        },
        _ => corners,
    }
}

/// The triangle that a line writes: its second, third and fourth field are
/// the corners; a corner whose field is missing stays as in `previous`.
pub open spec fn triangle_of(s: Seq<u8>, previous: Triangle) -> Result<Triangle, OFFError> {
    with_field(s, with_field(s, with_field(s, Ok(previous), 0), 1), 2)
}

/// The bounds of the field that begins at or after `from`, if there is one.
pub fn next_field(line: &[u8], from: usize) -> (bounds: Option<(usize, usize)>)
    requires
        from <= line@.len(),
    ensures
        match bounds {
            Some((start, end)) => start == after_spaces(line@, from as int) && start < end <= line@.len()
                && end == after_field(line@, start as int),
            None => after_spaces(line@, from as int) == line@.len(),
        },
{
    let start: usize = skip_spaces(line, from);
    if start == line.len() {
        return None;
    }
    let end: usize = skip_field(line, start);
    Some((start, end))
}

/// The triangle that a line writes.
pub fn parse_triangle(line: &[u8], previous: Triangle) -> (corners: Result<Triangle, OFFError>)
    ensures
        corners == triangle_of(line@, previous),
{
    let mut index: Triangle = previous;
    // the field that counts the corners
    let first = next_field(line, 0);
    let mut from: usize = match first {
        Some((_, end)) => end,
        None => {
            proof {
                lemma_no_field_after(line@, 0, 1);
                lemma_no_field_after(line@, 0, 2);
                lemma_no_field_after(line@, 0, 3);
            }
            return Ok(index);
        },
    };
    let mut k: usize = 0;
    let ghost mut so_far: Result<Triangle, OFFError> = Ok(previous);
    while k < 3
        invariant
            0 <= k <= 3,
            from <= line@.len(),
            0 <= field_start(line@, k as nat) < line@.len(),
            from == after_field(line@, field_start(line@, k as nat)),
            so_far == Ok::<Triangle, OFFError>(index),
            k == 0 ==> so_far == Ok::<Triangle, OFFError>(previous),
            k == 1 ==> so_far == with_field(line@, Ok(previous), 0),
            k == 2 ==> so_far == with_field(line@, with_field(line@, Ok(previous), 0), 1),
            k == 3 ==> so_far == triangle_of(line@, previous),
        decreases 3 - k,
    {
        match next_field(line, from) {
            None => {
                proof {
                    assert(field(line@, (k + 1) as nat).is_none());
                    lemma_no_field_after(line@, (k + 1) as nat, (k + 2) as nat);
                    lemma_no_field_after(line@, (k + 1) as nat, (k + 3) as nat);
                }
                return Ok(index);
            },
            Some((start, end)) => {
                assert(field(line@, (k + 1) as nat) == Some(line@.subrange(start as int, end as int)));
                match parse_index(line, start, end) {
                    None => {
                        return Err(OFFError::ParseInt);
                    },
                    Some(value) => {
                        index = [
                            if k == 0 { value } else { index[0] },
                            if k == 1 { value } else { index[1] },
                            if k == 2 { value } else { index[2] },
                        ];
                        proof {
                            so_far = with_field(line@, so_far, k as nat);
                            assert(so_far =~= Ok::<Triangle, OFFError>(index));
                        }
                        from = end;
                        k = k + 1;
                    },
                }
            },
        }
    }
    Ok(index)
}

/// A line that has no field `k` has none after it.
pub proof fn lemma_no_field_after(s: Seq<u8>, k: nat, later: nat)
    requires
        k <= later,
        field(s, k).is_none(),
    ensures
        field(s, later).is_none(),
    decreases later - k,
{
    lemma_field_start_in_range(s, k);
    if k < later {
        assert(field_start(s, k) == s.len());
        assert(after_field(s, s.len() as int) == s.len());
        assert(after_spaces(s, s.len() as int) == s.len());
        assert(field_start(s, k + 1) == s.len());
        lemma_no_field_after(s, k + 1, later);
    }
}

/// A field begins within the text or at its end.
pub proof fn lemma_field_start_in_range(s: Seq<u8>, k: nat)
    ensures
        0 <= field_start(s, k) <= s.len(),
    decreases k,
{
    if k == 0 {
        lemma_scan_in_range(s, 0);
    } else {
        lemma_field_start_in_range(s, (k - 1) as nat);
        lemma_scan_in_range(s, field_start(s, (k - 1) as nat));
        lemma_scan_in_range(s, after_field(s, field_start(s, (k - 1) as nat)));
    }
}

/// Skipping moves forward and stays within the text.
pub proof fn lemma_scan_in_range(s: Seq<u8>, from: int)
    requires
        0 <= from <= s.len(),
    ensures
        from <= after_spaces(s, from) <= s.len(),
        from <= after_field(s, from) <= s.len(),
    decreases s.len() - from,
{
    if from < s.len() {
        lemma_scan_in_range(s, from + 1);
    }
}

/// The bounds of the first fields of a line, three at most: of a vertex's
/// line, the fields that hold its coordinates.
pub fn vertex_fields(line: &[u8]) -> (fields: Vec<(usize, usize)>)
    ensures
        fields@.len() <= 3,
        forall|k: int|
            0 <= k < fields@.len() ==> {
                let (start, end) = #[trigger] fields@[k];
                &&& start == field_start(line@, k as nat)
                &&& start < end <= line@.len()
                &&& end == after_field(line@, start as int)
            },
        fields@.len() < 3 ==> field(line@, fields@.len()).is_none(),
{
    let mut fields: Vec<(usize, usize)> = Vec::new();
    let mut from: usize = 0;
    while fields.len() < 3
        invariant
            fields@.len() <= 3,
            from <= line@.len(),
            after_spaces(line@, from as int) == field_start(line@, fields@.len()),
            forall|k: int|
                0 <= k < fields@.len() ==> {
                    let (start, end) = #[trigger] fields@[k];
                    &&& start == field_start(line@, k as nat)
                    &&& start < end <= line@.len()
                    &&& end == after_field(line@, start as int)
                },
        decreases 3 - fields@.len(),
    {
        match next_field(line, from) {
            None => {
                return fields;
            },
            Some((start, end)) => {
                fields.push((start, end));
                from = end;
            },
        }
    }
    fields
}

/// What the next line holds, when `vertices` lines of vertices and
/// `triangles` lines of triangles are still to come: the vertices come
/// first, then the triangles, and what follows them is not read.
pub fn next_line(vertices: usize, triangles: usize) -> (kind: LineKind)
    ensures
        kind == (if vertices > 0 {
            LineKind::Vertex
        } else if triangles > 0 {
            LineKind::Triangle
        } else {
            LineKind::Rest
        }),
{
    if vertices > 0 {
        LineKind::Vertex
    } else if triangles > 0 {
        LineKind::Triangle
    } else {
        LineKind::Rest
    }
}

} // verus!
