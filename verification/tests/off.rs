use rand::rngs::StdRng;
use rand::{RngExt, SeedableRng};
use ray_ruster::geometry::off::{
    is_magic, is_space, next_field, next_line, parse_counts, parse_digits, parse_index, parse_triangle,
    skip_digits, skip_field, skip_spaces, vertex_fields, LineKind, OFFError,
};

const UNDECODABLE: OFFError = OFFError::String("Could not decode vertices and triangle count");

#[test]
fn magic_line_is_off_and_a_line_feed() {
    assert!(is_magic(b"OFF\n"));
    assert!(!is_magic(b"OFF"));
    assert!(!is_magic(b"OFF\r\n"));
    assert!(!is_magic(b"off\n"));
    assert!(!is_magic(b" OFF\n"));
    assert!(!is_magic(b""));
    assert!(!is_magic(b"OFF\n\n"));
}

#[test]
fn counts_are_the_first_two_numbers() {
    assert_eq!(parse_counts(b"8 12 0\n"), Ok((8, 12)));
    assert_eq!(parse_counts(b"8  12\t0 \r\n"), Ok((8, 12)));
    assert_eq!(parse_counts(b"0 0 0\n"), Ok((0, 0)));
    assert_eq!(parse_counts(b"007 010 99999999999999999999999999999\n"), Ok((7, 10)));
}

#[test]
fn counts_need_three_numbers_and_an_end_of_line() {
    for line in [
        &b"8 12 0"[..],
        b" 8 12 0\n",
        b"8 12\n",
        b"8\n",
        b"\n",
        b"",
        b"8 12 0 1\n",
        b"8 12 x\n",
        b"8,12,0\n",
        b"+8 12 0\n",
        b"-8 12 0\n",
        b"8 1.2 0\n",
        b"8 12 0\nx",
    ] {
        assert_eq!(parse_counts(line), Err(UNDECODABLE));
    }
}

#[test]
fn counts_too_large_are_an_error() {
    let max = usize::MAX.to_string();
    let line = format!("{} {} 0\n", max, max);
    assert_eq!(parse_counts(line.as_bytes()), Ok((usize::MAX, usize::MAX)));
    let line = format!("{}0 1 0\n", max);
    assert_eq!(parse_counts(line.as_bytes()), Err(OFFError::ParseInt));
    let mut above = max.clone().into_bytes();
    let last = above.len() - 1;
    above[last] += 1;
    let line = format!("1 {} 0\n", String::from_utf8(above).unwrap());
    assert_eq!(parse_counts(line.as_bytes()), Err(OFFError::ParseInt));
}

#[test]
fn triangle_is_the_three_fields_after_the_first() {
    assert_eq!(parse_triangle(b"3 0 1 2", [9, 9, 9]), Ok([0, 1, 2]));
    assert_eq!(parse_triangle(b"  3\t10  11 12  ", [9, 9, 9]), Ok([10, 11, 12]));
    assert_eq!(parse_triangle(b"3 1 2 3 4 5 x", [9, 9, 9]), Ok([1, 2, 3]));
    assert_eq!(parse_triangle(b"x +1 2 3", [9, 9, 9]), Ok([1, 2, 3]));
}

#[test]
fn triangle_with_missing_fields_keeps_the_corners_before() {
    assert_eq!(parse_triangle(b"3 4 5", [7, 8, 9]), Ok([4, 5, 9]));
    assert_eq!(parse_triangle(b"3 4", [7, 8, 9]), Ok([4, 8, 9]));
    assert_eq!(parse_triangle(b"3", [7, 8, 9]), Ok([7, 8, 9]));
    assert_eq!(parse_triangle(b"", [7, 8, 9]), Ok([7, 8, 9]));
    assert_eq!(parse_triangle(b" \t ", [7, 8, 9]), Ok([7, 8, 9]));
}

#[test]
fn triangle_with_a_field_that_is_no_number_is_an_error() {
    assert_eq!(parse_triangle(b"3 1 x 2", [0, 0, 0]), Err(OFFError::ParseInt));
    assert_eq!(parse_triangle(b"3 -1 2 3", [0, 0, 0]), Err(OFFError::ParseInt));
    assert_eq!(parse_triangle(b"3 1 2 3.0", [0, 0, 0]), Err(OFFError::ParseInt));
    assert_eq!(parse_triangle(b"3 1 2 +", [0, 0, 0]), Err(OFFError::ParseInt));
    assert_eq!(parse_triangle(b"3 1 99999999999999999999999 3", [0, 0, 0]), Err(OFFError::ParseInt));
    // The first field and those after the fourth are not read.
    assert_eq!(parse_triangle(b"x 1 2 3 y", [0, 0, 0]), Ok([1, 2, 3]));
}

#[test]
fn vertex_fields_are_the_first_three() {
    assert_eq!(vertex_fields(b"  1.5 -2e3\t7 8"), vec![(2, 5), (6, 10), (11, 12)]);
    assert_eq!(vertex_fields(b"1 2"), vec![(0, 1), (2, 3)]);
    assert_eq!(vertex_fields(b""), vec![]);
    assert_eq!(vertex_fields(b" \n"), vec![]);
    assert_eq!(vertex_fields(b"-0.336138 -0.746779 0.0000660419"), vec![(0, 9), (10, 19), (20, 32)]);
}

#[test]
fn lines_come_vertices_first() {
    assert_eq!(next_line(2, 5), LineKind::Vertex);
    assert_eq!(next_line(1, 0), LineKind::Vertex);
    assert_eq!(next_line(0, 5), LineKind::Triangle);
    assert_eq!(next_line(0, 0), LineKind::Rest);
}

#[test]
fn scanning_stops_where_it_should() {
    let line = b"12  ab\t";
    assert_eq!(skip_digits(line, 0), 2);
    assert_eq!(skip_digits(line, 2), 2);
    assert_eq!(skip_spaces(line, 2), 4);
    assert_eq!(skip_spaces(line, 4), 4);
    assert_eq!(skip_field(line, 4), 6);
    assert_eq!(skip_field(line, 0), 2);
    assert_eq!(skip_spaces(line, 6), 7);
    assert_eq!(skip_spaces(line, 7), 7);
    assert_eq!(next_field(line, 2), Some((4, 6)));
    assert_eq!(next_field(line, 6), None);
    assert_eq!(parse_digits(line, 0, 2), Some(12));
    assert_eq!(parse_digits(line, 0, 0), Some(0));
    assert_eq!(parse_index(line, 0, 2), Some(12));
    assert_eq!(parse_index(line, 0, 0), None);
    assert_eq!(parse_index(line, 4, 6), None);
}

#[test]
fn white_space_is_what_splits_a_string() {
    for b in 0..=127u8 {
        assert_eq!(is_space(b), (b as char).is_whitespace());
    }
    for b in 128..=255u8 {
        assert!(!is_space(b));
    }
}

#[test]
fn fields_are_read_as_the_standard_library_reads_them() {
    let mut rng = StdRng::seed_from_u64(6);
    let alphabet = b"0123456789+- \t\n.xe";
    let corners = |text: &str| -> Result<[usize; 3], ()> {
        let mut index = [7, 8, 9];
        for (i, split) in text.split_whitespace().skip(1).take(3).enumerate() {
            index[i] = split.parse::<usize>().map_err(|_| ())?;
        }
        Ok(index)
    };
    for _ in 0..20000 {
        let len = rng.random_range(0..12usize);
        let text: String =
            (0..len).map(|_| alphabet[rng.random_range(0..alphabet.len())] as char).collect();
        assert_eq!(parse_index(text.as_bytes(), 0, text.len()), text.parse::<usize>().ok());
        assert_eq!(parse_triangle(text.as_bytes(), [7, 8, 9]).map_err(|_| ()), corners(&text));
        let fields: Vec<&str> = vertex_fields(text.as_bytes())
            .into_iter()
            .map(|(start, end)| &text[start..end])
            .collect();
        assert_eq!(fields, text.split_whitespace().take(3).collect::<Vec<_>>());
    }
}

#[test]
fn large_numbers_are_read_as_the_standard_library_reads_them() {
    let mut rng = StdRng::seed_from_u64(7);
    for _ in 0..2000 {
        let len = rng.random_range(1..25usize);
        let text: String = (0..len).map(|_| (b'0' + rng.random_range(0..10u8)) as char).collect();
        assert_eq!(parse_index(text.as_bytes(), 0, text.len()), text.parse::<usize>().ok());
    }
}
