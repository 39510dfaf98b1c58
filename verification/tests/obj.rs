use pathtracer::obj::{
    blank, parse_index, read_lines, read_statement, split_fields, split_lines, Fault, Field, Layout, Misread,
    Statement, VertexLine,
};
use std::io::BufRead;

fn chars(s: &str) -> Vec<char> {
    s.chars().collect()
}

fn words(line: &str) -> Vec<String> {
    let cs = chars(line);
    split_fields(&cs).iter().map(|f| cs[f.start..f.end].iter().collect()).collect()
}

#[test]
fn blanks_are_the_white_space_of_unicode() {
    for code in 0..=0x10FFFFu32 {
        if let Some(c) = char::from_u32(code) {
            assert_eq!(blank(c), c.is_whitespace(), "U+{:04X}", code);
        }
    }
}

#[test]
fn fields_are_cut_at_blanks() {
    for line in [
        "",
        " ",
        "v",
        "v 1 2 3",
        "  v   1.5\t-2e3  3 ",
        "f 1 2 3\r",
        "\u{a0}f\u{2003}1\u{3000}2 3",
        "vn 0 1 0",
        "x",
        " x",
        "x ",
        "ab  cd",
    ] {
        let expected: Vec<String> = line.split_whitespace().map(|w| w.to_string()).collect();
        assert_eq!(words(line), expected, "{:?}", line);
    }
}

#[test]
fn fields_give_their_places() {
    let cs = chars("  v 10  2");
    assert_eq!(
        split_fields(&cs),
        vec![Field { start: 2, end: 3 }, Field { start: 4, end: 6 }, Field { start: 8, end: 9 }]
    );
    assert_eq!(split_fields(&chars("")), vec![]);
    assert_eq!(split_fields(&chars(" \t ")), vec![]);
}

fn index(text: &str) -> Option<usize> {
    let cs = chars(text);
    parse_index(&cs, Field { start: 0, end: cs.len() })
}

#[test]
fn numbers_read_as_the_standard_library_reads_them() {
    let max = usize::MAX.to_string();
    let mut beyond = max.clone();
    beyond.push('0');
    let mut next = max.clone().into_bytes();
    *next.last_mut().unwrap() += 1;
    let next = String::from_utf8(next).unwrap();
    for text in [
        "0", "1", "7", "10", "42", "007", "+5", "+0", "-5", "-0", "", "+", "-", "++1", "1+", "12a", "a12", "1 2",
        " 1", "1/2/3", "1.0", "٣", "18446744073709551615", "18446744073709551616", "99999999999999999999999",
        "4294967295", "4294967296", "0000000000000000000000000001",
        max.as_str(), beyond.as_str(), next.as_str(),
    ] {
        assert_eq!(index(text), text.parse::<usize>().ok(), "{:?}", text);
    }
}

#[test]
fn a_number_is_read_from_its_field_alone() {
    let cs = chars("f 12 345 6");
    assert_eq!(parse_index(&cs, Field { start: 2, end: 4 }), Some(12));
    assert_eq!(parse_index(&cs, Field { start: 5, end: 8 }), Some(345));
    assert_eq!(parse_index(&cs, Field { start: 6, end: 7 }), Some(4));
    assert_eq!(parse_index(&cs, Field { start: 1, end: 4 }), None);
    assert_eq!(parse_index(&cs, Field { start: 3, end: 3 }), None);
    assert_eq!(parse_index(&cs, Field { start: 4, end: 2 }), None);
    assert_eq!(parse_index(&cs, Field { start: 9, end: 11 }), None);
}

#[test]
fn an_empty_line_states_nothing() {
    assert_eq!(read_statement(&chars(""), 0), Ok(Statement::Empty));
}

#[test]
fn a_line_of_blanks_is_a_fault() {
    assert_eq!(read_statement(&chars(" "), 0), Err(Fault::Blank));
    assert_eq!(read_statement(&chars("\r"), 3), Err(Fault::Blank));
    assert_eq!(read_statement(&chars(" \t "), 3), Err(Fault::Blank));
}

#[test]
fn a_vertex_gives_the_places_of_its_coordinates() {
    assert_eq!(
        read_statement(&chars("v 1.0 -2 3e1"), 0),
        Ok(Statement::Vertex(vec![
            Field { start: 2, end: 5 },
            Field { start: 6, end: 8 },
            Field { start: 9, end: 12 }
        ]))
    );
    assert_eq!(
        read_statement(&chars(" v 1 2 3 1.0"), 9),
        Ok(Statement::Vertex(vec![
            Field { start: 3, end: 4 },
            Field { start: 5, end: 6 },
            Field { start: 7, end: 8 },
            Field { start: 9, end: 12 }
        ]))
    );
    assert_eq!(
        read_statement(&chars("v a b c"), 0),
        Ok(Statement::Vertex(vec![
            Field { start: 2, end: 3 },
            Field { start: 4, end: 5 },
            Field { start: 6, end: 7 }
        ]))
    );
}

#[test]
fn a_vertex_needs_three_coordinates() {
    assert_eq!(read_statement(&chars("v"), 0), Err(Fault::ShortVertex));
    assert_eq!(read_statement(&chars("v 1"), 0), Err(Fault::ShortVertex));
    assert_eq!(read_statement(&chars("v 1 2"), 0), Err(Fault::ShortVertex));
}

#[test]
fn a_face_names_vertices_from_one() {
    assert_eq!(read_statement(&chars("f 1 2 3"), 3), Ok(Statement::Face(0, 1, 2)));
    assert_eq!(read_statement(&chars("f 3 3 1"), 3), Ok(Statement::Face(2, 2, 0)));
    assert_eq!(read_statement(&chars("\tf  +2 1 03 "), 5), Ok(Statement::Face(1, 0, 2)));
    assert_eq!(read_statement(&chars("f 1 2 3 4"), 3), Ok(Statement::Face(0, 1, 2)));
    assert_eq!(read_statement(&chars("f 1 2 3 0 99"), 3), Ok(Statement::Face(0, 1, 2)));
}

#[test]
fn a_face_with_a_bad_number_is_a_fault() {
    assert_eq!(read_statement(&chars("f 1/1/1 2/2/2 3/3/3"), 3), Err(Fault::BadNumber));
    assert_eq!(read_statement(&chars("f 1 2 x"), 3), Err(Fault::BadNumber));
    assert_eq!(read_statement(&chars("f 1 2 3 x"), 3), Err(Fault::BadNumber));
    assert_eq!(read_statement(&chars("f -1 -2 -3"), 3), Err(Fault::BadNumber));
    assert_eq!(read_statement(&chars("f x"), 3), Err(Fault::BadNumber));
    assert_eq!(read_statement(&chars("f 1 2 99999999999999999999999"), 3), Err(Fault::BadNumber));
}

#[test]
fn a_face_needs_three_vertices() {
    assert_eq!(read_statement(&chars("f"), 3), Err(Fault::ShortFace));
    assert_eq!(read_statement(&chars("f 1"), 3), Err(Fault::ShortFace));
    assert_eq!(read_statement(&chars("f 1 2"), 3), Err(Fault::ShortFace));
    assert_eq!(read_statement(&chars("f 0 9"), 3), Err(Fault::ShortFace));
}

#[test]
fn a_face_names_vertices_stated_before() {
    assert_eq!(read_statement(&chars("f 1 2 3"), 2), Err(Fault::NoSuchVertex));
    assert_eq!(read_statement(&chars("f 0 1 2"), 3), Err(Fault::NoSuchVertex));
    assert_eq!(read_statement(&chars("f 1 4 2"), 3), Err(Fault::NoSuchVertex));
    assert_eq!(read_statement(&chars("f 1 1 1"), 0), Err(Fault::NoSuchVertex));
    assert_eq!(read_statement(&chars("f 1 1 1"), 1), Ok(Statement::Face(0, 0, 0)));
    let max = format!("f {} 1 1", usize::MAX);
    assert_eq!(read_statement(&chars(&max), usize::MAX), Ok(Statement::Face(usize::MAX - 1, 0, 0)));
}

#[test]
fn other_lines_are_passed_over() {
    for line in ["# a comment", "vn 0 1 0", "vt 0.5 0.5", "o cube", "g", "s off", "vv 1 2 3", "ff 1 2 3", "F 1 2 3", "V 1 2 3", "usemtl x"] {
        assert_eq!(read_statement(&chars(line), 0), Ok(Statement::Other), "{:?}", line);
    }
}

fn lines(text: &str) -> Vec<Vec<char>> {
    split_lines(&chars(text))
}

#[test]
fn lines_are_cut_as_a_buffered_reader_cuts_them() {
    for text in [
        "",
        "\n",
        "\n\n",
        "a",
        "a\n",
        "a\nb",
        "a\nb\n",
        "a\r\nb\r\n",
        "a\r",
        "a\r\n",
        "\r\n",
        "\r",
        "\r\r\n",
        "a\rb\n",
        "a\n\nb",
        "\n\r\n\n",
        "v 1 2 3\r\nf 1 1 1",
        "# x\n\n  \nlast\r",
    ] {
        let expected: Vec<Vec<char>> =
            std::io::Cursor::new(text.as_bytes()).lines().map(|l| chars(&l.unwrap())).collect();
        assert_eq!(split_lines(&chars(text)), expected, "{:?}", text);
    }
}

#[test]
fn lines_of_a_small_text() {
    assert_eq!(split_lines(&chars("v 1\r\n\nf 2")), vec![chars("v 1"), chars(""), chars("f 2")]);
    assert_eq!(split_lines(&chars("")), Vec::<Vec<char>>::new());
    assert_eq!(split_lines(&chars("\n")), vec![chars("")]);
}

#[test]
fn a_text_gives_its_vertices_and_faces() {
    let text = "# square\n\nv 0 0 0\nv 1 0 0\nvn 0 0 1\nv 1 1 0\nf 1 2 3\nv 0 1 0\r\nf 1 3 4\n";
    let at = |a: usize, b: usize| Field { start: a, end: b };
    let xyz = || vec![at(2, 3), at(4, 5), at(6, 7)];
    assert_eq!(
        read_lines(&lines(text)),
        Ok(Layout {
            vertices: vec![
                VertexLine { line: 2, coordinates: xyz() },
                VertexLine { line: 3, coordinates: xyz() },
                VertexLine { line: 5, coordinates: xyz() },
                VertexLine { line: 7, coordinates: xyz() },
            ],
            faces: vec![(0, 1, 2), (0, 2, 3)],
        })
    );
}

#[test]
fn an_empty_text_states_nothing() {
    assert_eq!(read_lines(&vec![]), Ok(Layout { vertices: vec![], faces: vec![] }));
    assert_eq!(read_lines(&lines("\n\n# nothing\n")), Ok(Layout { vertices: vec![], faces: vec![] }));
}

#[test]
fn the_first_fault_ends_the_reading() {
    assert_eq!(
        read_lines(&lines("v 0 0 0\nv 1 0 0\nf 1 2 3\nv 1 1 0\nf 1 2\n")),
        Err(Misread { line: 2, fault: Fault::NoSuchVertex })
    );
    assert_eq!(
        read_lines(&lines("v 0 0 0\n \nv 1 0\n")),
        Err(Misread { line: 1, fault: Fault::Blank })
    );
    assert_eq!(
        read_lines(&lines("v 0 0 0\nv 1 0\nf 1 1 1 x\n")),
        Err(Misread { line: 1, fault: Fault::ShortVertex })
    );
    assert_eq!(
        read_lines(&lines("v 0 0 0\nf 1 1 1 x\nf 1\n")),
        Err(Misread { line: 1, fault: Fault::BadNumber })
    );
    assert_eq!(
        read_lines(&lines("v 0 0 0\nf 1 1 1\nf 1\n")),
        Err(Misread { line: 2, fault: Fault::ShortFace })
    );
}

#[test]
fn faces_of_a_text_name_its_vertices() {
    let mut text = String::new();
    for i in 0..30 {
        text.push_str(&format!("v {} {} {}\n", i, i * 2, i * 3));
        if i >= 2 {
            text.push_str(&format!("f {} {} {}\n", i + 1, i, i - 1));
        }
    }
    let layout = read_lines(&lines(&text)).unwrap();
    assert_eq!(layout.vertices.len(), 30);
    assert_eq!(layout.faces.len(), 28);
    for &(a, b, c) in layout.faces.iter() {
        assert!(a < 30 && b < 30 && c < 30);
        assert_eq!((a, b, c), (a, a - 1, a - 2));
    }
    assert!(layout.vertices.windows(2).all(|w| w[0].line < w[1].line));
}
