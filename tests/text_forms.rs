use tools::instance::Input;
use tools::program::generate;
use tools::text::{parse_input, ErrKind, Field, ParseError};

const SMALL: &str = "3 2 2 1 4\n0 1\n1 2\n2 1\n0 0\n10 20\n1000 7\n";

#[test]
fn instance_text_round_trip() {
    let inp = parse_input(SMALL).unwrap();
    assert_eq!(inp.n, 3);
    assert_eq!(inp.m, 2);
    assert_eq!(inp.t_sz, 2);
    assert_eq!(inp.al, 1);
    assert_eq!(inp.bl, 4);
    assert_eq!(inp.edges, vec![(0, 1), (1, 2)]);
    assert_eq!(inp.t, vec![2, 1]);
    assert_eq!(inp.coordinates, vec![(0, 0), (10, 20), (1000, 7)]);
    let text = inp.to_text();
    assert_eq!(text, SMALL);
    let again = parse_input(&text).unwrap();
    assert_eq!(again.edges, inp.edges);
    assert_eq!(again.t, inp.t);
    assert_eq!(again.coordinates, inp.coordinates);
}

#[test]
fn layout_does_not_matter() {
    let inp = parse_input("  3 2 2\t1 4 0 1 1 2 2 1 0 0 10 20 1000 +7 trailing").unwrap();
    assert_eq!(inp.to_text(), SMALL);
}

#[test]
fn no_targets_writes_no_target_line() {
    let inp = parse_input("2 1 0 1 1 0 1 0 0 10 10").unwrap();
    assert_eq!(inp.to_text(), "2 1 0 1 1\n0 1\n0 0\n10 10\n");
}

#[test]
fn instance_errors() {
    let e = |s: &str| parse_input(s).unwrap_err();
    assert_eq!(e("3 2 2 1"), ParseError { line: 0, field: Field::LB, kind: ErrKind::UnexpectedEof });
    assert_eq!(e("3 x"), ParseError { line: 0, field: Field::M, kind: ErrKind::NotANumber });
    assert_eq!(e("3 1"), ParseError { line: 0, field: Field::M, kind: ErrKind::OutOfRange });
    assert_eq!(e("3 7"), ParseError { line: 0, field: Field::M, kind: ErrKind::OutOfRange });
    assert_eq!(e("0"), ParseError { line: 0, field: Field::N, kind: ErrKind::OutOfRange });
    assert_eq!(e("3 2 2 1 4 0 1 1 2 2 3"), ParseError { line: 0, field: Field::Target(1), kind: ErrKind::OutOfRange });
    assert_eq!(
        e("3 2 2 1 4 0 1 1 2 2 1 0 0 10 1001"),
        ParseError { line: 0, field: Field::Y(1), kind: ErrKind::OutOfRange }
    );
    assert_eq!(
        e("3 2 2 1 4 0 1 1 2 2 1 0 0 -1 5"),
        ParseError { line: 0, field: Field::X(1), kind: ErrKind::NotANumber }
    );
    assert_eq!(
        e("99999999999999999999999"),
        ParseError { line: 0, field: Field::N, kind: ErrKind::OutOfRange }
    );
}

#[test]
fn empty_instance() {
    let inp = Input::new();
    assert_eq!(inp.n, 0);
    assert!(inp.edges.is_empty() && inp.t.is_empty() && inp.coordinates.is_empty());
}

#[test]
fn generated_text_reads_back() {
    let text = generate(4, Some(0), Some(0)).unwrap();
    let inp = parse_input(&text).unwrap();
    assert_eq!(inp.n, 600);
    assert_eq!(inp.t_sz, 600);
    assert_eq!(inp.to_text(), text);
    let fixed = generate(4, Some(800), Some(16)).unwrap();
    let inp = parse_input(&fixed).unwrap();
    assert_eq!((inp.al, inp.bl), (800, 16));
    assert!(generate(4, Some(5), None).is_err());
}

#[test]
fn large_sizes_read_back() {
    let text = "2 1 0 200000000 18446744073709551615\n0 1\n0 0\n10 10\n";
    let inp = parse_input(text).unwrap();
    assert_eq!(inp.al, 200000000);
    assert_eq!(inp.bl, usize::MAX);
    assert_eq!(inp.to_text(), text);
    assert_eq!(
        parse_input("2 1 0 1 18446744073709551616").unwrap_err(),
        ParseError { line: 0, field: Field::LB, kind: ErrKind::OutOfRange }
    );
    assert_eq!(
        parse_input("2 1 0 1 99999999999999999999x").unwrap_err(),
        ParseError { line: 0, field: Field::LB, kind: ErrKind::NotANumber }
    );
}
