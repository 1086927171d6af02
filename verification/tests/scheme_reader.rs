use frankish::scheme::reader::{read, Datum, Span};

#[test]
fn reads_atoms_and_nesting() {
    let data = read("(define (f x) (+ x 1)) ; comment\n42 #t -3").unwrap();
    assert_eq!(data.len(), 4);
    assert!(matches!(&data[0], Datum::List(items, _) if items.len() == 3));
    assert_eq!(data[1], Datum::Int(42, data[1].span()));
    assert_eq!(data[2], Datum::Bool(true, data[2].span()));
    assert_eq!(data[3], Datum::Int(-3, data[3].span()));
}

#[test]
fn bare_minus_is_a_symbol() {
    let data = read("(- 5 2)").unwrap();
    let Datum::List(items, _) = &data[0] else { panic!() };
    assert_eq!(items[0], Datum::Symbol("-".into(), items[0].span()));
}

#[test]
fn unterminated_list_errs() {
    assert!(read("(+ 1 2").is_err());
    assert!(read(")").is_err());
}

#[test]
fn failure_messages_name_the_cause() {
    assert_eq!(read("(+ 1 2").unwrap_err(), "unterminated list: missing `)`");
    assert_eq!(read("  )").unwrap_err(), "unexpected `)` at byte 2");
    assert_eq!(read("'").unwrap_err(), "unexpected end of input");
    assert_eq!(
        read("99999999999999999999").unwrap_err(),
        "integer literal out of range: 99999999999999999999"
    );
}

#[test]
fn spans_are_byte_offsets() {
    let data = read("(é x)").unwrap();
    let Datum::List(items, span) = &data[0] else { panic!() };
    assert_eq!(*span, Span { start: 0, end: 6 });
    assert_eq!(items[0], Datum::Symbol("é".into(), Span { start: 1, end: 3 }));
    assert_eq!(items[1], Datum::Symbol("x".into(), Span { start: 4, end: 5 }));
}

#[test]
fn quote_is_sugar_for_a_quote_list() {
    let data = read("'a").unwrap();
    let Datum::List(items, span) = &data[0] else { panic!() };
    assert_eq!(*span, Span { start: 0, end: 2 });
    assert_eq!(items[0], Datum::Symbol("quote".into(), Span { start: 0, end: 1 }));
    assert_eq!(items[1], Datum::Symbol("a".into(), Span { start: 1, end: 2 }));
}

#[test]
fn fixnum_edges() {
    let data = read("-9223372036854775808 9223372036854775807 --5 - -x").unwrap();
    assert_eq!(data[0], Datum::Int(i64::MIN, data[0].span()));
    assert_eq!(data[1], Datum::Int(i64::MAX, data[1].span()));
    assert_eq!(data[2], Datum::Symbol("--5".into(), data[2].span()));
    assert_eq!(data[3], Datum::Symbol("-".into(), data[3].span()));
    assert_eq!(data[4], Datum::Symbol("-x".into(), data[4].span()));
    assert!(read("9223372036854775808").is_err());
}
