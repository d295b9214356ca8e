use line_protocol::error::{LineSenderError, ProtocolError};
use line_protocol::line_tcp_sender::terminated_line;
use line_protocol::questdb_line_protocol::{
    check_valid, escape, now, timestamp_from_nanos, ColumnValue, DataPoint, Uint256,
};
use primitive_types::U256;

fn long256(v: u64) -> ColumnValue<'static> {
    ColumnValue::Long256(Uint256 { words: U256::from(v).0 })
}

#[test]
fn column_to_string() {
    let float_text = 1.234f64.to_string();
    assert_eq!(ColumnValue::Integer(-1234).to_string(), "-1234i");
    assert_eq!(long256(1234).to_string(), "0x4d2i");
    assert_eq!(ColumnValue::Float(&float_text).to_string(), "1.234");
    assert_eq!(ColumnValue::Boolean(true).to_string(), "true");
    assert_eq!(ColumnValue::Boolean(false).to_string(), "false");
    assert_eq!(
        ColumnValue::String("Hello World!").to_string(),
        "\"Hello World!\""
    );
    assert_eq!(
        ColumnValue::Timestamp(1234567890).to_string(),
        "1234567890t"
    );
}

#[test]
fn data_point_to_string() {
    let float_text = 1.234f64.to_string();
    let s: String = DataPoint {
        table: r"My measurements",
        symbol_set: vec![(r"symbol name", "Symbol Value")],
        column_set: vec![
            (r"Integer column", ColumnValue::Integer(1234)),
            (r"Long256 column", long256(1234)),
            (r"Float column", ColumnValue::Float(&float_text)),
            (r"Boolean column", ColumnValue::Boolean(true)),
            (r"String column", ColumnValue::String("Hello \"World!\"")),
            (r"Timestamp column", ColumnValue::Timestamp(1234567890)),
        ],
        timestamp: Some(1234567890),
    }
    .encode()
    .unwrap();
    assert_eq!(
        s,
        r#"My\ measurements,symbol\ name=Symbol\ Value Integer\ column=1234i,"#.to_owned()
            + r#"Long256\ column=0x4d2i,Float\ column=1.234,Boolean\ column=true,"#
            + r#"String\ column="Hello \"World!\"",Timestamp\ column=1234567890t 1234567890"#
            + "\n"
    );
}

fn simple_point<'a>(table: &'a str, tag_key: &'a str, field_key: &'a str) -> DataPoint<'a> {
    DataPoint {
        table,
        symbol_set: vec![(tag_key, "v")],
        column_set: vec![(field_key, ColumnValue::Integer(1))],
        timestamp: None,
    }
}

#[test]
fn each_forbidden_character_is_reported() {
    for c in ['.', '?', ',', ':', '\\', '/', '\0', ')', '(', '+', '*', '~', '%', '-'] {
        let name = format!("a{}b", c);
        assert_eq!(
            check_valid(&name),
            Err(ProtocolError::ForbiddenCharacter(c))
        );
        assert_eq!(
            simple_point(&name, "k", "f").encode(),
            Err(ProtocolError::ForbiddenCharacter(c))
        );
        assert_eq!(
            simple_point("t", &name, "f").encode(),
            Err(ProtocolError::ForbiddenCharacter(c))
        );
        assert_eq!(
            simple_point("t", "k", &name).encode(),
            Err(ProtocolError::ForbiddenCharacter(c))
        );
    }
}

#[test]
fn allowed_characters_pass_validation() {
    assert_eq!(check_valid(""), Ok(()));
    assert_eq!(check_valid("a b=c\"d_e!é"), Ok(()));
}

#[test]
fn first_forbidden_character_in_scan_order_is_reported() {
    assert_eq!(check_valid("a+b.c"), Err(ProtocolError::ForbiddenCharacter('+')));
    assert_eq!(
        simple_point("t%", "k.", "f-").encode(),
        Err(ProtocolError::ForbiddenCharacter('%'))
    );
    assert_eq!(
        simple_point("t", "k.", "f-").encode(),
        Err(ProtocolError::ForbiddenCharacter('.'))
    );
}

#[test]
fn tag_values_are_not_validated_but_escaped() {
    let point = DataPoint {
        table: "t",
        symbol_set: vec![("k", "a,b\\c d.e")],
        column_set: vec![],
        timestamp: None,
    };
    assert_eq!(point.encode().unwrap(), "t,k=a\\,b\\\\c\\ d.e\n");
}

#[test]
fn escape_prefixes_space_comma_backslash_only() {
    assert_eq!(escape(""), "");
    assert_eq!(escape("plain"), "plain");
    assert_eq!(escape("a b,c\\d\"e"), "a\\ b\\,c\\\\d\"e");
    assert_eq!(escape("  "), "\\ \\ ");
}

#[test]
fn string_values_escape_only_quotes() {
    assert_eq!(
        ColumnValue::String("a\"b\\c d,e").to_string(),
        "\"a\\\"b\\c d,e\""
    );
    assert_eq!(ColumnValue::String("").to_string(), "\"\"");
}

#[test]
fn column_value_renderings() {
    assert_eq!(ColumnValue::Integer(-1234).to_string(), "-1234i");
    assert_eq!(ColumnValue::Integer(0).to_string(), "0i");
    assert_eq!(ColumnValue::Integer(i64::MIN).to_string(), "-9223372036854775808i");
    assert_eq!(ColumnValue::Integer(i64::MAX).to_string(), "9223372036854775807i");
    assert_eq!(ColumnValue::Boolean(false).to_string(), "false");
    assert_eq!(long256(1234).to_string(), "0x4d2i");
    assert_eq!(long256(0).to_string(), "0x0i");
    assert_eq!(ColumnValue::Timestamp(0).to_string(), "0t");
    assert_eq!(ColumnValue::Timestamp(u64::MAX).to_string(), "18446744073709551615t");
}

#[test]
fn long256_uses_all_words() {
    let big = Uint256 { words: [0xff, 0, 0, 0x10] };
    assert_eq!(
        ColumnValue::Long256(big).to_string(),
        format!("0x10{}ffi", "0".repeat(46))
    );
    let max = Uint256 { words: U256::MAX.0 };
    assert_eq!(
        ColumnValue::Long256(max).to_string(),
        format!("0x{}i", "f".repeat(64))
    );
    assert_eq!(
        ColumnValue::Long256(Uint256::from_u64(255)).to_string(),
        "0xffi"
    );
}

#[test]
fn line_without_fields_or_timestamp() {
    let point = DataPoint {
        table: "t",
        symbol_set: vec![],
        column_set: vec![],
        timestamp: None,
    };
    assert_eq!(point.encode().unwrap(), "t\n");
    let point = DataPoint {
        table: "t",
        symbol_set: vec![],
        column_set: vec![],
        timestamp: Some(0),
    };
    assert_eq!(point.encode().unwrap(), "t 0\n");
}

#[test]
fn encoded_line_has_single_trailing_newline() {
    let point = DataPoint {
        table: "weather",
        symbol_set: vec![("location", "San Francisco")],
        column_set: vec![("temperature", ColumnValue::Integer(72))],
        timestamp: Some(1),
    };
    let line = point.encode().unwrap();
    assert!(line.ends_with('\n'));
    assert_eq!(line.matches('\n').count(), 1);
    assert_eq!(line, "weather,location=San\\ Francisco temperature=72i 1\n");
}

#[test]
fn encoding_twice_gives_identical_bytes() {
    let point = DataPoint {
        table: "m",
        symbol_set: vec![("a", "x"), ("b", "y")],
        column_set: vec![("f", ColumnValue::Boolean(true)), ("g", ColumnValue::String("s"))],
        timestamp: Some(42),
    };
    let first = point.encode().unwrap();
    let second = point.encode().unwrap();
    assert_eq!(first.as_bytes(), second.as_bytes());
}

#[test]
fn tag_and_field_order_is_kept() {
    let point = DataPoint {
        table: "m",
        symbol_set: vec![("z", "1"), ("a", "2"), ("m", "3")],
        column_set: vec![
            ("y", ColumnValue::Integer(1)),
            ("b", ColumnValue::Integer(2)),
            ("c", ColumnValue::Integer(3)),
        ],
        timestamp: None,
    };
    assert_eq!(point.encode().unwrap(), "m,z=1,a=2,m=3 y=1i,b=2i,c=3i\n");
}

#[test]
fn unterminated_line_is_refused_without_writing() {
    let mut sink: Vec<u8> = Vec::new();
    match terminated_line("t f=1i".to_string()) {
        Ok(line) => sink.extend_from_slice(line.as_bytes()),
        Err(LineSenderError::UnterminatedLine(text)) => assert_eq!(text, "t f=1i"),
        Err(other) => panic!("unexpected error: {:?}", other),
    }
    assert!(sink.is_empty());
    assert!(matches!(
        terminated_line(String::new()),
        Err(LineSenderError::UnterminatedLine(_))
    ));
    assert!(matches!(
        terminated_line("a\nb".to_string()),
        Err(LineSenderError::UnterminatedLine(_))
    ));
}

#[test]
fn terminated_line_passes_unchanged() {
    match terminated_line("t f=1i\n".to_string()) {
        Ok(line) => assert_eq!(line, "t f=1i\n"),
        Err(e) => panic!("unexpected error: {:?}", e),
    }
}

#[test]
fn timestamps_from_nanoseconds() {
    assert_eq!(timestamp_from_nanos(None), 0);
    assert_eq!(timestamp_from_nanos(Some(1234567890)), 1234567890);
    assert_eq!(timestamp_from_nanos(Some(u64::MAX as u128 + 5)), 4);
    assert!(now() > 1_500_000_000_000_000_000);
}
