use flatparse::csv::{parse, parse_number};
use flatparse::error::SyntaxError;

#[test]
fn test_numbers() {
    let parse = parse_number("0");
    assert!(parse.is_ok());
    assert_eq!(parse.unwrap(), "0");

    let parse = parse_number("10");
    assert!(parse.is_ok());
    assert_eq!(parse.unwrap(), "10");

    let parse = parse_number("-0");
    assert!(parse.is_ok());
    assert_eq!(parse.unwrap(), "-0");

    let parse = parse_number("-10");
    assert!(parse.is_ok());
    assert_eq!(parse.unwrap(), "-10");

    let parse = parse_number("273.15");
    assert!(parse.is_ok());
    assert_eq!(parse.unwrap(), "273.15");

    let parse = parse_number("-273.15");
    assert!(parse.is_ok());
    assert_eq!(parse.unwrap(), "-273.15");

    let parse = parse_number("004");
    assert!(parse.is_err());

    let parse = parse_number("not a number");
    assert!(parse.is_err());

    let parse = parse_number(".4");
    assert!(parse.is_ok());
    assert_eq!(parse.unwrap(), ".4");

    let parse = parse_number("-.4");
    assert!(parse.is_ok());
    assert_eq!(parse.unwrap(), "-.4");

    let parse = parse_number("1.1.1");
    assert!(parse.is_ok());
    assert_eq!(parse.unwrap(), "1.1");

    let parse = parse_number("1a");
    assert!(parse.is_ok());
    assert_eq!(parse.unwrap(), "1");

    let parse = parse_number("a1");
    assert!(parse.is_err());
}

#[test]
fn csv_test_parse() {
    let unparsed = "0,1
-2,-3.4";
    let parsed = parse(unparsed);
    let data: Vec<Vec<f64>> = parsed
        .unwrap()
        .iter()
        .map(|row| row.iter().map(|t| t.parse::<f64>().unwrap()).collect())
        .collect();
    assert_eq!(data, vec![vec![0., 1.], vec![-2., -3.4]]);
}

#[test]
fn number_rejects_lone_sign_and_dot() {
    assert_eq!(parse_number("-"), Err(SyntaxError { pos: 0 }));
    assert_eq!(parse_number("."), Err(SyntaxError { pos: 0 }));
    assert_eq!(parse_number("-."), Err(SyntaxError { pos: 0 }));
    assert_eq!(parse_number(""), Err(SyntaxError { pos: 0 }));
    assert_eq!(parse_number("+1"), Err(SyntaxError { pos: 0 }));
    assert_eq!(parse_number("-004"), Err(SyntaxError { pos: 0 }));
}

#[test]
fn number_stops_before_what_cannot_extend_it() {
    assert_eq!(parse_number("1.").unwrap(), "1");
    assert_eq!(parse_number("0.5x").unwrap(), "0.5");
    assert_eq!(parse_number("1e5").unwrap(), "1");
    assert_eq!(parse_number("12,3").unwrap(), "12");
    assert_eq!(parse_number("0.05").unwrap(), "0.05");
}

#[test]
fn whole_number_is_one_record() {
    for s in ["0", "10", "-0", "-10", "273.15", "-273.15", ".4", "-.4"] {
        let rows = parse(s).unwrap();
        assert_eq!(rows, vec![vec![s.to_string()]]);
        let value: f64 = rows[0][0].parse().unwrap();
        assert_eq!(value, s.parse::<f64>().unwrap());
    }
}

#[test]
fn csv_tokens_are_exact_text() {
    let rows = parse("0,1\n-2,-3.4").unwrap();
    assert_eq!(
        rows,
        vec![
            vec!["0".to_string(), "1".to_string()],
            vec!["-2".to_string(), "-3.4".to_string()]
        ]
    );
}

#[test]
fn csv_rows_may_differ_in_length() {
    let rows = parse("1\n2,3,4\n.5").unwrap();
    assert_eq!(rows.len(), 3);
    assert_eq!(rows[0].len(), 1);
    assert_eq!(rows[1].len(), 3);
    assert_eq!(rows[2], vec![".5".to_string()]);
}

#[test]
fn csv_trailing_line_break() {
    assert_eq!(parse("1,2\n").unwrap(), vec![vec!["1".to_string(), "2".to_string()]]);
    assert_eq!(parse("1\n2").unwrap(), vec![vec!["1".to_string()], vec!["2".to_string()]]);
}

#[test]
fn csv_carriage_return_is_not_a_line_break() {
    assert_eq!(parse("1\r\n2"), Err(SyntaxError { pos: 1 }));
    assert_eq!(parse("1,2\r\n"), Err(SyntaxError { pos: 3 }));
}

#[test]
fn csv_errors_carry_position() {
    assert_eq!(parse("1,,2"), Err(SyntaxError { pos: 2 }));
    assert_eq!(parse("1a"), Err(SyntaxError { pos: 1 }));
    assert_eq!(parse("1,2,"), Err(SyntaxError { pos: 4 }));
    assert_eq!(parse(""), Err(SyntaxError { pos: 0 }));
    assert_eq!(parse("1\n\n2"), Err(SyntaxError { pos: 2 }));
    assert_eq!(parse("1.1.1"), Err(SyntaxError { pos: 3 }));
    assert_eq!(parse("004"), Err(SyntaxError { pos: 0 }));
    assert_eq!(parse("1\n2\n\n"), Err(SyntaxError { pos: 4 }));
}

#[test]
fn csv_parse_is_deterministic() {
    let text = "3.5,-1\n0,.25";
    assert_eq!(parse(text), parse(text));
    assert_eq!(parse("1,,2"), parse("1,,2"));
}

#[test]
fn error_message_names_position() {
    let e = parse("1,x").unwrap_err();
    assert_eq!(e.pos, 2);
    assert_eq!(e.message(), "syntax error at character 2");
    assert_eq!(SyntaxError { pos: 0 }.message(), "syntax error at character 0");
    assert_eq!(SyntaxError { pos: 1207 }.message(), "syntax error at character 1207");
    assert_ne!(SyntaxError { pos: 7 }.message(), SyntaxError { pos: 8 }.message());
}

#[test]
fn csv_written_back_parses_the_same() {
    let table = parse("0,1\n-2,-3.4\n.5\n").unwrap();
    let text = table.iter().map(|row| row.join(",")).collect::<Vec<_>>().join("\n");
    assert_eq!(text, "0,1\n-2,-3.4\n.5");
    assert_eq!(parse(&text).unwrap(), table);
}
