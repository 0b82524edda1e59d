use flatparse::error::SyntaxError;
use flatparse::ini::{assemble, lex, parse, parse_line, Line, Properties};

#[test]
fn test_property() {
    let parse = parse_line("some_key=some_value");
    assert!(parse.is_ok());

    match parse.unwrap() {
        Line::Property(key, value) => {
            assert_eq!(key, "some_key");
            assert_eq!(value, "some_value");
        }
        _ => panic!("not a property"),
    }
}

#[test]
fn ini_test_parse() {
    let file = "
username=abc
password=pass

[server_1]
interface=eth0
ip=127.0.0.1
document_root=/var/www/example.org

[empty_section]

[second_server]
document_root=/var/www/example.com
ip=
interface=eth1
";
    let config = parse(file).unwrap();
    assert_eq!(config.sections.len(), 4);

    let mut sections = config.sections.iter();

    // Default section
    let section = sections.next().unwrap();
    assert!(section.name.is_empty());
    assert_eq!(section.values.len(), 2);
    assert_eq!(section.values.get(&"username".to_string()), Some(&"abc".to_string()));
    assert_eq!(section.values.get(&"password".to_string()), Some(&"pass".to_string()));

    // server_1
    let section = sections.next().unwrap();
    assert_eq!(&section.name, "server_1");
    assert_eq!(section.values.len(), 3);
    assert_eq!(section.values.get(&"interface".to_string()), Some(&"eth0".to_string()));
    assert_eq!(section.values.get(&"ip".to_string()), Some(&"127.0.0.1".to_string()));
    assert_eq!(section.values.get(&"document_root".to_string()), Some(&"/var/www/example.org".to_string()));

    // empty_section
    let section = sections.next().unwrap();
    assert_eq!(&section.name, "empty_section");
    assert!(section.values.is_empty());

    // second_server
    let section = sections.next().unwrap();
    assert_eq!(&section.name, "second_server");
    assert_eq!(section.values.len(), 3);
    assert_eq!(section.values.get(&"interface".to_string()), Some(&"eth1".to_string()));
    assert_eq!(section.values.get(&"ip".to_string()), Some(&"".to_string()));
    assert_eq!(section.values.get(&"document_root".to_string()), Some(&"/var/www/example.com".to_string()));
}

#[test]
fn empty_text_has_one_unnamed_section() {
    let config = parse("").unwrap();
    assert_eq!(config.sections.len(), 1);
    assert!(config.sections[0].name.is_empty());
    assert!(config.sections[0].values.is_empty());
}

#[test]
fn leading_header_still_gives_unnamed_section_first() {
    let config = parse("[a]\nk=v").unwrap();
    assert_eq!(config.sections.len(), 2);
    assert_eq!(config.sections[0].name, "");
    assert_eq!(config.sections[0].values.len(), 0);
    assert_eq!(config.sections[1].name, "a");
    assert_eq!(config.sections[1].values.get(&"k".to_string()), Some(&"v".to_string()));
}

#[test]
fn later_duplicate_key_wins() {
    let config = parse("k=1\nj=2\nk=3").unwrap();
    let values = &config.sections[0].values;
    assert_eq!(values.len(), 2);
    assert_eq!(values.get(&"k".to_string()), Some(&"3".to_string()));
    assert_eq!(values.get(&"j".to_string()), Some(&"2".to_string()));
    assert_eq!(values.get(&"missing".to_string()), None);
}

#[test]
fn repeated_header_makes_two_sections() {
    let config = parse("[s]\na=1\n[s]\nb=2").unwrap();
    assert_eq!(config.sections.len(), 3);
    assert_eq!(config.sections[1].name, "s");
    assert_eq!(config.sections[2].name, "s");
    assert_eq!(config.sections[1].values.get(&"b".to_string()), None);
    assert_eq!(config.sections[2].values.get(&"a".to_string()), None);
}

#[test]
fn value_may_hold_equals_and_be_empty() {
    let config = parse("a=b=c\nip=\n  \t\n[x y]").unwrap();
    let values = &config.sections[0].values;
    assert_eq!(values.get(&"a".to_string()), Some(&"b=c".to_string()));
    assert_eq!(values.get(&"ip".to_string()), Some(&"".to_string()));
    assert_eq!(config.sections[1].name, "x y");
}

#[test]
fn carriage_return_stays_in_the_line() {
    let config = parse("a=1\r\nb=2").unwrap();
    assert_eq!(config.sections[0].values.get(&"a".to_string()), Some(&"1\r".to_string()));
    assert_eq!(config.sections[0].values.get(&"b".to_string()), Some(&"2".to_string()));
    assert_eq!(parse("a=1\r\n[s]\r\n").err(), Some(SyntaxError { pos: 5 }));
}

#[test]
fn whitespace_only_lines_are_blank() {
    let config = parse("\r\n\u{c}\u{b}\n \t\u{a0}\u{3000}\nk=v").unwrap();
    assert_eq!(config.sections.len(), 1);
    assert_eq!(config.sections[0].values.get(&"k".to_string()), Some(&"v".to_string()));
    assert!(matches!(parse_line("\u{2028}"), Ok(Line::Blank)));
    assert!(parse_line("x").is_err());
}

#[test]
fn malformed_lines_are_errors() {
    assert_eq!(parse("key_no_equals").err(), Some(SyntaxError { pos: 0 }));
    assert_eq!(parse("[unclosed").err(), Some(SyntaxError { pos: 0 }));
    assert_eq!(parse("a=1\n[unclosed\nb=2").err(), Some(SyntaxError { pos: 4 }));
    assert_eq!(parse("a=1\nkey_no_equals").err(), Some(SyntaxError { pos: 4 }));
    assert_eq!(parse("[").err(), Some(SyntaxError { pos: 0 }));
    assert_eq!(parse("[a]]").err(), Some(SyntaxError { pos: 0 }));
    assert!(parse_line("key_no_equals").is_err());
    assert!(parse_line("[unclosed").is_err());
}

#[test]
fn lines_classify_one_by_one() {
    let lines = lex("\n[s]\nk=v").unwrap();
    assert_eq!(lines.len(), 3);
    assert!(matches!(&lines[0], Line::Blank));
    assert!(matches!(&lines[1], Line::Header(n) if n == "s"));
    assert!(matches!(&lines[2], Line::Property(k, v) if k == "k" && v == "v"));
    assert!(matches!(parse_line("[]"), Ok(Line::Header(n)) if n.is_empty()));
    assert!(matches!(parse_line("=v"), Ok(Line::Property(k, v)) if k.is_empty() && v == "v"));
}

#[test]
fn assembly_runs_on_classified_lines() {
    let lines = vec![
        Line::Property("a".to_string(), "1".to_string()),
        Line::Header("one".to_string()),
        Line::Blank,
        Line::Header("two".to_string()),
        Line::Property("b".to_string(), "2".to_string()),
        Line::Property("b".to_string(), "3".to_string()),
    ];
    let config = assemble(&lines);
    assert_eq!(config.sections.len(), 3);
    assert_eq!(config.sections[0].name, "");
    assert_eq!(config.sections[0].values.get(&"a".to_string()), Some(&"1".to_string()));
    assert_eq!(config.sections[1].name, "one");
    assert!(config.sections[1].values.is_empty());
    assert_eq!(config.sections[2].values.len(), 1);
    assert_eq!(config.sections[2].values.get(&"b".to_string()), Some(&"3".to_string()));
    let none = assemble(&Vec::new());
    assert_eq!(none.sections.len(), 1);
}

#[test]
fn properties_insert_and_get() {
    let mut p = Properties::new();
    assert!(p.is_empty());
    p.insert("x".to_string(), "1".to_string());
    p.insert("y".to_string(), "2".to_string());
    p.insert("x".to_string(), "9".to_string());
    assert_eq!(p.len(), 2);
    assert_eq!(p.get(&"x".to_string()), Some(&"9".to_string()));
    assert_eq!(p.get(&"y".to_string()), Some(&"2".to_string()));
    assert_eq!(p.entry(0), (&"x".to_string(), &"9".to_string()));
    assert_eq!(p.entry(1), (&"y".to_string(), &"2".to_string()));
}

#[test]
fn ini_parse_is_deterministic() {
    let text = "a=1\n[s]\nb=2\n";
    let first = parse(text).unwrap();
    let second = parse(text).unwrap();
    assert_eq!(first.sections.len(), second.sections.len());
    for (x, y) in first.sections.iter().zip(second.sections.iter()) {
        assert_eq!(x.name, y.name);
        assert_eq!(x.values.len(), y.values.len());
    }
    assert_eq!(first.sections[1].values.get(&"b".to_string()), second.sections[1].values.get(&"b".to_string()));
}

#[test]
fn ini_written_back_parses_the_same() {
    let config = parse("\nk=1\n\n[a]\nx=\ny=2=3\nx=4\n[b]\nv=\r\n[a=b").unwrap();
    let mut lines: Vec<String> = Vec::new();
    for (i, section) in config.sections.iter().enumerate() {
        if i > 0 {
            lines.push(format!("[{}]", section.name));
        }
        for j in 0..section.values.len() {
            let (key, value) = section.values.entry(j);
            lines.push(format!("{}={}", key, value));
        }
    }
    let text: String = lines.iter().map(|l| format!("{}\n", l)).collect();
    assert_eq!(text, "k=1\n[a]\nx=4\ny=2=3\n[b]\nv=\r\n[a=b\n");
    let again = parse(&text).unwrap();
    assert_eq!(again.sections.len(), config.sections.len());
    for (x, y) in again.sections.iter().zip(config.sections.iter()) {
        assert_eq!(x.name, y.name);
        assert_eq!(x.values.len(), y.values.len());
        for j in 0..x.values.len() {
            assert_eq!(x.values.entry(j), y.values.entry(j));
        }
    }
}

#[test]
fn bracket_line_that_is_no_header_may_be_a_property() {
    let config = parse("[a=b\n[x]=y]\n[c=d]").unwrap();
    assert_eq!(config.sections.len(), 2);
    let values = &config.sections[0].values;
    assert_eq!(values.get(&"[a".to_string()), Some(&"b".to_string()));
    assert_eq!(values.get(&"[x]".to_string()), Some(&"y]".to_string()));
    assert_eq!(config.sections[1].name, "c=d");
    assert!(matches!(parse_line("[a=b"), Ok(Line::Property(k, v)) if k == "[a" && v == "b"));
    assert!(parse_line("[unclosed").is_err());
}
