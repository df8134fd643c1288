use jaml::{parse, serialize, Jaml, JamlError, JamlValue};

fn entries(pairs: Vec<(&str, JamlValue)>) -> Vec<(String, JamlValue)> {
    pairs.into_iter().map(|(k, v)| (k.to_string(), v)).collect()
}

#[test]
fn classify_boolean_true() {
    let m = parse("x = true").unwrap();
    assert_eq!(m, entries(vec![("x", JamlValue::Boolean(true))]));
}

#[test]
fn classify_boolean_false() {
    let m = parse("x = false").unwrap();
    assert_eq!(m, entries(vec![("x", JamlValue::Boolean(false))]));
}

#[test]
fn classify_integer_leading_zeros_accepted() {
    let m = parse("x = 007").unwrap();
    assert_eq!(m, entries(vec![("x", JamlValue::Integer(7))]));
}

#[test]
fn classify_integer_negative() {
    let m = parse("x = -42").unwrap();
    assert_eq!(m, entries(vec![("x", JamlValue::Integer(-42))]));
}

#[test]
fn classify_leading_plus_is_string() {
    let m = parse("x = +5").unwrap();
    assert_eq!(m, entries(vec![("x", JamlValue::String("+5".to_string()))]));
}

#[test]
fn classify_out_of_range_integer_is_string() {
    let m = parse("x = 99999999999999999999").unwrap();
    assert_eq!(
        m,
        entries(vec![("x", JamlValue::String("99999999999999999999".to_string()))])
    );
}

#[test]
fn classify_extreme_integers() {
    let m = parse("a = 9223372036854775807\nb = -9223372036854775808").unwrap();
    assert_eq!(
        m,
        entries(vec![
            ("a", JamlValue::Integer(i64::MAX)),
            ("b", JamlValue::Integer(i64::MIN)),
        ])
    );
    let m2 = parse("a = 9223372036854775808").unwrap();
    assert_eq!(
        m2,
        entries(vec![("a", JamlValue::String("9223372036854775808".to_string()))])
    );
}

#[test]
fn classify_array_of_integers() {
    let m = parse("x = [1, 2, 3]").unwrap();
    assert_eq!(
        m,
        entries(vec![(
            "x",
            JamlValue::Array(vec![
                JamlValue::Integer(1),
                JamlValue::Integer(2),
                JamlValue::Integer(3),
            ])
        )])
    );
}

#[test]
fn classify_array_mixed() {
    let m = parse("x = [rust, true, 3]").unwrap();
    assert_eq!(
        m,
        entries(vec![(
            "x",
            JamlValue::Array(vec![
                JamlValue::String("rust".to_string()),
                JamlValue::Boolean(true),
                JamlValue::Integer(3),
            ])
        )])
    );
}

#[test]
fn classify_plain_string() {
    let m = parse("x = hello").unwrap();
    assert_eq!(m, entries(vec![("x", JamlValue::String("hello".to_string()))]));
}

#[test]
fn auto_vivification_set_then_get() {
    let mut store = Jaml { data: Vec::new() };
    store.set_value("a.b.c", JamlValue::Integer(5));
    let expected = entries(vec![(
        "a",
        JamlValue::Section(entries(vec![(
            "b",
            JamlValue::Section(entries(vec![("c", JamlValue::Integer(5))])),
        )])),
    )]);
    assert_eq!(store.data, expected);
    assert_eq!(store.get_value("a.b.c").unwrap(), &JamlValue::Integer(5));
}

#[test]
fn overwrite_preserves_position() {
    let m = parse("x = 1\ny = 2\nx = 3").unwrap();
    assert_eq!(
        m,
        entries(vec![("x", JamlValue::Integer(3)), ("y", JamlValue::Integer(2))])
    );
}

#[test]
fn scalars_before_sections_on_serialize() {
    let mut store = Jaml { data: Vec::new() };
    store.set_value("s.sub.k", JamlValue::Integer(1));
    store.set_value("s.a", JamlValue::Integer(2));
    let text = serialize(&store.data);
    let scalar_at = text.find("a = 2").unwrap();
    let header_at = text.find("[s.sub]").unwrap();
    assert!(scalar_at < header_at);
}

#[test]
fn syntax_error_reports_line() {
    let r = parse("name = Jan\nbroken line\nage = 5");
    assert_eq!(r.unwrap_err(), JamlError::Syntax(2));
}

#[test]
fn missing_path_names_full_path() {
    let store = Jaml { data: entries(vec![("other", JamlValue::Integer(1))]) };
    let r = store.get_value("settings.missing");
    assert_eq!(
        r.unwrap_err(),
        JamlError::KeyNotFound("settings.missing".to_string())
    );
}

#[test]
fn intermediate_non_section_is_not_found() {
    let m = parse("a = 5").unwrap();
    let store = Jaml { data: m };
    assert_eq!(
        store.get_value("a.b").unwrap_err(),
        JamlError::KeyNotFound("a.b".to_string())
    );
}

#[test]
fn comments_and_blanks_are_skipped() {
    let m = parse("# heading\n\n   \nx = 1\n  # indented comment\n").unwrap();
    assert_eq!(m, entries(vec![("x", JamlValue::Integer(1))]));
}

#[test]
fn empty_input_is_empty_root() {
    let m = parse("").unwrap();
    assert_eq!(m, Vec::new());
}

#[test]
fn sections_and_nesting() {
    let text = "name = Jan\nage = 22\n\n[settings]\ndark_mode = true\n\n[settings.ui]\ntheme = dark\n";
    let m = parse(text).unwrap();
    assert_eq!(
        m,
        entries(vec![
            ("name", JamlValue::String("Jan".to_string())),
            ("age", JamlValue::Integer(22)),
            (
                "settings",
                JamlValue::Section(entries(vec![
                    ("dark_mode", JamlValue::Boolean(true)),
                    (
                        "ui",
                        JamlValue::Section(entries(vec![(
                            "theme",
                            JamlValue::String("dark".to_string())
                        )]))
                    ),
                ]))
            ),
        ])
    );
}

#[test]
fn redeclared_section_appends() {
    let m = parse("[s]\na = 1\n[t]\nb = 2\n[s]\nc = 3").unwrap();
    assert_eq!(
        m,
        entries(vec![
            (
                "s",
                JamlValue::Section(entries(vec![
                    ("a", JamlValue::Integer(1)),
                    ("c", JamlValue::Integer(3)),
                ]))
            ),
            (
                "t",
                JamlValue::Section(entries(vec![("b", JamlValue::Integer(2))]))
            ),
        ])
    );
}

#[test]
fn header_over_scalar_is_a_section_conflict() {
    let r = parse("a = 1\n[a]\nx = 2");
    assert_eq!(r.unwrap_err(), JamlError::SectionConflict(2));
}

#[test]
fn deep_header_over_scalar_is_a_section_conflict() {
    let r = parse("x = 1\n[x.y]");
    assert_eq!(r.unwrap_err(), JamlError::SectionConflict(2));
}

#[test]
fn serialize_exact_flat_text() {
    let m = entries(vec![
        ("name", JamlValue::String("Jan".to_string())),
        ("age", JamlValue::Integer(22)),
        ("ok", JamlValue::Boolean(true)),
        (
            "langs",
            JamlValue::Array(vec![
                JamlValue::String("rust".to_string()),
                JamlValue::String("c".to_string()),
            ]),
        ),
    ]);
    assert_eq!(
        serialize(&m),
        "name = Jan\nage = 22\nok = true\nlangs = [rust, c]\n"
    );
}

#[test]
fn serialize_section_text() {
    let m = parse("x = 1\n[s]\ny = 2\n[s.u]\nz = 3").unwrap();
    assert_eq!(serialize(&m), "x = 1\n\n[s]\ny = 2\n\n[s.u]\nz = 3\n");
}

#[test]
fn round_trip_reparses_equal() {
    let text = "name = Jan\nage = 22\n\n[settings]\ndark_mode = true\nrefresh_rate = 144\n\n[settings.ui]\nfont_size = 14\ntheme = dark\nlanguages = [rust, c, python]\n";
    let m = parse(text).unwrap();
    let out = serialize(&m);
    let m2 = parse(&out).unwrap();
    assert_eq!(m, m2);
    assert_eq!(serialize(&m2), out);
}

#[test]
fn crlf_lines_are_trimmed() {
    let m = parse("x = 1\r\ny = two\r\n").unwrap();
    assert_eq!(
        m,
        entries(vec![
            ("x", JamlValue::Integer(1)),
            ("y", JamlValue::String("two".to_string())),
        ])
    );
}

#[test]
fn value_with_second_equals_is_error() {
    let r = parse("a = b=c");
    assert_eq!(r.unwrap_err(), JamlError::Syntax(1));
}

#[test]
fn set_value_overwrites_in_place() {
    let mut store = Jaml { data: Vec::new() };
    store.set_value("a", JamlValue::Integer(1));
    store.set_value("b", JamlValue::Integer(2));
    store.set_value("a", JamlValue::Integer(9));
    assert_eq!(
        store.data,
        entries(vec![("a", JamlValue::Integer(9)), ("b", JamlValue::Integer(2))])
    );
}

#[test]
fn empty_value_is_empty_string() {
    let m = parse("k = ").unwrap();
    assert_eq!(m, entries(vec![("k", JamlValue::String(String::new()))]));
    let out = serialize(&m);
    assert_eq!(out, "k = \n");
    assert_eq!(parse(&out).unwrap(), m);
}

#[test]
fn key_with_inner_spaces() {
    let m = parse("my key = 1").unwrap();
    assert_eq!(m, entries(vec![("my key", JamlValue::Integer(1))]));
}

#[test]
fn value_with_inner_spaces() {
    let m = parse("x =   hello world  ").unwrap();
    assert_eq!(
        m,
        entries(vec![("x", JamlValue::String("hello world".to_string()))])
    );
}

#[test]
fn empty_brackets_hold_one_empty_string() {
    let m = parse("x = []").unwrap();
    assert_eq!(
        m,
        entries(vec![("x", JamlValue::Array(vec![JamlValue::String(String::new())]))])
    );
}

#[test]
fn get_value_can_return_a_section() {
    let m = parse("[s]\na = 1").unwrap();
    let store = Jaml { data: m };
    match store.get_value("s").unwrap() {
        JamlValue::Section(es) => {
            assert_eq!(es, &entries(vec![("a", JamlValue::Integer(1))]));
        },
        other => panic!("expected a section, got {:?}", other),
    }
}

#[test]
fn bracketed_value_elements_classify_recursively() {
    let m = parse("x = [[1], 2]").unwrap();
    assert_eq!(
        m,
        entries(vec![(
            "x",
            JamlValue::Array(vec![
                JamlValue::Array(vec![JamlValue::Integer(1)]),
                JamlValue::Integer(2),
            ])
        )])
    );
    let m2 = parse("y = [[a], b]").unwrap();
    assert_eq!(
        m2,
        entries(vec![(
            "y",
            JamlValue::Array(vec![
                JamlValue::Array(vec![JamlValue::String("a".to_string())]),
                JamlValue::String("b".to_string()),
            ])
        )])
    );
}
