use glyphspack::plist::{array_file_content, dict_file_content, parse, Root, Value};

#[test]
fn parse_dict_single_entry() {
    let code = b"{\na = b;\n}\n".to_vec();
    let sl = parse(Root::Dict, &code).unwrap();
    assert_eq!(sl.code, b"a = b;".to_vec());
    match sl.value {
        Value::Dict(es) => {
            assert_eq!(es.len(), 1);
            assert_eq!(es[0].key, b"a".to_vec());
            assert_eq!(es[0].code, b"a = b;".to_vec());
            match &es[0].value.value {
                Value::String(s) => assert_eq!(*s, b"b".to_vec()),
                _ => panic!("expected a string value"),
            }
            assert_eq!(es[0].value.code, b"b".to_vec());
        }
        _ => panic!("expected a dictionary"),
    }
}

#[test]
fn parse_empty_dict() {
    let code = b"{}".to_vec();
    let sl = parse(Root::Dict, &code).unwrap();
    assert_eq!(sl.code, b"".to_vec());
    match sl.value {
        Value::Dict(es) => assert_eq!(es.len(), 0),
        _ => panic!("expected a dictionary"),
    }
}

#[test]
fn parse_array_spans_and_trailing_comma() {
    let code = b"(a, \"b c\",)".to_vec();
    let sl = parse(Root::Array, &code).unwrap();
    assert_eq!(sl.code, b"a, \"b c\"".to_vec());
    match sl.value {
        Value::Array(vs) => {
            assert_eq!(vs.len(), 2);
            assert_eq!(vs[0].code, b"a".to_vec());
            match &vs[0].value {
                Value::String(s) => assert_eq!(*s, b"a".to_vec()),
                _ => panic!("expected a string"),
            }
            assert_eq!(vs[1].code, b"\"b c\"".to_vec());
            match &vs[1].value {
                Value::String(s) => assert_eq!(*s, b"b c".to_vec()),
                _ => panic!("expected a string"),
            }
        }
        _ => panic!("expected an array"),
    }
}

#[test]
fn parse_nested_dict_keeps_verbatim_code() {
    let code = b"{\nouter = {\n inner = 1 ;\n};\n}\n".to_vec();
    let sl = parse(Root::Dict, &code).unwrap();
    match sl.value {
        Value::Dict(es) => {
            assert_eq!(es.len(), 1);
            assert_eq!(es[0].code, b"outer = {\n inner = 1 ;\n};".to_vec());
            assert_eq!(es[0].value.code, b"inner = 1 ;".to_vec());
        }
        _ => panic!("expected a dictionary"),
    }
}

#[test]
fn parse_quoted_string_keeps_backslash_verbatim() {
    let code = b"(\"x\\y\")".to_vec();
    let sl = parse(Root::Array, &code).unwrap();
    match sl.value {
        Value::Array(vs) => match &vs[0].value {
            Value::String(s) => assert_eq!(*s, b"x\\y".to_vec()),
            _ => panic!("expected a string"),
        },
        _ => panic!("expected an array"),
    }
}

#[test]
fn parse_rejects_missing_semicolon() {
    let code = b"{a = b}".to_vec();
    assert!(parse(Root::Dict, &code).is_err());
}

#[test]
fn parse_rejects_wrong_root_kind() {
    let code = b"(a)".to_vec();
    assert!(parse(Root::Dict, &code).is_err());
    let code2 = b"{}".to_vec();
    assert!(parse(Root::Array, &code2).is_err());
}

#[test]
fn parse_rejects_trailing_text() {
    let code = b"{} x".to_vec();
    assert!(parse(Root::Dict, &code).is_err());
}

#[test]
fn parse_rejects_unterminated_quote() {
    let code = b"(\"abc)".to_vec();
    assert!(parse(Root::Array, &code).is_err());
}

#[test]
fn dict_file_content_exact() {
    let codes = vec![b"x = 1;".to_vec(), b"y = 2;".to_vec()];
    assert_eq!(dict_file_content(&codes), b"{\nx = 1;\ny = 2;\n}\n".to_vec());
    let none: Vec<Vec<u8>> = Vec::new();
    assert_eq!(dict_file_content(&none), b"{\n}\n".to_vec());
}

#[test]
fn array_file_content_exact() {
    let codes = vec![b"a".to_vec(), b"b".to_vec()];
    assert_eq!(array_file_content(&codes), b"(\na,\nb\n)".to_vec());
    let one = vec![b"a".to_vec()];
    assert_eq!(array_file_content(&one), b"(\na\n)".to_vec());
    let none: Vec<Vec<u8>> = Vec::new();
    assert_eq!(array_file_content(&none), b"(\n)".to_vec());
}
