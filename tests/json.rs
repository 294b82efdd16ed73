use bjl::parse::{json_object_from_tokens, parse_json_string, JsonError};
use bjl::token::JSON_Token;
use bjl::tokenize::tokenize_json_string;
use bjl::value::{JSON_Object, JSON_Value};

fn number_text(v: Option<&JSON_Value>) -> String {
    match v {
        Some(JSON_Value::Number(n)) => n.clone(),
        other => panic!("expected a number, got {:?}", other),
    }
}

fn number_of(v: Option<&JSON_Value>) -> f64 {
    number_text(v).parse::<f64>().unwrap()
}

fn object_of(v: Option<&JSON_Value>) -> &JSON_Object {
    match v {
        Some(JSON_Value::Object(o)) => o,
        other => panic!("expected an object, got {:?}", other),
    }
}

fn parse_err(text: &str) -> Option<JsonError> {
    parse_json_string(text).err()
}

#[test]
fn test_main() {
    let json_str = "{\n  \"object\": {\n    \"number\": 12.5,\n    \"text\": \"hello\",\n    \"flag\": false,\n    \"nothing\": null,\n    \"list\": [1, \"two\", [3]]\n  },\n  \"pengu\": \"in\"\n}\n";
    let tokens = tokenize_json_string(json_str).unwrap();
    let object = json_object_from_tokens(&tokens).unwrap();

    assert_eq!(object.len(), 2);
    assert!(object.contains_key("object"));
    assert!(object.contains_key("pengu"));
    assert_eq!(false, object.contains_key("objec"));

    if let Some(value) = object.get("object") {
        if let JSON_Value::Object(ref object) = *value {
            assert_eq!(object.len(), 5);
        } else {
            panic!();
        }
    } else {
        panic!();
    }
}

#[test]
fn every_leaf_kind_is_kept() {
    let o = parse_json_string("{\"s\":\"x y\",\"n\":7,\"t\":true,\"f\":false,\"z\":null,\"a\":[],\"o\":{}}")
        .unwrap();
    assert_eq!(o.len(), 7);
    match o.get("s") {
        Some(JSON_Value::String(s)) => assert_eq!(s, "x y"),
        other => panic!("{:?}", other),
    }
    assert_eq!(number_of(o.get("n")), 7.0);
    assert!(matches!(o.get("t"), Some(JSON_Value::Bool(true))));
    assert!(matches!(o.get("f"), Some(JSON_Value::Bool(false))));
    assert!(matches!(o.get("z"), Some(JSON_Value::Null)));
    match o.get("a") {
        Some(JSON_Value::Array(a)) => assert!(a.is_empty()),
        other => panic!("{:?}", other),
    }
    assert_eq!(object_of(o.get("o")).len(), 0);
    assert!(o.get("missing").is_none());
}

#[test]
fn duplicate_keys_last_write_wins() {
    let o = parse_json_string("{\"a\":1,\"a\":2}").unwrap();
    assert_eq!(o.len(), 1);
    assert_eq!(number_of(o.get("a")), 2.0);
}

#[test]
fn trailing_comma_is_rejected() {
    assert_eq!(parse_err("{\"a\":1,}"), Some(JsonError::Parse));
    assert_eq!(parse_err("{\"a\":[1,2,]}"), Some(JsonError::Parse));
}

#[test]
fn only_an_object_is_a_document() {
    assert_eq!(parse_err("[1,2,3]"), Some(JsonError::Parse));
    assert_eq!(parse_err("42"), Some(JsonError::Parse));
    assert_eq!(parse_err("\"text\""), Some(JsonError::Parse));
    assert_eq!(parse_err(""), Some(JsonError::Parse));
    assert!(parse_json_string("{}").is_ok());
    assert!(parse_json_string("  {\"k\" : [ ]}\r\n\t").is_ok());
}

#[test]
fn unterminated_string_is_a_tokenize_error() {
    assert_eq!(parse_err("{\"a\":\"oops}"), Some(JsonError::Tokenize));
    assert!(tokenize_json_string("{\"a\":\"oops}").is_none());
}

#[test]
fn numbers_keep_their_value() {
    let o = parse_json_string("{\"x\":-3.5e2}").unwrap();
    assert_eq!(number_text(o.get("x")), "-3.5e2");
    assert_eq!(number_of(o.get("x")), -350.0);
}

#[test]
fn nested_containers() {
    let o = parse_json_string("{\"o\":{\"d\":true,\"e\":null},\"arr\":[1,2,3]}").unwrap();
    assert_eq!(o.len(), 2);
    let inner = object_of(o.get("o"));
    assert_eq!(inner.len(), 2);
    assert!(matches!(inner.get("d"), Some(JSON_Value::Bool(true))));
    assert!(matches!(inner.get("e"), Some(JSON_Value::Null)));
    match o.get("arr") {
        Some(JSON_Value::Array(a)) => {
            let values: Vec<f64> = a.iter().map(|v| number_of(Some(v))).collect();
            assert_eq!(values, vec![1.0, 2.0, 3.0]);
        },
        other => panic!("{:?}", other),
    }
}

#[test]
fn failure_is_the_same_each_time() {
    for text in ["{\"a\":1,}", "{\"a\":\"oops}", "[1]", "{\"a\" 1}", "{\"a\":tru}"] {
        let first = parse_err(text);
        assert!(first.is_some());
        for _ in 0..3 {
            assert_eq!(parse_err(text), first);
        }
    }
}

#[test]
fn malformed_structure_is_a_parse_error() {
    assert_eq!(parse_err("{\"a\" 1}"), Some(JsonError::Parse));
    assert_eq!(parse_err("{1:2}"), Some(JsonError::Parse));
    assert_eq!(parse_err("{\"a\":1 \"b\":2}"), Some(JsonError::Parse));
    assert_eq!(parse_err("{\"a\":1}}"), Some(JsonError::Parse));
    assert_eq!(parse_err("{\"a\":1},"), Some(JsonError::Parse));
    assert_eq!(parse_err("{\"a\":}"), Some(JsonError::Parse));
    assert_eq!(parse_err("{\"a\":[1,2}"), Some(JsonError::Parse));
    assert_eq!(parse_err("{\"a\":1"), Some(JsonError::Parse));
    assert_eq!(parse_err("{"), Some(JsonError::Parse));
    assert_eq!(parse_err("}"), Some(JsonError::Parse));
}

#[test]
fn bad_words_are_tokenize_errors() {
    assert_eq!(parse_err("{\"a\":tru}"), Some(JsonError::Tokenize));
    assert_eq!(parse_err("{\"a\":1e}"), Some(JsonError::Tokenize));
    assert_eq!(parse_err("{\"a\":'x'}"), Some(JsonError::Tokenize));
    assert_eq!(parse_err("{\"a\":+}"), Some(JsonError::Tokenize));
    assert_eq!(parse_err("{\"a\":1.2.3}"), Some(JsonError::Tokenize));
}

#[test]
fn float_literals_follow_the_standard_parser() {
    let accepted = ["0", "-0", "+1", "1.", ".5", "1e5", "1E+5", "2.5e-3", "inf", "-Infinity", "NaN", "+nan", "1.e5", "007"];
    for w in accepted {
        let tokens = tokenize_json_string(w).unwrap();
        assert_eq!(tokens.len(), 1);
        assert_eq!(tokens[0].unwrap_number(), w);
        assert!(w.parse::<f64>().is_ok());
    }
    let rejected = [".", "e5", "1e", "1e+", "--1", "1..2", "infinit", "0x10", "1_0", "+", ".e5", "E5", "1e5.0"];
    for w in rejected {
        assert!(tokenize_json_string(w).is_none(), "{}", w);
        assert!(w.parse::<f64>().is_err());
    }
}

#[test]
fn string_escapes_are_checked_and_kept_as_written() {
    let tokens = tokenize_json_string("\"a\\\"b\\n\\u00e9\"").unwrap();
    assert_eq!(tokens.len(), 1);
    assert!(tokens[0].is_string());
    assert_eq!(tokens[0].unwrap_string(), "a\\\"b\\n\\u00e9");
    assert!(tokenize_json_string("\"\\x\"").is_none());
    assert!(tokenize_json_string("\"\\u12g4\"").is_none());
    assert!(tokenize_json_string("\"\\u123\"").is_none());
    assert!(tokenize_json_string("\"\\u1234\"").is_some());
    assert!(tokenize_json_string("\"abc\\").is_none());
}

#[test]
fn tokens_in_order() {
    let tokens = tokenize_json_string(" { \"k\" : [ 1 , true , null , false ] } ").unwrap();
    let kinds: Vec<&str> = tokens
        .iter()
        .map(|t| {
            if t.is_lbrace() {
                "{"
            } else if t.is_rbrace() {
                "}"
            } else if t.is_lbracket() {
                "["
            } else if t.is_rbracket() {
                "]"
            } else if t.is_colon() {
                ":"
            } else if t.is_comma() {
                ","
            } else if t.is_number() {
                "num"
            } else if t.is_string() {
                "str"
            } else if t.is_bool() {
                if t.unwrap_bool() { "true" } else { "false" }
            } else if t.is_null() {
                "null"
            } else {
                "?"
            }
        })
        .collect();
    assert_eq!(kinds, vec!["{", "str", ":", "[", "num", ",", "true", ",", "null", ",", "false", "]", "}"]);
    assert_eq!(tokenize_json_string("   ").unwrap().len(), 0);
    assert!(matches!(tokenize_json_string("{}").unwrap()[0], JSON_Token::LBrace));
}

#[test]
fn object_insert_replaces() {
    let mut o = JSON_Object::new();
    assert_eq!(o.len(), 0);
    o.insert("k".to_string(), JSON_Value::Null);
    o.insert("j".to_string(), JSON_Value::Bool(true));
    o.insert("k".to_string(), JSON_Value::Bool(false));
    assert_eq!(o.len(), 2);
    assert!(matches!(o.get("k"), Some(JSON_Value::Bool(false))));
    assert!(o.contains_key("j"));
    assert!(!o.contains_key("x"));
}

#[test]
fn keys_are_listed_once() {
    let o = parse_json_string("{\"b\":1,\"a\":2,\"b\":3}").unwrap();
    let mut keys = o.keys();
    assert_eq!(keys.len(), 2);
    keys.sort();
    assert_eq!(keys, vec!["a".to_string(), "b".to_string()]);
    assert_eq!(number_of(o.get("b")), 3.0);
}
