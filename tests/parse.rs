use json_slice::{parse, parse_with_conditions, ConditionKind, Json, JsonBuilder, JsonValue};

fn as_f64(v: &JsonValue) -> f64 {
    match v {
        JsonValue::Double(t) => t.parse::<f64>().unwrap(),
        other => panic!("not a real number: {:?}", other),
    }
}

#[test]
fn simple_parse() {
    let json_str = r#"{"name":"jonas","number":10}"#;
    let parsed = parse(json_str);
    assert!(matches!(parsed.get("name").unwrap(), JsonValue::StringRef("jonas")));
}

#[test]
fn formatted_parse() {
    let json_str = r#"
        {
            "id": 1,
            "title": "iPhone 9",
            "description": "An apple mobile which is nothing like apple",
            "price": 549,
            "discountPercentage": 12.96,
            "rating": 4.69,
            "stock": 94,
            "brand": "Apple",
            "category": "smartphones",
            "thumbnail": "https://i.dummyjson.com/data/products/1/thumbnail.jpg",
            "images": [
              "https://i.dummyjson.com/data/products/1/1.jpg",
              "https://i.dummyjson.com/data/products/1/2.jpg",
              "https://i.dummyjson.com/data/products/1/3.jpg",
              "https://i.dummyjson.com/data/products/1/4.jpg",
              "https://i.dummyjson.com/data/products/1/thumbnail.jpg"
            ]
        }        
        "#;

    let parsed = parse(json_str);
    assert_eq!(parsed.fields.len(), 11);

    assert!(matches!(parsed.get("category").unwrap(), JsonValue::StringRef("smartphones")));
    assert_eq!(as_f64(parsed.get("rating").unwrap()), 4.69);

    match parsed.get("images").unwrap() {
        JsonValue::Array(items) => {
            assert_eq!(items.len(), 5);
            let expected = [
                "https://i.dummyjson.com/data/products/1/1.jpg",
                "https://i.dummyjson.com/data/products/1/2.jpg",
                "https://i.dummyjson.com/data/products/1/3.jpg",
                "https://i.dummyjson.com/data/products/1/4.jpg",
                "https://i.dummyjson.com/data/products/1/thumbnail.jpg",
            ];
            for (item, want) in items.iter().zip(expected.iter()) {
                assert!(matches!(item, JsonValue::StringRef(s) if s == want));
            }
        }
        other => panic!("images is not an array: {:?}", other),
    }
}

#[test]
fn complex_parse() {
    let json_str = r#"
        {"posts":[{"id":1,"title":"His mother had always taught him","body":"His mother had always taught him not to ever think of himself as better than others. He'd tried to live by this motto. He never looked down on those who were less fortunate or who had less money than him. But the stupidity of the group of people he was talking to made him change his mind.","userId":9,"tags":["history","american","crime"],"reactions":2}],"total":150,"skip":0,"limit":1}
        "#;

    let parsed = parse(json_str);
    assert_eq!(parsed.fields.len(), 4);

    assert!(matches!(parsed.get("total").unwrap(), JsonValue::Integer(150)));
}

#[test]
fn numerals_are_classified() {
    let parsed = parse(r#"{"a":-12,"b":12.96,"c":0}"#);
    assert!(matches!(parsed.get("a").unwrap(), JsonValue::Integer(-12)));
    assert_eq!(as_f64(parsed.get("b").unwrap()), 12.96);
    assert!(matches!(parsed.get("b").unwrap(), JsonValue::Double("12.96")));
    assert!(matches!(parsed.get("c").unwrap(), JsonValue::Integer(0)));
}

#[test]
fn integer_limits() {
    let parsed = parse(r#"{"max":9223372036854775807,"min":-9223372036854775808,"big":9223372036854775808}"#);
    assert!(matches!(parsed.get("max").unwrap(), JsonValue::Integer(i64::MAX)));
    assert!(matches!(parsed.get("min").unwrap(), JsonValue::Integer(i64::MIN)));
    assert!(matches!(parsed.get("big").unwrap(), JsonValue::Double("9223372036854775808")));
}

#[test]
fn nested_object() {
    let parsed = parse(r#"{"a":{"b":"c"}}"#);
    assert_eq!(parsed.len(), 1);
    match parsed.get("a").unwrap() {
        JsonValue::Object(inner) => {
            assert_eq!(inner.len(), 1);
            assert!(matches!(inner.get("b").unwrap(), JsonValue::StringRef("c")));
        }
        other => panic!("a is not an object: {:?}", other),
    }
}

#[test]
fn array_of_objects() {
    let parsed = parse(r#"{"posts":[{"id":1}],"total":150}"#);
    assert_eq!(parsed.len(), 2);
    match parsed.get("posts").unwrap() {
        JsonValue::Array(items) => {
            assert_eq!(items.len(), 1);
            match &items[0] {
                JsonValue::Object(o) => {
                    assert_eq!(o.len(), 1);
                    assert!(matches!(o.get("id").unwrap(), JsonValue::Integer(1)));
                }
                other => panic!("element is not an object: {:?}", other),
            }
        }
        other => panic!("posts is not an array: {:?}", other),
    }
    assert!(matches!(parsed.get("total").unwrap(), JsonValue::Integer(150)));
}

#[test]
fn array_keeps_source_order() {
    let parsed = parse(r#"{"xs":[3,"two",1.5,[],{}]}"#);
    match parsed.get("xs").unwrap() {
        JsonValue::Array(items) => {
            assert_eq!(items.len(), 5);
            assert!(matches!(items[0], JsonValue::Integer(3)));
            assert!(matches!(items[1], JsonValue::StringRef("two")));
            assert!(matches!(items[2], JsonValue::Double("1.5")));
            assert!(matches!(&items[3], JsonValue::Array(v) if v.is_empty()));
            assert!(matches!(&items[4], JsonValue::Object(o) if o.len() == 0));
        }
        other => panic!("xs is not an array: {:?}", other),
    }
}

#[test]
fn not_an_object() {
    let (root, conditions) = parse_with_conditions("  [1, 2]  ");
    assert_eq!(root.len(), 0);
    assert_eq!(conditions.len(), 1);
    assert_eq!(conditions[0].kind, ConditionKind::InputNotAnObject);
    assert_eq!(conditions[0].position, 2);
    assert_eq!(parse("").len(), 0);
    assert_eq!(parse("   \n\t ").len(), 0);
}

#[test]
fn well_formed_input_has_no_conditions() {
    let (root, conditions) = parse_with_conditions(" {\"a\": 1, \"b\": [2]} ");
    assert_eq!(root.len(), 2);
    assert!(conditions.is_empty());
}

#[test]
fn lookups_repeat() {
    let parsed = parse(r#"{"k":[1,2],"n":7}"#);
    let first = format!("{:?}", parsed.get("k"));
    let second = format!("{:?}", parsed.get("k"));
    assert_eq!(first, second);
    assert!(parsed.get("missing").is_none());
    assert!(parsed.get("missing").is_none());
}

#[test]
fn duplicate_key_last_wins() {
    let parsed = parse(r#"{"a":1,"b":2,"a":3}"#);
    assert_eq!(parsed.len(), 2);
    assert!(matches!(parsed.fields[0], ("a", JsonValue::Integer(3))));
    assert!(matches!(parsed.fields[1], ("b", JsonValue::Integer(2))));
}

#[test]
fn escaped_quote_stays_in_string() {
    let parsed = parse(r#"{"q":"say \"hi\""}"#);
    assert!(matches!(parsed.get("q").unwrap(), JsonValue::StringRef(r#"say \"hi\""#)));
}

#[test]
fn unterminated_string() {
    let (_root, conditions) = parse_with_conditions(r#"{"a":"oops}"#);
    assert!(conditions.iter().any(|c| c.kind == ConditionKind::UnterminatedString && c.position == 5));
}

#[test]
fn invalid_numeral_is_nothing() {
    let (root, conditions) = parse_with_conditions(r#"{"a":1.2.3}"#);
    assert!(matches!(root.get("a").unwrap(), JsonValue::Nothing));
    assert_eq!(conditions.len(), 1);
    assert_eq!(conditions[0].kind, ConditionKind::InvalidNumeral);
    assert_eq!(conditions[0].position, 5);
    let (root, _) = parse_with_conditions(r#"{"p":+5}"#);
    assert!(matches!(root.get("p").unwrap(), JsonValue::Nothing));
}

#[test]
fn unexpected_container_open() {
    let (_root, conditions) = parse_with_conditions(r#"{{"a":1}"#);
    assert_eq!(conditions[0].kind, ConditionKind::UnexpectedContainerOpen);
    assert_eq!(conditions[0].position, 1);
}

#[test]
fn missing_key_for_value() {
    let (root, conditions) = parse_with_conditions(r#"{"a":1, 2}"#);
    assert_eq!(root.len(), 1);
    assert_eq!(conditions.len(), 1);
    assert_eq!(conditions[0].kind, ConditionKind::MissingKeyForValue);
    assert_eq!(conditions[0].position, 8);
}

#[test]
fn unbalanced_containers() {
    let (root, conditions) = parse_with_conditions(r#"{"a":[1,2"#);
    assert_eq!(root.len(), 0);
    assert_eq!(conditions.len(), 1);
    assert_eq!(conditions[0].kind, ConditionKind::UnbalancedContainers);
    assert_eq!(conditions[0].position, 9);
    let (_root, conditions) = parse_with_conditions(r#"{"a":1}}"#);
    assert_eq!(conditions.len(), 1);
    assert_eq!(conditions[0].kind, ConditionKind::UnbalancedContainers);
    assert_eq!(conditions[0].position, 7);
}

#[test]
fn builder_parse_starts_after_first_brace() {
    let parsed = JsonBuilder::parse(r#"xx {"a":"b"}"#);
    assert!(matches!(parsed.get("a").unwrap(), JsonValue::StringRef("b")));
    assert_eq!(JsonBuilder::parse("no brace here").len(), 0);
}

#[test]
fn empty_object() {
    let parsed = parse("{}");
    assert_eq!(parsed.len(), 0);
    let empty = Json::new();
    assert!(empty.get("x").is_none());
}

#[test]
fn flat_object_key_set() {
    let parsed = parse(r#"{"x":1,"y":"two","z":-3.5,"w":0}"#);
    let mut keys: Vec<&str> = parsed.fields.iter().map(|(k, _)| *k).collect();
    keys.sort();
    assert_eq!(keys, vec!["w", "x", "y", "z"]);
}

#[test]
fn nested_arrays_and_keys_at_depth() {
    let (root, conditions) = parse_with_conditions(r#"{"a":[[1,2],[3]],"b":{"c":{"d":[]}}}"#);
    assert!(conditions.is_empty());
    assert_eq!(root.len(), 2);
    match root.get("a").unwrap() {
        JsonValue::Array(outer) => {
            assert_eq!(outer.len(), 2);
            assert!(matches!(&outer[0], JsonValue::Array(v) if v.len() == 2));
            assert!(matches!(&outer[1], JsonValue::Array(v) if matches!(v[0], JsonValue::Integer(3))));
        }
        other => panic!("a is not an array: {:?}", other),
    }
}
