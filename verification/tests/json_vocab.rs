use nagisa_rs::weights::{
    vocab_entries_from_json, vocab_from_json, word_tags_from_json, JsonValue, LoadError,
};

fn obj(members: Vec<(&str, JsonValue)>) -> JsonValue {
    JsonValue::Object(members.into_iter().map(|(k, v)| (k.to_string(), v)).collect())
}

fn num(i: i64) -> JsonValue {
    JsonValue::Number(Some(i))
}

fn ints(xs: &[i64]) -> JsonValue {
    JsonValue::Array(xs.iter().map(|&x| num(x)).collect())
}

#[test]
fn vocab_document_loads() {
    let doc = obj(vec![("uni2id", obj(vec![("oov", num(0)), ("あ", num(2)), ("big", num(-1))]))]);
    let v = vocab_from_json(&doc, "uni2id").ok().unwrap();
    assert_eq!(v.get("oov"), Some(&0));
    assert_eq!(v.get("あ"), Some(&2));
    assert_eq!(v.get("big"), Some(&u32::MAX));
    assert_eq!(v.len(), 3);
    let es = vocab_entries_from_json(&doc, "uni2id").ok().unwrap();
    assert_eq!(es, vec![("oov".to_string(), 0), ("あ".to_string(), 2), ("big".to_string(), -1)]);
}

#[test]
fn vocab_document_errors() {
    let doc = obj(vec![("a", obj(vec![]))]);
    assert!(matches!(vocab_from_json(&doc, "b"), Err(LoadError::MissingKey)));
    assert!(matches!(vocab_from_json(&num(3), "a"), Err(LoadError::MissingKey)));
    let doc = obj(vec![("a", ints(&[1]))]);
    assert!(matches!(vocab_from_json(&doc, "a"), Err(LoadError::NotAnObject)));
    let doc = obj(vec![(
        "a",
        obj(vec![
            ("x", num(1)),
            ("y", JsonValue::Number(None)),
            ("z", JsonValue::Str("2".to_string())),
        ]),
    )]);
    match vocab_from_json(&doc, "a") {
        Err(LoadError::NotAnInteger(k)) => assert_eq!(k, "y"),
        _ => panic!("expected a non-integer id"),
    }
}

#[test]
fn later_member_of_the_same_name_wins() {
    let doc = obj(vec![("a", obj(vec![])), ("a", obj(vec![("t", num(5))]))]);
    let v = vocab_from_json(&doc, "a").ok().unwrap();
    assert_eq!(v.get("t"), Some(&5));
}

#[test]
fn word_tags_document_loads() {
    let doc = obj(vec![(
        "word2postags",
        obj(vec![("は", ints(&[5, 5])), ("東京", ints(&[3])), ("空", ints(&[]))]),
    )]);
    let m = word_tags_from_json(&doc, "word2postags").ok().unwrap();
    assert_eq!(m.get("は"), Some(&vec![5, 5]));
    assert_eq!(m.get("東京"), Some(&vec![3]));
    assert_eq!(m.get("空"), Some(&vec![]));
}

#[test]
fn word_tags_document_errors() {
    let doc = obj(vec![("w", obj(vec![("a", ints(&[1])), ("b", num(2)), ("c", ints(&[1]))]))]);
    match word_tags_from_json(&doc, "w") {
        Err(LoadError::NotAnArray(k)) => assert_eq!(k, "b"),
        _ => panic!("expected a non-array entry"),
    }
    let doc = obj(vec![(
        "w",
        obj(vec![("a", JsonValue::Array(vec![num(1), JsonValue::Null])), ("b", num(2))]),
    )]);
    match word_tags_from_json(&doc, "w") {
        Err(LoadError::NotAnInteger(k)) => assert_eq!(k, "a"),
        _ => panic!("expected a non-integer entry"),
    }
    assert!(matches!(word_tags_from_json(&doc, "x"), Err(LoadError::MissingKey)));
    let doc = obj(vec![("w", JsonValue::Bool(true))]);
    assert!(matches!(word_tags_from_json(&doc, "w"), Err(LoadError::NotAnObject)));
}
