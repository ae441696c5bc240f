use jsonb_stream::{decode, DecodeError, JsonbIterator, JsonbScalar, JsonbToken, JsonbTraversal, TreeBuilder, Value};

fn len32(n: usize) -> Vec<u8> {
    (n as u32).to_le_bytes().to_vec()
}

fn num(digits: &str) -> Vec<u8> {
    let mut b = vec![3u8];
    b.extend(len32(digits.len()));
    b.extend(digits.as_bytes());
    b
}

fn text(s: &str) -> Vec<u8> {
    let mut b = vec![4u8];
    b.extend(len32(s.len()));
    b.extend(s.as_bytes());
    b
}

fn array(items: &[Vec<u8>]) -> Vec<u8> {
    let mut b = vec![5u8];
    b.extend(len32(items.len()));
    for i in items {
        b.extend(i);
    }
    b
}

fn object(pairs: &[(&str, Vec<u8>)]) -> Vec<u8> {
    let mut b = vec![6u8];
    b.extend(len32(pairs.len()));
    for (k, v) in pairs {
        b.extend(text(k));
        b.extend(v);
    }
    b
}

fn string_of(v: &Value) -> &str {
    match v {
        Value::String(s) => s,
        Value::Number(s) => s,
        _ => panic!("not text"),
    }
}

#[test]
fn scalars_decode() {
    assert!(matches!(decode(&[0]), Ok(Value::Null)));
    assert!(matches!(decode(&[1]), Ok(Value::Bool(false))));
    assert!(matches!(decode(&[2]), Ok(Value::Bool(true))));
    let v = decode(&text("héllo")).unwrap();
    assert_eq!(string_of(&v), "héllo");
}

#[test]
fn nested_document_decodes_in_order() {
    let doc = object(&[
        ("b", array(&[num("1"), vec![2], vec![0]])),
        ("a", object(&[("x", text("y"))])),
    ]);
    match decode(&doc).unwrap() {
        Value::Object(entries) => {
            assert_eq!(entries.len(), 2);
            assert_eq!(entries[0].0, "b");
            assert_eq!(entries[1].0, "a");
            match &entries[0].1 {
                Value::Array(items) => {
                    assert_eq!(items.len(), 3);
                    assert_eq!(string_of(&items[0]), "1");
                    assert!(matches!(items[1], Value::Bool(true)));
                    assert!(matches!(items[2], Value::Null));
                }
                _ => panic!("expected an array"),
            }
            match &entries[1].1 {
                Value::Object(inner) => {
                    assert_eq!(inner.len(), 1);
                    assert_eq!(inner[0].0, "x");
                    assert_eq!(string_of(&inner[0].1), "y");
                }
                _ => panic!("expected an object"),
            }
        }
        _ => panic!("expected an object"),
    }
}

#[test]
fn duplicate_keys_last_write_wins() {
    let doc = object(&[("a", num("1")), ("a", num("2"))]);
    match decode(&doc).unwrap() {
        Value::Object(entries) => {
            assert_eq!(entries.len(), 1);
            assert_eq!(entries[0].0, "a");
            assert_eq!(string_of(&entries[0].1), "2");
        }
        _ => panic!("expected an object"),
    }
}

#[test]
fn duplicate_key_keeps_first_position() {
    let doc = object(&[("a", num("1")), ("b", num("2")), ("a", num("3"))]);
    match decode(&doc).unwrap() {
        Value::Object(entries) => {
            assert_eq!(entries.len(), 2);
            assert_eq!(entries[0].0, "a");
            assert_eq!(string_of(&entries[0].1), "3");
            assert_eq!(entries[1].0, "b");
        }
        _ => panic!("expected an object"),
    }
}

#[test]
fn empty_containers() {
    match decode(&array(&[])).unwrap() {
        Value::Array(items) => assert!(items.is_empty()),
        _ => panic!("expected an array"),
    }
    match decode(&object(&[])).unwrap() {
        Value::Object(entries) => assert!(entries.is_empty()),
        _ => panic!("expected an object"),
    }
    let doc = array(&[]);
    let mut it = JsonbIterator::new(&doc);
    assert!(matches!(it.next(JsonbTraversal::StepInto), Ok(JsonbToken::BeginArray(0))));
    assert!(matches!(it.next(JsonbTraversal::StepInto), Ok(JsonbToken::EndArray)));
    assert!(matches!(it.next(JsonbTraversal::StepInto), Ok(JsonbToken::Done)));
    let doc = object(&[]);
    let mut it = JsonbIterator::new(&doc);
    assert!(matches!(it.next(JsonbTraversal::StepInto), Ok(JsonbToken::BeginObject(0))));
    assert!(matches!(it.next(JsonbTraversal::StepInto), Ok(JsonbToken::EndObject)));
    assert!(matches!(it.next(JsonbTraversal::StepInto), Ok(JsonbToken::Done)));
}

#[test]
fn malformed_input_fails() {
    assert_eq!(decode(&[]).unwrap_err(), DecodeError::MalformedEncoding);
    assert_eq!(decode(&[9]).unwrap_err(), DecodeError::MalformedEncoding);
    assert_eq!(decode(&[4, 5, 0, 0, 0, b'a']).unwrap_err(), DecodeError::MalformedEncoding);
    assert_eq!(decode(&[5, 2, 0, 0, 0, 0]).unwrap_err(), DecodeError::MalformedEncoding);
    assert_eq!(decode(&[5, 0, 0]).unwrap_err(), DecodeError::MalformedEncoding);
    // a count larger than the bytes that follow
    assert_eq!(decode(&[5, 0xff, 0xff, 0, 0, 0]).unwrap_err(), DecodeError::MalformedEncoding);
    // trailing bytes after the document
    assert_eq!(decode(&[0, 0]).unwrap_err(), DecodeError::MalformedEncoding);
    // an object key that is not a string
    assert_eq!(decode(&[6, 1, 0, 0, 0, 0, 0]).unwrap_err(), DecodeError::MalformedEncoding);
}

#[test]
fn invalid_text_fails() {
    assert_eq!(decode(&[4, 1, 0, 0, 0, 0xff]).unwrap_err(), DecodeError::InvalidTextEncoding);
    let mut doc = vec![6u8, 1, 0, 0, 0, 4, 1, 0, 0, 0, 0xc3];
    doc.push(0);
    assert_eq!(decode(&doc).unwrap_err(), DecodeError::InvalidTextEncoding);
}

#[test]
fn datetime_is_unimplemented() {
    assert_eq!(decode(&[7, 0, 0, 0, 0, 0, 0, 0, 0]).unwrap_err(), DecodeError::UnimplementedScalarKind);
}

#[test]
fn numeric_digits_kept_exactly() {
    let v = decode(&num("0.1000")).unwrap();
    assert!(matches!(v, Value::Number(_)));
    assert_eq!(string_of(&v), "0.1000");
    let v = decode(&array(&[num("1.50")])).unwrap();
    match v {
        Value::Array(items) => assert_eq!(string_of(&items[0]), "1.50"),
        _ => panic!("expected an array"),
    }
}

#[test]
fn skip_over_resumes_at_sibling() {
    let doc = array(&[num("1"), object(&[("a", num("2"))]), num("3")]);
    let mut it = JsonbIterator::new(&doc);
    assert!(matches!(it.next(JsonbTraversal::StepInto), Ok(JsonbToken::BeginArray(3))));
    match it.next(JsonbTraversal::SkipOver) {
        Ok(JsonbToken::Elem(JsonbScalar::Number(n))) => assert_eq!(n.digits, b"1"),
        _ => panic!("expected the first element"),
    }
    assert!(matches!(
        it.next(JsonbTraversal::SkipOver),
        Ok(JsonbToken::Skipped { object: true, count: 1 })
    ));
    match it.next(JsonbTraversal::SkipOver) {
        Ok(JsonbToken::Elem(JsonbScalar::Number(n))) => assert_eq!(n.digits, b"3"),
        _ => panic!("expected the last element"),
    }
    assert!(matches!(it.next(JsonbTraversal::SkipOver), Ok(JsonbToken::EndArray)));
    assert!(matches!(it.next(JsonbTraversal::SkipOver), Ok(JsonbToken::Done)));
}

#[test]
fn skip_over_truncated_subtree_fails() {
    let mut doc = array(&[array(&[num("1"), num("2")])]);
    doc.truncate(doc.len() - 2);
    let mut it = JsonbIterator::new(&doc);
    assert!(matches!(it.next(JsonbTraversal::StepInto), Ok(JsonbToken::BeginArray(1))));
    assert_eq!(it.next(JsonbTraversal::SkipOver).unwrap_err(), DecodeError::MalformedEncoding);
}

#[test]
fn token_counts_match_begin() {
    let doc = array(&[num("1"), array(&[vec![0], vec![1]]), object(&[("k", vec![2])])]);
    let mut it = JsonbIterator::new(&doc);
    let mut counts: Vec<(usize, usize)> = Vec::new();
    loop {
        match it.next(JsonbTraversal::StepInto).unwrap() {
            JsonbToken::BeginArray(n) | JsonbToken::BeginObject(n) => {
                if let Some(top) = counts.last_mut() {
                    top.1 += 1;
                }
                counts.push((n, 0));
            }
            JsonbToken::Elem(_) | JsonbToken::Value(_) => {
                counts.last_mut().unwrap().1 += 1;
            }
            JsonbToken::Key(_) => {}
            JsonbToken::EndArray | JsonbToken::EndObject => {
                let (n, seen) = counts.pop().unwrap();
                assert_eq!(n, seen);
            }
            JsonbToken::Skipped { .. } => panic!("nothing was skipped"),
            JsonbToken::Done => break,
        }
    }
    assert!(counts.is_empty());
}

#[test]
fn builder_rejects_misplaced_tokens() {
    let mut b = TreeBuilder::new();
    assert_eq!(b.end_array().unwrap_err(), DecodeError::UnexpectedToken);
    let mut b = TreeBuilder::new();
    b.begin_object(1).unwrap();
    assert_eq!(b.elem(JsonbScalar::Null).unwrap_err(), DecodeError::UnexpectedToken);
    assert_eq!(b.value(JsonbScalar::Null).unwrap_err(), DecodeError::UnexpectedToken);
    let b = TreeBuilder::new();
    assert_eq!(b.done().unwrap_err(), DecodeError::IncompleteDocument);
    let mut b = TreeBuilder::new();
    b.begin_array(0).unwrap();
    assert_eq!(b.done().unwrap_err(), DecodeError::IncompleteDocument);
}

#[test]
fn is_object_classifies_root() {
    assert!(decode(&object(&[])).unwrap().is_object());
    assert!(!decode(&array(&[])).unwrap().is_object());
}

#[test]
fn round_trip_keeps_structure_and_digits() {
    let doc = object(&[
        ("z", num("1.50")),
        ("a", array(&[text(""), num("-0.1000"), object(&[])])),
        ("m", vec![1]),
    ]);
    match decode(&doc).unwrap() {
        Value::Object(entries) => {
            let keys: Vec<&str> = entries.iter().map(|e| e.0.as_str()).collect();
            assert_eq!(keys, vec!["z", "a", "m"]);
            assert_eq!(string_of(&entries[0].1), "1.50");
            match &entries[1].1 {
                Value::Array(items) => {
                    assert_eq!(items.len(), 3);
                    assert_eq!(string_of(&items[0]), "");
                    assert_eq!(string_of(&items[1]), "-0.1000");
                    assert!(matches!(&items[2], Value::Object(e) if e.is_empty()));
                }
                _ => panic!("expected an array"),
            }
            assert!(matches!(entries[2].1, Value::Bool(false)));
        }
        _ => panic!("expected an object"),
    }
}

#[test]
fn scalar_views_borrow_buffer_bytes() {
    let doc = array(&[text("key"), num("42")]);
    let mut it = JsonbIterator::new(&doc);
    it.next(JsonbTraversal::StepInto).unwrap();
    match it.next(JsonbTraversal::StepInto).unwrap() {
        JsonbToken::Elem(JsonbScalar::String(s)) => assert_eq!(s.as_bytes(), b"key"),
        _ => panic!("expected a string"),
    }
    match it.next(JsonbTraversal::StepInto).unwrap() {
        JsonbToken::Elem(JsonbScalar::Number(n)) => assert_eq!(n.as_bytes(), b"42"),
        _ => panic!("expected a number"),
    }
}

#[test]
fn done_repeats_after_end() {
    let doc = vec![0u8];
    let mut it = JsonbIterator::new(&doc);
    assert!(matches!(it.next(JsonbTraversal::StepInto), Ok(JsonbToken::Value(JsonbScalar::Null))));
    assert!(matches!(it.next(JsonbTraversal::StepInto), Ok(JsonbToken::Done)));
    assert!(matches!(it.next(JsonbTraversal::StepInto), Ok(JsonbToken::Done)));
}
