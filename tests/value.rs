use json_toolkit::value::parse_index;
use json_toolkit::{Error, Pointer, Value, ValueExt};

fn s(x: &str) -> Value {
    Value::String(x.to_string())
}

fn n(x: i64) -> Value {
    Value::Number(x.to_string())
}

fn arr(items: Vec<Value>) -> Value {
    Value::Array(items)
}

fn obj(entries: Vec<(&str, Value)>) -> Value {
    Value::Object(entries.into_iter().map(|(k, v)| (k.to_string(), v)).collect())
}

fn lookup_sample() -> Value {
    obj(vec![("foo", s("bar")), ("zoo", obj(vec![("id", arr(vec![n(1), n(2), n(3)]))]))])
}

fn insert_sample() -> Value {
    obj(vec![("foo", obj(vec![("bar", s("zoo"))]))])
}

#[test]
fn mod_it_looks_up_values_by_json_pointer() -> Result<(), Error> {
    let mut value = lookup_sample();
    let tests = [("", lookup_sample()), ("/foo", s("bar")), ("/zoo/id/0", n(1))];

    for (p, mut expected_value) in tests {
        let pointer = Pointer::new(p)?;

        let pointee_value = value.pointer(&pointer);
        assert_eq!(pointee_value, Some(&expected_value));

        let pointee_value = value.pointer_mut(&pointer);
        assert_eq!(pointee_value, Some(&mut expected_value));
    }

    Ok(())
}

#[test]
fn mod_it_inserts_value_at_pointee_json_value() -> Result<(), Error> {
    let tests = [
        (obj(vec![("foo", obj(vec![("bar", s("zoo")), ("test", n(42))]))]), "/foo/test", 42),
        (obj(vec![("foo", obj(vec![("bar", s("zoo"))])), ("test", n(21))]), "/test", 21),
    ];

    for (expected_value, p, new_value) in tests {
        let mut value = insert_sample();
        let old_value = value.insert_at(&Pointer::new(p)?, n(new_value))?;

        assert_eq!(old_value, None);
        assert_eq!(value, expected_value);
    }

    Ok(())
}

#[test]
fn mod_it_inserts_value_at_root_json_value() -> Result<(), Error> {
    let mut value = insert_sample();
    let new_value = s("test2");

    let expected_old_value = insert_sample();
    let old_value = value.insert_at(&Pointer::root(), new_value)?;

    assert_eq!(old_value, Some(expected_old_value));
    assert_eq!(value, s("test2"));

    Ok(())
}

#[test]
fn mod_it_fails_to_insert_value_at_non_existing_pointee_json_value() -> Result<(), Error> {
    let mut value = insert_sample();

    let result = value.insert_at(&Pointer::new("/foo/not_existing/zoo")?, n(42));

    assert_eq!(result, Err(Error::KeyNotFound));
    assert_eq!(value, insert_sample());

    Ok(())
}

#[test]
fn mod_it_fails_to_insert_value_at_json_scalar_value() -> Result<(), Error> {
    let mut value = obj(vec![("foo", obj(vec![("bar", s("zoo")), ("array", arr(vec![n(1), n(2), n(3)]))]))]);

    let tests = ["/foo/bar/zoo", "/foo/array/0"];

    for p in tests {
        let result = value.insert_at(&Pointer::new(p)?, n(42));

        assert_eq!(result, Err(Error::UnsupportedInsertion));
    }

    Ok(())
}

#[test]
fn missing_paths_resolve_to_nothing() -> Result<(), Error> {
    let mut value = lookup_sample();
    for p in ["/nope", "/foo/bar", "/zoo/id/3", "/zoo/id/x", "/zoo/id/-1", "/zoo/id/"] {
        let pointer = Pointer::new(p)?;
        assert_eq!(value.pointer(&pointer), None, "'{}'", p);
        assert_eq!(value.pointer_mut(&pointer), None, "'{}'", p);
    }
    assert_eq!(value, lookup_sample());
    assert_eq!(value.pointer(&Pointer::new("/zoo/id/2")?), Some(&n(3)));
    assert_eq!(value.pointer(&Pointer::new("/zoo/id/+1")?), Some(&n(2)));
    assert_eq!(value.pointer(&Pointer::new("/zoo/id/01")?), Some(&n(2)));
    Ok(())
}

#[test]
fn writes_through_pointer_mut_land_in_the_tree() -> Result<(), Error> {
    let mut value = lookup_sample();
    *value.pointer_mut(&Pointer::new("/zoo/id/1")?).unwrap() = s("two");
    assert_eq!(
        value,
        obj(vec![("foo", s("bar")), ("zoo", obj(vec![("id", arr(vec![n(1), s("two"), n(3)]))]))])
    );
    Ok(())
}

#[test]
fn escaped_tokens_address_escaped_keys() -> Result<(), Error> {
    let mut value = obj(vec![("a/b", n(1)), ("m~n", n(2))]);
    assert_eq!(value.pointer(&Pointer::new("/a~1b")?), Some(&n(1)));
    assert_eq!(value.pointer(&Pointer::new("/m~0n")?), Some(&n(2)));
    assert_eq!(value.insert_at(&Pointer::new("/c~1d")?, n(3))?, None);
    assert_eq!(value, obj(vec![("a/b", n(1)), ("m~n", n(2)), ("c/d", n(3))]));
    Ok(())
}

#[test]
fn overwriting_a_key_keeps_its_position_and_returns_the_old_value() -> Result<(), Error> {
    let mut value = obj(vec![("a", n(1)), ("b", n(2)), ("c", n(3))]);
    let old = value.insert_at(&Pointer::new("/a")?, s("x"))?;
    assert_eq!(old, Some(n(1)));
    assert_eq!(value, obj(vec![("a", s("x")), ("b", n(2)), ("c", n(3))]));
    Ok(())
}

#[test]
fn keyed_insert_needs_an_object() {
    let mut value = arr(vec![n(1)]);
    assert_eq!(value.insert("k".to_string(), n(2)), Err(Error::UnsupportedInsertion));
    assert_eq!(value, arr(vec![n(1)]));

    let mut scalar = Value::Null;
    assert_eq!(scalar.insert("k".to_string(), n(2)), Err(Error::UnsupportedInsertion));

    let mut object = obj(vec![]);
    assert_eq!(object.insert("k".to_string(), Value::Bool(true)), Ok(None));
    assert_eq!(object.insert("k".to_string(), Value::Null), Ok(Some(Value::Bool(true))));
    assert_eq!(object, obj(vec![("k", Value::Null)]));
}

#[test]
fn insertion_under_missing_deeper_ancestor_fails() -> Result<(), Error> {
    let mut value = insert_sample();
    assert_eq!(value.insert_at(&Pointer::new("/x/y")?, n(1)), Err(Error::KeyNotFound));
    assert_eq!(value.insert_at(&Pointer::new("/foo/bar")?, n(1))?, Some(s("zoo")));
    assert_eq!(value, obj(vec![("foo", obj(vec![("bar", n(1))]))]));
    Ok(())
}

#[test]
fn array_indices_follow_decimal_rules() {
    assert_eq!(parse_index("0"), Some(0));
    assert_eq!(parse_index("42"), Some(42));
    assert_eq!(parse_index("007"), Some(7));
    assert_eq!(parse_index("+5"), Some(5));
    assert_eq!(parse_index(""), None);
    assert_eq!(parse_index("+"), None);
    assert_eq!(parse_index("-1"), None);
    assert_eq!(parse_index("1a"), None);
    assert_eq!(parse_index(" 1"), None);
    assert_eq!(parse_index("18446744073709551615"), Some(usize::MAX));
    assert_eq!(parse_index("18446744073709551616"), None);
    assert_eq!(parse_index("99999999999999999999999"), None);
}

#[test]
fn inserted_value_is_found_at_its_pointer() -> Result<(), Error> {
    for p in ["/foo/test", "/foo/bar", "/top", "/foo/a~1b"] {
        let mut value = insert_sample();
        let pointer = Pointer::new(p)?;
        value.insert_at(&pointer, n(7))?;
        assert_eq!(value.pointer(&pointer), Some(&n(7)), "'{}'", p);
    }
    Ok(())
}
