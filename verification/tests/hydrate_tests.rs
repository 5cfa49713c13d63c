use pgstacrs::{hydrate, magic_marker, Member, MergeError, TreeValue};

fn num(s: &str) -> TreeValue {
    TreeValue::Number(String::from(s))
}

fn text(s: &str) -> TreeValue {
    TreeValue::Text(String::from(s))
}

fn obj(members: Vec<(&str, TreeValue)>) -> TreeValue {
    TreeValue::Object(
        members
            .into_iter()
            .map(|(k, v)| Member {
                key: String::from(k),
                value: v,
            })
            .collect(),
    )
}

fn arr(elems: Vec<TreeValue>) -> TreeValue {
    TreeValue::Array(elems)
}

fn marker() -> TreeValue {
    TreeValue::Text(magic_marker())
}

#[test]
fn null_base_is_identity() {
    let item = obj(vec![
        ("a", num("1")),
        ("b", arr(vec![text("x"), TreeValue::Null])),
    ]);
    let expected = obj(vec![
        ("a", num("1")),
        ("b", arr(vec![text("x"), TreeValue::Null])),
    ]);
    assert_eq!(hydrate(&TreeValue::Null, &item), Ok(expected));
}

#[test]
fn base_fills_missing_keys_in_base_order() {
    let base = obj(vec![("a", num("1")), ("b", num("2"))]);
    let item = obj(vec![]);
    let expected = obj(vec![("a", num("1")), ("b", num("2"))]);
    assert_eq!(hydrate(&base, &item), Ok(expected));
}

#[test]
fn item_values_take_precedence() {
    let base = obj(vec![("a", num("1")), ("b", num("2"))]);
    let item = obj(vec![("a", num("5"))]);
    let expected = obj(vec![("a", num("5")), ("b", num("2"))]);
    assert_eq!(hydrate(&base, &item), Ok(expected));
}

#[test]
fn tombstone_suppresses_base_key() {
    let base = obj(vec![("a", num("1")), ("b", num("2"))]);
    let item = obj(vec![("a", marker())]);
    let expected = obj(vec![("b", num("2"))]);
    assert_eq!(hydrate(&base, &item), Ok(expected));
}

#[test]
fn arrays_truncate_to_item_length() {
    let base = arr(vec![num("1"), num("2"), num("3")]);
    let item = arr(vec![num("10")]);
    let expected = arr(vec![num("10")]);
    assert_eq!(hydrate(&base, &item), Ok(expected));
}

#[test]
fn arrays_merge_elementwise() {
    let base = arr(vec![
        obj(vec![("a", num("1"))]),
        obj(vec![("a", num("2")), ("x", num("0"))]),
    ]);
    let item = arr(vec![obj(vec![]), obj(vec![("x", num("9"))])]);
    let expected = arr(vec![
        obj(vec![("a", num("1"))]),
        obj(vec![("x", num("9")), ("a", num("2"))]),
    ]);
    assert_eq!(hydrate(&base, &item), Ok(expected));
}

#[test]
fn nested_type_mismatch_is_reported() {
    let base = obj(vec![("a", num("1"))]);
    let item = obj(vec![("a", arr(vec![num("1"), num("2")]))]);
    let expected = MergeError::TypeMismatch {
        base: num("1"),
        item: arr(vec![num("1"), num("2")]),
    };
    assert_eq!(hydrate(&base, &item), Err(expected));
}

#[test]
fn top_level_type_mismatch_is_reported() {
    let base = arr(vec![num("1"), num("2")]);
    let item = obj(vec![("a", num("1"))]);
    let expected = MergeError::TypeMismatch {
        base: arr(vec![num("1"), num("2")]),
        item: obj(vec![("a", num("1"))]),
    };
    assert_eq!(hydrate(&base, &item), Err(expected));
}

#[test]
fn scalar_item_wins_unconditionally() {
    let base = num("42");
    let item = text("hello");
    assert_eq!(hydrate(&base, &item), Ok(text("hello")));
}

#[test]
fn null_item_wins_over_scalar_base() {
    let base = num("42");
    let item = TreeValue::Null;
    assert_eq!(hydrate(&base, &item), Ok(TreeValue::Null));
}

#[test]
fn self_hydration_changes_nothing() {
    let x = obj(vec![
        ("id", text("item-1")),
        ("tags", arr(vec![text("red"), text("blue")])),
        (
            "properties",
            obj(vec![("depth", num("3")), ("flag", TreeValue::Bool(true))]),
        ),
    ]);
    let same = obj(vec![
        ("id", text("item-1")),
        ("tags", arr(vec![text("red"), text("blue")])),
        (
            "properties",
            obj(vec![("depth", num("3")), ("flag", TreeValue::Bool(true))]),
        ),
    ]);
    assert_eq!(hydrate(&x, &x), Ok(same));
}

#[test]
fn marker_without_base_key_stays_literal() {
    let base = obj(vec![("b", num("2"))]);
    let item = obj(vec![("a", marker())]);
    let expected = obj(vec![("a", marker()), ("b", num("2"))]);
    assert_eq!(hydrate(&base, &item), Ok(expected));
}

#[test]
fn marker_in_array_position_stays_literal() {
    let base = arr(vec![num("1")]);
    let item = arr(vec![marker()]);
    let expected = arr(vec![marker()]);
    assert_eq!(hydrate(&base, &item), Ok(expected));
}

#[test]
fn item_array_longer_than_base_keeps_tail() {
    let base = arr(vec![obj(vec![("a", num("1"))])]);
    let item = arr(vec![obj(vec![]), obj(vec![("b", num("2"))])]);
    let expected = arr(vec![obj(vec![("a", num("1"))]), obj(vec![("b", num("2"))])]);
    assert_eq!(hydrate(&base, &item), Ok(expected));
}

#[test]
fn deep_merge_combines_nested_objects() {
    let base = obj(vec![(
        "properties",
        obj(vec![("datetime", text("2020-01-01")), ("gsd", num("10"))]),
    )]);
    let item = obj(vec![(
        "properties",
        obj(vec![("datetime", text("2021-06-01"))]),
    )]);
    let expected = obj(vec![(
        "properties",
        obj(vec![("datetime", text("2021-06-01")), ("gsd", num("10"))]),
    )]);
    assert_eq!(hydrate(&base, &item), Ok(expected));
}

#[test]
fn mismatch_deep_in_array_aborts_merge() {
    let base = arr(vec![num("1"), obj(vec![("a", arr(vec![num("7")]))])]);
    let item = arr(vec![num("5"), obj(vec![("a", obj(vec![]))])]);
    let expected = MergeError::TypeMismatch {
        base: arr(vec![num("7")]),
        item: obj(vec![]),
    };
    assert_eq!(hydrate(&base, &item), Err(expected));
}

#[test]
fn marker_text_is_the_reserved_two_codepoints() {
    assert_eq!(magic_marker(), String::from("\u{1235F}\u{203B}"));
}

#[test]
fn empty_arrays_merge_to_empty() {
    assert_eq!(hydrate(&arr(vec![]), &arr(vec![])), Ok(arr(vec![])));
}

#[test]
fn empty_base_object_leaves_item_alone() {
    let base = obj(vec![]);
    let item = obj(vec![("a", num("1"))]);
    assert_eq!(hydrate(&base, &item), Ok(obj(vec![("a", num("1"))])));
}

#[test]
fn hydrated_result_rehydrates_with_itself_unchanged() {
    let base = obj(vec![("a", num("1")), ("b", obj(vec![("c", num("2"))]))]);
    let item = obj(vec![("b", obj(vec![("d", num("3"))]))]);
    let r = hydrate(&base, &item).unwrap();
    assert_eq!(hydrate(&r, &r), Ok(r.clone()));
}

#[test]
fn base_object_null_means_no_contribution() {
    let item = arr(vec![obj(vec![("k", text("v"))])]);
    let expected = arr(vec![obj(vec![("k", text("v"))])]);
    assert_eq!(hydrate(&TreeValue::Null, &item), Ok(expected));
}
