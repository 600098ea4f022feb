use kcl_plan::json::{kwargs_to_opts, JsonEncodeOptions};
use kcl_plan::plan::{Context, PlanOptions};
use kcl_plan::value::ValueRef;

fn s(x: &str) -> String {
    x.to_string()
}

fn dict(entries: Vec<(&str, ValueRef)>) -> ValueRef {
    ValueRef::Dict(entries.into_iter().map(|(k, v)| (s(k), v)).collect())
}

#[test]
fn plan_writes_json_list_and_yaml_stream() {
    let root = ValueRef::List(vec![dict(vec![("k1", ValueRef::Int(1))]), dict(vec![("k2", ValueRef::Str(s("a\"b")))])]);
    let (json, yaml) = root.plan(&Context::new(), &PlanOptions::default());
    assert_eq!(json, "[{\"k1\":1},{\"k2\":\"a\\\"b\"}]");
    assert_eq!(yaml, "\"k1\": 1---\n\"k2\": \"a\\\"b\"");
}

#[test]
fn plan_of_scalar_is_direct() {
    let (json, yaml) = ValueRef::Int(-42).plan(&Context::new(), &PlanOptions::default());
    assert_eq!(json, "-42");
    assert_eq!(yaml, "-42\n");
}

#[test]
fn nested_yaml_blocks() {
    let root = dict(vec![
        ("a", dict(vec![("b", ValueRef::Bool(true))])),
        ("l", ValueRef::List(vec![ValueRef::Int(1), ValueRef::Null])),
    ]);
    assert_eq!(
        root.plan_to_yaml_string(&Context::new()),
        "\"a\":\n  \"b\": true\n\"l\":\n  - 1\n  - null\n"
    );
}

#[test]
fn yaml_with_delimiter_keeps_newlines() {
    let root = ValueRef::List(vec![dict(vec![("a", ValueRef::Int(1))]), dict(vec![("b", ValueRef::Int(2))])]);
    assert_eq!(root.plan_to_yaml_string_with_delimiter(&Context::new()), "\"a\": 1\n---\n\"b\": 2\n");
}

#[test]
fn json_string_of_simplified_filter() {
    let root = dict(vec![("a", ValueRef::Undefined), ("b", ValueRef::List(vec![ValueRef::Func(s("f")), ValueRef::Int(5)]))]);
    assert_eq!(root.plan_to_json_string(&Context::new()), "{\"b\":[5]}");
    assert_eq!(dict(vec![("a", ValueRef::Undefined)]).plan_to_json_string(&Context::new()), "");
}

#[test]
fn json_escapes_control_characters() {
    let (json, _) = ValueRef::Str(s("x\n\u{1}")).plan(&Context::new(), &PlanOptions::default());
    assert_eq!(json, "\"x\\n\\u0001\"");
}

#[test]
fn int_extremes() {
    let (json, _) = ValueRef::Int(i64::MIN).plan(&Context::new(), &PlanOptions::default());
    assert_eq!(json, "-9223372036854775808");
    let (json, _) = ValueRef::Int(0).plan(&Context::new(), &PlanOptions::default());
    assert_eq!(json, "0");
}

#[test]
fn plan_sorts_keys_when_asked() {
    let root = dict(vec![("b", ValueRef::Int(1)), ("a", dict(vec![("z", ValueRef::Int(2)), ("y", ValueRef::Int(3))]))]);
    let opts = PlanOptions { sort_keys: true, include_schema_type_path: false };
    let (json, yaml) = root.plan(&Context::new(), &opts);
    assert_eq!(json, "[{\"a\":{\"y\":3,\"z\":2},\"b\":1}]");
    assert_eq!(yaml, "\"a\":\n  \"y\": 3\n  \"z\": 2\n\"b\": 1");
    let (json, _) = root.plan(&Context::new(), &PlanOptions::default());
    assert_eq!(json, "[{\"b\":1,\"a\":{\"z\":2,\"y\":3}}]");
}

#[test]
fn kwargs_are_read_by_type() {
    let kwargs = dict(vec![
        ("sort_keys", ValueRef::Bool(true)),
        ("indent", ValueRef::Int(4)),
        ("ignore_none", ValueRef::Str(s("yes"))),
        ("other", ValueRef::Int(1)),
    ]);
    assert_eq!(
        kwargs_to_opts(&kwargs),
        JsonEncodeOptions { sort_keys: true, indent: 4, ignore_private: false, ignore_none: false }
    );
    assert_eq!(kwargs_to_opts(&dict(vec![])), JsonEncodeOptions::default());
}
