use kcl_plan::plan::{filter_results, Context, PlanOptions};
use kcl_plan::value::{SchemaValue, ValueRef};

fn s(x: &str) -> String {
    x.to_string()
}

fn dict(entries: Vec<(&str, ValueRef)>) -> ValueRef {
    ValueRef::Dict(entries.into_iter().map(|(k, v)| (s(k), v)).collect())
}

fn dict_int(entries: &[(&str, i64)]) -> ValueRef {
    dict(entries.iter().map(|(k, v)| (*k, ValueRef::Int(*v))).collect())
}

fn schema(output_type: &str, config: Vec<(&str, ValueRef)>) -> ValueRef {
    let settings = dict(vec![("output_type", ValueRef::Str(s(output_type)))]);
    ValueRef::Schema(SchemaValue {
        name: s("Data"),
        pkgpath: s("__main__"),
        config: config.into_iter().map(|(k, v)| (s(k), v)).collect(),
        meta: vec![(s("settings"), settings)],
    })
}

fn plan(v: &ValueRef) -> Vec<ValueRef> {
    filter_results(&Context::new(), v, &PlanOptions::default())
}

#[test]
fn test_filter_results() {
    let ctx = Context::new();
    let dict1 = dict_int(&[("k1", 1)]);
    let dict2 = dict_int(&[("k2", 2)]);
    let dict3 = dict_int(&[("k3", 3)]);
    let dict_list = vec![&dict1, &dict2, &dict3];
    let list_data = ValueRef::List(dict_list.iter().map(|v| v.deep_copy()).collect());
    assert_eq!(
        filter_results(&ctx, &list_data, &PlanOptions::default()),
        dict_list.iter().map(|v| v.deep_copy()).collect::<Vec<ValueRef>>()
    );
    for d in dict_list {
        assert_eq!(filter_results(&ctx, d, &PlanOptions::default()), vec![d.deep_copy()]);
    }
}

#[test]
fn test_filter_by_path() {
    let d = dict_int(&[("k1", 1)]);
    assert_eq!(d.filter_by_path(&[]).unwrap(), dict_int(&[("k1", 1)]));
    assert_eq!(d.filter_by_path(&[s("k1")]).unwrap(), ValueRef::Int(1));
    assert_eq!(
        d.filter_by_path(&[s("k1"), s("k1")]).unwrap(),
        ValueRef::List(vec![ValueRef::Int(1), ValueRef::Int(1)])
    );
    assert_eq!(
        d.filter_by_path(&[s("err_path")]).err().unwrap(),
        "invalid path select operand err_path, value not found"
    );
    assert_eq!(
        d.filter_by_path(&[s("err_path.to")]).err().unwrap(),
        "invalid path select operand err_path.to, value not found"
    );
}

#[test]
fn filter_by_path_nested_and_second_missing() {
    let d = dict(vec![("a", dict_int(&[("b", 7)]))]);
    assert_eq!(d.filter_by_path(&[s("a.b")]).unwrap(), ValueRef::Int(7));
    assert_eq!(
        d.filter_by_path(&[s("a.b"), s("a.c")]).err().unwrap(),
        "invalid path select operand a.c, value not found"
    );
    assert_eq!(ValueRef::Int(3).filter_by_path(&[s("a")]).unwrap(), ValueRef::Int(3));
}

#[test]
fn drops_undefined_and_private() {
    let root = dict(vec![("a", ValueRef::Undefined), ("_b", ValueRef::Int(2)), ("c", ValueRef::Int(3))]);
    assert_eq!(plan(&root), vec![dict_int(&[("c", 3)])]);
}

#[test]
fn standalone_schema_is_promoted() {
    let root = dict(vec![
        ("x", schema("standalone", vec![("n", ValueRef::Int(1))])),
        ("y", ValueRef::Int(2)),
    ]);
    assert_eq!(plan(&root), vec![dict_int(&[("y", 2)]), dict_int(&[("n", 1)])]);
}

#[test]
fn ignore_schema_keeps_derived_standalones() {
    let inner = schema("standalone", vec![("n", ValueRef::Int(1))]);
    let root = dict(vec![("x", schema("ignore", vec![("inner", inner)]))]);
    assert_eq!(plan(&root), vec![dict(vec![]), dict_int(&[("n", 1)])]);
}

#[test]
fn standalone_schema_inside_list() {
    let root = dict(vec![(
        "xs",
        ValueRef::List(vec![schema("standalone", vec![("n", ValueRef::Int(1))]), dict_int(&[("m", 2)])]),
    )]);
    assert_eq!(
        plan(&root),
        vec![dict(vec![("xs", ValueRef::List(vec![dict_int(&[("m", 2)])]))]), dict_int(&[("n", 1)])]
    );
}

#[test]
fn ignore_schema_without_standalones_gives_nothing() {
    let root = dict(vec![("x", schema("ignore", vec![("n", ValueRef::Int(1))]))]);
    assert_eq!(plan(&root), vec![dict(vec![])]);
}

#[test]
fn empty_list_follows_disable_empty_list() {
    let root = dict(vec![("xs", ValueRef::List(vec![]))]);
    assert_eq!(plan(&root), vec![dict(vec![("xs", ValueRef::List(vec![]))])]);
    let mut ctx = Context::new();
    ctx.cfg.disable_empty_list = true;
    assert_eq!(filter_results(&ctx, &root, &PlanOptions::default()), vec![dict(vec![])]);
}

#[test]
fn null_follows_disable_none() {
    let root = dict(vec![("a", ValueRef::Null), ("b", ValueRef::Int(1))]);
    assert_eq!(plan(&root), vec![dict(vec![("a", ValueRef::Null), ("b", ValueRef::Int(1))])]);
    let mut ctx = Context::new();
    ctx.cfg.disable_none = true;
    assert_eq!(filter_results(&ctx, &root, &PlanOptions::default()), vec![dict_int(&[("b", 1)])]);
}

#[test]
fn scalars_in_list_are_kept_and_functions_dropped() {
    let root = dict(vec![(
        "xs",
        ValueRef::List(vec![ValueRef::Int(1), ValueRef::Func(s("f")), ValueRef::Str(s("a")), ValueRef::Undefined]),
    )]);
    assert_eq!(
        plan(&root),
        vec![dict(vec![("xs", ValueRef::List(vec![ValueRef::Int(1), ValueRef::Str(s("a"))]))])]
    );
}

#[test]
fn empty_schema_is_dropped() {
    let root = dict(vec![("x", schema("standalone", vec![("_p", ValueRef::Int(1))])), ("y", ValueRef::Int(2))]);
    assert_eq!(plan(&root), vec![dict_int(&[("y", 2)])]);
}

#[test]
fn type_path_is_written_when_asked() {
    let settings = dict(vec![("schema_type", ValueRef::Str(s("pkg.mod.Person")))]);
    let person = ValueRef::Schema(SchemaValue {
        name: s("Person"),
        pkgpath: s("pkg.mod"),
        config: vec![(s("age"), ValueRef::Int(3))],
        meta: vec![(s("settings"), settings)],
    });
    let root = dict(vec![("p", person)]);
    let opts = PlanOptions { sort_keys: false, include_schema_type_path: true };
    assert_eq!(
        filter_results(&Context::new(), &root, &opts),
        vec![dict(vec![("p", dict(vec![("age", ValueRef::Int(3)), ("_type", ValueRef::Str(s("Person")))]))])]
    );
}

#[test]
fn scalar_root_plans_to_nothing() {
    assert_eq!(plan(&ValueRef::Int(1)), Vec::<ValueRef>::new());
}

#[test]
fn output_has_no_forbidden_leaves() {
    let root = dict(vec![
        ("a", ValueRef::List(vec![ValueRef::Undefined, ValueRef::Func(s("f")), dict(vec![("_x", ValueRef::Int(1)), ("y", ValueRef::Undefined)])])),
        ("b", dict(vec![("_c", ValueRef::Int(2)), ("d", ValueRef::Func(s("g")))])),
    ]);
    assert_eq!(
        plan(&root),
        vec![dict(vec![("a", ValueRef::List(vec![dict(vec![])])), ("b", dict(vec![]))])]
    );
}

#[test]
fn inline_keys_keep_insertion_order() {
    let root = dict(vec![("z", ValueRef::Int(1)), ("_p", ValueRef::Int(0)), ("a", ValueRef::Int(2)), ("m", ValueRef::Int(3))]);
    assert_eq!(plan(&root), vec![dict_int(&[("z", 1), ("a", 2), ("m", 3)])]);
}

#[test]
fn nested_standalone_documents_are_counted() {
    let inner = schema("standalone", vec![("k", ValueRef::Int(9))]);
    let outer = schema("standalone", vec![("n", ValueRef::Int(1)), ("in", inner)]);
    let root = dict(vec![("x", outer), ("y", dict(vec![("z", ValueRef::List(vec![ValueRef::Int(1)]))]))]);
    let docs = plan(&root);
    assert_eq!(docs.len(), 3);
    assert_eq!(docs[0], dict(vec![("y", dict(vec![("z", ValueRef::List(vec![ValueRef::Int(1)]))]))]));
    assert_eq!(docs[1], dict_int(&[("n", 1)]));
    assert_eq!(docs[2], dict_int(&[("k", 9)]));
}

#[test]
fn schema_free_dict_is_one_document() {
    let root = dict(vec![("a", dict(vec![("b", ValueRef::List(vec![ValueRef::List(vec![ValueRef::Int(1)])]))]))]);
    let docs = plan(&root);
    assert_eq!(docs.len(), 1);
    assert_eq!(docs[0], root.deep_copy());
}

#[test]
fn type_path_without_dot_falls_back_to_type_name() {
    let settings = dict(vec![("schema_type", ValueRef::Str(s("Person")))]);
    let person = ValueRef::Schema(SchemaValue {
        name: s("Human"),
        pkgpath: s("pkg"),
        config: vec![(s("age"), ValueRef::Int(3))],
        meta: vec![(s("settings"), settings)],
    });
    assert_eq!(kcl_plan::plan::value_type_path(&person), "Human");
    let root = dict(vec![("p", person)]);
    let opts = PlanOptions { sort_keys: false, include_schema_type_path: true };
    assert_eq!(
        filter_results(&Context::new(), &root, &opts),
        vec![dict(vec![("p", dict(vec![("age", ValueRef::Int(3)), ("_type", ValueRef::Str(s("Human")))]))])]
    );
}

#[test]
fn simplified_filter_drops_null_in_schema_payload() {
    let sch = ValueRef::Schema(SchemaValue {
        name: s("S"),
        pkgpath: s("pkg"),
        config: vec![(s("a"), ValueRef::Null), (s("b"), ValueRef::Int(1))],
        meta: vec![],
    });
    let mut ctx = Context::new();
    ctx.cfg.disable_none = true;
    let expected = ValueRef::Schema(SchemaValue {
        name: s("S"),
        pkgpath: s("pkg"),
        config: vec![(s("b"), ValueRef::Int(1))],
        meta: vec![],
    });
    assert_eq!(sch.filter_results(&ctx), expected);
    assert_eq!(sch.filter_results(&Context::new()), sch.deep_copy());
}
