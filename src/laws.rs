//! Properties of the planner over all inputs.
use vstd::prelude::*;
use crate::plan::{
    concat_filtered, entry_step, filtered, fold_entries, fold_list, handle, is_private,
    keep_nonempty, schema_like, set_key, ContextConfig, EntryAcc, PlanOptions,
};
use crate::value::{dict_set, distinct_keys, is_valid, key_pos, lemma_dict_set_distinct, lemma_key_pos_range, lookup, Val};

verus! {

broadcast use vstd::seq::group_seq_axioms;

pub open spec fn is_scalar(v: Val) -> bool {
    v is Bool || v is Int || v is Str
}

/// A plain dict: a well-formed dict with no private key, every value a
/// boolean, an integer or a string.
pub open spec fn is_clean_dict(v: Val) -> bool {
    &&& v is Dict
    &&& is_valid(v)
    &&& forall|i: int|
        0 <= i < v->Dict_0.len() ==> !is_private((#[trigger] v->Dict_0[i]).0) && is_scalar(
            v->Dict_0[i].1,
        )
}

proof fn lemma_key_pos_absent(es: Seq<(Seq<char>, Val)>, k: Seq<char>, i: int)
    requires
        0 <= i,
        forall|j: int| i <= j < es.len() ==> #[trigger] es[j].0 != k,
    ensures
        key_pos(es, k, i) == -1,
    decreases es.len() - i,
{
    if i < es.len() {
        lemma_key_pos_absent(es, k, i + 1);
    }
}

proof fn lemma_clean_fold(v: Val, n: nat, c: ContextConfig, o: PlanOptions)
    requires
        is_clean_dict(v),
        n <= v->Dict_0.len(),
    ensures
        fold_entries(v, n, c, o) == (v->Dict_0.subrange(0, n as int), Seq::<Val>::empty()),
    decreases n,
{
    let d = v->Dict_0;
    if n > 0 {
        lemma_clean_fold(v, (n - 1) as nat, c, o);
        let prev = d.subrange(0, n - 1);
        let e = d[n - 1];
        assert(!is_private(d[n - 1].0) && is_scalar(d[n - 1].1));
        assert(distinct_keys(d));
        assert forall|j: int| 0 <= j < prev.len() implies #[trigger] prev[j].0 != e.0 by {
            assert(d[j].0 != d[n - 1].0);
        }
        lemma_key_pos_absent(prev, e.0, 0);
        assert(!schema_like(e.1));
        assert(prev.push(e) =~= d.subrange(0, n as int));
        assert(dict_set(prev, e.0, e.1) == prev.push(e));
        assert(entry_step((prev, Seq::<Val>::empty()), e.0, e.1, c, o) == (prev.push(e), Seq::<Val>::empty()));
        assert(v.entries()[n - 1] == e);
    } else {
        assert(d.subrange(0, 0) =~= Seq::<(Seq<char>, Val)>::empty());
    }
}

/// Planning a list of plain dicts yields those same dicts, one document each.
pub proof fn law_clean_list_unchanged(docs: Seq<Val>, c: ContextConfig, o: PlanOptions)
    requires
        forall|i: int| 0 <= i < docs.len() ==> is_clean_dict(#[trigger] docs[i]),
    ensures
        filtered(Val::List(docs), c, o) == docs,
{
    let v = Val::List(docs);
    assert forall|n: nat| n <= docs.len() implies #[trigger] concat_filtered(v, n, c, o)
        == docs.subrange(0, n as int) by {
        lemma_clean_concat(docs, n, c, o);
    }
    lemma_clean_concat(docs, docs.len() as nat, c, o);
    assert(docs.subrange(0, docs.len() as int) =~= docs);
}

proof fn lemma_clean_concat(docs: Seq<Val>, n: nat, c: ContextConfig, o: PlanOptions)
    requires
        forall|i: int| 0 <= i < docs.len() ==> is_clean_dict(#[trigger] docs[i]),
        n <= docs.len(),
    ensures
        concat_filtered(Val::List(docs), n, c, o) == docs.subrange(0, n as int),
    decreases n,
{
    if n > 0 {
        lemma_clean_concat(docs, (n - 1) as nat, c, o);
        let x = docs[n - 1];
        assert(is_clean_dict(x));
        lemma_clean_fold(x, x->Dict_0.len() as nat, c, o);
        assert(x->Dict_0.subrange(0, x->Dict_0.len() as int) =~= x->Dict_0);
        assert(keep_nonempty(Seq::<Val>::empty()) == Seq::<Val>::empty());
        assert(filtered(x, c, o) =~= seq![x]);
        assert(docs.subrange(0, n as int) =~= docs.subrange(0, n - 1).push(x));
    } else {
        assert(docs.subrange(0, 0) =~= Seq::<Val>::empty());
    }
}

/// The keys of `es`, in order.
pub open spec fn keys_of(es: Seq<(Seq<char>, Val)>) -> Seq<Seq<char>> {
    Seq::new(es.len(), |i: int| es[i].0)
}

/// `a` can be had from `b` by leaving items out.
pub open spec fn is_subseq(a: Seq<Seq<char>>, b: Seq<Seq<char>>) -> bool
    decreases b.len(),
{
    if a.len() == 0 {
        true
    } else if b.len() == 0 {
        false
    } else if a.last() == b.last() && is_subseq(a.drop_last(), b.drop_last()) {
        true
    } else {
        is_subseq(a, b.drop_last())
    }
}

proof fn lemma_subseq_extend(a: Seq<Seq<char>>, b: Seq<Seq<char>>, x: Seq<char>)
    requires
        is_subseq(a, b),
    ensures
        is_subseq(a, b.push(x)),
{
    assert(b.push(x).drop_last() =~= b);
}

proof fn lemma_subseq_both(a: Seq<Seq<char>>, b: Seq<Seq<char>>, x: Seq<char>)
    requires
        is_subseq(a, b),
    ensures
        is_subseq(a.push(x), b.push(x)),
{
    assert(b.push(x).drop_last() =~= b);
    assert(a.push(x).drop_last() =~= a);
}

proof fn lemma_key_pos_same_keys(e1: Seq<(Seq<char>, Val)>, e2: Seq<(Seq<char>, Val)>, k: Seq<char>, i: int)
    requires
        keys_of(e1) == keys_of(e2),
    ensures
        key_pos(e1, k, i) == key_pos(e2, k, i),
    decreases e1.len() - i,
{
    assert(e1.len() == keys_of(e1).len());
    assert(e2.len() == keys_of(e2).len());
    if 0 <= i < e1.len() {
        assert(keys_of(e1)[i] == keys_of(e2)[i]);
        lemma_key_pos_same_keys(e1, e2, k, i + 1);
    }
}

proof fn lemma_key_pos_push(es: Seq<(Seq<char>, Val)>, k: Seq<char>, x: Val, i: int)
    requires
        0 <= i <= es.len(),
        key_pos(es, k, i) == -1,
    ensures
        key_pos(es.push((k, x)), k, i) == es.len(),
    decreases es.len() - i,
{
    if i < es.len() {
        lemma_key_pos_push(es, k, x, i + 1);
    }
}

proof fn lemma_dict_set_keys(es: Seq<(Seq<char>, Val)>, k: Seq<char>, x: Val)
    ensures
        key_pos(es, k, 0) >= 0 ==> keys_of(dict_set(es, k, x)) == keys_of(es),
        key_pos(es, k, 0) < 0 ==> keys_of(dict_set(es, k, x)) == keys_of(es).push(k),
        key_pos(dict_set(es, k, x), k, 0) >= 0,
{
    lemma_key_pos_range(es, k, 0);
    let r = dict_set(es, k, x);
    if key_pos(es, k, 0) >= 0 {
        assert(keys_of(r) =~= keys_of(es));
        lemma_key_pos_same_keys(r, es, k, 0);
    } else {
        assert(keys_of(r) =~= keys_of(es).push(k));
        lemma_key_pos_push(es, k, x, 0);
    }
}

/// One entry of a config-shaped value adds at most its own key to the inline document.
proof fn lemma_entry_keys(acc: EntryAcc, key: Seq<char>, val: Val, prefix: Seq<Seq<char>>, c: ContextConfig, o: PlanOptions)
    requires
        is_subseq(keys_of(acc.0), prefix),
    ensures
        is_subseq(keys_of(entry_step(acc, key, val, c, o).0), prefix.push(key)),
{
    let r0 = acc.0;
    let out = entry_step(acc, key, val, c, o).0;
    lemma_subseq_extend(keys_of(r0), prefix, key);
    lemma_subseq_both(keys_of(r0), prefix, key);
    if out != r0 {
        if (val is Null && c.disable_none) || is_private(key) || val is Undefined || val is Func {
        } else if schema_like(val) {
            let f = handle(val, c, o).0;
            if f.len() > 0 {
                lemma_dict_set_keys(r0, key, f[0]);
            }
        } else if val is Dict {
            let f = filtered(val, c, o);
            if f.len() > 0 {
                lemma_dict_set_keys(r0, key, f[0]);
            }
        } else if val is List {
            let items = val->List_0;
            let la = fold_list(val, items.len() as nat, c, o);
            let r0a = if items.len() == 0 && !c.disable_empty_list {
                dict_set(r0, key, Val::List(Seq::empty()))
            } else {
                r0
            };
            lemma_dict_set_keys(r0, key, Val::List(Seq::empty()));
            lemma_dict_set_keys(r0, key, Val::List(la.0));
            lemma_dict_set_keys(r0a, key, Val::List(la.0));
        } else {
            lemma_dict_set_keys(r0, key, val);
        }
    }
}

proof fn lemma_fold_keys(v: Val, n: nat, c: ContextConfig, o: PlanOptions)
    requires
        n <= v.entries().len(),
    ensures
        is_subseq(keys_of(fold_entries(v, n, c, o).0), keys_of(v.entries().subrange(0, n as int))),
    decreases n,
{
    if n > 0 {
        lemma_fold_keys(v, (n - 1) as nat, c, o);
        let e = v.entries()[n - 1];
        lemma_entry_keys(fold_entries(v, (n - 1) as nat, c, o), e.0, e.1, keys_of(v.entries().subrange(0, n - 1)), c, o);
        assert(keys_of(v.entries().subrange(0, n as int)) =~= keys_of(v.entries().subrange(0, n - 1)).push(e.0));
    } else {
        assert(keys_of(fold_entries(v, n, c, o).0) =~= Seq::<Seq<char>>::empty());
    }
}

/// For a config-shaped value, the keys of the inline document appear in
/// the order in which the value's own keys were inserted.
pub proof fn law_inline_key_order(v: Val, c: ContextConfig, o: PlanOptions)
    requires
        v.is_config(),
    ensures
        filtered(v, c, o).len() >= 1,
        filtered(v, c, o)[0] is Dict,
        is_subseq(keys_of(filtered(v, c, o)[0]->Dict_0), keys_of(v.entries())),
{
    lemma_fold_keys(v, v.entries().len() as nat, c, o);
    assert(v.entries().subrange(0, v.entries().len() as int) =~= v.entries());
}

/// A key that may stand in output: not private, or, when type paths are
/// written (`t`), the type-path key.
pub open spec fn key_allowed(k: Seq<char>, t: bool) -> bool {
    !is_private(k) || (t && k == "_type"@)
}

/// A value with no undefined value, function or schema instance anywhere
/// in it, whose dicts have distinct keys, none of them private but, when
/// `t`, the type-path key.
pub open spec fn is_plain(v: Val, t: bool) -> bool
    decreases v,
{
    match v {
        Val::Undefined | Val::Func | Val::Schema { .. } => false,
        Val::List(items) => forall|i: int| 0 <= i < items.len() ==> is_plain(#[trigger] items[i], t),
        Val::Dict(d) => distinct_keys(d) && forall|i: int|
            0 <= i < d.len() ==> key_allowed((#[trigger] d[i]).0, t) && is_plain(d[i].1, t),
        _ => true,
    }
}

pub open spec fn all_plain(s: Seq<Val>, t: bool) -> bool {
    forall|i: int| 0 <= i < s.len() ==> is_plain(#[trigger] s[i], t)
}

pub open spec fn plain_entries(es: Seq<(Seq<char>, Val)>, t: bool) -> bool {
    &&& distinct_keys(es)
    &&& forall|i: int| 0 <= i < es.len() ==> key_allowed((#[trigger] es[i]).0, t) && is_plain(es[i].1, t)
}

proof fn lemma_plain_add(a: Seq<Val>, b: Seq<Val>, t: bool)
    requires
        all_plain(a, t),
        all_plain(b, t),
    ensures
        all_plain(a + b, t),
{
    assert forall|i: int| 0 <= i < (a + b).len() implies #[trigger] is_plain((a + b)[i], t) by {
        if i < a.len() {
            assert((a + b)[i] == a[i]);
        } else {
            assert((a + b)[i] == b[i - a.len()]);
        }
    }
}

proof fn lemma_plain_drop_first(a: Seq<Val>, t: bool)
    requires
        all_plain(a, t),
        a.len() > 0,
    ensures
        all_plain(a.drop_first(), t),
{
    assert forall|i: int| 0 <= i < a.drop_first().len() implies #[trigger] is_plain(a.drop_first()[i], t) by {
        assert(a.drop_first()[i] == a[i + 1]);
    }
}

proof fn lemma_dict_set_plain(es: Seq<(Seq<char>, Val)>, k: Seq<char>, x: Val, t: bool)
    requires
        plain_entries(es, t),
        key_allowed(k, t),
        is_plain(x, t),
    ensures
        plain_entries(dict_set(es, k, x), t),
{
    lemma_key_pos_range(es, k, 0);
    lemma_dict_set_distinct(es, k, x);
    let r = dict_set(es, k, x);
    assert forall|i: int| 0 <= i < r.len() implies key_allowed((#[trigger] r[i]).0, t) && is_plain(r[i].1, t) by {
        if i < es.len() && r[i] != (k, x) {
            assert(r[i] == es[i]);
        }
    }
}

proof fn lemma_lookup_plain(es: Seq<(Seq<char>, Val)>, k: Seq<char>, t: bool)
    requires
        plain_entries(es, t),
    ensures
        lookup(es, k) matches Some(y) ==> is_plain(y, t),
{
    lemma_key_pos_range(es, k, 0);
    if lookup(es, k) is Some {
        let p = key_pos(es, k, 0);
        assert(key_allowed(es[p].0, t) && is_plain(es[p].1, t));
    }
}

proof fn lemma_keep_nonempty_plain(s: Seq<Val>, t: bool)
    requires
        all_plain(s, t),
    ensures
        all_plain(keep_nonempty(s), t),
    decreases s.len(),
{
    if s.len() > 0 {
        assert(all_plain(s.drop_last(), t)) by {
            assert forall|i: int| 0 <= i < s.drop_last().len() implies #[trigger] is_plain(s.drop_last()[i], t) by {
                assert(s.drop_last()[i] == s[i]);
            }
        }
        lemma_keep_nonempty_plain(s.drop_last(), t);
        assert(is_plain(s[s.len() - 1], t));
        lemma_plain_add(keep_nonempty(s.drop_last()), seq![s.last()], t);
        assert(keep_nonempty(s.drop_last()).push(s.last()) =~= keep_nonempty(s.drop_last()) + seq![s.last()]);
    }
}

proof fn lemma_filtered_plain(v: Val, c: ContextConfig, o: PlanOptions)
    ensures
        all_plain(filtered(v, c, o), o.include_schema_type_path),
    decreases v, 2nat, 0nat,
{
    match v {
        Val::List(items) => {
            lemma_concat_plain(v, items.len() as nat, c, o);
        },
        Val::Dict(_) | Val::Schema { .. } => {
            let acc = fold_entries(v, v.entries().len() as nat, c, o);
            lemma_fold_entries_plain(v, v.entries().len() as nat, c, o);
            lemma_keep_nonempty_plain(acc.1, o.include_schema_type_path);
            assert(is_plain(Val::Dict(acc.0), o.include_schema_type_path));
            lemma_plain_add(seq![Val::Dict(acc.0)], keep_nonempty(acc.1), o.include_schema_type_path);
        },
        _ => {},
    }
}

proof fn lemma_concat_plain(v: Val, n: nat, c: ContextConfig, o: PlanOptions)
    ensures
        all_plain(concat_filtered(v, n, c, o), o.include_schema_type_path),
    decreases v, 1nat, n,
{
    if v is List && n > 0 && n <= v->List_0.len() {
        lemma_concat_plain(v, (n - 1) as nat, c, o);
        lemma_filtered_plain(v->List_0[n - 1], c, o);
        lemma_plain_add(concat_filtered(v, (n - 1) as nat, c, o), filtered(v->List_0[n - 1], c, o), o.include_schema_type_path);
    }
}

proof fn lemma_fold_entries_plain(v: Val, n: nat, c: ContextConfig, o: PlanOptions)
    ensures
        plain_entries(fold_entries(v, n, c, o).0, o.include_schema_type_path),
        all_plain(fold_entries(v, n, c, o).1, o.include_schema_type_path),
    decreases v, 1nat, n,
{
    if n > 0 && n <= v.entries().len() {
        lemma_fold_entries_plain(v, (n - 1) as nat, c, o);
        let e = v.entries()[n - 1];
        lemma_entry_plain(fold_entries(v, (n - 1) as nat, c, o), e.0, e.1, c, o);
    }
}

proof fn lemma_entry_plain(acc: EntryAcc, key: Seq<char>, val: Val, c: ContextConfig, o: PlanOptions)
    requires
        plain_entries(acc.0, o.include_schema_type_path),
        all_plain(acc.1, o.include_schema_type_path),
    ensures
        plain_entries(entry_step(acc, key, val, c, o).0, o.include_schema_type_path),
        all_plain(entry_step(acc, key, val, c, o).1, o.include_schema_type_path),
    decreases val, 4nat, 0nat,
{
    let r0 = acc.0;
    let rest = acc.1;
    if (val is Null && c.disable_none) || is_private(key) || val is Undefined || val is Func {
    } else if schema_like(val) {
        lemma_handle_plain(val, c, o);
        let f = handle(val, c, o).0;
        if f.len() > 0 {
            lemma_plain_add(rest, f, o.include_schema_type_path);
            lemma_plain_drop_first(f, o.include_schema_type_path);
            lemma_plain_add(rest, f.drop_first(), o.include_schema_type_path);
            lemma_dict_set_plain(r0, key, f[0], o.include_schema_type_path);
        }
    } else if val is Dict {
        lemma_filtered_plain(val, c, o);
        let f = filtered(val, c, o);
        if f.len() > 0 {
            lemma_plain_drop_first(f, o.include_schema_type_path);
            lemma_plain_add(rest, f.drop_first(), o.include_schema_type_path);
            lemma_dict_set_plain(r0, key, f[0], o.include_schema_type_path);
        }
    } else if val is List {
        let items = val->List_0;
        let la = fold_list(val, items.len() as nat, c, o);
        lemma_fold_list_plain(val, items.len() as nat, c, o);
        assert(is_plain(Val::List(Seq::empty()), o.include_schema_type_path));
        assert(all_plain(la.0, o.include_schema_type_path));
        assert(is_plain(Val::List(la.0), o.include_schema_type_path));
        lemma_dict_set_plain(r0, key, Val::List(Seq::empty()), o.include_schema_type_path);
        let r0a = if items.len() == 0 && !c.disable_empty_list {
            dict_set(r0, key, Val::List(Seq::empty()))
        } else {
            r0
        };
        lemma_dict_set_plain(r0a, key, Val::List(la.0), o.include_schema_type_path);
        lemma_plain_add(rest, la.3, o.include_schema_type_path);
        lemma_plain_add(rest + la.3, la.1, o.include_schema_type_path);
    } else {
        lemma_dict_set_plain(r0, key, val, o.include_schema_type_path);
    }
}

proof fn lemma_fold_list_plain(v: Val, n: nat, c: ContextConfig, o: PlanOptions)
    ensures
        all_plain(fold_list(v, n, c, o).0, o.include_schema_type_path),
        all_plain(fold_list(v, n, c, o).1, o.include_schema_type_path),
        all_plain(fold_list(v, n, c, o).3, o.include_schema_type_path),
    decreases v, 1nat, n,
{
    if v is List && n > 0 && n <= v->List_0.len() {
        lemma_fold_list_plain(v, (n - 1) as nat, c, o);
        let a = fold_list(v, (n - 1) as nat, c, o);
        let x = v->List_0[n - 1];
        if schema_like(x) {
            lemma_handle_plain(x, c, o);
            lemma_plain_add(a.1, handle(x, c, o).0, o.include_schema_type_path);
            lemma_plain_add(a.0, handle(x, c, o).0, o.include_schema_type_path);
        } else if x is Dict {
            lemma_filtered_plain(x, c, o);
            lemma_plain_add(a.0, filtered(x, c, o), o.include_schema_type_path);
        } else if (x is Null && c.disable_none) || x is Undefined {
        } else {
            let w = entry_step((Seq::empty(), Seq::empty()), "$"@, x, c, o);
            lemma_entry_plain((Seq::empty(), Seq::empty()), "$"@, x, c, o);
            lemma_lookup_plain(w.0, "$"@, o.include_schema_type_path);
            let inl = match lookup(w.0, "$"@) {
                Some(y) => seq![y],
                None => Seq::empty(),
            };
            assert(all_plain(inl, o.include_schema_type_path));
            lemma_plain_add(a.0, inl, o.include_schema_type_path);
            lemma_keep_nonempty_plain(w.1, o.include_schema_type_path);
            lemma_plain_add(a.3, keep_nonempty(w.1), o.include_schema_type_path);
        }
    }
}

proof fn lemma_handle_plain(v: Val, c: ContextConfig, o: PlanOptions)
    ensures
        all_plain(handle(v, c, o).0, o.include_schema_type_path),
    decreases v, 3nat, 0nat,
{
    lemma_filtered_plain(v, c, o);
    let f = filtered(v, c, o);
    if f.len() > 0 {
        let g = if o.include_schema_type_path && f[0].is_config() {
            f.update(0, set_key(f[0], "_type"@, Val::Str(crate::plan::type_path(v))))
        } else {
            f
        };
        if o.include_schema_type_path && f[0].is_config() {
            assert(is_plain(f[0], o.include_schema_type_path));
            let d = f[0]->Dict_0;
            assert(plain_entries(d, o.include_schema_type_path));
            lemma_dict_set_plain(d, "_type"@, Val::Str(crate::plan::type_path(v)), o.include_schema_type_path);
            let nd = dict_set(d, "_type"@, Val::Str(crate::plan::type_path(v)));
            assert(is_plain(Val::Dict(nd), o.include_schema_type_path));
            assert forall|i: int| 0 <= i < g.len() implies #[trigger] is_plain(g[i], o.include_schema_type_path) by {
                if i != 0 {
                    assert(g[i] == f[i]);
                }
            }
        }
        assert(all_plain(g, o.include_schema_type_path));
        if g.len() > 0 {
            lemma_plain_drop_first(g, o.include_schema_type_path);
        }
    }
}

proof fn lemma_plain_valid(v: Val, t: bool)
    requires
        is_plain(v, t),
    ensures
        is_valid(v),
    decreases v,
{
    match v {
        Val::List(items) => {
            assert forall|i: int| 0 <= i < items.len() implies is_valid(#[trigger] items[i]) by {
                lemma_plain_valid(items[i], t);
            }
        },
        Val::Dict(d) => {
            assert forall|i: int| 0 <= i < d.len() implies is_valid((#[trigger] d[i]).1) by {
                assert(is_plain(d[i].1, t));
                lemma_plain_valid(d[i].1, t);
            }
        },
        _ => {},
    }
}

/// No planned document holds, at any depth, an undefined value, a function
/// or a schema instance, nor a key that begins with `_` other than `_type`,
/// and `_type` only when type paths are asked for. Every planned document
/// is well formed: its dicts have distinct keys.
pub proof fn law_no_forbidden_leaves(v: Val, c: ContextConfig, o: PlanOptions)
    ensures
        forall|i: int|
            0 <= i < filtered(v, c, o).len() ==> is_plain(
                #[trigger] filtered(v, c, o)[i],
                o.include_schema_type_path,
            ) && is_valid(filtered(v, c, o)[i]),
{
    lemma_filtered_plain(v, c, o);
    assert forall|i: int| 0 <= i < filtered(v, c, o).len() implies is_valid(#[trigger] filtered(v, c, o)[i]) by {
        lemma_plain_valid(filtered(v, c, o)[i], o.include_schema_type_path);
    }
}

/// No schema instance, and no dict with a `settings` key, anywhere in `v`.
pub open spec fn schema_free(v: Val) -> bool
    decreases v,
{
    match v {
        Val::Schema { .. } => false,
        Val::List(items) => forall|i: int| 0 <= i < items.len() ==> schema_free(#[trigger] items[i]),
        Val::Dict(d) => !v.has_key("settings"@) && forall|i: int|
            0 <= i < d.len() ==> schema_free((#[trigger] d[i]).1),
        _ => true,
    }
}

proof fn lemma_free_filtered(v: Val, c: ContextConfig, o: PlanOptions)
    requires
        v is Dict,
        forall|i: int| 0 <= i < v->Dict_0.len() ==> schema_free((#[trigger] v->Dict_0[i]).1),
    ensures
        filtered(v, c, o) == seq![Val::Dict(fold_entries(v, v.entries().len() as nat, c, o).0)],
    decreases v, 2nat, 0nat,
{
    lemma_free_fold(v, v.entries().len() as nat, c, o);
    assert(keep_nonempty(Seq::<Val>::empty()) == Seq::<Val>::empty());
    assert(seq![Val::Dict(fold_entries(v, v.entries().len() as nat, c, o).0)] + Seq::<Val>::empty()
        =~= seq![Val::Dict(fold_entries(v, v.entries().len() as nat, c, o).0)]);
}

proof fn lemma_free_fold(v: Val, n: nat, c: ContextConfig, o: PlanOptions)
    requires
        v is Dict,
        forall|i: int| 0 <= i < v->Dict_0.len() ==> schema_free((#[trigger] v->Dict_0[i]).1),
    ensures
        fold_entries(v, n, c, o).1 == Seq::<Val>::empty(),
    decreases v, 1nat, n,
{
    if n > 0 && n <= v.entries().len() {
        lemma_free_fold(v, (n - 1) as nat, c, o);
        let e = v.entries()[n - 1];
        assert(schema_free(v->Dict_0[n - 1].1));
        lemma_free_entry(fold_entries(v, (n - 1) as nat, c, o), e.0, e.1, c, o);
    }
}

proof fn lemma_free_entry(acc: EntryAcc, key: Seq<char>, val: Val, c: ContextConfig, o: PlanOptions)
    requires
        schema_free(val),
    ensures
        entry_step(acc, key, val, c, o).1 == acc.1,
    decreases val, 4nat, 0nat,
{
    if (val is Null && c.disable_none) || is_private(key) || val is Undefined || val is Func {
    } else if val is Dict {
        assert(!schema_like(val));
        lemma_free_filtered(val, c, o);
        let f = filtered(val, c, o);
        assert(f.drop_first() =~= Seq::<Val>::empty());
        assert(acc.1 + f.drop_first() =~= acc.1);
    } else if val is List {
        assert(!schema_like(val));
        let items = val->List_0;
        lemma_free_list(val, items.len() as nat, c, o);
        let la = fold_list(val, items.len() as nat, c, o);
        assert(acc.1 + la.3 + la.1 =~= acc.1);
    } else {
        assert(!schema_like(val));
    }
}

proof fn lemma_free_list(v: Val, n: nat, c: ContextConfig, o: PlanOptions)
    requires
        v is List,
        schema_free(v),
    ensures
        fold_list(v, n, c, o).1 == Seq::<Val>::empty(),
        fold_list(v, n, c, o).3 == Seq::<Val>::empty(),
    decreases v, 1nat, n,
{
    if n > 0 && n <= v->List_0.len() {
        lemma_free_list(v, (n - 1) as nat, c, o);
        let a = fold_list(v, (n - 1) as nat, c, o);
        let x = v->List_0[n - 1];
        assert(schema_free(x));
        assert(!schema_like(x));
        if x is Dict {
        } else if (x is Null && c.disable_none) || x is Undefined {
        } else {
            let w = entry_step((Seq::empty(), Seq::empty()), "$"@, x, c, o);
            lemma_free_entry((Seq::empty(), Seq::empty()), "$"@, x, c, o);
            assert(keep_nonempty(w.1) == Seq::<Val>::empty());
            assert(a.3 + keep_nonempty(w.1) =~= a.3);
        }
    }
}

/// A dict with no schema instance, and no nested dict with a `settings`
/// key, plans to exactly one document: nothing is promoted out of it.
pub proof fn law_single_document_without_schemas(v: Val, c: ContextConfig, o: PlanOptions)
    requires
        v is Dict,
        forall|i: int| 0 <= i < v->Dict_0.len() ==> schema_free((#[trigger] v->Dict_0[i]).1),
    ensures
        filtered(v, c, o).len() == 1,
{
    lemma_free_filtered(v, c, o);
}

/// 1 when `x` is a schema-shaped value whose `output_type` is `standalone`.
pub open spec fn own_document(x: Val) -> nat {
    if x.setting("output_type"@) == Some(Val::Str("standalone"@)) {
        1
    } else {
        0
    }
}

/// The standalone schemas reachable from the config-shaped `v` through the
/// entries that planning keeps: under kept keys, in list items and nested
/// lists, each counted once; an `ignore` schema counts only what is inside it.
pub open spec fn promoted(v: Val, c: ContextConfig) -> nat
    decreases v, 2nat, 0nat,
{
    promoted_entries(v, v.entries().len() as nat, c)
}

pub open spec fn promoted_entries(v: Val, n: nat, c: ContextConfig) -> nat
    decreases v, 1nat, n,
{
    if n == 0 || n > v.entries().len() {
        0
    } else {
        let e = v.entries()[n - 1];
        promoted_entries(v, (n - 1) as nat, c) + promoted_entry(e.0, e.1, c)
    }
}

/// What the entry `key: val` contributes to `promoted`.
pub open spec fn promoted_entry(key: Seq<char>, val: Val, c: ContextConfig) -> nat
    decreases val, 4nat, 0nat,
{
    if (val is Null && c.disable_none) || is_private(key) || val is Undefined || val is Func {
        0
    } else if schema_like(val) {
        own_document(val) + promoted(val, c)
    } else if val is Dict {
        promoted(val, c)
    } else if val is List {
        promoted_items(val, val->List_0.len() as nat, c)
    } else {
        0
    }
}

pub open spec fn promoted_items(v: Val, n: nat, c: ContextConfig) -> nat
    decreases v, 1nat, n,
{
    if !(v is List) || n == 0 || n > v->List_0.len() {
        0
    } else {
        let x = v->List_0[n - 1];
        let k = if schema_like(x) {
            own_document(x) + promoted(x, c)
        } else if x is Dict {
            promoted(x, c)
        } else if (x is Null && c.disable_none) || x is Undefined {
            0
        } else {
            promoted_entry("$"@, x, c)
        };
        promoted_items(v, (n - 1) as nat, c) + k
    }
}

proof fn lemma_keep_nonempty_len(s: Seq<Val>)
    ensures
        keep_nonempty(s).len() <= s.len(),
    decreases s.len(),
{
    if s.len() > 0 {
        lemma_keep_nonempty_len(s.drop_last());
    }
}

proof fn lemma_count_filtered(v: Val, c: ContextConfig, o: PlanOptions)
    requires
        v.is_config(),
    ensures
        filtered(v, c, o).len() <= 1 + promoted(v, c),
    decreases v, 2nat, 0nat,
{
    let n = v.entries().len() as nat;
    lemma_count_fold(v, n, c, o);
    lemma_keep_nonempty_len(fold_entries(v, n, c, o).1);
}

proof fn lemma_count_fold(v: Val, n: nat, c: ContextConfig, o: PlanOptions)
    ensures
        fold_entries(v, n, c, o).1.len() <= promoted_entries(v, n, c),
    decreases v, 1nat, n,
{
    if n > 0 && n <= v.entries().len() {
        lemma_count_fold(v, (n - 1) as nat, c, o);
        let e = v.entries()[n - 1];
        lemma_count_entry(fold_entries(v, (n - 1) as nat, c, o), e.0, e.1, c, o);
    }
}

proof fn lemma_count_handle(x: Val, c: ContextConfig, o: PlanOptions)
    requires
        x.is_config(),
    ensures
        handle(x, c, o).1 ==> handle(x, c, o).0.len() <= own_document(x) + promoted(x, c),
        !handle(x, c, o).1 ==> handle(x, c, o).0.len() <= 1 + promoted(x, c),
        handle(x, c, o).0.len() <= 1 + promoted(x, c),
    decreases x, 3nat, 0nat,
{
    lemma_count_filtered(x, c, o);
    reveal_strlit("ignore");
    reveal_strlit("standalone");
}

proof fn lemma_count_entry(acc: EntryAcc, key: Seq<char>, val: Val, c: ContextConfig, o: PlanOptions)
    ensures
        entry_step(acc, key, val, c, o).1.len() <= acc.1.len() + promoted_entry(key, val, c),
    decreases val, 4nat, 0nat,
{
    if (val is Null && c.disable_none) || is_private(key) || val is Undefined || val is Func {
    } else if schema_like(val) {
        assert(val.is_config());
        lemma_count_handle(val, c, o);
    } else if val is Dict {
        lemma_count_filtered(val, c, o);
    } else if val is List {
        lemma_count_list(val, val->List_0.len() as nat, c, o);
    }
}

proof fn lemma_count_list(v: Val, n: nat, c: ContextConfig, o: PlanOptions)
    ensures
        fold_list(v, n, c, o).1.len() + fold_list(v, n, c, o).3.len() <= promoted_items(v, n, c),
    decreases v, 1nat, n,
{
    if v is List && n > 0 && n <= v->List_0.len() {
        lemma_count_list(v, (n - 1) as nat, c, o);
        let x = v->List_0[n - 1];
        if schema_like(x) {
            assert(x.is_config());
            lemma_count_handle(x, c, o);
        } else if x is Dict {
        } else if (x is Null && c.disable_none) || x is Undefined {
        } else {
            let w = entry_step((Seq::empty(), Seq::empty()), "$"@, x, c, o);
            lemma_count_entry((Seq::empty(), Seq::empty()), "$"@, x, c, o);
            lemma_keep_nonempty_len(w.1);
        }
    }
}

/// A config-shaped value plans to its inline document and at most one more
/// document per standalone schema reachable through what planning keeps
/// (`promoted`); an `ignore` schema adds none of its own.
pub proof fn law_document_count(v: Val, c: ContextConfig, o: PlanOptions)
    requires
        v.is_config(),
    ensures
        1 <= filtered(v, c, o).len() <= 1 + promoted(v, c),
{
    lemma_count_filtered(v, c, o);
}

} // verus!
