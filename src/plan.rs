//! The planner: turns a value into an ordered list of output documents.
use vstd::prelude::*;
use vstd::string::{StrSliceExecFns, StringExecFns};
use crate::laws::law_no_forbidden_leaves;
use crate::text::{after_last_dot, contains_dot, has_dot, last_component, str_eq};
use crate::value::{
    dict_set, dict_update_key_value, ents, is_valid, lemma_entry_decreases, lookup, take_key, lemma_model_dict, lemma_model_list,
    lemma_model_schema, lemma_vals_push, vals, Val, ValueRef,
};

verus! {

broadcast use vstd::std_specs::vec::group_vec_axioms, vstd::seq::group_seq_axioms;

/// Options of a planning call.
#[derive(Debug, Clone, Copy)]
pub struct PlanOptions {
    pub sort_keys: bool,
    pub include_schema_type_path: bool,
}

impl Default for PlanOptions {
    fn default() -> (r: PlanOptions)
        ensures
            !r.sort_keys,
            !r.include_schema_type_path,
    {
        PlanOptions { sort_keys: false, include_schema_type_path: false }
    }
}

/// Global flags that the planner reads.
#[derive(Debug, Clone, Copy)]
pub struct ContextConfig {
    pub disable_none: bool,
    pub disable_empty_list: bool,
}

/// The evaluation context; the planner reads its configuration only.
#[derive(Debug, Clone, Copy)]
pub struct Context {
    pub cfg: ContextConfig,
}

impl Context {
    pub fn new() -> (r: Context)
        ensures
            !r.cfg.disable_none,
            !r.cfg.disable_empty_list,
    {
        Context { cfg: ContextConfig { disable_none: false, disable_empty_list: false } }
    }
}

/// Entries of the inline document, and the documents found beside it.
pub type EntryAcc = (Seq<(Seq<char>, Val)>, Seq<Val>);

/// While a list is walked: inline items, standalone documents, schemas that
/// planned to nothing, and documents derived from wrapped items.
pub type ListAcc = (Seq<Val>, Seq<Val>, nat, Seq<Val>);

pub open spec fn is_private(k: Seq<char>) -> bool {
    k.len() > 0 && k[0] == '_'
}

pub open spec fn schema_like(v: Val) -> bool {
    v is Schema || v.has_key("settings"@)
}

/// The documents of `s` that are not planned-empty, in order.
pub open spec fn keep_nonempty(s: Seq<Val>) -> Seq<Val>
    decreases s.len(),
{
    if s.len() == 0 {
        s
    } else if s.last().is_planned_empty() {
        keep_nonempty(s.drop_last())
    } else {
        keep_nonempty(s.drop_last()).push(s.last())
    }
}

/// The type path written under `_type`: when the `schema_type` setting is
/// a dotted name, its part after the last `.`; otherwise the value's type name.
pub open spec fn type_path(v: Val) -> Seq<char> {
    match v.setting("schema_type"@) {
        Some(Val::Str(s)) => if has_dot(s) {
            after_last_dot(s)
        } else {
            v.type_str()
        },
        _ => v.type_str(),
    }
}

/// `v` with `k` bound to `x`, when `v` is config-shaped.
pub open spec fn set_key(v: Val, k: Seq<char>, x: Val) -> Val {
    match v {
        Val::Dict(d) => Val::Dict(dict_set(d, k, x)),
        Val::Schema { name, pkgpath, config, meta } => Val::Schema {
            name,
            pkgpath,
            config: dict_set(config, k, x),
            meta,
        },
        _ => v,
    }
}

/// The documents that planning `v` yields.
pub open spec fn filtered(v: Val, c: ContextConfig, o: PlanOptions) -> Seq<Val>
    decreases v, 2nat, 0nat,
{
    match v {
        Val::List(items) => concat_filtered(v, items.len() as nat, c, o),
        Val::Dict(_) | Val::Schema { .. } => {
            let acc = fold_entries(v, v.entries().len() as nat, c, o);
            seq![Val::Dict(acc.0)] + keep_nonempty(acc.1)
        },
        _ => Seq::empty(),
    }
}

/// The documents of the first `n` items of the list `v`, concatenated.
pub open spec fn concat_filtered(v: Val, n: nat, c: ContextConfig, o: PlanOptions) -> Seq<Val>
    decreases v, 1nat, n,
{
    if !(v is List) || n == 0 || n > v->List_0.len() {
        Seq::empty()
    } else {
        concat_filtered(v, (n - 1) as nat, c, o) + filtered(v->List_0[n - 1], c, o)
    }
}

/// The first `n` entries of the config-shaped `v`, planned in order.
pub open spec fn fold_entries(v: Val, n: nat, c: ContextConfig, o: PlanOptions) -> EntryAcc
    decreases v, 1nat, n,
{
    if n == 0 || n > v.entries().len() {
        (Seq::empty(), Seq::empty())
    } else {
        let acc = fold_entries(v, (n - 1) as nat, c, o);
        let e = v.entries()[n - 1];
        entry_step(acc, e.0, e.1, c, o)
    }
}

/// Plans one entry `key: val` of a config-shaped value into `acc`.
pub open spec fn entry_step(
    acc: EntryAcc,
    key: Seq<char>,
    val: Val,
    c: ContextConfig,
    o: PlanOptions,
) -> EntryAcc
    decreases val, 4nat, 0nat,
{
    let r0 = acc.0;
    let rest = acc.1;
    if (val is Null && c.disable_none) || is_private(key) || val is Undefined || val is Func {
        acc
    } else if schema_like(val) {
        let h = handle(val, c, o);
        let f = h.0;
        if f.len() == 0 {
            acc
        } else if h.1 {
            (r0, rest + f)
        } else {
            (dict_set(r0, key, f[0]), rest + f.drop_first())
        }
    } else if val is Dict {
        let f = filtered(val, c, o);
        if f.len() == 0 {
            acc
        } else {
            (dict_set(r0, key, f[0]), rest + f.drop_first())
        }
    } else if val is List {
        let items = val->List_0;
        let la = fold_list(val, items.len() as nat, c, o);
        let r0a = if items.len() == 0 && !c.disable_empty_list {
            dict_set(r0, key, Val::List(Seq::empty()))
        } else {
            r0
        };
        let r0b = if la.2 + la.1.len() < items.len() {
            dict_set(r0a, key, Val::List(la.0))
        } else {
            r0a
        };
        (r0b, rest + la.3 + la.1)
    } else {
        (dict_set(r0, key, val), rest)
    }
}

/// The first `n` items of the list `v`, planned as the value of a key.
pub open spec fn fold_list(v: Val, n: nat, c: ContextConfig, o: PlanOptions) -> ListAcc
    decreases v, 1nat, n,
{
    if !(v is List) || n == 0 || n > v->List_0.len() {
        (Seq::empty(), Seq::empty(), 0, Seq::empty())
    } else {
        let a = fold_list(v, (n - 1) as nat, c, o);
        let x = v->List_0[n - 1];
        if schema_like(x) {
            let h = handle(x, c, o);
            if h.0.len() == 0 {
                (a.0, a.1, a.2 + 1, a.3)
            } else if h.1 {
                (a.0, a.1 + h.0, a.2, a.3)
            } else {
                (a.0 + h.0, a.1, a.2, a.3)
            }
        } else if x is Dict {
            (a.0 + filtered(x, c, o), a.1, a.2, a.3)
        } else if (x is Null && c.disable_none) || x is Undefined {
            a
        } else {
            let w = entry_step((Seq::empty(), Seq::empty()), "$"@, x, c, o);
            let inl = match lookup(w.0, "$"@) {
                Some(y) => seq![y],
                None => Seq::empty(),
            };
            (a.0 + inl, a.1, a.2, a.3 + keep_nonempty(w.1))
        }
    }
}

/// Plans a schema-shaped value: its documents, and whether they stand alone.
pub open spec fn handle(v: Val, c: ContextConfig, o: PlanOptions) -> (Seq<Val>, bool)
    decreases v, 3nat, 0nat,
{
    let f = filtered(v, c, o);
    if f.len() == 0 {
        (f, false)
    } else {
        let g = if o.include_schema_type_path && f[0].is_config() {
            f.update(0, set_key(f[0], "_type"@, Val::Str(type_path(v))))
        } else {
            f
        };
        match v.setting("output_type"@) {
            Some(Val::Str(s)) => if s == "ignore"@ {
                (g.drop_first(), true)
            } else if s == "standalone"@ {
                (g, true)
            } else {
                (g, false)
            },
            _ => (g, false),
        }
    }
}


pub proof fn lemma_vals_add(a: Seq<ValueRef>, b: Seq<ValueRef>)
    ensures
        vals(a + b) == vals(a) + vals(b),
{
    assert(vals(a + b) =~= vals(a) + vals(b));
}

/// Appends to `out` the documents of `src` that are not planned-empty.
fn push_nonempty(out: &mut Vec<ValueRef>, src: Vec<ValueRef>)
    ensures
        vals(final(out)@) == vals(old(out)@) + keep_nonempty(vals(src@)),
{
    let mut src = src;
    let ghost s0 = vals(src@);
    let ghost out0 = vals(out@);
    assert(s0.subrange(0, 0) =~= Seq::<Val>::empty());
    assert(vals(src@) =~= s0.subrange(0, s0.len() as int));
    while src.len() > 0
        invariant
            src@.len() <= s0.len(),
            vals(src@) == s0.subrange(s0.len() - src@.len(), s0.len() as int),
            vals(out@) == out0 + keep_nonempty(s0.subrange(0, s0.len() - src@.len())),
        decreases src@.len(),
    {
        let ghost k = s0.len() - src@.len();
        let ghost before = src@;
        assert(vals(before)[0] == s0[k]);
        let x = src.remove(0);
        assert(vals(before)[0] == x@);
        assert(vals(src@) =~= vals(before).subrange(1, vals(before).len() as int));
        assert(vals(src@) =~= s0.subrange(k + 1, s0.len() as int));
        assert(s0.subrange(0, k + 1).drop_last() =~= s0.subrange(0, k));
        if !x.is_planned_empty() {
            proof { lemma_vals_push(out@, x); }
            out.push(x);
        }
    }
    assert(s0.subrange(0, s0.len() as int) =~= s0);
}

/// Returns the type path of `v`.
pub fn value_type_path(v: &ValueRef) -> (r: String)
    ensures
        r@ == type_path(v@),
{
    match v.setting("schema_type") {
        Some(ValueRef::Str(s)) => if contains_dot(s.as_str()) {
            last_component(s.as_str())
        } else {
            v.type_str()
        },
        _ => v.type_str(),
    }
}

/// `v` with `k` bound to `x`, when `v` is config-shaped; else `v` unchanged.
fn with_key(v: ValueRef, k: String, x: ValueRef) -> (r: ValueRef)
    ensures
        r@ == set_key(v@, k@, x@),
{
    match v {
        ValueRef::Dict(d) => {
            let mut d = d;
            proof { lemma_model_dict(d); }
            dict_update_key_value(&mut d, k, x);
            proof { lemma_model_dict(d); }
            ValueRef::Dict(d)
        },
        ValueRef::Schema(s) => {
            let mut s = s;
            proof { lemma_model_schema(s); }
            dict_update_key_value(&mut s.config, k, x);
            proof { lemma_model_schema(s); }
            ValueRef::Schema(s)
        },
        other => other,
    }
}

/// A copy of a value that is neither a list nor config-shaped.
fn copy_scalar(v: &ValueRef) -> (r: ValueRef)
    requires
        !(v@ is List || v@.is_config()),
    ensures
        r@ == v@,
{
    match v {
        ValueRef::Undefined => ValueRef::Undefined,
        ValueRef::Null => ValueRef::Null,
        ValueRef::Bool(b) => ValueRef::Bool(*b),
        ValueRef::Int(i) => ValueRef::Int(*i),
        ValueRef::Str(s) => ValueRef::Str(s.clone()),
        ValueRef::Func(f) => ValueRef::Func(f.clone()),
        _ => ValueRef::Undefined,
    }
}

fn starts_private(k: &String) -> (r: bool)
    ensures
        r == is_private(k@),
{
    let s = k.as_str();
    s.unicode_len() > 0 && s.get_char(0) == '_'
}

/// Plans a schema-shaped value: its documents, and whether they are standalone.
pub fn handle_schema(ctx: &Context, v: &ValueRef, opts: &PlanOptions) -> (r: (Vec<ValueRef>, bool))
    ensures
        vals(r.0@) == handle(v@, ctx.cfg, *opts).0,
        r.1 == handle(v@, ctx.cfg, *opts).1,
    decreases v@, 3nat, 0nat,
{
    let mut f = filter_results(ctx, v, opts);
    if f.len() == 0 {
        return (f, false);
    }
    let ghost f0 = vals(f@);
    if opts.include_schema_type_path && f[0].is_config() {
        let tp = value_type_path(v);
        let first = f.remove(0);
        let first = with_key(first, "_type".to_owned(), ValueRef::Str(tp));
        f.insert(0, first);
        assert(vals(f@) =~= f0.update(0, set_key(f0[0], "_type"@, Val::Str(type_path(v@)))));
    }
    let ghost g = vals(f@);
    match v.setting("output_type") {
        Some(ValueRef::Str(s)) => {
            if str_eq(s.as_str(), "ignore") {
                f.remove(0);
                assert(vals(f@) =~= g.drop_first());
                (f, true)
            } else if str_eq(s.as_str(), "standalone") {
                (f, true)
            } else {
                (f, false)
            }
        },
        _ => (f, false),
    }
}

/// Plans the entry `key: val` of a config-shaped value: the inline document
/// `r0` gains at most the key, and `rest` gains the documents found beside it.
fn plan_entry(
    ctx: &Context,
    r0: &mut Vec<(String, ValueRef)>,
    rest: &mut Vec<ValueRef>,
    key: &String,
    val: &ValueRef,
    opts: &PlanOptions,
)
    ensures
        (ents(final(r0)@), vals(final(rest)@)) == entry_step(
            (ents(old(r0)@), vals(old(rest)@)),
            key@,
            val@,
            ctx.cfg,
            *opts,
        ),
    decreases val@, 4nat, 0nat,
{
    let ghost c = ctx.cfg;
    let ghost o = *opts;
    if (val.is_none() && ctx.cfg.disable_none) || starts_private(key) || val.is_undefined()
        || val.is_func() {
        return ;
    }
    if val.is_schema() || val.has_key("settings") {
        let (mut f, standalone) = handle_schema(ctx, val, opts);
        if f.len() == 0 {
            return ;
        }
        if standalone {
            proof { lemma_vals_add(rest@, f@); }
            rest.append(&mut f);
        } else {
            let ghost fv = vals(f@);
            let first = f.remove(0);
            assert(vals(f@) =~= fv.drop_first());
            dict_update_key_value(r0, key.clone(), first);
            proof { lemma_vals_add(rest@, f@); }
            rest.append(&mut f);
        }
    } else if val.is_dict() {
        let mut f = filter_results(ctx, val, opts);
        if f.len() == 0 {
            return ;
        }
        let ghost fv = vals(f@);
        let first = f.remove(0);
        assert(vals(f@) =~= fv.drop_first());
        dict_update_key_value(r0, key.clone(), first);
        proof { lemma_vals_add(rest@, f@); }
        rest.append(&mut f);
    } else if let ValueRef::List(items) = val {
        proof { lemma_model_list(*items); }
        let ghost rest0 = vals(rest@);
        let mut filtered_list: Vec<ValueRef> = Vec::new();
        let mut standalone_list: Vec<ValueRef> = Vec::new();
        let mut ignored: usize = 0;
        let mut i: usize = 0;
        while i < items.len()
            invariant
                c == ctx.cfg,
                o == *opts,
                i <= items@.len(),
                val@ == Val::List(vals(items@)),
                ignored <= i,
                ({
                    let la = fold_list(val@, i as nat, c, o);
                    &&& vals(filtered_list@) == la.0
                    &&& vals(standalone_list@) == la.1
                    &&& ignored == la.2
                    &&& vals(rest@) == rest0 + la.3
                }),
            decreases items@.len() - i,
        {
            let x = &items[i];
            proof { vstd::std_specs::vec::axiom_vec_index_decreases(*items, i as int); }
            let ghost a = fold_list(val@, i as nat, c, o);
            assert(vals(items@)[i as int] == x@);
            assert(val@->List_0[i as int] == x@);
            if x.is_schema() || x.has_key("settings") {
                let (mut f, standalone) = handle_schema(ctx, x, opts);
                if f.len() == 0 {
                    ignored = ignored + 1;
                } else if standalone {
                    proof { lemma_vals_add(standalone_list@, f@); }
                    standalone_list.append(&mut f);
                } else {
                    proof { lemma_vals_add(filtered_list@, f@); }
                    filtered_list.append(&mut f);
                }
            } else if x.is_dict() {
                let mut f = filter_results(ctx, x, opts);
                proof { lemma_vals_add(filtered_list@, f@); }
                filtered_list.append(&mut f);
            } else if (x.is_none() && ctx.cfg.disable_none) || x.is_undefined() {
            } else {
                let mut w0: Vec<(String, ValueRef)> = Vec::new();
                let mut w1: Vec<ValueRef> = Vec::new();
                assert(ents(w0@) =~= Seq::<(Seq<char>, Val)>::empty());
                assert(vals(w1@) =~= Seq::<Val>::empty());
                plan_entry(ctx, &mut w0, &mut w1, &"$".to_owned(), x, opts);
                match take_key(&mut w0, "$") {
                    Some(y) => {
                        proof { lemma_vals_push(filtered_list@, y); }
                        filtered_list.push(y);
                    },
                    None => {},
                }
                push_nonempty(rest, w1);
                assert(vals(rest@) =~= rest0 + (a.3 + keep_nonempty(vals(w1@))));
            }
            i = i + 1;
        }
        let n = items.len();
        if n == 0 && !ctx.cfg.disable_empty_list {
            let empty: Vec<ValueRef> = Vec::new();
            proof { lemma_model_list(empty); }
            assert(vals(empty@) =~= Seq::<Val>::empty());
            dict_update_key_value(r0, key.clone(), ValueRef::List(empty));
        }
        if standalone_list.len() < n - ignored {
            let ghost fl = filtered_list;
            proof { lemma_model_list(fl); }
            dict_update_key_value(r0, key.clone(), ValueRef::List(filtered_list));
        }
        proof { lemma_vals_add(rest@, standalone_list@); }
        rest.append(&mut standalone_list);
    } else {
        dict_update_key_value(r0, key.clone(), copy_scalar(val));
    }
}

/// Plans `v` into its ordered documents: for a list, the documents of each
/// item in turn; for a config-shaped value, its inline document followed by
/// the standalone documents found within it; nothing for other values.
/// Every document is well formed.
pub fn filter_results(ctx: &Context, v: &ValueRef, opts: &PlanOptions) -> (r: Vec<ValueRef>)
    ensures
        vals(r@) == filtered(v@, ctx.cfg, *opts),
        forall|i: int| 0 <= i < r@.len() ==> is_valid(#[trigger] vals(r@)[i]),
    decreases v@, 2nat, 0nat,
{
    proof { law_no_forbidden_leaves(v@, ctx.cfg, *opts); }
    let ghost c = ctx.cfg;
    let ghost o = *opts;
    match v {
        ValueRef::List(items) => {
            proof { lemma_model_list(*items); }
            let mut out: Vec<ValueRef> = Vec::new();
            let mut i: usize = 0;
            assert(vals(out@) =~= Seq::<Val>::empty());
            while i < items.len()
                invariant
                    c == ctx.cfg,
                    o == *opts,
                    i <= items@.len(),
                    v@ == Val::List(vals(items@)),
                    vals(out@) == concat_filtered(v@, i as nat, c, o),
                decreases items@.len() - i,
            {
                proof { vstd::std_specs::vec::axiom_vec_index_decreases(*items, i as int); }
                assert(v@->List_0[i as int] == items@[i as int]@);
                let mut f = filter_results(ctx, &items[i], opts);
                proof { lemma_vals_add(out@, f@); }
                out.append(&mut f);
                assert(concat_filtered(v@, (i + 1) as nat, c, o) == concat_filtered(v@, i as nat, c, o)
                    + filtered(items@[i as int]@, c, o));
                i = i + 1;
            }
            assert(vals(out@) == filtered(v@, ctx.cfg, *opts));
            proof { law_no_forbidden_leaves(v@, ctx.cfg, *opts); }
            out
        },
        ValueRef::Dict(_) | ValueRef::Schema(_) => {
            let es = match v {
                ValueRef::Schema(s) => {
                    proof { lemma_model_schema(*s); }
                    &s.config
                },
                ValueRef::Dict(d) => {
                    proof { lemma_model_dict(*d); }
                    d
                },
                _ => {
                    return Vec::new();
                },
            };
            let mut r0: Vec<(String, ValueRef)> = Vec::new();
            let mut rest: Vec<ValueRef> = Vec::new();
            assert(ents(r0@) =~= Seq::<(Seq<char>, Val)>::empty());
            assert(vals(rest@) =~= Seq::<Val>::empty());
            let mut i: usize = 0;
            while i < es.len()
                invariant
                    c == ctx.cfg,
                    o == *opts,
                    i <= es@.len(),
                    ents(es@) == v@.entries(),
                    v@.is_config(),
                    (ents(r0@), vals(rest@)) == fold_entries(v@, i as nat, c, o),
                decreases es@.len() - i,
            {
                assert(ents(es@)[i as int] == (es@[i as int].0@, es@[i as int].1@));
                proof { lemma_entry_decreases(v@, i as int); }
                plan_entry(ctx, &mut r0, &mut rest, &es[i].0, &es[i].1, opts);
                assert(fold_entries(v@, (i + 1) as nat, c, o) == entry_step(
                    fold_entries(v@, i as nat, c, o), es@[i as int].0@, es@[i as int].1@, c, o));
                i = i + 1;
            }
            proof { lemma_model_dict(r0); }
            let mut out: Vec<ValueRef> = Vec::new();
            out.push(ValueRef::Dict(r0));
            assert(vals(out@) =~= seq![Val::Dict(fold_entries(v@, es@.len() as nat, c, o).0)]);
            push_nonempty(&mut out, rest);
            out
        },
        _ => Vec::new(),
    }
}

/// The message of a path selector that finds nothing.
pub open spec fn select_error(p: Seq<char>) -> Seq<char> {
    "invalid path select operand "@ + p + ", value not found"@
}

/// The characters of each selector.
pub open spec fn selectors(s: Seq<String>) -> Seq<Seq<char>> {
    Seq::new(s.len(), |i: int| s[i]@)
}

/// The first selector at or after `i` that finds nothing in `v`, or -1.
pub open spec fn first_missing(v: Val, ps: Seq<Seq<char>>, i: int) -> int
    decreases ps.len() - i,
{
    if i < 0 || i >= ps.len() {
        -1
    } else if v.get_path(ps[i]) is None {
        i
    } else {
        first_missing(v, ps, i + 1)
    }
}

pub proof fn lemma_first_missing_range(v: Val, ps: Seq<Seq<char>>, i: int)
    requires
        0 <= i,
    ensures
        first_missing(v, ps, i) == -1 || (i <= first_missing(v, ps, i) < ps.len()
            && v.get_path(ps[first_missing(v, ps, i)]) is None),
        first_missing(v, ps, i) == -1 ==> forall|j: int| i <= j < ps.len() ==> v.get_path(ps[j]) is Some,
    decreases ps.len() - i,
{
    if i < ps.len() && v.get_path(ps[i]) is Some {
        lemma_first_missing_range(v, ps, i + 1);
    }
}

fn select_message(p: &String) -> (r: String)
    ensures
        r@ == select_error(p@),
{
    let mut m = "invalid path select operand ".to_owned();
    m.append(p.as_str());
    m.append(", value not found");
    m
}

impl ValueRef {
    /// Selects values by dotted paths. With one selector, the value found;
    /// with several, the list of the values found, in selector order; with
    /// none, or on a value that is not config-shaped, a copy of the value.
    pub fn filter_by_path(&self, path_selector: &[String]) -> (r: Result<ValueRef, String>)
        ensures
            ({
                let ps = selectors(path_selector@);
                if !self@.is_config() || ps.len() == 0 {
                    r matches Ok(x) && x@ == self@
                } else if ps.len() == 1 {
                    match self@.get_path(ps[0]) {
                        Some(y) => r matches Ok(x) && x@ == y,
                        None => r matches Err(e) && e@ == select_error(ps[0]),
                    }
                } else {
                    let k = first_missing(self@, ps, 0);
                    if k >= 0 {
                        r matches Err(e) && e@ == select_error(ps[k])
                    } else {
                        r matches Ok(x) && x@ == Val::List(
                            Seq::new(ps.len(), |i: int| self@.get_path(ps[i])->Some_0),
                        )
                    }
                }
            }),
    {
        let ghost ps = selectors(path_selector@);
        if self.is_config() && path_selector.len() > 0 {
            if path_selector.len() == 1 {
                let path = &path_selector[0];
                match self.get_by_path(path.as_str()) {
                    Some(x) => Ok(x.deep_copy()),
                    None => Err(select_message(path)),
                }
            } else {
                let mut values: Vec<ValueRef> = Vec::new();
                let mut i: usize = 0;
                while i < path_selector.len()
                    invariant
                        ps == selectors(path_selector@),
                        self@.is_config(),
                        ps.len() > 1,
                        i <= ps.len(),
                        first_missing(self@, ps, 0) == first_missing(self@, ps, i as int),
                        vals(values@) == Seq::new(i as nat, |j: int| self@.get_path(ps[j])->Some_0),
                    decreases ps.len() - i,
                {
                    let path = &path_selector[i];
                    match self.get_by_path(path.as_str()) {
                        Some(x) => {
                            let y = x.deep_copy();
                            proof { lemma_vals_push(values@, y); }
                            values.push(y);
                            assert(vals(values@) =~= Seq::new(
                                (i + 1) as nat,
                                |j: int| self@.get_path(ps[j])->Some_0,
                            ));
                        },
                        None => {
                            assert(ps[i as int] == path@);
                            assert(first_missing(self@, ps, i as int) == i);
                            return Err(select_message(path));
                        },
                    }
                    i = i + 1;
                }
                proof {
                    lemma_model_list(values);
                }
                Ok(ValueRef::List(values))
            }
        } else {
            Ok(self.deep_copy())
        }
    }
}

} // verus!
