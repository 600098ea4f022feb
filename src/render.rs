//! The planner's entry points that produce JSON and YAML text.
use vstd::prelude::*;
use vstd::string::{StrSliceExecFns, StringExecFns};
use crate::emit::{arrange, arranged, json_of, spaces, write_json, write_yaml, yaml_of};
use crate::plan::{filter_results, filtered, Context, ContextConfig, PlanOptions};
use crate::value::{
    lemma_entry_decreases,
    dict_set, dict_update_key_value, ents, lemma_ents_push, lemma_model_dict, lemma_model_list,
    lemma_model_schema, lemma_vals_push, vals, SchemaValue, Val, ValueRef,
};

verus! {

broadcast use vstd::std_specs::vec::group_vec_axioms, vstd::seq::group_seq_axioms;

/// Whether the simplified filter keeps `x` inside a list or a dict.
pub open spec fn kept(x: Val, c: ContextConfig) -> bool {
    !(x is Undefined || x is Func || (c.disable_none && x is Null))
}

/// The simplified filter: a structural copy without undefined values,
/// functions, and, under `disable_none`, nulls, at every level.
pub open spec fn simple(v: Val, c: ContextConfig) -> Val
    decreases v, 1nat, 0nat,
{
    match v {
        Val::List(items) => Val::List(simple_items(v, items.len() as nat, c)),
        Val::Dict(d) => Val::Dict(simple_entries(v, d.len() as nat, c)),
        Val::Schema { name, pkgpath, config, meta } => Val::Schema {
            name,
            pkgpath,
            config: simple_entries(v, config.len() as nat, c),
            meta,
        },
        _ => v,
    }
}

pub open spec fn simple_items(v: Val, n: nat, c: ContextConfig) -> Seq<Val>
    decreases v, 0nat, n,
{
    if !(v is List) || n == 0 || n > v->List_0.len() {
        Seq::empty()
    } else {
        let p = simple_items(v, (n - 1) as nat, c);
        let x = v->List_0[n - 1];
        if kept(x, c) {
            p.push(simple(x, c))
        } else {
            p
        }
    }
}

pub open spec fn simple_entries(v: Val, n: nat, c: ContextConfig) -> Seq<(Seq<char>, Val)>
    decreases v, 0nat, n,
{
    if n == 0 || n > v.entries().len() {
        Seq::empty()
    } else {
        let p = simple_entries(v, (n - 1) as nat, c);
        let e = v.entries()[n - 1];
        if kept(e.1, c) {
            dict_set(p, e.0, simple(e.1, c))
        } else {
            p
        }
    }
}

pub open spec fn strip_newline(s: Seq<char>) -> Seq<char> {
    if s.len() > 0 && s.last() == '\n' {
        s.drop_last()
    } else {
        s
    }
}

/// `parts` joined by `sep`.
pub open spec fn joined(parts: Seq<Seq<char>>, sep: Seq<char>) -> Seq<char>
    decreases parts.len(),
{
    if parts.len() == 0 {
        Seq::empty()
    } else if parts.len() == 1 {
        parts[0]
    } else {
        joined(parts.drop_last(), sep) + sep + parts.last()
    }
}

/// The YAML stream of `docs`: each document without its final newline, joined by `---\n`.
pub open spec fn yaml_stream(docs: Seq<Val>) -> Seq<char> {
    joined(Seq::new(docs.len(), |i: int| strip_newline(yaml_of(docs[i], 0))), "---\n"@)
}

/// The YAML texts of `docs`, joined by `---\n`.
pub open spec fn yaml_joined(docs: Seq<Val>) -> Seq<char> {
    joined(Seq::new(docs.len(), |i: int| yaml_of(docs[i], 0)), "---\n"@)
}


fn yaml_text(v: &ValueRef) -> (r: String)
    ensures
        r@ == yaml_of(v@, 0),
{
    let mut out = String::new();
    let pad = String::new();
    assert(pad@ =~= spaces(0));
    write_yaml(&mut out, v, &pad, Ghost(0));
    assert(out@ =~= yaml_of(v@, 0));
    out
}

/// Joins the YAML texts of `docs` by `---\n`, each without its final newline when `strip`.
fn write_stream(docs: &Vec<ValueRef>, strip: bool) -> (r: String)
    ensures
        strip ==> r@ == yaml_stream(vals(docs@)),
        !strip ==> r@ == yaml_joined(vals(docs@)),
{
    let ghost parts = if strip {
        Seq::new(docs@.len(), |i: int| strip_newline(yaml_of(vals(docs@)[i], 0)))
    } else {
        Seq::new(docs@.len(), |i: int| yaml_of(vals(docs@)[i], 0))
    };
    let mut out = String::new();
    let mut i: usize = 0;
    while i < docs.len()
        invariant
            i <= docs@.len(),
            parts.len() == docs@.len(),
            forall|j: int| 0 <= j < docs@.len() ==> #[trigger] parts[j] == (if strip {
                strip_newline(yaml_of(docs@[j]@, 0))
            } else {
                yaml_of(docs@[j]@, 0)
            }),
            out@ == joined(parts.subrange(0, i as int), "---\n"@),
        decreases docs@.len() - i,
    {
        if i > 0 {
            out.append("---\n");
        }
        let t = yaml_text(&docs[i]);
        let st = t.as_str();
        let n = st.unicode_len();
        if strip && n > 0 && st.get_char(n - 1) == '\n' {
            out.append(st.substring_char(0, n - 1));
            assert(st@.subrange(0, n - 1) =~= t@.drop_last());
        } else {
            out.append(st);
        }
        assert(parts.subrange(0, i + 1).drop_last() =~= parts.subrange(0, i as int));
        assert(out@ =~= joined(parts.subrange(0, i + 1), "---\n"@));
        i = i + 1;
    }
    assert(parts.subrange(0, docs@.len() as int) =~= parts);
    if strip {
        assert(parts =~= Seq::new(vals(docs@).len(), |i: int| strip_newline(yaml_of(vals(docs@)[i], 0))));
    } else {
        assert(parts =~= Seq::new(vals(docs@).len(), |i: int| yaml_of(vals(docs@)[i], 0)));
    }
    out
}

fn keeps(x: &ValueRef, c: &ContextConfig) -> (r: bool)
    ensures
        r == kept(x@, *c),
{
    !(x.is_undefined() || x.is_func() || (c.disable_none && x.is_none()))
}

/// The simplified filter over entries `es` of the config-shaped `v`.
fn simple_entries_exec(
    v: &ValueRef,
    es: &Vec<(String, ValueRef)>,
    ctx: &Context,
) -> (r: Vec<(String, ValueRef)>)
    requires
        v@.is_config(),
        ents(es@) == v@.entries(),
    ensures
        ents(r@) == simple_entries(v@, es@.len() as nat, ctx.cfg),
    decreases v@, 0nat, es@.len() + 1,
{
    let mut out: Vec<(String, ValueRef)> = Vec::new();
    let mut i: usize = 0;
    assert(ents(out@) =~= Seq::<(Seq<char>, Val)>::empty());
    while i < es.len()
        invariant
            i <= es@.len(),
            v@.is_config(),
            ents(es@) == v@.entries(),
                ents(out@) == simple_entries(v@, i as nat, ctx.cfg),
        decreases es@.len() - i,
    {
        assert(v@.entries()[i as int] == (es@[i as int].0@, es@[i as int].1@));
        proof { lemma_entry_decreases(v@, i as int); }
        if keeps(&es[i].1, &ctx.cfg) {
            let x = es[i].1.filter_results(ctx);
            dict_update_key_value(&mut out, es[i].0.clone(), x);
        }
        i = i + 1;
    }
    out
}

impl ValueRef {
    /// The simplified filter (see `simple`).
    pub fn filter_results(&self, ctx: &Context) -> (r: ValueRef)
        ensures
            r@ == simple(self@, ctx.cfg),
        decreases self@, 1nat, 0nat,
    {
        match self {
            ValueRef::List(items) => {
                proof { lemma_model_list(*items); }
                let mut out: Vec<ValueRef> = Vec::new();
                let mut i: usize = 0;
                assert(vals(out@) =~= Seq::<Val>::empty());
                while i < items.len()
                    invariant
                        i <= items@.len(),
                        self@ == Val::List(vals(items@)),
                        vals(out@) == simple_items(self@, i as nat, ctx.cfg),
                    decreases items@.len() - i,
                {
                    assert(self@->List_0[i as int] == items@[i as int]@);
                    if keeps(&items[i], &ctx.cfg) {
                        let x = items[i].filter_results(ctx);
                        proof { lemma_vals_push(out@, x); }
                        out.push(x);
                    }
                    i = i + 1;
                }
                proof { lemma_model_list(out); }
                ValueRef::List(out)
            },
            ValueRef::Dict(d) => {
                proof { lemma_model_dict(*d); }
                let out = simple_entries_exec(self, d, ctx);
                proof { lemma_model_dict(out); }
                ValueRef::Dict(out)
            },
            ValueRef::Schema(s) => {
                proof { lemma_model_schema(*s); }
                let config = simple_entries_exec(self, &s.config, ctx);
                let mut meta: Vec<(String, ValueRef)> = Vec::new();
                let mut i: usize = 0;
                while i < s.meta.len()
                    invariant
                        i <= s.meta@.len(),
                        ents(meta@) == ents(s.meta@).subrange(0, i as int),
                    decreases s.meta@.len() - i,
                {
                    let x = s.meta[i].1.deep_copy();
                    let k = s.meta[i].0.clone();
                    proof { lemma_ents_push(meta@, k, x); }
                    meta.push((k, x));
                    assert(ents(s.meta@).subrange(0, i + 1) =~= ents(s.meta@).subrange(0, i as int).push((k@, x@)));
                    i = i + 1;
                }
                assert(ents(meta@) =~= ents(s.meta@));
                let r = SchemaValue { name: s.name.clone(), pkgpath: s.pkgpath.clone(), config, meta };
                proof { lemma_model_schema(r); }
                ValueRef::Schema(r)
            },
            ValueRef::Undefined => ValueRef::Undefined,
            ValueRef::Null => ValueRef::Null,
            ValueRef::Bool(b) => ValueRef::Bool(*b),
            ValueRef::Int(i) => ValueRef::Int(*i),
            ValueRef::Str(x) => ValueRef::Str(x.clone()),
            ValueRef::Func(f) => ValueRef::Func(f.clone()),
        }
    }

    /// JSON text of the simplified filter's result; empty when that result
    /// is planned-empty.
    pub fn plan_to_json_string(&self, ctx: &Context) -> (r: String)
        ensures
            simple(self@, ctx.cfg).is_planned_empty() ==> r@ == Seq::<char>::empty(),
            !simple(self@, ctx.cfg).is_planned_empty() ==> r@ == json_of(simple(self@, ctx.cfg)),
    {
        let result = self.filter_results(ctx);
        if result.is_planned_empty() {
            return String::new();
        }
        let mut out = String::new();
        write_json(&mut out, &result);
        assert(out@ =~= json_of(simple(self@, ctx.cfg)));
        out
    }

    /// YAML text of the simplified filter's result.
    pub fn plan_to_yaml_string(&self, ctx: &Context) -> (r: String)
        ensures
            r@ == yaml_of(simple(self@, ctx.cfg), 0),
    {
        let result = self.filter_results(ctx);
        yaml_text(&result)
    }

    /// The planned documents under default options, in YAML, joined by `---\n`.
    pub fn plan_to_yaml_string_with_delimiter(&self, ctx: &Context) -> (r: String)
        ensures
            r@ == yaml_joined(filtered(self@, ctx.cfg, PlanOptions { sort_keys: false, include_schema_type_path: false })),
    {
        let opts = PlanOptions::default();
        let results = filter_results(ctx, self, &opts);
        write_stream(&results, false)
    }

    /// Plans the value to JSON and YAML text. A list or config-shaped value
    /// is planned into documents: the JSON is the list of them, the YAML is
    /// their stream. Any other value is written as it is. Under `sort_keys`
    /// the keys of every mapping are written in order.
    pub fn plan(&self, ctx: &Context, opts: &PlanOptions) -> (r: (String, String))
        ensures
            self@.is_list_or_config() ==> {
                let docs = arranged(Val::List(filtered(self@, ctx.cfg, *opts)), opts.sort_keys);
                &&& docs is List
                &&& r.0@ == json_of(docs)
                &&& r.1@ == yaml_stream(docs->List_0)
            },
            !self@.is_list_or_config() ==> r.0@ == json_of(self@) && r.1@ == yaml_of(self@, 0),
    {
        if self.is_list_or_config() {
            let results = filter_results(ctx, self, opts);
            proof { lemma_model_list(results); }
            let mut list = ValueRef::List(results);
            if opts.sort_keys {
                list = arrange(list);
            }
            match list {
                ValueRef::List(docs) => {
                    proof { lemma_model_list(docs); }
                    let yaml = write_stream(&docs, true);
                    let list = ValueRef::List(docs);
                    let mut json = String::new();
                    write_json(&mut json, &list);
                    assert(json@ =~= json_of(list@));
                    (json, yaml)
                },
                _ => (String::new(), String::new()),
            }
        } else {
            let mut json = String::new();
            write_json(&mut json, self);
            assert(json@ =~= json_of(self@));
            (json, yaml_text(self))
        }
    }
}

} // verus!
