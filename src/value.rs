//! The runtime value tree, its mathematical model, and lookups on it.
use vstd::prelude::*;
use crate::text::{lemma_split_dots_nonempty, split_dots, split_path, str_eq};

verus! {

broadcast use vstd::std_specs::vec::group_vec_axioms, vstd::seq::group_seq_axioms;

/// The model of a value: what contracts speak of.
pub enum Val {
    Undefined,
    Null,
    Bool(bool),
    Int(i64),
    Str(Seq<char>),
    Func,
    List(Seq<Val>),
    Dict(Seq<(Seq<char>, Val)>),
    Schema {
        name: Seq<char>,
        pkgpath: Seq<char>,
        config: Seq<(Seq<char>, Val)>,
        meta: Seq<(Seq<char>, Val)>,
    },
}

/// A runtime value. Dictionaries keep their entries in insertion order.
#[derive(Debug, PartialEq)]
pub enum ValueRef {
    Undefined,
    Null,
    Bool(bool),
    Int(i64),
    Str(String),
    /// An opaque callable, named for display only.
    Func(String),
    List(Vec<ValueRef>),
    Dict(Vec<(String, ValueRef)>),
    Schema(SchemaValue),
}

/// A typed configuration instance. Its payload is `config`; `meta` holds
/// its metadata block, where the settings live under the key `settings`.
#[derive(Debug, PartialEq)]
pub struct SchemaValue {
    pub name: String,
    pub pkgpath: String,
    pub config: Vec<(String, ValueRef)>,
    pub meta: Vec<(String, ValueRef)>,
}

impl View for ValueRef {
    type V = Val;

    open spec fn view(&self) -> Val {
        self.model()
    }
}

impl ValueRef {
    pub open spec fn model(self) -> Val
        decreases self,
    {
        match self {
            ValueRef::Undefined => Val::Undefined,
            ValueRef::Null => Val::Null,
            ValueRef::Bool(b) => Val::Bool(b),
            ValueRef::Int(i) => Val::Int(i),
            ValueRef::Str(s) => Val::Str(s@),
            ValueRef::Func(_) => Val::Func,
            ValueRef::List(l) => Val::List(
                Seq::new(
                    l@.len(),
                    |i: int|
                        if 0 <= i < l@.len() {
                            l@[i].model()
                        } else {
                            Val::Undefined
                        },
                ),
            ),
            ValueRef::Dict(d) => Val::Dict(
                Seq::new(
                    d@.len(),
                    |i: int|
                        if 0 <= i < d@.len() {
                            (d@[i].0@, d@[i].1.model())
                        } else {
                            (Seq::empty(), Val::Undefined)
                        },
                ),
            ),
            ValueRef::Schema(s) => Val::Schema {
                name: s.name@,
                pkgpath: s.pkgpath@,
                config: Seq::new(
                    s.config@.len(),
                    |i: int|
                        if 0 <= i < s.config@.len() {
                            (s.config@[i].0@, s.config@[i].1.model())
                        } else {
                            (Seq::empty(), Val::Undefined)
                        },
                ),
                meta: Seq::new(
                    s.meta@.len(),
                    |i: int|
                        if 0 <= i < s.meta@.len() {
                            (s.meta@[i].0@, s.meta@[i].1.model())
                        } else {
                            (Seq::empty(), Val::Undefined)
                        },
                ),
            },
        }
    }
}

/// The model of a sequence of values.
pub open spec fn vals(s: Seq<ValueRef>) -> Seq<Val> {
    Seq::new(s.len(), |i: int| s[i]@)
}

/// The model of a sequence of entries.
pub open spec fn ents(s: Seq<(String, ValueRef)>) -> Seq<(Seq<char>, Val)> {
    Seq::new(s.len(), |i: int| (s[i].0@, s[i].1@))
}

pub proof fn lemma_vals_push(a: Seq<ValueRef>, x: ValueRef)
    ensures
        vals(a.push(x)) == vals(a).push(x@),
{
    assert(vals(a.push(x)) =~= vals(a).push(x@));
}

pub proof fn lemma_ents_push(a: Seq<(String, ValueRef)>, k: String, x: ValueRef)
    ensures
        ents(a.push((k, x))) == ents(a).push((k@, x@)),
{
    assert(ents(a.push((k, x))) =~= ents(a).push((k@, x@)));
}

pub proof fn lemma_model_list(l: Vec<ValueRef>)
    ensures
        ValueRef::List(l)@ == Val::List(vals(l@)),
{
    assert(vals(l@) =~= ValueRef::List(l)@->List_0);
}

pub proof fn lemma_model_dict(d: Vec<(String, ValueRef)>)
    ensures
        ValueRef::Dict(d)@ == Val::Dict(ents(d@)),
{
    assert(ents(d@) =~= ValueRef::Dict(d)@->Dict_0);
}

pub proof fn lemma_model_schema(s: SchemaValue)
    ensures
        ValueRef::Schema(s)@ == (Val::Schema {
            name: s.name@,
            pkgpath: s.pkgpath@,
            config: ents(s.config@),
            meta: ents(s.meta@),
        }),
{
    assert(ents(s.config@) =~= ValueRef::Schema(s)@->config);
    assert(ents(s.meta@) =~= ValueRef::Schema(s)@->meta);
}

/// No two entries of `es` share a key.
pub open spec fn distinct_keys(es: Seq<(Seq<char>, Val)>) -> bool {
    forall|i: int, j: int| 0 <= i < j < es.len() ==> #[trigger] es[i].0 != #[trigger] es[j].0
}

/// A well-formed value: every dict and schema payload in it, at any depth,
/// is a mapping, with distinct keys.
pub open spec fn is_valid(v: Val) -> bool
    decreases v,
{
    match v {
        Val::List(items) => forall|i: int| 0 <= i < items.len() ==> is_valid(#[trigger] items[i]),
        Val::Dict(d) => distinct_keys(d) && forall|i: int|
            0 <= i < d.len() ==> is_valid((#[trigger] d[i]).1),
        Val::Schema { config, meta, .. } => distinct_keys(config) && distinct_keys(meta) && (forall|i: int|
            0 <= i < config.len() ==> is_valid((#[trigger] config[i]).1)) && forall|i: int|
            0 <= i < meta.len() ==> is_valid((#[trigger] meta[i]).1),
        _ => true,
    }
}

proof fn lemma_key_pos_none(es: Seq<(Seq<char>, Val)>, k: Seq<char>, i: int)
    requires
        0 <= i,
        key_pos(es, k, i) == -1,
    ensures
        forall|j: int| i <= j < es.len() ==> #[trigger] es[j].0 != k,
    decreases es.len() - i,
{
    if i < es.len() {
        lemma_key_pos_none(es, k, i + 1);
    }
}

/// Binding a key keeps the keys of a mapping distinct.
pub proof fn lemma_dict_set_distinct(es: Seq<(Seq<char>, Val)>, k: Seq<char>, x: Val)
    requires
        distinct_keys(es),
    ensures
        distinct_keys(dict_set(es, k, x)),
{
    lemma_key_pos_range(es, k, 0);
    let r = dict_set(es, k, x);
    if key_pos(es, k, 0) >= 0 {
        assert forall|i: int, j: int| 0 <= i < j < r.len() implies #[trigger] r[i].0 != #[trigger] r[j].0 by {
            assert(r[i].0 == es[i].0 && r[j].0 == es[j].0);
        }
    } else {
        lemma_key_pos_none(es, k, 0);
        assert forall|i: int, j: int| 0 <= i < j < r.len() implies #[trigger] r[i].0 != #[trigger] r[j].0 by {
            if j == es.len() {
                assert(es[i].0 != k);
            } else {
                assert(r[i] == es[i] && r[j] == es[j]);
            }
        }
    }
}

/// The value of each entry of a config-shaped value is smaller than it.
pub proof fn lemma_entry_decreases(v: Val, i: int)
    requires
        0 <= i < v.entries().len(),
    ensures
        decreases_to!(v => v.entries()[i].1),
{
    match v {
        Val::Dict(d) => {
            assert(decreases_to!(d => d[i]));
        },
        Val::Schema { config, .. } => {
            assert(decreases_to!(config => config[i]));
        },
        _ => {},
    }
}

/// Position of the first entry of `es` at or after `i` whose key is `k`, or -1.
pub open spec fn key_pos(es: Seq<(Seq<char>, Val)>, k: Seq<char>, i: int) -> int
    decreases es.len() - i,
{
    if i < 0 || i >= es.len() {
        -1
    } else if es[i].0 == k {
        i
    } else {
        key_pos(es, k, i + 1)
    }
}

pub proof fn lemma_key_pos_range(es: Seq<(Seq<char>, Val)>, k: Seq<char>, i: int)
    ensures
        key_pos(es, k, i) == -1 || (i <= key_pos(es, k, i) < es.len() && es[key_pos(es, k, i)].0 == k),
    decreases es.len() - i,
{
    if 0 <= i < es.len() && es[i].0 != k {
        lemma_key_pos_range(es, k, i + 1);
    }
}

/// The value at key `k` among the entries `es`.
pub open spec fn lookup(es: Seq<(Seq<char>, Val)>, k: Seq<char>) -> Option<Val> {
    let p = key_pos(es, k, 0);
    if 0 <= p < es.len() {
        Some(es[p].1)
    } else {
        None
    }
}

/// The entries with `k` bound to `x`: replaced in place when present, appended otherwise.
pub open spec fn dict_set(es: Seq<(Seq<char>, Val)>, k: Seq<char>, x: Val) -> Seq<(Seq<char>, Val)> {
    let p = key_pos(es, k, 0);
    if 0 <= p < es.len() {
        es.update(p, (k, x))
    } else {
        es.push((k, x))
    }
}

impl Val {
    pub open spec fn is_config(self) -> bool {
        self is Dict || self is Schema
    }

    pub open spec fn is_list_or_config(self) -> bool {
        self.is_config() || self is List
    }

    /// The key/value mapping of a config-shaped value; empty for others.
    pub open spec fn entries(self) -> Seq<(Seq<char>, Val)> {
        match self {
            Val::Dict(d) => d,
            Val::Schema { config, .. } => config,
            _ => Seq::empty(),
        }
    }

    pub open spec fn get_key(self, k: Seq<char>) -> Option<Val> {
        if self.is_config() {
            lookup(self.entries(), k)
        } else {
            None
        }
    }

    pub open spec fn has_key(self, k: Seq<char>) -> bool {
        self.get_key(k) is Some
    }

    /// Lookup along a sequence of keys, through config-shaped values only.
    pub open spec fn get_segments(self, segs: Seq<Seq<char>>) -> Option<Val>
        decreases segs.len(),
    {
        if segs.len() == 0 {
            Some(self)
        } else {
            match self.get_key(segs[0]) {
                Some(x) => x.get_segments(segs.drop_first()),
                None => None,
            }
        }
    }

    /// Dotted-path lookup.
    pub open spec fn get_path(self, p: Seq<char>) -> Option<Val> {
        self.get_segments(split_dots(p))
    }

    /// The block that holds a value's settings: a schema's metadata, a dict's own entries.
    pub open spec fn meta_block(self) -> Seq<(Seq<char>, Val)> {
        match self {
            Val::Schema { meta, .. } => meta,
            _ => self.entries(),
        }
    }

    /// The setting `name`, found at `settings.<name>` in the settings block.
    pub open spec fn setting(self, name: Seq<char>) -> Option<Val> {
        match lookup(self.meta_block(), "settings"@) {
            Some(s) => s.get_key(name),
            None => None,
        }
    }

    /// A dict that is empty, or an undefined value.
    pub open spec fn is_planned_empty(self) -> bool {
        (self is Dict && self->Dict_0.len() == 0) || self is Undefined
    }

    /// A short name of the value's type; a schema's name for a schema.
    pub open spec fn type_str(self) -> Seq<char> {
        match self {
            Val::Undefined => "UndefinedType"@,
            Val::Null => "NoneType"@,
            Val::Bool(_) => "bool"@,
            Val::Int(_) => "int"@,
            Val::Str(_) => "str"@,
            Val::Func => "function"@,
            Val::List(_) => "list"@,
            Val::Dict(_) => "dict"@,
            Val::Schema { name, .. } => name,
        }
    }
}

/// Position of key `k` in `es`, or `es.len()` when absent.
pub fn find_key(es: &Vec<(String, ValueRef)>, k: &str) -> (r: usize)
    ensures
        r <= es@.len(),
        r < es@.len() <==> key_pos(ents(es@), k@, 0) >= 0,
        r < es@.len() ==> r == key_pos(ents(es@), k@, 0),
{
    let mut i: usize = 0;
    while i < es.len()
        invariant
            i <= es@.len(),
            key_pos(ents(es@), k@, 0) == key_pos(ents(es@), k@, i as int),
        decreases es@.len() - i,
    {
        if str_eq(es[i].0.as_str(), k) {
            return i;
        }
        i = i + 1;
    }
    i
}

/// Binds `k` to `x` in `es`, replacing an existing binding in place.
pub fn dict_update_key_value(es: &mut Vec<(String, ValueRef)>, k: String, x: ValueRef)
    ensures
        ents(final(es)@) == dict_set(ents(old(es)@), k@, x@),
{
    let p = find_key(es, k.as_str());
    let ghost kk = k@;
    let ghost xx = x@;
    if p < es.len() {
        es.set(p, (k, x));
        assert(ents(es@) =~= dict_set(ents(old(es)@), kk, xx));
    } else {
        es.push((k, x));
        assert(ents(es@) =~= dict_set(ents(old(es)@), kk, xx));
    }
}

/// Removes the binding of `k` from `es` and returns its value, if any.
pub fn take_key(es: &mut Vec<(String, ValueRef)>, k: &str) -> (r: Option<ValueRef>)
    ensures
        match r {
            Some(x) => lookup(ents(old(es)@), k@) == Some(x@),
            None => lookup(ents(old(es)@), k@) is None,
        },
{
    let p = find_key(es, k);
    if p < es.len() {
        let (_, x) = es.remove(p);
        Some(x)
    } else {
        None
    }
}

impl ValueRef {
    pub fn is_undefined(&self) -> (r: bool)
        ensures
            r == (self@ is Undefined),
    {
        matches!(self, ValueRef::Undefined)
    }

    pub fn is_none(&self) -> (r: bool)
        ensures
            r == (self@ is Null),
    {
        matches!(self, ValueRef::Null)
    }

    pub fn is_func(&self) -> (r: bool)
        ensures
            r == (self@ is Func),
    {
        matches!(self, ValueRef::Func(_))
    }

    pub fn is_list(&self) -> (r: bool)
        ensures
            r == (self@ is List),
    {
        matches!(self, ValueRef::List(_))
    }

    pub fn is_dict(&self) -> (r: bool)
        ensures
            r == (self@ is Dict),
    {
        matches!(self, ValueRef::Dict(_))
    }

    pub fn is_schema(&self) -> (r: bool)
        ensures
            r == (self@ is Schema),
    {
        matches!(self, ValueRef::Schema(_))
    }

    pub fn is_config(&self) -> (r: bool)
        ensures
            r == self@.is_config(),
    {
        matches!(self, ValueRef::Dict(_) | ValueRef::Schema(_))
    }

    pub fn is_list_or_config(&self) -> (r: bool)
        ensures
            r == self@.is_list_or_config(),
    {
        matches!(self, ValueRef::Dict(_) | ValueRef::Schema(_) | ValueRef::List(_))
    }

    /// The entries of a config-shaped value.
    pub fn entries(&self) -> (r: Option<&Vec<(String, ValueRef)>>)
        ensures
            self@.is_config() <==> r is Some,
            r matches Some(es) ==> ents(es@) == self@.entries(),
    {
        match self {
            ValueRef::Dict(d) => {
                proof { lemma_model_dict(*d); }
                Some(d)
            },
            ValueRef::Schema(s) => {
                proof { lemma_model_schema(*s); }
                Some(&s.config)
            },
            _ => None,
        }
    }

    pub fn get_by_key(&self, k: &str) -> (r: Option<&ValueRef>)
        ensures
            match r {
                Some(x) => self@.get_key(k@) == Some(x@),
                None => self@.get_key(k@) is None,
            },
    {
        match self.entries() {
            Some(es) => {
                let p = find_key(es, k);
                if p < es.len() {
                    Some(&es[p].1)
                } else {
                    None
                }
            },
            None => None,
        }
    }

    pub fn is_planned_empty(&self) -> (r: bool)
        ensures
            r == self@.is_planned_empty(),
    {
        match self {
            ValueRef::Dict(d) => d.len() == 0,
            ValueRef::Undefined => true,
            _ => false,
        }
    }

    /// The setting `name` of this value (see `Val::setting`).
    pub fn setting(&self, name: &str) -> (r: Option<&ValueRef>)
        ensures
            match r {
                Some(x) => self@.setting(name@) == Some(x@),
                None => self@.setting(name@) is None,
            },
    {
        let block = match self {
            ValueRef::Schema(s) => {
                proof { lemma_model_schema(*s); }
                &s.meta
            },
            ValueRef::Dict(d) => {
                proof { lemma_model_dict(*d); }
                d
            },
            _ => {
                return None;
            },
        };
        let p = find_key(block, "settings");
        if p < block.len() {
            block[p].1.get_by_key(name)
        } else {
            None
        }
    }

    /// The short type name of this value.
    pub fn type_str(&self) -> (r: String)
        ensures
            r@ == self@.type_str(),
    {
        match self {
            ValueRef::Undefined => "UndefinedType".to_owned(),
            ValueRef::Null => "NoneType".to_owned(),
            ValueRef::Bool(_) => "bool".to_owned(),
            ValueRef::Int(_) => "int".to_owned(),
            ValueRef::Str(_) => "str".to_owned(),
            ValueRef::Func(_) => "function".to_owned(),
            ValueRef::List(_) => "list".to_owned(),
            ValueRef::Dict(_) => "dict".to_owned(),
            ValueRef::Schema(s) => s.name.clone(),
        }
    }

    pub fn has_key(&self, k: &str) -> (r: bool)
        ensures
            r == self@.has_key(k@),
    {
        self.get_by_key(k).is_some()
    }
}

impl ValueRef {
    /// A structurally equal copy that shares nothing with `self`.
    pub fn deep_copy(&self) -> (r: ValueRef)
        ensures
            r@ == self@,
        decreases self@,
    {
        match self {
            ValueRef::List(items) => {
                proof { lemma_model_list(*items); }
                let mut out: Vec<ValueRef> = Vec::new();
                let mut i: usize = 0;
                while i < items.len()
                    invariant
                        i <= items@.len(),
                        self@ == Val::List(vals(items@)),
                        vals(out@) == vals(items@).subrange(0, i as int),
                    decreases items@.len() - i,
                {
                    assert(self@->List_0[i as int] == items@[i as int]@);
                    let x = items[i].deep_copy();
                    proof { lemma_vals_push(out@, x); }
                    out.push(x);
                    assert(vals(items@).subrange(0, i + 1) =~= vals(items@).subrange(0, i as int).push(x@));
                    i = i + 1;
                }
                assert(vals(out@) =~= vals(items@));
                proof { lemma_model_list(out); }
                ValueRef::List(out)
            },
            ValueRef::Dict(d) => {
                proof { lemma_model_dict(*d); }
                let mut out: Vec<(String, ValueRef)> = Vec::new();
                let mut i: usize = 0;
                while i < d.len()
                    invariant
                        i <= d@.len(),
                        self@ == Val::Dict(ents(d@)),
                        ents(out@) == ents(d@).subrange(0, i as int),
                    decreases d@.len() - i,
                {
                    assert(self@->Dict_0[i as int].1 == d@[i as int].1@);
                    assert(decreases_to!(self@->Dict_0 => self@->Dict_0[i as int]));
                    let x = d[i].1.deep_copy();
                    let k = d[i].0.clone();
                    proof { lemma_ents_push(out@, k, x); }
                    out.push((k, x));
                    assert(ents(d@).subrange(0, i + 1) =~= ents(d@).subrange(0, i as int).push((k@, x@)));
                    i = i + 1;
                }
                assert(ents(out@) =~= ents(d@));
                proof { lemma_model_dict(out); }
                ValueRef::Dict(out)
            },
            ValueRef::Schema(s) => {
                proof { lemma_model_schema(*s); }
                let mut config: Vec<(String, ValueRef)> = Vec::new();
                let mut i: usize = 0;
                while i < s.config.len()
                    invariant
                        i <= s.config@.len(),
                        self@->config == ents(s.config@),
                        self@ is Schema,
                        ents(config@) == ents(s.config@).subrange(0, i as int),
                    decreases s.config@.len() - i,
                {
                    assert(self@->config[i as int].1 == s.config@[i as int].1@);
                    assert(decreases_to!(self@->config => self@->config[i as int]));
                    let x = s.config[i].1.deep_copy();
                    let k = s.config[i].0.clone();
                    proof { lemma_ents_push(config@, k, x); }
                    config.push((k, x));
                    assert(ents(s.config@).subrange(0, i + 1) =~= ents(s.config@).subrange(0, i as int).push((k@, x@)));
                    i = i + 1;
                }
                let mut meta: Vec<(String, ValueRef)> = Vec::new();
                let mut i: usize = 0;
                while i < s.meta.len()
                    invariant
                        i <= s.meta@.len(),
                        self@->meta == ents(s.meta@),
                        self@ is Schema,
                        ents(meta@) == ents(s.meta@).subrange(0, i as int),
                    decreases s.meta@.len() - i,
                {
                    assert(self@->meta[i as int].1 == s.meta@[i as int].1@);
                    assert(decreases_to!(self@->meta => self@->meta[i as int]));
                    let x = s.meta[i].1.deep_copy();
                    let k = s.meta[i].0.clone();
                    proof { lemma_ents_push(meta@, k, x); }
                    meta.push((k, x));
                    assert(ents(s.meta@).subrange(0, i + 1) =~= ents(s.meta@).subrange(0, i as int).push((k@, x@)));
                    i = i + 1;
                }
                assert(ents(config@) =~= ents(s.config@));
                assert(ents(meta@) =~= ents(s.meta@));
                let r = SchemaValue {
                    name: s.name.clone(),
                    pkgpath: s.pkgpath.clone(),
                    config,
                    meta,
                };
                proof { lemma_model_schema(r); }
                ValueRef::Schema(r)
            },
            ValueRef::Undefined => ValueRef::Undefined,
            ValueRef::Null => ValueRef::Null,
            ValueRef::Bool(b) => ValueRef::Bool(*b),
            ValueRef::Int(i) => ValueRef::Int(*i),
            ValueRef::Str(x) => ValueRef::Str(x.clone()),
            ValueRef::Func(f) => ValueRef::Func(f.clone()),
        }
    }

    /// Dotted-path lookup through config-shaped values.
    pub fn get_by_path(&self, path: &str) -> (r: Option<&ValueRef>)
        ensures
            match r {
                Some(x) => self@.get_path(path@) == Some(x@),
                None => self@.get_path(path@) is None,
            },
    {
        let segs = split_path(path);
        let ghost ss = split_dots(path@);
        proof { lemma_split_dots_nonempty(path@); }
        assert(ss.subrange(0, ss.len() as int) =~= ss);
        let mut cur: &ValueRef = self;
        let mut i: usize = 0;
        while i < segs.len()
            invariant
                ss == split_dots(path@),
                segs@.len() == ss.len(),
                forall|j: int| 0 <= j < segs@.len() ==> #[trigger] segs@[j]@ == ss[j],
                i <= segs@.len(),
                self@.get_segments(ss) == cur@.get_segments(ss.subrange(i as int, ss.len() as int)),
            decreases segs@.len() - i,
        {
            let ghost rest = ss.subrange(i as int, ss.len() as int);
            assert(rest.drop_first() =~= ss.subrange(i + 1, ss.len() as int));
            assert(rest[0] == segs@[i as int]@);
            assert(rest.len() > 0);
            match cur.get_by_key(segs[i].as_str()) {
                Some(x) => {
                    cur = x;
                },
                None => {
                    assert(cur@.get_segments(rest) is None);
                    return None;
                },
            }
            i = i + 1;
        }
        assert(ss.subrange(i as int, ss.len() as int) =~= Seq::<Seq<char>>::empty());
        Some(cur)
    }
}

} // verus!
