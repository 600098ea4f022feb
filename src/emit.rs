//! JSON and YAML text of planned values.
use vstd::prelude::*;
use vstd::string::{StrSliceExecFns, StringExecFns};
use crate::text::push_char;
use crate::value::{
    ents, lemma_entry_decreases, lemma_model_dict, lemma_model_list, lemma_model_schema, vals, SchemaValue, Val, ValueRef};

verus! {

broadcast use vstd::std_specs::vec::group_vec_axioms, vstd::seq::group_seq_axioms;

pub open spec fn digit(d: int) -> char {
    seq!['0', '1', '2', '3', '4', '5', '6', '7', '8', '9', 'a', 'b', 'c', 'd', 'e', 'f'][d]
}

/// Decimal digits of `n`.
pub open spec fn digits(n: nat) -> Seq<char>
    decreases n,
{
    if n < 10 {
        seq![digit(n as int)]
    } else {
        digits(n / 10).push(digit((n % 10) as int))
    }
}

pub open spec fn int_text(i: i64) -> Seq<char> {
    if i < 0 {
        seq!['-'] + digits((-(i as int)) as nat)
    } else {
        digits(i as nat)
    }
}

/// The escaped form of one character inside a double-quoted string.
pub open spec fn escape_char(c: char) -> Seq<char> {
    if c == '"' {
        seq!['\\', '"']
    } else if c == '\\' {
        seq!['\\', '\\']
    } else if c == '\n' {
        seq!['\\', 'n']
    } else if c == '\r' {
        seq!['\\', 'r']
    } else if c == '\t' {
        seq!['\\', 't']
    } else if (c as u32) < 32 {
        seq!['\\', 'u', '0', '0', digit((c as u32) as int / 16), digit((c as u32) as int % 16)]
    } else {
        seq![c]
    }
}

pub open spec fn escaped(s: Seq<char>) -> Seq<char>
    decreases s.len(),
{
    if s.len() == 0 {
        s
    } else {
        escaped(s.drop_last()) + escape_char(s.last())
    }
}

pub open spec fn quoted(s: Seq<char>) -> Seq<char> {
    seq!['"'] + escaped(s) + seq!['"']
}

/// Compact JSON text of `v`.
pub open spec fn json_of(v: Val) -> Seq<char>
    decreases v, 1nat, 0nat,
{
    match v {
        Val::Bool(b) => if b {
            "true"@
        } else {
            "false"@
        },
        Val::Int(i) => int_text(i),
        Val::Str(s) => quoted(s),
        Val::List(items) => "["@ + json_items(v, items.len() as nat) + "]"@,
        Val::Dict(_) | Val::Schema { .. } => "{"@ + json_members(v, v.entries().len() as nat) + "}"@,
        _ => "null"@,
    }
}

/// The first `n` items of the list `v`, comma-separated.
pub open spec fn json_items(v: Val, n: nat) -> Seq<char>
    decreases v, 0nat, n,
{
    if !(v is List) || n == 0 || n > v->List_0.len() {
        Seq::empty()
    } else if n == 1 {
        json_of(v->List_0[0])
    } else {
        json_items(v, (n - 1) as nat) + ","@ + json_of(v->List_0[n - 1])
    }
}

/// The first `n` entries of the config-shaped `v`, comma-separated.
pub open spec fn json_members(v: Val, n: nat) -> Seq<char>
    decreases v, 0nat, n,
{
    if n == 0 || n > v.entries().len() {
        Seq::empty()
    } else {
        let e = v.entries()[n - 1];
        let m = quoted(e.0) + ":"@ + json_of(e.1);
        if n == 1 {
            m
        } else {
            json_members(v, (n - 1) as nat) + ","@ + m
        }
    }
}

/// A non-empty list or a non-empty config-shaped value: written as a YAML block.
pub open spec fn is_block(v: Val) -> bool {
    (v is List && v->List_0.len() > 0) || (v.is_config() && v.entries().len() > 0)
}

pub open spec fn spaces(n: nat) -> Seq<char> {
    Seq::new(n, |i: int| ' ')
}

/// After a key or a dash: a nested block on the following lines, or the
/// value in flow form on the same line.
pub open spec fn yaml_tail(x: Val, ind: nat) -> Seq<char>
    decreases x, 3nat, 0nat,
{
    if is_block(x) {
        "\n"@ + yaml_of(x, ind + 2)
    } else {
        " "@ + json_of(x) + "\n"@
    }
}

/// Block YAML text of `v`, indented by `ind` spaces, ending in a newline.
pub open spec fn yaml_of(v: Val, ind: nat) -> Seq<char>
    decreases v, 2nat, 0nat,
{
    if is_block(v) {
        if v is List {
            yaml_items(v, v->List_0.len() as nat, ind)
        } else {
            yaml_members(v, v.entries().len() as nat, ind)
        }
    } else {
        json_of(v) + "\n"@
    }
}

pub open spec fn yaml_items(v: Val, n: nat, ind: nat) -> Seq<char>
    decreases v, 1nat, n,
{
    if !(v is List) || n == 0 || n > v->List_0.len() {
        Seq::empty()
    } else {
        yaml_items(v, (n - 1) as nat, ind) + spaces(ind) + "-"@ + yaml_tail(v->List_0[n - 1], ind)
    }
}

pub open spec fn yaml_members(v: Val, n: nat, ind: nat) -> Seq<char>
    decreases v, 1nat, n,
{
    if n == 0 || n > v.entries().len() {
        Seq::empty()
    } else {
        let e = v.entries()[n - 1];
        yaml_members(v, (n - 1) as nat, ind) + spaces(ind) + quoted(e.0) + ":"@ + yaml_tail(e.1, ind)
    }
}


fn write_digits(out: &mut String, n: u64)
    ensures
        final(out)@ == old(out)@ + digits(n as nat),
    decreases n,
{
    let d = n % 10;
    let c = if d == 0 { '0' } else if d == 1 { '1' } else if d == 2 { '2' } else if d == 3 {
        '3'
    } else if d == 4 { '4' } else if d == 5 { '5' } else if d == 6 { '6' } else if d == 7 {
        '7'
    } else if d == 8 { '8' } else { '9' };
    assert(c == digit(d as int));
    if n >= 10 {
        write_digits(out, n / 10);
    }
    push_char(out, c);
}

fn write_int(out: &mut String, i: i64)
    ensures
        final(out)@ == old(out)@ + int_text(i),
{
    if i < 0 {
        push_char(out, '-');
        let m: u64 = if i == i64::MIN { 9223372036854775808u64 } else { (-i) as u64 };
        write_digits(out, m);
        assert(old(out)@ + int_text(i) =~= old(out)@.push('-') + digits(m as nat));
    } else {
        write_digits(out, i as u64);
    }
}

fn hex_digit(d: u32) -> (c: char)
    requires
        d < 16,
    ensures
        c == digit(d as int),
{
    if d < 10 {
        if d == 0 { '0' } else if d == 1 { '1' } else if d == 2 { '2' } else if d == 3 { '3' }
        else if d == 4 { '4' } else if d == 5 { '5' } else if d == 6 { '6' } else if d == 7 { '7' }
        else if d == 8 { '8' } else { '9' }
    } else {
        if d == 10 { 'a' } else if d == 11 { 'b' } else if d == 12 { 'c' } else if d == 13 { 'd' }
        else if d == 14 { 'e' } else { 'f' }
    }
}

fn write_quoted(out: &mut String, s: &String)
    ensures
        final(out)@ == old(out)@ + quoted(s@),
{
    let st = s.as_str();
    let n = st.unicode_len();
    push_char(out, '"');
    let ghost start = out@;
    let mut i: usize = 0;
    while i < n
        invariant
            st@ == s@,
            n == s@.len(),
            i <= n,
            out@ == start + escaped(s@.subrange(0, i as int)),
        decreases n - i,
    {
        let c = st.get_char(i);
        assert(s@.subrange(0, i + 1).drop_last() =~= s@.subrange(0, i as int));
        let ghost before = out@;
        if c == '"' {
            push_char(out, '\\');
            push_char(out, '"');
        } else if c == '\\' {
            push_char(out, '\\');
            push_char(out, '\\');
        } else if c == '\n' {
            push_char(out, '\\');
            push_char(out, 'n');
        } else if c == '\r' {
            push_char(out, '\\');
            push_char(out, 'r');
        } else if c == '\t' {
            push_char(out, '\\');
            push_char(out, 't');
        } else if (c as u32) < 32 {
            push_char(out, '\\');
            push_char(out, 'u');
            push_char(out, '0');
            push_char(out, '0');
            push_char(out, hex_digit((c as u32) / 16));
            push_char(out, hex_digit((c as u32) % 16));
        } else {
            push_char(out, c);
        }
        assert(out@ =~= before + escape_char(c));
        assert(s@.subrange(0, i + 1).last() == c);
        assert(escaped(s@.subrange(0, i + 1)) == escaped(s@.subrange(0, i as int)) + escape_char(c));
        assert(out@ =~= start + escaped(s@.subrange(0, i + 1)));
        i = i + 1;
    }
    assert(s@.subrange(0, n as int) =~= s@);
    push_char(out, '"');
    assert(old(out)@ + quoted(s@) =~= old(out)@.push('"') + escaped(s@) + seq!['"']);
}

/// Appends the JSON text of `v`.
pub fn write_json(out: &mut String, v: &ValueRef)
    ensures
        final(out)@ == old(out)@ + json_of(v@),
    decreases v@,
{
    match v {
        ValueRef::Bool(b) => {
            if *b {
                out.append("true");
            } else {
                out.append("false");
            }
        },
        ValueRef::Int(i) => write_int(out, *i),
        ValueRef::Str(s) => write_quoted(out, s),
        ValueRef::List(items) => {
            proof { lemma_model_list(*items); }
            let ghost start = out@;
            out.append("[");
            let mut i: usize = 0;
            while i < items.len()
                invariant
                    i <= items@.len(),
                    v@ == Val::List(vals(items@)),
                    out@ == start + "["@ + json_items(v@, i as nat),
                decreases items@.len() - i,
            {
                assert(v@->List_0[i as int] == items@[i as int]@);
                if i > 0 {
                    out.append(",");
                }
                let ghost mid = out@;
                write_json(out, &items[i]);
                assert(out@ =~= start + "["@ + json_items(v@, (i + 1) as nat));
                i = i + 1;
            }
            out.append("]");
        },
        ValueRef::Dict(_) | ValueRef::Schema(_) => {
            let es = match v {
                ValueRef::Schema(s) => {
                    proof { lemma_model_schema(*s); }
                    &s.config
                },
                ValueRef::Dict(d) => {
                    proof { lemma_model_dict(*d); }
                    d
                },
                _ => {
                    return ;
                },
            };
            let ghost start = out@;
            out.append("{");
            let mut i: usize = 0;
            while i < es.len()
                invariant
                    i <= es@.len(),
                    ents(es@) == v@.entries(),
                    v@.is_config(),
                    out@ == start + "{"@ + json_members(v@, i as nat),
                decreases es@.len() - i,
            {
                assert(v@.entries()[i as int] == (es@[i as int].0@, es@[i as int].1@));
                proof { lemma_entry_decreases(v@, i as int); }
                if i > 0 {
                    out.append(",");
                }
                write_quoted(out, &es[i].0);
                out.append(":");
                write_json(out, &es[i].1);
                assert(out@ =~= start + "{"@ + json_members(v@, (i + 1) as nat));
                i = i + 1;
            }
            out.append("}");
        },
        _ => out.append("null"),
    }
}

fn value_is_block(v: &ValueRef) -> (r: bool)
    ensures
        r == is_block(v@),
{
    match v {
        ValueRef::List(items) => {
            proof { lemma_model_list(*items); }
            items.len() > 0
        },
        ValueRef::Dict(d) => {
            proof { lemma_model_dict(*d); }
            d.len() > 0
        },
        ValueRef::Schema(s) => {
            proof { lemma_model_schema(*s); }
            s.config.len() > 0
        },
        _ => false,
    }
}

/// Appends what follows a key or a dash (see `yaml_tail`); `pad` is the current indentation.
fn write_yaml_tail(out: &mut String, x: &ValueRef, pad: &String, Ghost(ind): Ghost<nat>)
    requires
        pad@ == spaces(ind),
    ensures
        final(out)@ == old(out)@ + yaml_tail(x@, ind),
    decreases x@, 3nat, 0nat,
{
    if value_is_block(x) {
        out.append("\n");
        let mut inner = pad.clone();
        inner.append("  ");
        proof { reveal_strlit("  "); }
        assert(inner@ =~= spaces(ind + 2));
        let ghost mid = out@;
        write_yaml(out, x, &inner, Ghost(ind + 2));
        assert(out@ =~= old(out)@ + yaml_tail(x@, ind));
    } else {
        out.append(" ");
        write_json(out, x);
        out.append("\n");
        assert(out@ =~= old(out)@ + yaml_tail(x@, ind));
    }
}

/// Appends the block YAML text of `v`, indented by `pad`.
pub fn write_yaml(out: &mut String, v: &ValueRef, pad: &String, Ghost(ind): Ghost<nat>)
    requires
        pad@ == spaces(ind),
    ensures
        final(out)@ == old(out)@ + yaml_of(v@, ind),
    decreases v@, 2nat, 0nat,
{
    if !value_is_block(v) {
        write_json(out, v);
        out.append("\n");
        return ;
    }
    let ghost start = out@;
    match v {
        ValueRef::List(items) => {
            proof { lemma_model_list(*items); }
            let mut i: usize = 0;
            assert(out@ =~= start + yaml_items(v@, 0, ind));
            while i < items.len()
                invariant
                    pad@ == spaces(ind),
                    i <= items@.len(),
                    v@ == Val::List(vals(items@)),
                    out@ == start + yaml_items(v@, i as nat, ind),
                decreases items@.len() - i,
            {
                assert(v@->List_0[i as int] == items@[i as int]@);
                out.append(pad.as_str());
                out.append("-");
                write_yaml_tail(out, &items[i], pad, Ghost(ind));
                assert(out@ =~= start + yaml_items(v@, (i + 1) as nat, ind));
                i = i + 1;
            }
            assert(yaml_of(v@, ind) == yaml_items(v@, items@.len() as nat, ind));
        },
        ValueRef::Dict(_) | ValueRef::Schema(_) => {
            let es = match v {
                ValueRef::Schema(s) => {
                    proof { lemma_model_schema(*s); }
                    &s.config
                },
                ValueRef::Dict(d) => {
                    proof { lemma_model_dict(*d); }
                    d
                },
                _ => {
                    return ;
                },
            };
            let mut i: usize = 0;
            assert(out@ =~= start + yaml_members(v@, 0, ind));
            while i < es.len()
                invariant
                    pad@ == spaces(ind),
                    i <= es@.len(),
                    ents(es@) == v@.entries(),
                    v@.is_config(),
                    out@ == start + yaml_members(v@, i as nat, ind),
                decreases es@.len() - i,
            {
                assert(v@.entries()[i as int] == (es@[i as int].0@, es@[i as int].1@));
                proof { lemma_entry_decreases(v@, i as int); }
                out.append(pad.as_str());
                write_quoted(out, &es[i].0);
                out.append(":");
                write_yaml_tail(out, &es[i].1, pad, Ghost(ind));
                assert(out@ =~= start + yaml_members(v@, (i + 1) as nat, ind));
                i = i + 1;
            }
            assert(!(v@ is List));
            assert(yaml_of(v@, ind) == yaml_members(v@, es@.len() as nat, ind));
        },
        _ => {},
    }
}

/// `a` orders before or with `b`: character codes compared left to right,
/// a prefix first.
pub open spec fn key_le(a: Seq<char>, b: Seq<char>) -> bool
    decreases a.len(),
{
    if a.len() == 0 {
        true
    } else if b.len() == 0 {
        false
    } else if a[0] != b[0] {
        (a[0] as u32) < (b[0] as u32)
    } else {
        key_le(a.drop_first(), b.drop_first())
    }
}

/// `e` inserted into `s` after every entry that orders before or with it,
/// looking from the end.
pub open spec fn insert_sorted(s: Seq<(Seq<char>, Val)>, e: (Seq<char>, Val)) -> Seq<(Seq<char>, Val)>
    decreases s.len(),
{
    if s.len() == 0 {
        seq![e]
    } else if key_le(s.last().0, e.0) {
        s.push(e)
    } else {
        insert_sorted(s.drop_last(), e).push(s.last())
    }
}

/// The entries ordered by key; entries with equal keys keep their order.
pub open spec fn sort_entries(s: Seq<(Seq<char>, Val)>) -> Seq<(Seq<char>, Val)>
    decreases s.len(),
{
    if s.len() == 0 {
        s
    } else {
        insert_sorted(sort_entries(s.drop_last()), s.last())
    }
}

/// `v` with the entries of every config-shaped value in it ordered by key.
pub open spec fn sorted_val(v: Val) -> Val
    decreases v, 1nat, 0nat,
{
    match v {
        Val::List(items) => Val::List(sorted_items(v, items.len() as nat)),
        Val::Dict(d) => Val::Dict(sort_entries(sorted_members(v, d.len() as nat))),
        Val::Schema { name, pkgpath, config, meta } => Val::Schema {
            name,
            pkgpath,
            config: sort_entries(sorted_members(v, config.len() as nat)),
            meta,
        },
        _ => v,
    }
}

pub open spec fn sorted_items(v: Val, n: nat) -> Seq<Val>
    decreases v, 0nat, n,
{
    if !(v is List) || n == 0 || n > v->List_0.len() {
        Seq::empty()
    } else {
        sorted_items(v, (n - 1) as nat).push(sorted_val(v->List_0[n - 1]))
    }
}

pub open spec fn sorted_members(v: Val, n: nat) -> Seq<(Seq<char>, Val)>
    decreases v, 0nat, n,
{
    if n == 0 || n > v.entries().len() {
        Seq::empty()
    } else {
        let e = v.entries()[n - 1];
        sorted_members(v, (n - 1) as nat).push((e.0, sorted_val(e.1)))
    }
}

/// `v`, with its keys ordered when `sort`.
pub open spec fn arranged(v: Val, sort: bool) -> Val {
    if sort {
        sorted_val(v)
    } else {
        v
    }
}

fn key_le_exec(a: &String, b: &String) -> (r: bool)
    ensures
        r == key_le(a@, b@),
{
    let sa = a.as_str();
    let sb = b.as_str();
    let n = sa.unicode_len();
    let m = sb.unicode_len();
    let mut i: usize = 0;
    assert(a@.subrange(0, n as int) =~= a@);
    assert(b@.subrange(0, m as int) =~= b@);
    while i < n
        invariant
            sa@ == a@,
            sb@ == b@,
            n == a@.len(),
            m == b@.len(),
            i <= n,
            i <= m,
            key_le(a@, b@) == key_le(a@.subrange(i as int, n as int), b@.subrange(i as int, m as int)),
        decreases n - i,
    {
        let ghost x = a@.subrange(i as int, n as int);
        let ghost y = b@.subrange(i as int, m as int);
        if i >= m {
            assert(y.len() == 0);
            return false;
        }
        let ca = sa.get_char(i);
        let cb = sb.get_char(i);
        assert(x[0] == ca && y[0] == cb);
        if ca != cb {
            return (ca as u32) < (cb as u32);
        }
        assert(x.drop_first() =~= a@.subrange(i + 1, n as int));
        assert(y.drop_first() =~= b@.subrange(i + 1, m as int));
        i = i + 1;
    }
    assert(a@.subrange(i as int, n as int).len() == 0);
    true
}

proof fn lemma_insert_sorted_split(s: Seq<(Seq<char>, Val)>, e: (Seq<char>, Val), p: int)
    requires
        0 <= p <= s.len(),
        p == 0 || key_le(s[p - 1].0, e.0),
        forall|j: int| p <= j < s.len() ==> !key_le(#[trigger] s[j].0, e.0),
    ensures
        insert_sorted(s, e) == s.subrange(0, p).push(e) + s.subrange(p, s.len() as int),
    decreases s.len(),
{
    if s.len() == 0 {
        assert(seq![e] =~= s.subrange(0, p).push(e) + s.subrange(p, s.len() as int));
    } else if p == s.len() {
        assert(s.push(e) =~= s.subrange(0, p).push(e) + s.subrange(p, s.len() as int));
    } else {
        assert(!key_le(s[s.len() - 1].0, e.0));
        let t = s.drop_last();
        assert forall|j: int| p <= j < t.len() implies !key_le(#[trigger] t[j].0, e.0) by {
            assert(t[j] == s[j]);
        }
        if p > 0 {
            assert(t[p - 1] == s[p - 1]);
        }
        lemma_insert_sorted_split(t, e, p);
        assert(insert_sorted(t, e).push(s.last()) =~= s.subrange(0, p).push(e) + s.subrange(p, s.len() as int));
    }
}

/// Inserts `e` into `es` as `insert_sorted` does.
fn insert_entry(es: &mut Vec<(String, ValueRef)>, e: (String, ValueRef))
    ensures
        ents(final(es)@) == insert_sorted(ents(old(es)@), (e.0@, e.1@)),
{
    let ghost s = ents(es@);
    let ghost ee = (e.0@, e.1@);
    let mut p: usize = es.len();
    let mut done = false;
    while p > 0 && !done
        invariant
            p <= es@.len(),
            s == ents(es@),
            ee.0 == e.0@,
            forall|j: int| p <= j < s.len() ==> !key_le(#[trigger] s[j].0, ee.0),
            done ==> p > 0 && key_le(s[p - 1].0, ee.0),
        decreases p + (if done { 0int } else { 1int }),
    {
        assert(s[p - 1].0 == es@[p - 1].0@);
        if key_le_exec(&es[p - 1].0, &e.0) {
            done = true;
        } else {
            p = p - 1;
        }
    }
    proof {
        lemma_insert_sorted_split(s, ee, p as int);
    }
    es.insert(p, e);
    assert(ents(es@) =~= s.subrange(0, p as int).push(ee) + s.subrange(p as int, s.len() as int));
}

/// Moves the entries of `es`, each value arranged, into a vector ordered by key.
fn sorted_entries_exec(es: Vec<(String, ValueRef)>, Ghost(owner): Ghost<Val>) -> (r: Vec<(String, ValueRef)>)
    requires
        ents(es@) == owner.entries(),
    ensures
        ents(r@) == sort_entries(sorted_members(owner, owner.entries().len() as nat)),
    decreases owner, 0nat, owner.entries().len() + 1,
{
    let mut es = es;
    let len = es.len();
    let ghost n = len as nat;
    let mut out: Vec<(String, ValueRef)> = Vec::new();
    let mut i: usize = 0;
    assert(ents(out@) =~= sort_entries(sorted_members(owner, 0)));
    while es.len() > 0
        invariant
            n == owner.entries().len(),
            n <= usize::MAX,
            i + es@.len() == n,
            ents(es@) == owner.entries().subrange(i as int, n as int),
            ents(out@) == sort_entries(sorted_members(owner, i as nat)),
        decreases es@.len(),
    {
        let ghost before = ents(es@);
        assert(before[0] == owner.entries()[i as int]);
        let (k, x) = es.remove(0);
        assert(before[0] == (k@, x@));
        assert(ents(es@) =~= before.subrange(1, before.len() as int));
        assert(ents(es@) =~= owner.entries().subrange(i + 1, n as int));
        proof { lemma_entry_decreases(owner, i as int); }
        let y = arrange(x);
        let ghost m = sorted_members(owner, i as nat);
        assert(sorted_members(owner, (i + 1) as nat) == m.push((k@, y@)));
        assert(m.push((k@, y@)).drop_last() =~= m);
        insert_entry(&mut out, (k, y));
        i = i + 1;
    }
    out
}

/// `v` with the keys of every config-shaped value in it in order (see `sorted_val`).
#[verifier::loop_isolation(false)]
pub fn arrange(v: ValueRef) -> (r: ValueRef)
    ensures
        r@ == sorted_val(v@),
    decreases v@, 1nat, 0nat,
{
    let ghost orig = v@;
    match v {
        ValueRef::List(items) => {
            proof { lemma_model_list(items); }
            let mut items = items;
            let len = items.len();
            let ghost n = len as nat;
            let mut out: Vec<ValueRef> = Vec::new();
            let mut i: usize = 0;
            assert(vals(out@) =~= sorted_items(orig, 0));
            while items.len() > 0
                invariant
                    orig is List,
                    n <= usize::MAX,
                    n == orig->List_0.len(),
                    i + items@.len() == n,
                    vals(items@) == orig->List_0.subrange(i as int, n as int),
                    vals(out@) == sorted_items(orig, i as nat),
                decreases items@.len(),
            {
                let ghost before = vals(items@);
                assert(before[0] == orig->List_0[i as int]);
                let x = items.remove(0);
                assert(before[0] == x@);
                assert(vals(items@) =~= before.subrange(1, before.len() as int));
                assert(vals(items@) =~= orig->List_0.subrange(i + 1, n as int));
                assert(decreases_to!(orig => orig->List_0[i as int]));
                let y = arrange(x);
                proof { crate::value::lemma_vals_push(out@, y); }
                out.push(y);
                i = i + 1;
            }
            proof { lemma_model_list(out); }
            ValueRef::List(out)
        },
        ValueRef::Dict(d) => {
            proof { lemma_model_dict(d); }
            let out = sorted_entries_exec(d, Ghost(orig));
            proof { lemma_model_dict(out); }
            ValueRef::Dict(out)
        },
        ValueRef::Schema(s) => {
            proof { lemma_model_schema(s); }
            let SchemaValue { name, pkgpath, config, meta } = s;
            let config = sorted_entries_exec(config, Ghost(orig));
            let r = SchemaValue { name, pkgpath, config, meta };
            proof { lemma_model_schema(r); }
            ValueRef::Schema(r)
        },
        other => other,
    }
}

} // verus!
