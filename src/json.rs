//! Options of the JSON encoder, read from keyword arguments.
use vstd::prelude::*;
use crate::value::{Val, ValueRef};

verus! {

/// How a value is written as JSON.
#[derive(Debug, Clone, Copy, PartialEq, Eq)]
pub struct JsonEncodeOptions {
    pub sort_keys: bool,
    pub indent: i64,
    pub ignore_private: bool,
    pub ignore_none: bool,
}

impl Default for JsonEncodeOptions {
    fn default() -> (r: JsonEncodeOptions)
        ensures
            !r.sort_keys,
            r.indent == 0,
            !r.ignore_private,
            !r.ignore_none,
    {
        JsonEncodeOptions { sort_keys: false, indent: 0, ignore_private: false, ignore_none: false }
    }
}

/// The boolean keyword argument `name`, when given as a boolean.
pub open spec fn kwarg_bool(kwargs: Val, name: Seq<char>) -> Option<bool> {
    match kwargs.get_key(name) {
        Some(Val::Bool(b)) => Some(b),
        _ => None,
    }
}

/// The integer keyword argument `name`, when given as an integer.
pub open spec fn kwarg_int(kwargs: Val, name: Seq<char>) -> Option<i64> {
    match kwargs.get_key(name) {
        Some(Val::Int(i)) => Some(i),
        _ => None,
    }
}

fn get_bool(kwargs: &ValueRef, name: &str) -> (r: Option<bool>)
    ensures
        r == kwarg_bool(kwargs@, name@),
{
    match kwargs.get_by_key(name) {
        Some(ValueRef::Bool(b)) => Some(*b),
        _ => None,
    }
}

fn get_int(kwargs: &ValueRef, name: &str) -> (r: Option<i64>)
    ensures
        r == kwarg_int(kwargs@, name@),
{
    match kwargs.get_by_key(name) {
        Some(ValueRef::Int(i)) => Some(*i),
        _ => None,
    }
}

/// Encoder options from the keyword arguments `sort_keys`, `indent`,
/// `ignore_private` and `ignore_none`; each one absent, or of another
/// type, keeps its default. Other keywords are ignored.
pub fn kwargs_to_opts(kwargs: &ValueRef) -> (r: JsonEncodeOptions)
    ensures
        r.sort_keys == (kwarg_bool(kwargs@, "sort_keys"@) == Some(true)),
        r.indent == (match kwarg_int(kwargs@, "indent"@) {
            Some(i) => i,
            None => 0,
        }),
        r.ignore_private == (kwarg_bool(kwargs@, "ignore_private"@) == Some(true)),
        r.ignore_none == (kwarg_bool(kwargs@, "ignore_none"@) == Some(true)),
{
    let mut opts = JsonEncodeOptions::default();
    if let Some(sort_keys) = get_bool(kwargs, "sort_keys") {
        opts.sort_keys = sort_keys;
    }
    if let Some(indent) = get_int(kwargs, "indent") {
        opts.indent = indent;
    }
    if let Some(ignore_private) = get_bool(kwargs, "ignore_private") {
        opts.ignore_private = ignore_private;
    }
    if let Some(ignore_none) = get_bool(kwargs, "ignore_none") {
        opts.ignore_none = ignore_none;
    }
    opts
}

} // verus!
