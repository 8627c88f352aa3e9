//! Canonical renderings of scalar values: the sort key that orders
//! set-collected values (the rendered JSON of a boxed scalar), and the
//! boxed-scalar fact view of query arguments.

use vstd::prelude::*;
use crate::render::{push_str, push_nat, push_int, nat_digits, int_digits};
use crate::value::{FactView, Value};

verus! {

/// What Rust's `Debug` formatting of a string produces: the string in
/// double quotes with its special and non-printable characters escaped.
pub uninterp spec fn str_debug(s: Seq<char>) -> Seq<char>;

/// std's `Debug` formatting of a `str` (`format!("{:?}", s)`). The
/// contract claims only that the text is a function of the string; the
/// escaping rules themselves are not stated.
#[verifier::external_body]
pub(crate) fn debug_str(s: &str) -> (r: String)
    ensures
        r@ == str_debug(s@),
{
    format!("{:?}", s)
}

/// The canonical key of a string whose `Debug` rendering is `rendered`.
pub open spec fn string_key_text(rendered: Seq<char>) -> Seq<char> {
    "{\"type\":\"String\",\"fields\":{\"value\":"@ + rendered + "}}"@
}

/// The canonical sort key of a scalar: the JSON rendering
/// `{"type":T,"fields":{"value":V}}` for booleans, longs and strings
/// (compared lexicographically: type name first, then the rendered
/// value); other values render as their debug text.
pub open spec fn canon_key(v: Value) -> Seq<char> {
    match v {
        Value::Bool(b) => "{\"type\":\"Boolean\",\"fields\":{\"value\":"@ + (if b { "true"@ } else { "false"@ }) + "}}"@,
        Value::I64(n) => "{\"type\":\"Long\",\"fields\":{\"value\":"@ + int_digits(n as int) + "}}"@,
        Value::Str(s) => string_key_text(str_debug(s@)),
        Value::Null => "Null"@,
        Value::Dec { u, s } => "Dec { u: "@ + int_digits(u as int) + ", s: "@ + nat_digits(s as nat) + " }"@,
    }
}

/// The canonical key of a string from its `Debug` rendering.
pub fn string_canon_key(rendered: &str) -> (r: String)
    ensures
        r@ == string_key_text(rendered@),
{
    let mut k = String::new();
    push_str(&mut k, "{\"type\":\"String\",\"fields\":{\"value\":");
    push_str(&mut k, rendered);
    push_str(&mut k, "}}");
    proof {
        assert(k@ =~= string_key_text(rendered@));
    }
    k
}

/// The canonical sort key of a scalar value (see `canon_key`).
pub fn scalar_canon_key(v: &Value) -> (r: String)
    ensures
        r@ == canon_key(*v),
{
    match v {
        Value::Bool(b) => {
            let mut k = String::new();
            push_str(&mut k, "{\"type\":\"Boolean\",\"fields\":{\"value\":");
            if *b {
                push_str(&mut k, "true");
            } else {
                push_str(&mut k, "false");
            }
            push_str(&mut k, "}}");
            proof {
                assert(k@ =~= canon_key(*v));
            }
            k
        },
        Value::I64(n) => {
            let mut k = String::new();
            push_str(&mut k, "{\"type\":\"Long\",\"fields\":{\"value\":");
            push_int(&mut k, *n as i128);
            push_str(&mut k, "}}");
            proof {
                assert(k@ =~= canon_key(*v));
            }
            k
        },
        Value::Str(s) => {
            let d = debug_str(s.as_str());
            string_canon_key(d.as_str())
        },
        Value::Null => {
            let mut k = String::new();
            push_str(&mut k, "Null");
            proof {
                assert(k@ =~= canon_key(*v));
            }
            k
        },
        Value::Dec { u, s } => {
            let mut k = String::new();
            push_str(&mut k, "Dec { u: ");
            push_int(&mut k, *u);
            push_str(&mut k, ", s: ");
            push_nat(&mut k, *s as u128);
            push_str(&mut k, " }");
            proof {
                assert(k@ =~= canon_key(*v));
            }
            k
        },
    }
}

/// The boxed-type name a scalar renders under.
pub open spec fn scalar_type_label(v: Value) -> Seq<char> {
    match v {
        Value::I64(_) => "Long"@,
        Value::Str(_) => "String"@,
        Value::Bool(_) => "Boolean"@,
        Value::Null => "Null"@,
        Value::Dec { .. } => "Decimal"@,
    }
}

/// A scalar as a boxed fact view: its boxed type name, one field `value`,
/// no handle (`u32::MAX`) and no elements.
pub fn scalar_view(v: Value) -> (r: FactView)
    ensures
        r.type_label@ == scalar_type_label(v),
        r.fields@.len() == 1,
        r.fields@[0].0@ == "value"@,
        r.fields@[0].1 == v,
        r.handle == u32::MAX,
        r.elems is None,
{
    let label = match &v {
        Value::I64(_) => "Long",
        Value::Str(_) => "String",
        Value::Bool(_) => "Boolean",
        Value::Null => "Null",
        Value::Dec { .. } => "Decimal",
    };
    let mut t = String::new();
    push_str(&mut t, label);
    let mut name = String::new();
    push_str(&mut name, "value");
    let mut fields: Vec<(String, Value)> = Vec::new();
    fields.push((name, v));
    proof {
        assert(t@ =~= scalar_type_label(v));
        assert(name@ =~= "value"@);
    }
    FactView { type_label: t, fields, handle: u32::MAX, elems: None }
}

} // verus!
