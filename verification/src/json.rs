//! The JSON value grammar: an alternation over null, boolean, number,
//! string, array and object, with arrays and objects recursing back into
//! the value parser.
//!
//! The grammar deliberately covers only a JSON subset: no string-escape
//! decoding, no exponent notation, and an object must hold at least one
//! pair while an array may be empty.

use vstd::prelude::*;

use crate::combinator::{
    digits_val, is_digit_char, spec_digits_end, spec_find_char, spec_has_lit,
    spec_sep_with_space, spec_skip_ws,
};
use crate::combinator::{char_at_is, find_char, match_lit, scan_digits, sep_with_space, skip_ws,
    str_eq_str, take_range, digits_to_u64};
use crate::combinator::{res_err, res_ok};
use vstd::string::StrSliceExecFns;
use vstd::string::StringExecFns;
use crate::combinator::lemma_digits_val_nonneg;
use crate::combinator::{ErrorKind, PRes, ParseError};

verus! {

broadcast use vstd::std_specs::vec::axiom_vec_index_decreases;

/// The model of a JSON number: a signed 64-bit integer, or the textual
/// form of an "int.frac" literal together with its sign.
pub enum NumberModel {
    Int(int),
    Float { neg: bool, digits: Seq<char> },
}

/// The model of a JSON value. An object is a mapping from key to value:
/// insertion order is not significant and a duplicate key keeps only the
/// value written last.
pub enum ValueModel {
    Null,
    Bool(bool),
    Number(NumberModel),
    Str(Seq<char>),
    Arr(Seq<ValueModel>),
    Obj(Map<Seq<char>, ValueModel>),
}

/// The mapping denoted by a sequence of key-value pairs, later pairs
/// overwriting earlier ones.
pub open spec fn obj_map(ps: Seq<(Seq<char>, ValueModel)>) -> Map<Seq<char>, ValueModel>
    decreases ps.len(),
{
    if ps.len() == 0 {
        Map::empty()
    } else {
        obj_map(ps.drop_last()).insert(ps.last().0, ps.last().1)
    }
}

/// No two pairs share a key.
pub open spec fn unique_keys(ps: Seq<(Seq<char>, ValueModel)>) -> bool {
    forall|a: int, b: int| 0 <= a < b < ps.len() ==> ps[a].0 != ps[b].0
}

/// A key is bound in the object mapping exactly when some pair holds it.
pub proof fn lemma_obj_map_contains(ps: Seq<(Seq<char>, ValueModel)>, k: Seq<char>)
    ensures
        obj_map(ps).dom().contains(k) <==> exists|n: int| 0 <= n < ps.len() && ps[n].0 == k,
    decreases ps.len(),
{
    if ps.len() > 0 {
        lemma_obj_map_contains(ps.drop_last(), k);
        if ps.last().0 == k {
            assert(ps[ps.len() - 1].0 == k);
        } else {
            if obj_map(ps).dom().contains(k) {
                let n = choose|n: int|
                    0 <= n < ps.drop_last().len() && ps.drop_last()[n].0 == k;
                assert(ps[n].0 == k);
            }
            if exists|n: int| 0 <= n < ps.len() && ps[n].0 == k {
                let n = choose|n: int| 0 <= n < ps.len() && ps[n].0 == k;
                assert(ps.drop_last()[n].0 == k);
            }
        }
    }
}

/// Duplicate keys resolve to the last occurrence: the mapping binds a
/// pair's key to that pair's value whenever no later pair repeats the key.
pub proof fn lemma_obj_map_last_occurrence(ps: Seq<(Seq<char>, ValueModel)>, n: int)
    requires
        0 <= n < ps.len(),
        forall|m: int| n < m < ps.len() ==> ps[m].0 != ps[n].0,
    ensures
        obj_map(ps).dom().contains(ps[n].0),
        obj_map(ps)[ps[n].0] == ps[n].1,
    decreases ps.len(),
{
    if n == ps.len() - 1 {
        assert(ps.last() == ps[n]);
    } else {
        assert(ps.last().0 != ps[n].0);
        assert(ps.drop_last()[n] == ps[n]);
        assert forall|m: int| n < m < ps.drop_last().len() implies ps.drop_last()[m].0
            != ps.drop_last()[n].0 by {
            assert(ps.drop_last()[m] == ps[m]);
        }
        lemma_obj_map_last_occurrence(ps.drop_last(), n);
    }
}

/// Under unique keys every pair is visible in the mapping.
pub proof fn lemma_obj_map_index(ps: Seq<(Seq<char>, ValueModel)>, n: int)
    requires
        unique_keys(ps),
        0 <= n < ps.len(),
    ensures
        obj_map(ps).dom().contains(ps[n].0),
        obj_map(ps)[ps[n].0] == ps[n].1,
{
    lemma_obj_map_last_occurrence(ps, n);
}

/// Building an object is order-insensitive: unique-keyed pair sequences
/// with the same pairs denote equal mappings.
pub proof fn lemma_obj_map_order_insensitive(
    ps1: Seq<(Seq<char>, ValueModel)>,
    ps2: Seq<(Seq<char>, ValueModel)>,
)
    requires
        unique_keys(ps1),
        unique_keys(ps2),
        forall|p: (Seq<char>, ValueModel)| ps1.contains(p) <==> ps2.contains(p),
    ensures
        obj_map(ps1) == obj_map(ps2),
{
    let m1 = obj_map(ps1);
    let m2 = obj_map(ps2);
    assert forall|k: Seq<char>| m1.dom().contains(k) == m2.dom().contains(k) by {
        lemma_obj_map_contains(ps1, k);
        lemma_obj_map_contains(ps2, k);
        if exists|n: int| 0 <= n < ps1.len() && ps1[n].0 == k {
            let n = choose|n: int| 0 <= n < ps1.len() && ps1[n].0 == k;
            assert(ps1.contains(ps1[n]));
            assert(ps2.contains(ps1[n]));
            let j = choose|j: int| 0 <= j < ps2.len() && ps2[j] == ps1[n];
            assert(ps2[j].0 == k);
        }
        if exists|n: int| 0 <= n < ps2.len() && ps2[n].0 == k {
            let n = choose|n: int| 0 <= n < ps2.len() && ps2[n].0 == k;
            assert(ps2.contains(ps2[n]));
            assert(ps1.contains(ps2[n]));
            let j = choose|j: int| 0 <= j < ps1.len() && ps1[j] == ps2[n];
            assert(ps1[j].0 == k);
        }
    }
    assert forall|k: Seq<char>| m1.dom().contains(k) implies m1[k] == m2[k] by {
        lemma_obj_map_contains(ps1, k);
        let n = choose|n: int| 0 <= n < ps1.len() && ps1[n].0 == k;
        lemma_obj_map_index(ps1, n);
        assert(ps1.contains(ps1[n]));
        assert(ps2.contains(ps1[n]));
        let j = choose|j: int| 0 <= j < ps2.len() && ps2[j] == ps1[n];
        lemma_obj_map_index(ps2, j);
    }
    assert(m1.dom() =~= m2.dom());
    assert(m1 =~= m2);
}

/// Parse the literal `null`.
pub open spec fn spec_parse_null(s: Seq<char>, i: int) -> PRes<()> {
    if spec_has_lit(s, i, "null"@) {
        PRes::Parsed { v: (), next: i + 4 }
    } else {
        PRes::Failed { kind: ErrorKind::Token, at: i }
    }
}

/// Parse the literal `true` or `false`.
pub open spec fn spec_parse_bool(s: Seq<char>, i: int) -> PRes<bool> {
    if spec_has_lit(s, i, "true"@) {
        PRes::Parsed { v: true, next: i + 4 }
    } else if spec_has_lit(s, i, "false"@) {
        PRes::Parsed { v: false, next: i + 5 }
    } else {
        PRes::Failed { kind: ErrorKind::Token, at: i }
    }
}

/// Parse a number: an optional `-`, a digit run read as a signed 64-bit
/// integer and, when a `.` and a second digit run follow immediately, the
/// two runs concatenated around the dot as a float literal. Either run
/// failing to fit in a signed 64-bit value is a format failure.
pub open spec fn spec_parse_num(s: Seq<char>, i: int) -> PRes<NumberModel> {
    let neg = i < s.len() && s[i] == '-';
    let i1 = if neg {
        i + 1
    } else {
        i
    };
    let e1 = spec_digits_end(s, i1);
    let iv = digits_val(s.subrange(i1, e1));
    if e1 == i1 {
        PRes::Failed { kind: ErrorKind::Token, at: i1 }
    } else if iv > i64::MAX as int {
        PRes::Failed { kind: ErrorKind::Format, at: i1 }
    } else if e1 < s.len() && s[e1] == '.' {
        let e2 = spec_digits_end(s, e1 + 1);
        let fv = digits_val(s.subrange(e1 + 1, e2));
        if e2 == e1 + 1 {
            PRes::Failed { kind: ErrorKind::Token, at: e1 + 1 }
        } else if fv > i64::MAX as int {
            PRes::Failed { kind: ErrorKind::Format, at: e1 + 1 }
        } else {
            PRes::Parsed {
                v: NumberModel::Float {
                    neg,
                    digits: s.subrange(i1, e1) + seq!['.'] + s.subrange(e1 + 1, e2),
                },
                next: e2,
            }
        }
    } else {
        PRes::Parsed {
            v: NumberModel::Int(
                if neg {
                    -iv
                } else {
                    iv
                },
            ),
            next: e1,
        }
    }
}

/// Parse a quoted string: every character up to the first closing quote,
/// taken literally with no escape interpretation.
pub open spec fn spec_parse_string(s: Seq<char>, i: int) -> PRes<Seq<char>> {
    if i < s.len() && s[i] == '"' {
        let j = spec_find_char(s, i + 1, '"');
        if j < s.len() {
            PRes::Parsed { v: s.subrange(i + 1, j), next: j + 1 }
        } else {
            PRes::Failed { kind: ErrorKind::Token, at: i + 1 }
        }
    } else {
        PRes::Failed { kind: ErrorKind::Token, at: i }
    }
}

/// Parse a value: the alternatives are tried in the fixed order null,
/// boolean, number, string, array, object, committing to the first
/// success; when every alternative fails the failure refers to the offset
/// where matching was attempted.
pub open spec fn spec_parse_value(s: Seq<char>, i: int) -> PRes<ValueModel>
    recommends
        0 <= i <= s.len(),
    decreases s.len() - i, 3int,
{
    match spec_parse_null(s, i) {
        PRes::Parsed { v: _, next } => PRes::Parsed { v: ValueModel::Null, next },
        PRes::Failed { .. } => match spec_parse_bool(s, i) {
            PRes::Parsed { v, next } => PRes::Parsed { v: ValueModel::Bool(v), next },
            PRes::Failed { .. } => match spec_parse_num(s, i) {
                PRes::Parsed { v, next } => PRes::Parsed { v: ValueModel::Number(v), next },
                PRes::Failed { .. } => match spec_parse_string(s, i) {
                    PRes::Parsed { v, next } => PRes::Parsed { v: ValueModel::Str(v), next },
                    PRes::Failed { .. } => match spec_parse_array(s, i) {
                        PRes::Parsed { v, next } => PRes::Parsed { v: ValueModel::Arr(v), next },
                        PRes::Failed { .. } => match spec_parse_object(s, i) {
                            PRes::Parsed { v, next } => PRes::Parsed {
                                v: ValueModel::Obj(obj_map(v)),
                                next,
                            },
                            PRes::Failed { .. } => PRes::Failed {
                                kind: ErrorKind::Token,
                                at: i,
                            },
                        },
                    },
                },
            },
        },
    }
}

/// Parse an array: `[`, zero or more comma-separated values, `]`, with
/// whitespace tolerated around every punctuation token.
pub open spec fn spec_parse_array(s: Seq<char>, i: int) -> PRes<Seq<ValueModel>>
    recommends
        0 <= i <= s.len(),
    decreases s.len() - i, 2int,
{
    match spec_sep_with_space(s, i, '[') {
        None => PRes::Failed { kind: ErrorKind::Token, at: spec_skip_ws(s, i) },
        Some(b) => if b <= i || b > s.len() {
            PRes::Failed { kind: ErrorKind::Token, at: i }
        } else {
            let (vs, e) = spec_parse_elems(s, b);
            match spec_sep_with_space(s, e, ']') {
                Some(j) => PRes::Parsed { v: vs, next: j },
                None => PRes::Failed { kind: ErrorKind::Token, at: spec_skip_ws(s, e) },
            }
        },
    }
}

/// Zero or more comma-separated values; stops, without consuming the
/// attempt, as soon as no further value or separator matches. Never fails.
pub open spec fn spec_parse_elems(s: Seq<char>, i: int) -> (Seq<ValueModel>, int)
    recommends
        0 <= i <= s.len(),
    decreases s.len() - i, 4int,
{
    match spec_parse_value(s, i) {
        PRes::Parsed { v, next } => if next <= i || next > s.len() {
            (seq![v], next)
        } else {
            let (rest, end) = spec_parse_elems_more(s, next);
            (seq![v] + rest, end)
        },
        PRes::Failed { .. } => (Seq::empty(), i),
    }
}

/// Zero or more separator-then-value steps after an element.
pub open spec fn spec_parse_elems_more(s: Seq<char>, i: int) -> (Seq<ValueModel>, int)
    recommends
        0 <= i <= s.len(),
    decreases s.len() - i, 0int,
{
    match spec_sep_with_space(s, i, ',') {
        None => (Seq::empty(), i),
        Some(m) => if m <= i || m > s.len() {
            (Seq::empty(), i)
        } else {
            match spec_parse_value(s, m) {
                PRes::Failed { .. } => (Seq::empty(), i),
                PRes::Parsed { v, next } => if next <= m || next > s.len() {
                    (seq![v], next)
                } else {
                    let (rest, end) = spec_parse_elems_more(s, next);
                    (seq![v] + rest, end)
                },
            }
        },
    }
}

/// Parse one `"key" : value` pair.
pub open spec fn spec_parse_member(s: Seq<char>, i: int) -> PRes<(Seq<char>, ValueModel)>
    recommends
        0 <= i <= s.len(),
    decreases s.len() - i, 0int,
{
    match spec_parse_string(s, i) {
        PRes::Failed { kind, at } => PRes::Failed { kind, at },
        PRes::Parsed { v: key, next: k } => match spec_sep_with_space(s, k, ':') {
            None => PRes::Failed { kind: ErrorKind::Token, at: spec_skip_ws(s, k) },
            Some(m) => if m <= i || m > s.len() {
                PRes::Failed { kind: ErrorKind::Token, at: i }
            } else {
                match spec_parse_value(s, m) {
                    PRes::Failed { kind, at } => PRes::Failed { kind, at },
                    PRes::Parsed { v, next } => PRes::Parsed { v: (key, v), next },
                }
            },
        },
    }
}

/// One or more comma-separated pairs: the member repetition requires at
/// least one pair, which is why an empty object is rejected.
pub open spec fn spec_parse_members(s: Seq<char>, i: int) -> PRes<
    Seq<(Seq<char>, ValueModel)>,
>
    recommends
        0 <= i <= s.len(),
    decreases s.len() - i, 1int,
{
    match spec_parse_member(s, i) {
        PRes::Failed { kind, at } => PRes::Failed { kind, at },
        PRes::Parsed { v, next } => if next <= i || next > s.len() {
            PRes::Parsed { v: seq![v], next }
        } else {
            let (rest, end) = spec_parse_members_more(s, next);
            PRes::Parsed { v: seq![v] + rest, next: end }
        },
    }
}

/// Zero or more separator-then-pair steps after a pair.
pub open spec fn spec_parse_members_more(s: Seq<char>, i: int) -> (
    Seq<(Seq<char>, ValueModel)>,
    int,
)
    recommends
        0 <= i <= s.len(),
    decreases s.len() - i, 0int,
{
    match spec_sep_with_space(s, i, ',') {
        None => (Seq::empty(), i),
        Some(m) => if m <= i || m > s.len() {
            (Seq::empty(), i)
        } else {
            match spec_parse_member(s, m) {
                PRes::Failed { .. } => (Seq::empty(), i),
                PRes::Parsed { v, next } => if next <= m || next > s.len() {
                    (seq![v], next)
                } else {
                    let (rest, end) = spec_parse_members_more(s, next);
                    (seq![v] + rest, end)
                },
            }
        },
    }
}

/// Parse an object: `{`, one or more comma-separated pairs, `}`, with
/// whitespace tolerated around every punctuation token.
pub open spec fn spec_parse_object(s: Seq<char>, i: int) -> PRes<Seq<(Seq<char>, ValueModel)>>
    recommends
        0 <= i <= s.len(),
    decreases s.len() - i, 2int,
{
    match spec_sep_with_space(s, i, '{') {
        None => PRes::Failed { kind: ErrorKind::Token, at: spec_skip_ws(s, i) },
        Some(b) => if b <= i || b > s.len() {
            PRes::Failed { kind: ErrorKind::Token, at: i }
        } else {
            match spec_parse_members(s, b) {
                PRes::Failed { kind, at } => PRes::Failed { kind, at },
                PRes::Parsed { v, next } => match spec_sep_with_space(s, next, '}') {
                    Some(j) => PRes::Parsed { v, next: j },
                    None => PRes::Failed { kind: ErrorKind::Token, at: spec_skip_ws(s, next) },
                },
            }
        },
    }
}

/// A parsed JSON number. A float keeps the literal text of its two digit
/// runs joined by the dot, with the sign held apart, so that the numeric
/// value is that of the concatenated text.
#[derive(Debug, Clone)]
pub enum Num {
    Int(i64),
    Float { neg: bool, digits: String },
}

/// A parsed JSON value. An object holds its pairs in insertion order with
/// unique keys; equality of objects disregards that order.
#[derive(Debug)]
pub enum JsonValue {
    Null,
    Bool(bool),
    Number(Num),
    String(String),
    Array(Vec<JsonValue>),
    Object(Vec<(String, JsonValue)>),
}

impl View for Num {
    type V = NumberModel;

    open spec fn view(&self) -> NumberModel {
        match self {
            Num::Int(n) => NumberModel::Int(*n as int),
            Num::Float { neg, digits } => NumberModel::Float { neg: *neg, digits: digits@ },
        }
    }
}

/// The model denoted by a parsed value.
pub open spec fn value_model(v: JsonValue) -> ValueModel
    decreases v,
{
    match v {
        JsonValue::Null => ValueModel::Null,
        JsonValue::Bool(b) => ValueModel::Bool(b),
        JsonValue::Number(n) => ValueModel::Number(n@),
        JsonValue::String(t) => ValueModel::Str(t@),
        JsonValue::Array(es) => ValueModel::Arr(
            Seq::new(
                es.len() as nat,
                |k: int|
                    if 0 <= k < es.len() {
                        value_model(es[k])
                    } else {
                        ValueModel::Null
                    },
            ),
        ),
        JsonValue::Object(en) => ValueModel::Obj(
            Map::new(
                |k: Seq<char>| exists|t: int| 0 <= t < en.len() && en[t].0@ == k,
                |k: Seq<char>|
                    {
                        let t = choose|t: int|
                            0 <= t < en.len() && en[t].0@ == k && (forall|u: int|
                                t < u < en.len() ==> en[u].0@ != k);
                        if 0 <= t < en.len() {
                            value_model(en[t].1)
                        } else {
                            ValueModel::Null
                        }
                    },
            ),
        ),
    }
}

impl View for JsonValue {
    type V = ValueModel;

    open spec fn view(&self) -> ValueModel {
        value_model(*self)
    }
}

/// The models of a sequence of parsed values.
pub open spec fn arr_model(es: Seq<JsonValue>) -> Seq<ValueModel> {
    Seq::new(es.len(), |k: int| value_model(es[k]))
}

/// The models of a sequence of parsed key-value entries.
pub open spec fn entries_model(es: Seq<(String, JsonValue)>) -> Seq<(Seq<char>, ValueModel)> {
    Seq::new(es.len(), |k: int| (es[k].0@, value_model(es[k].1)))
}

/// An array's model is the models of its elements.
pub proof fn lemma_array_model(es: Vec<JsonValue>)
    ensures
        value_model(JsonValue::Array(es)) == ValueModel::Arr(arr_model(es@)),
{
    match value_model(JsonValue::Array(es)) {
        ValueModel::Arr(inner) => {
            assert(inner =~= arr_model(es@));
        },
        _ => {
            assert(false);
        },
    }
}

/// Among the entries that hold a present key there is a last occurrence.
pub proof fn lemma_last_occurrence_exists(en: Vec<(String, JsonValue)>, k: Seq<char>)
    requires
        exists|t: int| 0 <= t < en.len() && en[t].0@ == k,
    ensures
        exists|t: int|
            0 <= t < en.len() && en[t].0@ == k && (forall|u: int|
                t < u < en.len() ==> en[u].0@ != k),
{
    lemma_last_occurrence_exists_seq(en@, k);
    let t = choose|t: int|
        0 <= t < en@.len() && en@[t].0@ == k && (forall|u: int|
            t < u < en@.len() ==> en@[u].0@ != k);
    assert(0 <= t < en.len() && en[t].0@ == k && (forall|u: int|
        t < u < en.len() ==> en[u].0@ != k));
}

proof fn lemma_last_occurrence_exists_seq(es: Seq<(String, JsonValue)>, k: Seq<char>)
    requires
        exists|t: int| 0 <= t < es.len() && es[t].0@ == k,
    ensures
        exists|t: int|
            0 <= t < es.len() && es[t].0@ == k && (forall|u: int|
                t < u < es.len() ==> es[u].0@ != k),
    decreases es.len(),
{
    let last = es.len() - 1;
    if es[last].0@ == k {
        assert(0 <= last < es.len() && es[last].0@ == k && (forall|u: int|
            last < u < es.len() ==> es[u].0@ != k));
    } else {
        let t0 = choose|t: int| 0 <= t < es.len() && es[t].0@ == k;
        assert(es.drop_last()[t0].0@ == k);
        lemma_last_occurrence_exists_seq(es.drop_last(), k);
        let t = choose|t: int|
            0 <= t < es.drop_last().len() && es.drop_last()[t].0@ == k && (forall|u: int|
                t < u < es.drop_last().len() ==> es.drop_last()[u].0@ != k);
        assert(es[t].0@ == k);
        assert forall|u: int| t < u < es.len() implies es[u].0@ != k by {
            if u < es.len() - 1 {
                assert(es.drop_last()[u].0@ != k);
            }
        }
        assert(0 <= t < es.len() && es[t].0@ == k && (forall|u: int|
            t < u < es.len() ==> es[u].0@ != k));
    }
}

/// An object's model is the mapping denoted by its entries.
pub proof fn lemma_object_model(en: Vec<(String, JsonValue)>)
    ensures
        value_model(JsonValue::Object(en)) == ValueModel::Obj(obj_map(entries_model(en@))),
{
    match value_model(JsonValue::Object(en)) {
        ValueModel::Obj(m) => {
            let ps = entries_model(en@);
            let target = obj_map(ps);
            assert forall|k: Seq<char>| m.dom().contains(k) == target.dom().contains(k) by {
                lemma_obj_map_contains(ps, k);
                if exists|t: int| 0 <= t < en.len() && en[t].0@ == k {
                    let t = choose|t: int| 0 <= t < en.len() && en[t].0@ == k;
                    assert(ps[t].0 == k);
                }
                if exists|n: int| 0 <= n < ps.len() && ps[n].0 == k {
                    let n = choose|n: int| 0 <= n < ps.len() && ps[n].0 == k;
                    assert(en[n].0@ == k);
                }
            }
            assert forall|k: Seq<char>| m.dom().contains(k) implies m[k] == target[k] by {
                lemma_last_occurrence_exists(en, k);
                let t = choose|t: int|
                    0 <= t < en.len() && en[t].0@ == k && (forall|u: int|
                        t < u < en.len() ==> en[u].0@ != k);
                assert(m[k] == value_model(en[t].1));
                assert(ps[t].0 == k && ps[t].1 == value_model(en[t].1));
                assert forall|u: int| t < u < ps.len() implies ps[u].0 != ps[t].0 by {
                    assert(en[u].0@ != k);
                }
                lemma_obj_map_last_occurrence(ps, t);
            }
            assert(m.dom() =~= target.dom());
            assert(m =~= target);
        },
        _ => {
            assert(false);
        },
    }
}

/// Well-formedness of a parsed value: every object level keeps its keys
/// unique. The parser only produces well-formed values.
pub open spec fn wf_value(v: JsonValue) -> bool
    decreases v,
{
    match v {
        JsonValue::Null => true,
        JsonValue::Bool(_) => true,
        JsonValue::Number(_) => true,
        JsonValue::String(_) => true,
        JsonValue::Array(es) => forall|k: int| 0 <= k < es.len() ==> wf_value(#[trigger] es[k]),
        JsonValue::Object(en) => unique_keys(entries_model(en@)) && forall|k: int|
            0 <= k < en.len() ==> wf_value(#[trigger] en[k].1),
    }
}

impl JsonValue {
    /// Every object level of the value keeps its keys unique.
    pub open spec fn wf(&self) -> bool {
        wf_value(*self)
    }
}

/// Parse the literal `null` at offset `i`.
pub fn parse_null(s: &str, i: usize) -> (r: Result<usize, ParseError>)
    requires
        i as int <= s@.len(),
    ensures
        (match r {
            Ok(j) => res_ok(spec_parse_null(s@, i as int), (), j as int) && i < j <= s@.len(),
            Err(e) => res_err(spec_parse_null(s@, i as int), e.kind, e.at as int),
        }),
{
    proof {
        reveal_strlit("null");
    }
    if match_lit(s, i, "null") {
        Ok(i + 4)
    } else {
        Err(ParseError { kind: ErrorKind::Token, at: i })
    }
}

/// Parse the literal `true` or `false` at offset `i`.
pub fn parse_bool(s: &str, i: usize) -> (r: Result<(bool, usize), ParseError>)
    requires
        i as int <= s@.len(),
    ensures
        (match r {
            Ok((b, j)) => res_ok(spec_parse_bool(s@, i as int), b, j as int) && i < j <= s@.len(),
            Err(e) => res_err(spec_parse_bool(s@, i as int), e.kind, e.at as int),
        }),
{
    proof {
        reveal_strlit("true");
        reveal_strlit("false");
    }
    if match_lit(s, i, "true") {
        Ok((true, i + 4))
    } else if match_lit(s, i, "false") {
        Ok((false, i + 5))
    } else {
        Err(ParseError { kind: ErrorKind::Token, at: i })
    }
}

/// Parse a number literal at offset `i`.
pub fn parse_num(s: &str, i: usize) -> (r: Result<(Num, usize), ParseError>)
    requires
        i as int <= s@.len(),
    ensures
        (match r {
            Ok((v, j)) => res_ok(spec_parse_num(s@, i as int), v@, j as int) && i < j <= s@.len(),
            Err(e) => res_err(spec_parse_num(s@, i as int), e.kind, e.at as int),
        }),
{
    let neg = char_at_is(s, i, '-');
    let i1 = if neg {
        i + 1
    } else {
        i
    };
    let e1 = scan_digits(s, i1);
    if e1 == i1 {
        return Err(ParseError { kind: ErrorKind::Token, at: i1 });
    }
    proof {
        lemma_digits_val_nonneg(s@.subrange(i1 as int, e1 as int));
    }
    let iv = match digits_to_u64(s, i1, e1) {
        Some(v) => v,
        None => {
            return Err(ParseError { kind: ErrorKind::Format, at: i1 });
        },
    };
    if iv > i64::MAX as u64 {
        return Err(ParseError { kind: ErrorKind::Format, at: i1 });
    }
    if char_at_is(s, e1, '.') {
        let e2 = scan_digits(s, e1 + 1);
        if e2 == e1 + 1 {
            return Err(ParseError { kind: ErrorKind::Token, at: e1 + 1 });
        }
        let fv = match digits_to_u64(s, e1 + 1, e2) {
            Some(v) => v,
            None => {
                return Err(ParseError { kind: ErrorKind::Format, at: e1 + 1 });
            },
        };
        if fv > i64::MAX as u64 {
            return Err(ParseError { kind: ErrorKind::Format, at: e1 + 1 });
        }
        let mut digits = take_range(s, i1, e1);
        digits.append(".");
        let frac = take_range(s, e1 + 1, e2);
        digits.append(frac.as_str());
        proof {
            reveal_strlit(".");
            assert(digits@ =~= s@.subrange(i1 as int, e1 as int) + seq!['.'] + s@.subrange(
                e1 as int + 1,
                e2 as int,
            ));
        }
        Ok((Num::Float { neg, digits }, e2))
    } else {
        let v: i64 = iv as i64;
        let signed: i64 = if neg {
            -v
        } else {
            v
        };
        Ok((Num::Int(signed), e1))
    }
}

/// Parse a string literal at offset `i`: the characters between the
/// opening quote and the first closing quote, taken literally.
pub fn parse_string(s: &str, i: usize) -> (r: Result<(String, usize), ParseError>)
    requires
        i as int <= s@.len(),
    ensures
        (match r {
            Ok((v, j)) => res_ok(spec_parse_string(s@, i as int), v@, j as int) && i < j
                <= s@.len(),
            Err(e) => res_err(spec_parse_string(s@, i as int), e.kind, e.at as int),
        }),
{
    if char_at_is(s, i, '"') {
        let j = find_char(s, i + 1, '"');
        if j < s.unicode_len() {
            let content = take_range(s, i + 1, j);
            Ok((content, j + 1))
        } else {
            Err(ParseError { kind: ErrorKind::Token, at: i + 1 })
        }
    } else {
        Err(ParseError { kind: ErrorKind::Token, at: i })
    }
}

/// The mapping after writing a further pair sequence over a start map.
pub open spec fn obj_map_from(
    m0: Map<Seq<char>, ValueModel>,
    ps: Seq<(Seq<char>, ValueModel)>,
) -> Map<Seq<char>, ValueModel>
    decreases ps.len(),
{
    if ps.len() == 0 {
        m0
    } else {
        obj_map_from(m0, ps.drop_last()).insert(ps.last().0, ps.last().1)
    }
}

pub proof fn lemma_obj_map_from_concat(
    m0: Map<Seq<char>, ValueModel>,
    a: Seq<(Seq<char>, ValueModel)>,
    b: Seq<(Seq<char>, ValueModel)>,
)
    ensures
        obj_map_from(m0, a + b) == obj_map_from(obj_map_from(m0, a), b),
    decreases b.len(),
{
    if b.len() == 0 {
        assert(a + b =~= a);
    } else {
        assert((a + b).drop_last() =~= a + b.drop_last());
        lemma_obj_map_from_concat(m0, a, b.drop_last());
    }
}

pub proof fn lemma_obj_map_concat(a: Seq<(Seq<char>, ValueModel)>, b: Seq<(Seq<char>, ValueModel)>)
    ensures
        obj_map(a + b) == obj_map_from(obj_map(a), b),
    decreases b.len(),
{
    if b.len() == 0 {
        assert(a + b =~= a);
    } else {
        assert((a + b).drop_last() =~= a + b.drop_last());
        lemma_obj_map_concat(a, b.drop_last());
    }
}

pub proof fn lemma_obj_map_from_single(m0: Map<Seq<char>, ValueModel>, p: (Seq<char>, ValueModel))
    ensures
        obj_map_from(m0, seq![p]) == m0.insert(p.0, p.1),
{
    assert(seq![p].drop_last() =~= Seq::<(Seq<char>, ValueModel)>::empty());
    assert(obj_map_from(m0, Seq::<(Seq<char>, ValueModel)>::empty()) == m0);
}

/// Write one pair into an entry vector, overwriting in place when the key
/// is already present, so that keys stay unique and the denoted mapping
/// gains exactly this binding.
fn obj_insert(en: &mut Vec<(String, JsonValue)>, key: String, v: JsonValue)
    requires
        unique_keys(entries_model(old(en)@)),
    ensures
        obj_map(entries_model(final(en)@)) == obj_map(entries_model(old(en)@)).insert(
            key@,
            value_model(v),
        ),
        unique_keys(entries_model(final(en)@)),
        ((forall|t: int| 0 <= t < old(en)@.len() ==> wf_value(#[trigger] old(en)@[t].1))
            && wf_value(v)) ==> (forall|t: int|
            0 <= t < final(en)@.len() ==> wf_value(#[trigger] final(en)@[t].1)),
{
    let ghost old_model = entries_model(en@);
    let n = en.len();
    let mut idx: usize = 0;
    while idx < n
        invariant
            0 <= idx <= n,
            n == en@.len(),
            en@ == old(en)@,
            entries_model(en@) == old_model,
            unique_keys(entries_model(en@)),
            forall|t: int| 0 <= t < idx ==> entries_model(en@)[t].0 != key@,
        decreases n - idx,
    {
        let hit = str_eq_str(en[idx].0.as_str(), key.as_str());
        if hit {
            let ghost gkey = key@;
            let ghost gval = value_model(v);
            en.set(idx, (key, v));
            proof {
                let new_model = entries_model(en@);
                assert(new_model =~= old_model.update(idx as int, (gkey, gval)));
                assert(old_model[idx as int].0 == gkey);
                assert forall|a: int, b: int| 0 <= a < b < new_model.len() implies new_model[a].0
                    != new_model[b].0 by {
                    assert(new_model[a].0 == old_model[a].0);
                    assert(new_model[b].0 == old_model[b].0);
                }
                let m1 = obj_map(new_model);
                let m2 = obj_map(old_model).insert(gkey, gval);
                assert forall|k: Seq<char>| m1.dom().contains(k) == m2.dom().contains(k) by {
                    lemma_obj_map_contains(new_model, k);
                    lemma_obj_map_contains(old_model, k);
                    if k == gkey {
                        assert(new_model[idx as int].0 == gkey);
                    }
                    if exists|t: int| 0 <= t < new_model.len() && new_model[t].0 == k {
                        let t = choose|t: int| 0 <= t < new_model.len() && new_model[t].0 == k;
                        assert(old_model[t].0 == k);
                    }
                    if k != gkey && exists|t: int| 0 <= t < old_model.len() && old_model[t].0
                        == k {
                        let t = choose|t: int| 0 <= t < old_model.len() && old_model[t].0 == k;
                        assert(new_model[t].0 == k);
                    }
                }
                assert forall|k: Seq<char>| m1.dom().contains(k) implies m1[k] == m2[k] by {
                    lemma_obj_map_contains(new_model, k);
                    let t = choose|t: int| 0 <= t < new_model.len() && new_model[t].0 == k;
                    lemma_obj_map_index(new_model, t);
                    if k == gkey {
                        assert(t == idx as int);
                    } else {
                        assert(t != idx as int);
                        assert(old_model[t] == new_model[t]);
                        lemma_obj_map_index(old_model, t);
                    }
                }
                assert(m1.dom() =~= m2.dom());
                assert(m1 =~= m2);
            }
            return ;
        }
        idx = idx + 1;
    }
    let ghost gkey = key@;
    let ghost gval = value_model(v);
    en.push((key, v));
    proof {
        let new_model = entries_model(en@);
        assert(new_model =~= old_model.push((gkey, gval)));
        assert(new_model.drop_last() =~= old_model);
        assert forall|a: int, b: int| 0 <= a < b < new_model.len() implies new_model[a].0
            != new_model[b].0 by {
            if b < new_model.len() - 1 {
                assert(new_model[a].0 == old_model[a].0);
                assert(new_model[b].0 == old_model[b].0);
            } else {
                assert(new_model[a].0 == old_model[a].0);
                assert(new_model[b].0 == gkey);
            }
        }
    }
}

/// Parse a value at offset `i`: the alternatives are tried in the fixed
/// order null, boolean, number, string, array, object.
pub fn parse_value(s: &str, i: usize) -> (r: Result<(JsonValue, usize), ParseError>)
    requires
        i as int <= s@.len(),
    ensures
        (match r {
            Ok((v, j)) => res_ok(spec_parse_value(s@, i as int), v@, j as int) && i < j
                <= s@.len() && v.wf(),
            Err(e) => res_err(spec_parse_value(s@, i as int), e.kind, e.at as int),
        }),
    decreases s@.len() - i, 3int,
{
    match parse_null(s, i) {
        Ok(j) => {
            return Ok((JsonValue::Null, j));
        },
        Err(_) => {
            proof {
                assert(spec_parse_null(s@, i as int) is Failed);
            }
        },
    }
    match parse_bool(s, i) {
        Ok((b, j)) => {
            return Ok((JsonValue::Bool(b), j));
        },
        Err(_) => {
            proof {
                assert(spec_parse_bool(s@, i as int) is Failed);
            }
        },
    }
    match parse_num(s, i) {
        Ok((n, j)) => {
            return Ok((JsonValue::Number(n), j));
        },
        Err(_) => {
            proof {
                assert(spec_parse_num(s@, i as int) is Failed);
            }
        },
    }
    match parse_string(s, i) {
        Ok((t, j)) => {
            return Ok((JsonValue::String(t), j));
        },
        Err(_) => {
            proof {
                assert(spec_parse_string(s@, i as int) is Failed);
            }
        },
    }
    match parse_array(s, i) {
        Ok((es, j)) => {
            proof {
                lemma_array_model(es);
            }
            return Ok((JsonValue::Array(es), j));
        },
        Err(_) => {
            proof {
                assert(spec_parse_array(s@, i as int) is Failed);
            }
        },
    }
    match parse_object(s, i) {
        Ok((en, j)) => {
            proof {
                lemma_object_model(en);
            }
            return Ok((JsonValue::Object(en), j));
        },
        Err(_) => {
            proof {
                assert(spec_parse_object(s@, i as int) is Failed);
            }
        },
    }
    Err(ParseError { kind: ErrorKind::Token, at: i })
}

/// Parse an array at offset `i`.
pub fn parse_array(s: &str, i: usize) -> (r: Result<(Vec<JsonValue>, usize), ParseError>)
    requires
        i as int <= s@.len(),
    ensures
        (match r {
            Ok((es, j)) => (match spec_parse_array(s@, i as int) {
                PRes::Parsed { v, next } => arr_model(es@) == v && j as int == next,
                PRes::Failed { .. } => false,
            }) && i < j <= s@.len() && (forall|k: int|
                0 <= k < es@.len() ==> wf_value(#[trigger] es@[k])),
            Err(e) => res_err(spec_parse_array(s@, i as int), e.kind, e.at as int),
        }),
    decreases s@.len() - i, 2int,
{
    match sep_with_space(s, i, '[') {
        None => {
            let a = skip_ws(s, i);
            Err(ParseError { kind: ErrorKind::Token, at: a })
        },
        Some(b) => {
            let (vs, e) = parse_elems(s, b);
            match sep_with_space(s, e, ']') {
                Some(j) => Ok((vs, j)),
                None => {
                    let a = skip_ws(s, e);
                    Err(ParseError { kind: ErrorKind::Token, at: a })
                },
            }
        },
    }
}

/// Zero or more comma-separated values starting at offset `i`; never
/// fails, stopping before the first attempt that does not parse.
fn parse_elems(s: &str, i: usize) -> (r: (Vec<JsonValue>, usize))
    requires
        i as int <= s@.len(),
    ensures
        ({
            let (vs, e) = spec_parse_elems(s@, i as int);
            arr_model(r.0@) == vs && r.1 as int == e && i <= r.1 <= s@.len()
        }),
        forall|k: int| 0 <= k < r.0@.len() ==> wf_value(#[trigger] r.0@[k]),
    decreases s@.len() - i, 4int,
{
    let mut vs: Vec<JsonValue> = Vec::new();
    match parse_value(s, i) {
        Err(_) => {
            proof {
                assert(spec_parse_value(s@, i as int) is Failed);
                assert(arr_model(vs@) =~= Seq::<ValueModel>::empty());
            }
            return (vs, i);
        },
        Ok((v, j0)) => {
            let ghost gv = value_model(v);
            vs.push(v);
            proof {
                assert(arr_model(vs@) =~= seq![gv]);
            }
            let mut k = j0;
            loop
                invariant
                    i as int <= s@.len(),
                    i < k <= s@.len(),
                    ({
                        let (all, e) = spec_parse_elems(s@, i as int);
                        let (rest, e2) = spec_parse_elems_more(s@, k as int);
                        all == arr_model(vs@) + rest && e == e2
                    }),
                    forall|t: int| 0 <= t < vs@.len() ==> wf_value(#[trigger] vs@[t]),
                decreases s@.len() - k,
            {
                match sep_with_space(s, k, ',') {
                    None => {
                        proof {
                            assert(arr_model(vs@) + Seq::<ValueModel>::empty() =~= arr_model(
                                vs@,
                            ));
                        }
                        return (vs, k);
                    },
                    Some(m) => {
                        match parse_value(s, m) {
                            Err(_) => {
                                proof {
                                    assert(spec_parse_value(s@, m as int) is Failed);
                                    assert(arr_model(vs@) + Seq::<ValueModel>::empty()
                                        =~= arr_model(vs@));
                                }
                                return (vs, k);
                            },
                            Ok((v2, k2)) => {
                                let ghost prev = arr_model(vs@);
                                let ghost gv2 = value_model(v2);
                                vs.push(v2);
                                proof {
                                    assert(arr_model(vs@) =~= prev + seq![gv2]);
                                    let (rest2, e3) = spec_parse_elems_more(s@, k2 as int);
                                    assert((prev + seq![gv2]) + rest2 =~= prev + (seq![gv2]
                                        + rest2));
                                }
                                k = k2;
                            },
                        }
                    },
                }
            }
        },
    }
}

/// Parse one `"key": value` pair at offset `i`.
fn parse_member(s: &str, i: usize) -> (r: Result<((String, JsonValue), usize), ParseError>)
    requires
        i as int <= s@.len(),
    ensures
        (match r {
            Ok((p, j)) => res_ok(
                spec_parse_member(s@, i as int),
                (p.0@, value_model(p.1)),
                j as int,
            ) && i < j <= s@.len() && p.1.wf(),
            Err(e) => res_err(spec_parse_member(s@, i as int), e.kind, e.at as int),
        }),
    decreases s@.len() - i, 0int,
{
    match parse_string(s, i) {
        Err(e) => Err(e),
        Ok((key, k)) => {
            match sep_with_space(s, k, ':') {
                None => {
                    let a = skip_ws(s, k);
                    Err(ParseError { kind: ErrorKind::Token, at: a })
                },
                Some(m) => {
                    match parse_value(s, m) {
                        Err(e) => Err(e),
                        Ok((v, j)) => Ok(((key, v), j)),
                    }
                },
            }
        },
    }
}

/// One or more comma-separated pairs at offset `i`, written into an entry
/// vector whose keys stay unique: a repeated key overwrites its earlier
/// binding, so the vector denotes exactly the mapping of the parsed pairs.
fn parse_members(s: &str, i: usize) -> (r: Result<(Vec<(String, JsonValue)>, usize), ParseError>)
    requires
        i as int <= s@.len(),
    ensures
        (match r {
            Ok((en, j)) => (match spec_parse_members(s@, i as int) {
                PRes::Parsed { v, next } => obj_map(entries_model(en@)) == obj_map(v) && j as int
                    == next,
                PRes::Failed { .. } => false,
            }) && i < j <= s@.len() && unique_keys(entries_model(en@)) && (forall|t: int|
                0 <= t < en@.len() ==> wf_value(#[trigger] en@[t].1)),
            Err(e) => res_err(spec_parse_members(s@, i as int), e.kind, e.at as int),
        }),
    decreases s@.len() - i, 1int,
{
    let mut en: Vec<(String, JsonValue)> = Vec::new();
    match parse_member(s, i) {
        Err(e) => Err(e),
        Ok(((key, v), j0)) => {
            let ghost p0 = (key@, value_model(v));
            proof {
                assert(entries_model(en@) =~= Seq::<(Seq<char>, ValueModel)>::empty());
            }
            obj_insert(&mut en, key, v);
            proof {
                let (rest0, end0) = spec_parse_members_more(s@, j0 as int);
                lemma_obj_map_concat(seq![p0], rest0);
                assert(seq![p0].drop_last() =~= Seq::<(Seq<char>, ValueModel)>::empty());
                assert(obj_map(seq![p0]) == Map::<Seq<char>, ValueModel>::empty().insert(
                    p0.0,
                    p0.1,
                ));
            }
            let mut k = j0;
            loop
                invariant
                    i as int <= s@.len(),
                    i < k <= s@.len(),
                    unique_keys(entries_model(en@)),
                    forall|t: int| 0 <= t < en@.len() ==> wf_value(#[trigger] en@[t].1),
                    ({
                        let (rest, end) = spec_parse_members_more(s@, k as int);
                        match spec_parse_members(s@, i as int) {
                            PRes::Parsed { v, next } => obj_map(v) == obj_map_from(
                                obj_map(entries_model(en@)),
                                rest,
                            ) && next == end,
                            PRes::Failed { .. } => false,
                        }
                    }),
                decreases s@.len() - k,
            {
                match sep_with_space(s, k, ',') {
                    None => {
                        return Ok((en, k));
                    },
                    Some(m) => {
                        match parse_member(s, m) {
                            Err(_) => {
                                proof {
                                    assert(spec_parse_member(s@, m as int) is Failed);
                                }
                                return Ok((en, k));
                            },
                            Ok(((key2, v2), k2)) => {
                                let ghost p2 = (key2@, value_model(v2));
                                let ghost m_before = obj_map(entries_model(en@));
                                obj_insert(&mut en, key2, v2);
                                proof {
                                    let (rest2, end2) = spec_parse_members_more(s@, k2 as int);
                                    lemma_obj_map_from_concat(m_before, seq![p2], rest2);
                                    lemma_obj_map_from_single(m_before, p2);
                                }
                                k = k2;
                            },
                        }
                    },
                }
            }
        },
    }
}

/// Parse an object at offset `i`.
pub fn parse_object(s: &str, i: usize) -> (r: Result<
    (Vec<(String, JsonValue)>, usize),
    ParseError,
>)
    requires
        i as int <= s@.len(),
    ensures
        (match r {
            Ok((en, j)) => (match spec_parse_object(s@, i as int) {
                PRes::Parsed { v, next } => obj_map(entries_model(en@)) == obj_map(v) && j as int
                    == next,
                PRes::Failed { .. } => false,
            }) && i < j <= s@.len() && unique_keys(entries_model(en@)) && (forall|t: int|
                0 <= t < en@.len() ==> wf_value(#[trigger] en@[t].1)),
            Err(e) => res_err(spec_parse_object(s@, i as int), e.kind, e.at as int),
        }),
    decreases s@.len() - i, 2int,
{
    match sep_with_space(s, i, '{') {
        None => {
            let a = skip_ws(s, i);
            Err(ParseError { kind: ErrorKind::Token, at: a })
        },
        Some(b) => {
            match parse_members(s, b) {
                Err(e) => Err(e),
                Ok((en, e)) => {
                    match sep_with_space(s, e, '}') {
                        Some(j) => Ok((en, j)),
                        None => {
                            let a = skip_ws(s, e);
                            Err(ParseError { kind: ErrorKind::Token, at: a })
                        },
                    }
                },
            }
        },
    }
}

/// Parse a complete JSON document: the value grammar applied at the start
/// of the text. Text after the first value is left unread, as the
/// document is taken to be a single value.
pub fn parse_json(s: &str) -> (r: Result<JsonValue, ParseError>)
    ensures
        (match r {
            Ok(v) => (match spec_parse_value(s@, 0) {
                PRes::Parsed { v: m, .. } => v@ == m,
                PRes::Failed { .. } => false,
            }) && v.wf(),
            Err(e) => res_err(spec_parse_value(s@, 0), e.kind, e.at as int),
        }),
{
    match parse_value(s, 0) {
        Ok((v, _)) => Ok(v),
        Err(e) => Err(e),
    }
}

/// Find an entry holding `key`.
fn obj_find(en: &Vec<(String, JsonValue)>, key: &String) -> (r: Option<usize>)
    ensures
        (match r {
            Some(j) => j < en@.len() && en@[j as int].0@ == key@,
            None => forall|t: int| 0 <= t < en@.len() ==> en@[t].0@ != key@,
        }),
{
    let n = en.len();
    let mut idx: usize = 0;
    while idx < n
        invariant
            0 <= idx <= n,
            n == en@.len(),
            forall|t: int| 0 <= t < idx ==> en@[t].0@ != key@,
        decreases n - idx,
    {
        if str_eq_str(en[idx].0.as_str(), key.as_str()) {
            return Some(idx);
        }
        idx = idx + 1;
    }
    None
}

fn arrays_equal(xs: &Vec<JsonValue>, ys: &Vec<JsonValue>) -> (r: bool)
    requires
        forall|t: int| 0 <= t < xs@.len() ==> wf_value(#[trigger] xs@[t]),
        forall|t: int| 0 <= t < ys@.len() ==> wf_value(#[trigger] ys@[t]),
    ensures
        r == (arr_model(xs@) == arr_model(ys@)),
    decreases *xs,
{
    if xs.len() != ys.len() {
        proof {
            assert(arr_model(xs@).len() == xs@.len());
            assert(arr_model(ys@).len() == ys@.len());
        }
        return false;
    }
    let n = xs.len();
    let mut idx: usize = 0;
    while idx < n
        invariant
            0 <= idx <= n,
            n == xs@.len(),
            n == ys@.len(),
            forall|t: int| 0 <= t < xs@.len() ==> wf_value(#[trigger] xs@[t]),
            forall|t: int| 0 <= t < ys@.len() ==> wf_value(#[trigger] ys@[t]),
            forall|t: int|
                0 <= t < idx ==> value_model(#[trigger] xs@[t]) == value_model(ys@[t]),
        decreases n - idx,
    {
        proof {
            assert(decreases_to!(*xs => xs@[idx as int]));
        }
        let eq = xs[idx].equal_value(&ys[idx]);
        if !eq {
            proof {
                assert(arr_model(xs@)[idx as int] != arr_model(ys@)[idx as int]);
            }
            return false;
        }
        idx = idx + 1;
    }
    proof {
        assert(arr_model(xs@) =~= arr_model(ys@));
    }
    true
}

#[verifier::loop_isolation(false)]
#[verifier::rlimit(60)]
fn objects_equal(xs: &Vec<(String, JsonValue)>, ys: &Vec<(String, JsonValue)>) -> (r: bool)
    requires
        unique_keys(entries_model(xs@)),
        unique_keys(entries_model(ys@)),
        forall|t: int| 0 <= t < xs@.len() ==> wf_value(#[trigger] xs@[t].1),
        forall|t: int| 0 <= t < ys@.len() ==> wf_value(#[trigger] ys@[t].1),
    ensures
        r == (obj_map(entries_model(xs@)) == obj_map(entries_model(ys@))),
    decreases *xs,
{
    let ghost psx = entries_model(xs@);
    let ghost psy = entries_model(ys@);
    let ghost mx = obj_map(psx);
    let ghost my = obj_map(psy);
    let n = xs.len();
    let m = ys.len();
    let mut idx: usize = 0;
    while idx < n
        invariant
            0 <= idx <= n,
            forall|t: int|
                0 <= t < idx ==> my.dom().contains(#[trigger] psx[t].0) && my[psx[t].0]
                    == psx[t].1,
        decreases n - idx,
    {
        match obj_find(ys, &xs[idx].0) {
            None => {
                proof {
                    lemma_obj_map_index(psx, idx as int);
                    lemma_obj_map_contains(psy, psx[idx as int].0);
                    if my.dom().contains(psx[idx as int].0) {
                        let t = choose|t: int|
                            0 <= t < psy.len() && psy[t].0 == psx[idx as int].0;
                        assert(ys@[t].0@ == xs@[idx as int].0@);
                        assert(false);
                    }
                }
                return false;
            },
            Some(j) => {
                proof {
                    assert(decreases_to!(*xs => xs@[idx as int].1));
                }
                let eq = xs[idx].1.equal_value(&ys[j].1);
                proof {
                    lemma_obj_map_index(psx, idx as int);
                    lemma_obj_map_index(psy, j as int);
                    assert(psy[j as int].0 == psx[idx as int].0);
                }
                if !eq {
                    proof {
                        assert(mx[psx[idx as int].0] != my[psx[idx as int].0]);
                    }
                    return false;
                }
                idx = idx + 1;
            },
        }
    }
    let mut jdx: usize = 0;
    while jdx < m
        invariant
            0 <= jdx <= m,
            forall|t: int|
                0 <= t < n ==> my.dom().contains(#[trigger] psx[t].0) && my[psx[t].0]
                    == psx[t].1,
            forall|t: int| 0 <= t < jdx ==> mx.dom().contains(#[trigger] psy[t].0),
        decreases m - jdx,
    {
        match obj_find(xs, &ys[jdx].0) {
            None => {
                proof {
                    lemma_obj_map_index(psy, jdx as int);
                    lemma_obj_map_contains(psx, psy[jdx as int].0);
                    if mx.dom().contains(psy[jdx as int].0) {
                        let t = choose|t: int|
                            0 <= t < psx.len() && psx[t].0 == psy[jdx as int].0;
                        assert(xs@[t].0@ == ys@[jdx as int].0@);
                        assert(false);
                    }
                }
                return false;
            },
            Some(j) => {
                proof {
                    assert(psx[j as int].0 == psy[jdx as int].0);
                    lemma_obj_map_contains(psx, psy[jdx as int].0);
                }
                jdx = jdx + 1;
            },
        }
    }
    proof {
        assert forall|k: Seq<char>| mx.dom().contains(k) == my.dom().contains(k) by {
            lemma_obj_map_contains(psx, k);
            lemma_obj_map_contains(psy, k);
            if exists|t: int| 0 <= t < psx.len() && psx[t].0 == k {
                let t = choose|t: int| 0 <= t < psx.len() && psx[t].0 == k;
                assert(my.dom().contains(psx[t].0));
            }
            if exists|t: int| 0 <= t < psy.len() && psy[t].0 == k {
                let t = choose|t: int| 0 <= t < psy.len() && psy[t].0 == k;
                assert(mx.dom().contains(psy[t].0));
            }
        }
        assert forall|k: Seq<char>| mx.dom().contains(k) implies mx[k] == my[k] by {
            lemma_obj_map_contains(psx, k);
            let t = choose|t: int| 0 <= t < psx.len() && psx[t].0 == k;
            lemma_obj_map_index(psx, t);
            assert(my.dom().contains(psx[t].0) && my[psx[t].0] == psx[t].1);
        }
        assert(mx.dom() =~= my.dom());
        assert(mx =~= my);
    }
    true
}

impl JsonValue {
    /// Equality of the denoted values: arrays compare element by element
    /// in order, objects compare as mappings, with insertion order
    /// disregarded.
    pub fn equal_value(&self, other: &JsonValue) -> (r: bool)
        requires
            self.wf(),
            other.wf(),
        ensures
            r == (self@ == other@),
        decreases *self,
    {
        match (self, other) {
            (JsonValue::Null, JsonValue::Null) => true,
            (JsonValue::Bool(x), JsonValue::Bool(y)) => x == y,
            (JsonValue::Number(x), JsonValue::Number(y)) => match (x, y) {
                (Num::Int(a), Num::Int(b)) => a == b,
                (Num::Float { neg: n1, digits: d1 }, Num::Float { neg: n2, digits: d2 }) => (n1
                    == n2) && str_eq_str(d1.as_str(), d2.as_str()),
                _ => false,
            },
            (JsonValue::String(a), JsonValue::String(b)) => str_eq_str(a.as_str(), b.as_str()),
            (JsonValue::Array(xs), JsonValue::Array(ys)) => {
                proof {
                    assert(*self == JsonValue::Array(*xs));
                    assert(*other == JsonValue::Array(*ys));
                    lemma_array_model(*xs);
                    lemma_array_model(*ys);
                    assert(decreases_to!(*self => *xs));
                }
                arrays_equal(xs, ys)
            },
            (JsonValue::Object(xs), JsonValue::Object(ys)) => {
                proof {
                    assert(*self == JsonValue::Object(*xs));
                    assert(*other == JsonValue::Object(*ys));
                    lemma_object_model(*xs);
                    lemma_object_model(*ys);
                    assert(decreases_to!(*self => *xs));
                }
                objects_equal(xs, ys)
            },
            _ => false,
        }
    }
}

/// For every integer literal, an optional leading minus followed by a
/// digit run with no fractional part, the value grammar yields exactly
/// the Int variant holding the run's decimal value, with the minus
/// applied after; the offset consumed is the run's end.
pub proof fn lemma_parse_value_int(s: Seq<char>, i: int)
    requires
        0 <= i <= s.len(),
        ({
            let i1 = if i < s.len() && s[i] == '-' {
                i + 1
            } else {
                i
            };
            let e = spec_digits_end(s, i1);
            e > i1 && digits_val(s.subrange(i1, e)) <= i64::MAX as int && !(e < s.len() && s[e]
                == '.')
        }),
    ensures
        ({
            let neg = i < s.len() && s[i] == '-';
            let i1 = if neg {
                i + 1
            } else {
                i
            };
            let e = spec_digits_end(s, i1);
            let v = digits_val(s.subrange(i1, e));
            spec_parse_value(s, i) == (PRes::Parsed {
                v: ValueModel::Number(
                    NumberModel::Int(
                        if neg {
                            -v
                        } else {
                            v
                        },
                    ),
                ),
                next: e,
            })
        }),
{
    reveal_strlit("null");
    reveal_strlit("true");
    reveal_strlit("false");
    let neg = i < s.len() && s[i] == '-';
    let i1 = if neg {
        i + 1
    } else {
        i
    };
    let e = spec_digits_end(s, i1);
    assert(is_digit_char(s[i1]) || neg) by {
        if !(i1 < s.len() && is_digit_char(s[i1])) {
            assert(spec_digits_end(s, i1) == i1);
        }
    }
    assert(s[i] == '-' || is_digit_char(s[i]));
    if spec_has_lit(s, i, "null"@) {
        assert(s.subrange(i, i + 4)[0] == s[i]);
        assert(false);
    }
    if spec_has_lit(s, i, "true"@) {
        assert(s.subrange(i, i + 4)[0] == s[i]);
        assert(false);
    }
    if spec_has_lit(s, i, "false"@) {
        assert(s.subrange(i, i + 5)[0] == s[i]);
        assert(false);
    }
}

/// For every "int.frac" literal, the value grammar yields exactly the
/// Float variant whose text is the two digit runs concatenated around
/// the dot, with the optional minus held apart as the sign; no
/// digit-by-digit numeric accumulation takes place in the grammar.
pub proof fn lemma_parse_value_float(s: Seq<char>, i: int)
    requires
        0 <= i <= s.len(),
        ({
            let i1 = if i < s.len() && s[i] == '-' {
                i + 1
            } else {
                i
            };
            let e1 = spec_digits_end(s, i1);
            let e2 = spec_digits_end(s, e1 + 1);
            e1 > i1 && digits_val(s.subrange(i1, e1)) <= i64::MAX as int && e1 < s.len() && s[e1]
                == '.' && e2 > e1 + 1 && digits_val(s.subrange(e1 + 1, e2)) <= i64::MAX as int
        }),
    ensures
        ({
            let neg = i < s.len() && s[i] == '-';
            let i1 = if neg {
                i + 1
            } else {
                i
            };
            let e1 = spec_digits_end(s, i1);
            let e2 = spec_digits_end(s, e1 + 1);
            spec_parse_value(s, i) == (PRes::Parsed {
                v: ValueModel::Number(
                    NumberModel::Float {
                        neg,
                        digits: s.subrange(i1, e1) + seq!['.'] + s.subrange(e1 + 1, e2),
                    },
                ),
                next: e2,
            })
        }),
{
    reveal_strlit("null");
    reveal_strlit("true");
    reveal_strlit("false");
    let neg = i < s.len() && s[i] == '-';
    let i1 = if neg {
        i + 1
    } else {
        i
    };
    let e1 = spec_digits_end(s, i1);
    assert(is_digit_char(s[i1]) || neg) by {
        if !(i1 < s.len() && is_digit_char(s[i1])) {
            assert(spec_digits_end(s, i1) == i1);
        }
    }
    assert(s[i] == '-' || is_digit_char(s[i]));
    if spec_has_lit(s, i, "null"@) {
        assert(s.subrange(i, i + 4)[0] == s[i]);
        assert(false);
    }
    if spec_has_lit(s, i, "true"@) {
        assert(s.subrange(i, i + 4)[0] == s[i]);
        assert(false);
    }
    if spec_has_lit(s, i, "false"@) {
        assert(s.subrange(i, i + 5)[0] == s[i]);
        assert(false);
    }
}

} // verus!
