//! The snapshot text format: a token stream with decimal numbers, each
//! ended by one space, and length-prefixed raw text, so any character can
//! appear inside names and values. The format is this crate's own — scene
//! files written by other structured-text serializers are not readable
//! here. Emission and parsing are verified against each other: parsing an
//! emitted snapshot gives the snapshot back.

use vstd::prelude::*;

use crate::record::FieldModel;
use crate::snapshot::{SnapComponentModel, SnapEntityModel};
use crate::text::{
    all_digits, dec_digits, digits_val, is_digit, is_float_literal, lemma_dec_digits_wf,
};
use crate::value::{value_wf, ValueModel};

verus! {

/// A number token: its decimal digits, ended by one space.
pub open spec fn emit_nat(n: nat) -> Seq<char> {
    dec_digits(n) + seq![' ']
}

/// A text token: its length, then exactly that many raw characters.
pub open spec fn emit_str(t: Seq<char>) -> Seq<char> {
    emit_nat(t.len()) + t
}

/// A value token: a kind tag, then the kind's payload.
pub open spec fn emit_value(v: ValueModel) -> Seq<char> {
    match v {
        ValueModel::Flag(b) => seq!['b', if b { '1' } else { '0' }],
        ValueModel::Size(z) => seq!['u'] + emit_nat(z as nat),
        ValueModel::Int(n) => if n < 0 {
            seq!['i', '-'] + emit_nat((-(n as int)) as nat)
        } else {
            seq!['i', '+'] + emit_nat(n as nat)
        },
        ValueModel::FloatSingle(t) => seq!['f'] + emit_str(t),
        ValueModel::FloatDouble(t) => seq!['d'] + emit_str(t),
        ValueModel::Text(t) => seq!['t'] + emit_str(t),
        ValueModel::Opaque(t) => seq!['o'] + emit_str(t),
    }
}

/// A field: its name, its value, and a line break.
pub open spec fn emit_field(f: FieldModel) -> Seq<char> {
    emit_str(f.name) + emit_value(f.value) + seq!['\n']
}

/// A field list, in order.
pub open spec fn emit_fields(fs: Seq<FieldModel>) -> Seq<char>
    decreases fs.len(),
{
    if fs.len() == 0 {
        Seq::empty()
    } else {
        emit_field(fs[0]) + emit_fields(fs.drop_first())
    }
}

/// A component: its type's full name, its field count, its fields.
pub open spec fn emit_component(c: SnapComponentModel) -> Seq<char> {
    emit_str(c.full_name) + emit_nat(c.fields.len()) + emit_fields(c.fields)
}

/// A component list, in order.
pub open spec fn emit_components(cs: Seq<SnapComponentModel>) -> Seq<char>
    decreases cs.len(),
{
    if cs.len() == 0 {
        Seq::empty()
    } else {
        emit_component(cs[0]) + emit_components(cs.drop_first())
    }
}

/// An entity: its placeholder handle, its component count, its components.
pub open spec fn emit_entity(e: SnapEntityModel) -> Seq<char> {
    emit_nat(e.id as nat) + emit_nat(e.components.len()) + emit_components(e.components)
}

/// An entity list, in order.
pub open spec fn emit_entities(es: Seq<SnapEntityModel>) -> Seq<char>
    decreases es.len(),
{
    if es.len() == 0 {
        Seq::empty()
    } else {
        emit_entity(es[0]) + emit_entities(es.drop_first())
    }
}

/// The marker that opens every snapshot file.
pub open spec fn magic_chars() -> Seq<char> {
    seq!['s', 'c', 'n', ' ']
}

/// A whole snapshot: the marker, the entity count, the entities.
pub open spec fn emit_snapshot(snap: Seq<SnapEntityModel>) -> Seq<char> {
    magic_chars() + emit_nat(snap.len()) + emit_entities(snap)
}

/// The first position at or after `pos` holding a non-digit (or the end).
pub open spec fn scan_digits(s: Seq<char>, pos: int) -> int
    decreases s.len() - pos,
{
    if pos < 0 || pos >= s.len() {
        pos
    } else if is_digit(s[pos]) {
        scan_digits(s, pos + 1)
    } else {
        pos
    }
}

/// `scan_digits` stops exactly at the first non-digit.
pub proof fn lemma_scan_digits_at(s: Seq<char>, pos: int, k: int)
    requires
        0 <= pos <= k <= s.len(),
        forall|j: int| pos <= j < k ==> is_digit(#[trigger] s[j]),
        k == s.len() || !is_digit(s[k]),
    ensures
        scan_digits(s, pos) == k,
    decreases k - pos,
{
    if pos < k {
        lemma_scan_digits_at(s, pos + 1, k);
    }
}

/// Parsing a number token: the digits up to the next non-digit, which must
/// be one space; rejects missing digits, a missing terminator, and
/// overflow.
pub open spec fn spec_parse_nat(s: Seq<char>, pos: int) -> Option<(u64, int)> {
    let k = scan_digits(s, pos);
    if pos < 0 || k == pos || k >= s.len() || s[k] != ' ' {
        None
    } else {
        let t = s.subrange(pos, k);
        if digits_val(t) <= u64::MAX {
            Some((digits_val(t) as u64, k + 1))
        } else {
            None
        }
    }
}

/// Splitting a matched slice: when a stretch of the input equals `a + b`,
/// its two halves match `a` and `b`.
pub proof fn lemma_slice_split(s: Seq<char>, pos: int, a: Seq<char>, b: Seq<char>)
    requires
        0 <= pos,
        pos + a.len() + b.len() <= s.len(),
        s.subrange(pos, pos + a.len() + b.len()) == a + b,
    ensures
        s.subrange(pos, pos + a.len()) == a,
        s.subrange(pos + a.len(), pos + a.len() + b.len()) == b,
{
    let w = s.subrange(pos, pos + a.len() + b.len());
    assert(s.subrange(pos, pos + a.len()) =~= a) by {
        assert(forall|j: int| 0 <= j < a.len() ==> s.subrange(pos, pos + a.len())[j] == w[j]);
        assert(forall|j: int| 0 <= j < a.len() ==> #[trigger] (a + b)[j] == a[j]);
    }
    assert(s.subrange(pos + a.len(), pos + a.len() + b.len()) =~= b) by {
        assert(forall|j: int|
            0 <= j < b.len() ==> #[trigger] s.subrange(pos + a.len(), pos + a.len() + b.len())[j]
                == w[a.len() + j]);
        assert(forall|j: int| 0 <= j < b.len() ==> #[trigger] (a + b)[a.len() + j] == b[j]);
    }
}

/// Parsing a number token where one was emitted gives the number back and
/// lands right after it, whatever follows.
pub proof fn lemma_parse_nat_emit(s: Seq<char>, pos: int, n: u64)
    requires
        0 <= pos,
        pos + emit_nat(n as nat).len() <= s.len(),
        s.subrange(pos, pos + emit_nat(n as nat).len()) == emit_nat(n as nat),
    ensures
        spec_parse_nat(s, pos) == Some((n, pos + emit_nat(n as nat).len())),
{
    lemma_dec_digits_wf(n as nat);
    let d = dec_digits(n as nat);
    let e = emit_nat(n as nat);
    assert(e.len() == d.len() + 1);
    let k = pos + d.len();
    assert(forall|j: int| 0 <= j < e.len() ==> #[trigger] s[pos + j] == e[j]) by {
        assert(forall|j: int|
            0 <= j < e.len() ==> #[trigger] s.subrange(pos, pos + e.len())[j] == s[pos + j]);
    }
    assert(forall|j: int| 0 <= j < d.len() ==> #[trigger] e[j] == d[j]);
    assert(e[d.len() as int] == ' ');
    assert(s[k] == ' ');
    assert(!is_digit(' ')) by {
        assert((' ' as u32) == 32);
    }
    assert forall|j: int| pos <= j < k implies is_digit(#[trigger] s[j]) by {
        assert(s[pos + (j - pos)] == e[j - pos]);
        assert(e[j - pos] == d[j - pos]);
    }
    lemma_scan_digits_at(s, pos, k);
    assert(s.subrange(pos, k) =~= d);
}

/// Parsing a text token: a length, then that many raw characters.
pub open spec fn spec_parse_str(s: Seq<char>, pos: int) -> Option<(Seq<char>, int)> {
    match spec_parse_nat(s, pos) {
        None => None,
        Some((n, p)) => if p + n <= s.len() {
            Some((s.subrange(p, p + n), p + n))
        } else {
            None
        },
    }
}

/// Parsing a text token where one was emitted gives the text back.
pub proof fn lemma_parse_str_emit(s: Seq<char>, pos: int, t: Seq<char>)
    requires
        0 <= pos,
        t.len() <= u64::MAX,
        pos + emit_str(t).len() <= s.len(),
        s.subrange(pos, pos + emit_str(t).len()) == emit_str(t),
    ensures
        spec_parse_str(s, pos) == Some((t, pos + emit_str(t).len())),
{
    let n = t.len() as u64;
    let e1 = emit_nat(n as nat);
    lemma_slice_split(s, pos, e1, t);
    lemma_parse_nat_emit(s, pos, n);
}

/// A value's emission fits the token stream: floats hold valid literals
/// and text payloads fit a length token.
pub open spec fn value_emit_ok(v: ValueModel) -> bool {
    &&& value_wf(v)
    &&& match v {
        ValueModel::FloatSingle(t) => t.len() <= u64::MAX,
        ValueModel::FloatDouble(t) => t.len() <= u64::MAX,
        ValueModel::Text(t) => t.len() <= u64::MAX,
        ValueModel::Opaque(t) => t.len() <= u64::MAX,
        _ => true,
    }
}

/// Parsing a value token: dispatch on the kind tag; every payload is
/// validated, so a parsed value is always well formed.
pub open spec fn spec_parse_value(s: Seq<char>, pos: int) -> Option<(ValueModel, int)> {
    if pos < 0 || pos >= s.len() {
        None
    } else if s[pos] == 'b' {
        if pos + 1 < s.len() && (s[pos + 1] == '0' || s[pos + 1] == '1') {
            Some((ValueModel::Flag(s[pos + 1] == '1'), pos + 2))
        } else {
            None
        }
    } else if s[pos] == 'u' {
        match spec_parse_nat(s, pos + 1) {
            Some((n, p)) => if n <= usize::MAX {
                Some((ValueModel::Size(n as usize), p))
            } else {
                None
            },
            None => None,
        }
    } else if s[pos] == 'i' {
        if pos + 1 < s.len() && s[pos + 1] == '-' {
            match spec_parse_nat(s, pos + 2) {
                Some((n, p)) => if n <= 0x8000_0000 {
                    Some((ValueModel::Int((-(n as int)) as i32), p))
                } else {
                    None
                },
                None => None,
            }
        } else if pos + 1 < s.len() && s[pos + 1] == '+' {
            match spec_parse_nat(s, pos + 2) {
                Some((n, p)) => if n <= 0x7fff_ffff {
                    Some((ValueModel::Int(n as i32), p))
                } else {
                    None
                },
                None => None,
            }
        } else {
            None
        }
    } else if s[pos] == 'f' {
        match spec_parse_str(s, pos + 1) {
            Some((t, p)) => if is_float_literal(t) {
                Some((ValueModel::FloatSingle(t), p))
            } else {
                None
            },
            None => None,
        }
    } else if s[pos] == 'd' {
        match spec_parse_str(s, pos + 1) {
            Some((t, p)) => if is_float_literal(t) {
                Some((ValueModel::FloatDouble(t), p))
            } else {
                None
            },
            None => None,
        }
    } else if s[pos] == 't' {
        match spec_parse_str(s, pos + 1) {
            Some((t, p)) => Some((ValueModel::Text(t), p)),
            None => None,
        }
    } else if s[pos] == 'o' {
        match spec_parse_str(s, pos + 1) {
            Some((t, p)) => Some((ValueModel::Opaque(t), p)),
            None => None,
        }
    } else {
        None
    }
}

/// Parsing a value token where one was emitted gives the value back.
pub proof fn lemma_parse_value_emit(s: Seq<char>, pos: int, v: ValueModel)
    requires
        0 <= pos,
        value_emit_ok(v),
        pos + emit_value(v).len() <= s.len(),
        s.subrange(pos, pos + emit_value(v).len()) == emit_value(v),
    ensures
        spec_parse_value(s, pos) == Some((v, pos + emit_value(v).len())),
{
    let e = emit_value(v);
    assert(forall|j: int| 0 <= j < e.len() ==> #[trigger] s[pos + j] == e[j]) by {
        assert(forall|j: int|
            0 <= j < e.len() ==> #[trigger] s.subrange(pos, pos + e.len())[j] == s[pos + j]);
    }
    match v {
        ValueModel::Flag(b) => {
            assert(s[pos + 0] == 'b');
            assert(s[pos + 1] == e[1]);
        },
        ValueModel::Size(z) => {
            assert(s[pos + 0] == 'u');
            let tag = seq!['u'];
            let rest = emit_nat(z as nat);
            lemma_slice_split(s, pos, tag, rest);
            lemma_parse_nat_emit(s, pos + 1, z as u64);
        },
        ValueModel::Int(n) => {
            assert(s[pos + 0] == 'i');
            if n < 0 {
                assert(s[pos + 1] == '-');
                let tag = seq!['i', '-'];
                let rest = emit_nat((-(n as int)) as nat);
                lemma_slice_split(s, pos, tag, rest);
                lemma_parse_nat_emit(s, pos + 2, (-(n as int)) as u64);
            } else {
                assert(s[pos + 1] == '+');
                let tag = seq!['i', '+'];
                let rest = emit_nat(n as nat);
                lemma_slice_split(s, pos, tag, rest);
                lemma_parse_nat_emit(s, pos + 2, n as u64);
            }
        },
        ValueModel::FloatSingle(t) => {
            assert(s[pos + 0] == 'f');
            lemma_slice_split(s, pos, seq!['f'], emit_str(t));
            lemma_parse_str_emit(s, pos + 1, t);
        },
        ValueModel::FloatDouble(t) => {
            assert(s[pos + 0] == 'd');
            lemma_slice_split(s, pos, seq!['d'], emit_str(t));
            lemma_parse_str_emit(s, pos + 1, t);
        },
        ValueModel::Text(t) => {
            assert(s[pos + 0] == 't');
            lemma_slice_split(s, pos, seq!['t'], emit_str(t));
            lemma_parse_str_emit(s, pos + 1, t);
        },
        ValueModel::Opaque(t) => {
            assert(s[pos + 0] == 'o');
            lemma_slice_split(s, pos, seq!['o'], emit_str(t));
            lemma_parse_str_emit(s, pos + 1, t);
        },
    }
}

/// A field's emission fits the token stream.
pub open spec fn field_emit_ok(f: FieldModel) -> bool {
    f.name.len() <= u64::MAX && value_emit_ok(f.value)
}

/// A field list's emission fits the token stream.
pub open spec fn fields_emit_ok(fs: Seq<FieldModel>) -> bool {
    fs.len() <= u64::MAX && forall|i: int| 0 <= i < fs.len() ==> field_emit_ok(#[trigger] fs[i])
}

/// A component's emission fits the token stream.
pub open spec fn comp_emit_ok(c: SnapComponentModel) -> bool {
    c.full_name.len() <= u64::MAX && fields_emit_ok(c.fields)
}

/// An entity's emission fits the token stream.
pub open spec fn entity_emit_ok(e: SnapEntityModel) -> bool {
    e.components.len() <= u64::MAX && forall|i: int|
        0 <= i < e.components.len() ==> comp_emit_ok(#[trigger] e.components[i])
}

/// A snapshot's emission fits the token stream.
pub open spec fn snapshot_emit_ok(snap: Seq<SnapEntityModel>) -> bool {
    snap.len() <= u64::MAX && forall|i: int|
        0 <= i < snap.len() ==> entity_emit_ok(#[trigger] snap[i])
}

/// Parsing one field: its name, its value, a line break.
pub open spec fn spec_parse_field(s: Seq<char>, pos: int) -> Option<(FieldModel, int)> {
    match spec_parse_str(s, pos) {
        None => None,
        Some((name, p1)) => match spec_parse_value(s, p1) {
            None => None,
            Some((v, p2)) => if p2 < s.len() && s[p2] == '\n' {
                Some((FieldModel { name, value: v }, p2 + 1))
            } else {
                None
            },
        },
    }
}

/// Parsing a field where one was emitted gives the field back.
pub proof fn lemma_parse_field_emit(s: Seq<char>, pos: int, f: FieldModel)
    requires
        0 <= pos,
        field_emit_ok(f),
        pos + emit_field(f).len() <= s.len(),
        s.subrange(pos, pos + emit_field(f).len()) == emit_field(f),
    ensures
        spec_parse_field(s, pos) == Some((f, pos + emit_field(f).len())),
{
    let a = emit_str(f.name);
    let b = emit_value(f.value);
    let c = seq!['\n'];
    assert(emit_field(f) == a + b + c);
    assert((a + b + c) =~= a + (b + c));
    lemma_slice_split(s, pos, a, b + c);
    lemma_slice_split(s, pos + a.len(), b, c);
    lemma_parse_str_emit(s, pos, f.name);
    lemma_parse_value_emit(s, pos + a.len(), f.value);
    let p2 = pos + a.len() + b.len();
    assert(s.subrange(p2, p2 + 1) == c);
    assert(s[p2] == c[0]) by {
        assert(s.subrange(p2, p2 + 1)[0] == s[p2]);
    }
}

/// Parsing `count` fields in a row.
pub open spec fn spec_parse_fields(s: Seq<char>, pos: int, count: u64) -> Option<(
    Seq<FieldModel>,
    int,
)>
    decreases count,
{
    if count == 0 {
        Some((Seq::empty(), pos))
    } else {
        match spec_parse_field(s, pos) {
            None => None,
            Some((f, p)) => match spec_parse_fields(s, p, (count - 1) as u64) {
                None => None,
                Some((fs, p2)) => Some((seq![f] + fs, p2)),
            },
        }
    }
}

/// Parsing a field list where one was emitted gives the list back.
pub proof fn lemma_parse_fields_emit(s: Seq<char>, pos: int, fs: Seq<FieldModel>)
    requires
        0 <= pos,
        fields_emit_ok(fs),
        pos + emit_fields(fs).len() <= s.len(),
        s.subrange(pos, pos + emit_fields(fs).len()) == emit_fields(fs),
    ensures
        spec_parse_fields(s, pos, fs.len() as u64) == Some((fs, pos + emit_fields(fs).len())),
    decreases fs.len(),
{
    if fs.len() > 0 {
        let a = emit_field(fs[0]);
        let b = emit_fields(fs.drop_first());
        lemma_slice_split(s, pos, a, b);
        lemma_parse_field_emit(s, pos, fs[0]);
        assert(fields_emit_ok(fs.drop_first())) by {
            assert(forall|i: int|
                0 <= i < fs.len() - 1 ==> #[trigger] fs.drop_first()[i] == fs[i + 1]);
        }
        lemma_parse_fields_emit(s, pos + a.len(), fs.drop_first());
        assert(seq![fs[0]] + fs.drop_first() =~= fs);
    }
}

/// Parsing one component: its type name, its field count, its fields.
pub open spec fn spec_parse_component(s: Seq<char>, pos: int) -> Option<(SnapComponentModel, int)> {
    match spec_parse_str(s, pos) {
        None => None,
        Some((name, p1)) => match spec_parse_nat(s, p1) {
            None => None,
            Some((count, p2)) => match spec_parse_fields(s, p2, count) {
                None => None,
                Some((fs, p3)) => Some((SnapComponentModel { full_name: name, fields: fs }, p3)),
            },
        },
    }
}

/// Parsing a component where one was emitted gives the component back.
pub proof fn lemma_parse_component_emit(s: Seq<char>, pos: int, c: SnapComponentModel)
    requires
        0 <= pos,
        comp_emit_ok(c),
        pos + emit_component(c).len() <= s.len(),
        s.subrange(pos, pos + emit_component(c).len()) == emit_component(c),
    ensures
        spec_parse_component(s, pos) == Some((c, pos + emit_component(c).len())),
{
    let a = emit_str(c.full_name);
    let b = emit_nat(c.fields.len());
    let d = emit_fields(c.fields);
    assert(emit_component(c) == a + b + d);
    assert((a + b + d) =~= a + (b + d));
    lemma_slice_split(s, pos, a, b + d);
    lemma_slice_split(s, pos + a.len(), b, d);
    lemma_parse_str_emit(s, pos, c.full_name);
    lemma_parse_nat_emit(s, pos + a.len(), c.fields.len() as u64);
    lemma_parse_fields_emit(s, pos + a.len() + b.len(), c.fields);
}

/// Parsing `count` components in a row.
pub open spec fn spec_parse_components(s: Seq<char>, pos: int, count: u64) -> Option<(
    Seq<SnapComponentModel>,
    int,
)>
    decreases count,
{
    if count == 0 {
        Some((Seq::empty(), pos))
    } else {
        match spec_parse_component(s, pos) {
            None => None,
            Some((c, p)) => match spec_parse_components(s, p, (count - 1) as u64) {
                None => None,
                Some((cs, p2)) => Some((seq![c] + cs, p2)),
            },
        }
    }
}

/// Parsing a component list where one was emitted gives the list back.
pub proof fn lemma_parse_components_emit(s: Seq<char>, pos: int, cs: Seq<SnapComponentModel>)
    requires
        0 <= pos,
        cs.len() <= u64::MAX,
        forall|i: int| 0 <= i < cs.len() ==> comp_emit_ok(#[trigger] cs[i]),
        pos + emit_components(cs).len() <= s.len(),
        s.subrange(pos, pos + emit_components(cs).len()) == emit_components(cs),
    ensures
        spec_parse_components(s, pos, cs.len() as u64) == Some(
            (cs, pos + emit_components(cs).len()),
        ),
    decreases cs.len(),
{
    if cs.len() > 0 {
        let a = emit_component(cs[0]);
        let b = emit_components(cs.drop_first());
        lemma_slice_split(s, pos, a, b);
        lemma_parse_component_emit(s, pos, cs[0]);
        assert(forall|i: int|
            0 <= i < cs.len() - 1 ==> #[trigger] cs.drop_first()[i] == cs[i + 1]);
        lemma_parse_components_emit(s, pos + a.len(), cs.drop_first());
        assert(seq![cs[0]] + cs.drop_first() =~= cs);
    }
}

/// Parsing one entity: its handle, its component count, its components.
pub open spec fn spec_parse_entity(s: Seq<char>, pos: int) -> Option<(SnapEntityModel, int)> {
    match spec_parse_nat(s, pos) {
        None => None,
        Some((id, p1)) => match spec_parse_nat(s, p1) {
            None => None,
            Some((count, p2)) => match spec_parse_components(s, p2, count) {
                None => None,
                Some((cs, p3)) => Some((SnapEntityModel { id, components: cs }, p3)),
            },
        },
    }
}

/// Parsing an entity where one was emitted gives the entity back.
pub proof fn lemma_parse_entity_emit(s: Seq<char>, pos: int, e: SnapEntityModel)
    requires
        0 <= pos,
        entity_emit_ok(e),
        pos + emit_entity(e).len() <= s.len(),
        s.subrange(pos, pos + emit_entity(e).len()) == emit_entity(e),
    ensures
        spec_parse_entity(s, pos) == Some((e, pos + emit_entity(e).len())),
{
    let a = emit_nat(e.id as nat);
    let b = emit_nat(e.components.len());
    let d = emit_components(e.components);
    assert(emit_entity(e) == a + b + d);
    assert((a + b + d) =~= a + (b + d));
    lemma_slice_split(s, pos, a, b + d);
    lemma_slice_split(s, pos + a.len(), b, d);
    lemma_parse_nat_emit(s, pos, e.id);
    lemma_parse_nat_emit(s, pos + a.len(), e.components.len() as u64);
    lemma_parse_components_emit(s, pos + a.len() + b.len(), e.components);
}

/// Parsing `count` entities in a row.
pub open spec fn spec_parse_entities(s: Seq<char>, pos: int, count: u64) -> Option<(
    Seq<SnapEntityModel>,
    int,
)>
    decreases count,
{
    if count == 0 {
        Some((Seq::empty(), pos))
    } else {
        match spec_parse_entity(s, pos) {
            None => None,
            Some((e, p)) => match spec_parse_entities(s, p, (count - 1) as u64) {
                None => None,
                Some((es, p2)) => Some((seq![e] + es, p2)),
            },
        }
    }
}

/// Parsing an entity list where one was emitted gives the list back.
pub proof fn lemma_parse_entities_emit(s: Seq<char>, pos: int, es: Seq<SnapEntityModel>)
    requires
        0 <= pos,
        es.len() <= u64::MAX,
        forall|i: int| 0 <= i < es.len() ==> entity_emit_ok(#[trigger] es[i]),
        pos + emit_entities(es).len() <= s.len(),
        s.subrange(pos, pos + emit_entities(es).len()) == emit_entities(es),
    ensures
        spec_parse_entities(s, pos, es.len() as u64) == Some((es, pos + emit_entities(es).len())),
    decreases es.len(),
{
    if es.len() > 0 {
        let a = emit_entity(es[0]);
        let b = emit_entities(es.drop_first());
        lemma_slice_split(s, pos, a, b);
        lemma_parse_entity_emit(s, pos, es[0]);
        assert(forall|i: int|
            0 <= i < es.len() - 1 ==> #[trigger] es.drop_first()[i] == es[i + 1]);
        lemma_parse_entities_emit(s, pos + a.len(), es.drop_first());
        assert(seq![es[0]] + es.drop_first() =~= es);
    }
}

/// Parsing a whole snapshot document: the marker, the entity count, the
/// entities, and nothing after them.
pub open spec fn spec_parse_snapshot(s: Seq<char>) -> Option<Seq<SnapEntityModel>> {
    if s.len() < 4 || s.subrange(0, 4) != magic_chars() {
        None
    } else {
        match spec_parse_nat(s, 4) {
            None => None,
            Some((count, p1)) => match spec_parse_entities(s, p1, count) {
                None => None,
                Some((es, p2)) => if p2 == s.len() {
                    Some(es)
                } else {
                    None
                },
            },
        }
    }
}

/// The round trip of the snapshot text format: parsing an emitted snapshot
/// gives the snapshot back.
pub proof fn lemma_snapshot_round_trip(snap: Seq<SnapEntityModel>)
    requires
        snapshot_emit_ok(snap),
    ensures
        spec_parse_snapshot(emit_snapshot(snap)) == Some(snap),
{
    let s = emit_snapshot(snap);
    let a = magic_chars();
    let b = emit_nat(snap.len());
    let d = emit_entities(snap);
    assert(s == a + b + d);
    assert((a + b + d) =~= a + (b + d));
    assert(s.subrange(0, s.len() as int) =~= s);
    lemma_slice_split(s, 0, a, b + d);
    lemma_slice_split(s, a.len() as int, b, d);
    assert(s.subrange(0, 4) == a);
    lemma_parse_nat_emit(s, 4, snap.len() as u64);
    lemma_parse_entities_emit(s, (a.len() + b.len()) as int, snap);
}

/// Append a number token.
fn push_nat(out: &mut Vec<char>, n: u64)
    ensures
        final(out)@ == old(out)@ + emit_nat(n as nat),
{
    let digits = crate::text::format_u64(n);
    let ghost start = out@;
    let m = digits.len();
    let mut i: usize = 0;
    while i < m
        invariant
            0 <= i <= m,
            m == digits.len(),
            digits@ == dec_digits(n as nat),
            out@ == start + digits@.subrange(0, i as int),
        decreases m - i,
    {
        out.push(digits[i]);
        assert(out@ =~= start + digits@.subrange(0, i + 1));
        i = i + 1;
    }
    out.push(' ');
    proof {
        assert(digits@.subrange(0, m as int) =~= digits@);
        assert(out@ =~= start + emit_nat(n as nat));
    }
}

/// Append a text token.
fn push_str_token(out: &mut Vec<char>, t: &str)
    ensures
        final(out)@ == old(out)@ + emit_str(t@),
{
    let chars = crate::text::str_to_chars(t);
    push_nat(out, chars.len() as u64);
    let ghost mid = out@;
    let m = chars.len();
    let mut i: usize = 0;
    while i < m
        invariant
            0 <= i <= m,
            m == chars.len(),
            chars@ == t@,
            out@ == mid + chars@.subrange(0, i as int),
        decreases m - i,
    {
        out.push(chars[i]);
        assert(out@ =~= mid + chars@.subrange(0, i + 1));
        i = i + 1;
    }
    proof {
        assert(chars@.subrange(0, m as int) =~= chars@);
        assert(out@ =~= old(out)@ + emit_str(t@));
    }
}

/// Append a value token.
fn push_value(out: &mut Vec<char>, v: &crate::value::FieldValue)
    ensures
        final(out)@ == old(out)@ + emit_value(v@),
{
    match v {
        crate::value::FieldValue::Flag(b) => {
            out.push('b');
            out.push(if *b {
                '1'
            } else {
                '0'
            });
            assert(out@ =~= old(out)@ + emit_value(v@));
        },
        crate::value::FieldValue::Size(z) => {
            out.push('u');
            push_nat(out, *z as u64);
            assert(out@ =~= old(out)@ + emit_value(v@));
        },
        crate::value::FieldValue::Int(n) => {
            out.push('i');
            if *n < 0 {
                out.push('-');
                push_nat(out, (-(*n as i64)) as u64);
            } else {
                out.push('+');
                push_nat(out, *n as u64);
            }
            assert(out@ =~= old(out)@ + emit_value(v@));
        },
        crate::value::FieldValue::FloatSingle(t) => {
            out.push('f');
            push_str_token(out, t.as_str());
            assert(out@ =~= old(out)@ + emit_value(v@));
        },
        crate::value::FieldValue::FloatDouble(t) => {
            out.push('d');
            push_str_token(out, t.as_str());
            assert(out@ =~= old(out)@ + emit_value(v@));
        },
        crate::value::FieldValue::Text(t) => {
            out.push('t');
            push_str_token(out, t.as_str());
            assert(out@ =~= old(out)@ + emit_value(v@));
        },
        crate::value::FieldValue::Opaque(t) => {
            out.push('o');
            push_str_token(out, t.as_str());
            assert(out@ =~= old(out)@ + emit_value(v@));
        },
    }
}

/// Append one field.
fn push_field(out: &mut Vec<char>, f: &crate::record::Field)
    ensures
        final(out)@ == old(out)@ + emit_field(f@),
{
    push_str_token(out, f.name.as_str());
    push_value(out, &f.value);
    out.push('\n');
    assert(out@ =~= old(out)@ + emit_field(f@));
}

/// Append one component.
fn push_component(out: &mut Vec<char>, c: &crate::snapshot::SnapComponent)
    ensures
        final(out)@ == old(out)@ + emit_component(c@),
{
    broadcast use crate::model::lemma_views_of;

    push_str_token(out, c.full_name.as_str());
    push_nat(out, c.fields.len() as u64);
    let ghost mid = out@;
    let ghost fm = crate::model::views_of(c.fields@);
    let m = c.fields.len();
    let mut i: usize = 0;
    proof {
        assert(emit_fields(fm.subrange(0, 0)) =~= Seq::<char>::empty());
        assert(out@ =~= mid + emit_fields(fm.subrange(0, 0)));
    }
    while i < m
        invariant
            0 <= i <= m,
            m == c.fields.len(),
            fm == crate::model::views_of(c.fields@),
            fm.len() == m,
            out@ == mid + emit_fields_prefix(fm, i as int),
        decreases m - i,
    {
        proof {
            broadcast use crate::model::lemma_views_of;

        }
        push_field(out, &c.fields[i]);
        proof {
            lemma_emit_fields_prefix_step(fm, i as int);
        }
        i = i + 1;
    }
    proof {
        lemma_emit_fields_prefix_all(fm);
        assert(out@ =~= old(out)@ + emit_component(c@));
    }
}

/// The emission of the first `i` fields.
pub open spec fn emit_fields_prefix(fs: Seq<FieldModel>, i: int) -> Seq<char> {
    emit_fields(fs.subrange(0, i))
}

/// Appending one more field's emission extends the prefix emission.
proof fn lemma_emit_fields_prefix_step(fs: Seq<FieldModel>, i: int)
    requires
        0 <= i < fs.len(),
    ensures
        emit_fields_prefix(fs, i + 1) == emit_fields_prefix(fs, i) + emit_field(fs[i]),
    decreases i,
{
    lemma_emit_fields_snoc(fs.subrange(0, i + 1));
    assert(fs.subrange(0, i + 1).drop_last() =~= fs.subrange(0, i));
    assert(fs.subrange(0, i + 1).last() == fs[i]);
}

/// Emission of a list ending in one more element.
proof fn lemma_emit_fields_snoc(fs: Seq<FieldModel>)
    requires
        fs.len() > 0,
    ensures
        emit_fields(fs) == emit_fields(fs.drop_last()) + emit_field(fs.last()),
    decreases fs.len(),
{
    if fs.len() == 1 {
        assert(fs.drop_last() =~= Seq::<FieldModel>::empty());
        assert(fs.drop_first() =~= Seq::<FieldModel>::empty());
        assert(emit_fields(fs.drop_first()) =~= Seq::<char>::empty());
        assert(emit_fields(fs) =~= emit_field(fs[0]));
        assert(emit_fields(fs.drop_last()) + emit_field(fs.last()) =~= emit_field(fs[0]));
    } else {
        lemma_emit_fields_snoc(fs.drop_first());
        assert(fs.drop_first().drop_last() =~= fs.drop_last().drop_first());
        assert(fs.drop_first().last() == fs.last());
        assert(fs.drop_last()[0] == fs[0]);
        assert(fs.drop_last().len() > 0);
        assert(emit_fields(fs.drop_last()) == emit_field(fs[0]) + emit_fields(
            fs.drop_last().drop_first(),
        ));
        assert(emit_fields(fs) =~= emit_fields(fs.drop_last()) + emit_field(fs.last()));
    }
}

/// The whole list's emission is the full prefix emission.
proof fn lemma_emit_fields_prefix_all(fs: Seq<FieldModel>)
    ensures
        emit_fields_prefix(fs, fs.len() as int) == emit_fields(fs),
{
    assert(fs.subrange(0, fs.len() as int) =~= fs);
}

/// The emission of the first `i` components.
pub open spec fn emit_components_prefix(cs: Seq<SnapComponentModel>, i: int) -> Seq<char> {
    emit_components(cs.subrange(0, i))
}

/// Emission of a component list ending in one more element.
proof fn lemma_emit_components_snoc(cs: Seq<SnapComponentModel>)
    requires
        cs.len() > 0,
    ensures
        emit_components(cs) == emit_components(cs.drop_last()) + emit_component(cs.last()),
    decreases cs.len(),
{
    if cs.len() == 1 {
        assert(cs.drop_last() =~= Seq::<SnapComponentModel>::empty());
        assert(cs.drop_first() =~= Seq::<SnapComponentModel>::empty());
        assert(emit_components(cs.drop_first()) =~= Seq::<char>::empty());
        assert(emit_components(cs) =~= emit_component(cs[0]));
        assert(emit_components(cs.drop_last()) + emit_component(cs.last()) =~= emit_component(
            cs[0],
        ));
    } else {
        lemma_emit_components_snoc(cs.drop_first());
        assert(cs.drop_first().drop_last() =~= cs.drop_last().drop_first());
        assert(cs.drop_first().last() == cs.last());
        assert(cs.drop_last()[0] == cs[0]);
        assert(cs.drop_last().len() > 0);
        assert(emit_components(cs.drop_last()) == emit_component(cs[0]) + emit_components(
            cs.drop_last().drop_first(),
        ));
        assert(emit_components(cs) =~= emit_components(cs.drop_last()) + emit_component(
            cs.last(),
        ));
    }
}

proof fn lemma_emit_components_prefix_step(cs: Seq<SnapComponentModel>, i: int)
    requires
        0 <= i < cs.len(),
    ensures
        emit_components_prefix(cs, i + 1) == emit_components_prefix(cs, i) + emit_component(cs[i]),
{
    lemma_emit_components_snoc(cs.subrange(0, i + 1));
    assert(cs.subrange(0, i + 1).drop_last() =~= cs.subrange(0, i));
    assert(cs.subrange(0, i + 1).last() == cs[i]);
}

/// The emission of the first `i` entities.
pub open spec fn emit_entities_prefix(es: Seq<SnapEntityModel>, i: int) -> Seq<char> {
    emit_entities(es.subrange(0, i))
}

/// Emission of an entity list ending in one more element.
proof fn lemma_emit_entities_snoc(es: Seq<SnapEntityModel>)
    requires
        es.len() > 0,
    ensures
        emit_entities(es) == emit_entities(es.drop_last()) + emit_entity(es.last()),
    decreases es.len(),
{
    if es.len() == 1 {
        assert(es.drop_last() =~= Seq::<SnapEntityModel>::empty());
        assert(es.drop_first() =~= Seq::<SnapEntityModel>::empty());
        assert(emit_entities(es.drop_first()) =~= Seq::<char>::empty());
        assert(emit_entities(es) =~= emit_entity(es[0]));
        assert(emit_entities(es.drop_last()) + emit_entity(es.last()) =~= emit_entity(es[0]));
    } else {
        lemma_emit_entities_snoc(es.drop_first());
        assert(es.drop_first().drop_last() =~= es.drop_last().drop_first());
        assert(es.drop_first().last() == es.last());
        assert(es.drop_last()[0] == es[0]);
        assert(es.drop_last().len() > 0);
        assert(emit_entities(es.drop_last()) == emit_entity(es[0]) + emit_entities(
            es.drop_last().drop_first(),
        ));
        assert(emit_entities(es) =~= emit_entities(es.drop_last()) + emit_entity(es.last()));
    }
}

proof fn lemma_emit_entities_prefix_step(es: Seq<SnapEntityModel>, i: int)
    requires
        0 <= i < es.len(),
    ensures
        emit_entities_prefix(es, i + 1) == emit_entities_prefix(es, i) + emit_entity(es[i]),
{
    lemma_emit_entities_snoc(es.subrange(0, i + 1));
    assert(es.subrange(0, i + 1).drop_last() =~= es.subrange(0, i));
    assert(es.subrange(0, i + 1).last() == es[i]);
}

/// Append one entity.
fn push_entity(out: &mut Vec<char>, e: &crate::snapshot::SnapEntity)
    ensures
        final(out)@ == old(out)@ + emit_entity(e@),
{
    broadcast use crate::model::lemma_views_of;

    push_nat(out, e.id);
    push_nat(out, e.components.len() as u64);
    let ghost mid = out@;
    let ghost cm = crate::model::views_of(e.components@);
    let m = e.components.len();
    let mut i: usize = 0;
    proof {
        assert(emit_components(cm.subrange(0, 0)) =~= Seq::<char>::empty());
        assert(out@ =~= mid + emit_components_prefix(cm, 0));
    }
    while i < m
        invariant
            0 <= i <= m,
            m == e.components.len(),
            cm == crate::model::views_of(e.components@),
            cm.len() == m,
            out@ == mid + emit_components_prefix(cm, i as int),
        decreases m - i,
    {
        proof {
            broadcast use crate::model::lemma_views_of;

        }
        push_component(out, &e.components[i]);
        proof {
            lemma_emit_components_prefix_step(cm, i as int);
        }
        i = i + 1;
    }
    proof {
        assert(cm.subrange(0, m as int) =~= cm);
        assert(out@ =~= old(out)@ + emit_entity(e@));
    }
}

/// Serialize a snapshot to its text document.
pub fn snapshot_to_text(snap: &crate::snapshot::SceneSnapshot) -> (r: String)
    ensures
        r@ == emit_snapshot(snap@),
{
    broadcast use crate::model::lemma_views_of;

    let mut out: Vec<char> = Vec::new();
    out.push('s');
    out.push('c');
    out.push('n');
    out.push(' ');
    proof {
        assert(out@ =~= magic_chars());
    }
    push_nat(&mut out, snap.entities.len() as u64);
    let ghost mid = out@;
    let ghost em = snap@;
    let m = snap.entities.len();
    let mut i: usize = 0;
    proof {
        assert(emit_entities(em.subrange(0, 0)) =~= Seq::<char>::empty());
        assert(out@ =~= mid + emit_entities_prefix(em, 0));
    }
    while i < m
        invariant
            0 <= i <= m,
            m == snap.entities.len(),
            em == snap@,
            em.len() == m,
            mid == magic_chars() + emit_nat(em.len()),
            out@ == mid + emit_entities_prefix(em, i as int),
        decreases m - i,
    {
        proof {
            broadcast use crate::model::lemma_views_of;

        }
        push_entity(&mut out, &snap.entities[i]);
        proof {
            lemma_emit_entities_prefix_step(em, i as int);
        }
        i = i + 1;
    }
    proof {
        assert(em.subrange(0, m as int) =~= em);
        assert(out@ =~= emit_snapshot(em));
    }
    crate::text::chars_to_string(&out)
}

/// Parse a number token.
fn parse_nat_at(s: &Vec<char>, pos: usize) -> (r: Option<(u64, usize)>)
    ensures
        match r {
            Some((n, p)) => spec_parse_nat(s@, pos as int) == Some((n, p as int)) && pos < p <= s@.len(),
            None => spec_parse_nat(s@, pos as int) is None,
        },
{
    let n = s.len();
    if pos >= n {
        return None;
    }
    let mut k: usize = pos;
    let mut acc: u64 = 0;
    let mut over: bool = false;
    while k < n && 48 <= (s[k] as u32) && (s[k] as u32) <= 57
        invariant
            pos <= k <= n,
            n == s@.len(),
            forall|j: int| pos <= j < k ==> is_digit(#[trigger] s@[j]),
            !over ==> acc == digits_val(s@.subrange(pos as int, k as int)),
            over ==> digits_val(s@.subrange(pos as int, k as int)) > u64::MAX,
        decreases n - k,
    {
        let c = s[k];
        let d: u64 = ((c as u32) - 48) as u64;
        proof {
            assert(s@.subrange(pos as int, k + 1) =~= s@.subrange(pos as int, k as int).push(c));
            assert(s@.subrange(pos as int, k + 1).drop_last() =~= s@.subrange(pos as int, k as int));
        }
        if over {
            proof {
                let t0 = s@.subrange(pos as int, k as int);
                let t1 = s@.subrange(pos as int, k + 1);
                assert(digits_val(t1) == digits_val(t0) * 10 + crate::text::digit_val(c));
            }
        } else if acc > (u64::MAX - d) / 10 {
            over = true;
            proof {
                let t0 = s@.subrange(pos as int, k as int);
                let t1 = s@.subrange(pos as int, k + 1);
                assert(digits_val(t1) == digits_val(t0) * 10 + crate::text::digit_val(c));
            }
        } else {
            acc = acc * 10 + d;
            proof {
                let t0 = s@.subrange(pos as int, k as int);
                let t1 = s@.subrange(pos as int, k + 1);
                assert(digits_val(t1) == digits_val(t0) * 10 + crate::text::digit_val(c));
            }
        }
        k = k + 1;
    }
    proof {
        lemma_scan_digits_at(s@, pos as int, k as int);
    }
    if k == pos {
        return None;
    }
    if k >= n {
        return None;
    }
    if s[k] != ' ' {
        return None;
    }
    if over {
        return None;
    }
    Some((acc, k + 1))
}

/// Parse a text token.
fn parse_str_at(s: &Vec<char>, pos: usize) -> (r: Option<(String, usize)>)
    ensures
        match r {
            Some((t, p)) => spec_parse_str(s@, pos as int) == Some((t@, p as int)) && pos < p
                <= s@.len(),
            None => spec_parse_str(s@, pos as int) is None,
        },
{
    let (n, p) = match parse_nat_at(s, pos) {
        Some(x) => x,
        None => {
            return None;
        },
    };
    if n > (s.len() - p) as u64 {
        return None;
    }
    let ln = n as usize;
    let mut chars: Vec<char> = Vec::new();
    let mut i: usize = 0;
    while i < ln
        invariant
            0 <= i <= ln,
            p + ln <= s@.len(),
            s@.len() <= usize::MAX,
            chars@ == s@.subrange(p as int, p + i),
        decreases ln - i,
    {
        chars.push(s[p + i]);
        assert(chars@ =~= s@.subrange(p as int, p + i + 1));
        i = i + 1;
    }
    let t = crate::text::chars_to_string(&chars);
    Some((t, p + ln))
}

/// Parse a value token; a parsed value is always well formed.
fn parse_value_at(s: &Vec<char>, pos: usize) -> (r: Option<(crate::value::FieldValue, usize)>)
    ensures
        match r {
            Some((v, p)) => spec_parse_value(s@, pos as int) == Some((v@, p as int)) && pos < p
                <= s@.len(),
            None => spec_parse_value(s@, pos as int) is None,
        },
{
    if pos >= s.len() {
        return None;
    }
    let tag = s[pos];
    if tag == 'b' {
        if pos + 1 < s.len() && (s[pos + 1] == '0' || s[pos + 1] == '1') {
            Some((crate::value::FieldValue::Flag(s[pos + 1] == '1'), pos + 2))
        } else {
            None
        }
    } else if tag == 'u' {
        match parse_nat_at(s, pos + 1) {
            Some((n, p)) => {
                if n <= (usize::MAX as u64) {
                    Some((crate::value::FieldValue::Size(n as usize), p))
                } else {
                    None
                }
            },
            None => None,
        }
    } else if tag == 'i' {
        if pos + 1 < s.len() && s[pos + 1] == '-' {
            match parse_nat_at(s, pos + 2) {
                Some((n, p)) => {
                    if n <= 0x8000_0000 {
                        Some((crate::value::FieldValue::Int((-(n as i64)) as i32), p))
                    } else {
                        None
                    }
                },
                None => None,
            }
        } else if pos + 1 < s.len() && s[pos + 1] == '+' {
            match parse_nat_at(s, pos + 2) {
                Some((n, p)) => {
                    if n <= 0x7fff_ffff {
                        Some((crate::value::FieldValue::Int(n as i32), p))
                    } else {
                        None
                    }
                },
                None => None,
            }
        } else {
            None
        }
    } else if tag == 'f' {
        match parse_str_at(s, pos + 1) {
            Some((t, p)) => {
                let chars = crate::text::str_to_chars(t.as_str());
                if crate::text::is_float_literal_chars(chars.as_slice()) {
                    Some((crate::value::FieldValue::FloatSingle(t), p))
                } else {
                    None
                }
            },
            None => None,
        }
    } else if tag == 'd' {
        match parse_str_at(s, pos + 1) {
            Some((t, p)) => {
                let chars = crate::text::str_to_chars(t.as_str());
                if crate::text::is_float_literal_chars(chars.as_slice()) {
                    Some((crate::value::FieldValue::FloatDouble(t), p))
                } else {
                    None
                }
            },
            None => None,
        }
    } else if tag == 't' {
        match parse_str_at(s, pos + 1) {
            Some((t, p)) => Some((crate::value::FieldValue::Text(t), p)),
            None => None,
        }
    } else if tag == 'o' {
        match parse_str_at(s, pos + 1) {
            Some((t, p)) => Some((crate::value::FieldValue::Opaque(t), p)),
            None => None,
        }
    } else {
        None
    }
}

/// Parse one field.
fn parse_field_at(s: &Vec<char>, pos: usize) -> (r: Option<(crate::record::Field, usize)>)
    ensures
        match r {
            Some((f, p)) => spec_parse_field(s@, pos as int) == Some((f@, p as int)) && pos < p
                <= s@.len(),
            None => spec_parse_field(s@, pos as int) is None,
        },
{
    let (name, p1) = match parse_str_at(s, pos) {
        Some(x) => x,
        None => {
            return None;
        },
    };
    let (v, p2) = match parse_value_at(s, p1) {
        Some(x) => x,
        None => {
            return None;
        },
    };
    if p2 < s.len() && s[p2] == '\n' {
        Some((crate::record::Field { name, value: v }, p2 + 1))
    } else {
        None
    }
}

/// Parse `count` fields in a row.
fn parse_fields_at(s: &Vec<char>, pos: usize, count: u64) -> (r: Option<(
    Vec<crate::record::Field>,
    usize,
)>)
    requires
        pos <= s@.len(),
    ensures
        match r {
            Some((fs, p)) => spec_parse_fields(s@, pos as int, count) == Some(
                (crate::model::views_of(fs@), p as int),
            ) && pos <= p <= s@.len(),
            None => spec_parse_fields(s@, pos as int, count) is None,
        },
{
    broadcast use crate::model::lemma_views_of;

    let mut out: Vec<crate::record::Field> = Vec::new();
    let mut p: usize = pos;
    let mut left: u64 = count;
    proof {
        assert(crate::model::views_of(out@) =~= Seq::<FieldModel>::empty());
    }
    while left > 0
        invariant
            pos <= p <= s@.len(),
            left <= count,
            match spec_parse_fields(s@, pos as int, count) {
                Some((all, pe)) => spec_parse_fields(s@, p as int, left) matches Some((rest, pe2))
                    && pe2 == pe && all == crate::model::views_of(out@) + rest,
                None => spec_parse_fields(s@, p as int, left) is None,
            },
        decreases left,
    {
        proof {
            broadcast use crate::model::lemma_views_of;

        }
        match parse_field_at(s, p) {
            Some((f, p2)) => {
                let ghost gf = f@;
                let ghost old_out = out@;
                out.push(f);
                proof {
                    crate::model::lemma_views_of_push(old_out, out@[out@.len() - 1]);
                    assert(crate::model::views_of(out@) =~= crate::model::views_of(old_out).push(
                        gf,
                    ));
                    assert(crate::model::views_of(old_out).push(gf) =~= crate::model::views_of(
                        old_out,
                    ) + seq![gf]);
                    match spec_parse_fields(s@, p as int, left) {
                        Some((rest, pe2)) => {
                            assert(rest == seq![gf] + spec_parse_fields(
                                s@,
                                p2 as int,
                                (left - 1) as u64,
                            )->Some_0.0);
                            assert(crate::model::views_of(old_out) + rest
                                =~= crate::model::views_of(out@) + spec_parse_fields(
                                s@,
                                p2 as int,
                                (left - 1) as u64,
                            )->Some_0.0);
                        },
                        None => {},
                    }
                }
                p = p2;
                left = left - 1;
            },
            None => {
                return None;
            },
        }
    }
    Some((out, p))
}

/// Parse one component.
fn parse_component_at(s: &Vec<char>, pos: usize) -> (r: Option<(
    crate::snapshot::SnapComponent,
    usize,
)>)
    ensures
        match r {
            Some((c, p)) => spec_parse_component(s@, pos as int) == Some((c@, p as int)) && pos < p
                <= s@.len(),
            None => spec_parse_component(s@, pos as int) is None,
        },
{
    let (name, p1) = match parse_str_at(s, pos) {
        Some(x) => x,
        None => {
            return None;
        },
    };
    let (count, p2) = match parse_nat_at(s, p1) {
        Some(x) => x,
        None => {
            return None;
        },
    };
    let (fields, p3) = match parse_fields_at(s, p2, count) {
        Some(x) => x,
        None => {
            return None;
        },
    };
    Some((crate::snapshot::SnapComponent { full_name: name, fields }, p3))
}

/// Parse `count` components in a row.
fn parse_components_at(s: &Vec<char>, pos: usize, count: u64) -> (r: Option<(
    Vec<crate::snapshot::SnapComponent>,
    usize,
)>)
    requires
        pos <= s@.len(),
    ensures
        match r {
            Some((cs, p)) => spec_parse_components(s@, pos as int, count) == Some(
                (crate::model::views_of(cs@), p as int),
            ) && pos <= p <= s@.len(),
            None => spec_parse_components(s@, pos as int, count) is None,
        },
{
    broadcast use crate::model::lemma_views_of;

    let mut out: Vec<crate::snapshot::SnapComponent> = Vec::new();
    let mut p: usize = pos;
    let mut left: u64 = count;
    proof {
        assert(crate::model::views_of(out@) =~= Seq::<SnapComponentModel>::empty());
    }
    while left > 0
        invariant
            pos <= p <= s@.len(),
            left <= count,
            match spec_parse_components(s@, pos as int, count) {
                Some((all, pe)) => spec_parse_components(s@, p as int, left) matches Some(
                    (rest, pe2),
                ) && pe2 == pe && all == crate::model::views_of(out@) + rest,
                None => spec_parse_components(s@, p as int, left) is None,
            },
        decreases left,
    {
        proof {
            broadcast use crate::model::lemma_views_of;

        }
        match parse_component_at(s, p) {
            Some((c, p2)) => {
                let ghost gc = c@;
                let ghost old_out = out@;
                out.push(c);
                proof {
                    crate::model::lemma_views_of_push(old_out, out@[out@.len() - 1]);
                    assert(crate::model::views_of(out@) =~= crate::model::views_of(old_out).push(
                        gc,
                    ));
                    assert(crate::model::views_of(old_out).push(gc) =~= crate::model::views_of(
                        old_out,
                    ) + seq![gc]);
                    match spec_parse_components(s@, p as int, left) {
                        Some((rest, pe2)) => {
                            assert(rest == seq![gc] + spec_parse_components(
                                s@,
                                p2 as int,
                                (left - 1) as u64,
                            )->Some_0.0);
                            assert(crate::model::views_of(old_out) + rest
                                =~= crate::model::views_of(out@) + spec_parse_components(
                                s@,
                                p2 as int,
                                (left - 1) as u64,
                            )->Some_0.0);
                        },
                        None => {},
                    }
                }
                p = p2;
                left = left - 1;
            },
            None => {
                return None;
            },
        }
    }
    Some((out, p))
}

/// Parse one entity.
fn parse_entity_at(s: &Vec<char>, pos: usize) -> (r: Option<(crate::snapshot::SnapEntity, usize)>)
    ensures
        match r {
            Some((e, p)) => spec_parse_entity(s@, pos as int) == Some((e@, p as int)) && pos < p
                <= s@.len(),
            None => spec_parse_entity(s@, pos as int) is None,
        },
{
    let (id, p1) = match parse_nat_at(s, pos) {
        Some(x) => x,
        None => {
            return None;
        },
    };
    let (count, p2) = match parse_nat_at(s, p1) {
        Some(x) => x,
        None => {
            return None;
        },
    };
    let (components, p3) = match parse_components_at(s, p2, count) {
        Some(x) => x,
        None => {
            return None;
        },
    };
    Some((crate::snapshot::SnapEntity { id, components }, p3))
}

/// Parse `count` entities in a row.
fn parse_entities_at(s: &Vec<char>, pos: usize, count: u64) -> (r: Option<(
    Vec<crate::snapshot::SnapEntity>,
    usize,
)>)
    requires
        pos <= s@.len(),
    ensures
        match r {
            Some((es, p)) => spec_parse_entities(s@, pos as int, count) == Some(
                (crate::model::views_of(es@), p as int),
            ) && pos <= p <= s@.len(),
            None => spec_parse_entities(s@, pos as int, count) is None,
        },
{
    broadcast use crate::model::lemma_views_of;

    let mut out: Vec<crate::snapshot::SnapEntity> = Vec::new();
    let mut p: usize = pos;
    let mut left: u64 = count;
    proof {
        assert(crate::model::views_of(out@) =~= Seq::<SnapEntityModel>::empty());
    }
    while left > 0
        invariant
            pos <= p <= s@.len(),
            left <= count,
            match spec_parse_entities(s@, pos as int, count) {
                Some((all, pe)) => spec_parse_entities(s@, p as int, left) matches Some(
                    (rest, pe2),
                ) && pe2 == pe && all == crate::model::views_of(out@) + rest,
                None => spec_parse_entities(s@, p as int, left) is None,
            },
        decreases left,
    {
        proof {
            broadcast use crate::model::lemma_views_of;

        }
        match parse_entity_at(s, p) {
            Some((e, p2)) => {
                let ghost ge = e@;
                let ghost old_out = out@;
                out.push(e);
                proof {
                    crate::model::lemma_views_of_push(old_out, out@[out@.len() - 1]);
                    assert(crate::model::views_of(out@) =~= crate::model::views_of(old_out).push(
                        ge,
                    ));
                    assert(crate::model::views_of(old_out).push(ge) =~= crate::model::views_of(
                        old_out,
                    ) + seq![ge]);
                    match spec_parse_entities(s@, p as int, left) {
                        Some((rest, pe2)) => {
                            assert(rest == seq![ge] + spec_parse_entities(
                                s@,
                                p2 as int,
                                (left - 1) as u64,
                            )->Some_0.0);
                            assert(crate::model::views_of(old_out) + rest
                                =~= crate::model::views_of(out@) + spec_parse_entities(
                                s@,
                                p2 as int,
                                (left - 1) as u64,
                            )->Some_0.0);
                        },
                        None => {},
                    }
                }
                p = p2;
                left = left - 1;
            },
            None => {
                return None;
            },
        }
    }
    Some((out, p))
}

/// Parse a whole snapshot document.
pub fn text_to_snapshot(text: &str) -> (r: Option<crate::snapshot::SceneSnapshot>)
    ensures
        match r {
            Some(snap) => spec_parse_snapshot(text@) == Some(snap@),
            None => spec_parse_snapshot(text@) is None,
        },
{
    broadcast use crate::model::lemma_views_of;

    let s = crate::text::str_to_chars(text);
    if s.len() < 4 {
        return None;
    }
    if !(s[0] == 's' && s[1] == 'c' && s[2] == 'n' && s[3] == ' ') {
        proof {
            let m = magic_chars();
            assert(s@.subrange(0, 4) != m) by {
                if s@.subrange(0, 4) == m {
                    assert(s@.subrange(0, 4)[0] == s@[0] && s@.subrange(0, 4)[1] == s@[1]
                        && s@.subrange(0, 4)[2] == s@[2] && s@.subrange(0, 4)[3] == s@[3]);
                }
            }
        }
        return None;
    }
    proof {
        assert(s@.subrange(0, 4) =~= magic_chars());
    }
    let (count, p1) = match parse_nat_at(&s, 4) {
        Some(x) => x,
        None => {
            return None;
        },
    };
    let (entities, p2) = match parse_entities_at(&s, p1, count) {
        Some(x) => x,
        None => {
            return None;
        },
    };
    if p2 != s.len() {
        return None;
    }
    Some(crate::snapshot::SceneSnapshot { entities })
}

} // verus!
