//! Scalar field values and their textual forms. A record field holds one of
//! a fixed set of scalar kinds; writing a field parses text according to the
//! field's structurally known kind, and reading a field renders the value
//! back to text. Floating-point kinds hold their validated decimal literal,
//! since floating-point values themselves are kept out of verified code.

use vstd::prelude::*;

use crate::text::{
    chars_to_string, dec_digits, dec_digits_i32, format_i32, format_u64, is_float_literal,
    is_float_literal_chars, parse_i32_chars, parse_usize_chars, spec_parse_i32, spec_parse_usize,
    str_to_chars,
};

verus! {

/// The storage kind of one record field. The first six are the scalar kinds
/// the editor can write; `Opaque` stands for every other shape (nested
/// records, sequences, enumerations), which is displayed but never written.
#[derive(Clone, Copy, PartialEq, Eq, Structural, Debug)]
pub enum FieldKind {
    FloatSingle,
    FloatDouble,
    Text,
    Flag,
    Size,
    Int,
    Opaque,
}

/// One field's current value. Float kinds carry their decimal literal text;
/// the flag kind is a boolean, sizes and integers are numeric.
#[derive(Clone, Debug)]
pub enum FieldValue {
    FloatSingle(String),
    FloatDouble(String),
    Text(String),
    Flag(bool),
    Size(usize),
    Int(i32),
    Opaque(String),
}

/// The mathematical model of a field value: the same shape over character
/// sequences.
pub enum ValueModel {
    FloatSingle(Seq<char>),
    FloatDouble(Seq<char>),
    Text(Seq<char>),
    Flag(bool),
    Size(usize),
    Int(i32),
    Opaque(Seq<char>),
}

impl View for FieldValue {
    type V = ValueModel;

    open spec fn view(&self) -> ValueModel {
        match self {
            FieldValue::FloatSingle(s) => ValueModel::FloatSingle(s@),
            FieldValue::FloatDouble(s) => ValueModel::FloatDouble(s@),
            FieldValue::Text(s) => ValueModel::Text(s@),
            FieldValue::Flag(b) => ValueModel::Flag(*b),
            FieldValue::Size(n) => ValueModel::Size(*n),
            FieldValue::Int(n) => ValueModel::Int(*n),
            FieldValue::Opaque(s) => ValueModel::Opaque(s@),
        }
    }
}

/// The kind a value model is stored as.
pub open spec fn kind_of(m: ValueModel) -> FieldKind {
    match m {
        ValueModel::FloatSingle(_) => FieldKind::FloatSingle,
        ValueModel::FloatDouble(_) => FieldKind::FloatDouble,
        ValueModel::Text(_) => FieldKind::Text,
        ValueModel::Flag(_) => FieldKind::Flag,
        ValueModel::Size(_) => FieldKind::Size,
        ValueModel::Int(_) => FieldKind::Int,
        ValueModel::Opaque(_) => FieldKind::Opaque,
    }
}

/// A value model is well formed when a float-kind value holds a valid
/// literal.
pub open spec fn value_wf(m: ValueModel) -> bool {
    match m {
        ValueModel::FloatSingle(s) => is_float_literal(s),
        ValueModel::FloatDouble(s) => is_float_literal(s),
        _ => true,
    }
}

impl FieldValue {
    /// The kind this value is stored as.
    pub fn kind(&self) -> (k: FieldKind)
        ensures
            k == kind_of(self@),
    {
        match self {
            FieldValue::FloatSingle(_) => FieldKind::FloatSingle,
            FieldValue::FloatDouble(_) => FieldKind::FloatDouble,
            FieldValue::Text(_) => FieldKind::Text,
            FieldValue::Flag(_) => FieldKind::Flag,
            FieldValue::Size(_) => FieldKind::Size,
            FieldValue::Int(_) => FieldKind::Int,
            FieldValue::Opaque(_) => FieldKind::Opaque,
        }
    }
}

impl FieldValue {
    /// An equal value, by deep copy.
    pub fn duplicate(&self) -> (r: FieldValue)
        ensures
            r@ == self@,
    {
        match self {
            FieldValue::FloatSingle(s) => FieldValue::FloatSingle(s.clone()),
            FieldValue::FloatDouble(s) => FieldValue::FloatDouble(s.clone()),
            FieldValue::Text(s) => FieldValue::Text(s.clone()),
            FieldValue::Flag(b) => FieldValue::Flag(*b),
            FieldValue::Size(n) => FieldValue::Size(*n),
            FieldValue::Int(n) => FieldValue::Int(*n),
            FieldValue::Opaque(s) => FieldValue::Opaque(s.clone()),
        }
    }
}

/// A kind the editor can write through text input.
pub open spec fn is_scalar_kind(k: FieldKind) -> bool {
    k != FieldKind::Opaque
}

/// The characters of the word `true`.
pub open spec fn true_chars() -> Seq<char> {
    seq!['t', 'r', 'u', 'e']
}

/// The characters of the word `false`.
pub open spec fn false_chars() -> Seq<char> {
    seq!['f', 'a', 'l', 's', 'e']
}

/// Parsing a boolean: exactly the words `true` and `false`.
pub open spec fn spec_parse_flag(s: Seq<char>) -> Option<bool> {
    if s == true_chars() {
        Some(true)
    } else if s == false_chars() {
        Some(false)
    } else {
        None
    }
}

/// Decide whether `s` is exactly the word `true` or `false`.
fn parse_flag_chars(s: &[char]) -> (r: Option<bool>)
    ensures
        r == spec_parse_flag(s@),
{
    if s.len() == 4 && s[0] == 't' && s[1] == 'r' && s[2] == 'u' && s[3] == 'e' {
        assert(s@ =~= true_chars());
        Some(true)
    } else if s.len() == 5 && s[0] == 'f' && s[1] == 'a' && s[2] == 'l' && s[3] == 's' && s[4]
        == 'e' {
        assert(s@ =~= false_chars());
        Some(false)
    } else {
        proof {
            if s@ == true_chars() {
                assert(s@.len() == 4 && s@[0] == 't' && s@[1] == 'r' && s@[2] == 'u' && s@[3]
                    == 'e');
            }
            if s@ == false_chars() {
                assert(s@.len() == 5 && s@[0] == 'f' && s@[1] == 'a' && s@[2] == 'l' && s@[3] == 's'
                    && s@[4] == 'e');
            }
        }
        None
    }
}

/// What writing text `s` into a field of kind `k` yields: the new value, or
/// nothing when the text does not parse for that kind or the kind cannot be
/// written at all.
pub open spec fn spec_parse_value(k: FieldKind, s: Seq<char>) -> Option<ValueModel> {
    match k {
        FieldKind::FloatSingle => if is_float_literal(s) {
            Some(ValueModel::FloatSingle(s))
        } else {
            None
        },
        FieldKind::FloatDouble => if is_float_literal(s) {
            Some(ValueModel::FloatDouble(s))
        } else {
            None
        },
        FieldKind::Text => Some(ValueModel::Text(s)),
        FieldKind::Flag => match spec_parse_flag(s) {
            Some(b) => Some(ValueModel::Flag(b)),
            None => None,
        },
        FieldKind::Size => match spec_parse_usize(s) {
            Some(n) => Some(ValueModel::Size(n)),
            None => None,
        },
        FieldKind::Int => match spec_parse_i32(s) {
            Some(n) => Some(ValueModel::Int(n)),
            None => None,
        },
        FieldKind::Opaque => None,
    }
}

/// Parse text for a field of kind `k`, exactly as `spec_parse_value` says.
pub fn parse_value(k: FieldKind, text: &str) -> (r: Option<FieldValue>)
    ensures
        match r {
            Some(v) => spec_parse_value(k, text@) == Some(v@) && value_wf(v@),
            None => spec_parse_value(k, text@) is None,
        },
{
    let chars = str_to_chars(text);
    match k {
        FieldKind::FloatSingle => {
            if is_float_literal_chars(chars.as_slice()) {
                Some(FieldValue::FloatSingle(text.to_owned()))
            } else {
                None
            }
        },
        FieldKind::FloatDouble => {
            if is_float_literal_chars(chars.as_slice()) {
                Some(FieldValue::FloatDouble(text.to_owned()))
            } else {
                None
            }
        },
        FieldKind::Text => Some(FieldValue::Text(text.to_owned())),
        FieldKind::Flag => match parse_flag_chars(chars.as_slice()) {
            Some(b) => Some(FieldValue::Flag(b)),
            None => None,
        },
        FieldKind::Size => match parse_usize_chars(chars.as_slice()) {
            Some(n) => Some(FieldValue::Size(n)),
            None => None,
        },
        FieldKind::Int => match parse_i32_chars(chars.as_slice()) {
            Some(n) => Some(FieldValue::Int(n)),
            None => None,
        },
        FieldKind::Opaque => None,
    }
}

/// The text a value is rendered to for display; re-parsing it for the same
/// kind gives the value back (`lemma_value_round_trip`).
pub open spec fn spec_render(m: ValueModel) -> Seq<char> {
    match m {
        ValueModel::FloatSingle(s) => s,
        ValueModel::FloatDouble(s) => s,
        ValueModel::Text(s) => s,
        ValueModel::Flag(b) => if b {
            true_chars()
        } else {
            false_chars()
        },
        ValueModel::Size(n) => dec_digits(n as nat),
        ValueModel::Int(n) => dec_digits_i32(n),
        ValueModel::Opaque(s) => s,
    }
}

/// Render a value to its display text.
pub fn render_value(v: &FieldValue) -> (r: String)
    ensures
        r@ == spec_render(v@),
{
    match v {
        FieldValue::FloatSingle(s) => s.clone(),
        FieldValue::FloatDouble(s) => s.clone(),
        FieldValue::Text(s) => s.clone(),
        FieldValue::Flag(b) => {
            if *b {
                let r = String::from_str("true");
                proof {
                    reveal_strlit("true");
                    assert(r@ =~= true_chars());
                }
                r
            } else {
                let r = String::from_str("false");
                proof {
                    reveal_strlit("false");
                    assert(r@ =~= false_chars());
                }
                r
            }
        },
        FieldValue::Size(n) => {
            let digits = format_u64(*n as u64);
            chars_to_string(&digits)
        },
        FieldValue::Int(n) => {
            let digits = format_i32(*n);
            chars_to_string(&digits)
        },
        FieldValue::Opaque(s) => s.clone(),
    }
}

/// Round trip for every supported scalar kind: rendering a well-formed value
/// and parsing the text back for the value's own kind yields the value
/// again.
pub proof fn lemma_value_round_trip(m: ValueModel)
    requires
        value_wf(m),
        is_scalar_kind(kind_of(m)),
    ensures
        spec_parse_value(kind_of(m), spec_render(m)) == Some(m),
{
    match m {
        ValueModel::Size(n) => {
            crate::text::lemma_usize_round_trip(n);
        },
        ValueModel::Int(n) => {
            crate::text::lemma_i32_round_trip(n);
        },
        ValueModel::Flag(b) => {
            if b {
                assert(true_chars() != false_chars()) by {
                    assert(true_chars().len() == 4);
                    assert(false_chars().len() == 5);
                }
            }
        },
        _ => {},
    }
}

/// Writing any text to a field of an unsupported kind never yields a value.
pub proof fn lemma_opaque_never_writable(s: Seq<char>)
    ensures
        spec_parse_value(FieldKind::Opaque, s) is None,
{
}

impl FieldValue {
    /// Whether this value is well formed (a float-kind value holds a valid
    /// literal).
    pub fn check_wf(&self) -> (r: bool)
        ensures
            r == value_wf(self@),
    {
        match self {
            FieldValue::FloatSingle(s) => {
                let chars = str_to_chars(s.as_str());
                is_float_literal_chars(chars.as_slice())
            },
            FieldValue::FloatDouble(s) => {
                let chars = str_to_chars(s.as_str());
                is_float_literal_chars(chars.as_slice())
            },
            _ => true,
        }
    }
}

/// Whatever parses for a kind is well formed.
pub proof fn lemma_parse_value_wf(k: FieldKind, s: Seq<char>)
    ensures
        match spec_parse_value(k, s) {
            Some(v) => value_wf(v) && kind_of(v) == k && is_scalar_kind(k),
            None => true,
        },
{
}

} // verus!
