//! Records and the reflection adapter: a record is an ordered list of named
//! fields; `read_fields` turns a record into a displayable field list and
//! `write_field` applies one textual edit back into a record, honouring the
//! field's structurally known kind.

use vstd::prelude::*;

use crate::text::str_eq;
use crate::value::{
    is_scalar_kind, kind_of, parse_value, render_value, spec_parse_value, spec_render, value_wf,
    FieldValue, ValueModel,
};

verus! {

/// One named field of a record.
#[derive(Clone, Debug)]
pub struct Field {
    pub name: String,
    pub value: FieldValue,
}

/// The model of a field: its name and value as mathematical data.
pub struct FieldModel {
    pub name: Seq<char>,
    pub value: ValueModel,
}

impl View for Field {
    type V = FieldModel;

    open spec fn view(&self) -> FieldModel {
        FieldModel { name: self.name@, value: self.value@ }
    }
}

impl Field {
    /// An equal field, by deep copy.
    pub fn duplicate(&self) -> (r: Field)
        ensures
            r@ == self@,
    {
        Field { name: self.name.clone(), value: self.value.duplicate() }
    }
}

/// One data record attached to an entity: the catalog key of its type and
/// its ordered fields.
#[derive(Clone, Debug)]
pub struct Record {
    pub type_key: u64,
    pub fields: Vec<Field>,
}

/// The model of a record.
pub struct RecordModel {
    pub type_key: u64,
    pub fields: Seq<FieldModel>,
}

impl View for Record {
    type V = RecordModel;

    open spec fn view(&self) -> RecordModel {
        RecordModel { type_key: self.type_key, fields: crate::model::views_of(self.fields@) }
    }
}

impl Record {
    /// An equal record, by deep copy.
    pub fn duplicate(&self) -> (r: Record)
        ensures
            r@ == self@,
    {
        let mut fields: Vec<Field> = Vec::new();
        let n = self.fields.len();
        let mut i: usize = 0;
        while i < n
            invariant
                0 <= i <= n,
                n == self.fields.len(),
                crate::model::views_of(fields@) =~= crate::model::views_of(self.fields@).subrange(
                    0,
                    i as int,
                ),
            decreases n - i,
        {
            let ghost old_fields = fields@;
            let f = self.fields[i].duplicate();
            let ghost gf = f;
            fields.push(f);
            proof {
                crate::model::lemma_views_of_push(old_fields, gf);
                crate::model::lemma_views_of(old_fields);
                crate::model::lemma_views_of(fields@);
                crate::model::lemma_views_of(self.fields@);
                assert(crate::model::views_of(fields@) =~= crate::model::views_of(
                    self.fields@,
                ).subrange(0, i + 1));
            }
            i = i + 1;
        }
        proof {
            assert(crate::model::views_of(self.fields@).subrange(
                0,
                n as int,
            ) =~= crate::model::views_of(self.fields@)) by {
                crate::model::lemma_views_of(self.fields@);
            }
        }
        Record { type_key: self.type_key, fields }
    }
}

/// Field names of a record are distinct and every value is well formed.
pub open spec fn record_wf(m: RecordModel) -> bool {
    &&& forall|i: int, j: int|
        0 <= i < j < m.fields.len() ==> (#[trigger] m.fields[i].name) != (#[trigger] m.fields[j].name)
    &&& forall|i: int| 0 <= i < m.fields.len() ==> value_wf((#[trigger] m.fields[i]).value)
}

/// The index of the first field called `name`, if any.
pub open spec fn find_field(fs: Seq<FieldModel>, name: Seq<char>) -> Option<int>
    decreases fs.len(),
{
    if fs.len() == 0 {
        None
    } else if fs[0].name == name {
        Some(0)
    } else {
        match find_field(fs.drop_first(), name) {
            Some(i) => Some(i + 1),
            None => None,
        }
    }
}

/// What `find_field` finds is the first match; when it finds nothing, no
/// field matches.
pub proof fn lemma_find_field(fs: Seq<FieldModel>, name: Seq<char>)
    ensures
        match find_field(fs, name) {
            Some(i) => 0 <= i < fs.len() && fs[i].name == name && (forall|j: int|
                0 <= j < i ==> (#[trigger] fs[j]).name != name),
            None => forall|j: int| 0 <= j < fs.len() ==> (#[trigger] fs[j]).name != name,
        },
    decreases fs.len(),
{
    if fs.len() > 0 && fs[0].name != name {
        let d = fs.drop_first();
        lemma_find_field(d, name);
        assert(forall|j: int| 0 <= j < fs.len() - 1 ==> #[trigger] d[j] == fs[j + 1]);
        match find_field(d, name) {
            Some(i) => {
                assert(fs[i + 1].name == name) by {
                    assert(d[i] == fs[i + 1]);
                }
                assert forall|j: int| 0 <= j < i + 1 implies (#[trigger] fs[j]).name != name by {
                    if j > 0 {
                        assert(fs[j] == d[j - 1]);
                    }
                }
            },
            None => {
                assert forall|j: int| 0 <= j < fs.len() implies (#[trigger] fs[j]).name != name by {
                    if j > 0 {
                        assert(fs[j] == d[j - 1]);
                    }
                }
            },
        }
    }
}

/// A first match determines `find_field`.
pub proof fn lemma_find_field_at(fs: Seq<FieldModel>, name: Seq<char>, i: int)
    requires
        0 <= i < fs.len(),
        fs[i].name == name,
        forall|j: int| 0 <= j < i ==> (#[trigger] fs[j]).name != name,
    ensures
        find_field(fs, name) == Some(i),
    decreases i,
{
    if i > 0 {
        lemma_find_field_at(fs.drop_first(), name, i - 1);
        assert(forall|j: int| 0 <= j < fs.len() - 1 ==> #[trigger] fs.drop_first()[j] == fs[j + 1]);
    }
}

/// The record after writing text `t` into field `name`, and whether a write
/// occurred: the first field of that name is updated when the text parses
/// for the field's kind; otherwise the record is unchanged.
pub open spec fn spec_write_field(m: RecordModel, name: Seq<char>, t: Seq<char>) -> (
    RecordModel,
    bool,
) {
    match find_field(m.fields, name) {
        Some(i) => match spec_parse_value(kind_of(m.fields[i].value), t) {
            Some(v) => (
                RecordModel {
                    type_key: m.type_key,
                    fields: m.fields.update(i, FieldModel { name: m.fields[i].name, value: v }),
                },
                true,
            ),
            None => (m, false),
        },
        None => (m, false),
    }
}

/// Attempt one textual edit against a live record: parse `text` for the
/// named field's structurally known kind and write it on success. Returns
/// whether a write occurred; on failure the record is left unchanged.
pub fn write_field(rec: &mut Record, name: &str, text: &str) -> (applied: bool)
    ensures
        final(rec)@ == spec_write_field(old(rec)@, name@, text@).0,
        applied == spec_write_field(old(rec)@, name@, text@).1,
        record_wf(old(rec)@) ==> record_wf(final(rec)@),
{
    let ghost m = rec@;
    proof {
        lemma_find_field(m.fields, name@);
    }
    let n = rec.fields.len();
    let mut i: usize = 0;
    while i < n
        invariant
            0 <= i <= n,
            n == rec.fields.len(),
            rec == old(rec),
            m == rec@,
            forall|j: int| 0 <= j < i ==> (#[trigger] m.fields[j]).name != name@,
        decreases n - i,
    {
        if str_eq(rec.fields[i].name.as_str(), name) {
            proof {
                lemma_find_field_at(m.fields, name@, i as int);
            }
            match parse_value(rec.fields[i].value.kind(), text) {
                Some(v) => {
                    let nm = rec.fields[i].name.clone();
                    rec.fields.set(i, Field { name: nm, value: v });
                    proof {
                        assert(rec@.fields =~= m.fields.update(
                            i as int,
                            FieldModel { name: m.fields[i as int].name, value: v@ },
                        ));
                        if record_wf(m) {
                            assert(record_wf(rec@));
                        }
                    }
                    return true;
                },
                None => {
                    return false;
                },
            }
        }
        i = i + 1;
    }
    false
}

/// One displayed field of the selected entity's inspector: the field's name
/// and its current textual value.
#[derive(Clone, Debug)]
pub struct FieldView {
    pub name: String,
    pub text_value: String,
}

/// The model of a displayed field.
pub struct FieldViewModel {
    pub name: Seq<char>,
    pub text_value: Seq<char>,
}

impl View for FieldView {
    type V = FieldViewModel;

    open spec fn view(&self) -> FieldViewModel {
        FieldViewModel { name: self.name@, text_value: self.text_value@ }
    }
}

/// The displayed form of a record's fields: every field, rendered.
pub open spec fn spec_read_fields(m: RecordModel) -> Seq<FieldViewModel> {
    m.fields.map_values(
        |f: FieldModel| FieldViewModel { name: f.name, text_value: spec_render(f.value) },
    )
}

/// Produce the displayable field list of a record. A record of a type
/// without structural reflection yields no fields; this function is the
/// reflectable half (the caller checks the capability).
pub fn read_fields(rec: &Record) -> (r: Vec<FieldView>)
    ensures
        crate::model::views_of(r@) == spec_read_fields(rec@),
{
    let mut r: Vec<FieldView> = Vec::new();
    let n = rec.fields.len();
    let mut i: usize = 0;
    while i < n
        invariant
            0 <= i <= n,
            n == rec.fields.len(),
            crate::model::views_of(r@) =~= spec_read_fields(rec@).subrange(0, i as int),
        decreases n - i,
    {
        let f = &rec.fields[i];
        let text = render_value(&f.value);
        let ghost old_r = r@;
        let fv = FieldView { name: f.name.clone(), text_value: text };
        let ghost gfv = fv;
        r.push(fv);
        proof {
            let mapped = crate::model::views_of(r@);
            let target = spec_read_fields(rec@).subrange(0, i + 1);
            assert(r@ == old_r.push(gfv));
            assert(crate::model::views_of(old_r).len() == old_r.len());
            assert(old_r.len() == i as int);
            assert(mapped.len() == i + 1);
            assert(rec@.fields[i as int] == f@);
            assert forall|j: int| 0 <= j < mapped.len() implies mapped[j] == target[j] by {
                if j < i {
                    assert(old_r.push(gfv)[j] == old_r[j]);
                    assert(mapped[j] == crate::model::views_of(old_r)[j]);
                } else {
                    assert(old_r.push(gfv)[j] == gfv);
                    assert(mapped[j] == gfv@);
                    assert(target[j] == spec_read_fields(rec@)[j]);
                }
            }
            assert(mapped =~= target);
        }
        i = i + 1;
    }
    assert(spec_read_fields(rec@).subrange(0, n as int) =~= spec_read_fields(rec@));
    r
}

/// Writing the same text to the same field twice is idempotent: the second
/// write leaves the record exactly as the first left it.
pub proof fn lemma_write_field_idempotent(m: RecordModel, name: Seq<char>, t: Seq<char>)
    ensures
        spec_write_field(spec_write_field(m, name, t).0, name, t).0 == spec_write_field(m, name, t).0,
{
    lemma_find_field(m.fields, name);
    match find_field(m.fields, name) {
        Some(i) => {
            match spec_parse_value(kind_of(m.fields[i].value), t) {
                Some(v) => {
                    let m1 = spec_write_field(m, name, t).0;
                    assert(m1.fields[i].name == name);
                    assert(forall|j: int| 0 <= j < i ==> #[trigger] m1.fields[j] == m.fields[j]);
                    lemma_find_field_at(m1.fields, name, i);
                    assert(kind_of(v) == kind_of(m.fields[i].value)) by {
                        lemma_parse_value_kind(kind_of(m.fields[i].value), t);
                    }
                    assert(spec_parse_value(kind_of(m1.fields[i].value), t) == Some(v));
                    assert(spec_write_field(m1, name, t).0.fields =~= m1.fields);
                },
                None => {},
            }
        },
        None => {},
    }
}

/// A parsed value has the kind it was parsed for.
pub proof fn lemma_parse_value_kind(k: crate::value::FieldKind, t: Seq<char>)
    ensures
        match spec_parse_value(k, t) {
            Some(v) => kind_of(v) == k,
            None => true,
        },
{
}

impl Record {
    /// The position of the first field called `name`, if any.
    pub fn field_index_of(&self, name: &str) -> (r: Option<usize>)
        ensures
            match r {
                Some(k) => find_field(self@.fields, name@) == Some(k as int),
                None => find_field(self@.fields, name@) is None,
            },
    {
        broadcast use crate::model::lemma_views_of;

        let ghost fs = self@.fields;
        proof {
            lemma_find_field(fs, name@);
        }
        let n = self.fields.len();
        let mut i: usize = 0;
        while i < n
            invariant
                0 <= i <= n,
                n == self.fields.len(),
                fs == self@.fields,
                forall|j: int| 0 <= j < i ==> (#[trigger] fs[j]).name != name@,
            decreases n - i,
        {
            proof {
                broadcast use crate::model::lemma_views_of;

            }
            if str_eq(self.fields[i].name.as_str(), name) {
                proof {
                    lemma_find_field_at(fs, name@, i as int);
                }
                return Some(i);
            }
            i = i + 1;
        }
        None
    }
}

impl Record {
    /// Whether this record is well formed: distinct field names, every
    /// value well formed.
    pub fn check_wf(&self) -> (r: bool)
        ensures
            r == record_wf(self@),
    {
        broadcast use crate::model::lemma_views_of;

        let ghost fs = self@.fields;
        let n = self.fields.len();
        let mut i: usize = 0;
        while i < n
            invariant
                0 <= i <= n,
                n == self.fields.len(),
                fs == self@.fields,
                forall|a: int, b: int|
                    0 <= a < b < i ==> (#[trigger] fs[a].name) != (#[trigger] fs[b].name),
                forall|a: int| 0 <= a < i ==> value_wf((#[trigger] fs[a]).value),
            decreases n - i,
        {
            proof {
                broadcast use crate::model::lemma_views_of;

            }
            if !self.fields[i].value.check_wf() {
                return false;
            }
            let mut j: usize = 0;
            while j < i
                invariant
                    0 <= j <= i < n,
                    n == self.fields.len(),
                    fs == self@.fields,
                    forall|a: int| 0 <= a < j ==> (#[trigger] fs[a].name) != fs[i as int].name,
                decreases i - j,
            {
                proof {
                    broadcast use crate::model::lemma_views_of;

                }
                if str_eq(self.fields[j].name.as_str(), self.fields[i].name.as_str()) {
                    proof {
                        assert(fs[j as int].name == self.fields@[j as int]@.name);
                        assert(fs[i as int].name == self.fields@[i as int]@.name);
                        assert(fs[j as int].name == fs[i as int].name);
                        assert(!record_wf(self@));
                    }
                    return false;
                }
                j = j + 1;
            }
            assert forall|a: int, b: int|
                0 <= a < b < i + 1 implies (#[trigger] fs[a].name) != (#[trigger] fs[b].name) by {
                if b < i {
                    assert(fs[a].name != fs[b].name);
                }
            }
            i = i + 1;
        }
        true
    }
}

/// Scalar round trip through a record: when a textual write lands on a
/// field, reading the record back shows a text for that field which
/// re-parses, for the field's own kind, to exactly the stored value.
pub proof fn lemma_write_read_round_trip(m: RecordModel, name: Seq<char>, t: Seq<char>)
    requires
        record_wf(m),
        spec_write_field(m, name, t).1,
    ensures
        ({
            let m1 = spec_write_field(m, name, t).0;
            let i = find_field(m.fields, name)->Some_0;
            &&& 0 <= i < m1.fields.len()
            &&& spec_read_fields(m1)[i].text_value == spec_render(m1.fields[i].value)
            &&& spec_parse_value(kind_of(m1.fields[i].value), spec_read_fields(m1)[i].text_value)
                == Some(m1.fields[i].value)
        }),
{
    lemma_find_field(m.fields, name);
    let i = find_field(m.fields, name)->Some_0;
    let v = spec_parse_value(kind_of(m.fields[i].value), t)->Some_0;
    crate::value::lemma_parse_value_wf(kind_of(m.fields[i].value), t);
    let m1 = spec_write_field(m, name, t).0;
    assert(m1.fields[i].value == v);
    crate::value::lemma_value_round_trip(v);
}

/// Writing through an unsupported field kind does nothing: the write
/// reports failure and the record is exactly as it was.
pub proof fn lemma_unsupported_kind_unchanged(m: RecordModel, name: Seq<char>, t: Seq<char>)
    requires
        ({
            match find_field(m.fields, name) {
                Some(i) => kind_of(m.fields[i].value) == crate::value::FieldKind::Opaque,
                None => true,
            }
        }),
    ensures
        spec_write_field(m, name, t) == (m, false),
{
}


} // verus!
