//! The inspection rebuild engine. It tracks which entity is selected and
//! whether that entity's set of attached record types changed since the
//! last tick; on change it fully rebuilds the displayed panel, otherwise it
//! refreshes displayed values in place — never touching the input the user
//! is editing.

use vstd::prelude::*;

use crate::catalog::{Catalog, DescriptorModel};
use crate::commands::{spec_resolve, Command, CommandQueue};
use crate::model::views_of;
use crate::record::{FieldModel, RecordModel};
use crate::store::{find_entity, store_wf, Store, StoreModel};
use crate::value::spec_render;

verus! {

/// The process-wide selection and focus state, read by every core
/// component and written only by the selection and focus handlers.
#[derive(Clone, Copy, Debug)]
pub struct EditorState {
    pub selected_entity: Option<u64>,
    pub focused_input: Option<u64>,
}

impl EditorState {
    /// No selection, no focus.
    pub fn new() -> (s: EditorState)
        ensures
            s.selected_entity is None,
            s.focused_input is None,
    {
        EditorState { selected_entity: None, focused_input: None }
    }

    /// Select an entity (a hierarchy row was pressed).
    pub fn select_entity(&mut self, id: u64)
        ensures
            final(self).selected_entity == Some(id),
            final(self).focused_input == old(self).focused_input,
    {
        self.selected_entity = Some(id);
    }

    /// Give an input the focus (it was pressed).
    pub fn focus_input(&mut self, input_id: u64)
        ensures
            final(self).focused_input == Some(input_id),
            final(self).selected_entity == old(self).selected_entity,
    {
        self.focused_input = Some(input_id);
    }

    /// Drop the focus.
    pub fn defocus(&mut self)
        ensures
            final(self).focused_input is None,
            final(self).selected_entity == old(self).selected_entity,
    {
        self.focused_input = None;
    }
}

/// The add-component overlay's state: whether the search is open and its
/// live filter text.
#[derive(Debug)]
pub struct InspectorUiState {
    pub is_adding_component: bool,
    pub component_filter: String,
}

impl InspectorUiState {
    /// Search closed, filter empty.
    pub fn new() -> (s: InspectorUiState)
        ensures
            !s.is_adding_component,
            s.component_filter@.len() == 0,
    {
        let s = InspectorUiState { is_adding_component: false, component_filter: String::new() };
        s
    }

    /// Toggle the add-component search; opening it resets the filter.
    pub fn toggle_adding(&mut self)
        ensures
            final(self).is_adding_component == !old(self).is_adding_component,
            final(self).is_adding_component ==> final(self).component_filter@.len() == 0,
            !final(self).is_adding_component ==> final(self).component_filter@
                == old(self).component_filter@,
    {
        self.is_adding_component = !self.is_adding_component;
        if self.is_adding_component {
            self.component_filter = String::new();
        }
    }

    /// Append one typed character to the live filter.
    pub fn filter_push(&mut self, c: char)
        ensures
            final(self).component_filter@ == old(self).component_filter@.push(c),
            final(self).is_adding_component == old(self).is_adding_component,
    {
        let mut s = String::new();
        let mut one: Vec<char> = Vec::new();
        one.push(c);
        let tail = crate::text::chars_to_string(&one);
        let mut whole = self.component_filter.clone();
        whole.append(tail.as_str());
        proof {
            assert(whole@ =~= old(self).component_filter@.push(c));
        }
        self.component_filter = whole;
    }

    /// Remove the last character of the live filter, if any.
    pub fn filter_pop(&mut self)
        ensures
            old(self).component_filter@.len() == 0 ==> final(self).component_filter@
                == old(self).component_filter@,
            old(self).component_filter@.len() > 0 ==> final(self).component_filter@
                == old(self).component_filter@.drop_last(),
            final(self).is_adding_component == old(self).is_adding_component,
    {
        let chars = crate::text::str_to_chars(self.component_filter.as_str());
        if chars.len() == 0 {
            return ;
        }
        let mut shorter: Vec<char> = Vec::new();
        let n = chars.len() - 1;
        let mut i: usize = 0;
        while i < n
            invariant
                0 <= i <= n,
                n == chars@.len() - 1,
                shorter@ == chars@.subrange(0, i as int),
            decreases n - i,
        {
            shorter.push(chars[i]);
            assert(shorter@ =~= chars@.subrange(0, i + 1));
            i = i + 1;
        }
        let s = crate::text::chars_to_string(&shorter);
        proof {
            assert(chars@.subrange(0, chars@.len() - 1) =~= old(self).component_filter@.drop_last());
        }
        self.component_filter = s;
    }
}

/// One displayed field input: its opaque input identity, the field it
/// edits, and the text it currently shows (the user's buffer while it is
/// focused).
#[derive(Debug)]
pub struct InputRow {
    pub input_id: u64,
    pub field_name: String,
    pub text: String,
}

/// The model of a displayed input row.
pub struct RowModel {
    pub input_id: u64,
    pub field_name: Seq<char>,
    pub text: Seq<char>,
}

impl View for InputRow {
    type V = RowModel;

    open spec fn view(&self) -> RowModel {
        RowModel { input_id: self.input_id, field_name: self.field_name@, text: self.text@ }
    }
}

/// One displayed component section: an opaque marker that survives value
/// refreshes, the record type it shows, and its field rows.
#[derive(Debug)]
pub struct ComponentSection {
    pub marker: u64,
    pub type_key: u64,
    pub display_name: String,
    pub full_name: String,
    pub rows: Vec<InputRow>,
}

/// The model of a displayed section.
pub struct SectionModel {
    pub marker: u64,
    pub type_key: u64,
    pub display_name: Seq<char>,
    pub full_name: Seq<char>,
    pub rows: Seq<RowModel>,
}

impl View for ComponentSection {
    type V = SectionModel;

    open spec fn view(&self) -> SectionModel {
        SectionModel {
            marker: self.marker,
            type_key: self.type_key,
            display_name: self.display_name@,
            full_name: self.full_name@,
            rows: views_of(self.rows@),
        }
    }
}

/// The displayed inspector panel: its sections and the allocator for fresh
/// markers and input identities.
#[derive(Debug)]
pub struct InspectorPanel {
    pub next_marker: u64,
    pub sections: Vec<ComponentSection>,
}

/// The model of the panel.
pub struct PanelModel {
    pub next_marker: u64,
    pub sections: Seq<SectionModel>,
}

impl View for InspectorPanel {
    type V = PanelModel;

    open spec fn view(&self) -> PanelModel {
        PanelModel { next_marker: self.next_marker, sections: views_of(self.sections@) }
    }
}

impl InspectorPanel {
    /// An empty panel.
    pub fn new() -> (p: InspectorPanel)
        ensures
            p@.sections.len() == 0,
            p@.next_marker == 0,
    {
        let p = InspectorPanel { next_marker: 0, sections: Vec::new() };
        proof {
            broadcast use crate::model::lemma_views_of;

            assert(p@.sections =~= Seq::<SectionModel>::empty());
        }
        p
    }
}

/// The rows of one reflectable record: one row per field, with input
/// identities allocated from `c` on, showing each field's rendered value.
pub open spec fn spec_rows(fields: Seq<FieldModel>, c: nat) -> Seq<RowModel> {
    Seq::new(
        fields.len(),
        |i: int|
            RowModel {
                input_id: (c + i) as u64,
                field_name: fields[i].name,
                text: spec_render(fields[i].value),
            },
    )
}

/// How many markers and input identities a rebuild over these records can
/// consume at most.
pub open spec fn sections_budget(rs: Seq<RecordModel>) -> nat
    decreases rs.len(),
{
    if rs.len() == 0 {
        0
    } else {
        1 + rs[0].fields.len() + sections_budget(rs.drop_first())
    }
}

/// The sections of a full rebuild over the given records, with markers and
/// input identities allocated from `c0` on, and the next free identity: one
/// section per attached record whose type the catalog resolves; its rows
/// are its rendered fields when the type is structurally reflectable, and
/// empty otherwise.
pub open spec fn spec_build_sections(rs: Seq<RecordModel>, cm: Seq<DescriptorModel>, c0: nat) -> (
    Seq<SectionModel>,
    nat,
)
    decreases rs.len(),
{
    if rs.len() == 0 {
        (Seq::empty(), c0)
    } else {
        match spec_resolve(cm, rs[0].type_key) {
            None => spec_build_sections(rs.drop_first(), cm, c0),
            Some(d) => {
                let nrows: nat = if d.reflectable {
                    rs[0].fields.len()
                } else {
                    0
                };
                let rows = if d.reflectable {
                    spec_rows(rs[0].fields, c0 + 1)
                } else {
                    Seq::empty()
                };
                let sec = SectionModel {
                    marker: c0 as u64,
                    type_key: rs[0].type_key,
                    display_name: d.short_name,
                    full_name: d.full_name,
                    rows,
                };
                let rest = spec_build_sections(rs.drop_first(), cm, c0 + 1 + nrows);
                (seq![sec] + rest.0, rest.1)
            },
        }
    }
}

/// The counter a rebuild ends with never exceeds the budget.
pub proof fn lemma_build_sections_budget(rs: Seq<RecordModel>, cm: Seq<DescriptorModel>, c0: nat)
    ensures
        c0 <= spec_build_sections(rs, cm, c0).1 <= c0 + sections_budget(rs),
    decreases rs.len(),
{
    if rs.len() > 0 {
        match spec_resolve(cm, rs[0].type_key) {
            None => {
                lemma_build_sections_budget(rs.drop_first(), cm, c0);
            },
            Some(d) => {
                let nrows: nat = if d.reflectable {
                    rs[0].fields.len()
                } else {
                    0
                };
                lemma_build_sections_budget(rs.drop_first(), cm, c0 + 1 + nrows);
            },
        }
    }
}

/// What the engine remembered from the last render: the selected entity
/// and the set of its attached type keys (the shape fingerprint).
#[derive(Debug)]
pub struct InspectorState {
    pub last_entity: Option<u64>,
    pub last_keys: Vec<u64>,
}

/// The model of the remembered state.
pub struct InspectorStateModel {
    pub last_entity: Option<u64>,
    pub last_keys: Seq<u64>,
}

impl View for InspectorState {
    type V = InspectorStateModel;

    open spec fn view(&self) -> InspectorStateModel {
        InspectorStateModel { last_entity: self.last_entity, last_keys: self.last_keys@ }
    }
}

impl InspectorState {
    /// Nothing rendered yet.
    pub fn new() -> (s: InspectorState)
        ensures
            s@.last_entity is None,
            s@.last_keys.len() == 0,
    {
        let s = InspectorState { last_entity: None, last_keys: Vec::new() };
        s
    }
}

/// Whether two key lists denote the same set of attached types.
pub fn keys_equal_as_sets(a: &Vec<u64>, b: &Vec<u64>) -> (r: bool)
    ensures
        r == (a@.to_set() == b@.to_set()),
{
    let n = a.len();
    let mut i: usize = 0;
    while i < n
        invariant
            0 <= i <= n,
            n == a@.len(),
            forall|j: int| 0 <= j < i ==> b@.contains(#[trigger] a@[j]),
        decreases n - i,
    {
        if !crate::store::contains_u64(b, a[i]) {
            proof {
                assert(a@.to_set().contains(a@[i as int]));
                assert(!b@.to_set().contains(a@[i as int]));
            }
            return false;
        }
        i = i + 1;
    }
    let m = b.len();
    let mut k: usize = 0;
    while k < m
        invariant
            0 <= k <= m,
            m == b@.len(),
            forall|j: int| 0 <= j < a@.len() ==> b@.contains(#[trigger] a@[j]),
            forall|j: int| 0 <= j < k ==> a@.contains(#[trigger] b@[j]),
        decreases m - k,
    {
        if !crate::store::contains_u64(a, b[k]) {
            proof {
                assert(b@.to_set().contains(b@[k as int]));
                assert(!a@.to_set().contains(b@[k as int]));
            }
            return false;
        }
        k = k + 1;
    }
    proof {
        assert(a@.to_set() =~= b@.to_set()) by {
            assert forall|x: u64| a@.to_set().contains(x) implies b@.to_set().contains(x) by {
                let j = choose|j: int| 0 <= j < a@.len() && a@[j] == x;
                assert(b@.contains(a@[j]));
            }
            assert forall|x: u64| b@.to_set().contains(x) implies a@.to_set().contains(x) by {
                let j = choose|j: int| 0 <= j < b@.len() && b@[j] == x;
                assert(a@.contains(b@[j]));
            }
        }
    }
    true
}

/// Build the row vector of one reflectable record.
fn build_rows(rec: &crate::record::Record, c: u64) -> (out: (Vec<InputRow>, u64))
    requires
        c + rec@.fields.len() <= u64::MAX,
    ensures
        views_of(out.0@) == spec_rows(rec@.fields, c as nat),
        out.1 == c + rec@.fields.len(),
{
    broadcast use crate::model::lemma_views_of;

    let ghost fs = rec@.fields;
    let mut rows: Vec<InputRow> = Vec::new();
    let n = rec.fields.len();
    let mut i: usize = 0;
    while i < n
        invariant
            0 <= i <= n,
            n == rec.fields.len(),
            fs == rec@.fields,
            c + n <= u64::MAX,
            views_of(rows@) =~= spec_rows(fs, c as nat).subrange(0, i as int),
        decreases n - i,
    {
        proof {
            broadcast use crate::model::lemma_views_of;

        }
        let f = &rec.fields[i];
        let text = crate::value::render_value(&f.value);
        let ghost old_rows = rows@;
        let row = InputRow { input_id: c + (i as u64), field_name: f.name.clone(), text };
        let ghost grow = row@;
        rows.push(row);
        proof {
            crate::model::lemma_views_of_push(old_rows, rows@[rows@.len() - 1]);
            assert(grow == spec_rows(fs, c as nat)[i as int]);
            assert(views_of(rows@) =~= spec_rows(fs, c as nat).subrange(0, i + 1));
        }
        i = i + 1;
    }
    proof {
        assert(spec_rows(fs, c as nat).subrange(0, n as int) =~= spec_rows(fs, c as nat));
    }
    (rows, c + (n as u64))
}

/// Full rebuild: one section per attached record whose type the catalog
/// resolves, rows rendered for reflectable types, markers and input
/// identities allocated from `c0` on.
fn build_sections(ent: &crate::store::EntityData, catalog: &Catalog, c0: u64) -> (out: (
    Vec<ComponentSection>,
    u64,
))
    requires
        c0 + sections_budget(ent@.records) <= u64::MAX,
    ensures
        views_of(out.0@) == spec_build_sections(ent@.records, catalog@, c0 as nat).0,
        out.1 == spec_build_sections(ent@.records, catalog@, c0 as nat).1,
{
    broadcast use crate::model::lemma_views_of;

    let ghost rs = ent@.records;
    let ghost cm = catalog@;
    let mut out: Vec<ComponentSection> = Vec::new();
    let mut c: u64 = c0;
    let n = ent.records.len();
    let mut i: usize = 0;
    proof {
        assert(rs.subrange(0, rs.len() as int) =~= rs);
    }
    while i < n
        invariant
            0 <= i <= n,
            n == ent.records.len(),
            rs == ent@.records,
            cm == catalog@,
            c + sections_budget(rs.subrange(i as int, n as int)) <= u64::MAX,
            spec_build_sections(rs, cm, c0 as nat).0 =~= views_of(out@) + spec_build_sections(
                rs.subrange(i as int, n as int),
                cm,
                c as nat,
            ).0,
            spec_build_sections(rs, cm, c0 as nat).1 == spec_build_sections(
                rs.subrange(i as int, n as int),
                cm,
                c as nat,
            ).1,
        decreases n - i,
    {
        proof {
            broadcast use crate::model::lemma_views_of;

        }
        let ghost suffix = rs.subrange(i as int, n as int);
        let ghost suffix1 = rs.subrange(i + 1, n as int);
        proof {
            assert(suffix[0] == rs[i as int]);
            assert(suffix.drop_first() =~= suffix1);
        }
        let rec = &ent.records[i];
        match catalog.resolve_key(rec.type_key) {
            Some(d) => {
                proof {
                    assert(crate::commands::spec_resolve(cm, rec.type_key) == Some(d@));
                }
                let marker = c;
                let (rows, cnext) = if d.reflectable {
                    build_rows(rec, c + 1)
                } else {
                    (Vec::new(), c + 1)
                };
                proof {
                    if !d.reflectable {
                        assert(views_of(Seq::<InputRow>::empty()) =~= Seq::<RowModel>::empty());
                    }
                }
                let sec = ComponentSection {
                    marker,
                    type_key: rec.type_key,
                    display_name: d.short_name.clone(),
                    full_name: d.full_name.clone(),
                    rows,
                };
                let ghost gsec = sec@;
                let ghost old_out = out@;
                out.push(sec);
                c = cnext;
                proof {
                    crate::model::lemma_views_of_push(old_out, out@[out@.len() - 1]);
                    let b = spec_build_sections(suffix, cm, (marker) as nat);
                    assert(gsec == b.0[0]) by {
                        if d@.reflectable {
                            assert(views_of(Seq::<InputRow>::empty()) =~= Seq::<RowModel>::empty());
                        }
                    }
                    assert(b.0 =~= seq![gsec] + spec_build_sections(suffix1, cm, c as nat).0);
                    assert(spec_build_sections(rs, cm, c0 as nat).0 =~= views_of(out@)
                        + spec_build_sections(suffix1, cm, c as nat).0);
                }
            },
            None => {
                proof {
                    assert(crate::commands::spec_resolve(cm, rec.type_key) is None);
                    assert(spec_build_sections(suffix, cm, c as nat)
                        == spec_build_sections(suffix1, cm, c as nat));
                }
            },
        }
        i = i + 1;
    }
    proof {
        assert(rs.subrange(n as int, n as int) =~= Seq::<RecordModel>::empty());
        assert(spec_build_sections(Seq::<RecordModel>::empty(), cm, c as nat).0
            =~= Seq::<SectionModel>::empty());
        assert(spec_build_sections(rs, cm, c0 as nat).0 =~= views_of(out@));
    }
    (out, c)
}

/// The current display text of one row: the rendered value of the named
/// field on the section's record, or the old text when the record or field
/// is gone.
pub open spec fn refreshed_text(rs: Seq<RecordModel>, type_key: u64, row: RowModel) -> Seq<char> {
    match crate::store::find_record(rs, type_key) {
        Some(j) => match crate::record::find_field(rs[j].fields, row.field_name) {
            Some(k) => spec_render(rs[j].fields[k].value),
            None => row.text,
        },
        None => row.text,
    }
}

/// An incremental refresh: every section keeps its marker, type, and names;
/// every row keeps its identity and field, and shows the field's current
/// value — except a row whose identity is the focused input, which is left
/// exactly as it is.
pub open spec fn spec_refresh(
    sections: Seq<SectionModel>,
    rs: Seq<RecordModel>,
    focused: Option<u64>,
) -> Seq<SectionModel> {
    Seq::new(
        sections.len(),
        |s: int|
            SectionModel {
                marker: sections[s].marker,
                type_key: sections[s].type_key,
                display_name: sections[s].display_name,
                full_name: sections[s].full_name,
                rows: Seq::new(
                    sections[s].rows.len(),
                    |r: int|
                        if focused == Some(sections[s].rows[r].input_id) {
                            sections[s].rows[r]
                        } else {
                            RowModel {
                                input_id: sections[s].rows[r].input_id,
                                field_name: sections[s].rows[r].field_name,
                                text: refreshed_text(rs, sections[s].type_key, sections[s].rows[r]),
                            }
                        },
                ),
            },
    )
}

/// The focus invariant: while an input's identity equals the focused
/// input, no incremental refresh overwrites its text, even if the
/// underlying field's value changed.
pub proof fn lemma_refresh_preserves_focused(
    sections: Seq<SectionModel>,
    rs: Seq<RecordModel>,
    focused_id: u64,
    s: int,
    r: int,
)
    requires
        0 <= s < sections.len(),
        0 <= r < sections[s].rows.len(),
        sections[s].rows[r].input_id == focused_id,
    ensures
        spec_refresh(sections, rs, Some(focused_id))[s].rows[r] == sections[s].rows[r],
{
}

/// A refresh never changes the section list's shape or identity: the same
/// sections, in the same order, with the same markers, types, names, and
/// row identities.
pub proof fn lemma_refresh_preserves_structure(
    sections: Seq<SectionModel>,
    rs: Seq<RecordModel>,
    focused: Option<u64>,
)
    ensures
        spec_refresh(sections, rs, focused).len() == sections.len(),
        forall|s: int|
            0 <= s < sections.len() ==> {
                let rsec = #[trigger] spec_refresh(sections, rs, focused)[s];
                rsec.marker == sections[s].marker && rsec.type_key == sections[s].type_key
                    && rsec.display_name == sections[s].display_name && rsec.full_name
                    == sections[s].full_name && rsec.rows.len() == sections[s].rows.len()
            },
        forall|s: int, r: int|
            0 <= s < sections.len() && 0 <= r < sections[s].rows.len() ==> {
                let rrow = #[trigger] spec_refresh(sections, rs, focused)[s].rows[r];
                rrow.input_id == sections[s].rows[r].input_id && rrow.field_name
                    == sections[s].rows[r].field_name
            },
{
}

/// Rebuild one row's display text from the live record list.
fn refresh_row(
    store: &Store,
    Ghost(rs): Ghost<Seq<RecordModel>>,
    ei: usize,
    type_key: u64,
    row: &InputRow,
) -> (out: InputRow)
    requires
        ei < store@.entities.len(),
        rs == store@.entities[ei as int].records,
    ensures
        out@ == (RowModel {
            input_id: row@.input_id,
            field_name: row@.field_name,
            text: refreshed_text(rs, type_key, row@),
        }),
{
    broadcast use crate::model::lemma_views_of;

    match store.record_index_of(ei, type_key) {
        Some(j) => {
            proof {
                crate::store::lemma_find_record(rs, type_key);
            }
            let rec = &store.entity_at(ei).records[j];
            proof {
                assert(rec@ == rs[j as int]);
            }
            match rec.field_index_of(row.field_name.as_str()) {
                Some(k) => {
                    proof {
                        crate::record::lemma_find_field(rs[j as int].fields, row@.field_name);
                    }
                    let text = crate::value::render_value(&rec.fields[k].value);
                    InputRow {
                        input_id: row.input_id,
                        field_name: row.field_name.clone(),
                        text,
                    }
                },
                None => InputRow {
                    input_id: row.input_id,
                    field_name: row.field_name.clone(),
                    text: row.text.clone(),
                },
            }
        },
        None => InputRow {
            input_id: row.input_id,
            field_name: row.field_name.clone(),
            text: row.text.clone(),
        },
    }
}

/// Refresh every displayed value except the focused input's buffer.
fn refresh_sections(
    sections: &Vec<ComponentSection>,
    store: &Store,
    Ghost(rs): Ghost<Seq<RecordModel>>,
    ei: usize,
    focused: Option<u64>,
) -> (out: Vec<ComponentSection>)
    requires
        ei < store@.entities.len(),
        rs == store@.entities[ei as int].records,
    ensures
        views_of(out@) == spec_refresh(views_of(sections@), rs, focused),
{
    broadcast use crate::model::lemma_views_of;

    let ghost sm = views_of(sections@);
    let ghost target = spec_refresh(sm, rs, focused);
    let mut out: Vec<ComponentSection> = Vec::new();
    let n = sections.len();
    let mut s: usize = 0;
    while s < n
        invariant
            0 <= s <= n,
            n == sections.len(),
            sm == views_of(sections@),
            target == spec_refresh(sm, rs, focused),
            ei < store@.entities.len(),
            rs == store@.entities[ei as int].records,
            views_of(out@) =~= target.subrange(0, s as int),
        decreases n - s,
    {
        proof {
            broadcast use crate::model::lemma_views_of;

        }
        let sec = &sections[s];
        let ghost gtrows = target[s as int].rows;
        let mut rows: Vec<InputRow> = Vec::new();
        let rn = sec.rows.len();
        let mut r: usize = 0;
        while r < rn
            invariant
                0 <= r <= rn,
                rn == sec.rows.len(),
                sm == views_of(sections@),
                target == spec_refresh(sm, rs, focused),
                0 <= s < n,
                n == sections.len(),
                sec == &sections[s as int],
                gtrows == target[s as int].rows,
                ei < store@.entities.len(),
                rs == store@.entities[ei as int].records,
                views_of(rows@) =~= gtrows.subrange(0, r as int),
            decreases rn - r,
        {
            proof {
                broadcast use crate::model::lemma_views_of;

            }
            let row = &sec.rows[r];
            let keep = match focused {
                Some(f) => row.input_id == f,
                None => false,
            };
            let ghost old_rows = rows@;
            let newrow = if keep {
                InputRow {
                    input_id: row.input_id,
                    field_name: row.field_name.clone(),
                    text: row.text.clone(),
                }
            } else {
                refresh_row(store, Ghost(rs), ei, sec.type_key, row)
            };
            let ghost gnew = newrow@;
            rows.push(newrow);
            proof {
                crate::model::lemma_views_of_push(old_rows, rows@[rows@.len() - 1]);
                assert(sm[s as int] == sec@);
                assert(sm[s as int].rows[r as int] == row@);
                assert(gnew == gtrows[r as int]);
                assert(views_of(rows@) =~= gtrows.subrange(0, r + 1));
            }
            r = r + 1;
        }
        proof {
            assert(gtrows.subrange(0, rn as int) =~= gtrows);
        }
        let ghost old_out = out@;
        let newsec = ComponentSection {
            marker: sec.marker,
            type_key: sec.type_key,
            display_name: sec.display_name.clone(),
            full_name: sec.full_name.clone(),
            rows,
        };
        let ghost gsec = newsec@;
        out.push(newsec);
        proof {
            crate::model::lemma_views_of_push(old_out, out@[out@.len() - 1]);
            assert(sm[s as int] == sec@);
            assert(gsec == target[s as int]);
            assert(views_of(out@) =~= target.subrange(0, s + 1));
        }
        s = s + 1;
    }
    proof {
        assert(target.subrange(0, n as int) =~= target);
    }
    out
}

/// What one synchronization tick did to the panel.
#[derive(Clone, Copy, PartialEq, Eq, Structural, Debug)]
pub enum TickOutcome {
    Idle,
    Cleared,
    Rebuilt,
    Refreshed,
}

/// How many fresh identities this tick may need.
pub open spec fn tick_budget(m: StoreModel, selected: Option<u64>) -> nat {
    match selected {
        Some(e) => match find_entity(m.entities, e) {
            Some(i) => sections_budget(m.entities[i].records),
            None => 0,
        },
        None => 0,
    }
}

/// One synchronization tick of the inspection engine. With nothing
/// selected, a previously shown panel is cleared. With a selected entity,
/// the panel is fully rebuilt when the selection or its set of attached
/// record types changed since the last tick, and only refreshed in place
/// otherwise — and a refresh never overwrites the focused input.
pub fn inspector_tick(
    state: &mut InspectorState,
    panel: &mut InspectorPanel,
    selection: &EditorState,
    store: &Store,
    catalog: &Catalog,
) -> (outcome: TickOutcome)
    requires
        old(panel)@.next_marker + tick_budget(store@, selection.selected_entity) <= u64::MAX,
    ensures
        match selection.selected_entity {
            None => {
                &&& final(state)@.last_entity is None
                &&& (final(panel)@.sections.len() == 0 || (old(state)@.last_entity is None
                    && final(panel)@ == old(panel)@))
                &&& outcome == (if old(state)@.last_entity is Some {
                    TickOutcome::Cleared
                } else {
                    TickOutcome::Idle
                })
            },
            Some(e) => {
                let rs = match find_entity(store@.entities, e) {
                    Some(i) => store@.entities[i].records,
                    None => Seq::<RecordModel>::empty(),
                };
                let keys = crate::store::record_keys(rs);
                let rebuild = old(state)@.last_entity != Some(e) || keys.to_set() != old(
                    state
                )@.last_keys.to_set();
                &&& final(state)@.last_entity == Some(e)
                &&& final(state)@.last_keys == keys
                &&& if rebuild {
                    let built = spec_build_sections(rs, catalog@, old(panel)@.next_marker as nat);
                    &&& outcome == TickOutcome::Rebuilt
                    &&& final(panel)@.sections == built.0
                    &&& final(panel)@.next_marker == built.1
                } else {
                    &&& outcome == TickOutcome::Refreshed
                    &&& final(panel)@.sections == spec_refresh(
                        old(panel)@.sections,
                        rs,
                        selection.focused_input,
                    )
                    &&& final(panel)@.next_marker == old(panel)@.next_marker
                }
            },
        },
{
    broadcast use crate::model::lemma_views_of;

    match selection.selected_entity {
        None => {
            if state.last_entity.is_some() {
                panel.sections = Vec::new();
                state.last_entity = None;
                state.last_keys = Vec::new();
                proof {
                    assert(panel@.sections =~= Seq::<SectionModel>::empty());
                }
                TickOutcome::Cleared
            } else {
                state.last_entity = None;
                state.last_keys = Vec::new();
                TickOutcome::Idle
            }
        },
        Some(e) => {
            proof {
                crate::store::lemma_find_entity(store@.entities, e);
            }
            let keys: Vec<u64> = match store.index_of(e) {
                Some(i) => store.type_keys_at(i),
                None => Vec::new(),
            };
            proof {
                match find_entity(store@.entities, e) {
                    Some(i) => {},
                    None => {
                        assert(keys@ =~= crate::store::record_keys(Seq::<RecordModel>::empty()));
                    },
                }
            }
            let same_entity = match state.last_entity {
                Some(le) => le == e,
                None => false,
            };
            let rebuild = !same_entity || !keys_equal_as_sets(&state.last_keys, &keys);
            if rebuild {
                match store.index_of(e) {
                    Some(i) => {
                        let (secs, cnext) = build_sections(
                            store.entity_at(i),
                            catalog,
                            panel.next_marker,
                        );
                        panel.sections = secs;
                        panel.next_marker = cnext;
                    },
                    None => {
                        panel.sections = Vec::new();
                        proof {
                            assert(panel@.sections =~= Seq::<SectionModel>::empty());
                            assert(spec_build_sections(
                                Seq::<RecordModel>::empty(),
                                catalog@,
                                panel@.next_marker as nat,
                            ).0 =~= Seq::<SectionModel>::empty());
                        }
                    },
                }
                state.last_entity = Some(e);
                state.last_keys = keys;
                TickOutcome::Rebuilt
            } else {
                match store.index_of(e) {
                    Some(i) => {
                        let refreshed = refresh_sections(
                            &panel.sections,
                            store,
                            Ghost(store@.entities[i as int].records),
                            i,
                            selection.focused_input,
                        );
                        panel.sections = refreshed;
                    },
                    None => {
                        proof {
                            let sm = panel@.sections;
                            let e0 = Seq::<RecordModel>::empty();
                            let f = selection.focused_input;
                            assert forall|s: int|
                                0 <= s < sm.len() implies #[trigger] spec_refresh(sm, e0, f)[s]
                                == sm[s] by {
                                let sec = spec_refresh(sm, e0, f)[s];
                                assert(sec.rows =~= sm[s].rows) by {
                                    assert forall|r: int|
                                        0 <= r < sm[s].rows.len() implies #[trigger] sec.rows[r]
                                        == sm[s].rows[r] by {
                                        assert(crate::store::find_record(e0, sm[s].type_key)
                                            is None);
                                        assert(refreshed_text(e0, sm[s].type_key, sm[s].rows[r])
                                            == sm[s].rows[r].text);
                                    }
                                }
                            }
                            assert(spec_refresh(sm, e0, f) =~= sm);
                        }
                    },
                }
                state.last_entity = Some(e);
                state.last_keys = keys;
                TickOutcome::Refreshed
            }
        },
    }
}

/// One keystroke against a text buffer.
#[derive(Clone, Copy, Debug)]
pub enum EditOp {
    Insert(char),
    Backspace,
}

/// What a keystroke does to a buffer: append the character, or drop the
/// last one (an empty buffer stays empty).
pub open spec fn apply_edit(op: EditOp, t: Seq<char>) -> Seq<char> {
    match op {
        EditOp::Insert(c) => t.push(c),
        EditOp::Backspace => if t.len() > 0 {
            t.drop_last()
        } else {
            t
        },
    }
}

/// The panel after one keystroke against the focused input: only rows
/// whose identity is the focused input change, and only their text.
pub open spec fn spec_edit_focused(
    sections: Seq<SectionModel>,
    focused: u64,
    op: EditOp,
) -> Seq<SectionModel> {
    Seq::new(
        sections.len(),
        |s: int|
            SectionModel {
                marker: sections[s].marker,
                type_key: sections[s].type_key,
                display_name: sections[s].display_name,
                full_name: sections[s].full_name,
                rows: Seq::new(
                    sections[s].rows.len(),
                    |r: int|
                        if sections[s].rows[r].input_id == focused {
                            RowModel {
                                input_id: sections[s].rows[r].input_id,
                                field_name: sections[s].rows[r].field_name,
                                text: apply_edit(op, sections[s].rows[r].text),
                            }
                        } else {
                            sections[s].rows[r]
                        },
                ),
            },
    )
}

/// Apply one keystroke to the focused input's buffer.
pub fn edit_focused(panel: &mut InspectorPanel, focused: u64, op: EditOp)
    ensures
        final(panel)@.sections == spec_edit_focused(old(panel)@.sections, focused, op),
        final(panel)@.next_marker == old(panel)@.next_marker,
{
    broadcast use crate::model::lemma_views_of;

    let ghost sm = panel@.sections;
    let ghost target = spec_edit_focused(sm, focused, op);
    let mut out: Vec<ComponentSection> = Vec::new();
    let n = panel.sections.len();
    let mut s: usize = 0;
    while s < n
        invariant
            0 <= s <= n,
            n == panel.sections.len(),
            sm == panel@.sections,
            target == spec_edit_focused(sm, focused, op),
            views_of(out@) =~= target.subrange(0, s as int),
        decreases n - s,
    {
        proof {
            broadcast use crate::model::lemma_views_of;

        }
        let sec = &panel.sections[s];
        let ghost gtrows = target[s as int].rows;
        let mut rows: Vec<InputRow> = Vec::new();
        let rn = sec.rows.len();
        let mut r: usize = 0;
        while r < rn
            invariant
                0 <= r <= rn,
                rn == sec.rows.len(),
                sm == panel@.sections,
                target == spec_edit_focused(sm, focused, op),
                0 <= s < n,
                n == panel.sections.len(),
                sec == &panel.sections[s as int],
                gtrows == target[s as int].rows,
                views_of(rows@) =~= gtrows.subrange(0, r as int),
            decreases rn - r,
        {
            proof {
                broadcast use crate::model::lemma_views_of;

            }
            let row = &sec.rows[r];
            let ghost old_rows = rows@;
            let newrow = if row.input_id == focused {
                let text = match op {
                    EditOp::Insert(c) => crate::text::string_push_char(row.text.as_str(), c),
                    EditOp::Backspace => crate::text::string_drop_last(row.text.as_str()),
                };
                InputRow { input_id: row.input_id, field_name: row.field_name.clone(), text }
            } else {
                InputRow {
                    input_id: row.input_id,
                    field_name: row.field_name.clone(),
                    text: row.text.clone(),
                }
            };
            let ghost gnew = newrow@;
            rows.push(newrow);
            proof {
                crate::model::lemma_views_of_push(old_rows, rows@[rows@.len() - 1]);
                assert(sm[s as int] == sec@);
                assert(sm[s as int].rows[r as int] == row@);
                assert(gnew == gtrows[r as int]);
                assert(views_of(rows@) =~= gtrows.subrange(0, r + 1));
            }
            r = r + 1;
        }
        proof {
            assert(gtrows.subrange(0, rn as int) =~= gtrows);
        }
        let ghost old_out = out@;
        let newsec = ComponentSection {
            marker: sec.marker,
            type_key: sec.type_key,
            display_name: sec.display_name.clone(),
            full_name: sec.full_name.clone(),
            rows,
        };
        let ghost gsec = newsec@;
        out.push(newsec);
        proof {
            crate::model::lemma_views_of_push(old_out, out@[out@.len() - 1]);
            assert(sm[s as int] == sec@);
            assert(gsec == target[s as int]);
            assert(views_of(out@) =~= target.subrange(0, s + 1));
        }
        s = s + 1;
    }
    proof {
        assert(target.subrange(0, n as int) =~= target);
    }
    panel.sections = out;
}

/// A section that contains a row with the focused identity.
pub open spec fn sec_focus_pick(sections: Seq<SectionModel>, f: u64) -> spec_fn(int) -> bool {
    |s: int|
        exists|r: int| 0 <= r < sections[s].rows.len() && (#[trigger] sections[s].rows[r]).input_id == f
}

/// The row with the focused identity.
pub open spec fn row_focus_pick(rows: Seq<RowModel>, f: u64) -> spec_fn(int) -> bool {
    |r: int| rows[r].input_id == f
}

/// The command a commit of the focused input enqueues: a `ChangeField` for
/// the first row (in the first section) whose identity is the focused
/// input, carrying the row's buffered text; nothing when no such row is
/// displayed.
pub open spec fn spec_commit_command(sections: Seq<SectionModel>, entity: u64, f: u64) -> Option<
    crate::commands::CommandModel,
> {
    match crate::catalog::first_picked(sections.len() as int, sec_focus_pick(sections, f), 0) {
        Some(s) => match crate::catalog::first_picked(
            sections[s].rows.len() as int,
            row_focus_pick(sections[s].rows, f),
            0,
        ) {
            Some(r) => Some(
                crate::commands::CommandModel::ChangeField {
                    entity,
                    type_key: sections[s].type_key,
                    field_name: sections[s].rows[r].field_name,
                    text_value: sections[s].rows[r].text,
                },
            ),
            None => None,
        },
        None => None,
    }
}

/// Commit the focused input (the Enter key): enqueue a `ChangeField`
/// command carrying the buffered text, not yet applied — application
/// happens only at the queue's synchronization point.
pub fn commit_focused(
    panel: &InspectorPanel,
    selection: &EditorState,
    queue: &mut CommandQueue,
) -> (enqueued: bool)
    ensures
        match (selection.selected_entity, selection.focused_input) {
            (Some(e), Some(f)) => match spec_commit_command(panel@.sections, e, f) {
                Some(c) => enqueued && final(queue)@ == old(queue)@.push(c),
                None => !enqueued && final(queue)@ == old(queue)@,
            },
            _ => !enqueued && final(queue)@ == old(queue)@,
        },
{
    broadcast use crate::model::lemma_views_of;

    let e = match selection.selected_entity {
        Some(e) => e,
        None => {
            return false;
        },
    };
    let f = match selection.focused_input {
        Some(f) => f,
        None => {
            return false;
        },
    };
    let ghost sm = panel@.sections;
    let ghost spick = sec_focus_pick(sm, f);
    let n = panel.sections.len();
    let mut s: usize = 0;
    while s < n
        invariant
            0 <= s <= n,
            n == panel.sections.len(),
            sm == panel@.sections,
            spick == sec_focus_pick(sm, f),
            selection.selected_entity == Some(e),
            selection.focused_input == Some(f),
            queue == old(queue),
            forall|j: int| 0 <= j < s ==> !#[trigger] spick(j),
        decreases n - s,
    {
        proof {
            broadcast use crate::model::lemma_views_of;

        }
        let sec = &panel.sections[s];
        let ghost rows = sm[s as int].rows;
        let ghost rpick = row_focus_pick(rows, f);
        let rn = sec.rows.len();
        let mut r: usize = 0;
        while r < rn
            invariant
                0 <= r <= rn,
                rn == sec.rows.len(),
                sm == panel@.sections,
                spick == sec_focus_pick(sm, f),
                0 <= s < n,
                n == panel.sections.len(),
                sec == &panel.sections[s as int],
                rows == sm[s as int].rows,
                rpick == row_focus_pick(rows, f),
                selection.selected_entity == Some(e),
                selection.focused_input == Some(f),
                queue == old(queue),
                forall|j: int| 0 <= j < s ==> !#[trigger] spick(j),
                forall|j: int| 0 <= j < r ==> !#[trigger] rpick(j),
            decreases rn - r,
        {
            proof {
                broadcast use crate::model::lemma_views_of;

            }
            let row = &sec.rows[r];
            if row.input_id == f {
                proof {
                    assert(rpick(r as int));
                    assert(spick(s as int));
                    crate::catalog::lemma_first_picked(sm.len() as int, spick, 0);
                    match crate::catalog::first_picked(sm.len() as int, spick, 0) {
                        Some(k) => {
                            if k < s as int {
                                assert(!spick(k));
                            }
                            if k > s as int {
                                assert(!spick(s as int));
                            }
                        },
                        None => {
                            assert(!spick(s as int));
                        },
                    }
                    crate::catalog::lemma_first_picked(rows.len() as int, rpick, 0);
                    match crate::catalog::first_picked(rows.len() as int, rpick, 0) {
                        Some(k) => {
                            if k < r as int {
                                assert(!rpick(k));
                            }
                            if k > r as int {
                                assert(!rpick(r as int));
                            }
                        },
                        None => {
                            assert(!rpick(r as int));
                        },
                    }
                }
                let cmd = Command::ChangeField {
                    entity: e,
                    type_key: sec.type_key,
                    field_name: row.field_name.clone(),
                    text_value: row.text.clone(),
                };
                proof {
                    assert(sm[s as int] == sec@);
                    assert(sm[s as int].rows[r as int] == row@);
                    assert(crate::catalog::first_picked(sm.len() as int, spick, 0) == Some(
                        s as int,
                    ));
                    assert(crate::catalog::first_picked(rows.len() as int, rpick, 0) == Some(
                        r as int,
                    ));
                    assert(spec_commit_command(sm, e, f) == Some(cmd@));
                    assert(spec_commit_command(panel@.sections, e, f) == Some(cmd@));
                }
                let ghost gcmd = cmd@;
                queue.enqueue(cmd);
                proof {
                    assert(queue@ == old(queue)@.push(gcmd));
                }
                return true;
            }
            proof {
                assert(rows[r as int] == row@);
            }
            r = r + 1;
        }
        proof {
            assert(!spick(s as int)) by {
                if spick(s as int) {
                    let j = choose|j: int|
                        0 <= j < rows.len() && (#[trigger] rows[j]).input_id == f;
                    assert(!rpick(j));
                }
            }
        }
        s = s + 1;
    }
    proof {
        crate::catalog::lemma_first_picked(sm.len() as int, spick, 0);
        match crate::catalog::first_picked(sm.len() as int, spick, 0) {
            Some(k) => {
                assert(spick(k));
                assert(!spick(k));
            },
            None => {},
        }
    }
    false
}

/// Whether the editor overlay is shown at all.
#[derive(Clone, Copy, Debug)]
pub struct EditorConfig {
    pub show_editor: bool,
}

impl EditorConfig {
    /// The overlay starts hidden.
    pub fn new() -> (c: EditorConfig)
        ensures
            !c.show_editor,
    {
        EditorConfig { show_editor: false }
    }

    /// Toggle the overlay (the show-editor key was pressed).
    pub fn toggle(&mut self)
        ensures
            final(self).show_editor == !old(self).show_editor,
    {
        self.show_editor = !self.show_editor;
    }
}

/// A field input was pressed: it takes the focus, and opening a field edit
/// closes the add-component search.
pub fn focus_field_input(selection: &mut EditorState, ui: &mut InspectorUiState, input_id: u64)
    ensures
        final(selection).focused_input == Some(input_id),
        final(selection).selected_entity == old(selection).selected_entity,
        !final(ui).is_adding_component,
        final(ui).component_filter@ == old(ui).component_filter@,
{
    selection.focused_input = Some(input_id);
    ui.is_adding_component = false;
}

/// Whether any displayed row carries the given input identity.
fn panel_has_input(panel: &InspectorPanel, f: u64) -> (r: bool)
    ensures
        r == (crate::catalog::first_picked(
            panel@.sections.len() as int,
            sec_focus_pick(panel@.sections, f),
            0,
        ) is Some),
{
    broadcast use crate::model::lemma_views_of;

    let ghost sm = panel@.sections;
    let ghost spick = sec_focus_pick(sm, f);
    let n = panel.sections.len();
    let mut s: usize = 0;
    while s < n
        invariant
            0 <= s <= n,
            n == panel.sections.len(),
            sm == panel@.sections,
            spick == sec_focus_pick(sm, f),
            forall|j: int| 0 <= j < s ==> !#[trigger] spick(j),
        decreases n - s,
    {
        proof {
            broadcast use crate::model::lemma_views_of;

        }
        let sec = &panel.sections[s];
        let ghost rows = sm[s as int].rows;
        let rn = sec.rows.len();
        let mut r: usize = 0;
        while r < rn
            invariant
                0 <= r <= rn,
                rn == sec.rows.len(),
                sm == panel@.sections,
                spick == sec_focus_pick(sm, f),
                0 <= s < n,
                n == panel.sections.len(),
                sec == &panel.sections[s as int],
                rows == sm[s as int].rows,
                forall|j: int| 0 <= j < s ==> !#[trigger] spick(j),
                forall|j: int| 0 <= j < r ==> (#[trigger] rows[j]).input_id != f,
            decreases rn - r,
        {
            proof {
                broadcast use crate::model::lemma_views_of;

            }
            if sec.rows[r].input_id == f {
                proof {
                    assert(rows[r as int].input_id == f);
                    assert(spick(s as int));
                    crate::catalog::lemma_first_picked(sm.len() as int, spick, 0);
                    match crate::catalog::first_picked(sm.len() as int, spick, 0) {
                        Some(k) => {},
                        None => {
                            assert(!spick(s as int));
                        },
                    }
                }
                return true;
            }
            proof {
                assert(rows[r as int] == sec.rows@[r as int]@);
            }
            r = r + 1;
        }
        proof {
            assert(!spick(s as int)) by {
                if spick(s as int) {
                    let j = choose|j: int|
                        0 <= j < rows.len() && (#[trigger] rows[j]).input_id == f;
                    assert(rows[j].input_id != f);
                }
            }
        }
        s = s + 1;
    }
    proof {
        crate::catalog::lemma_first_picked(sm.len() as int, spick, 0);
        match crate::catalog::first_picked(sm.len() as int, spick, 0) {
            Some(k) => {
                assert(spick(k));
                assert(!spick(k));
            },
            None => {},
        }
    }
    false
}

/// Drop a focus whose input no longer exists (its row was rebuilt away or
/// its entity despawned): a live focus and the selection are untouched.
pub fn clear_stale_focus(selection: &mut EditorState, panel: &InspectorPanel)
    ensures
        final(selection).selected_entity == old(selection).selected_entity,
        match old(selection).focused_input {
            Some(f) => if crate::catalog::first_picked(
                panel@.sections.len() as int,
                sec_focus_pick(panel@.sections, f),
                0,
            ) is Some {
                final(selection).focused_input == Some(f)
            } else {
                final(selection).focused_input is None
            },
            None => final(selection).focused_input is None,
        },
{
    match selection.focused_input {
        Some(f) => {
            if !panel_has_input(panel, f) {
                selection.focused_input = None;
            }
        },
        None => {},
    }
}

} // verus!
