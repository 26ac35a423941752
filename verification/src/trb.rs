//! The document-to-layout mapper: builds, from a decoded document of typed
//! values and entities, the layout object tree of the engine's binary
//! container, and wraps its dumped body in the fixed file envelope.
//!
//! The document's 32-bit floats are carried as their IEEE-754 bit patterns
//! (`u32`), which is exactly what the format stores: floats are emitted by
//! reinterpreting them as big-endian 32-bit words. The caller that decodes
//! the textual input converts floats to bits, and derives each entity's
//! 4 by 4 rotation matrix from its orientation quaternion, before handing
//! the document to this module.

use vstd::prelude::*;
use vstd::string::StringSliceAdditionalSpecFns;
use vstd::utf8::{encode_utf8, is_ascii_chars, is_ascii_chars_encode_utf8};
use vstd::arithmetic::div_mod::lemma_mod_multiples_basic;
use crate::allocator::{
    Object, ObjView, with_indices, views_of, view_of, be_word, sz, sz_fields, align_v, wf,
    spec_dump, alloc_full, lemma_wf_fields_pointwise,
};
use crate::allocator::deferred;
use crate::laws::{
    fits, fits_fields, aligned_any, aligned_any_fields, lemma_aligned_any_fits,
    lemma_mod_add_zero, lemma_dump_len, lemma_walk, bump,
};

verus! {

/// A document value: the typed tree decoded from the textual input. Floats
/// are carried as IEEE-754 bit patterns.
pub enum Value {
    Bool(bool),
    Integer(i32),
    Floating(u32),
    String(String),
    List(Vec<Value>),
    EntityList(Vec<Entity>),
}

/// A game entity: its type name, its position (4 floats as bit patterns),
/// the row-major 4 by 4 rotation matrix already derived from its
/// orientation quaternion (16 floats as bit patterns), and its ordered
/// extra-info entries.
pub struct Entity {
    pub typename: String,
    pub position: [u32; 4],
    pub matrix: [u32; 16],
    pub extra_info: Vec<ExtraInfoEntry>,
}

/// One extra-info entry: a key and a typed value.
pub struct ExtraInfoEntry {
    pub key: String,
    pub value: Value,
}

/// The mathematical shape of a [`Value`].
pub enum ValueV {
    Bool(bool),
    Integer(i32),
    Floating(u32),
    String(Seq<char>),
    List(Seq<ValueV>),
    EntityList(Seq<EntityV>),
}

/// The mathematical shape of an [`Entity`].
pub struct EntityV {
    pub typename: Seq<char>,
    pub position: Seq<u32>,
    pub matrix: Seq<u32>,
    pub extra_info: Seq<ExtraInfoEntryV>,
}

/// The mathematical shape of an [`ExtraInfoEntry`].
pub struct ExtraInfoEntryV {
    pub key: Seq<char>,
    pub value: ValueV,
}

/// The abstraction of one document value.
pub open spec fn value_view(v: Value) -> ValueV
    decreases v, 0nat,
{
    match v {
        Value::Bool(b) => ValueV::Bool(b),
        Value::Integer(i) => ValueV::Integer(i),
        Value::Floating(w) => ValueV::Floating(w),
        Value::String(s) => ValueV::String(s@),
        Value::List(l) => ValueV::List(values_view(l@, 0)),
        Value::EntityList(l) => ValueV::EntityList(entities_view(l@, 0)),
    }
}

/// The abstractions of the values from index `i` on.
pub open spec fn values_view(l: Seq<Value>, i: int) -> Seq<ValueV>
    decreases l, l.len() - i,
{
    if i < 0 || i >= l.len() {
        Seq::empty()
    } else {
        seq![value_view(l[i])] + values_view(l, i + 1)
    }
}

/// The abstraction of one entity.
pub open spec fn entity_view(e: Entity) -> EntityV
    decreases e, 0nat,
{
    EntityV {
        typename: e.typename@,
        position: e.position@,
        matrix: e.matrix@,
        extra_info: entries_view(e.extra_info@, 0),
    }
}

/// The abstractions of the entities from index `i` on.
pub open spec fn entities_view(l: Seq<Entity>, i: int) -> Seq<EntityV>
    decreases l, l.len() - i,
{
    if i < 0 || i >= l.len() {
        Seq::empty()
    } else {
        seq![entity_view(l[i])] + entities_view(l, i + 1)
    }
}

/// The abstraction of one extra-info entry.
pub open spec fn entry_view(en: ExtraInfoEntry) -> ExtraInfoEntryV
    decreases en, 0nat,
{
    ExtraInfoEntryV { key: en.key@, value: value_view(en.value) }
}

/// The abstractions of the entries from index `i` on.
pub open spec fn entries_view(l: Seq<ExtraInfoEntry>, i: int) -> Seq<ExtraInfoEntryV>
    decreases l, l.len() - i,
{
    if i < 0 || i >= l.len() {
        Seq::empty()
    } else {
        seq![entry_view(l[i])] + entries_view(l, i + 1)
    }
}

impl View for Value {
    type V = ValueV;

    open spec fn view(&self) -> ValueV {
        value_view(*self)
    }
}

impl View for Entity {
    type V = EntityV;

    open spec fn view(&self) -> EntityV {
        entity_view(*self)
    }
}

impl View for ExtraInfoEntry {
    type V = ExtraInfoEntryV;

    open spec fn view(&self) -> ExtraInfoEntryV {
        entry_view(*self)
    }
}

/// A group with the given alignment whose fields are the items in order,
/// under sequential logical indices.
pub open spec fn group(a: nat, items: Seq<ObjView>) -> ObjView {
    ObjView::Struct(a, with_indices(items))
}

/// A pointer to a deferred object.
pub open spec fn ptr_to(v: ObjView) -> ObjView {
    ObjView::Reference(Box::new(v))
}

/// A 32-bit word, emitted big-endian at alignment 4.
pub open spec fn int_obj(x: u32) -> ObjView {
    ObjView::Bytes(4, be_word(x))
}

/// A string's UTF-8 bytes, optionally null-terminated, at alignment 1.
pub open spec fn str_obj(s: Seq<char>, null: bool) -> ObjView {
    ObjView::Bytes(
        1,
        if null {
            encode_utf8(s) + seq![0u8]
        } else {
            encode_utf8(s)
        },
    )
}

/// 32-bit words from index `i` on, each as a word object.
pub open spec fn word_objs(l: Seq<u32>, i: int) -> Seq<ObjView>
    decreases l.len() - i,
{
    if i < 0 || i >= l.len() {
        Seq::empty()
    } else {
        seq![int_obj(l[i])] + word_objs(l, i + 1)
    }
}

/// A value's most direct representation: what stands at the value's own
/// position, after whatever pointers or metadata refer to it. Scalars are
/// one big-endian word -- a Bool is `0x0100_0000` or `0`, the truth flag in
/// the word's high byte -- a string is its null-terminated bytes, a plain
/// list is a group of element representations at alignment 32, and an
/// entity list is a group of entity records at alignment 4.
pub open spec fn value_obj(v: ValueV) -> ObjView
    decreases v, 0nat,
{
    match v {
        ValueV::Bool(b) => int_obj(
            if b {
                0x0100_0000
            } else {
                0
            },
        ),
        ValueV::Integer(i) => int_obj(i as u32),
        ValueV::Floating(w) => int_obj(w),
        ValueV::String(s) => str_obj(s, true),
        ValueV::List(l) => group(0x20, value_objs(l, 0)),
        ValueV::EntityList(l) => group(4, entity_objs(l, 0)),
    }
}

/// The representations of the values from index `i` on.
pub open spec fn value_objs(l: Seq<ValueV>, i: int) -> Seq<ObjView>
    decreases l, l.len() - i,
{
    if i < 0 || i >= l.len() {
        Seq::empty()
    } else {
        seq![value_obj(l[i])] + value_objs(l, i + 1)
    }
}

/// The 5-word entity record, alignment 4, in logical field order: pointer
/// to the null-terminated type name, inline extra-info count, pointer to
/// the extra-info group (alignment 4), pointer to the 16-word rotation
/// matrix group (alignment 16), pointer to the 4-word position group
/// (alignment 16).
pub open spec fn entity_obj(e: EntityV) -> ObjView
    decreases e, 3nat,
{
    group(
        4,
        seq![
            ptr_to(str_obj(e.typename, true)),
            int_obj(e.extra_info.len() as u32),
            ptr_to(group(4, entry_objs(e.extra_info, 0))),
            ptr_to(group(0x10, word_objs(e.matrix, 0))),
            ptr_to(group(0x10, word_objs(e.position, 0))),
        ],
    )
}

/// The entity records from index `i` on.
pub open spec fn entity_objs(l: Seq<EntityV>, i: int) -> Seq<ObjView>
    decreases l, l.len() - i,
{
    if i < 0 || i >= l.len() {
        Seq::empty()
    } else {
        seq![entity_obj(l[i])] + entity_objs(l, i + 1)
    }
}

/// The type id a value carries in an extra-info entry.
pub open spec fn info_typeid(v: ValueV) -> u32 {
    match v {
        ValueV::Integer(_) => 0,
        ValueV::Floating(_) => 4,
        ValueV::Bool(_) => 5,
        ValueV::String(_) => 6,
        ValueV::List(_) => 7,
        ValueV::EntityList(_) => 8,
    }
}

/// The inline list length an extra-info entry carries: the element count
/// for a plain list, 0 for every other type.
pub open spec fn info_list_len(v: ValueV) -> nat {
    match v {
        ValueV::List(l) => l.len(),
        _ => 0,
    }
}

/// The final slot of an extra-info record: scalars inline, a string behind
/// a pointer, a list behind a pointer to a group of recursively encoded
/// entries at alignment 32, and an entity list behind a pointer to a
/// 2-field group of a pointer to the encoded list and its inline count.
pub open spec fn info_obj(v: ValueV) -> ObjView
    decreases v, 1nat,
{
    match v {
        ValueV::List(l) => ptr_to(group(0x20, info_objs(l, 0))),
        ValueV::EntityList(l) => ptr_to(
            group(4, seq![ptr_to(value_obj(v)), int_obj(l.len() as u32)]),
        ),
        ValueV::String(_) => ptr_to(value_obj(v)),
        _ => value_obj(v),
    }
}

/// The final slots of the values from index `i` on.
pub open spec fn info_objs(l: Seq<ValueV>, i: int) -> Seq<ObjView>
    decreases l, l.len() - i,
{
    if i < 0 || i >= l.len() {
        Seq::empty()
    } else {
        seq![info_obj(l[i])] + info_objs(l, i + 1)
    }
}

/// The 5-word extra-info record, alignment 4, in order: pointer to the
/// null-terminated key, inline key byte length (terminator excluded),
/// inline type id, inline list length, and the value's final slot.
pub open spec fn entry_obj(en: ExtraInfoEntryV) -> ObjView
    decreases en, 2nat,
{
    group(
        4,
        seq![
            ptr_to(str_obj(en.key, true)),
            int_obj(encode_utf8(en.key).len() as u32),
            int_obj(info_typeid(en.value)),
            int_obj(info_list_len(en.value) as u32),
            info_obj(en.value),
        ],
    )
}

/// The extra-info records from index `i` on.
pub open spec fn entry_objs(l: Seq<ExtraInfoEntryV>, i: int) -> Seq<ObjView>
    decreases l, l.len() - i,
{
    if i < 0 || i >= l.len() {
        Seq::empty()
    } else {
        seq![entry_obj(l[i])] + entry_objs(l, i + 1)
    }
}

/// The body of the file for an entity-list document root: the encoded
/// entity list followed by the 2-word trailer, a zero word and the entity
/// count, at alignment 4.
pub open spec fn body_obj(d: ValueV) -> ObjView
    recommends
        d is EntityList,
{
    group(4, seq![value_obj(d), int_obj(0), int_obj(d->EntityList_0.len() as u32)])
}

/// The dumped body bytes of an entity-list document root.
pub open spec fn spec_body(d: ValueV) -> Seq<u8> {
    spec_dump(body_obj(d))
}

/// The file envelope around the dumped body: the magic markers, the fixed
/// header words, the body length fields and the raw body bytes, all in one
/// group of alignment 1.
pub open spec fn envelope_obj(body: Seq<u8>) -> ObjView {
    group(
        1,
        seq![
            str_obj("TSFB"@, false),
            int_obj(0x6b6f0),
            str_obj("FBRTXRDH"@, false),
            int_obj(0x18),
            int_obj(0x0001_0001),
            int_obj(0x1),
            int_obj(0x0),
            int_obj(body.len() as u32),
            int_obj(0x0),
            int_obj(0x0),
            str_obj("TCES"@, false),
            int_obj(body.len() as u32),
            ObjView::Bytes(1, body),
        ],
    )
}

/// The full file bytes for an entity-list document root.
pub open spec fn trb_bytes(d: ValueV) -> Seq<u8> {
    spec_dump(envelope_obj(spec_body(d)))
}

/// Every count and length in the value that the encoding stores as a
/// 32-bit word actually fits in one: list lengths, entity counts,
/// extra-info counts, and key byte lengths.
pub open spec fn counts_fit(v: ValueV) -> bool
    decreases v, 1nat,
{
    match v {
        ValueV::List(l) => l.len() <= u32::MAX && counts_fit_values(l, 0),
        ValueV::EntityList(l) => l.len() <= u32::MAX && counts_fit_entities(l, 0),
        _ => true,
    }
}

/// `counts_fit` for the values from index `i` on.
pub open spec fn counts_fit_values(l: Seq<ValueV>, i: int) -> bool
    decreases l, l.len() - i,
{
    if i < 0 || i >= l.len() {
        true
    } else {
        counts_fit(l[i]) && counts_fit_values(l, i + 1)
    }
}

/// Every count within one entity fits in a 32-bit word.
pub open spec fn counts_fit_entity(e: EntityV) -> bool
    decreases e, 3nat,
{
    e.extra_info.len() <= u32::MAX && counts_fit_entries(e.extra_info, 0)
}

/// `counts_fit_entity` for the entities from index `i` on.
pub open spec fn counts_fit_entities(l: Seq<EntityV>, i: int) -> bool
    decreases l, l.len() - i,
{
    if i < 0 || i >= l.len() {
        true
    } else {
        counts_fit_entity(l[i]) && counts_fit_entities(l, i + 1)
    }
}

/// The key's byte length and every count in the value fit in 32-bit words.
pub open spec fn counts_fit_entry(en: ExtraInfoEntryV) -> bool
    decreases en, 2nat,
{
    encode_utf8(en.key).len() <= u32::MAX && counts_fit(en.value)
}

/// `counts_fit_entry` for the entries from index `i` on.
pub open spec fn counts_fit_entries(l: Seq<ExtraInfoEntryV>, i: int) -> bool
    decreases l, l.len() - i,
{
    if i < 0 || i >= l.len() {
        true
    } else {
        counts_fit_entry(l[i]) && counts_fit_entries(l, i + 1)
    }
}


/// `values_view` is the pointwise abstraction of the value list.
pub proof fn lemma_values_view(l: Seq<Value>, i: int)
    requires
        0 <= i <= l.len(),
    ensures
        values_view(l, i).len() == l.len() - i,
        forall|k: int|
            0 <= k < l.len() - i ==> #[trigger] values_view(l, i)[k] == value_view(l[i + k]),
    decreases l.len() - i,
{
    if i < l.len() {
        lemma_values_view(l, i + 1);
    }
}

/// `entities_view` is the pointwise abstraction of the entity list.
pub proof fn lemma_entities_view(l: Seq<Entity>, i: int)
    requires
        0 <= i <= l.len(),
    ensures
        entities_view(l, i).len() == l.len() - i,
        forall|k: int|
            0 <= k < l.len() - i ==> #[trigger] entities_view(l, i)[k] == entity_view(l[i + k]),
    decreases l.len() - i,
{
    if i < l.len() {
        lemma_entities_view(l, i + 1);
    }
}

/// `entries_view` is the pointwise abstraction of the entry list.
pub proof fn lemma_entries_view(l: Seq<ExtraInfoEntry>, i: int)
    requires
        0 <= i <= l.len(),
    ensures
        entries_view(l, i).len() == l.len() - i,
        forall|k: int|
            0 <= k < l.len() - i ==> #[trigger] entries_view(l, i)[k] == entry_view(l[i + k]),
    decreases l.len() - i,
{
    if i < l.len() {
        lemma_entries_view(l, i + 1);
    }
}

/// `value_objs` maps `value_obj` pointwise.
pub proof fn lemma_value_objs(l: Seq<ValueV>, i: int)
    requires
        0 <= i <= l.len(),
    ensures
        value_objs(l, i).len() == l.len() - i,
        forall|k: int|
            0 <= k < l.len() - i ==> #[trigger] value_objs(l, i)[k] == value_obj(l[i + k]),
    decreases l.len() - i,
{
    if i < l.len() {
        lemma_value_objs(l, i + 1);
    }
}

/// `entity_objs` maps `entity_obj` pointwise.
pub proof fn lemma_entity_objs(l: Seq<EntityV>, i: int)
    requires
        0 <= i <= l.len(),
    ensures
        entity_objs(l, i).len() == l.len() - i,
        forall|k: int|
            0 <= k < l.len() - i ==> #[trigger] entity_objs(l, i)[k] == entity_obj(l[i + k]),
    decreases l.len() - i,
{
    if i < l.len() {
        lemma_entity_objs(l, i + 1);
    }
}

/// `entry_objs` maps `entry_obj` pointwise.
pub proof fn lemma_entry_objs(l: Seq<ExtraInfoEntryV>, i: int)
    requires
        0 <= i <= l.len(),
    ensures
        entry_objs(l, i).len() == l.len() - i,
        forall|k: int|
            0 <= k < l.len() - i ==> #[trigger] entry_objs(l, i)[k] == entry_obj(l[i + k]),
    decreases l.len() - i,
{
    if i < l.len() {
        lemma_entry_objs(l, i + 1);
    }
}

/// `info_objs` maps `info_obj` pointwise.
pub proof fn lemma_info_objs(l: Seq<ValueV>, i: int)
    requires
        0 <= i <= l.len(),
    ensures
        info_objs(l, i).len() == l.len() - i,
        forall|k: int|
            0 <= k < l.len() - i ==> #[trigger] info_objs(l, i)[k] == info_obj(l[i + k]),
    decreases l.len() - i,
{
    if i < l.len() {
        lemma_info_objs(l, i + 1);
    }
}

/// `word_objs` maps `int_obj` pointwise.
pub proof fn lemma_word_objs(l: Seq<u32>, i: int)
    requires
        0 <= i <= l.len(),
    ensures
        word_objs(l, i).len() == l.len() - i,
        forall|k: int| 0 <= k < l.len() - i ==> #[trigger] word_objs(l, i)[k] == int_obj(l[i + k]),
    decreases l.len() - i,
{
    if i < l.len() {
        lemma_word_objs(l, i + 1);
    }
}

/// Each value in a list whose counts fit has fitting counts.
pub proof fn lemma_counts_fit_values(l: Seq<ValueV>, i: int)
    requires
        0 <= i <= l.len(),
        counts_fit_values(l, i),
    ensures
        forall|k: int| i <= k < l.len() ==> #[trigger] counts_fit(l[k]),
    decreases l.len() - i,
{
    if i < l.len() {
        lemma_counts_fit_values(l, i + 1);
    }
}

/// Each entity in a list whose counts fit has fitting counts.
pub proof fn lemma_counts_fit_entities(l: Seq<EntityV>, i: int)
    requires
        0 <= i <= l.len(),
        counts_fit_entities(l, i),
    ensures
        forall|k: int| i <= k < l.len() ==> #[trigger] counts_fit_entity(l[k]),
    decreases l.len() - i,
{
    if i < l.len() {
        lemma_counts_fit_entities(l, i + 1);
    }
}

/// Each entry in a list whose counts fit has fitting counts.
pub proof fn lemma_counts_fit_entries(l: Seq<ExtraInfoEntryV>, i: int)
    requires
        0 <= i <= l.len(),
        counts_fit_entries(l, i),
    ensures
        forall|k: int| i <= k < l.len() ==> #[trigger] counts_fit_entry(l[k]),
    decreases l.len() - i,
{
    if i < l.len() {
        lemma_counts_fit_entries(l, i + 1);
    }
}

/// A pointer to a well-formed object is well-formed.
pub proof fn lemma_ptr_wf(v: ObjView)
    requires
        wf(v),
    ensures
        wf(ptr_to(v)),
{
    assert(*Box::new(v) == v);
}

/// A group over well-formed items is well-formed.
pub proof fn lemma_group_wf(a: nat, items: Seq<ObjView>)
    requires
        a >= 1,
        forall|k: int| 0 <= k < items.len() ==> wf(#[trigger] items[k]),
    ensures
        wf(group(a, items)),
{
    let l = with_indices(items);
    assert forall|k: int| 0 <= k < l.len() implies wf(#[trigger] l[k].1) by {
        assert(l[k].1 == items[k]);
    }
    lemma_wf_fields_pointwise(l, 0);
}

/// Every value representation is a well-formed layout object.
pub proof fn lemma_value_obj_wf(v: ValueV)
    ensures
        wf(value_obj(v)),
    decreases v, 0nat,
{
    match v {
        ValueV::List(l) => {
            lemma_value_objs_wf(l, 0);
            lemma_group_wf(0x20, value_objs(l, 0));
        },
        ValueV::EntityList(l) => {
            lemma_entity_objs_wf(l, 0);
            lemma_group_wf(4, entity_objs(l, 0));
        },
        _ => {},
    }
}

/// The representations of the values from index `i` on are well-formed.
pub proof fn lemma_value_objs_wf(l: Seq<ValueV>, i: int)
    requires
        0 <= i <= l.len(),
    ensures
        forall|k: int| 0 <= k < value_objs(l, i).len() ==> wf(#[trigger] value_objs(l, i)[k]),
    decreases l, l.len() - i,
{
    lemma_value_objs(l, i);
    assert forall|k: int| 0 <= k < value_objs(l, i).len() implies wf(
        #[trigger] value_objs(l, i)[k],
    ) by {
        lemma_value_obj_wf(l[i + k]);
    }
}

/// Every word object is well-formed.
pub proof fn lemma_word_objs_wf(l: Seq<u32>, i: int)
    requires
        0 <= i <= l.len(),
    ensures
        forall|k: int| 0 <= k < word_objs(l, i).len() ==> wf(#[trigger] word_objs(l, i)[k]),
{
    lemma_word_objs(l, i);
    assert forall|k: int| 0 <= k < word_objs(l, i).len() implies wf(
        #[trigger] word_objs(l, i)[k],
    ) by {
        assert(word_objs(l, i)[k] == int_obj(l[i + k]));
    }
}

/// Every entity record is a well-formed layout object.
pub proof fn lemma_entity_obj_wf(e: EntityV)
    ensures
        wf(entity_obj(e)),
    decreases e, 3nat,
{
    lemma_entry_objs_wf(e.extra_info, 0);
    lemma_group_wf(4, entry_objs(e.extra_info, 0));
    lemma_word_objs_wf(e.matrix, 0);
    lemma_group_wf(0x10, word_objs(e.matrix, 0));
    lemma_word_objs_wf(e.position, 0);
    lemma_group_wf(0x10, word_objs(e.position, 0));
    let items = seq![
        ptr_to(str_obj(e.typename, true)),
        int_obj(e.extra_info.len() as u32),
        ptr_to(group(4, entry_objs(e.extra_info, 0))),
        ptr_to(group(0x10, word_objs(e.matrix, 0))),
        ptr_to(group(0x10, word_objs(e.position, 0))),
    ];
    lemma_ptr_wf(str_obj(e.typename, true));
    lemma_ptr_wf(group(4, entry_objs(e.extra_info, 0)));
    lemma_ptr_wf(group(0x10, word_objs(e.matrix, 0)));
    lemma_ptr_wf(group(0x10, word_objs(e.position, 0)));
    assert forall|k: int| 0 <= k < items.len() implies wf(#[trigger] items[k]) by {
        if k == 0 {
            assert(wf(items[0]));
        } else if k == 1 {
            assert(wf(items[1]));
        } else if k == 2 {
            assert(wf(items[2]));
        } else if k == 3 {
            assert(wf(items[3]));
        } else {
            assert(wf(items[4]));
        }
    }
    lemma_group_wf(4, items);
}

/// The entity records from index `i` on are well-formed.
pub proof fn lemma_entity_objs_wf(l: Seq<EntityV>, i: int)
    requires
        0 <= i <= l.len(),
    ensures
        forall|k: int| 0 <= k < entity_objs(l, i).len() ==> wf(#[trigger] entity_objs(l, i)[k]),
    decreases l, l.len() - i,
{
    lemma_entity_objs(l, i);
    assert forall|k: int| 0 <= k < entity_objs(l, i).len() implies wf(
        #[trigger] entity_objs(l, i)[k],
    ) by {
        lemma_entity_obj_wf(l[i + k]);
    }
}

/// Every extra-info record is a well-formed layout object.
pub proof fn lemma_entry_obj_wf(en: ExtraInfoEntryV)
    ensures
        wf(entry_obj(en)),
    decreases en, 2nat,
{
    lemma_info_obj_wf(en.value);
    let items = seq![
        ptr_to(str_obj(en.key, true)),
        int_obj(encode_utf8(en.key).len() as u32),
        int_obj(info_typeid(en.value)),
        int_obj(info_list_len(en.value) as u32),
        info_obj(en.value),
    ];
    lemma_ptr_wf(str_obj(en.key, true));
    lemma_ptr_wf(info_obj(en.value));
    assert forall|k: int| 0 <= k < items.len() implies wf(#[trigger] items[k]) by {
        if k == 0 {
            assert(wf(items[0]));
        } else if k == 1 {
            assert(wf(items[1]));
        } else if k == 2 {
            assert(wf(items[2]));
        } else if k == 3 {
            assert(wf(items[3]));
        } else {
            assert(wf(items[4]));
        }
    }
    lemma_group_wf(4, items);
}

/// The extra-info records from index `i` on are well-formed.
pub proof fn lemma_entry_objs_wf(l: Seq<ExtraInfoEntryV>, i: int)
    requires
        0 <= i <= l.len(),
    ensures
        forall|k: int| 0 <= k < entry_objs(l, i).len() ==> wf(#[trigger] entry_objs(l, i)[k]),
    decreases l, l.len() - i,
{
    lemma_entry_objs(l, i);
    assert forall|k: int| 0 <= k < entry_objs(l, i).len() implies wf(
        #[trigger] entry_objs(l, i)[k],
    ) by {
        lemma_entry_obj_wf(l[i + k]);
    }
}

/// Every final slot is a well-formed layout object.
pub proof fn lemma_info_obj_wf(v: ValueV)
    ensures
        wf(info_obj(v)),
    decreases v, 1nat,
{
    match v {
        ValueV::List(l) => {
            lemma_info_objs_wf(l, 0);
            lemma_group_wf(0x20, info_objs(l, 0));
            lemma_ptr_wf(group(0x20, info_objs(l, 0)));
        },
        ValueV::EntityList(l) => {
            lemma_value_obj_wf(v);
            lemma_ptr_wf(value_obj(v));
            let items = seq![ptr_to(value_obj(v)), int_obj(l.len() as u32)];
            assert forall|k: int| 0 <= k < items.len() implies wf(#[trigger] items[k]) by {
                if k == 0 {
                    assert(wf(items[0]));
                } else {
                    assert(wf(items[1]));
                }
            }
            lemma_group_wf(4, items);
            lemma_ptr_wf(group(4, items));
        },
        _ => {
            lemma_value_obj_wf(v);
            lemma_ptr_wf(value_obj(v));
        },
    }
}

/// The final slots of the values from index `i` on are well-formed.
pub proof fn lemma_info_objs_wf(l: Seq<ValueV>, i: int)
    requires
        0 <= i <= l.len(),
    ensures
        forall|k: int| 0 <= k < info_objs(l, i).len() ==> wf(#[trigger] info_objs(l, i)[k]),
    decreases l, l.len() - i,
{
    lemma_info_objs(l, i);
    assert forall|k: int| 0 <= k < info_objs(l, i).len() implies wf(
        #[trigger] info_objs(l, i)[k],
    ) by {
        lemma_info_obj_wf(l[i + k]);
    }
}


impl Value {
    /// Construct a value's most direct representation: what stands at the
    /// value's own position, after whatever pointers or metadata refer to
    /// it.
    #[verifier::loop_isolation(false)]
    pub fn object(&self) -> (r: Object)
        requires
            counts_fit(self@),
        ensures
            r@ == value_obj(self@),
        decreases *self, 0nat,
    {
        match self {
            Value::Bool(b) => Object::integer(
                if *b {
                    0x0100_0000
                } else {
                    0
                },
            ),
            Value::Integer(i) => Object::integer(*i as u32),
            Value::Floating(w) => Object::integer(*w),
            Value::String(st) => Object::string(st.as_str(), true),
            Value::List(l) => {
                let ghost lv = values_view(l@, 0);
                proof {
                    lemma_values_view(l@, 0);
                    lemma_counts_fit_values(lv, 0);
                }
                let mut items: Vec<Object> = Vec::new();
                let mut i: usize = 0;
                while i < l.len()
                    invariant
                        i <= l@.len(),
                        items@.len() == i,
                        forall|k: int|
                            0 <= k < i ==> view_of(#[trigger] items@[k]) == value_obj(lv[k]),
                    decreases l@.len() - i,
                {
                    proof {
                        assert(counts_fit(lv[i as int]));
                        assert(lv[i as int] == value_view(l@[i as int]));
                        assert(decreases_to!(*self => (*self)->List_0));
                        assert((*self)->List_0 == *l);
                        assert(decreases_to!(*l => l@));
                        assert(decreases_to!(l@ => l@[i as int]));
                        assert(decreases_to!(*self => l@[i as int]));
                    }
                    let o = (&l[i]).object();
                    items.push(o);
                    i = i + 1;
                }
                let r = Object::list(0x20, items);
                proof {
                    lemma_value_objs(lv, 0);
                    assert(views_of(items@) =~= value_objs(lv, 0));
                }
                r
            },
            Value::EntityList(l) => {
                let ghost lv = entities_view(l@, 0);
                proof {
                    lemma_entities_view(l@, 0);
                    lemma_counts_fit_entities(lv, 0);
                }
                let mut items: Vec<Object> = Vec::new();
                let mut i: usize = 0;
                while i < l.len()
                    invariant
                        i <= l@.len(),
                        items@.len() == i,
                        forall|k: int|
                            0 <= k < i ==> view_of(#[trigger] items@[k]) == entity_obj(lv[k]),
                    decreases l@.len() - i,
                {
                    proof {
                        assert(counts_fit_entity(lv[i as int]));
                        assert(lv[i as int] == entity_view(l@[i as int]));
                        assert(decreases_to!(*self => (*self)->EntityList_0));
                        assert((*self)->EntityList_0 == *l);
                        assert(decreases_to!(*l => l@));
                        assert(decreases_to!(l@ => l@[i as int]));
                        assert(decreases_to!(*self => l@[i as int]));
                    }
                    let o = (&l[i]).object();
                    items.push(o);
                    i = i + 1;
                }
                let r = Object::list(4, items);
                proof {
                    lemma_entity_objs(lv, 0);
                    assert(views_of(items@) =~= entity_objs(lv, 0));
                }
                r
            },
        }
    }

    /// The type id this value carries in an extra-info entry.
    pub fn extra_info_typeid(&self) -> (r: u32)
        ensures
            r == info_typeid(self@),
    {
        match self {
            Value::Integer(_) => 0,
            Value::Floating(_) => 4,
            Value::Bool(_) => 5,
            Value::String(_) => 6,
            Value::List(_) => 7,
            Value::EntityList(_) => 8,
        }
    }

    /// The inline list length this value carries in an extra-info entry.
    pub fn extra_info_list_len(&self) -> (r: usize)
        ensures
            r == info_list_len(self@),
    {
        match self {
            Value::List(l) => {
                proof {
                    lemma_values_view(l@, 0);
                }
                l.len()
            },
            _ => 0,
        }
    }

    /// The final slot of this value's extra-info record: a 32-bit value or
    /// a pointer, after the size and type words.
    #[verifier::loop_isolation(false)]
    pub fn extra_info_object(&self) -> (r: Object)
        requires
            counts_fit(self@),
        ensures
            r@ == info_obj(self@),
        decreases *self, 1nat,
    {
        match self {
            Value::List(l) => {
                let ghost lv = values_view(l@, 0);
                proof {
                    lemma_values_view(l@, 0);
                    lemma_counts_fit_values(lv, 0);
                }
                let mut items: Vec<Object> = Vec::new();
                let mut i: usize = 0;
                while i < l.len()
                    invariant
                        i <= l@.len(),
                        items@.len() == i,
                        forall|k: int|
                            0 <= k < i ==> view_of(#[trigger] items@[k]) == info_obj(lv[k]),
                    decreases l@.len() - i,
                {
                    proof {
                        assert(counts_fit(lv[i as int]));
                        assert(lv[i as int] == value_view(l@[i as int]));
                        assert(decreases_to!(*self => (*self)->List_0));
                        assert((*self)->List_0 == *l);
                        assert(decreases_to!(*l => l@));
                        assert(decreases_to!(l@ => l@[i as int]));
                        assert(decreases_to!(*self => l@[i as int]));
                    }
                    let o = (&l[i]).extra_info_object();
                    items.push(o);
                    i = i + 1;
                }
                let r = Object::ptr(Object::list(0x20, items));
                proof {
                    lemma_info_objs(lv, 0);
                    assert(views_of(items@) =~= info_objs(lv, 0));
                }
                r
            },
            Value::EntityList(l) => {
                proof {
                    lemma_entities_view(l@, 0);
                }
                let encoded = Object::ptr(self.object());
                let count = Object::integer(l.len() as u32);
                let mut pair: Vec<Object> = Vec::new();
                pair.push(encoded);
                pair.push(count);
                let r = Object::ptr(Object::list(4, pair));
                proof {
                    assert(views_of(pair@) =~= seq![
                        ptr_to(value_obj(self@)),
                        int_obj(l@.len() as u32),
                    ]);
                }
                r
            },
            Value::String(_) => Object::ptr(self.object()),
            _ => self.object(),
        }
    }
}

impl Entity {
    /// The 5-word entity record: pointers to the type name, extra-info
    /// group, rotation matrix and position, and the inline extra-info
    /// count, in the record's logical field order.
    #[verifier::loop_isolation(false)]
    pub fn object(&self) -> (r: Object)
        requires
            counts_fit_entity(self@),
        ensures
            r@ == entity_obj(self@),
        decreases *self, 3nat,
    {
        let ghost ev = entries_view(self.extra_info@, 0);
        proof {
            lemma_entries_view(self.extra_info@, 0);
            lemma_counts_fit_entries(ev, 0);
        }
        let name_obj = Object::ptr(Object::string(self.typename.as_str(), true));
        let count_obj = Object::integer(self.extra_info.len() as u32);
        let mut entry_items: Vec<Object> = Vec::new();
        let mut i: usize = 0;
        while i < self.extra_info.len()
            invariant
                i <= self.extra_info@.len(),
                entry_items@.len() == i,
                forall|k: int|
                    0 <= k < i ==> view_of(#[trigger] entry_items@[k]) == entry_obj(ev[k]),
            decreases self.extra_info@.len() - i,
        {
            proof {
                assert(counts_fit_entry(ev[i as int]));
                assert(ev[i as int] == entry_view(self.extra_info@[i as int]));
                assert(decreases_to!(*self => self.extra_info));
                assert(decreases_to!(self.extra_info => self.extra_info@));
                assert(decreases_to!(self.extra_info@ => self.extra_info@[i as int]));
                assert(decreases_to!(*self => self.extra_info@[i as int]));
            }
            let o = (&self.extra_info[i]).object();
            entry_items.push(o);
            i = i + 1;
        }
        proof {
            lemma_entry_objs(ev, 0);
            assert(views_of(entry_items@) =~= entry_objs(ev, 0));
        }
        let entries_obj = Object::ptr(Object::list(4, entry_items));
        let mut matrix_items: Vec<Object> = Vec::new();
        let mut j: usize = 0;
        while j < 16
            invariant
                j <= 16,
                matrix_items@.len() == j,
                forall|k: int|
                    0 <= k < j ==> view_of(#[trigger] matrix_items@[k]) == int_obj(
                        self.matrix@[k],
                    ),
            decreases 16 - j,
        {
            matrix_items.push(Object::integer(self.matrix[j]));
            j = j + 1;
        }
        proof {
            lemma_word_objs(self.matrix@, 0);
            assert(views_of(matrix_items@) =~= word_objs(self.matrix@, 0));
        }
        let matrix_obj = Object::ptr(Object::list(0x10, matrix_items));
        let mut position_items: Vec<Object> = Vec::new();
        let mut k: usize = 0;
        while k < 4
            invariant
                k <= 4,
                position_items@.len() == k,
                forall|m: int|
                    0 <= m < k ==> view_of(#[trigger] position_items@[m]) == int_obj(
                        self.position@[m],
                    ),
            decreases 4 - k,
        {
            position_items.push(Object::integer(self.position[k]));
            k = k + 1;
        }
        proof {
            lemma_word_objs(self.position@, 0);
            assert(views_of(position_items@) =~= word_objs(self.position@, 0));
        }
        let position_obj = Object::ptr(Object::list(0x10, position_items));
        let mut record: Vec<Object> = Vec::new();
        record.push(name_obj);
        record.push(count_obj);
        record.push(entries_obj);
        record.push(matrix_obj);
        record.push(position_obj);
        let r = Object::list(4, record);
        proof {
            assert(views_of(record@) =~= seq![
                ptr_to(str_obj(self.typename@, true)),
                int_obj(self.extra_info@.len() as u32),
                ptr_to(group(4, entry_objs(ev, 0))),
                ptr_to(group(0x10, word_objs(self.matrix@, 0))),
                ptr_to(group(0x10, word_objs(self.position@, 0))),
            ]);
            assert(self@.extra_info.len() == self.extra_info@.len());
        }
        r
    }
}

impl ExtraInfoEntry {
    /// The 5-word extra-info record: pointer to the key, inline key byte
    /// length, inline type id, inline list length, and the value's final
    /// slot.
    pub fn object(&self) -> (r: Object)
        requires
            counts_fit_entry(self@),
        ensures
            r@ == entry_obj(self@),
        decreases *self, 2nat,
    {
        let key_ptr = Object::ptr(Object::string(self.key.as_str(), true));
        let key_len = Object::integer(self.key.as_str().len() as u32);
        let type_obj = Object::integer(self.value.extra_info_typeid());
        proof {
            if self@.value is List {
                assert(info_list_len(self@.value) <= u32::MAX);
            }
            assert(decreases_to!(*self => self.value));
        }
        let list_len = self.value.extra_info_list_len();
        let len_obj = Object::integer(list_len as u32);
        let slot_obj = self.value.extra_info_object();
        let mut record: Vec<Object> = Vec::new();
        record.push(key_ptr);
        record.push(key_len);
        record.push(type_obj);
        record.push(len_obj);
        record.push(slot_obj);
        let r = Object::list(4, record);
        proof {
            assert(views_of(record@) =~= seq![
                ptr_to(str_obj(self.key@, true)),
                int_obj(encode_utf8(self.key@).len() as u32),
                int_obj(info_typeid(self@.value)),
                int_obj(info_list_len(self@.value) as u32),
                info_obj(self@.value),
            ]);
        }
        r
    }
}

/// The one input-shape error: the document root was not an entity list.
#[derive(Debug, PartialEq, Eq, Structural)]
pub enum DumpError {
    RootNotEntityList,
}

/// The machine limits under which an entity-list document can be dumped:
/// the body and the enveloped file each fit in memory, and every
/// allocation head -- hence every pointer value -- fits in a 32-bit word.
pub open spec fn dump_within_limits(d: ValueV) -> bool {
    let b = body_obj(d);
    let env = envelope_obj(spec_body(d));
    &&& spec_dump(b).len() <= usize::MAX
    &&& alloc_full(b, 0, sz(b)).1 <= u32::MAX
    &&& spec_body(d).len() <= u32::MAX
    &&& spec_dump(env).len() <= usize::MAX
    &&& alloc_full(env, 0, sz(env)).1 <= u32::MAX
}

impl Value {
    /// Construct and dump the binary file for this document: the encoded
    /// entity-list body with its 2-word trailer, wrapped in the fixed file
    /// envelope. A document whose root is not an entity list is rejected,
    /// with no partial output.
    pub fn dump(&self) -> (r: Result<Vec<u8>, DumpError>)
        requires
            self@ is EntityList ==> counts_fit(self@) && dump_within_limits(self@),
        ensures
            r is Ok <==> self@ is EntityList,
            r matches Ok(bytes) ==> bytes@ == trb_bytes(self@) && bytes@.len() == 52 + spec_body(
                self@,
            ).len(),
            r matches Err(e) ==> e == DumpError::RootNotEntityList,
    {
        match self {
            Value::EntityList(list) => {
                proof {
                    lemma_entities_view(list@, 0);
                }
                let root_obj = self.object();
                let trailer_zero = Object::integer(0);
                let trailer_count = Object::integer(list.len() as u32);
                let mut body_fields: Vec<Object> = Vec::new();
                body_fields.push(root_obj);
                body_fields.push(trailer_zero);
                body_fields.push(trailer_count);
                let body_group = Object::list(4, body_fields);
                proof {
                    assert(views_of(body_fields@) =~= seq![
                        value_obj(self@),
                        int_obj(0),
                        int_obj(self@->EntityList_0.len() as u32),
                    ]);
                    assert(body_group@ == body_obj(self@));
                    lemma_value_obj_wf(self@);
                    let items = seq![
                        value_obj(self@),
                        int_obj(0),
                        int_obj(self@->EntityList_0.len() as u32),
                    ];
                    assert forall|k: int| 0 <= k < items.len() implies wf(#[trigger] items[k]) by {
                        if k == 0 {
                            assert(wf(items[0]));
                        } else if k == 1 {
                            assert(wf(items[1]));
                        } else {
                            assert(wf(items[2]));
                        }
                    }
                    lemma_group_wf(4, items);
                }
                let body = body_group.dump();
                let body_len = body.len();
                let mut env_fields: Vec<Object> = Vec::new();
                env_fields.push(Object::string("TSFB", false));
                env_fields.push(Object::integer(0x6b6f0));
                env_fields.push(Object::string("FBRTXRDH", false));
                env_fields.push(Object::integer(0x18));
                env_fields.push(Object::integer(0x0001_0001));
                env_fields.push(Object::integer(0x1));
                env_fields.push(Object::integer(0x0));
                env_fields.push(Object::integer(body_len as u32));
                env_fields.push(Object::integer(0x0));
                env_fields.push(Object::integer(0x0));
                env_fields.push(Object::string("TCES", false));
                env_fields.push(Object::integer(body_len as u32));
                env_fields.push(Object::Bytes(1, body));
                let envelope = Object::list(1, env_fields);
                proof {
                    assert(views_of(env_fields@) =~= seq![
                        str_obj("TSFB"@, false),
                        int_obj(0x6b6f0),
                        str_obj("FBRTXRDH"@, false),
                        int_obj(0x18),
                        int_obj(0x0001_0001),
                        int_obj(0x1),
                        int_obj(0x0),
                        int_obj(spec_body(self@).len() as u32),
                        int_obj(0x0),
                        int_obj(0x0),
                        str_obj("TCES"@, false),
                        int_obj(spec_body(self@).len() as u32),
                        ObjView::Bytes(1, spec_body(self@)),
                    ]);
                    assert(envelope@ == envelope_obj(spec_body(self@)));
                    lemma_envelope_wf(spec_body(self@));
                    lemma_trb_len(self@);
                }
                Ok(envelope.dump())
            },
            _ => Err(DumpError::RootNotEntityList),
        }
    }
}

/// The file envelope is a well-formed layout object for any body bytes.
pub proof fn lemma_envelope_wf(body: Seq<u8>)
    ensures
        wf(envelope_obj(body)),
{
    let items = seq![
        str_obj("TSFB"@, false),
        int_obj(0x6b6f0),
        str_obj("FBRTXRDH"@, false),
        int_obj(0x18),
        int_obj(0x0001_0001),
        int_obj(0x1),
        int_obj(0x0),
        int_obj(body.len() as u32),
        int_obj(0x0),
        int_obj(0x0),
        str_obj("TCES"@, false),
        int_obj(body.len() as u32),
        ObjView::Bytes(1, body),
    ];
    assert forall|k: int| 0 <= k < items.len() implies wf(#[trigger] items[k]) by {
        assert(items[k] is Bytes);
        assert(crate::allocator::align_v(items[k]) >= 1);
    }
    lemma_group_wf(1, items);
}

/// The mapping is deterministic: two documents with the same abstraction
/// produce byte-identical files. There is no hidden state and no order
/// dependence -- the dumped bytes are a function of the document's
/// mathematical shape alone, as `Value::dump`'s contract states.
pub proof fn lemma_dump_deterministic(a: Value, b: Value)
    requires
        a@ == b@,
    ensures
        trb_bytes(a@) == trb_bytes(b@),
{
}

/// An entity with no extra-info entries still carries all five record
/// fields: its inline count word is zero and its extra-info field is a
/// pointer to a zero-length group of alignment 4, which contributes no
/// element bytes of its own.
pub proof fn lemma_empty_extra_info(e: EntityV)
    requires
        e.extra_info.len() == 0,
    ensures
        entity_obj(e) matches ObjView::Struct(a, fields) && a == 4 && fields.len() == 5
            && fields[1].1 == int_obj(0) && fields[2].1 == ptr_to(group(4, Seq::empty()))
            && sz(group(4, Seq::empty())) == 0,
{
    let items = seq![
        ptr_to(str_obj(e.typename, true)),
        int_obj(e.extra_info.len() as u32),
        ptr_to(group(4, entry_objs(e.extra_info, 0))),
        ptr_to(group(0x10, word_objs(e.matrix, 0))),
        ptr_to(group(0x10, word_objs(e.position, 0))),
    ];
    assert(entry_objs(e.extra_info, 0) =~= Seq::<ObjView>::empty());
    assert(with_indices(items)[1].1 == int_obj(0));
    assert(with_indices(items)[2].1 == ptr_to(group(4, Seq::empty())));
    assert(with_indices(Seq::<ObjView>::empty()) =~= Seq::<(nat, ObjView)>::empty());
}


/// The total size of fields that all share one size.
pub proof fn lemma_uniform_sz_fields(items: Seq<ObjView>, i: int, s: nat)
    requires
        0 <= i <= items.len(),
        forall|k: int| i <= k < items.len() ==> sz(#[trigger] items[k]) == s,
    ensures
        sz_fields(with_indices(items), i) == (items.len() - i) * s,
    decreases items.len() - i,
{
    let wi = with_indices(items);
    if i < items.len() {
        assert(wi[i].1 == items[i]);
        lemma_uniform_sz_fields(items, i + 1, s);
        assert(s + (items.len() - i - 1) * s == (items.len() - i) * s) by (nonlinear_arith);
    } else {
        assert(items.len() - i == 0);
        assert((items.len() - i) * s == 0) by (nonlinear_arith)
            requires items.len() - i == 0;
    }
}

/// Fields of one common size and alignment 4 that each fit anywhere
/// aligned satisfy the group divisibility conditions, for any group
/// alignment that is a multiple of 4 and any starting offset that is one.
pub proof fn lemma_uniform_aligned_fields(items: Seq<ObjView>, i: int, off: nat, a: nat, s: nat)
    requires
        0 <= i <= items.len(),
        a >= 1,
        a % 4 == 0,
        off % 4 == 0,
        s % 4 == 0,
        forall|k: int|
            i <= k < items.len() ==> align_v(#[trigger] items[k]) == 4 && sz(items[k]) == s
                && aligned_any(items[k]),
    ensures
        aligned_any_fields(with_indices(items), i, off, a),
    decreases items.len() - i,
{
    let wi = with_indices(items);
    if i < items.len() {
        assert(wi[i].1 == items[i]);
        lemma_mod_add_zero(off, s, 4);
        lemma_uniform_aligned_fields(items, i + 1, off + s, a, s);
    }
}

/// A pointer to an object that fits anywhere aligned is itself a 4-byte,
/// 4-aligned object that fits anywhere aligned.
pub proof fn lemma_ptr_aligned(v: ObjView)
    requires
        aligned_any(v),
    ensures
        align_v(ptr_to(v)) == 4,
        sz(ptr_to(v)) == 4,
        aligned_any(ptr_to(v)),
{
    assert(*Box::new(v) == v);
}

/// A word object is a 4-byte, 4-aligned object that fits anywhere aligned,
/// and a string object fits anywhere.
pub proof fn lemma_leaf_aligned(x: u32, cs: Seq<char>, null: bool)
    ensures
        align_v(int_obj(x)) == 4,
        sz(int_obj(x)) == 4,
        aligned_any(int_obj(x)),
        align_v(str_obj(cs, null)) == 1,
        aligned_any(str_obj(cs, null)),
{
}

/// A 4-aligned record of five 4-byte fields that each fit anywhere
/// aligned is a 20-byte object that fits anywhere aligned.
pub proof fn lemma_record5_aligned(items: Seq<ObjView>)
    requires
        items.len() == 5,
        forall|k: int|
            0 <= k < 5 ==> align_v(#[trigger] items[k]) == 4 && sz(items[k]) == 4 && aligned_any(
                items[k],
            ),
    ensures
        align_v(group(4, items)) == 4,
        sz(group(4, items)) == 20,
        aligned_any(group(4, items)),
{
    lemma_uniform_sz_fields(items, 0, 4);
    lemma_uniform_aligned_fields(items, 0, 0, 4, 4);
}

/// Every final slot is a 4-byte, 4-aligned object that fits anywhere
/// aligned.
pub proof fn lemma_info_obj_aligned(v: ValueV)
    ensures
        align_v(info_obj(v)) == 4,
        sz(info_obj(v)) == 4,
        aligned_any(info_obj(v)),
    decreases v, 2nat,
{
    match v {
        ValueV::List(l) => {
            lemma_info_objs_aligned(l, 0);
            lemma_info_objs(l, 0);
            let items = info_objs(l, 0);
            assert forall|k: int| 0 <= k < items.len() implies align_v(#[trigger] items[k]) == 4
                && sz(items[k]) == 4 && aligned_any(items[k]) by {
                assert(items[k] == info_obj(l[k]));
            }
            lemma_uniform_aligned_fields(items, 0, 0, 0x20, 4);
            lemma_ptr_aligned(group(0x20, items));
        },
        ValueV::EntityList(l) => {
            lemma_entitylist_aligned(l);
            lemma_ptr_aligned(value_obj(v));
            lemma_leaf_aligned(l.len() as u32, Seq::empty(), false);
            let items = seq![ptr_to(value_obj(v)), int_obj(l.len() as u32)];
            assert forall|k: int| 0 <= k < items.len() implies align_v(#[trigger] items[k]) == 4
                && sz(items[k]) == 4 && aligned_any(items[k]) by {
                if k == 0 {
                    assert(items[0] == ptr_to(value_obj(v)));
                } else {
                    assert(items[1] == int_obj(l.len() as u32));
                }
            }
            lemma_uniform_aligned_fields(items, 0, 0, 4, 4);
            lemma_ptr_aligned(group(4, items));
        },
        ValueV::String(cs) => {
            lemma_leaf_aligned(0, cs, true);
            lemma_ptr_aligned(str_obj(cs, true));
        },
        _ => {},
    }
}

/// The final slots of the values from index `i` on are 4-byte, 4-aligned
/// objects that fit anywhere aligned.
pub proof fn lemma_info_objs_aligned(l: Seq<ValueV>, i: int)
    requires
        0 <= i <= l.len(),
    ensures
        forall|k: int|
            i <= k < l.len() ==> align_v(#[trigger] info_obj(l[k])) == 4 && sz(info_obj(l[k]))
                == 4 && aligned_any(info_obj(l[k])),
    decreases l, l.len() - i,
{
    if i < l.len() {
        lemma_info_obj_aligned(l[i]);
        lemma_info_objs_aligned(l, i + 1);
    }
}

/// Every extra-info record is a 20-byte, 4-aligned object that fits
/// anywhere aligned.
pub proof fn lemma_entry_obj_aligned(en: ExtraInfoEntryV)
    ensures
        align_v(entry_obj(en)) == 4,
        sz(entry_obj(en)) == 20,
        aligned_any(entry_obj(en)),
    decreases en, 3nat,
{
    lemma_info_obj_aligned(en.value);
    lemma_leaf_aligned(0, en.key, true);
    lemma_ptr_aligned(str_obj(en.key, true));
    let items = seq![
        ptr_to(str_obj(en.key, true)),
        int_obj(encode_utf8(en.key).len() as u32),
        int_obj(info_typeid(en.value)),
        int_obj(info_list_len(en.value) as u32),
        info_obj(en.value),
    ];
    assert forall|k: int| 0 <= k < 5 implies align_v(#[trigger] items[k]) == 4 && sz(
        items[k],
    ) == 4 && aligned_any(items[k]) by {
        if k == 0 {
            assert(items[0] == ptr_to(str_obj(en.key, true)));
        } else if k == 1 {
            assert(items[1] == int_obj(encode_utf8(en.key).len() as u32));
        } else if k == 2 {
            assert(items[2] == int_obj(info_typeid(en.value)));
        } else if k == 3 {
            assert(items[3] == int_obj(info_list_len(en.value) as u32));
        } else {
            assert(items[4] == info_obj(en.value));
        }
    }
    lemma_record5_aligned(items);
}

/// The extra-info records from index `i` on are 20-byte, 4-aligned objects
/// that fit anywhere aligned.
pub proof fn lemma_entries_aligned(l: Seq<ExtraInfoEntryV>, i: int)
    requires
        0 <= i <= l.len(),
    ensures
        forall|k: int|
            i <= k < l.len() ==> align_v(#[trigger] entry_obj(l[k])) == 4 && sz(entry_obj(l[k]))
                == 20 && aligned_any(entry_obj(l[k])),
    decreases l, l.len() - i,
{
    if i < l.len() {
        lemma_entry_obj_aligned(l[i]);
        lemma_entries_aligned(l, i + 1);
    }
}

/// A group of 32-bit words at an alignment that is a multiple of 4 fits
/// anywhere aligned.
pub proof fn lemma_word_group_aligned(l: Seq<u32>, a: nat)
    requires
        a >= 1,
        a % 4 == 0,
    ensures
        aligned_any(group(a, word_objs(l, 0))),
{
    lemma_word_objs(l, 0);
    let items = word_objs(l, 0);
    assert forall|k: int| 0 <= k < items.len() implies align_v(#[trigger] items[k]) == 4 && sz(
        items[k],
    ) == 4 && aligned_any(items[k]) by {
        assert(items[k] == int_obj(l[k]));
    }
    lemma_uniform_aligned_fields(items, 0, 0, a, 4);
}

/// The extra-info group of an entity fits anywhere aligned.
pub proof fn lemma_entry_group_aligned(l: Seq<ExtraInfoEntryV>)
    ensures
        aligned_any(group(4, entry_objs(l, 0))),
    decreases l, (l.len() + 5) as nat,
{
    lemma_entries_aligned(l, 0);
    lemma_entry_objs(l, 0);
    let items = entry_objs(l, 0);
    assert forall|k: int| 0 <= k < items.len() implies align_v(#[trigger] items[k]) == 4 && sz(
        items[k],
    ) == 20 && aligned_any(items[k]) by {
        assert(items[k] == entry_obj(l[k]));
    }
    lemma_uniform_aligned_fields(items, 0, 0, 4, 20);
}

/// Every entity record is a 20-byte, 4-aligned object that fits anywhere
/// aligned.
#[verifier::rlimit(50)]
pub proof fn lemma_entity_obj_aligned(e: EntityV)
    ensures
        align_v(entity_obj(e)) == 4,
        sz(entity_obj(e)) == 20,
        aligned_any(entity_obj(e)),
    decreases e, 4nat,
{
    lemma_entry_group_aligned(e.extra_info);
    lemma_word_group_aligned(e.matrix, 0x10);
    lemma_word_group_aligned(e.position, 0x10);
    lemma_leaf_aligned(e.extra_info.len() as u32, e.typename, true);
    lemma_ptr_aligned(str_obj(e.typename, true));
    lemma_ptr_aligned(group(4, entry_objs(e.extra_info, 0)));
    lemma_ptr_aligned(group(0x10, word_objs(e.matrix, 0)));
    lemma_ptr_aligned(group(0x10, word_objs(e.position, 0)));
    let items = seq![
        ptr_to(str_obj(e.typename, true)),
        int_obj(e.extra_info.len() as u32),
        ptr_to(group(4, entry_objs(e.extra_info, 0))),
        ptr_to(group(0x10, word_objs(e.matrix, 0))),
        ptr_to(group(0x10, word_objs(e.position, 0))),
    ];
    assert forall|k: int| 0 <= k < 5 implies align_v(#[trigger] items[k]) == 4 && sz(
        items[k],
    ) == 4 && aligned_any(items[k]) by {
        if k == 0 {
            assert(items[0] == ptr_to(str_obj(e.typename, true)));
        } else if k == 1 {
            assert(items[1] == int_obj(e.extra_info.len() as u32));
        } else if k == 2 {
            assert(items[2] == ptr_to(group(4, entry_objs(e.extra_info, 0))));
        } else if k == 3 {
            assert(items[3] == ptr_to(group(0x10, word_objs(e.matrix, 0))));
        } else {
            assert(items[4] == ptr_to(group(0x10, word_objs(e.position, 0))));
        }
    }
    lemma_record5_aligned(items);
}

/// The entity records from index `i` on are 20-byte, 4-aligned objects
/// that fit anywhere aligned.
pub proof fn lemma_entities_aligned(l: Seq<EntityV>, i: int)
    requires
        0 <= i <= l.len(),
    ensures
        forall|k: int|
            i <= k < l.len() ==> align_v(#[trigger] entity_obj(l[k])) == 4 && sz(entity_obj(l[k]))
                == 20 && aligned_any(entity_obj(l[k])),
    decreases l, l.len() - i,
{
    if i < l.len() {
        lemma_entity_obj_aligned(l[i]);
        lemma_entities_aligned(l, i + 1);
    }
}

/// The encoded entity list is a 4-aligned group of 20-byte records that
/// fits anywhere aligned, and its size is a multiple of 4.
pub proof fn lemma_entitylist_aligned(l: Seq<EntityV>)
    ensures
        aligned_any(group(4, entity_objs(l, 0))),
        sz(group(4, entity_objs(l, 0))) == l.len() * 20,
        sz(group(4, entity_objs(l, 0))) % 4 == 0,
    decreases l, (l.len() + 5) as nat,
{
    lemma_entities_aligned(l, 0);
    lemma_entity_objs(l, 0);
    let items = entity_objs(l, 0);
    assert forall|k: int| 0 <= k < items.len() implies align_v(#[trigger] items[k]) == 4 && sz(
        items[k],
    ) == 20 && aligned_any(items[k]) by {
        assert(items[k] == entity_obj(l[k]));
    }
    lemma_uniform_sz_fields(items, 0, 20);
    lemma_uniform_aligned_fields(items, 0, 0, 4, 20);
    assert(l.len() * 20 == (l.len() * 5) * 4) by (nonlinear_arith);
    lemma_mod_multiples_basic(l.len() as int * 5, 4);
}

/// The body built for an entity-list document fits at position 0: its
/// entity records, trailer words and every deferred payload land on their
/// alignments, so the dump-length and pointer-resolution laws apply to
/// every dumped body.
pub proof fn lemma_body_fits(d: ValueV)
    requires
        d is EntityList,
    ensures
        fits(body_obj(d), 0),
{
    let l = d->EntityList_0;
    lemma_entitylist_aligned(l);
    let root = value_obj(d);
    assert(root == group(4, entity_objs(l, 0)));
    let items = seq![root, int_obj(0), int_obj(l.len() as u32)];
    let wi = with_indices(items);
    lemma_aligned_any_fits(root, 0);
    let n20 = sz(root);
    lemma_mod_add_zero(n20, 4, 4);
    assert(fits(int_obj(0), n20));
    assert(fits(int_obj(l.len() as u32), (n20 + 4) as nat));
    assert(wi[0].1 == items[0] && wi[1].1 == items[1] && wi[2].1 == items[2]);
    assert(fits_fields(wi, 3, (n20 + 8) as nat));
    assert(fits_fields(wi, 2, (n20 + 4) as nat));
    assert(fits_fields(wi, 1, n20));
    assert(fits_fields(wi, 0, 0));
}

/// The dumped body is exactly as long as the allocator's final head: the
/// records' own bytes plus every deferred payload's aligned contribution,
/// with no trailing slack.
pub proof fn lemma_body_len(d: ValueV)
    requires
        d is EntityList,
    ensures
        spec_body(d).len() == alloc_full(body_obj(d), 0, sz(body_obj(d))).1,
        spec_body(d).len() >= sz(body_obj(d)),
{
    lemma_body_fits(d);
    lemma_dump_len(body_obj(d));
}


/// The markers are ASCII, so their UTF-8 bytes are 4, 8 and 4 long.
pub proof fn lemma_marker_lens()
    ensures
        encode_utf8("TSFB"@).len() == 4,
        encode_utf8("FBRTXRDH"@).len() == 8,
        encode_utf8("TCES"@).len() == 4,
{
    reveal_strlit("TSFB");
    reveal_strlit("FBRTXRDH");
    reveal_strlit("TCES");
    assert(is_ascii_chars("TSFB"@));
    assert(is_ascii_chars("FBRTXRDH"@));
    assert(is_ascii_chars("TCES"@));
    is_ascii_chars_encode_utf8("TSFB"@);
    is_ascii_chars_encode_utf8("FBRTXRDH"@);
    is_ascii_chars_encode_utf8("TCES"@);
}

/// The items of the file envelope, in order.
pub open spec fn envelope_items(body: Seq<u8>) -> Seq<ObjView> {
    seq![
        str_obj("TSFB"@, false),
        int_obj(0x6b6f0),
        str_obj("FBRTXRDH"@, false),
        int_obj(0x18),
        int_obj(0x0001_0001),
        int_obj(0x1),
        int_obj(0x0),
        int_obj(body.len() as u32),
        int_obj(0x0),
        int_obj(0x0),
        str_obj("TCES"@, false),
        int_obj(body.len() as u32),
        ObjView::Bytes(1, body),
    ]
}

/// The envelope's size: the 52 fixed bytes plus the body.
#[verifier::rlimit(100)]
pub proof fn lemma_envelope_sz(body: Seq<u8>)
    ensures
        envelope_obj(body) == group(1, envelope_items(body)),
        sz(envelope_obj(body)) == 52 + body.len(),
{
    lemma_marker_lens();
    let items = envelope_items(body);
    let wi = with_indices(items);
    assert(items.len() == 13);
    assert(wi.len() == 13);
    assert forall|k: int| 0 <= k < 13 implies #[trigger] wi[k].1 == items[k] by {}
    assert(items[12] == ObjView::Bytes(1, body));
    assert(items[11] == int_obj(body.len() as u32));
    assert(items[10] == str_obj("TCES"@, false));
    assert(items[9] == int_obj(0x0));
    assert(items[8] == int_obj(0x0));
    assert(items[7] == int_obj(body.len() as u32));
    assert(items[6] == int_obj(0x0));
    assert(items[5] == int_obj(0x1));
    assert(items[4] == int_obj(0x0001_0001));
    assert(items[3] == int_obj(0x18));
    assert(items[2] == str_obj("FBRTXRDH"@, false));
    assert(items[1] == int_obj(0x6b6f0));
    assert(items[0] == str_obj("TSFB"@, false));
    assert(sz_fields(wi, 13) == 0);
    assert(sz(items[12]) == body.len());
    assert(sz_fields(wi, 12) == sz(wi[12].1) + sz_fields(wi, 13));
    assert(sz_fields(wi, 12) == 0 + body.len());
    assert(sz(items[11]) == 4);
    assert(sz_fields(wi, 11) == sz(wi[11].1) + sz_fields(wi, 12));
    assert(sz_fields(wi, 11) == 4 + body.len());
    assert(sz(items[10]) == 4);
    assert(sz_fields(wi, 10) == sz(wi[10].1) + sz_fields(wi, 11));
    assert(sz_fields(wi, 10) == 8 + body.len());
    assert(sz(items[9]) == 4);
    assert(sz_fields(wi, 9) == sz(wi[9].1) + sz_fields(wi, 10));
    assert(sz_fields(wi, 9) == 12 + body.len());
    assert(sz(items[8]) == 4);
    assert(sz_fields(wi, 8) == sz(wi[8].1) + sz_fields(wi, 9));
    assert(sz_fields(wi, 8) == 16 + body.len());
    assert(sz(items[7]) == 4);
    assert(sz_fields(wi, 7) == sz(wi[7].1) + sz_fields(wi, 8));
    assert(sz_fields(wi, 7) == 20 + body.len());
    assert(sz(items[6]) == 4);
    assert(sz_fields(wi, 6) == sz(wi[6].1) + sz_fields(wi, 7));
    assert(sz_fields(wi, 6) == 24 + body.len());
    assert(sz(items[5]) == 4);
    assert(sz_fields(wi, 5) == sz(wi[5].1) + sz_fields(wi, 6));
    assert(sz_fields(wi, 5) == 28 + body.len());
    assert(sz(items[4]) == 4);
    assert(sz_fields(wi, 4) == sz(wi[4].1) + sz_fields(wi, 5));
    assert(sz_fields(wi, 4) == 32 + body.len());
    assert(sz(items[3]) == 4);
    assert(sz_fields(wi, 3) == sz(wi[3].1) + sz_fields(wi, 4));
    assert(sz_fields(wi, 3) == 36 + body.len());
    assert(sz(items[2]) == 8);
    assert(sz_fields(wi, 2) == sz(wi[2].1) + sz_fields(wi, 3));
    assert(sz_fields(wi, 2) == 44 + body.len());
    assert(sz(items[1]) == 4);
    assert(sz_fields(wi, 1) == sz(wi[1].1) + sz_fields(wi, 2));
    assert(sz_fields(wi, 1) == 48 + body.len());
    assert(sz(items[0]) == 4);
    assert(sz_fields(wi, 0) == sz(wi[0].1) + sz_fields(wi, 1));
    assert(sz_fields(wi, 0) == 52 + body.len());
}

/// The envelope defers nothing: every field is raw bytes.
#[verifier::rlimit(100)]
pub proof fn lemma_envelope_deferred(body: Seq<u8>)
    ensures
        deferred(envelope_obj(body)).len() == 0,
{
    let items = envelope_items(body);
    let wi = with_indices(items);
    assert(items.len() == 13);
    assert(wi.len() == 13);
    assert forall|k: int| 0 <= k < 13 implies #[trigger] wi[k].1 == items[k] by {}
    assert(items[12] == ObjView::Bytes(1, body));
    assert(items[11] == int_obj(body.len() as u32));
    assert(items[10] == str_obj("TCES"@, false));
    assert(items[9] == int_obj(0x0));
    assert(items[8] == int_obj(0x0));
    assert(items[7] == int_obj(body.len() as u32));
    assert(items[6] == int_obj(0x0));
    assert(items[5] == int_obj(0x1));
    assert(items[4] == int_obj(0x0001_0001));
    assert(items[3] == int_obj(0x18));
    assert(items[2] == str_obj("FBRTXRDH"@, false));
    assert(items[1] == int_obj(0x6b6f0));
    assert(items[0] == str_obj("TSFB"@, false));
    assert(crate::allocator::deferred_fields(wi, 13) =~= Seq::<ObjView>::empty());
    assert(deferred(items[12]) =~= Seq::<ObjView>::empty());
    assert(crate::allocator::deferred_fields(wi, 12) == deferred(wi[12].1) + crate::allocator::deferred_fields(wi, 13));
    assert(crate::allocator::deferred_fields(wi, 12) =~= Seq::<ObjView>::empty());
    assert(deferred(items[11]) =~= Seq::<ObjView>::empty());
    assert(crate::allocator::deferred_fields(wi, 11) == deferred(wi[11].1) + crate::allocator::deferred_fields(wi, 12));
    assert(crate::allocator::deferred_fields(wi, 11) =~= Seq::<ObjView>::empty());
    assert(deferred(items[10]) =~= Seq::<ObjView>::empty());
    assert(crate::allocator::deferred_fields(wi, 10) == deferred(wi[10].1) + crate::allocator::deferred_fields(wi, 11));
    assert(crate::allocator::deferred_fields(wi, 10) =~= Seq::<ObjView>::empty());
    assert(deferred(items[9]) =~= Seq::<ObjView>::empty());
    assert(crate::allocator::deferred_fields(wi, 9) == deferred(wi[9].1) + crate::allocator::deferred_fields(wi, 10));
    assert(crate::allocator::deferred_fields(wi, 9) =~= Seq::<ObjView>::empty());
    assert(deferred(items[8]) =~= Seq::<ObjView>::empty());
    assert(crate::allocator::deferred_fields(wi, 8) == deferred(wi[8].1) + crate::allocator::deferred_fields(wi, 9));
    assert(crate::allocator::deferred_fields(wi, 8) =~= Seq::<ObjView>::empty());
    assert(deferred(items[7]) =~= Seq::<ObjView>::empty());
    assert(crate::allocator::deferred_fields(wi, 7) == deferred(wi[7].1) + crate::allocator::deferred_fields(wi, 8));
    assert(crate::allocator::deferred_fields(wi, 7) =~= Seq::<ObjView>::empty());
    assert(deferred(items[6]) =~= Seq::<ObjView>::empty());
    assert(crate::allocator::deferred_fields(wi, 6) == deferred(wi[6].1) + crate::allocator::deferred_fields(wi, 7));
    assert(crate::allocator::deferred_fields(wi, 6) =~= Seq::<ObjView>::empty());
    assert(deferred(items[5]) =~= Seq::<ObjView>::empty());
    assert(crate::allocator::deferred_fields(wi, 5) == deferred(wi[5].1) + crate::allocator::deferred_fields(wi, 6));
    assert(crate::allocator::deferred_fields(wi, 5) =~= Seq::<ObjView>::empty());
    assert(deferred(items[4]) =~= Seq::<ObjView>::empty());
    assert(crate::allocator::deferred_fields(wi, 4) == deferred(wi[4].1) + crate::allocator::deferred_fields(wi, 5));
    assert(crate::allocator::deferred_fields(wi, 4) =~= Seq::<ObjView>::empty());
    assert(deferred(items[3]) =~= Seq::<ObjView>::empty());
    assert(crate::allocator::deferred_fields(wi, 3) == deferred(wi[3].1) + crate::allocator::deferred_fields(wi, 4));
    assert(crate::allocator::deferred_fields(wi, 3) =~= Seq::<ObjView>::empty());
    assert(deferred(items[2]) =~= Seq::<ObjView>::empty());
    assert(crate::allocator::deferred_fields(wi, 2) == deferred(wi[2].1) + crate::allocator::deferred_fields(wi, 3));
    assert(crate::allocator::deferred_fields(wi, 2) =~= Seq::<ObjView>::empty());
    assert(deferred(items[1]) =~= Seq::<ObjView>::empty());
    assert(crate::allocator::deferred_fields(wi, 1) == deferred(wi[1].1) + crate::allocator::deferred_fields(wi, 2));
    assert(crate::allocator::deferred_fields(wi, 1) =~= Seq::<ObjView>::empty());
    assert(deferred(items[0]) =~= Seq::<ObjView>::empty());
    assert(crate::allocator::deferred_fields(wi, 0) == deferred(wi[0].1) + crate::allocator::deferred_fields(wi, 1));
    assert(crate::allocator::deferred_fields(wi, 0) =~= Seq::<ObjView>::empty());
}

/// A word object fits at any position that is a multiple of 4, and a
/// byte object of alignment 1 fits anywhere.
pub proof fn lemma_word_fits(x: u32, pos: nat)
    requires
        pos % 4 == 0,
    ensures
        fits(int_obj(x), pos),
{
}

/// Raw bytes of alignment 1 fit at any position.
pub proof fn lemma_bytes_fits(b: Seq<u8>, pos: nat)
    ensures
        fits(ObjView::Bytes(1, b), pos),
{
    assert(pos % 1 == 0);
}

/// The envelope fits at position 0 for any body bytes: every fixed word
/// sits at a multiple of 4, and the markers and the raw body need no
/// alignment.
#[verifier::rlimit(100)]
pub proof fn lemma_envelope_fits(body: Seq<u8>)
    ensures
        fits(envelope_obj(body), 0),
{
    lemma_marker_lens();
    let items = envelope_items(body);
    let wi = with_indices(items);
    assert(items.len() == 13);
    assert(wi.len() == 13);
    assert forall|k: int| 0 <= k < 13 implies #[trigger] wi[k].1 == items[k] by {}
    assert(items[12] == ObjView::Bytes(1, body));
    assert(items[11] == int_obj(body.len() as u32));
    assert(items[10] == str_obj("TCES"@, false));
    assert(items[9] == int_obj(0x0));
    assert(items[8] == int_obj(0x0));
    assert(items[7] == int_obj(body.len() as u32));
    assert(items[6] == int_obj(0x0));
    assert(items[5] == int_obj(0x1));
    assert(items[4] == int_obj(0x0001_0001));
    assert(items[3] == int_obj(0x18));
    assert(items[2] == str_obj("FBRTXRDH"@, false));
    assert(items[1] == int_obj(0x6b6f0));
    assert(items[0] == str_obj("TSFB"@, false));
    let tail: nat = (52 + body.len()) as nat;
    assert(fits_fields(wi, 13, tail));
    assert(sz(items[12]) == body.len());
    lemma_bytes_fits(body, 52);
    assert(fits(items[12], 52));
    assert(fits_fields(wi, 12, 52) == (fits(wi[12].1, 52) && fits_fields(wi, 13, (52 + sz(wi[12].1)) as nat)));
    assert(fits_fields(wi, 12, 52));
    assert(sz(items[11]) == 4);
    lemma_word_fits(body.len() as u32, 48);
    assert(fits(items[11], 48));
    assert(fits_fields(wi, 11, 48) == (fits(wi[11].1, 48) && fits_fields(wi, 12, (48 + sz(wi[11].1)) as nat)));
    assert(fits_fields(wi, 11, 48));
    assert(sz(items[10]) == 4);
    lemma_bytes_fits(encode_utf8("TCES"@), 44);
    assert(fits(items[10], 44));
    assert(fits_fields(wi, 10, 44) == (fits(wi[10].1, 44) && fits_fields(wi, 11, (44 + sz(wi[10].1)) as nat)));
    assert(fits_fields(wi, 10, 44));
    assert(sz(items[9]) == 4);
    lemma_word_fits(0x0, 40);
    assert(fits(items[9], 40));
    assert(fits_fields(wi, 9, 40) == (fits(wi[9].1, 40) && fits_fields(wi, 10, (40 + sz(wi[9].1)) as nat)));
    assert(fits_fields(wi, 9, 40));
    assert(sz(items[8]) == 4);
    lemma_word_fits(0x0, 36);
    assert(fits(items[8], 36));
    assert(fits_fields(wi, 8, 36) == (fits(wi[8].1, 36) && fits_fields(wi, 9, (36 + sz(wi[8].1)) as nat)));
    assert(fits_fields(wi, 8, 36));
    assert(sz(items[7]) == 4);
    lemma_word_fits(body.len() as u32, 32);
    assert(fits(items[7], 32));
    assert(fits_fields(wi, 7, 32) == (fits(wi[7].1, 32) && fits_fields(wi, 8, (32 + sz(wi[7].1)) as nat)));
    assert(fits_fields(wi, 7, 32));
    assert(sz(items[6]) == 4);
    lemma_word_fits(0x0, 28);
    assert(fits(items[6], 28));
    assert(fits_fields(wi, 6, 28) == (fits(wi[6].1, 28) && fits_fields(wi, 7, (28 + sz(wi[6].1)) as nat)));
    assert(fits_fields(wi, 6, 28));
    assert(sz(items[5]) == 4);
    lemma_word_fits(0x1, 24);
    assert(fits(items[5], 24));
    assert(fits_fields(wi, 5, 24) == (fits(wi[5].1, 24) && fits_fields(wi, 6, (24 + sz(wi[5].1)) as nat)));
    assert(fits_fields(wi, 5, 24));
    assert(sz(items[4]) == 4);
    lemma_word_fits(0x0001_0001, 20);
    assert(fits(items[4], 20));
    assert(fits_fields(wi, 4, 20) == (fits(wi[4].1, 20) && fits_fields(wi, 5, (20 + sz(wi[4].1)) as nat)));
    assert(fits_fields(wi, 4, 20));
    assert(sz(items[3]) == 4);
    lemma_word_fits(0x18, 16);
    assert(fits(items[3], 16));
    assert(fits_fields(wi, 3, 16) == (fits(wi[3].1, 16) && fits_fields(wi, 4, (16 + sz(wi[3].1)) as nat)));
    assert(fits_fields(wi, 3, 16));
    assert(sz(items[2]) == 8);
    lemma_bytes_fits(encode_utf8("FBRTXRDH"@), 8);
    assert(fits(items[2], 8));
    assert(fits_fields(wi, 2, 8) == (fits(wi[2].1, 8) && fits_fields(wi, 3, (8 + sz(wi[2].1)) as nat)));
    assert(fits_fields(wi, 2, 8));
    assert(sz(items[1]) == 4);
    lemma_word_fits(0x6b6f0, 4);
    assert(fits(items[1], 4));
    assert(fits_fields(wi, 1, 4) == (fits(wi[1].1, 4) && fits_fields(wi, 2, (4 + sz(wi[1].1)) as nat)));
    assert(fits_fields(wi, 1, 4));
    assert(sz(items[0]) == 4);
    lemma_bytes_fits(encode_utf8("TSFB"@), 0);
    assert(fits(items[0], 0));
    assert(fits_fields(wi, 0, 0) == (fits(wi[0].1, 0) && fits_fields(wi, 1, (0 + sz(wi[0].1)) as nat)));
    assert(fits_fields(wi, 0, 0));
}

/// The dumped file is exactly the 52 fixed envelope bytes plus the body:
/// the envelope defers nothing, so its single layer is the whole file.
pub proof fn lemma_trb_len(d: ValueV)
    requires
        d is EntityList,
    ensures
        trb_bytes(d).len() == 52 + spec_body(d).len(),
{
    let body = spec_body(d);
    let env = envelope_obj(body);
    lemma_envelope_fits(body);
    lemma_envelope_sz(body);
    lemma_envelope_deferred(body);
    lemma_dump_len(env);
    lemma_walk(env, 0, sz(env));
    assert(bump(deferred(env), 0, sz(env)) == sz(env));
}

} // verus!
