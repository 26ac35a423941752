//! The layer allocator: layout objects and their one-pass, breadth-first
//! serialization into a byte buffer with resolved forward pointers.
//!
//! An [`Object`] describes how a value occupies serialized space: raw bytes
//! with an alignment, an aligned group of fields keyed by a logical index, or
//! an indirection that emits a 4-byte pointer and defers its payload to the
//! next generation. [`Object::dump`] walks the tree generation by generation,
//! computing every pointer target analytically from the declared sizes before
//! the target's bytes are written, so no backpatching pass is needed.

use vstd::prelude::*;
use vstd::string::StringSliceAdditionalSpecFns;
use vstd::string::StrSliceExecFns;

verus! {

/// A low-level memory object. The constructors below are the intended way to
/// build one.
pub enum Object {
    /// A single 4-byte pointer, and the object it refers to. The referred
    /// object is deferred to the next allocation layer.
    Reference(Box<Object>),
    /// Multiple fields with a declared alignment. The first `usize` is the
    /// alignment; the `usize` of each pair is the field's logical index, and
    /// fields are stored (and emitted) in increasing logical index.
    Struct(usize, Vec<(usize, Object)>),
    /// A raw byte sequence with a declared alignment.
    Bytes(usize, Vec<u8>),
}

/// The mathematical shape of an [`Object`]: the same tree over `nat` and
/// `Seq`. Every contract in this crate speaks about objects through this view.
pub enum ObjView {
    Reference(Box<ObjView>),
    Struct(nat, Seq<(nat, ObjView)>),
    Bytes(nat, Seq<u8>),
}

/// The abstraction of one object.
pub open spec fn view_of(o: Object) -> ObjView
    decreases o, 0nat,
{
    match o {
        Object::Reference(c) => ObjView::Reference(Box::new(view_of(*c))),
        Object::Struct(a, l) => ObjView::Struct(a as nat, view_fields(l@, 0)),
        Object::Bytes(a, b) => ObjView::Bytes(a as nat, b@),
    }
}

/// The abstraction of a field list, from index `i` on.
pub open spec fn view_fields(l: Seq<(usize, Object)>, i: int) -> Seq<(nat, ObjView)>
    decreases l, l.len() - i,
{
    if i < 0 || i >= l.len() {
        Seq::empty()
    } else {
        seq![(l[i].0 as nat, view_of(l[i].1))] + view_fields(l, i + 1)
    }
}

impl View for Object {
    type V = ObjView;

    open spec fn view(&self) -> ObjView {
        view_of(*self)
    }
}

/// `view_fields` is the pointwise abstraction of the field list.
pub proof fn lemma_view_fields(l: Seq<(usize, Object)>, i: int)
    requires
        0 <= i <= l.len(),
    ensures
        view_fields(l, i).len() == l.len() - i,
        forall|k: int|
            0 <= k < l.len() - i ==> #[trigger] view_fields(l, i)[k] == (
            l[i + k].0 as nat,
            view_of(l[i + k].1),
            ),
    decreases l.len() - i,
{
    if i < l.len() {
        lemma_view_fields(l, i + 1);
    }
}

/// The four bytes of a 32-bit word in big-endian order.
pub open spec fn be_word(x: u32) -> Seq<u8> {
    seq![(x >> 24) as u8, (x >> 16) as u8, (x >> 8) as u8, x as u8]
}

/// `n` zero bytes, as written for alignment padding.
pub open spec fn zeros(n: nat) -> Seq<u8> {
    Seq::new(n, |i: int| 0u8)
}

/// How many padding bytes take `pos` up to a multiple of `align`.
pub open spec fn pad_len(pos: nat, align: nat) -> nat
    recommends
        align >= 1,
{
    if pos % align == 0 {
        0
    } else {
        (align - pos % align) as nat
    }
}

/// `pos` rounded up to a multiple of `align`.
pub open spec fn align_up(pos: nat, align: nat) -> nat
    recommends
        align >= 1,
{
    (pos + pad_len(pos, align)) as nat
}

/// The declared alignment of an object: 4 for a pointer, else the declared
/// value.
pub open spec fn align_v(v: ObjView) -> nat {
    match v {
        ObjView::Reference(_) => 4,
        ObjView::Struct(a, _) => a,
        ObjView::Bytes(a, _) => a,
    }
}

/// The size of an object: the bytes its own layer occupies, not counting the
/// deferred payloads of its pointers and not counting alignment padding.
pub open spec fn sz(v: ObjView) -> nat
    decreases v, 0nat,
{
    match v {
        ObjView::Reference(_) => 4,
        ObjView::Struct(_, l) => sz_fields(l, 0),
        ObjView::Bytes(_, b) => b.len(),
    }
}

/// Total size of the fields from index `i` on.
pub open spec fn sz_fields(l: Seq<(nat, ObjView)>, i: int) -> nat
    decreases l, l.len() - i,
{
    if i < 0 || i >= l.len() {
        0
    } else {
        sz(l[i].1) + sz_fields(l, i + 1)
    }
}

/// Well-formedness: every alignment is at least 1, and the fields of every
/// group are stored in strictly increasing logical index, so that storage
/// order and logical order coincide.
pub open spec fn wf(v: ObjView) -> bool
    decreases v, 0nat,
{
    match v {
        ObjView::Reference(c) => wf(*c),
        ObjView::Struct(a, l) => a >= 1 && (forall|i: int, j: int|
            #![trigger l[i], l[j]]
            0 <= i < j < l.len() ==> l[i].0 < l[j].0) && wf_fields(l, 0),
        ObjView::Bytes(a, _) => a >= 1,
    }
}

/// Well-formedness of the fields from index `i` on.
pub open spec fn wf_fields(l: Seq<(nat, ObjView)>, i: int) -> bool
    decreases l, l.len() - i,
{
    if i < 0 || i >= l.len() {
        true
    } else {
        wf(l[i].1) && wf_fields(l, i + 1)
    }
}

/// Every field of a well-formed group is well-formed.
pub proof fn lemma_wf_fields(l: Seq<(nat, ObjView)>, i: int)
    requires
        0 <= i <= l.len(),
        wf_fields(l, i),
    ensures
        forall|k: int| i <= k < l.len() ==> wf(#[trigger] l[k].1),
    decreases l.len() - i,
{
    if i < l.len() {
        lemma_wf_fields(l, i + 1);
    }
}

/// How many bytes would be needed to pad `num` up to `align`.
pub fn align_amount(num: usize, align: usize) -> (r: usize)
    requires
        align >= 1,
    ensures
        r == pad_len(num as nat, align as nat),
        r < align,
{
    let rem: usize = num % align;
    if rem == 0 {
        0
    } else {
        align - rem
    }
}

/// Round `num` up to a multiple of `align`.
pub fn align(num: usize, align_to: usize) -> (r: usize)
    requires
        align_to >= 1,
        align_up(num as nat, align_to as nat) <= usize::MAX,
    ensures
        r == align_up(num as nat, align_to as nat),
{
    num + align_amount(num, align_to)
}

/// The four big-endian bytes of a 32-bit word.
pub fn dump_int(word: u32) -> (r: Vec<u8>)
    ensures
        r@ == be_word(word),
{
    let mut r: Vec<u8> = Vec::new();
    r.push((word >> 24) as u8);
    r.push((word >> 16) as u8);
    r.push((word >> 8) as u8);
    r.push(word as u8);
    proof {
        assert(r@ =~= be_word(word));
    }
    r
}

impl Object {
    /// Construct a referenced value. When allocated, it writes a pointer and
    /// adds the value inside to the next allocation layer.
    pub fn ptr(object: Object) -> (r: Object)
        ensures
            r@ == ObjView::Reference(Box::new(object@)),
    {
        Object::Reference(Box::new(object))
    }

    /// Construct a primitive 32-bit integer, emitted big-endian.
    pub fn integer(word: u32) -> (r: Object)
        ensures
            r@ == ObjView::Bytes(4, be_word(word)),
    {
        Object::Bytes(4, dump_int(word))
    }

    /// Construct an optionally null-terminated string with byte alignment 1.
    pub fn string(string: &str, null: bool) -> (r: Object)
        ensures
            r@ == ObjView::Bytes(
                1,
                if null {
                    string.spec_bytes() + seq![0u8]
                } else {
                    string.spec_bytes()
                },
            ),
    {
        let mut bytes: Vec<u8> = string.as_bytes_vec();
        if null {
            bytes.push(0);
            proof {
                assert(bytes@ =~= string.spec_bytes() + seq![0u8]);
            }
        }
        Object::Bytes(1, bytes)
    }

    /// The alignment this object asks of its own position.
    pub fn alignment(&self) -> (r: usize)
        ensures
            r == align_v(self@),
    {
        match self {
            Object::Reference(_) => 4,
            Object::Struct(align, _) => *align,
            Object::Bytes(align, _) => *align,
        }
    }

    /// The size of this object's own layer, in bytes.
    #[verifier::loop_isolation(false)]
    pub fn size(&self) -> (r: usize)
        requires
            sz(self@) <= usize::MAX,
        ensures
            r == sz(self@),
        decreases *self,
    {
        match self {
            Object::Reference(_) => 4,
            Object::Bytes(_, b) => b.len(),
            Object::Struct(_, l) => {
                proof {
                    lemma_view_fields(l@, 0);
                }
                let ghost fl = view_fields(l@, 0);
                let mut total: usize = 0;
                let mut i: usize = 0;
                while i < l.len()
                    invariant
                        0 <= i <= l@.len(),
                        total + sz_fields(fl, i as int) == sz_fields(fl, 0),
                    decreases l@.len() - i,
                {
                    proof {
                        lemma_sz_fields_bound(fl, i as int);
                        assert(decreases_to!(*self => (*self)->Struct_1));
                        assert((*self)->Struct_1 == *l);
                        assert(decreases_to!(*l => l@));
                        assert(decreases_to!(l@ => l@[i as int]));
                        assert(decreases_to!(l@[i as int] => l@[i as int].1));
                        assert(decreases_to!(*self => l@[i as int].1));
                    }
                    let field_size: usize = (&l[i].1).size();
                    total = total + field_size;
                    i = i + 1;
                }
                total
            },
        }
    }
}

/// Each field's size is bounded by the total from any earlier index.
pub proof fn lemma_sz_fields_bound(l: Seq<(nat, ObjView)>, i: int)
    requires
        0 <= i < l.len(),
    ensures
        sz(l[i].1) + sz_fields(l, i + 1) == sz_fields(l, i),
        sz_fields(l, i) <= sz_fields(l, 0),
    decreases i,
{
    if i > 0 {
        lemma_sz_fields_bound(l, i - 1);
    }
}

/// The bytes one layer of an object contributes at buffer position `pos`,
/// given allocation head `head`, together with the head after the walk.
///
/// Every node first pads the buffer with zeros up to its own alignment. Raw
/// bytes are appended verbatim and leave the head alone. A reference appends
/// the 4-byte big-endian value of the head rounded up to its child's
/// alignment, then bumps the head past the child's size: the child itself is
/// deferred to the next layer. A group appends its fields in storage order,
/// each at the running position, threading the head through the walk.
pub open spec fn emit(v: ObjView, pos: nat, head: nat) -> (Seq<u8>, nat)
    decreases v, 0nat,
{
    match v {
        ObjView::Reference(c) => (
            zeros(pad_len(pos, 4)) + be_word(align_up(head, align_v(*c)) as u32),
            align_up(head, align_v(*c)) + sz(*c),
        ),
        ObjView::Struct(a, l) => {
            let r = emit_fields(l, 0, pos + pad_len(pos, a), head);
            (zeros(pad_len(pos, a)) + r.0, r.1)
        },
        ObjView::Bytes(a, b) => (zeros(pad_len(pos, a)) + b, head),
    }
}

/// The bytes and final head of emitting the fields from index `i` on, the
/// first at position `pos`, threading the position and head left to right.
pub open spec fn emit_fields(l: Seq<(nat, ObjView)>, i: int, pos: nat, head: nat) -> (
    Seq<u8>,
    nat,
)
    decreases l, l.len() - i,
{
    if i < 0 || i >= l.len() {
        (Seq::empty(), head)
    } else {
        let one = emit(l[i].1, pos, head);
        let rest = emit_fields(l, i + 1, pos + one.0.len(), one.1);
        (one.0 + rest.0, rest.1)
    }
}

/// The children this object's layer defers to the next layer, in walk order.
pub open spec fn deferred(v: ObjView) -> Seq<ObjView>
    decreases v, 0nat,
{
    match v {
        ObjView::Reference(c) => seq![*c],
        ObjView::Struct(_, l) => deferred_fields(l, 0),
        ObjView::Bytes(_, _) => Seq::empty(),
    }
}

/// The deferred children of the fields from index `i` on, in walk order.
pub open spec fn deferred_fields(l: Seq<(nat, ObjView)>, i: int) -> Seq<ObjView>
    decreases l, l.len() - i,
{
    if i < 0 || i >= l.len() {
        Seq::empty()
    } else {
        deferred(l[i].1) + deferred_fields(l, i + 1)
    }
}

/// How many further layers an object can produce: the deepest nesting of
/// references.
pub open spec fn depth(v: ObjView) -> nat
    decreases v, 0nat,
{
    match v {
        ObjView::Reference(c) => 1 + depth(*c),
        ObjView::Struct(_, l) => depth_fields(l, 0),
        ObjView::Bytes(_, _) => 0,
    }
}

/// The largest depth among the fields from index `i` on.
pub open spec fn depth_fields(l: Seq<(nat, ObjView)>, i: int) -> nat
    decreases l, l.len() - i,
{
    if i < 0 || i >= l.len() {
        0
    } else {
        let d = depth(l[i].1);
        let r = depth_fields(l, i + 1);
        if d >= r {
            d
        } else {
            r
        }
    }
}

/// Pair each item with its position, as a group's field list.
pub open spec fn with_indices(items: Seq<ObjView>) -> Seq<(nat, ObjView)> {
    Seq::new(items.len(), |i: int| (i as nat, items[i]))
}

/// The synthetic group that carries one layer's deferred children: alignment
/// 1, so the layer boundary itself adds no padding, and the children in walk
/// order under sequential indices.
pub open spec fn layer_group(items: Seq<ObjView>) -> ObjView {
    ObjView::Struct(1, with_indices(items))
}

/// Every deferred child sits strictly below its parent's depth.
pub proof fn lemma_deferred_depth(v: ObjView)
    ensures
        forall|j: int|
            0 <= j < deferred(v).len() ==> depth(#[trigger] deferred(v)[j]) < depth(v),
    decreases v, 0nat,
{
    match v {
        ObjView::Reference(c) => {
            assert forall|j: int| 0 <= j < deferred(v).len() implies depth(
                #[trigger] deferred(v)[j],
            ) < depth(v) by {
                assert(deferred(v)[j] == *c);
            }
        },
        ObjView::Struct(_, l) => {
            lemma_deferred_depth_fields(l, 0);
            assert forall|j: int| 0 <= j < deferred(v).len() implies depth(
                #[trigger] deferred(v)[j],
            ) < depth(v) by {
                assert(deferred(v) == deferred_fields(l, 0));
                assert(depth(deferred_fields(l, 0)[j]) < depth_fields(l, 0));
            }
        },
        ObjView::Bytes(_, _) => {},
    }
}

/// Every deferred child of the fields from `i` on sits strictly below the
/// fields' depth.
pub proof fn lemma_deferred_depth_fields(l: Seq<(nat, ObjView)>, i: int)
    requires
        0 <= i <= l.len(),
    ensures
        forall|j: int|
            0 <= j < deferred_fields(l, i).len() ==> depth(
                #[trigger] deferred_fields(l, i)[j],
            ) < depth_fields(l, i),
    decreases l, l.len() - i,
{
    if i < l.len() {
        lemma_deferred_depth(l[i].1);
        lemma_deferred_depth_fields(l, i + 1);
        assert forall|j: int| 0 <= j < deferred_fields(l, i).len() implies depth(
            #[trigger] deferred_fields(l, i)[j],
        ) < depth_fields(l, i) by {
            let first = deferred(l[i].1);
            if j < first.len() {
                assert(deferred_fields(l, i)[j] == first[j]);
            } else {
                assert(deferred_fields(l, i)[j] == deferred_fields(l, i + 1)[j - first.len()]);
            }
        }
    }
}

/// A group of items all of depth below `b` has depth below `b`.
pub proof fn lemma_depth_fields_below(l: Seq<(nat, ObjView)>, i: int, b: nat)
    requires
        0 <= i <= l.len(),
        b >= 1,
        forall|k: int| i <= k < l.len() ==> depth(#[trigger] l[k].1) < b,
    ensures
        depth_fields(l, i) < b,
    decreases l.len() - i,
{
    if i < l.len() {
        lemma_depth_fields_below(l, i + 1, b);
    }
}

/// The next layer built from `v`'s deferred children sits strictly below
/// `v`'s depth.
pub proof fn lemma_layer_group_depth(v: ObjView)
    requires
        deferred(v).len() > 0,
    ensures
        depth(layer_group(deferred(v))) < depth(v),
{
    let ds = deferred(v);
    lemma_deferred_depth(v);
    assert(depth(ds[0]) < depth(v));
    assert forall|k: int| 0 <= k < with_indices(ds).len() implies depth(
        #[trigger] with_indices(ds)[k].1,
    ) < depth(v) by {
        assert(with_indices(ds)[k].1 == ds[k]);
    }
    lemma_depth_fields_below(with_indices(ds), 0, depth(v));
}

/// The whole allocation: emit layer after layer, each one the synthetic group
/// of the previous layer's deferred children, until a layer defers nothing.
/// Returns the full byte buffer from position `pos` on and the final head.
pub open spec fn alloc_full(v: ObjView, pos: nat, head: nat) -> (Seq<u8>, nat)
    decreases depth(v),
    via alloc_full_dec
{
    let e = emit(v, pos, head);
    let ds = deferred(v);
    if ds.len() == 0 {
        e
    } else {
        let rest = alloc_full(layer_group(ds), pos + e.0.len(), e.1);
        (e.0 + rest.0, rest.1)
    }
}

#[via_fn]
proof fn alloc_full_dec(v: ObjView, pos: nat, head: nat) {
    if deferred(v).len() > 0 {
        lemma_layer_group_depth(v);
    }
}

/// The byte buffer that dumping an object produces: the allocation run
/// started with the head just past the object's own layer.
pub open spec fn spec_dump(v: ObjView) -> Seq<u8> {
    alloc_full(v, 0, sz(v)).0
}

/// The head never moves backwards during a layer walk.
pub proof fn lemma_emit_head_ge(v: ObjView, pos: nat, head: nat)
    ensures
        emit(v, pos, head).1 >= head,
    decreases v, 0nat,
{
    match v {
        ObjView::Reference(c) => {},
        ObjView::Struct(a, l) => {
            lemma_emit_fields_head_ge(l, 0, pos + pad_len(pos, a), head);
        },
        ObjView::Bytes(_, _) => {},
    }
}

/// The head never moves backwards while emitting fields.
pub proof fn lemma_emit_fields_head_ge(l: Seq<(nat, ObjView)>, i: int, pos: nat, head: nat)
    ensures
        emit_fields(l, i, pos, head).1 >= head,
    decreases l, l.len() - i,
{
    if 0 <= i < l.len() {
        let one = emit(l[i].1, pos, head);
        lemma_emit_head_ge(l[i].1, pos, head);
        lemma_emit_fields_head_ge(l, i + 1, pos + one.0.len(), one.1);
    }
}

/// The final head of a whole allocation is at least the head after its first
/// layer.
pub proof fn lemma_alloc_head_ge(v: ObjView, pos: nat, head: nat)
    ensures
        alloc_full(v, pos, head).1 >= emit(v, pos, head).1,
        alloc_full(v, pos, head).1 >= head,
        alloc_full(v, pos, head).0.len() >= emit(v, pos, head).0.len(),
    decreases depth(v),
{
    lemma_emit_head_ge(v, pos, head);
    let e = emit(v, pos, head);
    let ds = deferred(v);
    if ds.len() > 0 {
        lemma_layer_group_depth(v);
        lemma_alloc_head_ge(layer_group(ds), pos + e.0.len(), e.1);
    }
}

/// The abstractions of a sequence of objects, pointwise.
pub open spec fn views_of(s: Seq<Object>) -> Seq<ObjView> {
    Seq::new(s.len(), |i: int| view_of(s[i]))
}

/// `deferred_fields` only looks at the fields from the given index on, so a
/// shifted copy of the field list collects the same children.
pub proof fn lemma_deferred_fields_shift(
    a: Seq<(nat, ObjView)>,
    b: Seq<(nat, ObjView)>,
    d: int,
    i: int,
)
    requires
        0 <= d,
        0 <= i,
        b.len() + d == a.len(),
        forall|k: int| 0 <= k < b.len() ==> b[k] == a[k + d],
    ensures
        deferred_fields(a, i + d) == deferred_fields(b, i),
    decreases a.len() - (i + d),
{
    if i + d < a.len() {
        assert(b[i] == a[i + d]);
        lemma_deferred_fields_shift(a, b, d, i + 1);
    }
}

/// Every deferred child of a well-formed object is well-formed.
pub proof fn lemma_deferred_wf(v: ObjView)
    requires
        wf(v),
    ensures
        forall|j: int| 0 <= j < deferred(v).len() ==> wf(#[trigger] deferred(v)[j]),
    decreases v, 0nat,
{
    match v {
        ObjView::Reference(c) => {
            assert forall|j: int| 0 <= j < deferred(v).len() implies wf(
                #[trigger] deferred(v)[j],
            ) by {
                assert(deferred(v)[j] == *c);
            }
        },
        ObjView::Struct(_, l) => {
            lemma_deferred_wf_fields(l, 0);
            assert forall|j: int| 0 <= j < deferred(v).len() implies wf(
                #[trigger] deferred(v)[j],
            ) by {
                assert(deferred(v) == deferred_fields(l, 0));
                assert(wf(deferred_fields(l, 0)[j]));
            }
        },
        ObjView::Bytes(_, _) => {},
    }
}

/// Every deferred child of well-formed fields is well-formed.
pub proof fn lemma_deferred_wf_fields(l: Seq<(nat, ObjView)>, i: int)
    requires
        0 <= i <= l.len(),
        wf_fields(l, i),
    ensures
        forall|j: int|
            0 <= j < deferred_fields(l, i).len() ==> wf(#[trigger] deferred_fields(l, i)[j]),
    decreases l, l.len() - i,
{
    if i < l.len() {
        lemma_deferred_wf(l[i].1);
        lemma_deferred_wf_fields(l, i + 1);
        assert forall|j: int| 0 <= j < deferred_fields(l, i).len() implies wf(
            #[trigger] deferred_fields(l, i)[j],
        ) by {
            let first = deferred(l[i].1);
            if j < first.len() {
                assert(deferred_fields(l, i)[j] == first[j]);
            } else {
                assert(deferred_fields(l, i)[j] == deferred_fields(l, i + 1)[j - first.len()]);
            }
        }
    }
}

/// Fields that are pointwise well-formed are well-formed as a list.
pub proof fn lemma_wf_fields_pointwise(l: Seq<(nat, ObjView)>, i: int)
    requires
        0 <= i <= l.len(),
        forall|k: int| i <= k < l.len() ==> wf(#[trigger] l[k].1),
    ensures
        wf_fields(l, i),
    decreases l.len() - i,
{
    if i < l.len() {
        lemma_wf_fields_pointwise(l, i + 1);
    }
}

/// The synthetic group over well-formed items is well-formed.
pub proof fn lemma_layer_group_wf(items: Seq<ObjView>)
    requires
        forall|k: int| 0 <= k < items.len() ==> wf(#[trigger] items[k]),
    ensures
        wf(layer_group(items)),
{
    let l = with_indices(items);
    assert forall|k: int| 0 <= k < l.len() implies wf(#[trigger] l[k].1) by {
        assert(l[k].1 == items[k]);
    }
    lemma_wf_fields_pointwise(l, 0);
}

impl Object {
    /// Construct a list, or array of objects, from a vector: a group whose
    /// fields carry sequential logical indices in the order given.
    pub fn list(align: usize, objects: Vec<Object>) -> (r: Object)
        ensures
            r@ == ObjView::Struct(align as nat, with_indices(views_of(objects@))),
    {
        let ghost ov = objects@;
        let mut fields: Vec<(usize, Object)> = Vec::new();
        let mut rest = objects;
        while rest.len() > 0
            invariant
                fields@.len() + rest@.len() == ov.len(),
                rest@ == ov.subrange(fields@.len() as int, ov.len() as int),
                forall|k: int|
                    0 <= k < fields@.len() ==> (#[trigger] fields@[k]).0 == k && fields@[k].1
                        == ov[k],
            decreases rest@.len(),
        {
            let ghost done = fields@.len() as int;
            let o = rest.remove(0);
            let i = fields.len();
            fields.push((i, o));
            proof {
                assert(o == ov[done]);
                assert(rest@ =~= ov.subrange(done + 1, ov.len() as int));
            }
        }
        let r = Object::Struct(align, fields);
        proof {
            lemma_view_fields(fields@, 0);
            assert(view_fields(fields@, 0) =~= with_indices(views_of(ov)));
        }
        r
    }

    /// Traverse the top layer of this object and dump it to bytes: pad to
    /// each node's alignment, copy raw bytes, and for each reference write a
    /// big-endian pointer to where its child will be allocated, bumping the
    /// allocation head past the child.
    #[verifier::loop_isolation(false)]
    pub fn dump_layer(&self, binhead: usize, head: &mut usize) -> (bin: Vec<u8>)
        requires
            wf(self@),
            emit(self@, binhead as nat, *old(head) as nat).1 <= u32::MAX,
            binhead + emit(self@, binhead as nat, *old(head) as nat).0.len() <= usize::MAX,
        ensures
            bin@ == emit(self@, binhead as nat, *old(head) as nat).0,
            *final(head) == emit(self@, binhead as nat, *old(head) as nat).1,
        decreases *self,
    {
        let ghost e = emit(self@, binhead as nat, *old(head) as nat);
        proof {
            assert(u32::MAX <= usize::MAX);
        }
        let mut bin: Vec<u8> = Vec::new();
        let own_align = self.alignment();
        let pad = align_amount(binhead, own_align);
        let mut k: usize = 0;
        while k < pad
            invariant
                k <= pad,
                bin@ == zeros(k as nat),
                *head == *old(head),
            decreases pad - k,
        {
            bin.push(0u8);
            proof {
                assert(bin@ =~= zeros((k + 1) as nat));
            }
            k = k + 1;
        }
        match self {
            Object::Reference(obj) => {
                let child: &Object = &**obj;
                proof {
                    assert(self@ == ObjView::Reference(Box::new(child@)));
                    assert(wf(child@));
                    assert(align_v(child@) >= 1);
                    lemma_emit_head_ge(self@, binhead as nat, *old(head) as nat);
                }
                let child_align = child.alignment();
                *head = align(*head, child_align);
                let mut ptr_bytes = dump_int(*head as u32);
                bin.append(&mut ptr_bytes);
                let child_size = child.size();
                *head = *head + child_size;
                proof {
                    assert(bin@ =~= e.0);
                }
            },
            Object::Bytes(_, b) => {
                let mut j: usize = 0;
                while j < b.len()
                    invariant
                        j <= b@.len(),
                        bin@ == zeros(pad as nat) + b@.take(j as int),
                        *head == *old(head),
                    decreases b@.len() - j,
                {
                    bin.push(b[j]);
                    proof {
                        assert(bin@ =~= zeros(pad as nat) + b@.take(j + 1));
                    }
                    j = j + 1;
                }
                proof {
                    assert(b@.take(b@.len() as int) =~= b@);
                    assert(bin@ =~= e.0);
                }
            },
            Object::Struct(_, l) => {
                let ghost fl = view_fields(l@, 0);
                proof {
                    lemma_view_fields(l@, 0);
                }
                let mut i: usize = 0;
                let mut pos: usize = binhead + pad;
                while i < l.len()
                    invariant
                        0 <= i <= l@.len(),
                        pos == binhead + bin@.len(),
                        e.0 == bin@ + emit_fields(fl, i as int, pos as nat, *head as nat).0,
                        e.1 == emit_fields(fl, i as int, pos as nat, *head as nat).1,
                    decreases l@.len() - i,
                {
                    proof {
                        let one = emit(fl[i as int].1, pos as nat, *head as nat);
                        lemma_emit_head_ge(fl[i as int].1, pos as nat, *head as nat);
                        lemma_emit_fields_head_ge(fl, i + 1, pos as nat + one.0.len(), one.1);
                        lemma_wf_fields(fl, 0);
                        assert(decreases_to!(*self => (*self)->Struct_1));
                        assert((*self)->Struct_1 == *l);
                        assert(decreases_to!(*l => l@));
                        assert(decreases_to!(l@ => l@[i as int]));
                        assert(decreases_to!(l@[i as int] => l@[i as int].1));
                        assert(decreases_to!(*self => l@[i as int].1));
                    }
                    let mut chunk = (&l[i].1).dump_layer(pos, head);
                    proof {
                        assert(bin@ + (chunk@ + emit_fields(
                            fl,
                            i + 1,
                            pos as nat + chunk@.len(),
                            *head as nat,
                        ).0) =~= (bin@ + chunk@) + emit_fields(
                            fl,
                            i + 1,
                            pos as nat + chunk@.len(),
                            *head as nat,
                        ).0);
                    }
                    pos = pos + chunk.len();
                    bin.append(&mut chunk);
                    i = i + 1;
                }
                proof {
                    assert(e.0 =~= bin@);
                }
            },
        }
        bin
    }

    /// Move every deferred child of this object, in walk order, onto `out`.
    #[verifier::loop_isolation(false)]
    fn collect_deferred(self, out: &mut Vec<Object>)
        ensures
            views_of(final(out)@) == views_of(old(out)@) + deferred(self@),
        decreases self,
    {
        let ghost orig = self;
        let ghost out0 = old(out)@;
        match self {
            Object::Reference(obj) => {
                out.push(*obj);
                proof {
                    assert(views_of(out@) =~= views_of(out0) + deferred(orig@));
                }
            },
            Object::Struct(_, l) => {
                let ghost l0 = l@;
                let mut rest = l;
                let ghost mut j: int = 0;
                proof {
                    assert(views_of(out@) + deferred_fields(view_fields(rest@, 0), 0) =~= views_of(
                        out0,
                    ) + deferred_fields(view_fields(l0, 0), 0));
                }
                while rest.len() > 0
                    invariant
                        0 <= j <= l0.len(),
                        rest@ == l0.subrange(j, l0.len() as int),
                        views_of(out@) + deferred_fields(view_fields(rest@, 0), 0) == views_of(
                            out0,
                        ) + deferred_fields(view_fields(l0, 0), 0),
                    decreases rest@.len(),
                {
                    let ghost rest_pre = rest@;
                    let ghost fl_pre = view_fields(rest_pre, 0);
                    let pair = rest.remove(0);
                    let o = pair.1;
                    proof {
                        assert(o == l0[j].1);
                        assert(decreases_to!(orig => (orig)->Struct_1));
                        assert(decreases_to!((orig)->Struct_1 => (orig)->Struct_1@));
                        assert((orig)->Struct_1@ == l0);
                        assert(decreases_to!(l0 => l0[j]));
                        assert(decreases_to!(l0[j] => l0[j].1));
                        assert(decreases_to!(orig => o));
                        lemma_view_fields(rest_pre, 0);
                        lemma_view_fields(rest@, 0);
                        assert(fl_pre[0] == (rest_pre[0].0 as nat, view_of(o)));
                        lemma_deferred_fields_shift(fl_pre, view_fields(rest@, 0), 1, 0);
                        assert(deferred_fields(fl_pre, 0) == deferred(view_of(o))
                            + deferred_fields(view_fields(rest@, 0), 0));
                        assert(rest@ =~= l0.subrange(j + 1, l0.len() as int));
                    }
                    let ghost out_pre = out@;
                    o.collect_deferred(out);
                    proof {
                        assert(views_of(out@) == views_of(out_pre) + deferred(view_of(o)));
                        assert(views_of(out@) + deferred_fields(view_fields(rest@, 0), 0)
                            =~= views_of(out_pre) + deferred_fields(fl_pre, 0));
                        j = j + 1;
                    }
                }
                proof {
                    lemma_view_fields(rest@, 0);
                    assert(views_of(out@) =~= views_of(out@) + deferred_fields(
                        view_fields(rest@, 0),
                        0,
                    ));
                    assert(views_of(out@) =~= views_of(out0) + deferred(orig@));
                }
            },
            Object::Bytes(_, _) => {
                proof {
                    assert(views_of(out@) =~= views_of(out0) + deferred(orig@));
                }
            },
        }
    }

    /// Cut off the top layer, making the next one the new top: collect every
    /// deferred child, in walk order, into a synthetic group of alignment 1,
    /// or return `None` if the layer deferred nothing.
    pub fn next_layer(self) -> (r: Option<Object>)
        ensures
            deferred(self@).len() == 0 ==> r is None,
            deferred(self@).len() > 0 ==> (r matches Some(g) && g@ == layer_group(
                deferred(self@),
            )),
    {
        let ghost orig_view = self@;
        let mut items: Vec<Object> = Vec::new();
        self.collect_deferred(&mut items);
        proof {
            assert(views_of(items@) =~= deferred(orig_view));
        }
        if items.len() == 0 {
            None
        } else {
            Some(Object::list(1, items))
        }
    }

    /// Dump every layer of an allocation object into bytes: the allocation
    /// head starts at the end of the top layer, and each round emits one
    /// layer and moves to the group of children that layer deferred, until
    /// none are left.
    pub fn dump(self) -> (bin: Vec<u8>)
        requires
            wf(self@),
            spec_dump(self@).len() <= usize::MAX,
            alloc_full(self@, 0, sz(self@)).1 <= u32::MAX,
        ensures
            bin@ == spec_dump(self@),
    {
        let ghost root = self@;
        let ghost fh = alloc_full(root, 0, sz(root)).1;
        proof {
            assert(u32::MAX <= usize::MAX);
            lemma_emit_head_ge(root, 0, sz(root));
            lemma_alloc_head_ge(root, 0, sz(root));
        }
        let mut bin: Vec<u8> = Vec::new();
        let mut head: usize = self.size();
        let mut layer = self;
        loop
            invariant_except_break
                wf(layer@),
                head <= u32::MAX,
                spec_dump(root).len() <= usize::MAX,
                fh <= u32::MAX,
                u32::MAX <= usize::MAX,
                bin@ + alloc_full(layer@, bin@.len() as nat, head as nat).0 == spec_dump(root),
                alloc_full(layer@, bin@.len() as nat, head as nat).1 == fh,
            ensures
                bin@ == spec_dump(root),
            decreases depth(layer@),
        {
            let ghost lv = layer@;
            let ghost p = bin@.len() as nat;
            let ghost h = head as nat;
            proof {
                lemma_alloc_head_ge(lv, p, h);
                lemma_emit_head_ge(lv, p, h);
            }
            let binlen = bin.len();
            let mut chunk = layer.dump_layer(binlen, &mut head);
            bin.append(&mut chunk);
            let ghost e = emit(lv, p, h);
            match layer.next_layer() {
                Some(next) => {
                    proof {
                        lemma_layer_group_depth(lv);
                        lemma_deferred_wf(lv);
                        assert forall|k: int| 0 <= k < deferred(lv).len() implies wf(
                            #[trigger] deferred(lv)[k],
                        ) by {}
                        lemma_layer_group_wf(deferred(lv));
                        assert(bin@ + alloc_full(next@, bin@.len() as nat, head as nat).0
                            =~= (spec_dump(root)));
                    }
                    layer = next;
                },
                None => {
                    proof {
                        assert(bin@ =~= spec_dump(root));
                    }
                    break;
                },
            }
        }
        bin
    }
}

} // verus!
