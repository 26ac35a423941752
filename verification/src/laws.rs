//! The allocator's guarantees, proved over the model in [`crate::allocator`]:
//! the length of a dumped buffer, and the resolution of every pointer to the
//! offset where its deferred child is placed.

use vstd::prelude::*;
use vstd::arithmetic::div_mod::{lemma_fundamental_div_mod, lemma_mod_multiples_basic};
use crate::allocator::{
    ObjView, align_v, align_up, pad_len, sz, sz_fields, emit, emit_fields, deferred,
    deferred_fields, depth, with_indices, layer_group, alloc_full, spec_dump, be_word, zeros,
    lemma_layer_group_depth, lemma_emit_head_ge, lemma_alloc_head_ge,
};

verus! {

/// Rounding a position up to an alignment lands on a multiple of it.
pub proof fn lemma_align_up_mod(p: nat, a: nat)
    requires
        a >= 1,
    ensures
        align_up(p, a) % a == 0,
        pad_len(align_up(p, a), a) == 0,
{
    if p % a != 0 {
        let q = p as int / a as int;
        lemma_fundamental_div_mod(p as int, a as int);
        assert(align_up(p, a) == a * q + a);
        assert(a * q + a == a * (q + 1)) by (nonlinear_arith);
        lemma_mod_multiples_basic(q + 1, a as int);
    }
}

/// An object placed at `pos` emits no padding anywhere inside its own layer:
/// `pos` satisfies its alignment, and in a group every field lands, at the
/// running offset given by the sizes before it, on its own alignment. The
/// payload of a reference is only required to fit wherever its own alignment
/// puts it, since the allocator chooses that position later.
pub open spec fn fits(v: ObjView, pos: nat) -> bool
    decreases v, 0nat,
{
    &&& align_v(v) >= 1
    &&& pos % align_v(v) == 0
    &&& match v {
        ObjView::Reference(c) => aligned_any(*c),
        ObjView::Struct(_, l) => fits_fields(l, 0, pos),
        ObjView::Bytes(_, _) => true,
    }
}

/// The fields from index `i` on fit at the running position `pos`, packed
/// with no padding between them.
pub open spec fn fits_fields(l: Seq<(nat, ObjView)>, i: int, pos: nat) -> bool
    decreases l, l.len() - i,
{
    if i < 0 || i >= l.len() {
        true
    } else {
        fits(l[i].1, pos) && fits_fields(l, i + 1, pos + sz(l[i].1))
    }
}

/// The object fits at every position that satisfies its own alignment: its
/// alignment is meaningful, and in a group each field's alignment divides
/// both the group's alignment and the field's offset, so that any aligned
/// start keeps every field aligned.
pub open spec fn aligned_any(v: ObjView) -> bool
    decreases v, 0nat,
{
    &&& align_v(v) >= 1
    &&& match v {
        ObjView::Reference(c) => aligned_any(*c),
        ObjView::Struct(a, l) => aligned_any_fields(l, 0, 0, a),
        ObjView::Bytes(_, _) => true,
    }
}

/// Field-by-field condition for `aligned_any`, at running offset `off`
/// within a group of alignment `a`.
pub open spec fn aligned_any_fields(l: Seq<(nat, ObjView)>, i: int, off: nat, a: nat) -> bool
    decreases l, l.len() - i,
{
    if i < 0 || i >= l.len() {
        true
    } else {
        &&& a % align_v(l[i].1) == 0
        &&& off % align_v(l[i].1) == 0
        &&& aligned_any(l[i].1)
        &&& aligned_any_fields(l, i + 1, off + sz(l[i].1), a)
    }
}

/// A multiple of a multiple of `d` is a multiple of `d`.
pub proof fn lemma_mod_chain(p: nat, a: nat, d: nat)
    requires
        a >= 1,
        d >= 1,
        p % a == 0,
        a % d == 0,
    ensures
        p % d == 0,
{
    lemma_fundamental_div_mod(p as int, a as int);
    lemma_fundamental_div_mod(a as int, d as int);
    let x = p as int / a as int;
    let y = a as int / d as int;
    assert(p == (d * y) * x);
    assert((d * y) * x == (y * x) * d) by (nonlinear_arith);
    lemma_mod_multiples_basic(y * x, d as int);
}

/// A sum of multiples of `d` is a multiple of `d`.
pub proof fn lemma_mod_add_zero(x: nat, y: nat, d: nat)
    requires
        d >= 1,
        x % d == 0,
        y % d == 0,
    ensures
        (x + y) % d == 0,
{
    lemma_fundamental_div_mod(x as int, d as int);
    lemma_fundamental_div_mod(y as int, d as int);
    let qx = x as int / d as int;
    let qy = y as int / d as int;
    assert(x + y == d * qx + d * qy);
    assert(d * qx + d * qy == (qx + qy) * d) by (nonlinear_arith);
    lemma_mod_multiples_basic(qx + qy, d as int);
}

/// An object that fits anywhere aligned fits at each aligned position.
pub proof fn lemma_aligned_any_fits(v: ObjView, pos: nat)
    requires
        aligned_any(v),
        pos % align_v(v) == 0,
    ensures
        fits(v, pos),
    decreases v, 0nat,
{
    match v {
        ObjView::Reference(_) => {},
        ObjView::Struct(a, l) => {
            lemma_aligned_any_fits_fields(l, 0, 0, a, pos);
        },
        ObjView::Bytes(_, _) => {},
    }
}

/// Fields that satisfy the divisibility conditions fit at the concrete
/// positions a group start aligned to `a` gives them.
pub proof fn lemma_aligned_any_fits_fields(
    l: Seq<(nat, ObjView)>,
    i: int,
    off: nat,
    a: nat,
    pos: nat,
)
    requires
        a >= 1,
        pos % a == 0,
        aligned_any_fields(l, i, off, a),
    ensures
        fits_fields(l, i, pos + off),
    decreases l, l.len() - i,
{
    if 0 <= i < l.len() {
        let d = align_v(l[i].1);
        assert(aligned_any(l[i].1));
        assert(d >= 1);
        lemma_mod_chain(pos, a, d);
        lemma_mod_add_zero(pos, off, d);
        lemma_aligned_any_fits(l[i].1, pos + off);
        lemma_aligned_any_fits_fields(l, i + 1, off + sz(l[i].1), a, pos);
    }
}

/// Every child deferred by an object that fits anywhere aligned itself fits
/// anywhere aligned.
pub proof fn lemma_aligned_any_targets(v: ObjView)
    requires
        aligned_any(v),
    ensures
        targets_aligned(v),
    decreases v, 0nat,
{
    match v {
        ObjView::Reference(c) => {
            assert forall|j: int| 0 <= j < deferred(v).len() implies #[trigger] aligned_any(
                deferred(v)[j],
            ) by {
                assert(deferred(v)[j] == *c);
            }
        },
        ObjView::Struct(a, l) => {
            lemma_aligned_any_targets_fields(l, 0, 0, a);
            assert forall|j: int| 0 <= j < deferred(v).len() implies #[trigger] aligned_any(
                deferred(v)[j],
            ) by {
                assert(deferred(v) == deferred_fields(l, 0));
                assert(aligned_any(deferred_fields(l, 0)[j]));
            }
        },
        ObjView::Bytes(_, _) => {},
    }
}

/// Every child deferred by fields under the divisibility conditions fits
/// anywhere aligned.
pub proof fn lemma_aligned_any_targets_fields(l: Seq<(nat, ObjView)>, i: int, off: nat, a: nat)
    requires
        0 <= i <= l.len(),
        aligned_any_fields(l, i, off, a),
    ensures
        forall|j: int|
            0 <= j < deferred_fields(l, i).len() ==> #[trigger] aligned_any(
                deferred_fields(l, i)[j],
            ),
    decreases l, l.len() - i,
{
    if i < l.len() {
        lemma_aligned_any_targets(l[i].1);
        lemma_aligned_any_targets_fields(l, i + 1, off + sz(l[i].1), a);
        assert forall|j: int| 0 <= j < deferred_fields(l, i).len() implies #[trigger] aligned_any(
            deferred_fields(l, i)[j],
        ) by {
            let first = deferred(l[i].1);
            if j < first.len() {
                assert(deferred_fields(l, i)[j] == first[j]);
            } else {
                assert(deferred_fields(l, i)[j] == deferred_fields(l, i + 1)[j - first.len()]);
            }
        }
    }
}

/// Every child this object defers fits wherever its alignment puts it.
pub open spec fn targets_aligned(v: ObjView) -> bool {
    forall|j: int| 0 <= j < deferred(v).len() ==> #[trigger] aligned_any(deferred(v)[j])
}

/// An object that fits emits exactly its size: the padding inside is zero.
pub proof fn lemma_fits_len(v: ObjView, pos: nat, head: nat)
    requires
        fits(v, pos),
    ensures
        emit(v, pos, head).0.len() == sz(v),
    decreases v, 0nat,
{
    match v {
        ObjView::Reference(_) => {},
        ObjView::Struct(_, l) => {
            lemma_fits_len_fields(l, 0, pos, head);
        },
        ObjView::Bytes(_, _) => {},
    }
}

/// Fields that fit emit exactly their total size.
pub proof fn lemma_fits_len_fields(l: Seq<(nat, ObjView)>, i: int, pos: nat, head: nat)
    requires
        fits_fields(l, i, pos),
    ensures
        emit_fields(l, i, pos, head).0.len() == sz_fields(l, i),
    decreases l, l.len() - i,
{
    if 0 <= i < l.len() {
        lemma_fits_len(l[i].1, pos, head);
        let one = emit(l[i].1, pos, head);
        lemma_fits_len_fields(l, i + 1, pos + one.0.len(), one.1);
    }
}

/// Every child deferred by a fitting object fits wherever its alignment puts
/// it.
pub proof fn lemma_fits_targets(v: ObjView, pos: nat)
    requires
        fits(v, pos),
    ensures
        targets_aligned(v),
    decreases v, 0nat,
{
    match v {
        ObjView::Reference(c) => {
            assert forall|j: int| 0 <= j < deferred(v).len() implies #[trigger] aligned_any(
                deferred(v)[j],
            ) by {
                assert(deferred(v)[j] == *c);
            }
        },
        ObjView::Struct(_, l) => {
            lemma_fits_targets_fields(l, 0, pos);
            assert forall|j: int| 0 <= j < deferred(v).len() implies #[trigger] aligned_any(
                deferred(v)[j],
            ) by {
                assert(deferred(v) == deferred_fields(l, 0));
                assert(aligned_any(deferred_fields(l, 0)[j]));
            }
        },
        ObjView::Bytes(_, _) => {},
    }
}

/// Every child deferred by fitting fields fits wherever its alignment puts
/// it.
pub proof fn lemma_fits_targets_fields(l: Seq<(nat, ObjView)>, i: int, pos: nat)
    requires
        0 <= i <= l.len(),
        fits_fields(l, i, pos),
    ensures
        forall|j: int|
            0 <= j < deferred_fields(l, i).len() ==> #[trigger] aligned_any(
                deferred_fields(l, i)[j],
            ),
    decreases l, l.len() - i,
{
    if i < l.len() {
        lemma_fits_targets(l[i].1, pos);
        lemma_fits_targets_fields(l, i + 1, pos + sz(l[i].1));
        assert forall|j: int| 0 <= j < deferred_fields(l, i).len() implies #[trigger] aligned_any(
            deferred_fields(l, i)[j],
        ) by {
            let first = deferred(l[i].1);
            if j < first.len() {
                assert(deferred_fields(l, i)[j] == first[j]);
            } else {
                assert(deferred_fields(l, i)[j] == deferred_fields(l, i + 1)[j - first.len()]);
            }
        }
    }
}

/// The allocation head after bumping it past the items from index `i` on:
/// for each item, round up to its alignment, then advance by its size. This
/// is both how pointers are assigned and where the next layer's emission
/// places each item's content.
pub open spec fn bump(items: Seq<ObjView>, i: int, h: nat) -> nat
    decreases items.len() - i,
{
    if i < 0 || i >= items.len() {
        h
    } else {
        bump(items, i + 1, align_up(h, align_v(items[i])) + sz(items[i]))
    }
}

/// The aligned offset each item from index `i` on receives when the items
/// are laid out one after another starting at head `h`.
pub open spec fn starts(items: Seq<ObjView>, i: int, h: nat) -> Seq<nat>
    decreases items.len() - i,
{
    if i < 0 || i >= items.len() {
        Seq::empty()
    } else {
        seq![align_up(h, align_v(items[i]))] + starts(
            items,
            i + 1,
            align_up(h, align_v(items[i])) + sz(items[i]),
        )
    }
}

/// The bump never moves backwards.
pub proof fn lemma_bump_ge(items: Seq<ObjView>, i: int, h: nat)
    ensures
        bump(items, i, h) >= h,
    decreases items.len() - i,
{
    if 0 <= i < items.len() {
        lemma_bump_ge(items, i + 1, align_up(h, align_v(items[i])) + sz(items[i]));
    }
}

/// There is one start per item; each is at or past the head, lands on its
/// item's alignment when that alignment is meaningful, and leaves room for
/// its item's size before the final bump.
pub proof fn lemma_starts_props(items: Seq<ObjView>, i: int, h: nat)
    requires
        0 <= i <= items.len(),
    ensures
        starts(items, i, h).len() == items.len() - i,
        forall|j: int|
            0 <= j < items.len() - i ==> {
                let s = #[trigger] starts(items, i, h)[j];
                &&& h <= s
                &&& align_v(items[i + j]) >= 1 ==> s % align_v(items[i + j]) == 0
                &&& s + sz(items[i + j]) <= bump(items, i, h)
            },
    decreases items.len() - i,
{
    if i < items.len() {
        let a = align_v(items[i]);
        let s0 = align_up(h, a);
        let h2 = s0 + sz(items[i]);
        if a >= 1 {
            lemma_align_up_mod(h, a);
        }
        lemma_starts_props(items, i + 1, h2);
        lemma_bump_ge(items, i + 1, h2);
        assert forall|j: int| 0 <= j < items.len() - i implies {
            let s = #[trigger] starts(items, i, h)[j];
            &&& h <= s
            &&& align_v(items[i + j]) >= 1 ==> s % align_v(items[i + j]) == 0
            &&& s + sz(items[i + j]) <= bump(items, i, h)
        } by {
            if j == 0 {
                assert(starts(items, i, h)[0] == s0);
            } else {
                assert(starts(items, i, h)[j] == starts(items, i + 1, h2)[j - 1]);
            }
        }
    }
}

/// `bump` only looks at the items from the given index on, so a shifted copy
/// of the item list bumps the head the same way.
pub proof fn lemma_bump_shift(x: Seq<ObjView>, y: Seq<ObjView>, d: int, i: int, h: nat)
    requires
        0 <= d,
        0 <= i,
        y.len() + d == x.len(),
        forall|k: int| 0 <= k < y.len() ==> y[k] == x[k + d],
    ensures
        bump(x, i + d, h) == bump(y, i, h),
    decreases x.len() - (i + d),
{
    if i + d < x.len() {
        assert(y[i] == x[i + d]);
        lemma_bump_shift(x, y, d, i + 1, align_up(h, align_v(y[i])) + sz(y[i]));
    }
}

/// `starts` only looks at the items from the given index on.
pub proof fn lemma_starts_shift(x: Seq<ObjView>, y: Seq<ObjView>, d: int, i: int, h: nat)
    requires
        0 <= d,
        0 <= i,
        y.len() + d == x.len(),
        forall|k: int| 0 <= k < y.len() ==> y[k] == x[k + d],
    ensures
        starts(x, i + d, h) == starts(y, i, h),
    decreases x.len() - (i + d),
{
    if i + d < x.len() {
        assert(y[i] == x[i + d]);
        lemma_starts_shift(x, y, d, i + 1, align_up(h, align_v(y[i])) + sz(y[i]));
    }
}

/// Bumping past a concatenation bumps past the first part, then the second.
pub proof fn lemma_bump_concat(a: Seq<ObjView>, b: Seq<ObjView>, i: int, h: nat)
    requires
        0 <= i <= a.len(),
    ensures
        bump(a + b, i, h) == bump(b, 0, bump(a, i, h)),
    decreases a.len() - i,
{
    if i == a.len() {
        lemma_bump_shift(a + b, b, a.len() as int, 0, h);
    } else {
        assert((a + b)[i] == a[i]);
        lemma_bump_concat(a, b, i + 1, align_up(h, align_v(a[i])) + sz(a[i]));
    }
}

/// The starts of a concatenation are the starts of the first part followed
/// by the starts of the second from the bumped head.
pub proof fn lemma_starts_concat(a: Seq<ObjView>, b: Seq<ObjView>, i: int, h: nat)
    requires
        0 <= i <= a.len(),
    ensures
        starts(a + b, i, h) == starts(a, i, h) + starts(b, 0, bump(a, i, h)),
    decreases a.len() - i,
{
    if i == a.len() {
        lemma_starts_shift(a + b, b, a.len() as int, 0, h);
        assert(starts(a, i, h) + starts(b, 0, h) =~= starts(b, 0, h));
    } else {
        assert((a + b)[i] == a[i]);
        let h2 = align_up(h, align_v(a[i])) + sz(a[i]);
        lemma_starts_concat(a, b, i + 1, h2);
        assert(starts(a + b, i, h) =~= starts(a, i, h) + starts(b, 0, bump(a, i, h)));
    }
}

/// The pointer records of one layer walk, in walk order: for every reference
/// encountered, the buffer position of its 4 pointer bytes, the target
/// offset those bytes carry, and the deferred child itself.
pub open spec fn ptr_recs(v: ObjView, pos: nat, head: nat) -> Seq<(nat, nat, ObjView)>
    decreases v, 0nat,
{
    match v {
        ObjView::Reference(c) => seq![
            (pos + pad_len(pos, 4), align_up(head, align_v(*c)), *c),
        ],
        ObjView::Struct(a, l) => ptr_recs_fields(l, 0, pos + pad_len(pos, a), head),
        ObjView::Bytes(_, _) => Seq::empty(),
    }
}

/// The pointer records of the fields from index `i` on, threading position
/// and head exactly as the emission does.
pub open spec fn ptr_recs_fields(l: Seq<(nat, ObjView)>, i: int, pos: nat, head: nat) -> Seq<
    (nat, nat, ObjView),
>
    decreases l, l.len() - i,
{
    if i < 0 || i >= l.len() {
        Seq::empty()
    } else {
        let one = emit(l[i].1, pos, head);
        ptr_recs(l[i].1, pos, head) + ptr_recs_fields(l, i + 1, pos + one.0.len(), one.1)
    }
}

/// One layer walk, related to its deferred children: the head ends exactly
/// where bumping it past the children puts it, and the walk writes one
/// pointer record per deferred child, in order, whose target offset is that
/// child's assigned start, and whose 4 big-endian bytes sit in the emitted
/// bytes at the recorded position.
pub proof fn lemma_walk(v: ObjView, pos: nat, head: nat)
    ensures
        emit(v, pos, head).1 == bump(deferred(v), 0, head),
        ptr_recs(v, pos, head).len() == deferred(v).len(),
        forall|j: int|
            0 <= j < deferred(v).len() ==> {
                let r = #[trigger] ptr_recs(v, pos, head)[j];
                &&& r.1 == starts(deferred(v), 0, head)[j]
                &&& r.2 == deferred(v)[j]
                &&& pos <= r.0
                &&& r.0 + 4 <= pos + emit(v, pos, head).0.len()
                &&& emit(v, pos, head).0.subrange(r.0 - pos, r.0 - pos + 4) == be_word(
                    r.1 as u32,
                )
            },
    decreases v, 0nat,
{
    match v {
        ObjView::Reference(c) => {
            let e = emit(v, pos, head);
            let ds = deferred(v);
            assert(ds == seq![*c]);
            assert(bump(ds, 0, head) == bump(ds, 1, align_up(head, align_v(*c)) + sz(*c)));
            assert(starts(ds, 0, head)[0] == align_up(head, align_v(*c)));
            assert forall|j: int| 0 <= j < ds.len() implies {
                let r = #[trigger] ptr_recs(v, pos, head)[j];
                &&& r.1 == starts(ds, 0, head)[j]
                &&& r.2 == ds[j]
                &&& pos <= r.0
                &&& r.0 + 4 <= pos + e.0.len()
                &&& e.0.subrange(r.0 - pos, r.0 - pos + 4) == be_word(r.1 as u32)
            } by {
                let r = ptr_recs(v, pos, head)[0];
                let pad = pad_len(pos, 4);
                assert(e.0.len() == pad + 4);
                assert(e.0.subrange(pad as int, pad as int + 4) =~= be_word(r.1 as u32));
            }
        },
        ObjView::Struct(a, l) => {
            lemma_walk_fields(l, 0, pos + pad_len(pos, a), head);
            let pad = pad_len(pos, a);
            let inner = emit_fields(l, 0, pos + pad, head);
            let e = emit(v, pos, head);
            let ds = deferred(v);
            assert(ds == deferred_fields(l, 0));
            assert forall|j: int| 0 <= j < ds.len() implies {
                let r = #[trigger] ptr_recs(v, pos, head)[j];
                &&& r.1 == starts(ds, 0, head)[j]
                &&& r.2 == ds[j]
                &&& pos <= r.0
                &&& r.0 + 4 <= pos + e.0.len()
                &&& e.0.subrange(r.0 - pos, r.0 - pos + 4) == be_word(r.1 as u32)
            } by {
                let r = ptr_recs_fields(l, 0, pos + pad, head)[j];
                assert(r.1 == starts(ds, 0, head)[j] && r.2 == ds[j]);
                assert(pos + pad <= r.0 && r.0 + 4 <= pos + pad + inner.0.len());
                assert(inner.0.subrange(r.0 - (pos + pad), r.0 - (pos + pad) + 4) == be_word(
                    r.1 as u32,
                ));
                assert(e.0.subrange(r.0 - pos, r.0 - pos + 4) =~= inner.0.subrange(
                    r.0 - (pos + pad),
                    r.0 - (pos + pad) + 4,
                ));
            }
        },
        ObjView::Bytes(_, _) => {},
    }
}

/// The layer walk of a field list, related to its deferred children.
pub proof fn lemma_walk_fields(l: Seq<(nat, ObjView)>, i: int, pos: nat, head: nat)
    requires
        0 <= i <= l.len(),
    ensures
        emit_fields(l, i, pos, head).1 == bump(deferred_fields(l, i), 0, head),
        ptr_recs_fields(l, i, pos, head).len() == deferred_fields(l, i).len(),
        forall|j: int|
            0 <= j < deferred_fields(l, i).len() ==> {
                let r = #[trigger] ptr_recs_fields(l, i, pos, head)[j];
                &&& r.1 == starts(deferred_fields(l, i), 0, head)[j]
                &&& r.2 == deferred_fields(l, i)[j]
                &&& pos <= r.0
                &&& r.0 + 4 <= pos + emit_fields(l, i, pos, head).0.len()
                &&& emit_fields(l, i, pos, head).0.subrange(r.0 - pos, r.0 - pos + 4) == be_word(
                    r.1 as u32,
                )
            },
    decreases l, l.len() - i,
{
    if i < l.len() {
        let one = emit(l[i].1, pos, head);
        let d1 = deferred(l[i].1);
        let d2 = deferred_fields(l, i + 1);
        let pos2 = pos + one.0.len();
        lemma_walk(l[i].1, pos, head);
        lemma_walk_fields(l, i + 1, pos2, one.1);
        lemma_bump_concat(d1, d2, 0, head);
        lemma_starts_concat(d1, d2, 0, head);
        lemma_starts_props(d1, 0, head);
        lemma_starts_props(d2, 0, one.1);
        let whole = emit_fields(l, i, pos, head);
        let rest = emit_fields(l, i + 1, pos2, one.1);
        let r1 = ptr_recs(l[i].1, pos, head);
        let r2 = ptr_recs_fields(l, i + 1, pos2, one.1);
        assert(deferred_fields(l, i) == d1 + d2);
        assert(whole.1 == bump(deferred_fields(l, i), 0, head));
        assert forall|j: int| 0 <= j < deferred_fields(l, i).len() implies {
            let r = #[trigger] ptr_recs_fields(l, i, pos, head)[j];
            &&& r.1 == starts(deferred_fields(l, i), 0, head)[j]
            &&& r.2 == deferred_fields(l, i)[j]
            &&& pos <= r.0
            &&& r.0 + 4 <= pos + whole.0.len()
            &&& whole.0.subrange(r.0 - pos, r.0 - pos + 4) == be_word(r.1 as u32)
        } by {
            let ds = d1 + d2;
            let ss = starts(ds, 0, head);
            if j < d1.len() {
                let r = r1[j];
                assert(ptr_recs_fields(l, i, pos, head)[j] == r);
                assert(ds[j] == d1[j]);
                assert(ss[j] == starts(d1, 0, head)[j]);
                assert(whole.0.subrange(r.0 - pos, r.0 - pos + 4) =~= one.0.subrange(
                    r.0 - pos,
                    r.0 - pos + 4,
                ));
            } else {
                let r = r2[j - d1.len()];
                assert(ptr_recs_fields(l, i, pos, head)[j] == r);
                assert(ds[j] == d2[j - d1.len()]);
                assert(ss[j] == starts(d2, 0, bump(d1, 0, head))[j - d1.len()]);
                assert(bump(d1, 0, head) == one.1);
                assert(whole.0.subrange(r.0 - pos, r.0 - pos + 4) =~= rest.0.subrange(
                    r.0 - pos2,
                    r.0 - pos2 + 4,
                ));
            }
        }
    }
}


/// Emitting at an unaligned position is the leading padding followed by the
/// emission at the rounded-up position; the head does not see the shift.
pub proof fn lemma_emit_at_pad(v: ObjView, pos: nat, head: nat)
    requires
        align_v(v) >= 1,
    ensures
        emit(v, pos, head).0 == zeros(pad_len(pos, align_v(v))) + emit(
            v,
            align_up(pos, align_v(v)),
            head,
        ).0,
        emit(v, pos, head).1 == emit(v, align_up(pos, align_v(v)), head).1,
{
    let a = align_v(v);
    let q = align_up(pos, a);
    lemma_align_up_mod(pos, a);
    match v {
        ObjView::Reference(c) => {
            assert(emit(v, pos, head).0 =~= zeros(pad_len(pos, a)) + emit(v, q, head).0);
        },
        ObjView::Struct(_, l) => {
            assert(emit(v, pos, head).0 =~= zeros(pad_len(pos, a)) + emit(v, q, head).0);
        },
        ObjView::Bytes(_, b) => {
            assert(emit(v, pos, head).0 =~= zeros(pad_len(pos, a)) + emit(v, q, head).0);
        },
    }
}

/// The head after a layer walk does not depend on the position the walk
/// started at.
pub proof fn lemma_emit_head_pos(v: ObjView, p1: nat, p2: nat, head: nat)
    ensures
        emit(v, p1, head).1 == emit(v, p2, head).1,
    decreases v, 0nat,
{
    match v {
        ObjView::Reference(_) => {},
        ObjView::Struct(a, l) => {
            lemma_emit_fields_head_pos(l, 0, p1 + pad_len(p1, a), p2 + pad_len(p2, a), head);
        },
        ObjView::Bytes(_, _) => {},
    }
}

/// The head after emitting fields does not depend on their positions.
pub proof fn lemma_emit_fields_head_pos(
    l: Seq<(nat, ObjView)>,
    i: int,
    p1: nat,
    p2: nat,
    head: nat,
)
    ensures
        emit_fields(l, i, p1, head).1 == emit_fields(l, i, p2, head).1,
    decreases l, l.len() - i,
{
    if 0 <= i < l.len() {
        lemma_emit_head_pos(l[i].1, p1, p2, head);
        let one1 = emit(l[i].1, p1, head);
        let one2 = emit(l[i].1, p2, head);
        lemma_emit_fields_head_pos(l, i + 1, p1 + one1.0.len(), p2 + one2.0.len(), one1.1);
    }
}

/// The head the emission of a member list carries when it reaches member
/// `j`, threading each earlier member's head effect (which does not depend
/// on positions).
pub open spec fn head_at(items: Seq<ObjView>, i: int, head: nat, j: int) -> nat
    decreases j - i,
{
    if j <= i || i < 0 || i >= items.len() {
        head
    } else {
        head_at(items, i + 1, emit(items[i], 0, head).1, j)
    }
}

/// When the items of a synthetic layer group all fit wherever their
/// alignment puts them, the group's emission from any position is exactly
/// the bump recurrence: it ends where bumping the head past the items
/// ends, and each item's bytes sit, padding-free, exactly at the start the
/// recurrence assigns to it.
pub proof fn lemma_members_emit(items: Seq<ObjView>, i: int, pos: nat, head: nat)
    requires
        0 <= i <= items.len(),
        forall|k: int| i <= k < items.len() ==> #[trigger] aligned_any(items[k]),
    ensures
        pos + emit_fields(with_indices(items), i, pos, head).0.len() == bump(items, i, pos),
        forall|j: int|
            #![trigger head_at(items, i, head, j)]
            i <= j < items.len() ==> {
                let s = starts(items, i, pos)[j - i];
                let sub = emit_fields(with_indices(items), i, pos, head).0;
                &&& pos <= s
                &&& s - pos + sz(items[j]) <= sub.len()
                &&& sub.subrange(s - pos, s - pos + sz(items[j])) == emit(
                    items[j],
                    s,
                    head_at(items, i, head, j),
                ).0
            },
    decreases items.len() - i,
{
    if i < items.len() {
        let wi = with_indices(items);
        assert(wi[i].1 == items[i]);
        assert(aligned_any(items[i]));
        let a = align_v(items[i]);
        let q = align_up(pos, a);
        lemma_align_up_mod(pos, a);
        assert(q % align_v(items[i]) == 0);
        lemma_aligned_any_fits(items[i], q);
        lemma_emit_at_pad(items[i], pos, head);
        lemma_fits_len(items[i], q, head);
        let one = emit(items[i], pos, head);
        assert(one.0.len() == pad_len(pos, a) + sz(items[i]));
        let pos2 = pos + one.0.len();
        lemma_members_emit(items, i + 1, pos2 as nat, one.1);
        lemma_starts_props(items, i, pos);
        lemma_starts_props(items, i + 1, pos2 as nat);
        lemma_emit_head_pos(items[i], pos, 0, head);
        let whole = emit_fields(wi, i, pos, head);
        let rest = emit_fields(wi, i + 1, pos2 as nat, one.1);
        assert forall|j: int| #![trigger head_at(items, i, head, j)] i <= j < items.len() implies {
            let s = starts(items, i, pos)[j - i];
            let sub = emit_fields(wi, i, pos, head).0;
            &&& pos <= s
            &&& s - pos + sz(items[j]) <= sub.len()
            &&& sub.subrange(s - pos, s - pos + sz(items[j])) == emit(
                items[j],
                s,
                head_at(items, i, head, j),
            ).0
        } by {
            if j == i {
                assert(starts(items, i, pos)[0] == q);
                assert(head_at(items, i, head, i) == head);
                assert(whole.0.subrange(q - pos, q - pos + sz(items[i])) =~= emit(
                    items[i],
                    q,
                    head,
                ).0);
            } else {
                assert(starts(items, i, pos)[j - i] == starts(items, i + 1, pos2 as nat)[j - i
                    - 1]);
                let s = starts(items, i + 1, pos2 as nat)[j - i - 1];
                assert(pos2 <= s);
                assert(head_at(items, i, head, j) == head_at(items, i + 1, one.1, j));
                assert(whole.0.subrange(s - pos, s - pos + sz(items[j])) =~= rest.0.subrange(
                    s - pos2,
                    s - pos2 + sz(items[j]),
                ));
            }
        }
    }
}

/// Every child deferred by fields whose objects fit anywhere aligned also
/// fits wherever its alignment puts it.
pub proof fn lemma_targets_fields(l: Seq<(nat, ObjView)>, i: int)
    requires
        0 <= i <= l.len(),
        forall|k: int| i <= k < l.len() ==> #[trigger] aligned_any(l[k].1),
    ensures
        forall|j: int|
            0 <= j < deferred_fields(l, i).len() ==> #[trigger] aligned_any(
                deferred_fields(l, i)[j],
            ),
    decreases l.len() - i,
{
    if i < l.len() {
        assert(aligned_any(l[i].1));
        lemma_aligned_any_targets(l[i].1);
        lemma_targets_fields(l, i + 1);
        assert forall|j: int| 0 <= j < deferred_fields(l, i).len() implies #[trigger] aligned_any(
            deferred_fields(l, i)[j],
        ) by {
            let first = deferred(l[i].1);
            if j < first.len() {
                assert(deferred_fields(l, i)[j] == first[j]);
            } else {
                assert(deferred_fields(l, i)[j] == deferred_fields(l, i + 1)[j - first.len()]);
            }
        }
    }
}

/// The synthetic layer group over items that fit anywhere aligned defers
/// only children that fit anywhere aligned.
pub proof fn lemma_members_targets(items: Seq<ObjView>)
    requires
        forall|k: int| 0 <= k < items.len() ==> #[trigger] aligned_any(items[k]),
    ensures
        targets_aligned(layer_group(items)),
{
    let wi = with_indices(items);
    assert forall|k: int| 0 <= k < wi.len() implies aligned_any(#[trigger] wi[k].1) by {
        assert(wi[k].1 == items[k]);
    }
    lemma_targets_fields(wi, 0);
    assert forall|j: int| 0 <= j < deferred(layer_group(items)).len() implies #[trigger] aligned_any(
        deferred(layer_group(items))[j],
    ) by {
        assert(deferred(layer_group(items)) == deferred_fields(wi, 0));
        assert(aligned_any(deferred_fields(wi, 0)[j]));
    }
}

/// Under the bump invariant -- the head sits exactly at the end of the
/// current layer's bytes -- each round of the allocation keeps it, and the
/// finished buffer ends exactly at the final head: every deferred payload
/// lands where the head said it would, with no slack after the last one.
pub proof fn lemma_alloc_len(v: ObjView, pos: nat, head: nat)
    requires
        targets_aligned(v),
        head == pos + emit(v, pos, head).0.len(),
    ensures
        pos + alloc_full(v, pos, head).0.len() == alloc_full(v, pos, head).1,
    decreases depth(v),
{
    let e = emit(v, pos, head);
    let ds = deferred(v);
    lemma_walk(v, pos, head);
    if ds.len() == 0 {
        assert(bump(ds, 0, head) == head);
    } else {
        lemma_layer_group_depth(v);
        let next = layer_group(ds);
        let pos2 = pos + e.0.len();
        lemma_members_emit(ds, 0, head, e.1);
        assert(head % 1 == 0);
        assert(pad_len(pos2 as nat, 1) == 0);
        let inner = emit_fields(with_indices(ds), 0, pos2 as nat, e.1);
        assert(emit(next, pos2 as nat, e.1).0 == zeros(0) + inner.0);
        assert((zeros(0) + inner.0).len() == inner.0.len());
        assert(e.1 == pos2 + emit(next, pos2 as nat, e.1).0.len());
        lemma_members_targets(ds);
        lemma_alloc_len(next, pos2 as nat, e.1);
    }
}

/// The buffer an object dumps to is exactly as long as the allocation
/// head's final value: the object's own size plus, for every transitively
/// deferred payload, its alignment padding and its size, with no trailing
/// slack. This holds for any object that fits at position 0.
pub proof fn lemma_dump_len(v: ObjView)
    requires
        fits(v, 0),
    ensures
        spec_dump(v).len() == alloc_full(v, 0, sz(v)).1,
        alloc_full(v, 0, sz(v)).1 >= sz(v),
{
    lemma_fits_len(v, 0, sz(v));
    lemma_fits_targets(v, 0);
    lemma_alloc_len(v, 0, sz(v));
    lemma_emit_head_ge(v, 0, sz(v));
    lemma_alloc_head_ge(v, 0, sz(v));
}


/// Every pointer record of the whole allocation, layer after layer: the
/// records of the first layer's walk, then those of the run that starts
/// from the deferred children.
pub open spec fn all_links(v: ObjView, pos: nat, head: nat) -> Seq<(nat, nat, ObjView)>
    decreases depth(v),
    via all_links_dec
{
    let e = emit(v, pos, head);
    let ds = deferred(v);
    if ds.len() == 0 {
        ptr_recs(v, pos, head)
    } else {
        ptr_recs(v, pos, head) + all_links(layer_group(ds), pos + e.0.len(), e.1)
    }
}

#[via_fn]
proof fn all_links_dec(v: ObjView, pos: nat, head: nat) {
    if deferred(v).len() > 0 {
        lemma_layer_group_depth(v);
    }
}

/// Pointer resolution over the whole buffer: under the bump invariant, each
/// pointer of each layer carries, as a 4-byte big-endian word at its
/// recorded position, a target offset that lies at or past the head of its
/// layer, is a multiple of its child's alignment, and leaves room for the
/// child's bytes before the final head.
pub proof fn lemma_alloc_pointers(v: ObjView, pos: nat, head: nat)
    requires
        targets_aligned(v),
        head == pos + emit(v, pos, head).0.len(),
    ensures
        forall|j: int|
            0 <= j < all_links(v, pos, head).len() ==> {
                let r = #[trigger] all_links(v, pos, head)[j];
                let buf = alloc_full(v, pos, head).0;
                &&& pos <= r.0
                &&& r.0 + 4 <= pos + buf.len()
                &&& buf.subrange(r.0 - pos, r.0 - pos + 4) == be_word(r.1 as u32)
                &&& align_v(r.2) >= 1
                &&& r.1 % align_v(r.2) == 0
                &&& head <= r.1
                &&& r.1 + sz(r.2) <= alloc_full(v, pos, head).1
                &&& exists|h: nat|
                    buf.subrange(r.1 - pos, r.1 - pos + sz(r.2)) == #[trigger] emit(
                        r.2,
                        r.1,
                        h,
                    ).0
            },
    decreases depth(v),
{
    let e = emit(v, pos, head);
    let ds = deferred(v);
    let buf = alloc_full(v, pos, head).0;
    let fh = alloc_full(v, pos, head).1;
    lemma_walk(v, pos, head);
    lemma_starts_props(ds, 0, head);
    lemma_emit_head_ge(v, pos, head);
    lemma_alloc_head_ge(v, pos, head);
    if ds.len() == 0 {
        assert(bump(ds, 0, head) == head);
        assert(all_links(v, pos, head).len() == 0);
    } else {
        lemma_layer_group_depth(v);
        let next = layer_group(ds);
        let pos2 = pos + e.0.len();
        let buf2 = alloc_full(next, pos2 as nat, e.1).0;
        lemma_members_emit(ds, 0, head, e.1);
        assert(head % 1 == 0);
        let inner = emit_fields(with_indices(ds), 0, pos2 as nat, e.1);
        assert(emit(next, pos2 as nat, e.1).0 == zeros(0) + inner.0);
        assert((zeros(0) + inner.0).len() == inner.0.len());
        assert(e.1 == pos2 + emit(next, pos2 as nat, e.1).0.len());
        lemma_members_targets(ds);
        lemma_alloc_pointers(next, pos2 as nat, e.1);
        lemma_emit_head_ge(next, pos2 as nat, e.1);
        lemma_alloc_head_ge(next, pos2 as nat, e.1);
        lemma_alloc_len(v, pos, head);
        lemma_alloc_prefix(next, pos2 as nat, e.1);
        assert(buf == e.0 + buf2);
        assert(buf2.subrange(0, inner.0.len() as int) =~= inner.0);
        assert forall|j: int| 0 <= j < all_links(v, pos, head).len() implies {
            let r = #[trigger] all_links(v, pos, head)[j];
            &&& pos <= r.0
            &&& r.0 + 4 <= pos + buf.len()
            &&& buf.subrange(r.0 - pos, r.0 - pos + 4) == be_word(r.1 as u32)
            &&& align_v(r.2) >= 1
            &&& r.1 % align_v(r.2) == 0
            &&& head <= r.1
            &&& r.1 + sz(r.2) <= fh
            &&& exists|h: nat|
                buf.subrange(r.1 - pos, r.1 - pos + sz(r.2)) == #[trigger] emit(r.2, r.1, h).0
        } by {
            let recs = ptr_recs(v, pos, head);
            if j < recs.len() {
                let r = recs[j];
                assert(all_links(v, pos, head)[j] == r);
                assert(r.2 == ds[j]);
                assert(aligned_any(ds[j]));
                assert(r.1 + sz(r.2) <= bump(ds, 0, head));
                assert(buf.subrange(r.0 - pos, r.0 - pos + 4) =~= e.0.subrange(
                    r.0 - pos,
                    r.0 - pos + 4,
                ));
                let hj = head_at(ds, 0, e.1, j);
                let svals = starts(ds, 0, (pos2 as nat));
                assert(pos2 as nat == head);
                assert(starts(ds, 0, head) == svals);
                assert(r.1 == svals[j]);
                assert(inner.0.subrange(r.1 - pos2, r.1 - pos2 + sz(ds[j])) == emit(
                    ds[j],
                    r.1,
                    hj,
                ).0);
                assert(r.1 - pos2 + sz(ds[j]) <= inner.0.len());
                assert(buf2.subrange(r.1 - pos2, r.1 - pos2 + sz(ds[j])) =~= inner.0.subrange(
                    r.1 - pos2,
                    r.1 - pos2 + sz(ds[j]),
                ));
                assert(buf.subrange(r.1 - pos, r.1 - pos + sz(r.2)) =~= buf2.subrange(
                    r.1 - pos2,
                    r.1 - pos2 + sz(ds[j]),
                ));
                assert(buf.subrange(r.1 - pos, r.1 - pos + sz(r.2)) == emit(r.2, r.1, hj).0);
            } else {
                let r = all_links(next, pos2 as nat, e.1)[j - recs.len()];
                assert(all_links(v, pos, head)[j] == r);
                assert(buf.subrange(r.0 - pos, r.0 - pos + 4) =~= buf2.subrange(
                    r.0 - pos2,
                    r.0 - pos2 + 4,
                ));
                let h0 = choose|h: nat|
                    buf2.subrange(r.1 - pos2, r.1 - pos2 + sz(r.2)) == #[trigger] emit(
                        r.2,
                        r.1,
                        h,
                    ).0;
                assert(buf2.subrange(r.1 - pos2, r.1 - pos2 + sz(r.2)) == emit(r.2, r.1, h0).0);
                assert(buf.subrange(r.1 - pos, r.1 - pos + sz(r.2)) =~= buf2.subrange(
                    r.1 - pos2,
                    r.1 - pos2 + sz(r.2),
                ));
                assert(buf.subrange(r.1 - pos, r.1 - pos + sz(r.2)) == emit(r.2, r.1, h0).0);
            }
        }
    }
}

/// Pointer resolution for one dumped object, stated over the final buffer:
/// if the object fits at position 0, then for every reference anywhere in
/// the allocation, the 4 bytes at its recorded position in the dumped
/// buffer are the big-endian offset of its deferred child, that offset is
/// a multiple of the child's alignment, and the child's own emitted bytes
/// occupy the buffer from that offset for exactly its size.
pub proof fn lemma_dump_pointers(v: ObjView)
    requires
        fits(v, 0),
    ensures
        forall|j: int|
            0 <= j < all_links(v, 0, sz(v)).len() ==> {
                let r = #[trigger] all_links(v, 0, sz(v))[j];
                let buf = spec_dump(v);
                &&& r.0 + 4 <= buf.len()
                &&& buf.subrange(r.0 as int, r.0 + 4int) == be_word(r.1 as u32)
                &&& r.1 % align_v(r.2) == 0
                &&& r.1 + sz(r.2) <= buf.len()
                &&& exists|h: nat|
                    buf.subrange(r.1 as int, r.1 + sz(r.2) as int) == #[trigger] emit(r.2, r.1, h).0
            },
{
    lemma_fits_len(v, 0, sz(v));
    lemma_fits_targets(v, 0);
    lemma_alloc_pointers(v, 0, sz(v));
    lemma_alloc_len(v, 0, sz(v));
    assert forall|j: int| 0 <= j < all_links(v, 0, sz(v)).len() implies {
        let r = #[trigger] all_links(v, 0, sz(v))[j];
        let buf = spec_dump(v);
        &&& r.0 + 4 <= buf.len()
        &&& buf.subrange(r.0 as int, r.0 + 4int) == be_word(r.1 as u32)
        &&& r.1 % align_v(r.2) == 0
        &&& r.1 + sz(r.2) <= buf.len()
        &&& exists|h: nat|
            buf.subrange(r.1 as int, r.1 + sz(r.2) as int) == #[trigger] emit(r.2, r.1, h).0
    } by {
        let r = all_links(v, 0, sz(v))[j];
        let buf = spec_dump(v);
        assert(buf.subrange(r.0 - 0, r.0 - 0 + 4) == be_word(r.1 as u32));
        assert(r.0 as int == r.0 - 0);
        let h0 = choose|h: nat|
            buf.subrange(r.1 - 0, r.1 - 0 + sz(r.2)) == #[trigger] emit(r.2, r.1, h).0;
        assert(buf.subrange(r.1 - 0, r.1 - 0 + sz(r.2)) == emit(r.2, r.1, h0).0);
        assert(r.1 as int == r.1 - 0);
        assert(buf.subrange(r.1 as int, r.1 + sz(r.2) as int) == emit(r.2, r.1, h0).0);
    }
}


/// One full allocation round, stated for a reader: under the bump
/// invariant -- the head sits exactly at the end of the current layer's
/// bytes -- the layer writes one pointer per deferred child, in walk
/// order. The `j`-th pointer's target offset is a multiple of its child's
/// alignment and is exactly the offset at which the next layer's emission,
/// which begins right where this layer's bytes end, writes that child's
/// first byte: the child's bytes occupy `[target, target + size)` of the
/// buffer, relative to the next layer's start at `head`.
pub proof fn lemma_layer_resolves(v: ObjView, pos: nat, head: nat)
    requires
        targets_aligned(v),
        head == pos + emit(v, pos, head).0.len(),
    ensures
        ptr_recs(v, pos, head).len() == deferred(v).len(),
        forall|j: int|
            #![trigger deferred(v)[j]]
            0 <= j < deferred(v).len() ==> {
                let r = ptr_recs(v, pos, head)[j];
                let ds = deferred(v);
                let e = emit(v, pos, head);
                let nb = emit(layer_group(ds), head, e.1).0;
                &&& r.2 == ds[j]
                &&& r.1 == starts(ds, 0, head)[j]
                &&& r.1 % align_v(ds[j]) == 0
                &&& head <= r.1
                &&& r.1 - head + sz(ds[j]) <= nb.len()
                &&& nb.subrange(r.1 - head, r.1 - head + sz(ds[j])) == emit(
                    ds[j],
                    r.1,
                    head_at(ds, 0, e.1, j),
                ).0
            },
{
    let ds = deferred(v);
    let e = emit(v, pos, head);
    lemma_walk(v, pos, head);
    lemma_starts_props(ds, 0, head);
    lemma_members_emit(ds, 0, head, e.1);
    assert(head % 1 == 0);
    let inner = emit_fields(with_indices(ds), 0, head, e.1);
    assert(emit(layer_group(ds), head, e.1).0 == zeros(0) + inner.0);
    assert(zeros(0) + inner.0 =~= inner.0);
    assert forall|j: int| #![trigger deferred(v)[j]] 0 <= j < deferred(v).len() implies {
        let r = ptr_recs(v, pos, head)[j];
        let nb = emit(layer_group(ds), head, e.1).0;
        &&& r.2 == ds[j]
        &&& r.1 == starts(ds, 0, head)[j]
        &&& r.1 % align_v(ds[j]) == 0
        &&& head <= r.1
        &&& r.1 - head + sz(ds[j]) <= nb.len()
        &&& nb.subrange(r.1 - head, r.1 - head + sz(ds[j])) == emit(
            ds[j],
            r.1,
            head_at(ds, 0, e.1, j),
        ).0
    } by {
        let r = ptr_recs(v, pos, head)[j];
        assert(r.2 == ds[j]);
        assert(aligned_any(ds[j]));
        assert(head_at(ds, 0, e.1, j) == head_at(ds, 0, e.1, j));
        assert(starts(ds, 0, head)[j - 0] == starts(ds, 0, head)[j]);
        let nb = emit(layer_group(ds), head, e.1).0;
        assert(nb == inner.0);
        let s = starts(ds, 0, head)[j];
        assert(inner.0.subrange(s - head, s - head + sz(ds[j])) == emit(
            ds[j],
            s,
            head_at(ds, 0, e.1, j),
        ).0);
    }
}


/// The allocation's buffer begins with the current layer's bytes, and what
/// follows them is exactly the allocation of the next layer's synthetic
/// group. Together with the round lemma this places every deferred child's
/// bytes in the final buffer at its pointer's target offset.
pub proof fn lemma_alloc_prefix(v: ObjView, pos: nat, head: nat)
    ensures
        emit(v, pos, head).0.len() <= alloc_full(v, pos, head).0.len(),
        alloc_full(v, pos, head).0.subrange(0, emit(v, pos, head).0.len() as int) == emit(
            v,
            pos,
            head,
        ).0,
        deferred(v).len() > 0 ==> alloc_full(v, pos, head).0 == emit(v, pos, head).0 + alloc_full(
            layer_group(deferred(v)),
            pos + emit(v, pos, head).0.len(),
            emit(v, pos, head).1,
        ).0,
{
    lemma_alloc_head_ge(v, pos, head);
    let e = emit(v, pos, head);
    if deferred(v).len() == 0 {
        assert(alloc_full(v, pos, head).0.subrange(0, e.0.len() as int) =~= e.0);
    } else {
        assert(alloc_full(v, pos, head).0.subrange(0, e.0.len() as int) =~= e.0);
    }
}


} // verus!
