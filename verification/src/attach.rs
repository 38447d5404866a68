//! The attachment transform: outbound, binary leaves of a payload tree are
//! replaced by numbered placeholders and collected; inbound, placeholders are
//! replaced by the received binary frames.
//!
//! Placeholders are numbered from one, in the order the leaves stand in the
//! tree; an inbound placeholder that names a frame that is not there is a
//! protocol error.

use vstd::prelude::*;

use crate::packet::Error;
use crate::value::{
    copy_bytes, lemma_view_entries, lemma_view_seq, view_entries, view_seq, Data, Val, Value,
};

verus! {

/// The models of a sequence of byte vectors, in order.
pub open spec fn blobs(bs: Seq<Vec<u8>>) -> Seq<Seq<u8>> {
    bs.map_values(|b: Vec<u8>| b@)
}

/// The models of a sequence of handler values, in order.
pub open spec fn view_data_seq(ds: Seq<Data>) -> Seq<Val>
    decreases ds,
{
    if ds.len() == 0 {
        Seq::<Val>::empty()
    } else {
        view_data_seq(ds.drop_last()).push(ds.last().view())
    }
}

/// `view_data_seq` maps the view over the elements, one for one.
pub broadcast proof fn lemma_view_data_seq(ds: Seq<Data>)
    ensures
        #[trigger] view_data_seq(ds).len() == ds.len(),
        forall|i: int| 0 <= i < ds.len() ==> view_data_seq(ds)[i] == ds[i].view(),
    decreases ds,
{
    if ds.len() > 0 {
        lemma_view_data_seq(ds.drop_last());
    }
}

/// The bytes of the placeholder marker key.
pub open spec fn ph_key() -> Seq<u8> {
    seq![0x5fu8, 0x70, 0x6c, 0x61, 0x63, 0x65, 0x68, 0x6f, 0x6c, 0x64, 0x65, 0x72]
}

/// The bytes of the placeholder index key.
pub open spec fn num_key() -> Seq<u8> {
    seq![0x6eu8, 0x75, 0x6d]
}

/// The placeholder that stands for attachment `k` (numbered from one).
pub open spec fn ph(k: int) -> Val {
    Val::Obj(seq![(ph_key(), Val::Bool(true)), (num_key(), Val::Int(k))])
}

/// `v` has the placeholder shape: a two-entry mapping, marker then index.
pub open spec fn is_ph(v: Val) -> bool {
    &&& v is Obj
    &&& v->Obj_0.len() == 2
    &&& v->Obj_0[0] == (ph_key(), Val::Bool(true))
    &&& v->Obj_0[1].0 == num_key()
    &&& v->Obj_0[1].1 is Int
}

/// The attachment number a placeholder carries.
pub open spec fn ph_num(v: Val) -> int {
    v->Obj_0[1].1->Int_0
}

/// No subtree of `v` has the placeholder shape.
pub open spec fn ph_free(v: Val) -> bool
    decreases v,
{
    match v {
        Val::Arr(vs) => forall|i: int| 0 <= i < vs.len() ==> ph_free(#[trigger] vs[i]),
        Val::Obj(ps) => !is_ph(v) && forall|i: int|
            0 <= i < ps.len() ==> ph_free(#[trigger] ps[i].1),
        _ => true,
    }
}

/// The number of binary leaves in `v`.
pub open spec fn bin_count(v: Val) -> nat
    decreases v, 0int,
{
    match v {
        Val::Bin(_) => 1,
        Val::Arr(vs) => bin_count_list(vs),
        Val::Obj(ps) => bin_count_fields(ps),
        _ => 0,
    }
}

/// The number of binary leaves under the elements of `vs`.
pub open spec fn bin_count_list(vs: Seq<Val>) -> nat
    decreases vs, 1int,
{
    if vs.len() == 0 {
        0
    } else {
        bin_count(vs[0]) + bin_count_list(vs.drop_first())
    }
}

/// The number of binary leaves under the entry values of `ps`.
pub open spec fn bin_count_fields(ps: Seq<(Seq<u8>, Val)>) -> nat
    decreases ps, 1int,
{
    if ps.len() == 0 {
        0
    } else {
        bin_count(ps[0].1) + bin_count_fields(ps.drop_first())
    }
}

/// Extraction: binary leaves become placeholders numbered from `base + 1` in
/// tree order, and the bytes are collected in that order.
pub open spec fn ext_val(v: Val, base: int) -> (Val, Seq<Seq<u8>>)
    decreases v, 0int,
{
    match v {
        Val::Bin(b) => (ph(base + 1), seq![b]),
        Val::Arr(vs) => {
            let r = ext_list(vs, base);
            (Val::Arr(r.0), r.1)
        },
        Val::Obj(ps) => {
            let r = ext_fields(ps, base);
            (Val::Obj(r.0), r.1)
        },
        _ => (v, Seq::<Seq<u8>>::empty()),
    }
}

/// Extraction over the elements of a sequence, threading the counter.
pub open spec fn ext_list(vs: Seq<Val>, base: int) -> (Seq<Val>, Seq<Seq<u8>>)
    decreases vs, 1int,
{
    if vs.len() == 0 {
        (Seq::<Val>::empty(), Seq::<Seq<u8>>::empty())
    } else {
        let h = ext_val(vs[0], base);
        let t = ext_list(vs.drop_first(), base + h.1.len());
        (seq![h.0] + t.0, h.1 + t.1)
    }
}

/// Extraction over the entry values of a mapping, threading the counter.
pub open spec fn ext_fields(ps: Seq<(Seq<u8>, Val)>, base: int) -> (
    Seq<(Seq<u8>, Val)>,
    Seq<Seq<u8>>,
)
    decreases ps, 1int,
{
    if ps.len() == 0 {
        (Seq::<(Seq<u8>, Val)>::empty(), Seq::<Seq<u8>>::empty())
    } else {
        let h = ext_val(ps[0].1, base);
        let t = ext_fields(ps.drop_first(), base + h.1.len());
        (seq![(ps[0].0, h.0)] + t.0, h.1 + t.1)
    }
}

/// Every placeholder in `v` names one of the `atts`.
pub open spec fn inj_ok(v: Val, atts: Seq<Seq<u8>>) -> bool
    decreases v,
{
    if is_ph(v) {
        1 <= ph_num(v) <= atts.len()
    } else {
        match v {
            Val::Arr(vs) => forall|i: int| 0 <= i < vs.len() ==> inj_ok(#[trigger] vs[i], atts),
            Val::Obj(ps) => forall|i: int|
                0 <= i < ps.len() ==> inj_ok(#[trigger] ps[i].1, atts),
            _ => true,
        }
    }
}

/// Injection: each placeholder becomes the binary leaf it names; one that
/// names nothing is left standing (the reader rejects such a tree).
pub open spec fn inj_val(v: Val, atts: Seq<Seq<u8>>) -> Val
    decreases v, 0int,
{
    if is_ph(v) {
        if 1 <= ph_num(v) <= atts.len() {
            Val::Bin(atts[ph_num(v) - 1])
        } else {
            v
        }
    } else {
        match v {
            Val::Arr(vs) => Val::Arr(inj_list(vs, atts)),
            Val::Obj(ps) => Val::Obj(inj_fields(ps, atts)),
            _ => v,
        }
    }
}

/// Injection over the elements of a sequence.
pub open spec fn inj_list(vs: Seq<Val>, atts: Seq<Seq<u8>>) -> Seq<Val>
    decreases vs, 1int,
{
    if vs.len() == 0 {
        Seq::<Val>::empty()
    } else {
        seq![inj_val(vs[0], atts)] + inj_list(vs.drop_first(), atts)
    }
}

/// Injection over the entry values of a mapping.
pub open spec fn inj_fields(ps: Seq<(Seq<u8>, Val)>, atts: Seq<Seq<u8>>) -> Seq<(Seq<u8>, Val)>
    decreases ps, 1int,
{
    if ps.len() == 0 {
        Seq::<(Seq<u8>, Val)>::empty()
    } else {
        seq![(ps[0].0, inj_val(ps[0].1, atts))] + inj_fields(ps.drop_first(), atts)
    }
}

/// Extraction collects one byte vector per binary leaf.
pub proof fn lemma_ext_count(v: Val, base: int)
    ensures
        ext_val(v, base).1.len() == bin_count(v),
    decreases v, 0int,
{
    match v {
        Val::Arr(vs) => {
            lemma_ext_count_list(vs, base);
        },
        Val::Obj(ps) => {
            lemma_ext_count_fields(ps, base);
        },
        _ => {},
    }
}

/// See `lemma_ext_count`.
pub proof fn lemma_ext_count_list(vs: Seq<Val>, base: int)
    ensures
        ext_list(vs, base).1.len() == bin_count_list(vs),
    decreases vs, 1int,
{
    if vs.len() > 0 {
        lemma_ext_count(vs[0], base);
        lemma_ext_count_list(vs.drop_first(), base + ext_val(vs[0], base).1.len() as int);
    }
}

/// See `lemma_ext_count`.
pub proof fn lemma_ext_count_fields(ps: Seq<(Seq<u8>, Val)>, base: int)
    ensures
        ext_fields(ps, base).1.len() == bin_count_fields(ps),
    decreases ps, 1int,
{
    if ps.len() > 0 {
        lemma_ext_count(ps[0].1, base);
        lemma_ext_count_fields(ps.drop_first(), base + ext_val(ps[0].1, base).1.len() as int);
    }
}

/// Injection undoes extraction: when `v` holds no placeholder of its own,
/// extracting its binary leaves from `base` and injecting them back from any
/// attachment sequence that carries them at those numbers gives `v` again;
/// and the extracted bytes are exactly the binary leaves, in order.
pub proof fn lemma_inj_ext(v: Val, base: int, atts: Seq<Seq<u8>>)
    requires
        ph_free(v),
        0 <= base,
        base + ext_val(v, base).1.len() <= atts.len(),
        atts.subrange(base, base + ext_val(v, base).1.len() as int) == ext_val(v, base).1,
    ensures
        ext_val(v, base).1.len() == bin_count(v),
        inj_ok(ext_val(v, base).0, atts),
        inj_val(ext_val(v, base).0, atts) == v,
    decreases v, 0int,
{
    match v {
        Val::Bin(b) => {
            let p = ph(base + 1);
            assert(is_ph(p));
            assert(ph_num(p) == base + 1);
            assert(atts.subrange(base, base + 1)[0] == atts[base]);
            assert(atts[base] == b);
        },
        Val::Arr(vs) => {
            lemma_inj_ext_list(vs, base, atts);
            let r = ext_list(vs, base);
            assert(!is_ph(Val::Arr(r.0)));
            assert(inj_val(Val::Arr(r.0), atts) == Val::Arr(inj_list(r.0, atts)));
        },
        Val::Obj(ps) => {
            lemma_inj_ext_fields(ps, base, atts);
            let r = ext_fields(ps, base);
            assert(!is_ph(Val::Obj(r.0))) by {
                if is_ph(Val::Obj(r.0)) {
                    assert(r.0.len() == 2);
                    assert(ps.len() == 2) by {
                        lemma_ext_fields_len(ps, base);
                    }
                    let h1 = ext_val(ps[0].1, base);
                    let t1 = ext_fields(ps.drop_first(), base + h1.1.len());
                    assert(r.0 == seq![(ps[0].0, h1.0)] + t1.0);
                    assert(r.0[0] == (ps[0].0, h1.0));
                    assert(r.0[1] == t1.0[0]);
                    assert(ps.drop_first().len() == 1);
                    assert(t1.0[0] == (ps.drop_first()[0].0, ext_val(
                        ps.drop_first()[0].1,
                        base + h1.1.len(),
                    ).0));
                    assert(ps.drop_first()[0] == ps[1]);
                    assert(h1.0 == Val::Bool(true));
                    assert(ps[0].1 == Val::Bool(true)) by {
                        match ps[0].1 {
                            Val::Bin(_) => {
                                assert(h1.0 == ph(base + 1));
                            },
                            Val::Arr(_) => {},
                            Val::Obj(_) => {},
                            _ => {},
                        }
                    }
                    let e2 = ext_val(ps[1].1, base + h1.1.len());
                    assert(r.0[1].1 == e2.0);
                    assert(ps[1].1 is Int) by {
                        match ps[1].1 {
                            Val::Bin(_) => {
                                assert(e2.0 == ph(base + h1.1.len() + 1));
                                assert(is_ph(e2.0));
                                assert(!(e2.0 is Int));
                                assert(false);
                            },
                            Val::Arr(_) => {},
                            Val::Obj(_) => {},
                            _ => {},
                        }
                    }
                    assert(ext_val(ps[1].1, base + h1.1.len()).0 == ps[1].1);
                    assert(is_ph(v));
                    assert(false);
                }
            }
            assert(inj_val(Val::Obj(r.0), atts) == Val::Obj(inj_fields(r.0, atts)));
        },
        _ => {
            assert(!is_ph(v));
        },
    }
}

/// The lengths of an extraction over entries.
pub proof fn lemma_ext_fields_len(ps: Seq<(Seq<u8>, Val)>, base: int)
    ensures
        ext_fields(ps, base).0.len() == ps.len(),
    decreases ps,
{
    if ps.len() > 0 {
        lemma_ext_fields_len(ps.drop_first(), base + ext_val(ps[0].1, base).1.len());
    }
}

/// The lengths of an extraction over elements.
pub proof fn lemma_ext_list_len(vs: Seq<Val>, base: int)
    ensures
        ext_list(vs, base).0.len() == vs.len(),
    decreases vs,
{
    if vs.len() > 0 {
        lemma_ext_list_len(vs.drop_first(), base + ext_val(vs[0], base).1.len());
    }
}

/// `lemma_inj_ext`, over the elements of a sequence.
pub proof fn lemma_inj_ext_list(vs: Seq<Val>, base: int, atts: Seq<Seq<u8>>)
    requires
        forall|i: int| 0 <= i < vs.len() ==> ph_free(#[trigger] vs[i]),
        0 <= base,
        base + ext_list(vs, base).1.len() <= atts.len(),
        atts.subrange(base, base + ext_list(vs, base).1.len() as int) == ext_list(vs, base).1,
    ensures
        ext_list(vs, base).1.len() == bin_count_list(vs),
        ext_list(vs, base).0.len() == vs.len(),
        forall|i: int|
            0 <= i < vs.len() ==> inj_ok(#[trigger] ext_list(vs, base).0[i], atts),
        inj_list(ext_list(vs, base).0, atts) == vs,
    decreases vs, 1int,
{
    lemma_ext_list_len(vs, base);
    if vs.len() > 0 {
        let h = ext_val(vs[0], base);
        let nbase = base + h.1.len();
        let t = ext_list(vs.drop_first(), nbase);
        assert(ext_list(vs, base).1 == h.1 + t.1);
        assert(atts.subrange(base, nbase as int) =~= h.1) by {
            assert forall|k: int| 0 <= k < h.1.len() implies atts.subrange(
                base,
                nbase as int,
            )[k] == h.1[k] by {
                assert(atts.subrange(base, base + (h.1 + t.1).len() as int)[k] == (h.1 + t.1)[k]);
            }
        }
        assert(atts.subrange(nbase, nbase + t.1.len() as int) =~= t.1) by {
            assert forall|k: int| 0 <= k < t.1.len() implies atts.subrange(
                nbase,
                nbase + t.1.len() as int,
            )[k] == t.1[k] by {
                assert(atts.subrange(base, base + (h.1 + t.1).len() as int)[h.1.len() + k] == (h.1
                    + t.1)[h.1.len() + k]);
            }
        }
        lemma_inj_ext(vs[0], base, atts);
        lemma_inj_ext_list(vs.drop_first(), nbase, atts);
        let whole = ext_list(vs, base).0;
        assert(whole == seq![h.0] + t.0);
        assert(whole.drop_first() =~= t.0);
        assert(inj_list(whole, atts) == seq![inj_val(h.0, atts)] + inj_list(t.0, atts));
        assert(inj_list(whole, atts) =~= vs);
        assert forall|i: int| 0 <= i < vs.len() implies inj_ok(#[trigger] whole[i], atts) by {
            if i > 0 {
                assert(whole[i] == t.0[i - 1]);
            }
        }
    }
}

/// `lemma_inj_ext`, over the entry values of a mapping.
pub proof fn lemma_inj_ext_fields(ps: Seq<(Seq<u8>, Val)>, base: int, atts: Seq<Seq<u8>>)
    requires
        forall|i: int| 0 <= i < ps.len() ==> ph_free(#[trigger] ps[i].1),
        0 <= base,
        base + ext_fields(ps, base).1.len() <= atts.len(),
        atts.subrange(base, base + ext_fields(ps, base).1.len() as int) == ext_fields(ps, base).1,
    ensures
        ext_fields(ps, base).1.len() == bin_count_fields(ps),
        ext_fields(ps, base).0.len() == ps.len(),
        forall|i: int|
            0 <= i < ps.len() ==> inj_ok(#[trigger] ext_fields(ps, base).0[i].1, atts),
        inj_fields(ext_fields(ps, base).0, atts) == ps,
    decreases ps, 1int,
{
    lemma_ext_fields_len(ps, base);
    if ps.len() > 0 {
        let h = ext_val(ps[0].1, base);
        let nbase = base + h.1.len();
        let t = ext_fields(ps.drop_first(), nbase);
        assert(ext_fields(ps, base).1 == h.1 + t.1);
        assert(atts.subrange(base, nbase as int) =~= h.1) by {
            assert forall|k: int| 0 <= k < h.1.len() implies atts.subrange(
                base,
                nbase as int,
            )[k] == h.1[k] by {
                assert(atts.subrange(base, base + (h.1 + t.1).len() as int)[k] == (h.1 + t.1)[k]);
            }
        }
        assert(atts.subrange(nbase, nbase + t.1.len() as int) =~= t.1) by {
            assert forall|k: int| 0 <= k < t.1.len() implies atts.subrange(
                nbase,
                nbase + t.1.len() as int,
            )[k] == t.1[k] by {
                assert(atts.subrange(base, base + (h.1 + t.1).len() as int)[h.1.len() + k] == (h.1
                    + t.1)[h.1.len() + k]);
            }
        }
        lemma_inj_ext(ps[0].1, base, atts);
        lemma_inj_ext_fields(ps.drop_first(), nbase, atts);
        let whole = ext_fields(ps, base).0;
        assert(whole == seq![(ps[0].0, h.0)] + t.0);
        assert(whole.drop_first() =~= t.0);
        assert(inj_fields(whole, atts) == seq![(ps[0].0, inj_val(h.0, atts))] + inj_fields(
            t.0,
            atts,
        ));
        assert(inj_fields(whole, atts) =~= ps);
        assert forall|i: int| 0 <= i < ps.len() implies inj_ok(#[trigger] whole[i].1, atts) by {
            if i > 0 {
                assert(whole[i] == t.0[i - 1]);
            }
        }
    }
}

/// Injection then extraction over a whole payload tree: the law stated at
/// the tree's root, counting from zero.
pub proof fn lemma_extract_inject(t: Val)
    requires
        ph_free(t),
    ensures
        ext_val(t, 0).1.len() == bin_count(t),
        inj_val(ext_val(t, 0).0, ext_val(t, 0).1) == t,
    decreases t,
{
    let bs = ext_val(t, 0).1;
    assert(bs.subrange(0, bs.len() as int) =~= bs);
    lemma_inj_ext(t, 0, bs);
}

/// The placeholder marker key as a byte vector.
pub fn ph_key_vec() -> (r: Vec<u8>)
    ensures
        r@ == ph_key(),
{
    let mut out: Vec<u8> = Vec::new();
    out.push(0x5f);
    out.push(0x70);
    out.push(0x6c);
    out.push(0x61);
    out.push(0x63);
    out.push(0x65);
    out.push(0x68);
    out.push(0x6f);
    out.push(0x6c);
    out.push(0x64);
    out.push(0x65);
    out.push(0x72);
    proof {
        assert(out@ =~= ph_key());
    }
    out
}

/// The placeholder index key as a byte vector.
pub fn num_key_vec() -> (r: Vec<u8>)
    ensures
        r@ == num_key(),
{
    let mut out: Vec<u8> = Vec::new();
    out.push(0x6e);
    out.push(0x75);
    out.push(0x6d);
    proof {
        assert(out@ =~= num_key());
    }
    out
}

/// Whether two byte vectors hold the same bytes.
#[verifier::loop_isolation(false)]
pub fn bytes_eq(a: &Vec<u8>, b: &Vec<u8>) -> (r: bool)
    ensures
        r == (a@ == b@),
{
    if a.len() != b.len() {
        proof {
            assert(a@.len() != b@.len());
        }
        return false;
    }
    let mut k: usize = 0;
    while k < a.len()
        invariant
            k <= a@.len(),
            a@.len() == b@.len(),
            forall|i: int| 0 <= i < k ==> a@[i] == b@[i],
        decreases a@.len() - k,
    {
        if a[k] != b[k] {
            return false;
        }
        k = k + 1;
    }
    proof {
        assert(a@ =~= b@);
    }
    true
}

/// Whether `v` has the placeholder shape.
pub fn is_placeholder(v: &Value) -> (r: bool)
    ensures
        r == is_ph(v@),
{
    match v {
        Value::Obj(ps) => {
            proof {
                lemma_view_entries(ps@);
            }
            if ps.len() != 2 {
                return false;
            }
            let pk = ph_key_vec();
            let nk = num_key_vec();
            if !bytes_eq(&ps[0].0, &pk) {
                return false;
            }
            let marker_ok = match &ps[0].1 {
                Value::Bool(b) => *b,
                _ => false,
            };
            if !marker_ok {
                proof {
                    assert(view_entries(ps@)[0].1 == ps@[0].1@);
                    match ps@[0].1 {
                        Value::Bool(_) => {},
                        _ => {},
                    }
                }
                return false;
            }
            if !bytes_eq(&ps[1].0, &nk) {
                return false;
            }
            match &ps[1].1 {
                Value::Int(_) => {
                    proof {
                        assert(view_entries(ps@)[0] == (ps@[0].0@, ps@[0].1@));
                        assert(view_entries(ps@)[1] == (ps@[1].0@, ps@[1].1@));
                        assert(is_ph(v@));
                    }
                    true
                },
                _ => {
                    proof {
                        assert(view_entries(ps@)[1].1 == ps@[1].1@);
                        match ps@[1].1 {
                            Value::Int(_) => {},
                            _ => {},
                        }
                    }
                    false
                },
            }
        },
        _ => false,
    }
}

/// Extracts the binary leaves under `v`, numbering placeholders after what
/// `out` already holds; the result is the extracted tree.
pub fn extract_value(v: &Value, out: &mut Vec<Vec<u8>>) -> (r: Value)
    requires
        old(out)@.len() + bin_count(v@) <= 0x7fffffffffffffffu64,
    ensures
        r@ == ext_val(v@, old(out)@.len() as int).0,
        blobs(final(out)@) == blobs(old(out)@) + ext_val(v@, old(out)@.len() as int).1,
        final(out)@.len() == old(out)@.len() + ext_val(v@, old(out)@.len() as int).1.len(),
    decreases v, 0int,
{
    match v {
        Value::Null => {
            proof {
                assert(blobs(out@) =~= blobs(out@) + ext_val(v@, out@.len() as int).1);
            }
            Value::Null
        },
        Value::Bool(b) => {
            proof {
                assert(blobs(out@) =~= blobs(out@) + ext_val(v@, out@.len() as int).1);
            }
            Value::Bool(*b)
        },
        Value::Int(i) => {
            proof {
                assert(blobs(out@) =~= blobs(out@) + ext_val(v@, out@.len() as int).1);
            }
            Value::Int(*i)
        },
        Value::Num(n) => {
            proof {
                assert(blobs(out@) =~= blobs(out@) + ext_val(v@, out@.len() as int).1);
            }
            Value::Num(copy_bytes(n))
        },
        Value::Str(s) => {
            proof {
                assert(blobs(out@) =~= blobs(out@) + ext_val(v@, out@.len() as int).1);
            }
            Value::Str(copy_bytes(s))
        },
        Value::Bin(b) => {
            proof {
                assert(bin_count(v@) == 1);
            }
            let num = (out.len() as u64 + 1) as i64;
            out.push(copy_bytes(b));
            let mut entries: Vec<(Vec<u8>, Value)> = Vec::new();
            entries.push((ph_key_vec(), Value::Bool(true)));
            entries.push((num_key_vec(), Value::Int(num)));
            let r = Value::Obj(entries);
            proof {
                lemma_view_entries(entries@);
                assert(r@ == Val::Obj(view_entries(entries@)));
                assert(view_entries(entries@) =~= ph(old(out)@.len() as int + 1)->Obj_0);
                assert(r@ =~= ph(old(out)@.len() as int + 1));
                assert(blobs(out@) =~= blobs(old(out)@) + ext_val(
                    v@,
                    old(out)@.len() as int,
                ).1);
            }
            r
        },
        Value::Arr(vs) => {
            proof {
                assert(decreases_to!(*v => v->Arr_0));
                assert(view_seq(vs@).skip(0) =~= view_seq(vs@));
            }
            let items = extract_list(vs, 0, out);
            Value::Arr(items)
        },
        Value::Obj(ps) => {
            proof {
                assert(decreases_to!(*v => v->Obj_0));
                assert(view_entries(ps@).skip(0) =~= view_entries(ps@));
            }
            let fields = extract_fields(ps, 0, out);
            Value::Obj(fields)
        },
    }
}

/// Extraction over the elements of `vs` from `k` on.
pub fn extract_list(vs: &Vec<Value>, k: usize, out: &mut Vec<Vec<u8>>) -> (r: Vec<Value>)
    requires
        k <= vs@.len(),
        old(out)@.len() + bin_count_list(view_seq(vs@).skip(k as int)) <= 0x7fffffffffffffffu64,
    ensures
        view_seq(r@) == ext_list(view_seq(vs@).skip(k as int), old(out)@.len() as int).0,
        blobs(final(out)@) == blobs(old(out)@) + ext_list(
            view_seq(vs@).skip(k as int),
            old(out)@.len() as int,
        ).1,
        final(out)@.len() == old(out)@.len() + ext_list(
            view_seq(vs@).skip(k as int),
            old(out)@.len() as int,
        ).1.len(),
    decreases vs, vs@.len() - k + 1,
{
    proof {
        lemma_view_seq(vs@);
    }
    if k == vs.len() {
        let r: Vec<Value> = Vec::new();
        proof {
            assert(view_seq(vs@).skip(k as int) =~= Seq::<Val>::empty());
            assert(view_seq(r@) =~= ext_list(view_seq(vs@).skip(k as int), out@.len() as int).0);
            assert(blobs(out@) =~= blobs(out@) + ext_list(
                view_seq(vs@).skip(k as int),
                out@.len() as int,
            ).1);
        }
        return r;
    }
    let ghost rest = view_seq(vs@).skip(k as int);
    proof {
        assert(rest[0] == vs@[k as int]@);
        assert(rest.drop_first() =~= view_seq(vs@).skip(k as int + 1));
        assert(decreases_to!(*vs => vs@));
        assert(decreases_to!(vs@ => vs@[k as int]));
    }
    proof {
        lemma_ext_count(rest[0], old(out)@.len() as int);
        lemma_ext_count_list(rest.drop_first(), old(out)@.len() + ext_val(
            rest[0],
            old(out)@.len() as int,
        ).1.len() as int);
        assert(bin_count_list(rest) == bin_count(rest[0]) + bin_count_list(rest.drop_first()));
    }
    let h = extract_value(&vs[k], out);
    let mut t = extract_list(vs, k + 1, out);
    let ghost t0 = t@;
    t.insert(0, h);
    proof {
        lemma_view_seq(t@);
        lemma_view_seq(t0);
        assert(t@[0] == h);
        assert forall|i: int| 1 <= i < t@.len() implies view_seq(t@)[i] == view_seq(t0)[i - 1] by {
            assert(t@[i] == t0[i - 1]);
        }
        assert(view_seq(t@) =~= seq![h@] + view_seq(t0));
        assert(blobs(out@) =~= blobs(old(out)@) + ext_list(rest, old(out)@.len() as int).1);
        assert(view_seq(t@) =~= ext_list(rest, old(out)@.len() as int).0);
    }
    t
}

/// Extraction over the entry values of `ps` from `k` on.
pub fn extract_fields(ps: &Vec<(Vec<u8>, Value)>, k: usize, out: &mut Vec<Vec<u8>>) -> (r: Vec<
    (Vec<u8>, Value),
>)
    requires
        k <= ps@.len(),
        old(out)@.len() + bin_count_fields(view_entries(ps@).skip(k as int))
            <= 0x7fffffffffffffffu64,
    ensures
        view_entries(r@) == ext_fields(view_entries(ps@).skip(k as int), old(out)@.len() as int).0,
        blobs(final(out)@) == blobs(old(out)@) + ext_fields(
            view_entries(ps@).skip(k as int),
            old(out)@.len() as int,
        ).1,
        final(out)@.len() == old(out)@.len() + ext_fields(
            view_entries(ps@).skip(k as int),
            old(out)@.len() as int,
        ).1.len(),
    decreases ps, ps@.len() - k + 1,
{
    proof {
        lemma_view_entries(ps@);
    }
    if k == ps.len() {
        let r: Vec<(Vec<u8>, Value)> = Vec::new();
        proof {
            assert(view_entries(ps@).skip(k as int) =~= Seq::<(Seq<u8>, Val)>::empty());
            assert(view_entries(r@) =~= ext_fields(
                view_entries(ps@).skip(k as int),
                out@.len() as int,
            ).0);
            assert(blobs(out@) =~= blobs(out@) + ext_fields(
                view_entries(ps@).skip(k as int),
                out@.len() as int,
            ).1);
        }
        return r;
    }
    let ghost rest = view_entries(ps@).skip(k as int);
    proof {
        assert(rest[0] == (ps@[k as int].0@, ps@[k as int].1@));
        assert(rest.drop_first() =~= view_entries(ps@).skip(k as int + 1));
        assert(decreases_to!(*ps => ps@));
        assert(decreases_to!(ps@ => ps@[k as int]));
        assert(decreases_to!(ps@[k as int] => ps@[k as int].1));
    }
    proof {
        lemma_ext_count(rest[0].1, old(out)@.len() as int);
        lemma_ext_count_fields(rest.drop_first(), old(out)@.len() + ext_val(
            rest[0].1,
            old(out)@.len() as int,
        ).1.len() as int);
        assert(bin_count_fields(rest) == bin_count(rest[0].1) + bin_count_fields(
            rest.drop_first(),
        ));
    }
    let key = copy_bytes(&ps[k].0);
    let h = extract_value(&ps[k].1, out);
    let mut t = extract_fields(ps, k + 1, out);
    let ghost t0 = t@;
    t.insert(0, (key, h));
    proof {
        lemma_view_entries(t@);
        lemma_view_entries(t0);
        assert(t@[0].0@ == ps@[k as int].0@ && t@[0].1 == h);
        assert forall|i: int| 1 <= i < t@.len() implies view_entries(t@)[i] == view_entries(
            t0,
        )[i - 1] by {
            assert(t@[i] == t0[i - 1]);
        }
        assert(view_entries(t@) =~= seq![(ps@[k as int].0@, h@)] + view_entries(t0));
        assert(blobs(out@) =~= blobs(old(out)@) + ext_fields(rest, old(out)@.len() as int).1);
        assert(view_entries(t@) =~= ext_fields(rest, old(out)@.len() as int).0);
    }
    t
}

/// Turns the values handed to an emit into one payload sequence with its
/// binary leaves extracted: the sequence, placeholders in place of the
/// leaves, and the collected leaves in order.
pub fn encode_data(data: Vec<Data>) -> (r: (Value, Vec<Vec<u8>>))
    requires
        bin_count_list(view_data_seq(data@)) <= 0x7fffffffffffffffu64,
    ensures
        r.0@ == Val::Arr(ext_list(view_data_seq(data@), 0).0),
        blobs(r.1@) == ext_list(view_data_seq(data@), 0).1,
{
    proof {
        lemma_view_data_seq(data@);
    }
    let mut vals: Vec<Value> = Vec::new();
    let mut rem = data;
    let ghost data0 = rem@;
    while rem.len() > 0
        invariant
            vals@.len() + rem@.len() == data0.len(),
            rem@ =~= data0.skip(vals@.len() as int),
            forall|i: int| 0 <= i < vals@.len() ==> vals@[i]@ == data0[i]@,
        decreases rem@.len(),
    {
        let ghost k = vals@.len() as int;
        let d = rem.remove(0);
        proof {
            assert(d == data0[k]);
        }
        match d {
            Data::JSON(v) => {
                vals.push(v);
            },
            Data::Binary(b) => {
                vals.push(Value::Bin(b));
            },
        }
        proof {
            assert(rem@ =~= data0.skip(vals@.len() as int));
        }
    }
    proof {
        lemma_view_seq(vals@);
        lemma_view_data_seq(data0);
        assert(view_seq(vals@) =~= view_data_seq(data0));
        assert(view_seq(vals@).skip(0) =~= view_seq(vals@));
    }
    let mut bins: Vec<Vec<u8>> = Vec::new();
    let items = extract_list(&vals, 0, &mut bins);
    proof {
        assert(blobs(Seq::<Vec<u8>>::empty()) =~= Seq::<Seq<u8>>::empty());
        assert(blobs(bins@) =~= ext_list(view_data_seq(data@), 0).1);
    }
    (Value::Arr(items), bins)
}

/// Replaces each placeholder under `v` by the attachment it names; a
/// placeholder that names nothing is a protocol error.
pub fn inject(v: &Value, atts: &Vec<Vec<u8>>) -> (r: Result<Value, Error>)
    ensures
        r matches Ok(w) ==> inj_ok(v@, blobs(atts@)) && w@ == inj_val(v@, blobs(atts@)),
        r matches Err(e) ==> e == Error::PlaceholderOutOfRange && !inj_ok(v@, blobs(atts@)),
    decreases v, 0int,
{
    if is_placeholder(v) {
        let ps = match v {
            Value::Obj(ps) => ps,
            _ => {
                proof {
                    assert(false);
                }
                return Err(Error::PlaceholderOutOfRange);
            },
        };
        proof {
            lemma_view_entries(ps@);
            assert(view_entries(ps@).len() == 2);
            assert(ps@.len() == 2);
        }
        let k: i64 = match &ps[1].1 {
            Value::Int(k) => *k,
            _ => {
                proof {
                    lemma_view_entries(ps@);
                    match ps@[1].1 {
                        Value::Int(_) => {},
                        _ => {},
                    }
                    assert(false);
                }
                return Err(Error::PlaceholderOutOfRange);
            },
        };
        proof {
            lemma_view_entries(ps@);
            assert(ph_num(v@) == k as int);
            assert(blobs(atts@).len() == atts@.len());
        }
        if k >= 1 && (k as u64) <= (atts.len() as u64) {
            let idx = (k - 1) as usize;
            let b = copy_bytes(&atts[idx]);
            proof {
                assert(1 <= ph_num(v@) <= blobs(atts@).len());
                assert(blobs(atts@)[k - 1] == atts@[k - 1]@);
                assert(inj_val(v@, blobs(atts@)) == Val::Bin(blobs(atts@)[k - 1]));
            }
            Ok(Value::Bin(b))
        } else {
            proof {
                assert(!(1 <= ph_num(v@) <= blobs(atts@).len()));
            }
            Err(Error::PlaceholderOutOfRange)
        }
    } else {
        match v {
            Value::Null => Ok(Value::Null),
            Value::Bool(b) => Ok(Value::Bool(*b)),
            Value::Int(i) => Ok(Value::Int(*i)),
            Value::Num(n) => Ok(Value::Num(copy_bytes(n))),
            Value::Str(s) => Ok(Value::Str(copy_bytes(s))),
            Value::Bin(b) => Ok(Value::Bin(copy_bytes(b))),
            Value::Arr(vs) => {
                proof {
                    lemma_view_seq(vs@);
                    assert(decreases_to!(*v => v->Arr_0));
                    assert(view_seq(vs@).skip(0) =~= view_seq(vs@));
                }
                match inject_list(vs, 0, atts) {
                    Ok(items) => Ok(Value::Arr(items)),
                    Err(e) => Err(e),
                }
            },
            Value::Obj(ps) => {
                proof {
                    lemma_view_entries(ps@);
                    assert(decreases_to!(*v => v->Obj_0));
                    assert(view_entries(ps@).skip(0) =~= view_entries(ps@));
                }
                match inject_fields(ps, 0, atts) {
                    Ok(fields) => Ok(Value::Obj(fields)),
                    Err(e) => Err(e),
                }
            },
        }
    }
}

/// Injection over the elements of `vs` from `k` on.
pub fn inject_list(vs: &Vec<Value>, k: usize, atts: &Vec<Vec<u8>>) -> (r: Result<
    Vec<Value>,
    Error,
>)
    requires
        k <= vs@.len(),
    ensures
        r matches Ok(w) ==> (forall|i: int|
            k <= i < vs@.len() ==> inj_ok(#[trigger] view_seq(vs@)[i], blobs(atts@))) && view_seq(
            w@,
        ) == inj_list(view_seq(vs@).skip(k as int), blobs(atts@)),
        r matches Err(e) ==> e == Error::PlaceholderOutOfRange && !(forall|i: int|
            k <= i < vs@.len() ==> inj_ok(#[trigger] view_seq(vs@)[i], blobs(atts@))),
    decreases vs, vs@.len() - k + 1,
{
    proof {
        lemma_view_seq(vs@);
    }
    if k == vs.len() {
        let r: Vec<Value> = Vec::new();
        proof {
            assert(view_seq(vs@).skip(k as int) =~= Seq::<Val>::empty());
            assert(view_seq(r@) =~= inj_list(view_seq(vs@).skip(k as int), blobs(atts@)));
        }
        return Ok(r);
    }
    let ghost rest = view_seq(vs@).skip(k as int);
    proof {
        assert(rest[0] == vs@[k as int]@);
        assert(rest.drop_first() =~= view_seq(vs@).skip(k as int + 1));
        assert(decreases_to!(*vs => vs@));
        assert(decreases_to!(vs@ => vs@[k as int]));
    }
    let h = match inject(&vs[k], atts) {
        Ok(h) => h,
        Err(e) => {
            proof {
                assert(!inj_ok(view_seq(vs@)[k as int], blobs(atts@)));
            }
            return Err(e);
        },
    };
    let mut t = match inject_list(vs, k + 1, atts) {
        Ok(t) => t,
        Err(e) => {
            proof {
                if forall|i: int|
                    k <= i < vs@.len() ==> inj_ok(#[trigger] view_seq(vs@)[i], blobs(atts@)) {
                    assert forall|i: int|
                        k + 1 <= i < vs@.len() implies inj_ok(
                        #[trigger] view_seq(vs@)[i],
                        blobs(atts@),
                    ) by {
                        assert(inj_ok(view_seq(vs@)[i], blobs(atts@)));
                    }
                    assert(false);
                }
            }
            return Err(e);
        },
    };
    let ghost t0 = t@;
    t.insert(0, h);
    proof {
        lemma_view_seq(t@);
        lemma_view_seq(t0);
        assert(t@[0] == h);
        assert forall|i: int| 1 <= i < t@.len() implies view_seq(t@)[i] == view_seq(t0)[i - 1] by {
            assert(t@[i] == t0[i - 1]);
        }
        assert(view_seq(t@) =~= seq![h@] + view_seq(t0));
        assert(view_seq(t@) =~= inj_list(rest, blobs(atts@)));
        assert forall|i: int|
            k <= i < vs@.len() implies inj_ok(#[trigger] view_seq(vs@)[i], blobs(atts@)) by {
            if i > k {
                assert(inj_ok(view_seq(vs@)[i], blobs(atts@)));
            }
        }
    }
    Ok(t)
}

/// Injection over the entry values of `ps` from `k` on.
pub fn inject_fields(ps: &Vec<(Vec<u8>, Value)>, k: usize, atts: &Vec<Vec<u8>>) -> (r: Result<
    Vec<(Vec<u8>, Value)>,
    Error,
>)
    requires
        k <= ps@.len(),
    ensures
        r matches Ok(w) ==> (forall|i: int|
            k <= i < ps@.len() ==> inj_ok(#[trigger] view_entries(ps@)[i].1, blobs(atts@)))
            && view_entries(w@) == inj_fields(view_entries(ps@).skip(k as int), blobs(atts@)),
        r matches Err(e) ==> e == Error::PlaceholderOutOfRange && !(forall|i: int|
            k <= i < ps@.len() ==> inj_ok(#[trigger] view_entries(ps@)[i].1, blobs(atts@))),
    decreases ps, ps@.len() - k + 1,
{
    proof {
        lemma_view_entries(ps@);
    }
    if k == ps.len() {
        let r: Vec<(Vec<u8>, Value)> = Vec::new();
        proof {
            assert(view_entries(ps@).skip(k as int) =~= Seq::<(Seq<u8>, Val)>::empty());
            assert(view_entries(r@) =~= inj_fields(view_entries(ps@).skip(k as int), blobs(atts@)));
        }
        return Ok(r);
    }
    let ghost rest = view_entries(ps@).skip(k as int);
    proof {
        assert(rest[0] == (ps@[k as int].0@, ps@[k as int].1@));
        assert(rest.drop_first() =~= view_entries(ps@).skip(k as int + 1));
        assert(decreases_to!(*ps => ps@));
        assert(decreases_to!(ps@ => ps@[k as int]));
        assert(decreases_to!(ps@[k as int] => ps@[k as int].1));
    }
    let key = copy_bytes(&ps[k].0);
    let h = match inject(&ps[k].1, atts) {
        Ok(h) => h,
        Err(e) => {
            proof {
                assert(!inj_ok(view_entries(ps@)[k as int].1, blobs(atts@)));
            }
            return Err(e);
        },
    };
    let mut t = match inject_fields(ps, k + 1, atts) {
        Ok(t) => t,
        Err(e) => {
            proof {
                if forall|i: int|
                    k <= i < ps@.len() ==> inj_ok(#[trigger] view_entries(ps@)[i].1, blobs(atts@)) {
                    assert forall|i: int|
                        k + 1 <= i < ps@.len() implies inj_ok(
                        #[trigger] view_entries(ps@)[i].1,
                        blobs(atts@),
                    ) by {
                        assert(inj_ok(view_entries(ps@)[i].1, blobs(atts@)));
                    }
                    assert(false);
                }
            }
            return Err(e);
        },
    };
    let ghost t0 = t@;
    t.insert(0, (key, h));
    proof {
        lemma_view_entries(t@);
        lemma_view_entries(t0);
        assert(t@[0].0@ == ps@[k as int].0@ && t@[0].1 == h);
        assert forall|i: int| 1 <= i < t@.len() implies view_entries(t@)[i] == view_entries(
            t0,
        )[i - 1] by {
            assert(t@[i] == t0[i - 1]);
        }
        assert(view_entries(t@) =~= seq![(ps@[k as int].0@, h@)] + view_entries(t0));
        assert(view_entries(t@) =~= inj_fields(rest, blobs(atts@)));
        assert forall|i: int|
            k <= i < ps@.len() implies inj_ok(#[trigger] view_entries(ps@)[i].1, blobs(atts@)) by {
            if i > k {
                assert(inj_ok(view_entries(ps@)[i].1, blobs(atts@)));
            }
        }
    }
    Ok(t)
}

} // verus!
