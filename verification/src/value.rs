//! The payload tree: the structured value a packet carries, together with its
//! mathematical model.
//!
//! A payload is a tree of null, booleans, numbers, byte strings, opaque
//! binary leaves, ordered sequences and key/value mappings. A number is a
//! machine integer, or — for a fraction, an exponent, or an integer beyond
//! the machine range — its literal text carried opaquely. Binary leaves
//! never appear on the wire: the attachment transform replaces them with
//! placeholders before a packet is encoded.

use vstd::prelude::*;

verus! {

/// Mathematical model of a payload tree.
#[verifier::ext_equal]
pub enum Val {
    Null,
    Bool(bool),
    Int(int),
    Num(Seq<u8>),
    Str(Seq<u8>),
    Bin(Seq<u8>),
    Arr(Seq<Val>),
    Obj(Seq<(Seq<u8>, Val)>),
}

/// A payload tree as executable data. Strings are byte strings: the wire is
/// a byte stream and the codec never needs to look inside them.
#[derive(Debug, PartialEq, Eq)]
pub enum Value {
    Null,
    Bool(bool),
    Int(i64),
    /// A number beyond the machine integers — a fraction, an exponent, or an
    /// out-of-range integer — carried as its literal text, unaltered.
    Num(Vec<u8>),
    Str(Vec<u8>),
    Bin(Vec<u8>),
    Arr(Vec<Value>),
    Obj(Vec<(Vec<u8>, Value)>),
}

impl Value {
    /// The model of this tree.
    pub open spec fn view(self) -> Val
        decreases self,
    {
        match self {
            Value::Null => Val::Null,
            Value::Bool(b) => Val::Bool(b),
            Value::Int(i) => Val::Int(i as int),
            Value::Num(n) => Val::Num(n@),
            Value::Str(s) => Val::Str(s@),
            Value::Bin(b) => Val::Bin(b@),
            Value::Arr(vs) => Val::Arr(view_seq(vs@)),
            Value::Obj(ps) => Val::Obj(view_entries(ps@)),
        }
    }
}

/// The models of a sequence of trees, in order.
pub open spec fn view_seq(vs: Seq<Value>) -> Seq<Val>
    decreases vs,
{
    if vs.len() == 0 {
        Seq::<Val>::empty()
    } else {
        view_seq(vs.drop_last()).push(vs.last().view())
    }
}

/// The models of a sequence of mapping entries, in order.
pub open spec fn view_entries(ps: Seq<(Vec<u8>, Value)>) -> Seq<(Seq<u8>, Val)>
    decreases ps,
{
    if ps.len() == 0 {
        Seq::<(Seq<u8>, Val)>::empty()
    } else {
        view_entries(ps.drop_last()).push((ps.last().0@, ps.last().1.view()))
    }
}

/// A value handed to `emit` or returned by an event handler: either a
/// structured value or opaque bytes destined for a binary frame.
#[derive(Debug, PartialEq, Eq)]
pub enum Data {
    JSON(Value),
    Binary(Vec<u8>),
}

impl Data {
    /// The model: opaque bytes are a binary leaf of the payload tree.
    pub open spec fn view(self) -> Val {
        match self {
            Data::JSON(v) => v.view(),
            Data::Binary(b) => Val::Bin(b@),
        }
    }
}

/// `view_seq` maps the view over the elements, one for one.
pub broadcast proof fn lemma_view_seq(vs: Seq<Value>)
    ensures
        #[trigger] view_seq(vs).len() == vs.len(),
        forall|i: int| 0 <= i < vs.len() ==> view_seq(vs)[i] == vs[i].view(),
    decreases vs,
{
    if vs.len() > 0 {
        lemma_view_seq(vs.drop_last());
    }
}

/// `view_entries` maps the view over the entries, one for one.
pub broadcast proof fn lemma_view_entries(ps: Seq<(Vec<u8>, Value)>)
    ensures
        #[trigger] view_entries(ps).len() == ps.len(),
        forall|i: int| 0 <= i < ps.len() ==> view_entries(ps)[i] == (ps[i].0@, ps[i].1.view()),
    decreases ps,
{
    if ps.len() > 0 {
        lemma_view_entries(ps.drop_last());
    }
}

/// `v` can appear on the wire: no binary leaves, every integer fits the
/// executable representation, and every opaque number is a well-formed
/// literal that the integer leaf does not cover.
pub open spec fn is_json(v: Val) -> bool
    decreases v,
{
    match v {
        Val::Null => true,
        Val::Bool(_) => true,
        Val::Int(i) => i64::MIN <= i <= i64::MAX,
        Val::Num(n) => crate::json::num_lit_wf(n),
        Val::Str(_) => true,
        Val::Bin(_) => false,
        Val::Arr(vs) => forall|i: int| 0 <= i < vs.len() ==> is_json(#[trigger] vs[i]),
        Val::Obj(ps) => forall|i: int| 0 <= i < ps.len() ==> is_json(#[trigger] ps[i].1),
    }
}

impl Value {
    /// A structurally equal copy of this tree.
    #[verifier::loop_isolation(false)]
    pub fn duplicate(&self) -> (r: Value)
        ensures
            r@ == self@,
        decreases self,
    {
        match self {
            Value::Null => Value::Null,
            Value::Bool(b) => Value::Bool(*b),
            Value::Int(i) => Value::Int(*i),
            Value::Num(n) => Value::Num(copy_bytes(n)),
            Value::Str(s) => Value::Str(copy_bytes(s)),
            Value::Bin(b) => Value::Bin(copy_bytes(b)),
            Value::Arr(vs) => {
                let mut out: Vec<Value> = Vec::new();
                let mut k: usize = 0;
                while k < vs.len()
                    invariant
                        k <= vs.len(),
                        out@.len() == k,
                        forall|i: int| 0 <= i < k ==> out@[i]@ == vs@[i]@,
                    decreases vs.len() - k,
                {
                    proof {
                        assert(decreases_to!(*self => self->Arr_0));
                        assert(decreases_to!(self->Arr_0 => self->Arr_0@));
                        assert(decreases_to!(self->Arr_0@ => self->Arr_0@[k as int]));
                    }
                    out.push(vs[k].duplicate());
                    k = k + 1;
                }
                proof {
                    lemma_view_seq(out@);
                    lemma_view_seq(vs@);
                    assert(view_seq(out@) =~= view_seq(vs@));
                }
                Value::Arr(out)
            },
            Value::Obj(ps) => {
                let mut out: Vec<(Vec<u8>, Value)> = Vec::new();
                let mut k: usize = 0;
                while k < ps.len()
                    invariant
                        k <= ps.len(),
                        out@.len() == k,
                        forall|i: int| 0 <= i < k ==> (#[trigger] out@[i]).0@ == ps@[i].0@
                            && out@[i].1@ == ps@[i].1@,
                    decreases ps.len() - k,
                {
                    proof {
                        assert(decreases_to!(*self => self->Obj_0));
                        assert(decreases_to!(self->Obj_0 => self->Obj_0@));
                        assert(decreases_to!(self->Obj_0@ => self->Obj_0@[k as int]));
                        assert(decreases_to!(self->Obj_0@[k as int] => self->Obj_0@[k as int].1));
                    }
                    let key = copy_bytes(&ps[k].0);
                    let val = ps[k].1.duplicate();
                    out.push((key, val));
                    k = k + 1;
                }
                proof {
                    lemma_view_entries(out@);
                    lemma_view_entries(ps@);
                    assert(view_entries(out@) =~= view_entries(ps@));
                }
                Value::Obj(out)
            },
        }
    }
}

impl Data {
    /// A structurally equal copy of this value.
    pub fn duplicate(&self) -> (r: Data)
        ensures
            r@ == self@,
    {
        match self {
            Data::JSON(v) => Data::JSON(v.duplicate()),
            Data::Binary(b) => Data::Binary(copy_bytes(b)),
        }
    }
}

/// A copy of a byte vector.
pub fn copy_bytes(b: &Vec<u8>) -> (r: Vec<u8>)
    ensures
        r@ == b@,
{
    let mut out: Vec<u8> = Vec::new();
    let mut k: usize = 0;
    while k < b.len()
        invariant
            k <= b.len(),
            out@ == b@.take(k as int),
        decreases b.len() - k,
    {
        out.push(b[k]);
        proof {
            assert(b@.take(k as int + 1) =~= b@.take(k as int).push(b@[k as int]));
        }
        k = k + 1;
    }
    proof {
        assert(b@.take(b@.len() as int) =~= b@);
    }
    out
}

} // verus!
