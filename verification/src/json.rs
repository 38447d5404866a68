//! Textual encoding of payload trees: the JSON form the wire carries.
//!
//! The encoder produces one canonical text for every wire-fit tree, and the
//! parser accepts exactly those texts; both directions are proved against a
//! single specification, `jser`, so that decoding an encoded tree gives the
//! tree back, and encoding a decoded text gives the text back. A liberal
//! text — one with blanks between tokens or with the standard string
//! escapes — is brought to its canonical form first by `norm`.

use vstd::prelude::*;
use vstd::arithmetic::div_mod::{lemma_fundamental_div_mod, lemma_fundamental_div_mod_converse};

use crate::packet::copy_range;
use crate::value::{Val, Value, view_seq, view_entries, is_json, lemma_view_seq, lemma_view_entries};

verus! {

/// `b` is an ASCII decimal digit.
pub open spec fn is_digit(b: u8) -> bool {
    0x30 <= b <= 0x39
}

/// The canonical decimal digits of `n`: no sign, no leading zero.
pub open spec fn dec_nat(n: nat) -> Seq<u8>
    decreases n,
{
    if n < 10 {
        seq![(0x30 + n) as u8]
    } else {
        dec_nat(n / 10).push((0x30 + n % 10) as u8)
    }
}

/// The canonical decimal digits of `i`, with a leading minus when negative.
pub open spec fn dec_int(i: int) -> Seq<u8> {
    if i < 0 {
        seq![0x2du8] + dec_nat((-i) as nat)
    } else {
        dec_nat(i as nat)
    }
}

/// The number a run of digit bytes denotes, most significant first.
pub open spec fn digits_val(s: Seq<u8>) -> int
    decreases s,
{
    if s.len() == 0 {
        0
    } else {
        digits_val(s.drop_last()) * 10 + s.last() - 0x30
    }
}

/// Position of the first byte at or after `i` that is not a digit.
pub open spec fn digit_run_end(s: Seq<u8>, i: int) -> int
    decreases s.len() - i,
{
    if i < 0 || i >= s.len() || !is_digit(s[i]) {
        i
    } else {
        digit_run_end(s, i + 1)
    }
}

/// The digits of `n` are digits, there is at least one, and only zero itself
/// begins with the zero digit.
pub proof fn lemma_dec_nat(n: nat)
    ensures
        dec_nat(n).len() >= 1,
        forall|k: int| 0 <= k < dec_nat(n).len() ==> is_digit(#[trigger] dec_nat(n)[k]),
        dec_nat(n)[0] == 0x30 ==> n == 0,
        n < 10 ==> dec_nat(n) =~= seq![(0x30 + n) as u8],
    decreases n,
{
    if n >= 10 {
        lemma_dec_nat(n / 10);
        assert(dec_nat(n) == dec_nat(n / 10).push((0x30 + n % 10) as u8));
        assert(dec_nat(n)[0] == dec_nat(n / 10)[0]);
    }
}

/// Reading back the digits of `n` yields `n`.
pub proof fn lemma_digits_val_dec_nat(n: nat)
    ensures
        digits_val(dec_nat(n)) == n,
    decreases n,
{
    if n < 10 {
        assert(dec_nat(n) == seq![(0x30 + n) as u8]);
        assert(dec_nat(n).drop_last() =~= Seq::<u8>::empty());
        assert(digits_val(dec_nat(n).drop_last()) == 0);
        assert(dec_nat(n).last() == (0x30 + n) as u8);
        assert((0x30 + n) as u8 == 0x30 + n);
        assert(digits_val(dec_nat(n)) == 0 * 10 + (0x30 + n) - 0x30);
    } else {
        lemma_digits_val_dec_nat(n / 10);
        let s = dec_nat(n / 10).push((0x30 + n % 10) as u8);
        assert(s.drop_last() =~= dec_nat(n / 10));
        assert(0 <= n % 10 < 10);
        assert(s.last() == (0x30 + n % 10) as u8);
        assert(s.last() - 0x30 == n % 10);
        lemma_fundamental_div_mod(n as int, 10);
        assert(n == 10 * (n as int / 10) + n as int % 10);
        assert(digits_val(s) == digits_val(dec_nat(n / 10)) * 10 + n % 10);
    }
}

/// A digit run denotes a non-negative number.
pub proof fn lemma_digits_val_nonneg(s: Seq<u8>)
    requires
        forall|k: int| 0 <= k < s.len() ==> is_digit(#[trigger] s[k]),
    ensures
        digits_val(s) >= 0,
    decreases s,
{
    if s.len() > 0 {
        lemma_digits_val_nonneg(s.drop_last());
    }
}

/// A digit run that does not begin with zero denotes at least one, and at
/// least ten when it has two or more digits.
pub proof fn lemma_digits_val_pos(s: Seq<u8>)
    requires
        s.len() >= 1,
        forall|k: int| 0 <= k < s.len() ==> is_digit(#[trigger] s[k]),
        s[0] != 0x30,
    ensures
        digits_val(s) >= 1,
        s.len() >= 2 ==> digits_val(s) >= 10,
    decreases s,
{
    if s.len() == 1 {
        assert(is_digit(s[0]));
        assert(digits_val(s.drop_last()) == 0);
        assert(s.last() == s[0]);
        assert(digits_val(s) == digits_val(s.drop_last()) * 10 + s.last() - 0x30);
        assert(digits_val(s) == s[0] - 0x30);
    } else {
        assert(s.drop_last()[0] == s[0]);
        lemma_digits_val_pos(s.drop_last());
        lemma_digits_val_nonneg(s.drop_last());
        assert(is_digit(s.last()));
    }
}

/// A canonical digit run is the digits of the number it denotes.
pub proof fn lemma_dec_nat_digits_val(s: Seq<u8>)
    requires
        s.len() >= 1,
        forall|k: int| 0 <= k < s.len() ==> is_digit(#[trigger] s[k]),
        s[0] == 0x30 ==> s.len() == 1,
    ensures
        digits_val(s) >= 0,
        dec_nat(digits_val(s) as nat) =~= s,
    decreases s,
{
    lemma_digits_val_nonneg(s);
    if s.len() == 1 {
        assert(is_digit(s[0]));
        assert(digits_val(s.drop_last()) == 0);
        assert(s.last() == s[0]);
        assert(digits_val(s) == s[0] - 0x30);
        assert(dec_nat(digits_val(s) as nat) == seq![(0x30 + (s[0] - 0x30) as nat) as u8]);
    } else {
        let st = s.drop_last();
        assert(st[0] == s[0]);
        assert(s[0] != 0x30);
        lemma_digits_val_pos(st);
        lemma_digits_val_nonneg(st);
        lemma_dec_nat_digits_val(st);
        let v = digits_val(s);
        let vt = digits_val(st);
        assert(v == vt * 10 + (s.last() - 0x30));
        lemma_fundamental_div_mod_converse(v, 10, vt, s.last() - 0x30);
        assert(v >= 10);
        assert(dec_nat(v as nat) == dec_nat((v / 10) as nat).push((0x30 + v % 10) as u8));
        assert(dec_nat(v as nat) =~= s);
    }
}

/// Extending a digit run on the right cannot shrink its value.
pub proof fn lemma_digits_val_take(s: Seq<u8>, k: int)
    requires
        forall|j: int| 0 <= j < s.len() ==> is_digit(#[trigger] s[j]),
        0 <= k <= s.len(),
    ensures
        digits_val(s.take(k)) <= digits_val(s),
    decreases s.len() - k,
{
    if k < s.len() {
        assert(s.take(k + 1).drop_last() =~= s.take(k));
        lemma_digits_val_nonneg(s.take(k));
        lemma_digits_val_take(s, k + 1);
    } else {
        assert(s.take(k) =~= s);
    }
}

/// Where the digit run beginning at `i` ends: every byte before the end is a
/// digit, and the end is the end of the text or a byte that is no digit.
pub proof fn lemma_digit_run(s: Seq<u8>, i: int)
    requires
        0 <= i <= s.len(),
    ensures
        i <= digit_run_end(s, i) <= s.len(),
        forall|k: int| i <= k < digit_run_end(s, i) ==> is_digit(#[trigger] s[k]),
        digit_run_end(s, i) == s.len() || !is_digit(s[digit_run_end(s, i)]),
    decreases s.len() - i,
{
    if i < s.len() && is_digit(s[i]) {
        lemma_digit_run(s, i + 1);
    }
}

/// A run of `l` digits at `i` followed by the end of the text or a non-digit
/// ends exactly at `i + l`.
pub proof fn lemma_digit_run_exact(s: Seq<u8>, i: int, l: int)
    requires
        0 <= i,
        0 <= l,
        i + l <= s.len(),
        forall|k: int| i <= k < i + l ==> is_digit(#[trigger] s[k]),
        i + l == s.len() || !is_digit(s[i + l]),
    ensures
        digit_run_end(s, i) == i + l,
    decreases l,
{
    if l > 0 {
        lemma_digit_run_exact(s, i + 1, l - 1);
    }
}

/// Appends the canonical decimal digits of `n`.
pub fn write_nat(n: u64, out: &mut Vec<u8>)
    ensures
        final(out)@ == old(out)@ + dec_nat(n as nat),
    decreases n,
{
    if n < 10 {
        out.push(0x30 + (n as u8));
        proof {
            assert(out@ =~= old(out)@ + dec_nat(n as nat));
        }
    } else {
        let d: u8 = (n % 10) as u8;
        write_nat(n / 10, out);
        out.push(0x30 + d);
        proof {
            assert((n / 10) as nat == (n as nat) / 10);
            assert(out@ =~= old(out)@ + dec_nat(n as nat));
        }
    }
}

/// Appends the canonical decimal digits of `i`, minus sign included.
pub fn write_int(i: i64, out: &mut Vec<u8>)
    ensures
        final(out)@ == old(out)@ + dec_int(i as int),
{
    if i >= 0 {
        write_nat(i as u64, out);
    } else {
        out.push(0x2d);
        let m: u64 = ((-(i + 1)) as u64) + 1;
        proof {
            assert(m == -(i as int));
        }
        write_nat(m, out);
        proof {
            assert(out@ =~= old(out)@ + dec_int(i as int));
        }
    }
}

/// Reads the run of digits beginning at `i` as a number; `None` when the run
/// denotes more than a machine word holds.
#[verifier::loop_isolation(false)]
pub fn scan_digits(s: &Vec<u8>, i: usize) -> (r: Option<(u64, usize)>)
    requires
        i <= s@.len(),
    ensures
        r matches Some(p) ==> {
            &&& p.1 == digit_run_end(s@, i as int)
            &&& i <= p.1 <= s@.len()
            &&& p.0 == digits_val(s@.subrange(i as int, p.1 as int))
        },
        r is None ==> digits_val(s@.subrange(i as int, digit_run_end(s@, i as int))) > u64::MAX,
{
    proof {
        lemma_digit_run(s@, i as int);
    }
    let ghost g_end = digit_run_end(s@, i as int);
    let mut k: usize = i;
    let mut n: u64 = 0;
    while k < s.len() && 0x30 <= s[k] && s[k] <= 0x39
        invariant
            i <= k <= s@.len(),
            forall|t: int| i <= t < k ==> is_digit(#[trigger] s@[t]),
            digit_run_end(s@, k as int) == g_end,
            n == digits_val(s@.subrange(i as int, k as int)),
        decreases s@.len() - k,
    {
        let b = s[k];
        let d = b - 0x30;
        proof {
            lemma_digit_run(s@, k as int + 1);
            assert(s@.subrange(i as int, k as int + 1).drop_last() =~= s@.subrange(
                i as int,
                k as int,
            ));
            lemma_fundamental_div_mod(u64::MAX - d, 10);
        }
        if n > (u64::MAX - (d as u64)) / 10 {
            proof {
                let run = s@.subrange(i as int, g_end);
                assert(run.take(k - i + 1) =~= s@.subrange(i as int, k as int + 1));
                lemma_digits_val_take(run, k - i + 1);
            }
            return None;
        }
        n = n * 10 + (d as u64);
        k = k + 1;
    }
    Some((n, k))
}

/// The run of digits at `st` of a pure-integer literal denotes a value the
/// machine integers hold.
pub open spec fn int_fits_i64(t: Seq<u8>, st: int, ie: int) -> bool {
    let v = digits_val(t.subrange(st, ie));
    if st == 1 {
        1 <= v <= 0x8000000000000000
    } else {
        v <= 0x7fffffffffffffff
    }
}

/// A number literal carried opaquely: sign, canonical integer part, then a
/// fraction or an exponent or both — or a bare integer the machine integers
/// cannot hold. Exactly the numbers the integer leaf does not cover.
pub open spec fn num_lit_wf(t: Seq<u8>) -> bool {
    let st: int = if t.len() > 0 && t[0] == 0x2d {
        1
    } else {
        0
    };
    let ie = digit_run_end(t, st);
    let has_frac = ie < t.len() && t[ie] == 0x2e;
    let fe = if has_frac {
        digit_run_end(t, ie + 1)
    } else {
        ie
    };
    let has_exp = fe < t.len() && (t[fe] == 0x65 || t[fe] == 0x45);
    let es: int = if has_exp && fe + 1 < t.len() && (t[fe + 1] == 0x2b || t[fe + 1] == 0x2d) {
        fe + 2
    } else {
        fe + 1
    };
    let ee = if has_exp {
        digit_run_end(t, es)
    } else {
        fe
    };
    &&& ie > st
    &&& (t[st] == 0x30 ==> ie == st + 1)
    &&& (has_frac ==> fe > ie + 1)
    &&& (has_exp ==> ee > es)
    &&& ee == t.len()
    &&& (has_frac || has_exp || !int_fits_i64(t, st, ie))
}

/// A byte that could extend a number literal: a digit, the decimal point,
/// or an exponent marker.
pub open spec fn is_num_ext(b: u8) -> bool {
    is_digit(b) || b == 0x2e || b == 0x65 || b == 0x45
}

/// Finds the end of the run of digits beginning at `i`.
#[verifier::loop_isolation(false)]
pub fn scan_digit_end(s: &Vec<u8>, i: usize) -> (r: usize)
    requires
        i <= s@.len(),
    ensures
        r == digit_run_end(s@, i as int),
        i <= r <= s@.len(),
{
    let mut k: usize = i;
    while k < s.len() && 0x30 <= s[k] && s[k] <= 0x39
        invariant
            i <= k <= s@.len(),
            digit_run_end(s@, k as int) == digit_run_end(s@, i as int),
        decreases s@.len() - k,
    {
        k = k + 1;
    }
    proof {
        lemma_digit_run(s@, i as int);
    }
    k
}

/// The lower-case hexadecimal digit of a value below sixteen.
pub open spec fn hexd(n: u8) -> u8 {
    if n < 10 {
        (0x30 + n) as u8
    } else {
        (0x57 + n) as u8
    }
}

/// How one byte of a string is written: quote and backslash take an escape,
/// the control bytes with short escapes take those, the other control bytes
/// take a four-digit escape, and every other byte stands as itself.
pub open spec fn esc_byte(b: u8) -> Seq<u8> {
    if b == 0x22 || b == 0x5c {
        seq![0x5cu8, b]
    } else if b == 0x08 {
        seq![0x5cu8, 0x62]
    } else if b == 0x09 {
        seq![0x5cu8, 0x74]
    } else if b == 0x0a {
        seq![0x5cu8, 0x6e]
    } else if b == 0x0c {
        seq![0x5cu8, 0x66]
    } else if b == 0x0d {
        seq![0x5cu8, 0x72]
    } else if b < 0x20 {
        seq![0x5cu8, 0x75, 0x30, 0x30, hexd(b / 16), hexd(b % 16)]
    } else {
        seq![b]
    }
}

/// The escaped form of a string body.
pub open spec fn esc(s: Seq<u8>) -> Seq<u8>
    decreases s,
{
    if s.len() == 0 {
        Seq::<u8>::empty()
    } else {
        esc_byte(s.first()) + esc(s.drop_first())
    }
}

/// Escaping distributes over concatenation.
pub proof fn lemma_esc_app(a: Seq<u8>, b: Seq<u8>)
    ensures
        esc(a + b) == esc(a) + esc(b),
    decreases a,
{
    if a.len() == 0 {
        assert(a + b =~= b);
        assert(esc(a) + esc(b) =~= esc(b));
    } else {
        assert((a + b).first() == a.first());
        assert((a + b).drop_first() =~= a.drop_first() + b);
        lemma_esc_app(a.drop_first(), b);
        assert(esc(a + b) =~= esc(a) + esc(b));
    }
}

/// The canonical text of a payload tree. A binary leaf has no text: it never
/// appears on the wire (see the attachment transform).
pub open spec fn jser(v: Val) -> Seq<u8>
    decreases v, 0int,
{
    match v {
        Val::Null => seq![0x6eu8, 0x75, 0x6c, 0x6c],
        Val::Bool(b) => if b {
            seq![0x74u8, 0x72, 0x75, 0x65]
        } else {
            seq![0x66u8, 0x61, 0x6c, 0x73, 0x65]
        },
        Val::Int(i) => dec_int(i),
        Val::Num(n) => n,
        Val::Str(s) => seq![0x22u8] + esc(s) + seq![0x22u8],
        Val::Bin(_) => Seq::<u8>::empty(),
        Val::Arr(vs) => seq![0x5bu8] + jser_items(vs),
        Val::Obj(ps) => seq![0x7bu8] + jser_fields(ps),
    }
}

/// The text after `[`: the elements separated by commas, then `]`.
pub open spec fn jser_items(vs: Seq<Val>) -> Seq<u8>
    decreases vs, 1int,
{
    if vs.len() == 0 {
        seq![0x5du8]
    } else {
        jser(vs[0]) + jser_more(vs.drop_first())
    }
}

/// The text after the first element of a sequence.
pub open spec fn jser_more(vs: Seq<Val>) -> Seq<u8>
    decreases vs, 2int,
{
    if vs.len() == 0 {
        seq![0x5du8]
    } else {
        seq![0x2cu8] + jser(vs[0]) + jser_more(vs.drop_first())
    }
}

/// The text of one mapping entry: quoted key, colon, value.
pub open spec fn jser_field(p: (Seq<u8>, Val)) -> Seq<u8>
    decreases p, 3int,
{
    seq![0x22u8] + esc(p.0) + seq![0x22u8, 0x3au8] + jser(p.1)
}

/// The text after `{`: the entries separated by commas, then `}`.
pub open spec fn jser_fields(ps: Seq<(Seq<u8>, Val)>) -> Seq<u8>
    decreases ps, 4int,
{
    if ps.len() == 0 {
        seq![0x7du8]
    } else {
        jser_field(ps[0]) + jser_fields_more(ps.drop_first())
    }
}

/// The text after the first entry of a mapping.
pub open spec fn jser_fields_more(ps: Seq<(Seq<u8>, Val)>) -> Seq<u8>
    decreases ps, 5int,
{
    if ps.len() == 0 {
        seq![0x7du8]
    } else {
        seq![0x2cu8] + jser_field(ps[0]) + jser_fields_more(ps.drop_first())
    }
}

/// Writes the lower-case hexadecimal digit of a value below sixteen.
pub fn hex_digit(n: u8) -> (r: u8)
    requires
        n < 16,
    ensures
        r == hexd(n),
{
    if n < 10 {
        0x30 + n
    } else {
        0x57 + n
    }
}

/// The value of a lower-case or upper-case hexadecimal digit byte.
pub open spec fn hexv(b: u8) -> Option<u8> {
    if 0x30 <= b <= 0x39 {
        Some((b - 0x30) as u8)
    } else if 0x61 <= b <= 0x66 {
        Some((b - 0x57) as u8)
    } else if 0x41 <= b <= 0x46 {
        Some((b - 0x37) as u8)
    } else {
        None
    }
}

/// Reads the value of a hexadecimal digit byte.
pub fn hex_value(b: u8) -> (r: Option<u8>)
    ensures
        r == hexv(b),
{
    if 0x30 <= b && b <= 0x39 {
        Some(b - 0x30)
    } else if 0x61 <= b && b <= 0x66 {
        Some(b - 0x57)
    } else if 0x41 <= b && b <= 0x46 {
        Some(b - 0x37)
    } else {
        None
    }
}

/// Appends the bytes of `b`.
#[verifier::loop_isolation(false)]
pub fn push_bytes(b: &Vec<u8>, out: &mut Vec<u8>)
    ensures
        final(out)@ == old(out)@ + b@,
{
    let mut k: usize = 0;
    while k < b.len()
        invariant
            k <= b@.len(),
            out@ == old(out)@ + b@.take(k as int),
        decreases b@.len() - k,
    {
        out.push(b[k]);
        proof {
            assert(b@.take(k as int + 1) =~= b@.take(k as int).push(b@[k as int]));
        }
        k = k + 1;
    }
    proof {
        assert(b@.take(b@.len() as int) =~= b@);
    }
}

/// Appends the escape of one string byte.
pub fn push_esc_byte(b: u8, out: &mut Vec<u8>)
    ensures
        final(out)@ == old(out)@ + esc_byte(b),
{
    if b == 0x22 || b == 0x5c {
        out.push(0x5c);
        out.push(b);
    } else if b == 0x08 {
        out.push(0x5c);
        out.push(0x62);
    } else if b == 0x09 {
        out.push(0x5c);
        out.push(0x74);
    } else if b == 0x0a {
        out.push(0x5c);
        out.push(0x6e);
    } else if b == 0x0c {
        out.push(0x5c);
        out.push(0x66);
    } else if b == 0x0d {
        out.push(0x5c);
        out.push(0x72);
    } else if b < 0x20 {
        out.push(0x5c);
        out.push(0x75);
        out.push(0x30);
        out.push(0x30);
        out.push(hex_digit(b / 16));
        out.push(hex_digit(b % 16));
    } else {
        out.push(b);
    }
    proof {
        assert(out@ =~= old(out)@ + esc_byte(b));
    }
}

/// Appends the escaped form of a string body.
#[verifier::loop_isolation(false)]
pub fn write_esc(s: &Vec<u8>, out: &mut Vec<u8>)
    ensures
        final(out)@ == old(out)@ + esc(s@),
{
    let mut k: usize = 0;
    while k < s.len()
        invariant
            k <= s@.len(),
            out@ == old(out)@ + esc(s@.take(k as int)),
        decreases s@.len() - k,
    {
        push_esc_byte(s[k], out);
        proof {
            assert(s@.take(k as int + 1) =~= s@.take(k as int) + seq![s@[k as int]]);
            lemma_esc_app(s@.take(k as int), seq![s@[k as int]]);
            assert(seq![s@[k as int]].drop_first() =~= Seq::<u8>::empty());
            assert(esc(seq![s@[k as int]]) =~= esc_byte(s@[k as int]) + esc(
                Seq::<u8>::empty(),
            ));
            assert(esc(seq![s@[k as int]]) =~= esc_byte(s@[k as int]));
            assert(out@ =~= old(out)@ + esc(s@.take(k as int + 1)));
        }
        k = k + 1;
    }
    proof {
        assert(s@.take(s@.len() as int) =~= s@);
    }
}

/// Appends the canonical text of `v`.
pub fn write_value(v: &Value, out: &mut Vec<u8>)
    ensures
        final(out)@ == old(out)@ + jser(v@),
    decreases v, 0int,
{
    match v {
        Value::Null => {
            out.push(0x6e);
            out.push(0x75);
            out.push(0x6c);
            out.push(0x6c);
            proof {
                assert(out@ =~= old(out)@ + jser(v@));
            }
        },
        Value::Bool(b) => {
            if *b {
                out.push(0x74);
                out.push(0x72);
                out.push(0x75);
                out.push(0x65);
            } else {
                out.push(0x66);
                out.push(0x61);
                out.push(0x6c);
                out.push(0x73);
                out.push(0x65);
            }
            proof {
                assert(out@ =~= old(out)@ + jser(v@));
            }
        },
        Value::Int(i) => {
            write_int(*i, out);
        },
        Value::Num(n) => {
            push_bytes(n, out);
        },
        Value::Str(s) => {
            out.push(0x22);
            write_esc(s, out);
            out.push(0x22);
            proof {
                assert(out@ =~= old(out)@ + jser(v@));
            }
        },
        Value::Bin(_) => {
            proof {
                assert(out@ =~= old(out)@ + jser(v@));
            }
        },
        Value::Arr(vs) => {
            out.push(0x5b);
            proof {
                assert(decreases_to!(*v => *vs));
            }
            write_items(vs, out);
            proof {
                assert(out@ =~= old(out)@ + jser(v@));
            }
        },
        Value::Obj(ps) => {
            out.push(0x7b);
            proof {
                assert(decreases_to!(*v => *ps));
            }
            write_fields(ps, out);
            proof {
                assert(out@ =~= old(out)@ + jser(v@));
            }
        },
    }
}

/// Appends the text after `[` for the elements of `vs`.
pub fn write_items(vs: &Vec<Value>, out: &mut Vec<u8>)
    ensures
        final(out)@ == old(out)@ + jser_items(view_seq(vs@)),
    decreases vs, vs@.len() + 2,
{
    proof {
        lemma_view_seq(vs@);
    }
    if vs.len() == 0 {
        out.push(0x5d);
        proof {
            assert(out@ =~= old(out)@ + jser_items(view_seq(vs@)));
        }
    } else {
        proof {
            assert(decreases_to!(*vs => vs@));
            assert(decreases_to!(vs@ => vs@[0]));
        }
        write_value(&vs[0], out);
        write_more(vs, 1, out);
        proof {
            assert(view_seq(vs@).drop_first() =~= view_seq(vs@).skip(1));
            assert(out@ =~= old(out)@ + jser_items(view_seq(vs@)));
        }
    }
}

/// Appends the text after element `k - 1` for the rest of the elements.
pub fn write_more(vs: &Vec<Value>, k: usize, out: &mut Vec<u8>)
    requires
        1 <= k <= vs@.len(),
    ensures
        final(out)@ == old(out)@ + jser_more(view_seq(vs@).skip(k as int)),
    decreases vs, vs@.len() - k + 1,
{
    proof {
        lemma_view_seq(vs@);
    }
    if k == vs.len() {
        out.push(0x5d);
        proof {
            assert(view_seq(vs@).skip(k as int) =~= Seq::<Val>::empty());
            assert(out@ =~= old(out)@ + jser_more(view_seq(vs@).skip(k as int)));
        }
    } else {
        out.push(0x2c);
        proof {
            assert(decreases_to!(*vs => vs@));
            assert(decreases_to!(vs@ => vs@[k as int]));
        }
        write_value(&vs[k], out);
        write_more(vs, k + 1, out);
        proof {
            let rest = view_seq(vs@).skip(k as int);
            assert(rest[0] == vs@[k as int]@);
            assert(rest.drop_first() =~= view_seq(vs@).skip(k as int + 1));
            assert(out@ =~= old(out)@ + jser_more(view_seq(vs@).skip(k as int)));
        }
    }
}

/// Appends the text after `{` for the entries of `ps`.
pub fn write_fields(ps: &Vec<(Vec<u8>, Value)>, out: &mut Vec<u8>)
    ensures
        final(out)@ == old(out)@ + jser_fields(view_entries(ps@)),
    decreases ps, ps@.len() + 2,
{
    proof {
        lemma_view_entries(ps@);
    }
    if ps.len() == 0 {
        out.push(0x7d);
        proof {
            assert(out@ =~= old(out)@ + jser_fields(view_entries(ps@)));
        }
    } else {
        proof {
            assert(decreases_to!(*ps => ps@));
            assert(decreases_to!(ps@ => ps@[0]));
            assert(decreases_to!(ps@[0] => ps@[0].1));
        }
        out.push(0x22);
        write_esc(&ps[0].0, out);
        out.push(0x22);
        out.push(0x3a);
        write_value(&ps[0].1, out);
        write_fields_more(ps, 1, out);
        proof {
            assert(view_entries(ps@).drop_first() =~= view_entries(ps@).skip(1));
            assert(out@ =~= old(out)@ + jser_fields(view_entries(ps@)));
        }
    }
}

/// Appends the text after entry `k - 1` for the rest of the entries.
pub fn write_fields_more(ps: &Vec<(Vec<u8>, Value)>, k: usize, out: &mut Vec<u8>)
    requires
        1 <= k <= ps@.len(),
    ensures
        final(out)@ == old(out)@ + jser_fields_more(view_entries(ps@).skip(k as int)),
    decreases ps, ps@.len() - k + 1,
{
    proof {
        lemma_view_entries(ps@);
    }
    if k == ps.len() {
        out.push(0x7d);
        proof {
            assert(view_entries(ps@).skip(k as int) =~= Seq::<(Seq<u8>, Val)>::empty());
            assert(out@ =~= old(out)@ + jser_fields_more(view_entries(ps@).skip(k as int)));
        }
    } else {
        out.push(0x2c);
        proof {
            assert(decreases_to!(*ps => ps@));
            assert(decreases_to!(ps@ => ps@[k as int]));
            assert(decreases_to!(ps@[k as int] => ps@[k as int].1));
        }
        out.push(0x22);
        write_esc(&ps[k].0, out);
        out.push(0x22);
        out.push(0x3a);
        write_value(&ps[k].1, out);
        write_fields_more(ps, k + 1, out);
        proof {
            let rest = view_entries(ps@).skip(k as int);
            assert(rest[0] == (ps@[k as int].0@, ps@[k as int].1@));
            assert(rest.drop_first() =~= view_entries(ps@).skip(k as int + 1));
            assert(jser_fields_more(rest) == seq![0x2cu8] + jser_field(rest[0])
                + jser_fields_more(rest.drop_first()));
            assert(jser_field(rest[0]) =~= seq![0x22u8] + esc(ps@[k as int].0@) + seq![
                0x22u8,
                0x3au8,
            ] + jser(ps@[k as int].1@));
            assert(out@ =~= old(out)@ + jser_fields_more(view_entries(ps@).skip(k as int)));
        }
    }
}

/// `p` is the text of `s` beginning at `i`.
pub open spec fn starts_at(s: Seq<u8>, i: int, p: Seq<u8>) -> bool {
    0 <= i && i + p.len() <= s.len() && s.subrange(i, i + p.len()) == p
}

/// After the text of `v` ending at `j`, the parse of `v` cannot be extended:
/// a number must not be followed by a digit, a decimal point or an exponent
/// marker; every other form ends itself.
pub open spec fn delim_ok(v: Val, s: Seq<u8>, j: int) -> bool {
    match v {
        Val::Int(_) => j == s.len() || !is_num_ext(s[j]),
        Val::Num(_) => j == s.len() || !is_num_ext(s[j]),
        _ => true,
    }
}

/// The text of `v` stands at `i` and ends where no parse could extend it.
pub open spec fn can_parse(v: Val, s: Seq<u8>, i: int) -> bool {
    starts_at(s, i, jser(v)) && delim_ok(v, s, i + jser(v).len())
}

/// Every element of `vs` is fit for the wire.
pub open spec fn all_json(vs: Seq<Val>) -> bool {
    forall|k: int| 0 <= k < vs.len() ==> is_json(#[trigger] vs[k])
}

/// Every entry value of `ps` is fit for the wire.
pub open spec fn all_json_fields(ps: Seq<(Seq<u8>, Val)>) -> bool {
    forall|k: int| 0 <= k < ps.len() ==> is_json(#[trigger] ps[k].1)
}

/// The text of a wire-fit value is never empty, and its first byte names its
/// form.
pub proof fn lemma_jser_first(v: Val)
    requires
        is_json(v),
    ensures
        jser(v).len() >= 1,
        v is Null ==> jser(v)[0] == 0x6e,
        v is Bool ==> jser(v)[0] == 0x74 || jser(v)[0] == 0x66,
        v is Int ==> jser(v)[0] == 0x2d || is_digit(jser(v)[0]),
        v is Num ==> jser(v).len() >= 1 && (jser(v)[0] == 0x2d || is_digit(jser(v)[0])),
        v is Str ==> jser(v)[0] == 0x22,
        v is Arr ==> jser(v)[0] == 0x5b,
        v is Obj ==> jser(v)[0] == 0x7b,
{
    match v {
        Val::Int(i) => {
            if i < 0 {
                lemma_dec_nat((-i) as nat);
            } else {
                lemma_dec_nat(i as nat);
                assert(jser(v)[0] == dec_nat(i as nat)[0]);
            }
        },
        Val::Num(n) => {
            let st: int = if n.len() > 0 && n[0] == 0x2d {
                1
            } else {
                0
            };
            lemma_digit_run(n, st);
            assert(digit_run_end(n, st) > st);
            if st == 0 {
                assert(is_digit(n[0]));
            }
        },
        _ => {},
    }
}

/// The text after the first element, `jser_more`, begins with a comma or the
/// closing bracket; likewise `jser_fields_more` with a comma or the closing
/// brace, and `jser_items` / `jser_fields` where the sequence is empty.
pub proof fn lemma_jser_more_first(vs: Seq<Val>)
    ensures
        jser_more(vs).len() >= 1,
        jser_more(vs)[0] == 0x2c || jser_more(vs)[0] == 0x5d,
        vs.len() == 0 ==> jser_more(vs)[0] == 0x5d,
        vs.len() > 0 ==> jser_more(vs)[0] == 0x2c,
{
}

/// See `lemma_jser_more_first`.
pub proof fn lemma_jser_fields_more_first(ps: Seq<(Seq<u8>, Val)>)
    ensures
        jser_fields_more(ps).len() >= 1,
        ps.len() == 0 ==> jser_fields_more(ps)[0] == 0x7d,
        ps.len() > 0 ==> jser_fields_more(ps)[0] == 0x2c,
{
}

/// Reads a string body up to and including the closing quote, undoing the
/// escapes; exactly the texts `esc` produces are accepted.
#[verifier::rlimit(60)]
pub fn parse_str_body(s: &Vec<u8>, i: usize) -> (r: Option<(Vec<u8>, usize)>)
    requires
        i <= s@.len(),
    ensures
        r matches Some(p) ==> {
            &&& i < p.1 <= s@.len()
            &&& s@.subrange(i as int, p.1 as int) == esc(p.0@) + seq![0x22u8]
        },
        forall|t: Seq<u8>| #[trigger]
            starts_at(s@, i as int, esc(t) + seq![0x22u8]) ==> (r matches Some(p) && p.0@ == t
                && p.1 == i + esc(t).len() + 1),
    decreases s@.len() - i,
{
    if i >= s.len() {
        proof {
            assert forall|t: Seq<u8>| starts_at(s@, i as int, esc(t) + seq![0x22u8]) implies false
            by {
                assert((esc(t) + seq![0x22u8]).len() >= 1);
            }
        }
        return None;
    }
    let b = s[i];
    if b == 0x22 {
        let out: Vec<u8> = Vec::new();
        proof {
            assert(s@.subrange(i as int, i as int + 1) =~= esc(out@) + seq![0x22u8]);
            assert forall|t: Seq<u8>|
                starts_at(s@, i as int, esc(t) + seq![0x22u8]) implies t == out@ && i + 1 == i
                + esc(t).len() + 1 by {
                if t.len() > 0 {
                    assert(esc(t) == esc_byte(t.first()) + esc(t.drop_first()));
                    assert((esc(t) + seq![0x22u8])[0] == esc_byte(t.first())[0]);
                    assert(esc_byte(t.first())[0] != 0x22);
                    assert(s@[i as int] == (esc(t) + seq![0x22u8])[0]);
                    assert(false);
                }
                assert(t =~= out@);
                assert(esc(t).len() == 0);
            }
        }
        return Some((out, i + 1));
    }
    let cs: Option<(u8, usize)> = if b != 0x5c {
        if b < 0x20 {
            None
        } else {
            Some((b, 1))
        }
    } else if s.len() - i < 2 {
        None
    } else {
        let m = s[i + 1];
        if m == 0x22 || m == 0x5c {
            Some((m, 2))
        } else if m == 0x62 {
            Some((0x08, 2))
        } else if m == 0x74 {
            Some((0x09, 2))
        } else if m == 0x6e {
            Some((0x0a, 2))
        } else if m == 0x66 {
            Some((0x0c, 2))
        } else if m == 0x72 {
            Some((0x0d, 2))
        } else if m == 0x75 {
            if s.len() - i < 6 {
                None
            } else if s[i + 2] != 0x30 || s[i + 3] != 0x30 {
                None
            } else {
                let h = s[i + 4];
                let l = s[i + 5];
                if h != 0x30 && h != 0x31 {
                    None
                } else if 0x41 <= l && l <= 0x46 {
                    None
                } else {
                    match hex_value(l) {
                        None => None,
                        Some(lv) => {
                            let c0 = 16 * (h - 0x30) + lv;
                            if c0 == 0x08 || c0 == 0x09 || c0 == 0x0a || c0 == 0x0c || c0
                                == 0x0d {
                                None
                            } else {
                                Some((c0, 6))
                            }
                        },
                    }
                }
            }
        } else {
            None
        }
    };
    proof {
        assert forall|t: Seq<u8>|
            starts_at(s@, i as int, esc(t) + seq![0x22u8]) implies (cs matches Some(p)
            && t.len() >= 1 && t[0] == p.0 && esc_byte(t[0]).len() == p.1 && starts_at(
            s@,
            i + p.1,
            esc(t.drop_first()) + seq![0x22u8],
        )) by {
            lemma_esc_prefix_shape(t, s@, i as int);
            let c0 = t[0];
            lemma_starts_at_index(s@, i as int, esc_byte(c0), 0);
            if esc_byte(c0).len() >= 2 {
                lemma_starts_at_index(s@, i as int, esc_byte(c0), 1);
            }
            if esc_byte(c0).len() == 6 {
                lemma_starts_at_index(s@, i as int, esc_byte(c0), 2);
                lemma_starts_at_index(s@, i as int, esc_byte(c0), 3);
                lemma_starts_at_index(s@, i as int, esc_byte(c0), 4);
                lemma_starts_at_index(s@, i as int, esc_byte(c0), 5);
                lemma_fundamental_div_mod(c0 as int, 16);
                assert(c0 / 16 == 0 || c0 / 16 == 1);
                assert(s@[i as int + 4] == hexd(c0 / 16));
                assert(s@[i as int + 5] == hexd(c0 % 16));
                assert(hexv(hexd(c0 % 16)) == Some((c0 % 16) as u8));
            }
        }
    }
    let (c, step) = match cs {
        Some(p) => p,
        None => {
            return None;
        },
    };
    proof {
        assert(s@.subrange(i as int, i as int + step) =~= esc_byte(c)) by {
            if step == 6 {
                lemma_fundamental_div_mod_converse(
                    c as int,
                    16,
                    (s@[i as int + 4] - 0x30) as int,
                    hexv(s@[i as int + 5])->Some_0 as int,
                );
            }
        }
    }
    match parse_str_body(s, i + step) {
        Some((mut tail, j)) => {
            let ghost tail0 = tail@;
            tail.insert(0, c);
            proof {
                assert(tail@.drop_first() =~= tail0);
                assert(tail@.first() == c);
                assert(esc(tail@) == esc_byte(c) + esc(tail0));
                assert(s@.subrange(i as int, j as int) =~= esc_byte(c) + s@.subrange(
                    i as int + step,
                    j as int,
                ));
                assert(s@.subrange(i as int, j as int) =~= esc(tail@) + seq![0x22u8]);
                assert forall|t: Seq<u8>|
                    starts_at(s@, i as int, esc(t) + seq![0x22u8]) implies t == tail@ && j == i
                    + esc(t).len() + 1 by {
                    assert(t.len() >= 1 && t[0] == c);
                    assert(esc(t) == esc_byte(t.first()) + esc(t.drop_first()));
                    assert(t =~= seq![t.first()] + t.drop_first());
                    assert(tail@ =~= seq![c] + tail0);
                }
            }
            Some((tail, j))
        },
        None => {
            proof {
                assert forall|t: Seq<u8>|
                    starts_at(s@, i as int, esc(t) + seq![0x22u8]) implies false by {}
            }
            None
        },
    }
}

/// When the escaped text of `t`, closing quote included, stands at `i` and
/// the byte at `i` is no closing quote, `t` is not empty, the escape of its
/// first byte stands at `i`, and the rest of the escaped text follows it.
proof fn lemma_esc_prefix_shape(t: Seq<u8>, s: Seq<u8>, i: int)
    requires
        starts_at(s, i, esc(t) + seq![0x22u8]),
        s[i] != 0x22,
    ensures
        t.len() >= 1,
        starts_at(s, i, esc_byte(t[0])),
        starts_at(s, i + esc_byte(t[0]).len(), esc(t.drop_first()) + seq![0x22u8]),
        s[i] == esc_byte(t[0])[0],
{
    let p = esc(t) + seq![0x22u8];
    assert(s[i] == p[0]) by {
        assert(s.subrange(i, i + p.len())[0] == s[i]);
    }
    if t.len() == 0 {
        assert(p[0] == 0x22);
    }
    assert(esc(t) == esc_byte(t.first()) + esc(t.drop_first()));
    assert(p =~= esc_byte(t[0]) + (esc(t.drop_first()) + seq![0x22u8]));
    lemma_starts_at_split(s, i, esc_byte(t[0]), esc(t.drop_first()) + seq![0x22u8]);
    lemma_starts_at_index(s, i, esc_byte(t[0]), 0);
}

/// A text standing at `i` splits into its two parts.
pub proof fn lemma_starts_at_split(s: Seq<u8>, i: int, a: Seq<u8>, b: Seq<u8>)
    requires
        starts_at(s, i, a + b),
    ensures
        starts_at(s, i, a),
        starts_at(s, i + a.len(), b),
{
    let ab = a + b;
    assert forall|k: int| 0 <= k < ab.len() implies s[i + k] == ab[k] by {
        assert(s.subrange(i, i + ab.len())[k] == s[i + k]);
    }
    assert(s.subrange(i, i + a.len()) =~= a);
    assert forall|k: int| 0 <= k < b.len() implies s.subrange(
        i + a.len(),
        i + a.len() + b.len(),
    )[k] == b[k] by {
        assert(s[i + (a.len() + k)] == ab[a.len() + k]);
    }
    assert(s.subrange(i + a.len(), i + a.len() + b.len()) =~= b);
}

/// Each byte of a text standing at `i` stands at its offset.
pub proof fn lemma_starts_at_index(s: Seq<u8>, i: int, p: Seq<u8>, k: int)
    requires
        starts_at(s, i, p),
        0 <= k < p.len(),
    ensures
        s[i + k] == p[k],
{
    assert(s.subrange(i, i + p.len())[k] == s[i + k]);
}

/// A wire-fit value whose text stands at `i` puts its first byte at `i`.
pub proof fn lemma_can_parse_first(v: Val, s: Seq<u8>, i: int)
    requires
        is_json(v),
        can_parse(v, s, i),
    ensures
        jser(v).len() >= 1,
        0 <= i < s.len(),
        s[i] == jser(v)[0],
{
    lemma_jser_first(v);
    lemma_starts_at_index(s, i, jser(v), 0);
}

/// Reads one value beginning at `i`. Exactly the canonical texts are
/// accepted: whenever the text of a wire-fit value stands at `i`, ending
/// where no parse could extend it, that value and the position after its
/// text are returned; and whatever is returned prints back to the very bytes
/// consumed.
pub fn parse_value(s: &Vec<u8>, i: usize) -> (r: Option<(Value, usize)>)
    requires
        i <= s@.len(),
    ensures
        r matches Some(p) ==> {
            &&& i < p.1 <= s@.len()
            &&& is_json(p.0@)
            &&& s@.subrange(i as int, p.1 as int) == jser(p.0@)
        },
        forall|v: Val|
            is_json(v) && #[trigger] can_parse(v, s@, i as int) ==> (r matches Some(p) && p.0@ == v
                && p.1 == i + jser(v).len()),
    decreases s@.len() - i, 0int,
{
    if i >= s.len() {
        proof {
            assert forall|v: Val|
                is_json(v) && #[trigger] can_parse(v, s@, i as int) implies false by {
                lemma_can_parse_first(v, s@, i as int);
            }
        }
        return None;
    }
    let b = s[i];
    if b == 0x6e {
        // null
        if s.len() - i >= 4 && s[i + 1] == 0x75 && s[i + 2] == 0x6c && s[i + 3] == 0x6c {
            proof {
                assert(s@.subrange(i as int, i as int + 4) =~= jser(Val::Null));
                lemma_only_null(s@, i as int);
            }
            Some((Value::Null, i + 4))
        } else {
            proof {
                assert forall|v: Val|
                    is_json(v) && #[trigger] can_parse(v, s@, i as int) implies false by {
                    lemma_only_null(s@, i as int);
                    assert(v == Val::Null);
                    lemma_starts_at_index(s@, i as int, jser(v), 1);
                    lemma_starts_at_index(s@, i as int, jser(v), 2);
                    lemma_starts_at_index(s@, i as int, jser(v), 3);
                }
            }
            None
        }
    } else if b == 0x74 {
        // true
        if s.len() - i >= 4 && s[i + 1] == 0x72 && s[i + 2] == 0x75 && s[i + 3] == 0x65 {
            proof {
                assert(s@.subrange(i as int, i as int + 4) =~= jser(Val::Bool(true)));
                lemma_only_true(s@, i as int);
            }
            Some((Value::Bool(true), i + 4))
        } else {
            proof {
                assert forall|v: Val|
                    is_json(v) && #[trigger] can_parse(v, s@, i as int) implies false by {
                    lemma_only_true(s@, i as int);
                    assert(v == Val::Bool(true));
                    lemma_starts_at_index(s@, i as int, jser(v), 1);
                    lemma_starts_at_index(s@, i as int, jser(v), 2);
                    lemma_starts_at_index(s@, i as int, jser(v), 3);
                }
            }
            None
        }
    } else if b == 0x66 {
        // false
        if s.len() - i >= 5 && s[i + 1] == 0x61 && s[i + 2] == 0x6c && s[i + 3] == 0x73 && s[i + 4]
            == 0x65 {
            proof {
                assert(s@.subrange(i as int, i as int + 5) =~= jser(Val::Bool(false)));
                lemma_only_false(s@, i as int);
            }
            Some((Value::Bool(false), i + 5))
        } else {
            proof {
                assert forall|v: Val|
                    is_json(v) && #[trigger] can_parse(v, s@, i as int) implies false by {
                    lemma_only_false(s@, i as int);
                    assert(v == Val::Bool(false));
                    lemma_starts_at_index(s@, i as int, jser(v), 1);
                    lemma_starts_at_index(s@, i as int, jser(v), 2);
                    lemma_starts_at_index(s@, i as int, jser(v), 3);
                    lemma_starts_at_index(s@, i as int, jser(v), 4);
                }
            }
            None
        }
    } else if b == 0x22 {
        // string
        let r = parse_str_body(s, i + 1);
        proof {
            assert forall|v: Val|
                is_json(v) && #[trigger] can_parse(v, s@, i as int) implies (v is Str && starts_at(
                s@,
                i as int + 1,
                esc(v->Str_0) + seq![0x22u8],
            )) by {
                lemma_only_str(s@, i as int);
                let t = v->Str_0;
                assert(jser(v) =~= seq![0x22u8] + (esc(t) + seq![0x22u8]));
                lemma_starts_at_split(s@, i as int, seq![0x22u8], esc(t) + seq![0x22u8]);
            }
        }
        match r {
            Some((t, j)) => {
                proof {
                    assert(s@.subrange(i as int, j as int) =~= seq![0x22u8] + s@.subrange(
                        i as int + 1,
                        j as int,
                    ));
                    assert(s@.subrange(i as int, j as int) =~= jser(Val::Str(t@)));
                }
                Some((Value::Str(t), j))
            },
            None => None,
        }
    } else if b == 0x5b {
        // sequence
        let r = parse_items(s, i + 1);
        proof {
            assert forall|v: Val|
                is_json(v) && #[trigger] can_parse(v, s@, i as int) implies (v is Arr && all_json(
                v->Arr_0,
            ) && starts_at(s@, i as int + 1, jser_items(v->Arr_0))) by {
                lemma_only_arr(s@, i as int);
                assert(jser(v) =~= seq![0x5bu8] + jser_items(v->Arr_0));
                lemma_starts_at_split(s@, i as int, seq![0x5bu8], jser_items(v->Arr_0));
            }
        }
        match r {
            Some((vs, j)) => {
                proof {
                    assert(s@.subrange(i as int, j as int) =~= seq![0x5bu8] + s@.subrange(
                        i as int + 1,
                        j as int,
                    ));
                    assert(s@.subrange(i as int, j as int) =~= jser(Val::Arr(view_seq(vs@))));
                }
                Some((Value::Arr(vs), j))
            },
            None => None,
        }
    } else if b == 0x7b {
        // mapping
        let r = parse_fields(s, i + 1);
        proof {
            assert forall|v: Val|
                is_json(v) && #[trigger] can_parse(v, s@, i as int) implies (v is Obj
                && all_json_fields(v->Obj_0) && starts_at(
                s@,
                i as int + 1,
                jser_fields(v->Obj_0),
            )) by {
                lemma_only_obj(s@, i as int);
                assert(jser(v) =~= seq![0x7bu8] + jser_fields(v->Obj_0));
                lemma_starts_at_split(s@, i as int, seq![0x7bu8], jser_fields(v->Obj_0));
            }
        }
        match r {
            Some((ps, j)) => {
                proof {
                    assert(s@.subrange(i as int, j as int) =~= seq![0x7bu8] + s@.subrange(
                        i as int + 1,
                        j as int,
                    ));
                    assert(s@.subrange(i as int, j as int) =~= jser(Val::Obj(view_entries(ps@))));
                }
                Some((Value::Obj(ps), j))
            },
            None => None,
        }
    } else if b == 0x2d || (0x30 <= b && b <= 0x39) {
        parse_number(s, i)
    } else {
        proof {
            assert forall|v: Val|
                is_json(v) && #[trigger] can_parse(v, s@, i as int) implies false by {
                lemma_can_parse_first(v, s@, i as int);
                lemma_jser_first(v);
                match v {
                    Val::Int(_) => {
                        assert(is_digit(jser(v)[0]) || jser(v)[0] == 0x2d);
                    },
                    Val::Num(_) => {
                        assert(is_digit(jser(v)[0]) || jser(v)[0] == 0x2d);
                    },
                    _ => {},
                }
            }
        }
        None
    }
}

/// Reads the elements of a sequence after its opening bracket, closing
/// bracket included.
pub fn parse_items(s: &Vec<u8>, i: usize) -> (r: Option<(Vec<Value>, usize)>)
    requires
        i <= s@.len(),
    ensures
        r matches Some(p) ==> {
            &&& i < p.1 <= s@.len()
            &&& all_json(view_seq(p.0@))
            &&& s@.subrange(i as int, p.1 as int) == jser_items(view_seq(p.0@))
        },
        forall|vs: Seq<Val>|
            all_json(vs) && #[trigger] starts_at(s@, i as int, jser_items(vs)) ==> (r matches Some(
                p,
            ) && view_seq(p.0@) == vs && p.1 == i + jser_items(vs).len()),
    decreases s@.len() - i, 1int,
{
    proof {
        assert forall|vs: Seq<Val>|
            all_json(vs) && #[trigger] starts_at(s@, i as int, jser_items(vs))
                && vs.len() > 0 implies can_parse(vs[0], s@, i as int) && starts_at(
            s@,
            i + jser(vs[0]).len(),
            jser_more(vs.drop_first()),
        ) by {
            lemma_items_head(vs, s@, i as int);
        }
    }
    if i < s.len() && s[i] == 0x5d {
        let out: Vec<Value> = Vec::new();
        proof {
            assert(view_seq(out@) =~= Seq::<Val>::empty());
            assert(s@.subrange(i as int, i as int + 1) =~= jser_items(Seq::<Val>::empty()));
            assert forall|vs: Seq<Val>|
                all_json(vs) && #[trigger] starts_at(s@, i as int, jser_items(vs)) implies vs.len()
                == 0 by {
                if vs.len() > 0 {
                    lemma_can_parse_first(vs[0], s@, i as int);
                    lemma_jser_first(vs[0]);
                    assert(s@[i as int] == jser(vs[0])[0]);
                    match vs[0] {
                        Val::Int(_) => {
                            assert(false);
                        },
                        _ => {
                            assert(false);
                        },
                    }
                }
            }
        }
        return Some((out, i + 1));
    }
    match parse_value(s, i) {
        None => {
            proof {
                assert forall|vs: Seq<Val>|
                    all_json(vs) && #[trigger] starts_at(s@, i as int, jser_items(vs)) implies false
                    by {
                    if vs.len() == 0 {
                        lemma_starts_at_index(s@, i as int, jser_items(vs), 0);
                    }
                }
            }
            None
        },
        Some((v0, j)) => {
            match parse_more(s, j) {
                None => {
                    proof {
                        assert forall|vs: Seq<Val>|
                            all_json(vs) && #[trigger] starts_at(
                            s@,
                            i as int,
                            jser_items(vs),
                        ) implies false by {
                            if vs.len() == 0 {
                                lemma_starts_at_index(s@, i as int, jser_items(vs), 0);
                            } else {
                                assert(v0@ == vs[0] && j == i + jser(vs[0]).len());
                            }
                        }
                    }
                    None
                },
                Some((mut rest, j2)) => {
                    let ghost rest0 = rest@;
                    rest.insert(0, v0);
                    proof {
                        lemma_view_seq(rest@);
                        lemma_view_seq(rest0);
                        assert(rest@ == rest0.insert(0, v0));
                        assert(rest@[0] == v0);
                        assert(view_seq(rest@)[0] == v0@);
                        assert forall|k: int| 1 <= k < rest@.len() implies view_seq(rest@)[k]
                            == view_seq(rest0)[k - 1] by {
                            assert(rest@[k] == rest0[k - 1]);
                        }
                        assert(view_seq(rest@).drop_first() =~= view_seq(rest0));
                        assert(s@.subrange(i as int, j2 as int) =~= s@.subrange(i as int, j as int)
                            + s@.subrange(j as int, j2 as int));
                        assert(s@.subrange(i as int, j2 as int) =~= jser_items(view_seq(rest@)));
                        assert forall|vs: Seq<Val>|
                            all_json(vs) && #[trigger] starts_at(
                            s@,
                            i as int,
                            jser_items(vs),
                        ) implies view_seq(rest@) == vs && j2 == i + jser_items(vs).len() by {
                            if vs.len() == 0 {
                                lemma_starts_at_index(s@, i as int, jser_items(vs), 0);
                            } else {
                                assert(v0@ == vs[0] && j == i + jser(vs[0]).len());
                                assert(view_seq(rest0) == vs.drop_first() && j2 == j + jser_more(
                                    vs.drop_first(),
                                ).len());
                                assert forall|k: int| 0 <= k < vs.len() implies view_seq(
                                    rest@,
                                )[k] == vs[k] by {
                                    if k >= 1 {
                                        assert(view_seq(rest@)[k] == view_seq(rest0)[k - 1]);
                                        assert(vs.drop_first()[k - 1] == vs[k]);
                                    }
                                }
                                assert(view_seq(rest@) =~= vs);
                            }
                        }
                    }
                    Some((rest, j2))
                },
            }
        },
    }
}

/// When the elements' text stands at `i` and there is a first element, its
/// text stands at `i` delimited, and the rest follows it.
proof fn lemma_items_head(vs: Seq<Val>, s: Seq<u8>, i: int)
    requires
        all_json(vs),
        vs.len() > 0,
        starts_at(s, i, jser_items(vs)),
    ensures
        can_parse(vs[0], s, i),
        starts_at(s, i + jser(vs[0]).len(), jser_more(vs.drop_first())),
{
    assert(jser_items(vs) == jser(vs[0]) + jser_more(vs.drop_first()));
    lemma_starts_at_split(s, i, jser(vs[0]), jser_more(vs.drop_first()));
    lemma_jser_more_first(vs.drop_first());
    lemma_starts_at_index(
        s,
        i + jser(vs[0]).len(),
        jser_more(vs.drop_first()),
        0,
    );
}

/// Reads the elements of a sequence after a complete element: either the
/// closing bracket, or a comma and more elements.
pub fn parse_more(s: &Vec<u8>, i: usize) -> (r: Option<(Vec<Value>, usize)>)
    requires
        i <= s@.len(),
    ensures
        r matches Some(p) ==> {
            &&& i < p.1 <= s@.len()
            &&& all_json(view_seq(p.0@))
            &&& s@.subrange(i as int, p.1 as int) == jser_more(view_seq(p.0@))
        },
        forall|vs: Seq<Val>|
            all_json(vs) && #[trigger] starts_at(s@, i as int, jser_more(vs)) ==> (r matches Some(
                p,
            ) && view_seq(p.0@) == vs && p.1 == i + jser_more(vs).len()),
    decreases s@.len() - i, 2int,
{
    proof {
        assert forall|vs: Seq<Val>|
            all_json(vs) && #[trigger] starts_at(s@, i as int, jser_more(vs)) implies (s@[i as int]
            == jser_more(vs)[0] && (vs.len() > 0 ==> can_parse(vs[0], s@, i + 1) && starts_at(
            s@,
            i + 1 + jser(vs[0]).len(),
            jser_more(vs.drop_first()),
        ))) by {
            lemma_jser_more_first(vs);
            lemma_starts_at_index(s@, i as int, jser_more(vs), 0);
            if vs.len() > 0 {
                assert(jser_more(vs) == seq![0x2cu8] + (jser(vs[0]) + jser_more(vs.drop_first())));
                lemma_starts_at_split(
                    s@,
                    i as int,
                    seq![0x2cu8],
                    jser(vs[0]) + jser_more(vs.drop_first()),
                );
                lemma_items_head_tail(vs, s@, i + 1);
            }
        }
    }
    if i >= s.len() {
        return None;
    }
    let b = s[i];
    if b == 0x5d {
        let out: Vec<Value> = Vec::new();
        proof {
            assert(view_seq(out@) =~= Seq::<Val>::empty());
            assert(s@.subrange(i as int, i as int + 1) =~= jser_more(Seq::<Val>::empty()));
            assert forall|vs: Seq<Val>|
                all_json(vs) && #[trigger] starts_at(s@, i as int, jser_more(vs)) implies vs.len()
                == 0 by {
                lemma_jser_more_first(vs);
            }
        }
        return Some((out, i + 1));
    }
    if b != 0x2c {
        proof {
            assert forall|vs: Seq<Val>|
                all_json(vs) && #[trigger] starts_at(s@, i as int, jser_more(vs)) implies false by {
                lemma_jser_more_first(vs);
            }
        }
        return None;
    }
    match parse_value(s, i + 1) {
        None => {
            proof {
                assert forall|vs: Seq<Val>|
                    all_json(vs) && #[trigger] starts_at(s@, i as int, jser_more(vs)) implies false
                    by {
                    lemma_jser_more_first(vs);
                }
            }
            None
        },
        Some((v0, j)) => {
            match parse_more(s, j) {
                None => {
                    proof {
                        assert forall|vs: Seq<Val>|
                            all_json(vs) && #[trigger] starts_at(
                            s@,
                            i as int,
                            jser_more(vs),
                        ) implies false by {
                            lemma_jser_more_first(vs);
                            assert(v0@ == vs[0] && j == i + 1 + jser(vs[0]).len());
                        }
                    }
                    None
                },
                Some((mut rest, j2)) => {
                    let ghost rest0 = rest@;
                    rest.insert(0, v0);
                    proof {
                        lemma_view_seq(rest@);
                        lemma_view_seq(rest0);
                        assert(rest@ == rest0.insert(0, v0));
                        assert(rest@[0] == v0);
                        assert(view_seq(rest@)[0] == v0@);
                        assert forall|k: int| 1 <= k < rest@.len() implies view_seq(rest@)[k]
                            == view_seq(rest0)[k - 1] by {
                            assert(rest@[k] == rest0[k - 1]);
                        }
                        assert(view_seq(rest@).drop_first() =~= view_seq(rest0));
                        assert(s@.subrange(i as int, j2 as int) =~= seq![0x2cu8] + s@.subrange(
                            i as int + 1,
                            j as int,
                        ) + s@.subrange(j as int, j2 as int));
                        assert(s@.subrange(i as int, j2 as int) =~= jser_more(view_seq(rest@)));
                        assert forall|vs: Seq<Val>|
                            all_json(vs) && #[trigger] starts_at(
                            s@,
                            i as int,
                            jser_more(vs),
                        ) implies view_seq(rest@) == vs && j2 == i + jser_more(vs).len() by {
                            lemma_jser_more_first(vs);
                            assert(v0@ == vs[0] && j == i + 1 + jser(vs[0]).len());
                            assert(view_seq(rest0) == vs.drop_first() && j2 == j + jser_more(
                                vs.drop_first(),
                            ).len());
                            assert forall|k: int| 0 <= k < vs.len() implies view_seq(rest@)[k]
                                == vs[k] by {
                                if k >= 1 {
                                    assert(view_seq(rest@)[k] == view_seq(rest0)[k - 1]);
                                    assert(vs.drop_first()[k - 1] == vs[k]);
                                }
                            }
                            assert(view_seq(rest@) =~= vs);
                        }
                    }
                    Some((rest, j2))
                },
            }
        },
    }
}

/// As `lemma_items_head`, for the text that follows a comma.
proof fn lemma_items_head_tail(vs: Seq<Val>, s: Seq<u8>, i: int)
    requires
        all_json(vs),
        vs.len() > 0,
        starts_at(s, i, jser(vs[0]) + jser_more(vs.drop_first())),
    ensures
        can_parse(vs[0], s, i),
        starts_at(s, i + jser(vs[0]).len(), jser_more(vs.drop_first())),
{
    lemma_starts_at_split(s, i, jser(vs[0]), jser_more(vs.drop_first()));
    lemma_jser_more_first(vs.drop_first());
    lemma_starts_at_index(
        s,
        i + jser(vs[0]).len(),
        jser_more(vs.drop_first()),
        0,
    );
}

/// The run of digits of a literal standing inside a larger text ends, in
/// the literal's own frame, where the larger text says.
proof fn lemma_sub_digit_run(s: Seq<u8>, i: int, t: Seq<u8>, a: int, b: int)
    requires
        0 <= i,
        i + t.len() <= s.len(),
        t == s.subrange(i, i + t.len() as int),
        0 <= a <= b <= t.len(),
        forall|k: int| i + a <= k < i + b ==> is_digit(#[trigger] s[k]),
        b == t.len() || !is_digit(s[i + b]),
    ensures
        digit_run_end(t, a) == b,
{
    assert forall|k: int| 0 <= k < t.len() implies t[k] == s[i + k] by {
        assert(s.subrange(i, i + t.len() as int)[k] == s[i + k]);
    }
    lemma_digit_run_exact(t, a, b - a);
}

/// Where the pieces of a number literal stand when the literal, and nothing
/// that could extend it, stands at `i`.
#[verifier::rlimit(60)]
proof fn lemma_num_shape(t: Seq<u8>, s: Seq<u8>, i: int)
    requires
        num_lit_wf(t),
        starts_at(s, i, t),
        i + t.len() == s.len() || !is_num_ext(s[i + t.len()]),
    ensures
        ({
            let st0: int = if t[0] == 0x2d {
                1
            } else {
                0
            };
            let ie0 = digit_run_end(t, st0);
            let has_frac = ie0 < t.len() && t[ie0] == 0x2e;
            let fe0 = if has_frac {
                digit_run_end(t, ie0 + 1)
            } else {
                ie0
            };
            let has_exp = fe0 < t.len() && (t[fe0] == 0x65 || t[fe0] == 0x45);
            let es0: int = if has_exp && fe0 + 1 < t.len() && (t[fe0 + 1] == 0x2b || t[fe0 + 1]
                == 0x2d) {
                fe0 + 2
            } else {
                fe0 + 1
            };
            &&& t.len() >= 1
            &&& s[i] == t[0]
            &&& ie0 > st0
            &&& ie0 <= t.len()
            &&& (t[st0] == 0x30 ==> ie0 == st0 + 1)
            &&& digit_run_end(s, i + st0) == i + ie0
            &&& (has_frac <==> (i + ie0 < s.len() && s[i + ie0] == 0x2e))
            &&& (has_frac ==> fe0 > ie0 + 1 && fe0 <= t.len() && digit_run_end(s, i + ie0 + 1) == i
                + fe0)
            &&& (has_exp <==> (i + fe0 < s.len() && (s[i + fe0] == 0x65 || s[i + fe0] == 0x45)))
            &&& (has_exp ==> es0 <= t.len() && digit_run_end(s, i + es0) == i + t.len() && ((es0
                == fe0 + 2) <==> (i + fe0 + 1 < s.len() && (s[i + fe0 + 1] == 0x2b || s[i + fe0
                + 1] == 0x2d))))
            &&& (!has_exp ==> fe0 == t.len())
            &&& (has_frac || has_exp || !int_fits_i64(t, st0, ie0))
            &&& digits_val(s.subrange(i + st0, i + ie0)) == digits_val(t.subrange(st0, ie0))
        }),
{
    let st0: int = if t[0] == 0x2d {
        1
    } else {
        0
    };
    let ie0 = digit_run_end(t, st0);
    let has_frac = ie0 < t.len() && t[ie0] == 0x2e;
    let fe0 = if has_frac {
        digit_run_end(t, ie0 + 1)
    } else {
        ie0
    };
    let has_exp = fe0 < t.len() && (t[fe0] == 0x65 || t[fe0] == 0x45);
    let es0: int = if has_exp && fe0 + 1 < t.len() && (t[fe0 + 1] == 0x2b || t[fe0 + 1] == 0x2d) {
        fe0 + 2
    } else {
        fe0 + 1
    };
    let ee0 = if has_exp {
        digit_run_end(t, es0)
    } else {
        fe0
    };
    assert forall|k: int| 0 <= k < t.len() implies s[i + k] == t[k] by {
        lemma_starts_at_index(s, i, t, k);
    }
    lemma_digit_run(t, st0);
    assert(t.len() >= 1) by {
        if t.len() == 0 {
            assert(digit_run_end(t, 0) == 0);
        }
    }
    if has_frac {
        lemma_digit_run(t, ie0 + 1);
    }
    if has_exp {
        lemma_digit_run(t, es0);
    }
    assert(digit_run_end(s, i + st0) == i + ie0) by {
        assert forall|k: int| i + st0 <= k < i + ie0 implies is_digit(#[trigger] s[k]) by {
            assert(s[k] == t[k - i]);
        }
        lemma_digit_run_exact(s, i + st0, ie0 - st0);
    }
    if has_frac {
        assert(digit_run_end(s, i + ie0 + 1) == i + fe0) by {
            assert forall|k: int| i + ie0 + 1 <= k < i + fe0 implies is_digit(#[trigger] s[k]) by {
                assert(s[k] == t[k - i]);
            }
            lemma_digit_run_exact(s, i + ie0 + 1, fe0 - (ie0 + 1));
        }
    }
    if has_exp {
        assert(ee0 == t.len());
        assert(digit_run_end(s, i + es0) == i + t.len()) by {
            assert forall|k: int| i + es0 <= k < i + ee0 implies is_digit(#[trigger] s[k]) by {
                assert(s[k] == t[k - i]);
            }
            lemma_digit_run_exact(s, i + es0, ee0 - es0);
        }
    }
    assert(digits_val(s.subrange(i + st0, i + ie0)) == digits_val(t.subrange(st0, ie0))) by {
        assert(s.subrange(i + st0, i + ie0) =~= t.subrange(st0, ie0));
    }
}

/// What the reader's scans find for any number standing at `i`: a machine
/// integer puts its digits at `st`, delimited; an opaque literal stands
/// whole at `i`, delimited, with its own digit runs ending where the text's
/// do.
pub open spec fn number_shape(v: Val, s: Seq<u8>, i: int, neg: bool, st: int) -> bool {
    match v {
        Val::Int(m) => {
            let mag: nat = if m < 0 {
                (-m) as nat
            } else {
                m as nat
            };
            &&& (m < 0 <==> neg)
            &&& starts_at(s, st, dec_nat(mag))
            &&& digit_run_end(s, st) == st + dec_nat(mag).len()
            &&& digits_val(s.subrange(st, st + dec_nat(mag).len() as int)) == mag
            &&& mag <= 0x8000000000000000u64
            &&& (neg ==> mag >= 1)
            &&& (!neg ==> mag <= 0x7fffffffffffffffu64)
            &&& (st + dec_nat(mag).len() == s.len() || !is_num_ext(
                s[st + dec_nat(mag).len() as int],
            ))
        },
        Val::Num(t) => {
            let st0: int = if t[0] == 0x2d {
                1
            } else {
                0
            };
            let ie0 = digit_run_end(t, st0);
            let has_frac = ie0 < t.len() && t[ie0] == 0x2e;
            let fe0 = if has_frac {
                digit_run_end(t, ie0 + 1)
            } else {
                ie0
            };
            let has_exp = fe0 < t.len() && (t[fe0] == 0x65 || t[fe0] == 0x45);
            let es0: int = if has_exp && fe0 + 1 < t.len() && (t[fe0 + 1] == 0x2b || t[fe0 + 1]
                == 0x2d) {
                fe0 + 2
            } else {
                fe0 + 1
            };
            &&& starts_at(s, i, t)
            &&& st == i + st0
            &&& t.len() >= 1
            &&& ie0 > st0
            &&& ie0 <= t.len()
            &&& (t[st0] == 0x30 ==> ie0 == st0 + 1)
            &&& digit_run_end(s, st) == i + ie0
            &&& (has_frac <==> (i + ie0 < s.len() && s[i + ie0] == 0x2e))
            &&& (has_frac ==> fe0 > ie0 + 1 && fe0 <= t.len() && digit_run_end(s, i + ie0 + 1) == i
                + fe0)
            &&& (has_exp <==> (i + fe0 < s.len() && (s[i + fe0] == 0x65 || s[i + fe0] == 0x45)))
            &&& (has_exp ==> es0 <= t.len() && digit_run_end(s, i + es0) == i + t.len() && ((es0
                == fe0 + 2) <==> (i + fe0 + 1 < s.len() && (s[i + fe0 + 1] == 0x2b || s[i + fe0
                + 1] == 0x2d))))
            &&& (!has_exp ==> fe0 == t.len())
            &&& (has_frac || has_exp || !int_fits_i64(t, st0, ie0))
            &&& digits_val(s.subrange(i + st0, i + ie0)) == digits_val(t.subrange(st0, ie0))
            &&& (i + t.len() == s.len() || !is_num_ext(s[i + t.len()]))
        },
        _ => false,
    }
}

/// Reads a number beginning at `i`, where the byte at `i` is a minus sign or
/// a digit: a machine integer where the literal is one, the literal itself,
/// opaque, where it is not.
#[verifier::rlimit(100)]
#[verifier::spinoff_prover]
pub fn parse_number(s: &Vec<u8>, i: usize) -> (r: Option<(Value, usize)>)
    requires
        i < s@.len(),
        s@[i as int] == 0x2d || is_digit(s@[i as int]),
    ensures
        r matches Some(p) ==> {
            &&& i < p.1 <= s@.len()
            &&& is_json(p.0@)
            &&& s@.subrange(i as int, p.1 as int) == jser(p.0@)
        },
        forall|v: Val|
            is_json(v) && #[trigger] can_parse(v, s@, i as int) ==> (r matches Some(p) && p.0@ == v
                && p.1 == i + jser(v).len()),
{
    let sl = s.len();
    let neg = s[i] == 0x2d;
    let st: usize = if neg {
        i + 1
    } else {
        i
    };
    proof {
        lemma_digit_run(s@, st as int);
        assert forall|v: Val|
            is_json(v) && #[trigger] can_parse(v, s@, i as int) implies number_shape(
            v,
            s@,
            i as int,
            neg,
            st as int,
        ) by {
            lemma_can_parse_first(v, s@, i as int);
            lemma_jser_first(v);
            match v {
                Val::Int(_) => {
                    lemma_int_shape(v, s@, i as int, neg, st as int);
                },
                Val::Num(_) => {
                    let t = v->Num_0;
                    lemma_starts_at_index(s@, i as int, t, 0);
                    lemma_num_shape(t, s@, i as int);
                    assert(st as int == i + (if t[0] == 0x2d {
                        1int
                    } else {
                        0int
                    })) by {
                        if t[0] != 0x2d {
                            assert(s@[i as int] == t[0]);
                        }
                    }
                },
                _ => {
                    assert(false);
                },
            }
        }
    }
    let ie = scan_digit_end(s, st);
    if ie == st {
        proof {
            assert forall|v: Val|
                is_json(v) && #[trigger] can_parse(v, s@, i as int) implies false by {
                if v is Int {
                    lemma_dec_nat(
                        if v->Int_0 < 0 {
                            (-v->Int_0) as nat
                        } else {
                            v->Int_0 as nat
                        },
                    );
                }
            }
        }
        return None;
    }
    if s[st] == 0x30 && ie > st + 1 {
        proof {
            assert forall|v: Val|
                is_json(v) && #[trigger] can_parse(v, s@, i as int) implies false by {
                if v is Int {
                    let m = v->Int_0;
                    let mag: nat = if m < 0 {
                        (-m) as nat
                    } else {
                        m as nat
                    };
                    lemma_dec_nat(mag);
                    lemma_starts_at_index(s@, st as int, dec_nat(mag), 0);
                    assert(mag == 0);
                    assert(dec_nat(mag).len() == 1);
                } else {
                    lemma_starts_at_index(s@, i as int, v->Num_0, st - i);
                }
            }
        }
        return None;
    }
    let mut end = ie;
    let mut numeric = false;
    let ghost g_frac_end = ie as int;
    if end < sl && s[end] == 0x2e {
        let fe = scan_digit_end(s, end + 1);
        if fe == end + 1 {
            proof {
                assert forall|v: Val|
                    is_json(v) && #[trigger] can_parse(v, s@, i as int) implies false by {}
            }
            return None;
        }
        end = fe;
        numeric = true;
        proof {
            g_frac_end = fe as int;
        }
    }
    let had_frac = numeric;
    if end < sl && (s[end] == 0x65 || s[end] == 0x45) {
        let es: usize = if end + 1 < sl && (s[end + 1] == 0x2b || s[end + 1] == 0x2d) {
            end + 2
        } else {
            end + 1
        };
        let ee = scan_digit_end(s, es);
        if ee == es {
            proof {
                assert forall|v: Val|
                    is_json(v) && #[trigger] can_parse(v, s@, i as int) implies false by {}
            }
            return None;
        }
        end = ee;
        numeric = true;
    }
    if numeric {
        return parse_number_literal(s, i, neg, st, ie, had_frac, Ghost(g_frac_end), end);
    }
    parse_number_machine(s, i, neg, st, ie)
}

/// The literal leg of `parse_number`: the scans found a fraction or an
/// exponent, so the consumed bytes are carried whole.
#[verifier::rlimit(100)]
#[verifier::spinoff_prover]
fn parse_number_literal(
    s: &Vec<u8>,
    i: usize,
    neg: bool,
    st: usize,
    ie: usize,
    had_frac: bool,
    Ghost(frac_end): Ghost<int>,
    end: usize,
) -> (r: Option<(Value, usize)>)
    requires
        i < s@.len(),
        st as int == (if neg {
            i as int + 1
        } else {
            i as int
        }),
        neg ==> s@[i as int] == 0x2d,
        !neg ==> is_digit(s@[i as int]),
        digit_run_end(s@, st as int) == ie,
        st < ie <= s@.len(),
        s@[st as int] == 0x30 ==> ie == st + 1,
        had_frac ==> ie < s@.len() && s@[ie as int] == 0x2e && digit_run_end(s@, ie as int + 1)
            == frac_end && frac_end > ie + 1,
        !had_frac ==> frac_end == ie as int,
        end >= frac_end,
        end > frac_end ==> frac_end < s@.len() && (s@[frac_end] == 0x65 || s@[frac_end] == 0x45)
            && ({
            let es: int = if frac_end + 1 < s@.len() && (s@[frac_end + 1] == 0x2b || s@[frac_end
                + 1] == 0x2d) {
                frac_end + 2
            } else {
                frac_end + 1
            };
            digit_run_end(s@, es) == end && end > es
        }),
        end == frac_end ==> had_frac && (frac_end == s@.len() || !(s@[frac_end] == 0x65
            || s@[frac_end] == 0x45)),
        had_frac || end > frac_end,
        end <= s@.len(),
        forall|v: Val|
            is_json(v) && #[trigger] can_parse(v, s@, i as int) ==> number_shape(
                v,
                s@,
                i as int,
                neg,
                st as int,
            ),
    ensures
        r matches Some(p) ==> {
            &&& i < p.1 <= s@.len()
            &&& is_json(p.0@)
            &&& s@.subrange(i as int, p.1 as int) == jser(p.0@)
        },
        forall|v: Val|
            is_json(v) && #[trigger] can_parse(v, s@, i as int) ==> (r matches Some(p) && p.0@ == v
                && p.1 == i + jser(v).len()),
{
    let lit = copy_range(s, i, end);
    proof {
        lemma_parse_number_numeric(
            s@,
            i as int,
            neg,
            st as int,
            ie as int,
            had_frac,
            frac_end,
            end as int,
        );
        assert(lit@ == s@.subrange(i as int, end as int));
        assert(ie < s@.len() && is_num_ext(s@[ie as int])) by {
            if !had_frac {
                assert(end > frac_end);
            }
        }
        assert forall|v: Val|
            is_json(v) && #[trigger] can_parse(v, s@, i as int) implies v == Val::Num(lit@) && end
            == i + jser(v).len() by {
            match v {
                Val::Int(m) => {
                    let mag: nat = if m < 0 {
                        (-m) as nat
                    } else {
                        m as nat
                    };
                    assert(st + dec_nat(mag).len() == ie);
                    assert(false);
                },
                Val::Num(t) => {
                    let st0: int = if t[0] == 0x2d {
                        1
                    } else {
                        0
                    };
                    let ie0 = digit_run_end(t, st0);
                    let has_frac = ie0 < t.len() && t[ie0] == 0x2e;
                    let fe0 = if has_frac {
                        digit_run_end(t, ie0 + 1)
                    } else {
                        ie0
                    };
                    let has_exp = fe0 < t.len() && (t[fe0] == 0x65 || t[fe0] == 0x45);
                    assert(i + ie0 == ie);
                    assert(has_frac == had_frac);
                    assert(i + fe0 == frac_end);
                    assert(has_exp <==> end > frac_end);
                    if has_exp {
                        assert(i + t.len() == end);
                    } else {
                        assert(fe0 == t.len());
                        assert(i + t.len() == end);
                    }
                    assert(t =~= lit@);
                },
                _ => {
                    assert(false);
                },
            }
        }
    }
    Some((Value::Num(lit), end))
}

/// The machine leg of `parse_number`: nothing extends the digits, so the
/// literal is a bare integer — a machine integer when it fits, the literal
/// itself when it does not.
#[verifier::rlimit(100)]
#[verifier::spinoff_prover]
fn parse_number_machine(s: &Vec<u8>, i: usize, neg: bool, st: usize, ie: usize) -> (r: Option<
    (Value, usize),
>)
    requires
        i < s@.len(),
        st as int == (if neg {
            i as int + 1
        } else {
            i as int
        }),
        neg ==> s@[i as int] == 0x2d,
        !neg ==> is_digit(s@[i as int]),
        digit_run_end(s@, st as int) == ie,
        st < ie <= s@.len(),
        s@[st as int] == 0x30 ==> ie == st + 1,
        ie == s@.len() || !is_num_ext(s@[ie as int]),
        forall|v: Val|
            is_json(v) && #[trigger] can_parse(v, s@, i as int) ==> number_shape(
                v,
                s@,
                i as int,
                neg,
                st as int,
            ),
    ensures
        r matches Some(p) ==> {
            &&& i < p.1 <= s@.len()
            &&& is_json(p.0@)
            &&& s@.subrange(i as int, p.1 as int) == jser(p.0@)
        },
        forall|v: Val|
            is_json(v) && #[trigger] can_parse(v, s@, i as int) ==> (r matches Some(p) && p.0@ == v
                && p.1 == i + jser(v).len()),
{
    proof {
        assert forall|v: Val|
            is_json(v) && #[trigger] can_parse(v, s@, i as int) && v is Num implies (v->Num_0
            =~= s@.subrange(i as int, ie as int) && !int_fits_i64(
            s@.subrange(i as int, ie as int),
            st - i,
            ie - i,
        )) by {
            let t = v->Num_0;
            let st0: int = if t[0] == 0x2d {
                1
            } else {
                0
            };
            let ie0 = digit_run_end(t, st0);
            assert(i + ie0 == ie);
            assert(ie0 == t.len()) by {
                let has_frac = ie0 < t.len() && t[ie0] == 0x2e;
                let fe0 = if has_frac {
                    digit_run_end(t, ie0 + 1)
                } else {
                    ie0
                };
                let has_exp = fe0 < t.len() && (t[fe0] == 0x65 || t[fe0] == 0x45);
                assert(!has_frac);
                assert(!has_exp);
                assert(fe0 == t.len());
            }
            assert(t =~= s@.subrange(i as int, ie as int)) by {
                assert(starts_at(s@, i as int, t));
            }
            assert(t.subrange(st0, ie0) =~= s@.subrange(st as int, ie as int)) by {
                assert forall|k: int| 0 <= k < ie0 - st0 implies t.subrange(st0, ie0)[k]
                    == s@.subrange(st as int, ie as int)[k] by {
                    lemma_starts_at_index(s@, i as int, t, st0 + k);
                }
            }
            assert(digits_val(t.subrange(st0, ie0)) == digits_val(
                s@.subrange(st as int, ie as int),
            ));
        }
        assert(s@.subrange(i as int, ie as int).subrange(st - i, ie - i) =~= s@.subrange(
            st as int,
            ie as int,
        ));
    }
    let scanned = scan_digits(s, st);
    match scanned {
        None => {
            let lit = copy_range(s, i, ie);
            proof {
                lemma_digit_run(s@, st as int);
                assert forall|k: int|
                    0 <= k < ie - st implies is_digit(
                    #[trigger] s@.subrange(st as int, ie as int)[k],
                ) by {
                    assert(s@.subrange(st as int, ie as int)[k] == s@[st + k]);
                }
                lemma_digits_val_nonneg(s@.subrange(st as int, ie as int));
                assert(!int_fits_i64(s@.subrange(i as int, ie as int), st - i, ie - i));
                lemma_parse_number_pure(s@, i as int, neg, st as int, ie as int);
                assert forall|v: Val|
                    is_json(v) && #[trigger] can_parse(v, s@, i as int) implies v == Val::Num(
                    lit@,
                ) && ie == i + jser(v).len() by {
                    if v is Int {
                        assert(digits_val(s@.subrange(st as int, ie as int))
                            <= 0x8000000000000000u64);
                        assert(false);
                    }
                }
            }
            return Some((Value::Num(lit), ie));
        },
        Some((n, j)) => {
            proof {
                assert(j == ie);
                let run = s@.subrange(st as int, j as int);
                lemma_digit_run(s@, st as int);
                lemma_dec_nat_digits_val(run);
            }
            let fits = if neg {
                n >= 1 && n <= 0x8000000000000000u64
            } else {
                n <= 0x7fffffffffffffffu64
            };
            if !fits {
                let lit = copy_range(s, i, ie);
                proof {
                    assert(!int_fits_i64(s@.subrange(i as int, ie as int), st - i, ie - i));
                    lemma_parse_number_pure(s@, i as int, neg, st as int, ie as int);
                    assert forall|v: Val|
                        is_json(v) && #[trigger] can_parse(v, s@, i as int) implies v == Val::Num(
                        lit@,
                    ) && ie == i + jser(v).len() by {
                        if v is Int {
                            assert(false);
                        }
                    }
                }
                return Some((Value::Num(lit), ie));
            }
            if neg {
                let m: i64 = if n == 0x8000000000000000u64 {
                    i64::MIN
                } else {
                    -(n as i64)
                };
                proof {
                    let run = s@.subrange(st as int, j as int);
                    assert(dec_nat(n as nat) =~= run);
                    assert(jser(Val::Int(m as int)) =~= seq![0x2du8] + dec_nat(n as nat));
                    assert(s@.subrange(i as int, j as int) =~= seq![0x2du8] + run);
                    assert forall|v: Val|
                        is_json(v) && #[trigger] can_parse(v, s@, i as int) implies !(v
                        is Num) by {
                        if v is Num {
                            assert(int_fits_i64(
                                s@.subrange(i as int, ie as int),
                                st - i,
                                ie - i,
                            ));
                        }
                    }
                }
                Some((Value::Int(m), j))
            } else {
                let m: i64 = n as i64;
                proof {
                    let run = s@.subrange(st as int, j as int);
                    assert(dec_nat(n as nat) =~= run);
                    assert(jser(Val::Int(m as int)) == dec_nat(n as nat));
                    assert forall|v: Val|
                        is_json(v) && #[trigger] can_parse(v, s@, i as int) implies !(v
                        is Num) by {
                        if v is Num {
                            assert(int_fits_i64(
                                s@.subrange(i as int, ie as int),
                                st - i,
                                ie - i,
                            ));
                        }
                    }
                }
                Some((Value::Int(m), j))
            }
        },
    }
}

/// The bytes the reader consumed for a fraction or an exponent form a
/// well-formed number literal.
#[verifier::rlimit(60)]
proof fn lemma_parse_number_numeric(
    s: Seq<u8>,
    i: int,
    neg: bool,
    st: int,
    ie: int,
    had_frac: bool,
    frac_end: int,
    end: int,
)
    requires
        0 <= i < s.len(),
        st == if neg {
            i + 1
        } else {
            i
        },
        neg ==> s[i] == 0x2d,
        !neg ==> is_digit(s[i]),
        digit_run_end(s, st) == ie,
        st < ie <= s.len(),
        s[st] == 0x30 ==> ie == st + 1,
        had_frac ==> ie < s.len() && s[ie] == 0x2e && digit_run_end(s, ie + 1) == frac_end
            && frac_end > ie + 1,
        !had_frac ==> frac_end == ie,
        end >= frac_end,
        end > frac_end ==> frac_end < s.len() && (s[frac_end] == 0x65 || s[frac_end] == 0x45) && ({
            let es: int = if frac_end + 1 < s.len() && (s[frac_end + 1] == 0x2b || s[frac_end + 1]
                == 0x2d) {
                frac_end + 2
            } else {
                frac_end + 1
            };
            digit_run_end(s, es) == end && end > es
        }),
        end == frac_end ==> had_frac && (frac_end == s.len() || !(s[frac_end] == 0x65 || s[frac_end]
            == 0x45)),
        had_frac || end > frac_end,
        end <= s.len(),
    ensures
        num_lit_wf(s.subrange(i, end)),
        jser(Val::Num(s.subrange(i, end))) == s.subrange(i, end),
{
    let t = s.subrange(i, end);
    let st0 = st - i;
    assert forall|k: int| 0 <= k < t.len() implies t[k] == s[i + k] by {}
    lemma_digit_run(s, st);
    assert(digit_run_end(t, st0) == ie - i) by {
        lemma_sub_digit_run(s, i, t, st0, ie - i);
    }
    let ie0 = ie - i;
    if had_frac {
        lemma_digit_run(s, ie + 1);
        assert(digit_run_end(t, ie0 + 1) == frac_end - i) by {
            lemma_sub_digit_run(s, i, t, ie0 + 1, frac_end - i);
        }
    }
    if end > frac_end {
        let es: int = if frac_end + 1 < s.len() && (s[frac_end + 1] == 0x2b || s[frac_end + 1]
            == 0x2d) {
            frac_end + 2
        } else {
            frac_end + 1
        };
        lemma_digit_run(s, es);
        assert(digit_run_end(t, es - i) == end - i) by {
            lemma_sub_digit_run(s, i, t, es - i, end - i);
        }
    }
}

/// The bytes the reader consumed for an integer beyond the machine range
/// form a well-formed number literal.
proof fn lemma_parse_number_pure(s: Seq<u8>, i: int, neg: bool, st: int, ie: int)
    requires
        0 <= i < s.len(),
        st == if neg {
            i + 1
        } else {
            i
        },
        neg ==> s[i] == 0x2d,
        !neg ==> is_digit(s[i]),
        digit_run_end(s, st) == ie,
        st < ie <= s.len(),
        s[st] == 0x30 ==> ie == st + 1,
        ie == s.len() || !is_num_ext(s[ie]),
        !int_fits_i64(s.subrange(i, ie), st - i, ie - i),
    ensures
        num_lit_wf(s.subrange(i, ie)),
        jser(Val::Num(s.subrange(i, ie))) == s.subrange(i, ie),
{
    let t = s.subrange(i, ie);
    let st0 = st - i;
    assert forall|k: int| 0 <= k < t.len() implies t[k] == s[i + k] by {}
    lemma_digit_run(s, st);
    assert(digit_run_end(t, st0) == ie - i) by {
        lemma_sub_digit_run(s, i, t, st0, ie - i);
    }
}

/// When the text of a wire-fit number stands at `i`, its digits stand at
/// `st`, they end the digit run there, and its magnitude fits the checks the
/// reader makes.
proof fn lemma_int_shape(v: Val, s: Seq<u8>, i: int, neg: bool, st: int)
    requires
        v is Int,
        is_json(v),
        can_parse(v, s, i),
        0 <= i < s.len(),
        neg <==> s[i] == 0x2d,
        st == if neg {
            i + 1
        } else {
            i
        },
        s[i] == 0x2d || is_digit(s[i]),
    ensures
        ({
            let m = v->Int_0;
            let mag: nat = if m < 0 {
                (-m) as nat
            } else {
                m as nat
            };
            &&& (m < 0 <==> neg)
            &&& starts_at(s, st, dec_nat(mag))
            &&& digit_run_end(s, st) == st + dec_nat(mag).len()
            &&& digits_val(s.subrange(st, st + dec_nat(mag).len())) == mag
            &&& mag <= 0x8000000000000000u64
            &&& (neg ==> mag >= 1)
            &&& (!neg ==> mag <= 0x7fffffffffffffffu64)
        }),
{
    lemma_can_parse_first(v, s, i);
    lemma_jser_first(v);
    match v {
        Val::Int(m) => {
            let mag: nat = if m < 0 {
                (-m) as nat
            } else {
                m as nat
            };
            lemma_dec_nat(mag);
            if m < 0 {
                assert(jser(v) == seq![0x2du8] + dec_nat(mag));
                assert(jser(v)[0] == 0x2d);
                lemma_starts_at_split(s, i, seq![0x2du8], dec_nat(mag));
            } else {
                assert(jser(v) == dec_nat(mag));
                assert(!neg) by {
                    assert(is_digit(jser(v)[0]));
                }
            }
            assert(starts_at(s, st, dec_nat(mag)));
            let l = dec_nat(mag).len() as int;
            assert forall|k: int| st <= k < st + l implies is_digit(#[trigger] s[k]) by {
                lemma_starts_at_index(s, st, dec_nat(mag), k - st);
            }
            assert(st + l == s.len() || !is_digit(s[st + l])) by {
                assert(delim_ok(v, s, i + jser(v).len()));
                assert(i + jser(v).len() == st + l);
            }
            lemma_digit_run_exact(s, st, l);
            assert(s.subrange(st, st + l) =~= dec_nat(mag));
            lemma_digits_val_dec_nat(mag);
        },
        _ => {
            assert(false);
        },
    }
}

/// The text of the entry `q` stands at `i` and its value ends where no parse
/// could extend it.
pub open spec fn can_parse_field(q: (Seq<u8>, Val), s: Seq<u8>, i: int) -> bool {
    starts_at(s, i, jser_field(q)) && delim_ok(q.1, s, i + jser_field(q).len())
}

/// Where the pieces of an entry's text stand when the whole stands at `i`.
proof fn lemma_field_shape(q: (Seq<u8>, Val), s: Seq<u8>, i: int)
    requires
        is_json(q.1),
        can_parse_field(q, s, i),
    ensures
        jser_field(q).len() == 3 + esc(q.0).len() + jser(q.1).len(),
        0 <= i < s.len(),
        s[i] == 0x22,
        starts_at(s, i + 1, esc(q.0) + seq![0x22u8]),
        i + 2 + esc(q.0).len() < s.len(),
        s[i + 2 + esc(q.0).len()] == 0x3a,
        can_parse(q.1, s, i + 3 + esc(q.0).len()),
{
    let f = jser_field(q);
    let key = esc(q.0) + seq![0x22u8];
    assert(f =~= (seq![0x22u8] + key) + (seq![0x3au8] + jser(q.1)));
    lemma_jser_first(q.1);
    lemma_starts_at_split(s, i, seq![0x22u8] + key, seq![0x3au8] + jser(q.1));
    lemma_starts_at_split(s, i, seq![0x22u8], key);
    lemma_starts_at_split(s, i + 2 + esc(q.0).len(), seq![0x3au8], jser(q.1));
    lemma_starts_at_index(s, i, seq![0x22u8], 0);
    lemma_starts_at_index(s, i + 2 + esc(q.0).len(), seq![0x3au8], 0);
    assert(delim_ok(q.1, s, i + 3 + esc(q.0).len() + jser(q.1).len()));
}

/// Reads one mapping entry: quoted key, colon, value. The value must end
/// where no parse could extend it.
pub fn parse_field(s: &Vec<u8>, i: usize) -> (r: Option<((Vec<u8>, Value), usize)>)
    requires
        i <= s@.len(),
    ensures
        r matches Some(p) ==> {
            &&& i < p.1 <= s@.len()
            &&& is_json(p.0.1@)
            &&& s@.subrange(i as int, p.1 as int) == jser_field((p.0.0@, p.0.1@))
        },
        forall|q: (Seq<u8>, Val)|
            is_json(q.1) && #[trigger] can_parse_field(q, s@, i as int) ==> (r matches Some(p) && (
            p.0.0@,
            p.0.1@,
            ) == q && p.1 == i + jser_field(q).len()),
    decreases s@.len() - i, 1int,
{
    proof {
        assert forall|q: (Seq<u8>, Val)|
            is_json(q.1) && #[trigger] can_parse_field(q, s@, i as int) implies (s@[i as int]
            == 0x22 && starts_at(s@, i as int + 1, esc(q.0) + seq![0x22u8])) by {
            lemma_field_shape(q, s@, i as int);
        }
    }
    if i >= s.len() || s[i] != 0x22 {
        return None;
    }
    match parse_str_body(s, i + 1) {
        None => None,
        Some((key, j)) => {
            proof {
                assert forall|q: (Seq<u8>, Val)|
                    is_json(q.1) && #[trigger] can_parse_field(q, s@, i as int) implies (key@ == q.0
                    && j == i + 2 + esc(q.0).len() && j < s@.len() && s@[j as int] == 0x3a
                    && can_parse(q.1, s@, j as int + 1)) by {
                    lemma_field_shape(q, s@, i as int);
                }
            }
            if j >= s.len() || s[j] != 0x3a {
                return None;
            }
            match parse_value(s, j + 1) {
                None => None,
                Some((v, j2)) => {
                    proof {
                        assert(s@.subrange(i as int, j2 as int) =~= seq![0x22u8] + s@.subrange(
                            i as int + 1,
                            j as int,
                        ) + seq![0x3au8] + s@.subrange(j as int + 1, j2 as int));
                        assert(s@.subrange(i as int, j2 as int) =~= jser_field((key@, v@)));
                        assert forall|q: (Seq<u8>, Val)|
                            is_json(q.1) && #[trigger] can_parse_field(q, s@, i as int) implies ((
                            key@,
                            v@,
                            ) == q && j2 == i + jser_field(q).len()) by {
                            lemma_field_shape(q, s@, i as int);
                            assert(v@ == q.1 && j2 == j + 1 + jser(q.1).len());
                        }
                    }
                    Some(((key, v), j2))
                },
            }
        },
    }
}

/// Reads the entries of a mapping after its opening brace, closing brace
/// included.
pub fn parse_fields(s: &Vec<u8>, i: usize) -> (r: Option<(Vec<(Vec<u8>, Value)>, usize)>)
    requires
        i <= s@.len(),
    ensures
        r matches Some(p) ==> {
            &&& i < p.1 <= s@.len()
            &&& all_json_fields(view_entries(p.0@))
            &&& s@.subrange(i as int, p.1 as int) == jser_fields(view_entries(p.0@))
        },
        forall|ps: Seq<(Seq<u8>, Val)>|
            all_json_fields(ps) && #[trigger] starts_at(s@, i as int, jser_fields(ps)) ==> (
            r matches Some(p) && view_entries(p.0@) == ps && p.1 == i + jser_fields(ps).len()),
    decreases s@.len() - i, 3int,
{
    proof {
        assert forall|ps: Seq<(Seq<u8>, Val)>|
            all_json_fields(ps) && #[trigger] starts_at(s@, i as int, jser_fields(ps))
                && ps.len() > 0 implies (can_parse_field(ps[0], s@, i as int) && starts_at(
            s@,
            i + jser_field(ps[0]).len(),
            jser_fields_more(ps.drop_first()),
        ) && s@[i as int] == 0x22) by {
            lemma_fields_head(ps, s@, i as int);
            lemma_field_shape(ps[0], s@, i as int);
        }
    }
    if i < s.len() && s[i] == 0x7d {
        let out: Vec<(Vec<u8>, Value)> = Vec::new();
        proof {
            assert(view_entries(out@) =~= Seq::<(Seq<u8>, Val)>::empty());
            assert(s@.subrange(i as int, i as int + 1) =~= jser_fields(
                Seq::<(Seq<u8>, Val)>::empty(),
            ));
            assert forall|ps: Seq<(Seq<u8>, Val)>|
                all_json_fields(ps) && #[trigger] starts_at(
                s@,
                i as int,
                jser_fields(ps),
            ) implies ps.len() == 0 by {}
        }
        return Some((out, i + 1));
    }
    match parse_field(s, i) {
        None => {
            proof {
                assert forall|ps: Seq<(Seq<u8>, Val)>|
                    all_json_fields(ps) && #[trigger] starts_at(
                    s@,
                    i as int,
                    jser_fields(ps),
                ) implies false by {
                    if ps.len() == 0 {
                        lemma_starts_at_index(s@, i as int, jser_fields(ps), 0);
                    }
                }
            }
            None
        },
        Some((e0, j)) => {
            match parse_fields_more(s, j) {
                None => {
                    proof {
                        assert forall|ps: Seq<(Seq<u8>, Val)>|
                            all_json_fields(ps) && #[trigger] starts_at(
                            s@,
                            i as int,
                            jser_fields(ps),
                        ) implies false by {
                            if ps.len() == 0 {
                                lemma_starts_at_index(s@, i as int, jser_fields(ps), 0);
                            } else {
                                assert((e0.0@, e0.1@) == ps[0] && j == i + jser_field(
                                    ps[0],
                                ).len());
                            }
                        }
                    }
                    None
                },
                Some((mut rest, j2)) => {
                    let ghost rest0 = rest@;
                    rest.insert(0, e0);
                    proof {
                        lemma_view_entries(rest@);
                        lemma_view_entries(rest0);
                        assert(rest@ == rest0.insert(0, e0));
                        assert(rest@[0] == e0);
                        assert(view_entries(rest@)[0] == (e0.0@, e0.1@));
                        assert forall|k: int| 1 <= k < rest@.len() implies view_entries(rest@)[k]
                            == view_entries(rest0)[k - 1] by {
                            assert(rest@[k] == rest0[k - 1]);
                        }
                        assert(view_entries(rest@).drop_first() =~= view_entries(rest0));
                        assert(s@.subrange(i as int, j2 as int) =~= s@.subrange(i as int, j as int)
                            + s@.subrange(j as int, j2 as int));
                        assert(s@.subrange(i as int, j2 as int) =~= jser_fields(
                            view_entries(rest@),
                        ));
                        assert forall|ps: Seq<(Seq<u8>, Val)>|
                            all_json_fields(ps) && #[trigger] starts_at(
                            s@,
                            i as int,
                            jser_fields(ps),
                        ) implies view_entries(rest@) == ps && j2 == i + jser_fields(
                            ps,
                        ).len() by {
                            if ps.len() == 0 {
                                lemma_starts_at_index(s@, i as int, jser_fields(ps), 0);
                            } else {
                                assert((e0.0@, e0.1@) == ps[0] && j == i + jser_field(
                                    ps[0],
                                ).len());
                                assert(view_entries(rest0) == ps.drop_first() && j2 == j
                                    + jser_fields_more(ps.drop_first()).len());
                                assert forall|k: int| 0 <= k < ps.len() implies view_entries(
                                    rest@,
                                )[k] == ps[k] by {
                                    if k >= 1 {
                                        assert(view_entries(rest@)[k] == view_entries(
                                            rest0,
                                        )[k - 1]);
                                        assert(ps.drop_first()[k - 1] == ps[k]);
                                    }
                                }
                                assert(view_entries(rest@) =~= ps);
                            }
                        }
                    }
                    Some((rest, j2))
                },
            }
        },
    }
}

/// When the entries' text stands at `i` and there is a first entry, its text
/// stands at `i` delimited, and the rest follows it.
proof fn lemma_fields_head(ps: Seq<(Seq<u8>, Val)>, s: Seq<u8>, i: int)
    requires
        all_json_fields(ps),
        ps.len() > 0,
        starts_at(s, i, jser_fields(ps)),
    ensures
        can_parse_field(ps[0], s, i),
        starts_at(s, i + jser_field(ps[0]).len(), jser_fields_more(ps.drop_first())),
{
    assert(jser_fields(ps) == jser_field(ps[0]) + jser_fields_more(ps.drop_first()));
    lemma_starts_at_split(s, i, jser_field(ps[0]), jser_fields_more(ps.drop_first()));
    lemma_jser_fields_more_first(ps.drop_first());
    lemma_starts_at_index(
        s,
        i + jser_field(ps[0]).len(),
        jser_fields_more(ps.drop_first()),
        0,
    );
}

/// Reads the entries of a mapping after a complete entry: either the closing
/// brace, or a comma and more entries.
pub fn parse_fields_more(s: &Vec<u8>, i: usize) -> (r: Option<(Vec<(Vec<u8>, Value)>, usize)>)
    requires
        i <= s@.len(),
    ensures
        r matches Some(p) ==> {
            &&& i < p.1 <= s@.len()
            &&& all_json_fields(view_entries(p.0@))
            &&& s@.subrange(i as int, p.1 as int) == jser_fields_more(view_entries(p.0@))
        },
        forall|ps: Seq<(Seq<u8>, Val)>|
            all_json_fields(ps) && #[trigger] starts_at(s@, i as int, jser_fields_more(ps)) ==> (
            r matches Some(p) && view_entries(p.0@) == ps && p.1 == i + jser_fields_more(
                ps,
            ).len()),
    decreases s@.len() - i, 4int,
{
    proof {
        assert forall|ps: Seq<(Seq<u8>, Val)>|
            all_json_fields(ps) && #[trigger] starts_at(
            s@,
            i as int,
            jser_fields_more(ps),
        ) implies (s@[i as int] == jser_fields_more(ps)[0] && (ps.len() > 0 ==> can_parse_field(
            ps[0],
            s@,
            i + 1,
        ) && starts_at(
            s@,
            i + 1 + jser_field(ps[0]).len(),
            jser_fields_more(ps.drop_first()),
        ))) by {
            lemma_jser_fields_more_first(ps);
            lemma_starts_at_index(s@, i as int, jser_fields_more(ps), 0);
            if ps.len() > 0 {
                assert(jser_fields_more(ps) == seq![0x2cu8] + (jser_field(ps[0])
                    + jser_fields_more(ps.drop_first())));
                lemma_starts_at_split(
                    s@,
                    i as int,
                    seq![0x2cu8],
                    jser_field(ps[0]) + jser_fields_more(ps.drop_first()),
                );
                lemma_starts_at_split(
                    s@,
                    i as int + 1,
                    jser_field(ps[0]),
                    jser_fields_more(ps.drop_first()),
                );
                lemma_jser_fields_more_first(ps.drop_first());
                lemma_starts_at_index(
                    s@,
                    i + 1 + jser_field(ps[0]).len(),
                    jser_fields_more(ps.drop_first()),
                    0,
                );
            }
        }
    }
    if i >= s.len() {
        return None;
    }
    let b = s[i];
    if b == 0x7d {
        let out: Vec<(Vec<u8>, Value)> = Vec::new();
        proof {
            assert(view_entries(out@) =~= Seq::<(Seq<u8>, Val)>::empty());
            assert(s@.subrange(i as int, i as int + 1) =~= jser_fields_more(
                Seq::<(Seq<u8>, Val)>::empty(),
            ));
            assert forall|ps: Seq<(Seq<u8>, Val)>|
                all_json_fields(ps) && #[trigger] starts_at(
                s@,
                i as int,
                jser_fields_more(ps),
            ) implies ps.len() == 0 by {
                lemma_jser_fields_more_first(ps);
            }
        }
        return Some((out, i + 1));
    }
    if b != 0x2c {
        proof {
            assert forall|ps: Seq<(Seq<u8>, Val)>|
                all_json_fields(ps) && #[trigger] starts_at(
                s@,
                i as int,
                jser_fields_more(ps),
            ) implies false by {
                lemma_jser_fields_more_first(ps);
            }
        }
        return None;
    }
    match parse_field(s, i + 1) {
        None => {
            proof {
                assert forall|ps: Seq<(Seq<u8>, Val)>|
                    all_json_fields(ps) && #[trigger] starts_at(
                    s@,
                    i as int,
                    jser_fields_more(ps),
                ) implies false by {
                    lemma_jser_fields_more_first(ps);
                }
            }
            None
        },
        Some((e0, j)) => {
            match parse_fields_more(s, j) {
                None => {
                    proof {
                        assert forall|ps: Seq<(Seq<u8>, Val)>|
                            all_json_fields(ps) && #[trigger] starts_at(
                            s@,
                            i as int,
                            jser_fields_more(ps),
                        ) implies false by {
                            lemma_jser_fields_more_first(ps);
                            assert((e0.0@, e0.1@) == ps[0] && j == i + 1 + jser_field(
                                ps[0],
                            ).len());
                        }
                    }
                    None
                },
                Some((mut rest, j2)) => {
                    let ghost rest0 = rest@;
                    rest.insert(0, e0);
                    proof {
                        lemma_view_entries(rest@);
                        lemma_view_entries(rest0);
                        assert(rest@ == rest0.insert(0, e0));
                        assert(rest@[0] == e0);
                        assert(view_entries(rest@)[0] == (e0.0@, e0.1@));
                        assert forall|k: int| 1 <= k < rest@.len() implies view_entries(rest@)[k]
                            == view_entries(rest0)[k - 1] by {
                            assert(rest@[k] == rest0[k - 1]);
                        }
                        assert(view_entries(rest@).drop_first() =~= view_entries(rest0));
                        assert(s@.subrange(i as int, j2 as int) =~= seq![0x2cu8] + s@.subrange(
                            i as int + 1,
                            j as int,
                        ) + s@.subrange(j as int, j2 as int));
                        assert(s@.subrange(i as int, j2 as int) =~= jser_fields_more(
                            view_entries(rest@),
                        ));
                        assert forall|ps: Seq<(Seq<u8>, Val)>|
                            all_json_fields(ps) && #[trigger] starts_at(
                            s@,
                            i as int,
                            jser_fields_more(ps),
                        ) implies view_entries(rest@) == ps && j2 == i + jser_fields_more(
                            ps,
                        ).len() by {
                            lemma_jser_fields_more_first(ps);
                            assert((e0.0@, e0.1@) == ps[0] && j == i + 1 + jser_field(
                                ps[0],
                            ).len());
                            assert(view_entries(rest0) == ps.drop_first() && j2 == j
                                + jser_fields_more(ps.drop_first()).len());
                            assert forall|k: int| 0 <= k < ps.len() implies view_entries(rest@)[k]
                                == ps[k] by {
                                if k >= 1 {
                                    assert(view_entries(rest@)[k] == view_entries(rest0)[k - 1]);
                                    assert(ps.drop_first()[k - 1] == ps[k]);
                                }
                            }
                            assert(view_entries(rest@) =~= ps);
                        }
                    }
                    Some((rest, j2))
                },
            }
        },
    }
}

/// Reads the whole text from `i` to the end as one value. Exactly the
/// canonical text of each wire-fit value is accepted.
pub fn from_json(s: &Vec<u8>, i: usize) -> (r: Option<Value>)
    requires
        i <= s@.len(),
    ensures
        r matches Some(v) ==> is_json(v@) && s@.subrange(i as int, s@.len() as int) == jser(v@),
        r is None ==> !(exists|v: Val|
            is_json(v) && s@.subrange(i as int, s@.len() as int) == jser(v)),
        forall|w: Val|
            is_json(w) && s@.subrange(i as int, s@.len() as int) == jser(w) ==> (r matches Some(v)
                && v@ == w),
{
    proof {
        assert forall|v: Val|
            is_json(v) && s@.subrange(i as int, s@.len() as int) == jser(v) implies can_parse(
            v,
            s@,
            i as int,
        ) by {
            assert(starts_at(s@, i as int, jser(v)));
        }
    }
    match parse_value(s, i) {
        Some((v, j)) => {
            if j == s.len() {
                Some(v)
            } else {
                proof {
                    if exists|v: Val|
                        is_json(v) && s@.subrange(i as int, s@.len() as int) == jser(v) {
                        let w = choose|w: Val|
                            is_json(w) && s@.subrange(i as int, s@.len() as int) == jser(w);
                        assert(can_parse(w, s@, i as int));
                        assert(false);
                    }
                }
                None
            }
        },
        None => {
            proof {
                if exists|v: Val| is_json(v) && s@.subrange(i as int, s@.len() as int) == jser(v) {
                    let w = choose|w: Val|
                        is_json(w) && s@.subrange(i as int, s@.len() as int) == jser(w);
                    assert(can_parse(w, s@, i as int));
                    assert(false);
                }
            }
            None
        },
    }
}

/// Only the text of `Null` begins with the byte at `i`; likewise for the
/// other fixed-shape forms below.
proof fn lemma_only_null(s: Seq<u8>, i: int)
    ensures
        forall|v: Val|
            is_json(v) && #[trigger] can_parse(v, s, i) && s[i] == 0x6e ==> v == Val::Null,
{
    assert forall|v: Val|
        is_json(v) && #[trigger] can_parse(v, s, i) && s[i] == 0x6e implies v == Val::Null by {
        lemma_can_parse_first(v, s, i);
        lemma_jser_first(v);
        match v {
            Val::Int(_) => {
                assert(false);
            },
            Val::Null => {},
            _ => {
                assert(false);
            },
        }
    }
}

/// See `lemma_only_null`.
proof fn lemma_only_true(s: Seq<u8>, i: int)
    ensures
        forall|v: Val|
            is_json(v) && #[trigger] can_parse(v, s, i) && s[i] == 0x74 ==> v == Val::Bool(true),
{
    assert forall|v: Val|
        is_json(v) && #[trigger] can_parse(v, s, i) && s[i] == 0x74 implies v == Val::Bool(
        true,
    ) by {
        lemma_can_parse_first(v, s, i);
        lemma_jser_first(v);
        match v {
            Val::Int(_) => {
                assert(false);
            },
            Val::Bool(b) => {
                assert(b);
            },
            _ => {
                assert(false);
            },
        }
    }
}

/// See `lemma_only_null`.
proof fn lemma_only_false(s: Seq<u8>, i: int)
    ensures
        forall|v: Val|
            is_json(v) && #[trigger] can_parse(v, s, i) && s[i] == 0x66 ==> v == Val::Bool(false),
{
    assert forall|v: Val|
        is_json(v) && #[trigger] can_parse(v, s, i) && s[i] == 0x66 implies v == Val::Bool(
        false,
    ) by {
        lemma_can_parse_first(v, s, i);
        lemma_jser_first(v);
        match v {
            Val::Int(_) => {
                assert(false);
            },
            Val::Bool(b) => {
                assert(!b);
            },
            _ => {
                assert(false);
            },
        }
    }
}

/// See `lemma_only_null`.
proof fn lemma_only_str(s: Seq<u8>, i: int)
    ensures
        forall|v: Val| is_json(v) && #[trigger] can_parse(v, s, i) && s[i] == 0x22 ==> v is Str,
{
    assert forall|v: Val|
        is_json(v) && #[trigger] can_parse(v, s, i) && s[i] == 0x22 implies v is Str by {
        lemma_can_parse_first(v, s, i);
        lemma_jser_first(v);
        match v {
            Val::Int(_) => {
                assert(false);
            },
            Val::Str(_) => {},
            _ => {
                assert(false);
            },
        }
    }
}

/// See `lemma_only_null`.
proof fn lemma_only_arr(s: Seq<u8>, i: int)
    ensures
        forall|v: Val| is_json(v) && #[trigger] can_parse(v, s, i) && s[i] == 0x5b ==> v is Arr,
{
    assert forall|v: Val|
        is_json(v) && #[trigger] can_parse(v, s, i) && s[i] == 0x5b implies v is Arr by {
        lemma_can_parse_first(v, s, i);
        lemma_jser_first(v);
        match v {
            Val::Int(_) => {
                assert(false);
            },
            Val::Arr(_) => {},
            _ => {
                assert(false);
            },
        }
    }
}

/// See `lemma_only_null`.
proof fn lemma_only_obj(s: Seq<u8>, i: int)
    ensures
        forall|v: Val| is_json(v) && #[trigger] can_parse(v, s, i) && s[i] == 0x7b ==> v is Obj,
{
    assert forall|v: Val|
        is_json(v) && #[trigger] can_parse(v, s, i) && s[i] == 0x7b implies v is Obj by {
        lemma_can_parse_first(v, s, i);
        lemma_jser_first(v);
        match v {
            Val::Int(_) => {
                assert(false);
            },
            Val::Obj(_) => {},
            _ => {
                assert(false);
            },
        }
    }
}

/// The bytes of a code point in the text's own encoding: below `0x80` the
/// byte's canonical escape, above it the two- or three-byte multi-byte form.
pub open spec fn unesc_seq(c: int) -> Seq<u8> {
    if c < 0x80 {
        esc_byte(c as u8)
    } else if c < 0x800 {
        seq![(0xc0 + c / 0x40) as u8, (0x80 + c % 0x40) as u8]
    } else if c < 0x10000 {
        seq![(0xe0 + c / 0x1000) as u8, (0x80 + (c / 0x40) % 0x40) as u8, (0x80 + c % 0x40) as u8]
    } else {
        seq![
            (0xf0 + c / 0x40000) as u8,
            (0x80 + (c / 0x1000) % 0x40) as u8,
            (0x80 + (c / 0x40) % 0x40) as u8,
            (0x80 + c % 0x40) as u8,
        ]
    }
}

/// Wraps a normalized tail under a prefix.
pub open spec fn norm_prep(p: Seq<u8>, r: Option<Seq<u8>>) -> Option<Seq<u8>> {
    match r {
        Some(tail) => Some(p + tail),
        None => None,
    }
}

/// The canonical form of a liberal payload text: blanks outside string
/// literals are dropped; inside them, the standard escapes and four-digit
/// escapes are rewritten to the canonical escaping, a four-digit escape
/// above the single-byte range becoming its multi-byte form. A broken
/// escape, or a lone surrogate, has no canonical form.
pub open spec fn norm(s: Seq<u8>, in_str: bool) -> Option<Seq<u8>>
    decreases s.len(),
{
    if s.len() == 0 {
        Some(Seq::<u8>::empty())
    } else {
        let b = s[0];
        if !in_str {
            if b == 0x20 || b == 0x09 || b == 0x0a || b == 0x0d {
                norm(s.drop_first(), false)
            } else if b == 0x22 {
                norm_prep(seq![0x22u8], norm(s.drop_first(), true))
            } else {
                norm_prep(seq![b], norm(s.drop_first(), false))
            }
        } else {
            if b == 0x22 {
                norm_prep(seq![0x22u8], norm(s.drop_first(), false))
            } else if b == 0x5c {
                if s.len() < 2 {
                    None
                } else {
                    let m = s[1];
                    if m == 0x22 || m == 0x5c {
                        norm_prep(seq![0x5cu8, m], norm(s.skip(2), true))
                    } else if m == 0x2f {
                        norm_prep(seq![0x2fu8], norm(s.skip(2), true))
                    } else if m == 0x62 {
                        norm_prep(esc_byte(0x08), norm(s.skip(2), true))
                    } else if m == 0x74 {
                        norm_prep(esc_byte(0x09), norm(s.skip(2), true))
                    } else if m == 0x6e {
                        norm_prep(esc_byte(0x0a), norm(s.skip(2), true))
                    } else if m == 0x66 {
                        norm_prep(esc_byte(0x0c), norm(s.skip(2), true))
                    } else if m == 0x72 {
                        norm_prep(esc_byte(0x0d), norm(s.skip(2), true))
                    } else if m == 0x75 {
                        if s.len() < 6 {
                            None
                        } else if hexv(s[2]) is Some && hexv(s[3]) is Some && hexv(s[4]) is Some
                            && hexv(s[5]) is Some {
                            let c = 0x1000 * hexv(s[2])->Some_0 + 0x100 * hexv(s[3])->Some_0 + 0x10
                                * hexv(s[4])->Some_0 + hexv(s[5])->Some_0;
                            if 0xdc00 <= c <= 0xdfff {
                                None
                            } else if 0xd800 <= c <= 0xdbff {
                                if s.len() < 12 || s[6] != 0x5c || s[7] != 0x75 {
                                    None
                                } else if hexv(s[8]) is Some && hexv(s[9]) is Some && hexv(
                                    s[10],
                                ) is Some && hexv(s[11]) is Some {
                                    let c2 = 0x1000 * hexv(s[8])->Some_0 + 0x100 * hexv(
                                        s[9],
                                    )->Some_0 + 0x10 * hexv(s[10])->Some_0 + hexv(s[11])->Some_0;
                                    if 0xdc00 <= c2 <= 0xdfff {
                                        norm_prep(
                                            unesc_seq(
                                                0x10000 + (c - 0xd800) * 0x400 + (c2 - 0xdc00),
                                            ),
                                            norm(s.skip(12), true),
                                        )
                                    } else {
                                        None
                                    }
                                } else {
                                    None
                                }
                            } else {
                                norm_prep(unesc_seq(c as int), norm(s.skip(6), true))
                            }
                        } else {
                            None
                        }
                    } else {
                        None
                    }
                }
            } else if b < 0x20 {
                norm_prep(esc_byte(b), norm(s.drop_first(), true))
            } else {
                norm_prep(seq![b], norm(s.drop_first(), true))
            }
        }
    }
}

/// Appends the bytes a code point contributes to a canonical string body.
pub fn push_unesc(c: u32, out: &mut Vec<u8>)
    requires
        c <= 0x10ffff,
    ensures
        final(out)@ == old(out)@ + unesc_seq(c as int),
{
    if c < 0x80 {
        push_esc_byte(c as u8, out);
    } else if c < 0x800 {
        out.push(0xc0 + (c / 0x40) as u8);
        out.push(0x80 + (c % 0x40) as u8);
    } else if c < 0x10000 {
        out.push(0xe0 + (c / 0x1000) as u8);
        out.push(0x80 + ((c / 0x40) % 0x40) as u8);
        out.push(0x80 + (c % 0x40) as u8);
    } else {
        out.push(0xf0 + (c / 0x40000) as u8);
        out.push(0x80 + ((c / 0x1000) % 0x40) as u8);
        out.push(0x80 + ((c / 0x40) % 0x40) as u8);
        out.push(0x80 + (c % 0x40) as u8);
    }
    proof {
        assert(out@ =~= old(out)@ + unesc_seq(c as int));
    }
}

/// Reads four hexadecimal digits as one code point.
pub fn read_hex4(s: &Vec<u8>, i: usize) -> (r: Option<u32>)
    requires
        i + 4 <= s@.len(),
    ensures
        r is Some <==> hexv(s@[i as int]) is Some && hexv(s@[i as int + 1]) is Some && hexv(
            s@[i as int + 2],
        ) is Some && hexv(s@[i as int + 3]) is Some,
        r matches Some(c) ==> c == 0x1000 * hexv(s@[i as int])->Some_0 + 0x100 * hexv(
            s@[i as int + 1],
        )->Some_0 + 0x10 * hexv(s@[i as int + 2])->Some_0 + hexv(s@[i as int + 3])->Some_0,
{
    let sl = s.len();
    let v0 = match hex_value(s[i]) {
        Some(v) => v,
        None => {
            return None;
        },
    };
    let v1 = match hex_value(s[i + 1]) {
        Some(v) => v,
        None => {
            return None;
        },
    };
    let v2 = match hex_value(s[i + 2]) {
        Some(v) => v,
        None => {
            return None;
        },
    };
    let v3 = match hex_value(s[i + 3]) {
        Some(v) => v,
        None => {
            return None;
        },
    };
    Some(0x1000 * (v0 as u32) + 0x100 * (v1 as u32) + 0x10 * (v2 as u32) + (v3 as u32))
}

/// Appends the canonical form of the text from `i` on, read outside a
/// string literal; the result says whether one exists.
#[verifier::rlimit(60)]
pub fn normalize_out(s: &Vec<u8>, i: usize, out: &mut Vec<u8>) -> (ok: bool)
    requires
        i <= s@.len(),
    ensures
        ok <==> norm(s@.skip(i as int), false) is Some,
        ok ==> final(out)@ == old(out)@ + norm(s@.skip(i as int), false)->Some_0,
    decreases s@.len() - i, 0int,
{
    let ghost rest = s@.skip(i as int);
    if i >= s.len() {
        proof {
            assert(rest =~= Seq::<u8>::empty());
            assert(out@ =~= out@ + norm(rest, false)->Some_0);
        }
        return true;
    }
    proof {
        assert(rest[0] == s@[i as int]);
        assert(rest.drop_first() =~= s@.skip(i as int + 1));
    }
    let b = s[i];
    if b == 0x20 || b == 0x09 || b == 0x0a || b == 0x0d {
        normalize_out(s, i + 1, out)
    } else if b == 0x22 {
        out.push(0x22);
        let ok = normalize_in(s, i + 1, out);
        proof {
            if ok {
                assert(out@ =~= old(out)@ + norm(rest, false)->Some_0);
            }
        }
        ok
    } else {
        out.push(b);
        let ok = normalize_out(s, i + 1, out);
        proof {
            if ok {
                assert(out@ =~= old(out)@ + norm(rest, false)->Some_0);
            }
        }
        ok
    }
}

/// The four-digit escape arm of `normalize_in`: one escape, or a surrogate
/// pair, becomes the bytes of the code point it names.
#[verifier::rlimit(100)]
#[verifier::spinoff_prover]
fn normalize_u(s: &Vec<u8>, i: usize, out: &mut Vec<u8>) -> (ok: bool)
    requires
        i + 2 <= s@.len(),
        s@[i as int] == 0x5c,
        s@[i as int + 1] == 0x75,
    ensures
        ok <==> norm(s@.skip(i as int), true) is Some,
        ok ==> final(out)@ == old(out)@ + norm(s@.skip(i as int), true)->Some_0,
    decreases s@.len() - i, 0int,
{
    let ghost rest = s@.skip(i as int);
    proof {
        assert(rest[0] == s@[i as int]);
        assert(rest[1] == s@[i as int + 1]);
        if s@.len() - i >= 6 {
            assert(rest.skip(6) =~= s@.skip(i as int + 6));
        }
        if s@.len() - i >= 12 {
            assert(rest.skip(12) =~= s@.skip(i as int + 12));
        }
    }
    if s.len() - i < 6 {
        return false;
    }
    let c = match read_hex4(s, i + 2) {
        Some(c) => c,
        None => {
            return false;
        },
    };
    if 0xdc00 <= c && c <= 0xdfff {
        return false;
    }
    if 0xd800 <= c && c <= 0xdbff {
        if s.len() - i < 12 || s[i + 6] != 0x5c || s[i + 7] != 0x75 {
            return false;
        }
        let c2 = match read_hex4(s, i + 8) {
            Some(c2) => c2,
            None => {
                return false;
            },
        };
        if !(0xdc00 <= c2 && c2 <= 0xdfff) {
            return false;
        }
        push_unesc(0x10000 + (c - 0xd800) * 0x400 + (c2 - 0xdc00), out);
        let ok = normalize_in(s, i + 12, out);
        proof {
            if ok {
                assert(out@ =~= old(out)@ + norm(rest, true)->Some_0);
            }
        }
        return ok;
    }
    push_unesc(c, out);
    let ok = normalize_in(s, i + 6, out);
    proof {
        if ok {
            assert(out@ =~= old(out)@ + norm(rest, true)->Some_0);
        }
    }
    ok
}

/// As `normalize_out`, read inside a string literal.
#[verifier::rlimit(100)]
pub fn normalize_in(s: &Vec<u8>, i: usize, out: &mut Vec<u8>) -> (ok: bool)
    requires
        i <= s@.len(),
    ensures
        ok <==> norm(s@.skip(i as int), true) is Some,
        ok ==> final(out)@ == old(out)@ + norm(s@.skip(i as int), true)->Some_0,
    decreases s@.len() - i, 1int,
{
    let ghost rest = s@.skip(i as int);
    if i >= s.len() {
        proof {
            assert(rest =~= Seq::<u8>::empty());
            assert(out@ =~= out@ + norm(rest, true)->Some_0);
        }
        return true;
    }
    proof {
        assert(rest[0] == s@[i as int]);
        assert(rest.drop_first() =~= s@.skip(i as int + 1));
        if s@.len() - i >= 2 {
            assert(rest.skip(2) =~= s@.skip(i as int + 2));
        }
        if s@.len() - i >= 6 {
            assert(rest.skip(6) =~= s@.skip(i as int + 6));
        }
    }
    let b = s[i];
    if b == 0x22 {
        out.push(0x22);
        let ok = normalize_out(s, i + 1, out);
        proof {
            if ok {
                assert(out@ =~= old(out)@ + norm(rest, true)->Some_0);
            }
        }
        ok
    } else if b == 0x5c {
        if s.len() - i < 2 {
            return false;
        }
        let m = s[i + 1];
        if m == 0x22 || m == 0x5c {
            out.push(0x5c);
            out.push(m);
            let ok = normalize_in(s, i + 2, out);
            proof {
                if ok {
                    assert(out@ =~= old(out)@ + norm(rest, true)->Some_0);
                }
            }
            ok
        } else if m == 0x2f {
            out.push(0x2f);
            let ok = normalize_in(s, i + 2, out);
            proof {
                if ok {
                    assert(out@ =~= old(out)@ + norm(rest, true)->Some_0);
                }
            }
            ok
        } else if m == 0x62 || m == 0x74 || m == 0x6e || m == 0x66 || m == 0x72 {
            let c: u8 = if m == 0x62 {
                0x08
            } else if m == 0x74 {
                0x09
            } else if m == 0x6e {
                0x0a
            } else if m == 0x66 {
                0x0c
            } else {
                0x0d
            };
            push_esc_byte(c, out);
            let ok = normalize_in(s, i + 2, out);
            proof {
                if ok {
                    assert(out@ =~= old(out)@ + norm(rest, true)->Some_0);
                }
            }
            ok
        } else if m == 0x75 {
            normalize_u(s, i, out)
        } else {
            false
        }
    } else if b < 0x20 {
        push_esc_byte(b, out);
        let ok = normalize_in(s, i + 1, out);
        proof {
            if ok {
                assert(out@ =~= old(out)@ + norm(rest, true)->Some_0);
            }
        }
        ok
    } else {
        out.push(b);
        let ok = normalize_in(s, i + 1, out);
        proof {
            if ok {
                assert(out@ =~= old(out)@ + norm(rest, true)->Some_0);
            }
        }
        ok
    }
}

/// The canonical form of a liberal payload text, when one exists.
pub fn normalize(s: &Vec<u8>) -> (r: Option<Vec<u8>>)
    ensures
        (match norm(s@, false) {
            Some(t) => r matches Some(v) && v@ == t,
            None => r is None,
        }),
{
    let mut out: Vec<u8> = Vec::new();
    proof {
        assert(s@.skip(0) =~= s@);
    }
    if normalize_out(s, 0, &mut out) {
        proof {
            assert(out@ =~= norm(s@, false)->Some_0);
        }
        Some(out)
    } else {
        None
    }
}

/// `b` is a continuation byte of a multi-byte character.
pub open spec fn is_cont(b: u8) -> bool {
    0x80 <= b <= 0xbf
}

/// The length of the well-formed character beginning the text, or zero when
/// none does: the strict encoding, with no overlong forms and no surrogates.
pub open spec fn utf8_step(s: Seq<u8>) -> int {
    if s.len() == 0 {
        0
    } else {
        let b0 = s[0];
        if b0 < 0x80 {
            1
        } else if 0xc2 <= b0 <= 0xdf {
            if s.len() >= 2 && is_cont(s[1]) {
                2
            } else {
                0
            }
        } else if b0 == 0xe0 {
            if s.len() >= 3 && 0xa0 <= s[1] <= 0xbf && is_cont(s[2]) {
                3
            } else {
                0
            }
        } else if b0 == 0xed {
            if s.len() >= 3 && 0x80 <= s[1] <= 0x9f && is_cont(s[2]) {
                3
            } else {
                0
            }
        } else if 0xe1 <= b0 <= 0xef {
            if s.len() >= 3 && is_cont(s[1]) && is_cont(s[2]) {
                3
            } else {
                0
            }
        } else if b0 == 0xf0 {
            if s.len() >= 4 && 0x90 <= s[1] <= 0xbf && is_cont(s[2]) && is_cont(s[3]) {
                4
            } else {
                0
            }
        } else if 0xf1 <= b0 <= 0xf3 {
            if s.len() >= 4 && is_cont(s[1]) && is_cont(s[2]) && is_cont(s[3]) {
                4
            } else {
                0
            }
        } else if b0 == 0xf4 {
            if s.len() >= 4 && 0x80 <= s[1] <= 0x8f && is_cont(s[2]) && is_cont(s[3]) {
                4
            } else {
                0
            }
        } else {
            0
        }
    }
}

/// The text is a well-formed sequence of characters.
pub open spec fn is_utf8(s: Seq<u8>) -> bool
    decreases s.len(),
{
    if s.len() == 0 {
        true
    } else {
        let l = utf8_step(s);
        l > 0 && is_utf8(s.skip(l))
    }
}

/// Whether the bytes from `a` to `b` are a well-formed text.
#[verifier::loop_isolation(false)]
#[verifier::rlimit(60)]
pub fn check_utf8(s: &Vec<u8>, a: usize, b: usize) -> (r: bool)
    requires
        a <= b <= s@.len(),
    ensures
        r == is_utf8(s@.subrange(a as int, b as int)),
{
    let ghost whole = s@.subrange(a as int, b as int);
    proof {
        assert forall|k: int| 0 <= k < whole.len() implies whole[k] == s@[a + k] by {}
    }
    let mut k: usize = a;
    proof {
        assert(whole.skip(0) =~= whole);
    }
    while k < b
        invariant
            a <= k <= b,
            is_utf8(whole) == is_utf8(whole.skip(k - a)),
        decreases b - k,
    {
        let ghost rest = whole.skip(k - a);
        proof {
            assert(rest.len() == b - k);
            assert forall|j: int| 0 <= j < rest.len() implies rest[j] == s@[k + j] by {
                assert(rest[j] == whole[k - a + j]);
            }
        }
        let b0 = s[k];
        let step: usize = if b0 < 0x80 {
            1
        } else if 0xc2 <= b0 && b0 <= 0xdf {
            if b - k >= 2 && 0x80 <= s[k + 1] && s[k + 1] <= 0xbf {
                2
            } else {
                0
            }
        } else if b0 == 0xe0 {
            if b - k >= 3 && 0xa0 <= s[k + 1] && s[k + 1] <= 0xbf && 0x80 <= s[k + 2] && s[k + 2]
                <= 0xbf {
                3
            } else {
                0
            }
        } else if b0 == 0xed {
            if b - k >= 3 && 0x80 <= s[k + 1] && s[k + 1] <= 0x9f && 0x80 <= s[k + 2] && s[k + 2]
                <= 0xbf {
                3
            } else {
                0
            }
        } else if 0xe1 <= b0 && b0 <= 0xef {
            if b - k >= 3 && 0x80 <= s[k + 1] && s[k + 1] <= 0xbf && 0x80 <= s[k + 2] && s[k + 2]
                <= 0xbf {
                3
            } else {
                0
            }
        } else if b0 == 0xf0 {
            if b - k >= 4 && 0x90 <= s[k + 1] && s[k + 1] <= 0xbf && 0x80 <= s[k + 2] && s[k + 2]
                <= 0xbf && 0x80 <= s[k + 3] && s[k + 3] <= 0xbf {
                4
            } else {
                0
            }
        } else if 0xf1 <= b0 && b0 <= 0xf3 {
            if b - k >= 4 && 0x80 <= s[k + 1] && s[k + 1] <= 0xbf && 0x80 <= s[k + 2] && s[k + 2]
                <= 0xbf && 0x80 <= s[k + 3] && s[k + 3] <= 0xbf {
                4
            } else {
                0
            }
        } else if b0 == 0xf4 {
            if b - k >= 4 && 0x80 <= s[k + 1] && s[k + 1] <= 0x8f && 0x80 <= s[k + 2] && s[k + 2]
                <= 0xbf && 0x80 <= s[k + 3] && s[k + 3] <= 0xbf {
                4
            } else {
                0
            }
        } else {
            0
        };
        proof {
            assert(utf8_step(rest) == step as int);
        }
        if step == 0 {
            proof {
                assert(!is_utf8(rest));
            }
            return false;
        }
        proof {
            assert(rest.skip(step as int) =~= whole.skip(k + step - a));
        }
        k = k + step;
    }
    proof {
        assert(whole.skip(k - a) =~= Seq::<u8>::empty());
    }
    true
}

} // verus!
