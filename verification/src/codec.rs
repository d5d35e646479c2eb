use vstd::prelude::*;
use crate::ast::{GenericParam, ParamModel};

verus! {

// The registry stores each bound set in a canonical serialized form, so that
// it can be re-parsed later without retaining live parsed structure. The form
// is a length-prefixed byte encoding: every count and every byte-string length
// is written as eight little-endian base-256 digits, so decoding is
// unambiguous whatever bytes the opaque bound and predicate texts contain.

/// The eight little-endian base-256 digits of `n`.
#[verifier::opaque]
pub open spec fn le_bytes(n: u64) -> Seq<u8> {
    let r0 = n as int;
    let r1 = r0 / 256;
    let r2 = r1 / 256;
    let r3 = r2 / 256;
    let r4 = r3 / 256;
    let r5 = r4 / 256;
    let r6 = r5 / 256;
    let r7 = r6 / 256;
    seq![
        (r0 % 256) as u8,
        (r1 % 256) as u8,
        (r2 % 256) as u8,
        (r3 % 256) as u8,
        (r4 % 256) as u8,
        (r5 % 256) as u8,
        (r6 % 256) as u8,
        (r7 % 256) as u8,
    ]
}

/// The value of eight little-endian base-256 digits.
#[verifier::opaque]
pub open spec fn le_val(s: Seq<u8>) -> int
    recommends
        s.len() == 8,
{
    s[0] + 0x100 * s[1] + 0x10000 * s[2] + 0x1000000 * s[3] + 0x100000000 * s[4]
        + 0x10000000000 * s[5] + 0x1000000000000 * s[6] + 0x100000000000000 * s[7]
}

pub broadcast proof fn lemma_le_bytes_len(n: u64)
    ensures
        (#[trigger] le_bytes(n)).len() == 8,
{
    reveal(le_bytes);
}

pub proof fn lemma_le_round(n: u64)
    ensures
        le_val(le_bytes(n)) == n,
{
    reveal(le_bytes);
    reveal(le_val);
    let r0 = n as int;
    let r1 = r0 / 256;
    let r2 = r1 / 256;
    let r3 = r2 / 256;
    let r4 = r3 / 256;
    let r5 = r4 / 256;
    let r6 = r5 / 256;
    let r7 = r6 / 256;
    assert(r0 == 256 * r1 + r0 % 256);
    assert(r1 == 256 * r2 + r1 % 256);
    assert(r2 == 256 * r3 + r2 % 256);
    assert(r3 == 256 * r4 + r3 % 256);
    assert(r4 == 256 * r5 + r4 % 256);
    assert(r5 == 256 * r6 + r5 % 256);
    assert(r6 == 256 * r7 + r6 % 256);
    assert(r7 < 256);
    assert(r7 % 256 == r7);
}

/// Appends the eight-byte encoding of `n` to `out`.
pub fn encode_u64_into(out: &mut Vec<u8>, n: u64)
    ensures
        final(out)@ == old(out)@ + le_bytes(n),
{
    let mut r: u64 = n;
    let b0: u8 = (r % 256) as u8;
    r = r / 256;
    let b1: u8 = (r % 256) as u8;
    r = r / 256;
    let b2: u8 = (r % 256) as u8;
    r = r / 256;
    let b3: u8 = (r % 256) as u8;
    r = r / 256;
    let b4: u8 = (r % 256) as u8;
    r = r / 256;
    let b5: u8 = (r % 256) as u8;
    r = r / 256;
    let b6: u8 = (r % 256) as u8;
    r = r / 256;
    let b7: u8 = (r % 256) as u8;
    out.push(b0);
    out.push(b1);
    out.push(b2);
    out.push(b3);
    out.push(b4);
    out.push(b5);
    out.push(b6);
    out.push(b7);
    proof {
        reveal(le_bytes);
    }
    assert(out@ =~= old(out)@ + le_bytes(n));
}

/// Reads the eight-byte encoding starting at `pos`; returns the value and the
/// position just after it, or `None` if the buffer is too short.
pub fn decode_u64(buf: &Vec<u8>, pos: usize) -> (r: Option<(u64, usize)>)
    ensures
        pos + 8 <= buf@.len() ==> (r matches Some((v, p)) && v == le_val(
            buf@.subrange(pos as int, pos + 8),
        ) && p == pos + 8),
        pos + 8 > buf@.len() ==> r is None,
{
    if pos >= buf.len() || buf.len() - pos < 8 {
        return None;
    }
    let b0 = buf[pos];
    let b1 = buf[pos + 1];
    let b2 = buf[pos + 2];
    let b3 = buf[pos + 3];
    let b4 = buf[pos + 4];
    let b5 = buf[pos + 5];
    let b6 = buf[pos + 6];
    let b7 = buf[pos + 7];
    let v: u64 = (b0 as u64) + 0x100 * (b1 as u64) + 0x10000 * (b2 as u64) + 0x1000000 * (
    b3 as u64) + 0x100000000 * (b4 as u64) + 0x10000000000 * (b5 as u64) + 0x1000000000000 * (
    b6 as u64) + 0x100000000000000 * (b7 as u64);
    proof {
        reveal(le_val);
        let s = buf@.subrange(pos as int, pos + 8);
        assert(s[0] == b0 && s[1] == b1 && s[2] == b2 && s[3] == b3 && s[4] == b4 && s[5] == b5
            && s[6] == b6 && s[7] == b7);
    }
    Some((v, pos + 8))
}

} // verus!

verus! {


// Tags that open the encoding of one generic parameter.
pub const TAG_LIFETIME: u8 = 0;
pub const TAG_TYPE: u8 = 1;
pub const TAG_CONST: u8 = 2;

/// A byte string whose length fits the eight-digit length prefix.
pub open spec fn bounded_str(s: Seq<u8>) -> bool {
    s.len() <= u64::MAX
}

pub open spec fn bounded_str_list(bs: Seq<Seq<u8>>) -> bool {
    &&& bs.len() <= u64::MAX
    &&& forall|i: int| 0 <= i < bs.len() ==> bounded_str(#[trigger] bs[i])
}

pub open spec fn bounded_param(p: ParamModel) -> bool {
    match p {
        ParamModel::Lifetime { name } => bounded_str(name),
        ParamModel::Type { name, bounds } => bounded_str(name) && bounded_str_list(bounds),
        ParamModel::Const { name, ty, default } => bounded_str(name) && bounded_str(ty) && match default {
            Some(d) => bounded_str(d),
            None => true,
        },
    }
}

pub open spec fn bounded_params(ps: Seq<ParamModel>) -> bool {
    &&& ps.len() <= u64::MAX
    &&& forall|i: int| 0 <= i < ps.len() ==> bounded_param(#[trigger] ps[i])
}

/// Length-prefixed encoding of one byte string.
pub open spec fn enc_bytes(b: Seq<u8>) -> Seq<u8> {
    le_bytes(b.len() as u64) + b
}

pub open spec fn enc_str_cat(bs: Seq<Seq<u8>>) -> Seq<u8>
    decreases bs.len(),
{
    if bs.len() == 0 {
        Seq::empty()
    } else {
        enc_bytes(bs[0]) + enc_str_cat(bs.skip(1))
    }
}

/// Count-prefixed encoding of a list of byte strings.
pub open spec fn enc_str_list(bs: Seq<Seq<u8>>) -> Seq<u8> {
    le_bytes(bs.len() as u64) + enc_str_cat(bs)
}

pub open spec fn enc_opt(d: Option<Seq<u8>>) -> Seq<u8> {
    match d {
        None => seq![0u8],
        Some(s) => seq![1u8] + enc_bytes(s),
    }
}

/// Encoding of one generic parameter: a tag, then its fields.
pub open spec fn enc_param(p: ParamModel) -> Seq<u8> {
    match p {
        ParamModel::Lifetime { name } => seq![TAG_LIFETIME] + enc_bytes(name),
        ParamModel::Type { name, bounds } => seq![TAG_TYPE] + enc_bytes(name) + enc_str_list(bounds),
        ParamModel::Const { name, ty, default } => seq![TAG_CONST] + enc_bytes(name) + enc_bytes(ty)
            + enc_opt(default),
    }
}

pub open spec fn enc_param_cat(ps: Seq<ParamModel>) -> Seq<u8>
    decreases ps.len(),
{
    if ps.len() == 0 {
        Seq::empty()
    } else {
        enc_param(ps[0]) + enc_param_cat(ps.skip(1))
    }
}

/// The canonical serialized form of a generic parameter list.
pub open spec fn enc_params(ps: Seq<ParamModel>) -> Seq<u8> {
    le_bytes(ps.len() as u64) + enc_param_cat(ps)
}

// The structural decoders, the inverse reading of the encoding above. Each
// takes the whole buffer and a position, and yields the decoded value and the
// position just past it.

pub open spec fn dec_u64(s: Seq<u8>, pos: int) -> Option<(int, int)> {
    if 0 <= pos && pos + 8 <= s.len() {
        Some((le_val(s.subrange(pos, pos + 8)), pos + 8))
    } else {
        None
    }
}

pub open spec fn dec_bytes(s: Seq<u8>, pos: int) -> Option<(Seq<u8>, int)> {
    match dec_u64(s, pos) {
        Some((n, p)) => if p + n <= s.len() {
            Some((s.subrange(p, p + n), p + n))
        } else {
            None
        },
        None => None,
    }
}

pub open spec fn dec_str_list_n(s: Seq<u8>, pos: int, n: nat) -> Option<(Seq<Seq<u8>>, int)>
    decreases n,
{
    if n == 0 {
        Some((Seq::empty(), pos))
    } else {
        match dec_bytes(s, pos) {
            Some((b, p)) => match dec_str_list_n(s, p, (n - 1) as nat) {
                Some((bs, e)) => Some((seq![b] + bs, e)),
                None => None,
            },
            None => None,
        }
    }
}

pub open spec fn dec_str_list(s: Seq<u8>, pos: int) -> Option<(Seq<Seq<u8>>, int)> {
    match dec_u64(s, pos) {
        Some((n, p)) => dec_str_list_n(s, p, n as nat),
        None => None,
    }
}

pub open spec fn dec_opt(s: Seq<u8>, pos: int) -> Option<(Option<Seq<u8>>, int)> {
    if 0 <= pos < s.len() {
        if s[pos] == 0u8 {
            Some((None, pos + 1))
        } else if s[pos] == 1u8 {
            match dec_bytes(s, pos + 1) {
                Some((b, p)) => Some((Some(b), p)),
                None => None,
            }
        } else {
            None
        }
    } else {
        None
    }
}

pub open spec fn dec_param(s: Seq<u8>, pos: int) -> Option<(ParamModel, int)> {
    if 0 <= pos < s.len() {
        if s[pos] == TAG_LIFETIME {
            match dec_bytes(s, pos + 1) {
                Some((name, p)) => Some((ParamModel::Lifetime { name }, p)),
                None => None,
            }
        } else if s[pos] == TAG_TYPE {
            match dec_bytes(s, pos + 1) {
                Some((name, p)) => match dec_str_list(s, p) {
                    Some((bounds, p2)) => Some((ParamModel::Type { name, bounds }, p2)),
                    None => None,
                },
                None => None,
            }
        } else if s[pos] == TAG_CONST {
            match dec_bytes(s, pos + 1) {
                Some((name, p)) => match dec_bytes(s, p) {
                    Some((ty, p2)) => match dec_opt(s, p2) {
                        Some((default, p3)) => Some((ParamModel::Const { name, ty, default }, p3)),
                        None => None,
                    },
                    None => None,
                },
                None => None,
            }
        } else {
            None
        }
    } else {
        None
    }
}

pub open spec fn dec_param_list_n(s: Seq<u8>, pos: int, n: nat) -> Option<(Seq<ParamModel>, int)>
    decreases n,
{
    if n == 0 {
        Some((Seq::empty(), pos))
    } else {
        match dec_param(s, pos) {
            Some((p0, p)) => match dec_param_list_n(s, p, (n - 1) as nat) {
                Some((ps, e)) => Some((seq![p0] + ps, e)),
                None => None,
            },
            None => None,
        }
    }
}

/// Full-buffer decoding of a serialized generic parameter list.
pub open spec fn dec_params(s: Seq<u8>) -> Option<Seq<ParamModel>> {
    match dec_u64(s, 0) {
        Some((n, p)) => match dec_param_list_n(s, p, n as nat) {
            Some((ps, e)) => if e == s.len() {
                Some(ps)
            } else {
                None
            },
            None => None,
        },
        None => None,
    }
}

/// Full-buffer decoding of a serialized predicate list.
pub open spec fn dec_preds(s: Seq<u8>) -> Option<Seq<Seq<u8>>> {
    match dec_str_list(s, 0) {
        Some((bs, e)) => if e == s.len() {
            Some(bs)
        } else {
            None
        },
        None => None,
    }
}

} // verus!

verus! {


// Decoding an encoding in place: each lemma says that a decoder, started at
// the position where the matching encoder's output sits, reads back exactly
// the encoded value, whatever bytes come before or after.

proof fn lemma_dec_u64_at(pre: Seq<u8>, n: u64, rest: Seq<u8>)
    ensures
        dec_u64(pre + le_bytes(n) + rest, pre.len() as int) == Some(
            (n as int, pre.len() as int + 8),
        ),
{
    broadcast use lemma_le_bytes_len;
    let s = pre + le_bytes(n) + rest;
    assert(s.subrange(pre.len() as int, pre.len() as int + 8) =~= le_bytes(n));
    lemma_le_round(n);
}

proof fn lemma_dec_bytes_at(pre: Seq<u8>, b: Seq<u8>, rest: Seq<u8>)
    requires
        bounded_str(b),
    ensures
        dec_bytes(pre + enc_bytes(b) + rest, pre.len() as int) == Some(
            (b, pre.len() as int + enc_bytes(b).len() as int),
        ),
{
    broadcast use lemma_le_bytes_len;
    let s = pre + enc_bytes(b) + rest;
    assert(s =~= pre + le_bytes(b.len() as u64) + (b + rest));
    lemma_dec_u64_at(pre, b.len() as u64, b + rest);
    assert(s.subrange(pre.len() as int + 8, pre.len() as int + 8 + b.len() as int) =~= b);
}

proof fn lemma_dec_opt_at(pre: Seq<u8>, d: Option<Seq<u8>>, rest: Seq<u8>)
    requires
        d matches Some(b) ==> bounded_str(b),
    ensures
        dec_opt(pre + enc_opt(d) + rest, pre.len() as int) == Some(
            (d, pre.len() as int + enc_opt(d).len() as int),
        ),
{
    broadcast use lemma_le_bytes_len;
    let s = pre + enc_opt(d) + rest;
    match d {
        None => {
            assert(s[pre.len() as int] == 0u8);
        },
        Some(b) => {
            assert(s[pre.len() as int] == 1u8);
            assert(s =~= (pre + seq![1u8]) + enc_bytes(b) + rest);
            lemma_dec_bytes_at(pre + seq![1u8], b, rest);
        },
    }
}

proof fn lemma_dec_str_list_n_at(pre: Seq<u8>, bs: Seq<Seq<u8>>, rest: Seq<u8>)
    requires
        forall|i: int| 0 <= i < bs.len() ==> bounded_str(#[trigger] bs[i]),
    ensures
        dec_str_list_n(pre + enc_str_cat(bs) + rest, pre.len() as int, bs.len()) == Some(
            (bs, pre.len() as int + enc_str_cat(bs).len() as int),
        ),
    decreases bs.len(),
{
    broadcast use lemma_le_bytes_len;
    let s = pre + enc_str_cat(bs) + rest;
    if bs.len() == 0 {
        assert(bs =~= Seq::<Seq<u8>>::empty());
        assert(s =~= pre + rest);
        assert(enc_str_cat(bs).len() == 0);
    } else {
        let b0 = bs[0];
        let tail = bs.skip(1);
        assert(enc_str_cat(bs) == enc_bytes(b0) + enc_str_cat(tail));
        assert(s =~= pre + enc_bytes(b0) + (enc_str_cat(tail) + rest));
        lemma_dec_bytes_at(pre, b0, enc_str_cat(tail) + rest);
        let pre2 = pre + enc_bytes(b0);
        assert(s =~= pre2 + enc_str_cat(tail) + rest);
        lemma_dec_str_list_n_at(pre2, tail, rest);
        assert(seq![b0] + tail =~= bs);
    }
}

proof fn lemma_dec_str_list_at(pre: Seq<u8>, bs: Seq<Seq<u8>>, rest: Seq<u8>)
    requires
        bounded_str_list(bs),
    ensures
        dec_str_list(pre + enc_str_list(bs) + rest, pre.len() as int) == Some(
            (bs, pre.len() as int + enc_str_list(bs).len() as int),
        ),
{
    broadcast use lemma_le_bytes_len;
    let s = pre + enc_str_list(bs) + rest;
    assert(s =~= pre + le_bytes(bs.len() as u64) + (enc_str_cat(bs) + rest));
    lemma_dec_u64_at(pre, bs.len() as u64, enc_str_cat(bs) + rest);
    let pre2 = pre + le_bytes(bs.len() as u64);
    assert(s =~= pre2 + enc_str_cat(bs) + rest);
    lemma_dec_str_list_n_at(pre2, bs, rest);
}

#[verifier::rlimit(60)]
proof fn lemma_dec_param_at(pre: Seq<u8>, p: ParamModel, rest: Seq<u8>)
    requires
        bounded_param(p),
    ensures
        dec_param(pre + enc_param(p) + rest, pre.len() as int) == Some(
            (p, pre.len() as int + enc_param(p).len() as int),
        ),
{
    broadcast use lemma_le_bytes_len;
    let s = pre + enc_param(p) + rest;
    match p {
        ParamModel::Lifetime { name } => {
            assert(s[pre.len() as int] == TAG_LIFETIME);
            assert(s =~= (pre + seq![TAG_LIFETIME]) + enc_bytes(name) + rest);
            lemma_dec_bytes_at(pre + seq![TAG_LIFETIME], name, rest);
        },
        ParamModel::Type { name, bounds } => {
            assert(s[pre.len() as int] == TAG_TYPE);
            let pre2 = pre + seq![TAG_TYPE];
            assert(s =~= pre2 + enc_bytes(name) + (enc_str_list(bounds) + rest));
            lemma_dec_bytes_at(pre2, name, enc_str_list(bounds) + rest);
            let pre3 = pre2 + enc_bytes(name);
            assert(s =~= pre3 + enc_str_list(bounds) + rest);
            lemma_dec_str_list_at(pre3, bounds, rest);
        },
        ParamModel::Const { name, ty, default } => {
            assert(s[pre.len() as int] == TAG_CONST);
            let pre2 = pre + seq![TAG_CONST];
            assert(s =~= pre2 + enc_bytes(name) + (enc_bytes(ty) + (enc_opt(default) + rest)));
            lemma_dec_bytes_at(pre2, name, enc_bytes(ty) + (enc_opt(default) + rest));
            let pre3 = pre2 + enc_bytes(name);
            assert(s =~= pre3 + enc_bytes(ty) + (enc_opt(default) + rest));
            lemma_dec_bytes_at(pre3, ty, enc_opt(default) + rest);
            let pre4 = pre3 + enc_bytes(ty);
            assert(s =~= pre4 + enc_opt(default) + rest);
            lemma_dec_opt_at(pre4, default, rest);
        },
    }
}

#[verifier::rlimit(60)]
proof fn lemma_dec_param_list_n_at(pre: Seq<u8>, ps: Seq<ParamModel>, rest: Seq<u8>)
    requires
        forall|i: int| 0 <= i < ps.len() ==> bounded_param(#[trigger] ps[i]),
    ensures
        dec_param_list_n(pre + enc_param_cat(ps) + rest, pre.len() as int, ps.len()) == Some(
            (ps, pre.len() as int + enc_param_cat(ps).len() as int),
        ),
    decreases ps.len(),
{
    broadcast use lemma_le_bytes_len;
    let s = pre + enc_param_cat(ps) + rest;
    if ps.len() == 0 {
        assert(ps =~= Seq::<ParamModel>::empty());
        assert(s =~= pre + rest);
        assert(enc_param_cat(ps).len() == 0);
    } else {
        let p0 = ps[0];
        let tail = ps.skip(1);
        assert(enc_param_cat(ps) == enc_param(p0) + enc_param_cat(tail));
        assert(s =~= pre + enc_param(p0) + (enc_param_cat(tail) + rest));
        lemma_dec_param_at(pre, p0, enc_param_cat(tail) + rest);
        let pre2 = pre + enc_param(p0);
        assert(s =~= pre2 + enc_param_cat(tail) + rest);
        lemma_dec_param_list_n_at(pre2, tail, rest);
        assert(seq![p0] + tail =~= ps);
    }
}

/// The serialization round trip for a generic parameter list: re-parsing the
/// canonical serialized form of any parameter list whose pieces fit the
/// length prefix yields the structurally identical list.
pub proof fn lemma_params_round_trip(ps: Seq<ParamModel>)
    requires
        bounded_params(ps),
    ensures
        dec_params(enc_params(ps)) == Some(ps),
{
    broadcast use lemma_le_bytes_len;
    let s = enc_params(ps);
    let empty = Seq::<u8>::empty();
    assert(s =~= empty + le_bytes(ps.len() as u64) + enc_param_cat(ps));
    lemma_dec_u64_at(empty, ps.len() as u64, enc_param_cat(ps));
    let pre2 = empty + le_bytes(ps.len() as u64);
    assert(s =~= pre2 + enc_param_cat(ps) + empty);
    lemma_dec_param_list_n_at(pre2, ps, empty);
    assert(pre2.len() + enc_param_cat(ps).len() == s.len());
}

/// The serialization round trip for a where-clause predicate list.
pub proof fn lemma_preds_round_trip(bs: Seq<Seq<u8>>)
    requires
        bounded_str_list(bs),
    ensures
        dec_preds(enc_str_list(bs)) == Some(bs),
{
    broadcast use lemma_le_bytes_len;
    let s = enc_str_list(bs);
    let empty = Seq::<u8>::empty();
    assert(s =~= empty + enc_str_list(bs) + empty);
    lemma_dec_str_list_at(empty, bs, empty);
}

} // verus!

verus! {

proof fn lemma_enc_str_cat_snoc(bs: Seq<Seq<u8>>, x: Seq<u8>)
    ensures
        enc_str_cat(bs.push(x)) == enc_str_cat(bs) + enc_bytes(x),
    decreases bs.len(),
{
    broadcast use lemma_le_bytes_len;

    if bs.len() == 0 {
        assert(bs.push(x)[0] == x);
        assert(bs.push(x).skip(1) =~= Seq::<Seq<u8>>::empty());
        assert(enc_str_cat(Seq::<Seq<u8>>::empty()) == Seq::<u8>::empty());
        assert(enc_str_cat(bs.push(x)) == enc_bytes(x) + Seq::<u8>::empty());
        assert(enc_bytes(x) + Seq::<u8>::empty() =~= enc_str_cat(bs) + enc_bytes(x));
    } else {
        assert(bs.push(x)[0] == bs[0]);
        assert(bs.push(x).skip(1) =~= bs.skip(1).push(x));
        lemma_enc_str_cat_snoc(bs.skip(1), x);
        assert(enc_str_cat(bs.push(x)) == enc_bytes(bs[0]) + enc_str_cat(bs.skip(1).push(x)));
        assert(enc_str_cat(bs) == enc_bytes(bs[0]) + enc_str_cat(bs.skip(1)));
        assert(enc_bytes(bs[0]) + (enc_str_cat(bs.skip(1)) + enc_bytes(x)) =~= (enc_bytes(bs[0])
            + enc_str_cat(bs.skip(1))) + enc_bytes(x));
    }
}

proof fn lemma_enc_param_cat_snoc(ps: Seq<ParamModel>, x: ParamModel)
    ensures
        enc_param_cat(ps.push(x)) == enc_param_cat(ps) + enc_param(x),
    decreases ps.len(),
{
    broadcast use lemma_le_bytes_len;

    if ps.len() == 0 {
        assert(ps.push(x)[0] == x);
        assert(ps.push(x).skip(1) =~= Seq::<ParamModel>::empty());
        assert(enc_param_cat(Seq::<ParamModel>::empty()) == Seq::<u8>::empty());
        assert(enc_param_cat(ps.push(x)) == enc_param(x) + Seq::<u8>::empty());
        assert(enc_param(x) + Seq::<u8>::empty() =~= enc_param_cat(ps) + enc_param(x));
    } else {
        assert(ps.push(x)[0] == ps[0]);
        assert(ps.push(x).skip(1) =~= ps.skip(1).push(x));
        lemma_enc_param_cat_snoc(ps.skip(1), x);
        assert(enc_param_cat(ps.push(x)) == enc_param(ps[0]) + enc_param_cat(ps.skip(1).push(x)));
        assert(enc_param_cat(ps) == enc_param(ps[0]) + enc_param_cat(ps.skip(1)));
        assert(enc_param(ps[0]) + (enc_param_cat(ps.skip(1)) + enc_param(x)) =~= (enc_param(ps[0])
            + enc_param_cat(ps.skip(1))) + enc_param(x));
    }
}

/// Appends the length-prefixed encoding of `b` to `out`.
fn encode_bytes_into(out: &mut Vec<u8>, b: &Vec<u8>)
    ensures
        final(out)@ == old(out)@ + enc_bytes(b@),
{
    encode_u64_into(out, b.len() as u64);
    let ghost mid = out@;
    let mut i: usize = 0;
    while i < b.len()
        invariant
            0 <= i <= b@.len(),
            out@ == mid + b@.subrange(0, i as int),
        decreases b@.len() - i,
    {
        out.push(b[i]);
        assert(out@ =~= mid + b@.subrange(0, i + 1));
        i += 1;
    }
    assert(b@.subrange(0, b@.len() as int) =~= b@);
    assert(out@ =~= old(out)@ + enc_bytes(b@));
}

/// Appends the count-prefixed encoding of a list of byte strings to `out`.
fn encode_str_list_into(out: &mut Vec<u8>, bs: &Vec<Vec<u8>>)
    ensures
        final(out)@ == old(out)@ + enc_str_list(bs.deep_view()),
{
    encode_u64_into(out, bs.len() as u64);
    let ghost mid = out@;
    let ghost model = bs.deep_view();
    let mut i: usize = 0;
    while i < bs.len()
        invariant
            0 <= i <= bs@.len(),
            model == bs.deep_view(),
            model.len() == bs@.len(),
            out@ == mid + enc_str_cat(model.take(i as int)),
        decreases bs@.len() - i,
    {
        encode_bytes_into(out, &bs[i]);
        proof {
            assert(model[i as int] == bs@[i as int]@);
            assert(model.take(i + 1) =~= model.take(i as int).push(model[i as int]));
            lemma_enc_str_cat_snoc(model.take(i as int), model[i as int]);
            assert(out@ =~= mid + enc_str_cat(model.take(i + 1)));
        }
        i += 1;
    }
    proof {
        assert(model.take(model.len() as int) =~= model);
        assert(out@ =~= old(out)@ + enc_str_list(model));
    }
}

/// Appends the encoding of one generic parameter to `out`.
fn encode_param_into(out: &mut Vec<u8>, p: &GenericParam)
    ensures
        final(out)@ == old(out)@ + enc_param(p@),
{
    match p {
        GenericParam::Lifetime { name } => {
            out.push(TAG_LIFETIME);
            encode_bytes_into(out, name);
            assert(out@ =~= old(out)@ + enc_param(p@));
        },
        GenericParam::Type { name, bounds } => {
            out.push(TAG_TYPE);
            encode_bytes_into(out, name);
            encode_str_list_into(out, bounds);
            assert(out@ =~= old(out)@ + enc_param(p@));
        },
        GenericParam::Const { name, ty, default } => {
            out.push(TAG_CONST);
            encode_bytes_into(out, name);
            encode_bytes_into(out, ty);
            match default {
                None => {
                    out.push(0u8);
                },
                Some(d) => {
                    out.push(1u8);
                    encode_bytes_into(out, d);
                },
            }
            assert(out@ =~= old(out)@ + enc_param(p@));
        },
    }
}

/// Serializes a generic parameter list to its canonical form.
pub fn encode_params(ps: &Vec<GenericParam>) -> (r: Vec<u8>)
    ensures
        r@ == enc_params(ps.deep_view()),
{
    let mut out: Vec<u8> = Vec::new();
    encode_u64_into(&mut out, ps.len() as u64);
    let ghost mid = out@;
    let ghost model = ps.deep_view();
    let mut i: usize = 0;
    while i < ps.len()
        invariant
            0 <= i <= ps@.len(),
            model == ps.deep_view(),
            model.len() == ps@.len(),
            out@ == mid + enc_param_cat(model.take(i as int)),
        decreases ps@.len() - i,
    {
        encode_param_into(&mut out, &ps[i]);
        proof {
            assert(model[i as int] == ps@[i as int]@);
            assert(model.take(i + 1) =~= model.take(i as int).push(model[i as int]));
            lemma_enc_param_cat_snoc(model.take(i as int), model[i as int]);
            assert(out@ =~= mid + enc_param_cat(model.take(i + 1)));
        }
        i += 1;
    }
    proof {
        assert(model.take(model.len() as int) =~= model);
        assert(out@ =~= enc_params(model));
    }
    out
}

/// Serializes a where-clause predicate list to its canonical form.
pub fn encode_preds(bs: &Vec<Vec<u8>>) -> (r: Vec<u8>)
    ensures
        r@ == enc_str_list(bs.deep_view()),
{
    let mut out: Vec<u8> = Vec::new();
    encode_str_list_into(&mut out, bs);
    assert(out@ =~= enc_str_list(bs.deep_view()));
    out
}

} // verus!

verus! {

proof fn lemma_dec_str_list_n_len(s: Seq<u8>, pos: int, n: nat)
    ensures
        dec_str_list_n(s, pos, n) matches Some((bs, e)) ==> bs.len() == n,
    decreases n,
{
    if n > 0 {
        match dec_bytes(s, pos) {
            Some((b, p)) => {
                lemma_dec_str_list_n_len(s, p, (n - 1) as nat);
            },
            None => {},
        }
    }
}

proof fn lemma_dec_param_list_n_len(s: Seq<u8>, pos: int, n: nat)
    ensures
        dec_param_list_n(s, pos, n) matches Some((ps, e)) ==> ps.len() == n,
    decreases n,
{
    if n > 0 {
        match dec_param(s, pos) {
            Some((p0, p)) => {
                lemma_dec_param_list_n_len(s, p, (n - 1) as nat);
            },
            None => {},
        }
    }
}

/// Reads a length-prefixed byte string starting at `pos`.
fn decode_bytes(buf: &Vec<u8>, pos: usize) -> (r: Option<(Vec<u8>, usize)>)
    ensures
        match dec_bytes(buf@, pos as int) {
            Some((b, p)) => r matches Some((rb, rp)) && rb@ == b && rp == p,
            None => r is None,
        },
{
    match decode_u64(buf, pos) {
        None => None,
        Some((n, p)) => {
            let remaining: u64 = (buf.len() - p) as u64;
            if n > remaining {
                None
            } else {
                let len: usize = n as usize;
                let mut v: Vec<u8> = Vec::new();
                let mut i: usize = 0;
                while i < len
                    invariant
                        0 <= i <= len,
                        p + len <= buf@.len(),
                        buf@.len() <= usize::MAX,
                        v@ == buf@.subrange(p as int, p + i),
                    decreases len - i,
                {
                    v.push(buf[p + i]);
                    assert(v@ =~= buf@.subrange(p as int, p + i + 1));
                    i += 1;
                }
                Some((v, p + len))
            }
        },
    }
}

/// Reads a count-prefixed list of byte strings starting at `pos`.
fn decode_str_list(buf: &Vec<u8>, pos: usize) -> (r: Option<(Vec<Vec<u8>>, usize)>)
    ensures
        match dec_str_list(buf@, pos as int) {
            Some((bs, p)) => r matches Some((rb, rp)) && rb.deep_view() == bs && rp == p,
            None => r is None,
        },
{
    match decode_u64(buf, pos) {
        None => None,
        Some((n, p0)) => {
            let ghost whole = dec_str_list_n(buf@, p0 as int, n as nat);
            proof {
                lemma_dec_str_list_n_len(buf@, p0 as int, n as nat);
            }
            let mut out: Vec<Vec<u8>> = Vec::new();
            let mut cur: usize = p0;
            let mut i: u64 = 0;
            while i < n
                invariant
                    0 <= i <= n,
                    whole == dec_str_list_n(buf@, p0 as int, n as nat),
                    dec_str_list(buf@, pos as int) == whole,
                    match whole {
                        Some((bs, e)) => {
                            &&& bs.len() == n
                            &&& out.deep_view() == bs.take(i as int)
                            &&& dec_str_list_n(buf@, cur as int, (n - i) as nat) == Some(
                                (bs.skip(i as int), e),
                            )
                        },
                        None => dec_str_list_n(buf@, cur as int, (n - i) as nat) is None,
                    },
                decreases n - i,
            {
                match decode_bytes(buf, cur) {
                    None => {
                        proof {
                            if whole is Some {
                                assert(dec_str_list_n(buf@, cur as int, (n - i) as nat) is Some);
                                assert(dec_bytes(buf@, cur as int) is Some);
                            }
                        }
                        return None;
                    },
                    Some((b, p2)) => {
                        proof {
                            let m = (n - i) as nat;
                            assert(m > 0);
                            let db = dec_bytes(buf@, cur as int);
                            assert(db matches Some((sb, sp)) && sb == b@ && sp == p2 as int);
                            match whole {
                                Some((bs, e)) => {
                                    let tail_res = dec_str_list_n(buf@, p2 as int, (m - 1) as nat);
                                    assert(dec_str_list_n(buf@, cur as int, m) matches Some(
                                        (got, ge),
                                    ) && got == bs.skip(i as int) && ge == e);
                                    assert(tail_res matches Some((bs2, e2)) && seq![b@] + bs2
                                        == bs.skip(i as int) && e2 == e);
                                    let bs2 = tail_res->Some_0.0;
                                    assert((seq![b@] + bs2)[0] == b@);
                                    assert(bs.skip(i as int)[0] == bs[i as int]);
                                    assert(b@ == bs[i as int]);
                                    assert((seq![b@] + bs2).skip(1) =~= bs2);
                                    assert(bs.skip(i as int).skip(1) =~= bs.skip(i + 1));
                                    assert(bs2 == bs.skip(i + 1));
                                    assert(out.deep_view().push(b@) =~= bs.take(i + 1));
                                },
                                None => {
                                    assert(dec_str_list_n(buf@, p2 as int, (m - 1) as nat)
                                        is None);
                                },
                            }
                        }
                        proof {
                            assert(b.deep_view() =~= b@);
                        }
                        out.push(b);
                        proof {
                            if whole is Some {
                                let bs = whole->Some_0.0;
                                assert(out@.len() == i + 1);
                                assert(out.deep_view().len() == i + 1);
                                assert forall|j: int| 0 <= j < i + 1 implies out.deep_view()[j]
                                    == bs.take(i + 1)[j] by {
                                    if j < i {
                                        assert(out.deep_view()[j] == out@[j].deep_view());
                                    } else {
                                        assert(out@[j] == b);
                                    }
                                }
                                assert(out.deep_view() =~= bs.take(i + 1));
                            }
                        }
                        cur = p2;
                        i += 1;
                    },
                }
            }
            proof {
                match whole {
                    Some((bs, e)) => {
                        assert(bs.take(i as int) =~= bs);
                        assert(dec_str_list_n(buf@, cur as int, 0) == Some(
                            (Seq::<Seq<u8>>::empty(), cur as int),
                        ));
                        assert(bs.skip(i as int) =~= Seq::<Seq<u8>>::empty());
                    },
                    None => {
                        assert(dec_str_list_n(buf@, cur as int, 0) is Some);
                    },
                }
            }
            Some((out, cur))
        },
    }
}

} // verus!

verus! {

pub open spec fn opt_bytes_view(o: Option<Vec<u8>>) -> Option<Seq<u8>> {
    match o {
        Some(v) => Some(v@),
        None => None,
    }
}

/// Reads an optional byte string: a presence byte, then the string if present.
fn decode_opt(buf: &Vec<u8>, pos: usize) -> (r: Option<(Option<Vec<u8>>, usize)>)
    ensures
        match dec_opt(buf@, pos as int) {
            Some((d, p)) => r matches Some((rd, rp)) && opt_bytes_view(rd) == d && rp == p,
            None => r is None,
        },
{
    if pos >= buf.len() {
        return None;
    }
    let tag = buf[pos];
    if tag == 0 {
        Some((None, pos + 1))
    } else if tag == 1 {
        match decode_bytes(buf, pos + 1) {
            Some((b, p)) => Some((Some(b), p)),
            None => None,
        }
    } else {
        None
    }
}

/// Reads one generic parameter: a kind tag, then its fields.
fn decode_param(buf: &Vec<u8>, pos: usize) -> (r: Option<(GenericParam, usize)>)
    ensures
        match dec_param(buf@, pos as int) {
            Some((pm, p)) => r matches Some((rp_, rpos)) && rp_@ == pm && rpos == p,
            None => r is None,
        },
{
    if pos >= buf.len() {
        return None;
    }
    let tag = buf[pos];
    if tag == TAG_LIFETIME {
        match decode_bytes(buf, pos + 1) {
            Some((name, p)) => Some((GenericParam::Lifetime { name }, p)),
            None => None,
        }
    } else if tag == TAG_TYPE {
        match decode_bytes(buf, pos + 1) {
            Some((name, p)) => match decode_str_list(buf, p) {
                Some((bounds, p2)) => Some((GenericParam::Type { name, bounds }, p2)),
                None => None,
            },
            None => None,
        }
    } else if tag == TAG_CONST {
        match decode_bytes(buf, pos + 1) {
            Some((name, p)) => match decode_bytes(buf, p) {
                Some((ty, p2)) => match decode_opt(buf, p2) {
                    Some((default, p3)) => Some((GenericParam::Const { name, ty, default }, p3)),
                    None => None,
                },
                None => None,
            },
            None => None,
        }
    } else {
        None
    }
}

/// Re-parses the canonical serialized form of a generic parameter list.
/// Succeeds exactly on buffers that are such a serialization, and then
/// yields the parameter list the buffer encodes.
pub fn decode_params(buf: &Vec<u8>) -> (r: Option<Vec<GenericParam>>)
    ensures
        match dec_params(buf@) {
            Some(ps) => r matches Some(v) && v.deep_view() == ps,
            None => r is None,
        },
{
    match decode_u64(buf, 0) {
        None => None,
        Some((n, p0)) => {
            let ghost whole = dec_param_list_n(buf@, p0 as int, n as nat);
            proof {
                lemma_dec_param_list_n_len(buf@, p0 as int, n as nat);
            }
            let mut out: Vec<GenericParam> = Vec::new();
            let mut cur: usize = p0;
            let mut i: u64 = 0;
            while i < n
                invariant
                    0 <= i <= n,
                    whole == dec_param_list_n(buf@, p0 as int, n as nat),
                    dec_u64(buf@, 0) == Some((n as int, p0 as int)),
                    match whole {
                        Some((ps, e)) => {
                            &&& ps.len() == n
                            &&& out.deep_view() == ps.take(i as int)
                            &&& dec_param_list_n(buf@, cur as int, (n - i) as nat) == Some(
                                (ps.skip(i as int), e),
                            )
                        },
                        None => dec_param_list_n(buf@, cur as int, (n - i) as nat) is None,
                    },
                decreases n - i,
            {
                match decode_param(buf, cur) {
                    None => {
                        proof {
                            if whole is Some {
                                assert(dec_param_list_n(buf@, cur as int, (n - i) as nat)
                                    is Some);
                                assert(dec_param(buf@, cur as int) is Some);
                            }
                        }
                        return None;
                    },
                    Some((pv, p2)) => {
                        proof {
                            let m = (n - i) as nat;
                            assert(m > 0);
                            let dp = dec_param(buf@, cur as int);
                            assert(dp matches Some((sp, spos)) && sp == pv@ && spos == p2 as int);
                            match whole {
                                Some((ps, e)) => {
                                    let tail_res = dec_param_list_n(
                                        buf@,
                                        p2 as int,
                                        (m - 1) as nat,
                                    );
                                    assert(dec_param_list_n(buf@, cur as int, m) matches Some(
                                        (got, ge),
                                    ) && got == ps.skip(i as int) && ge == e);
                                    assert(tail_res matches Some((ps2, e2)) && seq![pv@] + ps2
                                        == ps.skip(i as int) && e2 == e);
                                    let ps2 = tail_res->Some_0.0;
                                    assert((seq![pv@] + ps2)[0] == pv@);
                                    assert(ps.skip(i as int)[0] == ps[i as int]);
                                    assert(pv@ == ps[i as int]);
                                    assert((seq![pv@] + ps2).skip(1) =~= ps2);
                                    assert(ps.skip(i as int).skip(1) =~= ps.skip(i + 1));
                                    assert(ps2 == ps.skip(i + 1));
                                },
                                None => {
                                    assert(dec_param_list_n(buf@, p2 as int, (m - 1) as nat)
                                        is None);
                                },
                            }
                        }
                        out.push(pv);
                        proof {
                            if whole is Some {
                                let ps = whole->Some_0.0;
                                assert(out@.len() == i + 1);
                                assert forall|j: int| 0 <= j < i + 1 implies out.deep_view()[j]
                                    == ps.take(i + 1)[j] by {
                                    if j < i {
                                        assert(out.deep_view()[j] == out@[j].deep_view());
                                    } else {
                                        assert(out@[j] == pv);
                                    }
                                }
                                assert(out.deep_view() =~= ps.take(i + 1));
                            }
                        }
                        cur = p2;
                        i += 1;
                    },
                }
            }
            proof {
                match whole {
                    Some((ps, e)) => {
                        assert(ps.take(i as int) =~= ps);
                        assert(dec_param_list_n(buf@, cur as int, 0) == Some(
                            (Seq::<ParamModel>::empty(), cur as int),
                        ));
                        assert(ps.skip(i as int) =~= Seq::<ParamModel>::empty());
                    },
                    None => {
                        assert(dec_param_list_n(buf@, cur as int, 0) is Some);
                    },
                }
            }
            if cur == buf.len() {
                Some(out)
            } else {
                None
            }
        },
    }
}

/// Re-parses the canonical serialized form of a where-clause predicate list.
pub fn decode_preds(buf: &Vec<u8>) -> (r: Option<Vec<Vec<u8>>>)
    ensures
        match dec_preds(buf@) {
            Some(bs) => r matches Some(v) && v.deep_view() == bs,
            None => r is None,
        },
{
    match decode_str_list(buf, 0) {
        None => None,
        Some((bs, end)) => {
            if end == buf.len() {
                Some(bs)
            } else {
                None
            }
        },
    }
}

} // verus!

verus! {

/// Every vector's contents fit the length prefixes of the canonical form.
pub proof fn lemma_vec_strs_bounded(v: Vec<Vec<u8>>)
    ensures
        bounded_str_list(v.deep_view()),
{
    assert(v.deep_view().len() == v@.len());
    assert(v@.len() == v.len());
    assert forall|i: int| 0 <= i < v.deep_view().len() implies bounded_str(
        #[trigger] v.deep_view()[i],
    ) by {
        let b = v@[i];
        assert(v.deep_view()[i] == b@);
        assert(b@.len() == b.len());
    }
}

pub proof fn lemma_vec_params_bounded(v: Vec<GenericParam>)
    ensures
        bounded_params(v.deep_view()),
{
    assert(v.deep_view().len() == v@.len());
    assert(v@.len() == v.len());
    assert forall|i: int| 0 <= i < v.deep_view().len() implies bounded_param(
        #[trigger] v.deep_view()[i],
    ) by {
        let p = v@[i];
        assert(v.deep_view()[i] == p@);
        match p {
            GenericParam::Lifetime { name } => {
                assert(name@.len() == name.len());
            },
            GenericParam::Type { name, bounds } => {
                assert(name@.len() == name.len());
                lemma_vec_strs_bounded(bounds);
            },
            GenericParam::Const { name, ty, default } => {
                assert(name@.len() == name.len());
                assert(ty@.len() == ty.len());
                match default {
                    Some(d) => {
                        assert(d@.len() == d.len());
                    },
                    None => {},
                }
            },
        }
    }
}

} // verus!
