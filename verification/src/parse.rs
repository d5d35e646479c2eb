use vstd::prelude::*;
use crate::ast::{BoundDecl, BoundSetModel, DeclModel, Error, GenericParam, ParamModel};
use crate::ast::lemma_deep_view_push;
use crate::{wf_name, is_ident_byte, is_ident_byte_start};
use crate::{LOWER_A, LOWER_Z, UPPER_A, UPPER_Z, DIGIT_0, DIGIT_9, UNDERSCORE};

verus! {

// ASCII codes of the declaration grammar's structural characters.
pub const B_LT: u8 = 60;
pub const B_GT: u8 = 62;
pub const B_COMMA: u8 = 44;
pub const B_COLON: u8 = 58;
pub const B_PLUS: u8 = 43;
pub const B_SEMI: u8 = 59;
pub const B_QUOTE: u8 = 39;
pub const B_EQ: u8 = 61;
pub const B_MINUS: u8 = 45;
pub const B_LPAREN: u8 = 40;
pub const B_RPAREN: u8 = 41;
pub const B_LBRACK: u8 = 91;
pub const B_RBRACK: u8 = 93;
pub const B_SPACE: u8 = 32;
pub const B_TAB: u8 = 9;
pub const B_NL: u8 = 10;
pub const B_CR: u8 = 13;

pub open spec fn is_ws(b: u8) -> bool {
    b == B_SPACE || b == B_TAB || b == B_NL || b == B_CR
}

fn ident_byte(b: u8) -> (r: bool)
    ensures
        r == is_ident_byte(b),
{
    (LOWER_A <= b && b <= LOWER_Z) || (UPPER_A <= b && b <= UPPER_Z) || b == UNDERSCORE || (DIGIT_0
        <= b && b <= DIGIT_9)
}

fn ws_byte(b: u8) -> (r: bool)
    ensures
        r == is_ws(b),
{
    b == B_SPACE || b == B_TAB || b == B_NL || b == B_CR
}

/// Position of the first non-whitespace byte at or after `pos`.
fn skip_ws(buf: &Vec<u8>, pos: usize) -> (r: usize)
    requires
        pos <= buf@.len(),
    ensures
        pos <= r <= buf@.len(),
        r == ws_end(buf@, pos as int),
        forall|k: int| pos <= k < r ==> is_ws(#[trigger] buf@[k]),
        r == buf@.len() || !is_ws(buf@[r as int]),
{
    let mut p = pos;
    while p < buf.len() && ws_byte(buf[p])
        invariant
            pos <= p <= buf@.len(),
            ws_end(buf@, pos as int) == ws_end(buf@, p as int),
            forall|k: int| pos <= k < p ==> is_ws(#[trigger] buf@[k]),
        decreases buf@.len() - p,
    {
        p += 1;
    }
    p
}

/// Reads one identifier starting exactly at `pos`: the longest run of
/// identifier bytes, which must open with a letter or underscore.
fn parse_ident(buf: &Vec<u8>, pos: usize) -> (r: Option<(Vec<u8>, usize)>)
    requires
        pos <= buf@.len(),
    ensures
        r is None <==> ident_at(buf@, pos as int) is None,
        r matches Some((id, p)) ==> {
            &&& ident_at(buf@, pos as int) == Some((id@, p as int))
            &&& pos < p <= buf@.len()
            &&& id@ == buf@.subrange(pos as int, p as int)
            &&& wf_name(id@)
            &&& (p == buf@.len() || !is_ident_byte(buf@[p as int]))
        },
{
    if pos >= buf.len() {
        return None;
    }
    let b0 = buf[pos];
    if !((LOWER_A <= b0 && b0 <= LOWER_Z) || (UPPER_A <= b0 && b0 <= UPPER_Z) || b0 == UNDERSCORE) {
        return None;
    }
    let mut id: Vec<u8> = Vec::new();
    id.push(b0);
    proof {
        assert(id@ =~= buf@.subrange(pos as int, pos + 1));
    }
    let mut p = pos + 1;
    while p < buf.len() && ident_byte(buf[p])
        invariant
            pos < p <= buf@.len(),
            ident_end(buf@, pos + 1) == ident_end(buf@, p as int),
            id@ == buf@.subrange(pos as int, p as int),
            wf_name(id@),
        decreases buf@.len() - p,
    {
        id.push(buf[p]);
        proof {
            assert(id@ =~= buf@.subrange(pos as int, p + 1));
        }
        p += 1;
    }
    proof {
        assert(ident_end(buf@, pos + 1) == p);
    }
    Some((id, p))
}

pub open spec fn const_kw() -> Seq<u8> {
    seq![99u8, 111u8, 110u8, 115u8, 116u8]
}

pub open spec fn where_kw() -> Seq<u8> {
    seq![119u8, 104u8, 101u8, 114u8, 101u8]
}

fn is_const_kw(v: &Vec<u8>) -> (r: bool)
    ensures
        r == (v@ == const_kw()),
{
    let r = v.len() == 5 && v[0] == 99 && v[1] == 111 && v[2] == 110 && v[3] == 115 && v[4] == 116;
    proof {
        if r {
            assert(v@ =~= const_kw());
        }
    }
    r
}

fn is_where_kw(v: &Vec<u8>) -> (r: bool)
    ensures
        r == (v@ == where_kw()),
{
    let r = v.len() == 5 && v[0] == 119 && v[1] == 104 && v[2] == 101 && v[3] == 114 && v[4]
        == 101;
    proof {
        if r {
            assert(v@ =~= where_kw());
        }
    }
    r
}

/// Scans one opaque expression starting at `pos`: bytes up to the first
/// comma, closing angle bracket, or requested extra stop character that
/// stands outside every `<>`, `()`, `[]` nesting; a `>` right after a `-`
/// is part of an arrow, never a closer. The text comes back with trailing
/// whitespace trimmed; the returned position sits on the stop character
/// (or at the end of input).
fn scan_opaque(buf: &Vec<u8>, pos: usize, stop_plus: bool, stop_eq: bool, stop_semi: bool) -> (r: (
    Vec<u8>,
    usize,
))
    requires
        pos <= buf@.len(),
    ensures
        pos <= r.1 <= buf@.len(),
        (r.0@, r.1 as int) == scan_at(buf@, pos as int, stop_plus, stop_eq, stop_semi),
{
    let mut p = pos;
    let mut depth: usize = 0;
    while p < buf.len()
        invariant_except_break
            pos <= p <= buf@.len(),
            scan_end(buf@, pos as int, pos as int, 0, stop_plus, stop_eq, stop_semi) == scan_end(
                buf@,
                pos as int,
                p as int,
                depth as int,
                stop_plus,
                stop_eq,
                stop_semi,
            ),
        ensures
            pos <= p <= buf@.len(),
            scan_end(buf@, pos as int, pos as int, 0, stop_plus, stop_eq, stop_semi) == p,
        decreases buf@.len() - p,
    {
        let b = buf[p];
        if depth == 0 && (b == B_COMMA || (stop_plus && b == B_PLUS) || (stop_eq && b == B_EQ) || (
        stop_semi && b == B_SEMI)) {
            break ;
        }
        if b == B_GT && p > pos && buf[p - 1] == B_MINUS {
            // an arrow's head, not a closing bracket
            p += 1;
            continue ;
        }
        if depth == 0 && b == B_GT {
            break ;
        }
        if b == B_LT || b == B_LPAREN || b == B_LBRACK {
            if depth < usize::MAX {
                depth += 1;
            }
        } else if b == B_GT || b == B_RPAREN || b == B_RBRACK {
            if depth > 0 {
                depth -= 1;
            }
        }
        p += 1;
    }
    // trim trailing whitespace from the captured segment
    let mut end = p;
    while end > pos && ws_byte(buf[end - 1])
        invariant
            pos <= end <= p <= buf@.len(),
            trim_ws(buf@, pos as int, p as int) == trim_ws(buf@, pos as int, end as int),
        decreases end,
    {
        end -= 1;
    }
    proof {
        assert(trim_ws(buf@, pos as int, end as int) == end);
    }
    let mut text: Vec<u8> = Vec::new();
    let mut i = pos;
    while i < end
        invariant
            pos <= i <= end <= p <= buf@.len(),
            text@ == buf@.subrange(pos as int, i as int),
        decreases end - i,
    {
        text.push(buf[i]);
        proof {
            assert(text@ =~= buf@.subrange(pos as int, i + 1));
        }
        i += 1;
    }
    proof {
        assert(text@ =~= buf@.subrange(pos as int, end as int));
    }
    (text, p)
}

/// Parses one generic parameter starting exactly at `pos` (not at
/// whitespace): a lifetime `'a`, a const parameter
/// `const N: usize [= default]`, or a type parameter `T[: bounds]`.
/// Does not consume the `,` or `>` that follows it.
fn parse_param(buf: &Vec<u8>, pos: usize) -> (r: Result<(GenericParam, usize), Error>)
    requires
        pos <= buf@.len(),
    ensures
        r matches Ok((prm, p)) ==> param_at(buf@, pos as int) == Some((prm@, p as int)) && pos < p
            <= buf@.len(),
        r matches Err(e) ==> param_at(buf@, pos as int) is None && e matches Error::Syntax { .. },
{
    if pos >= buf.len() {
        return Err(Error::Syntax { pos });
    }
    if buf[pos] == B_QUOTE {
        match parse_ident(buf, pos + 1) {
            Some((name, p)) => Ok((GenericParam::Lifetime { name }, p)),
            None => Err(Error::Syntax { pos }),
        }
    } else {
        let (id, p) = match parse_ident(buf, pos) {
            Some(x) => x,
            None => {
                return Err(Error::Syntax { pos });
            },
        };
        if is_const_kw(&id) {
            let p = skip_ws(buf, p);
            let (name, p) = match parse_ident(buf, p) {
                Some(x) => x,
                None => {
                    return Err(Error::Syntax { pos: p });
                },
            };
            let p = skip_ws(buf, p);
            if p >= buf.len() || buf[p] != B_COLON {
                return Err(Error::Syntax { pos: p });
            }
            let p = skip_ws(buf, p + 1);
            let (ty, p2) = scan_opaque(buf, p, false, true, false);
            if ty.len() == 0 {
                return Err(Error::Syntax { pos: p });
            }
            if p2 < buf.len() && buf[p2] == B_EQ {
                let p3 = skip_ws(buf, p2 + 1);
                let (dflt, p4) = scan_opaque(buf, p3, false, false, false);
                if dflt.len() == 0 {
                    return Err(Error::Syntax { pos: p3 });
                }
                if p4 <= pos {
                    return Err(Error::Syntax { pos: p4 });
                }
                Ok((GenericParam::Const { name, ty, default: Some(dflt) }, p4))
            } else {
                if p2 <= pos {
                    return Err(Error::Syntax { pos: p2 });
                }
                Ok((GenericParam::Const { name, ty, default: None }, p2))
            }
        } else {
            let after_id = p;
            let p2 = skip_ws(buf, p);
            if p2 < buf.len() && buf[p2] == B_COLON {
                let mut bounds: Vec<Vec<u8>> = Vec::new();
                let mut cur = skip_ws(buf, p2 + 1);
                proof {
                    assert(bounds.deep_view() =~= Seq::<Seq<u8>>::empty());
                    match bounds_at(buf@, cur as int) {
                        Some((bs, e)) => {
                            assert(bounds.deep_view() + bs =~= bs);
                        },
                        None => {},
                    }
                }
                loop
                    invariant
                        pos < cur <= buf@.len(),
                        id@ == ident_at(buf@, pos as int)->Some_0.0,
                        match bounds_at(buf@, cur as int) {
                            Some((bs, e)) => param_at(buf@, pos as int) == Some(
                                (
                                    ParamModel::Type {
                                        name: id@,
                                        bounds: bounds.deep_view() + bs,
                                    },
                                    e,
                                ),
                            ),
                            None => param_at(buf@, pos as int) is None,
                        },
                    decreases buf@.len() - cur,
                {
                    let ghost bounds_before = bounds;
                    let ghost cur0: int = cur as int;
                    let (btext, bp) = scan_opaque(buf, cur, true, false, false);
                    if btext.len() == 0 {
                        return Err(Error::Syntax { pos: cur });
                    }
                    let ghost btext_v = btext@;
                    proof {
                        assert(btext.deep_view() =~= btext@);
                    }
                    bounds.push(btext);
                    proof {
                        lemma_deep_view_push(bounds_before, bounds, bounds@[bounds@.len() - 1]);
                    }
                    if bp < buf.len() && buf[bp] == B_PLUS {
                        let nxt = skip_ws(buf, bp + 1);
                        if nxt <= cur {
                            return Err(Error::Syntax { pos: nxt });
                        }
                        proof {
                            match bounds_at(buf@, nxt as int) {
                                Some((bs2, e)) => {
                                    assert(bounds_at(buf@, cur0) == Some(
                                        (seq![btext_v] + bs2, e),
                                    ));
                                    assert(bounds_before.deep_view() + (seq![btext_v] + bs2)
                                        =~= bounds.deep_view() + bs2);
                                },
                                None => {
                                    assert(bounds_at(buf@, cur0) is None);
                                },
                            }
                        }
                        cur = nxt;
                    } else {
                        if bp <= pos {
                            return Err(Error::Syntax { pos: bp });
                        }
                        proof {
                            assert(bounds_at(buf@, cur0) == Some((seq![btext_v], bp as int)));
                            assert(bounds_before.deep_view() + seq![btext_v] =~= bounds.deep_view());
                        }
                        return Ok((GenericParam::Type { name: id, bounds }, bp));
                    }
                }
            } else {
                let empty_bounds: Vec<Vec<u8>> = Vec::new();
                proof {
                    assert(empty_bounds.deep_view() =~= Seq::<Seq<u8>>::empty());
                }
                Ok((GenericParam::Type { name: id, bounds: empty_bounds }, after_id))
            }
        }
    }
}

/// Parses the parameters of a non-empty `<...>` list from the first
/// parameter on, consuming the closing `>`.
fn parse_params_list(buf: &Vec<u8>, pos: usize) -> (r: Result<(Vec<GenericParam>, usize), Error>)
    requires
        pos <= buf@.len(),
    ensures
        r matches Ok((ps, p)) ==> params_list_at(buf@, pos as int) == Some(
            (ps.deep_view(), p as int),
        ) && pos < p <= buf@.len(),
        r matches Err(e) ==> params_list_at(buf@, pos as int) is None && e matches Error::Syntax {
            ..
        },
{
    let mut params: Vec<GenericParam> = Vec::new();
    let mut cur = pos;
    proof {
        assert(params.deep_view() =~= Seq::<ParamModel>::empty());
        match params_list_at(buf@, cur as int) {
            Some((rest, e)) => {
                assert(params.deep_view() + rest =~= rest);
            },
            None => {},
        }
    }
    loop
        invariant
            pos <= cur <= buf@.len(),
            match params_list_at(buf@, cur as int) {
                Some((rest, e)) => params_list_at(buf@, pos as int) == Some(
                    (params.deep_view() + rest, e),
                ),
                None => params_list_at(buf@, pos as int) is None,
            },
        decreases buf@.len() - cur,
    {
        let ghost params_before = params;
        let ghost cur0: int = cur as int;
        let (prm, p2) = match parse_param(buf, cur) {
            Ok(x) => x,
            Err(e) => {
                return Err(e);
            },
        };
        let ghost prm_v = prm@;
        params.push(prm);
        proof {
            lemma_deep_view_push(params_before, params, params@[params@.len() - 1]);
        }
        let p3 = skip_ws(buf, p2);
        if p3 >= buf.len() {
            return Err(Error::Syntax { pos: p3 });
        }
        if buf[p3] == B_COMMA {
            let p4 = skip_ws(buf, p3 + 1);
            if p4 < buf.len() && buf[p4] == B_GT {
                proof {
                    assert(params_list_at(buf@, cur0) == Some((seq![prm_v], p4 + 1)));
                    assert(params_before.deep_view() + seq![prm_v] =~= params.deep_view());
                }
                return Ok((params, p4 + 1));
            }
            if p4 <= cur {
                return Err(Error::Syntax { pos: p4 });
            }
            proof {
                match params_list_at(buf@, p4 as int) {
                    Some((rest2, e)) => {
                        assert(params_list_at(buf@, cur0) == Some((seq![prm_v] + rest2, e)));
                        assert(params_before.deep_view() + (seq![prm_v] + rest2)
                            =~= params.deep_view() + rest2);
                    },
                    None => {
                        assert(params_list_at(buf@, cur0) is None);
                    },
                }
            }
            cur = p4;
        } else if buf[p3] == B_GT {
            proof {
                assert(params_list_at(buf@, cur0) == Some((seq![prm_v], p3 + 1)));
                assert(params_before.deep_view() + seq![prm_v] =~= params.deep_view());
            }
            return Ok((params, p3 + 1));
        } else {
            return Err(Error::Syntax { pos: p3 });
        }
    }
}

/// Parses one declaration `Name => <params> [where preds]` starting exactly
/// at `pos`. Does not consume a trailing `;`.
fn parse_decl(buf: &Vec<u8>, pos: usize) -> (r: Result<(BoundDecl, usize), Error>)
    requires
        pos <= buf@.len(),
    ensures
        r matches Ok((d, p)) ==> decl_at(buf@, pos as int) == Some((d@, p as int)) && pos < p
            <= buf@.len() && wf_name(d.name@),
        r matches Err(e) ==> decl_at(buf@, pos as int) is None && e matches Error::Syntax { .. },
{
    let (name, p) = match parse_ident(buf, pos) {
        Some(x) => x,
        None => {
            return Err(Error::Syntax { pos });
        },
    };
    let p = skip_ws(buf, p);
    if p >= buf.len() || buf[p] != B_EQ || p + 1 >= buf.len() || buf[p + 1] != B_GT {
        return Err(Error::Syntax { pos: p });
    }
    let p = skip_ws(buf, p + 2);
    if p >= buf.len() || buf[p] != B_LT {
        return Err(Error::Syntax { pos: p });
    }
    let start = skip_ws(buf, p + 1);
    let mut cur: usize = 0;
    let mut params: Vec<GenericParam> = Vec::new();
    if start < buf.len() && buf[start] == B_GT {
        cur = start + 1;
        proof {
            assert(params.deep_view() =~= Seq::<ParamModel>::empty());
        }
    } else {
        let (ps, p2) = match parse_params_list(buf, start) {
            Ok(x) => x,
            Err(e) => {
                return Err(e);
            },
        };
        params = ps;
        cur = p2;
    }
    // an optional where-clause
    let probe = skip_ws(buf, cur);
    let mut preds: Vec<Vec<u8>> = Vec::new();
    proof {
        assert(preds.deep_view() =~= Seq::<Seq<u8>>::empty());
    }
    match parse_ident(buf, probe) {
        Some((kw, pk)) => {
            if is_where_kw(&kw) {
                let mut wcur = skip_ws(buf, pk);
                proof {
                    match preds_at(buf@, wcur as int) {
                        Some((ps2, e)) => {
                            assert(preds.deep_view() + ps2 =~= ps2);
                        },
                        None => {},
                    }
                }
                loop
                    invariant
                        pos < wcur <= buf@.len(),
                        wf_name(name@),
                        match preds_at(buf@, wcur as int) {
                            Some((ps2, e)) => decl_at(buf@, pos as int) == Some(
                                (
                                    DeclModel {
                                        name: name@,
                                        set: BoundSetModel {
                                            params: params.deep_view(),
                                            preds: preds.deep_view() + ps2,
                                        },
                                    },
                                    e,
                                ),
                            ),
                            None => decl_at(buf@, pos as int) is None,
                        },
                    decreases buf@.len() - wcur,
                {
                    let ghost preds_before = preds;
                    let ghost wcur0: int = wcur as int;
                    let (ptext, pp) = scan_opaque(buf, wcur, false, false, true);
                    if ptext.len() == 0 {
                        return Err(Error::Syntax { pos: wcur });
                    }
                    let ghost ptext_v = ptext@;
                    proof {
                        assert(ptext.deep_view() =~= ptext@);
                    }
                    preds.push(ptext);
                    proof {
                        lemma_deep_view_push(preds_before, preds, preds@[preds@.len() - 1]);
                    }
                    if pp < buf.len() && buf[pp] == B_COMMA {
                        let nxt = skip_ws(buf, pp + 1);
                        if nxt <= wcur {
                            return Err(Error::Syntax { pos: nxt });
                        }
                        proof {
                            match preds_at(buf@, nxt as int) {
                                Some((ps3, e)) => {
                                    assert(preds_at(buf@, wcur0) == Some(
                                        (seq![ptext_v] + ps3, e),
                                    ));
                                    assert(preds_before.deep_view() + (seq![ptext_v] + ps3)
                                        =~= preds.deep_view() + ps3);
                                },
                                None => {
                                    assert(preds_at(buf@, wcur0) is None);
                                },
                            }
                        }
                        wcur = nxt;
                    } else {
                        if pp <= pos {
                            return Err(Error::Syntax { pos: pp });
                        }
                        proof {
                            assert(preds_at(buf@, wcur0) == Some((seq![ptext_v], pp as int)));
                            assert(preds_before.deep_view() + seq![ptext_v] =~= preds.deep_view());
                        }
                        return Ok((BoundDecl { name, params, preds }, pp));
                    }
                }
            } else {
                Ok((BoundDecl { name, params, preds }, cur))
            }
        },
        None => Ok((BoundDecl { name, params, preds }, cur)),
    }
}

/// Parses a whole registration batch: declarations separated by optional
/// semicolons. On success every entry's name is a well-formed identifier;
/// a grammar violation is a `Syntax` error carrying the offending offset.
pub fn parse_decls(buf: &Vec<u8>) -> (r: Result<Vec<BoundDecl>, Error>)
    ensures
        match decls_of(buf@) {
            Some(ds) => r matches Ok(v) && v.deep_view() == ds,
            None => r matches Err(e) && e matches Error::Syntax { .. },
        },
        r matches Ok(ds) ==> forall|i: int| 0 <= i < ds@.len() ==> wf_name(
            #[trigger] ds@[i].name@,
        ),
{
    let mut out: Vec<BoundDecl> = Vec::new();
    let mut pos = skip_ws(buf, 0);
    proof {
        assert(out.deep_view() =~= Seq::<DeclModel>::empty());
        match decls_from(buf@, pos as int) {
            Some(rest) => {
                assert(out.deep_view() + rest =~= rest);
            },
            None => {},
        }
    }
    while pos < buf.len()
        invariant
            pos <= buf@.len(),
            forall|i: int| 0 <= i < out@.len() ==> wf_name(#[trigger] out@[i].name@),
            match decls_from(buf@, pos as int) {
                Some(rest) => decls_of(buf@) == Some(out.deep_view() + rest),
                None => decls_of(buf@) is None,
            },
        decreases buf@.len() - pos,
    {
        let ghost out_before = out;
        let ghost pos0: int = pos as int;
        let (d, p) = match parse_decl(buf, pos) {
            Ok(x) => x,
            Err(e) => {
                return Err(e);
            },
        };
        let ghost d_v = d@;
        out.push(d);
        proof {
            lemma_deep_view_push(out_before, out, out@[out@.len() - 1]);
        }
        let mut p2 = skip_ws(buf, p);
        if p2 < buf.len() && buf[p2] == B_SEMI {
            p2 = skip_ws(buf, p2 + 1);
        }
        proof {
            match decls_from(buf@, p2 as int) {
                Some(rest2) => {
                    assert(decls_from(buf@, pos0) == Some(seq![d_v] + rest2));
                    assert(out_before.deep_view() + (seq![d_v] + rest2) =~= out.deep_view()
                        + rest2);
                },
                None => {
                    assert(decls_from(buf@, pos0) is None);
                },
            }
        }
        pos = p2;
    }
    proof {
        assert(decls_from(buf@, pos as int) == Some(Seq::<DeclModel>::empty()));
        assert(out.deep_view() + Seq::<DeclModel>::empty() =~= out.deep_view());
    }
    Ok(out)
}

/// Parses the comma-separated name list of a splice request. On success
/// every name is a well-formed identifier.
pub fn parse_names(buf: &Vec<u8>) -> (r: Result<Vec<Vec<u8>>, Error>)
    ensures
        match names_of(buf@) {
            Some(ns) => r matches Ok(v) && v.deep_view() == ns,
            None => r matches Err(e) && e matches Error::Syntax { .. },
        },
        r matches Ok(ns) ==> forall|i: int| 0 <= i < ns@.len() ==> wf_name(#[trigger] ns@[i]@),
{
    let mut out: Vec<Vec<u8>> = Vec::new();
    let mut pos = skip_ws(buf, 0);
    proof {
        assert(out.deep_view() =~= Seq::<Seq<u8>>::empty());
        match names_from(buf@, pos as int) {
            Some(rest) => {
                assert(out.deep_view() + rest =~= rest);
            },
            None => {},
        }
    }
    while pos < buf.len()
        invariant
            pos <= buf@.len(),
            forall|i: int| 0 <= i < out@.len() ==> wf_name(#[trigger] out@[i]@),
            match names_from(buf@, pos as int) {
                Some(rest) => names_of(buf@) == Some(out.deep_view() + rest),
                None => names_of(buf@) is None,
            },
        decreases buf@.len() - pos,
    {
        let ghost out_before = out;
        let ghost pos0: int = pos as int;
        let (id, p) = match parse_ident(buf, pos) {
            Some(x) => x,
            None => {
                return Err(Error::Syntax { pos });
            },
        };
        let ghost id_v = id@;
        proof {
            assert(id.deep_view() =~= id@);
        }
        out.push(id);
        proof {
            lemma_deep_view_push(out_before, out, out@[out@.len() - 1]);
        }
        let mut p2 = skip_ws(buf, p);
        if p2 < buf.len() {
            if buf[p2] != B_COMMA {
                return Err(Error::Syntax { pos: p2 });
            }
            p2 = skip_ws(buf, p2 + 1);
        }
        proof {
            match names_from(buf@, p2 as int) {
                Some(rest2) => {
                    assert(names_from(buf@, pos0) == Some(seq![id_v] + rest2));
                    assert(out_before.deep_view() + (seq![id_v] + rest2) =~= out.deep_view()
                        + rest2);
                },
                None => {
                    assert(names_from(buf@, pos0) is None);
                },
            }
        }
        pos = p2;
    }
    proof {
        assert(names_from(buf@, pos as int) == Some(Seq::<Seq<u8>>::empty()));
        assert(out.deep_view() + Seq::<Seq<u8>>::empty() =~= out.deep_view());
    }
    Ok(out)
}

} // verus!

verus! {

// The declaration grammar, stated as spec-level decoders in the style of the
// storage codec: each function reads from a position and yields the parsed
// value and the position just past it, or nothing when the text violates the
// grammar. The executable parser below is proved to agree with these exactly.
//
// Identifiers in this grammar are ASCII (letters, digits, underscore); a
// declaration or bound name outside that range is a grammar violation.

/// Position of the first non-whitespace byte at or after `p`.
pub open spec fn ws_end(s: Seq<u8>, p: int) -> int
    decreases s.len() - p,
{
    if p < s.len() && is_ws(s[p]) {
        ws_end(s, p + 1)
    } else {
        p
    }
}

/// Position just past the identifier bytes running from `p`.
pub open spec fn ident_end(s: Seq<u8>, p: int) -> int
    decreases s.len() - p,
{
    if p < s.len() && is_ident_byte(s[p]) {
        ident_end(s, p + 1)
    } else {
        p
    }
}

/// One identifier starting exactly at `pos`: the longest run of identifier
/// bytes, which must open with a letter or underscore.
pub open spec fn ident_at(s: Seq<u8>, pos: int) -> Option<(Seq<u8>, int)> {
    if 0 <= pos < s.len() && is_ident_byte_start(s[pos]) {
        let e = ident_end(s, pos + 1);
        Some((s.subrange(pos, e), e))
    } else {
        None
    }
}

/// Position of the first stop character outside every `<>`, `()`, `[]`
/// nesting, scanning from `p` with open-bracket count `depth`; a `>` right
/// after a `-` is an arrow's head, never a closer or a stop.
pub open spec fn scan_end(
    s: Seq<u8>,
    start: int,
    p: int,
    depth: int,
    sp: bool,
    se: bool,
    ss: bool,
) -> int
    decreases s.len() - p,
{
    if p >= s.len() {
        p
    } else {
        let b = s[p];
        if depth == 0 && (b == B_COMMA || (sp && b == B_PLUS) || (se && b == B_EQ) || (ss && b
            == B_SEMI)) {
            p
        } else if b == B_GT && p > start && s[p - 1] == B_MINUS {
            scan_end(s, start, p + 1, depth, sp, se, ss)
        } else if depth == 0 && b == B_GT {
            p
        } else {
            let d2 = if b == B_LT || b == B_LPAREN || b == B_LBRACK {
                if depth < usize::MAX {
                    depth + 1
                } else {
                    depth
                }
            } else if b == B_GT || b == B_RPAREN || b == B_RBRACK {
                if depth > 0 {
                    depth - 1
                } else {
                    depth
                }
            } else {
                depth
            };
            scan_end(s, start, p + 1, d2, sp, se, ss)
        }
    }
}

/// `e` backed up over trailing whitespace, but never before `start`.
pub open spec fn trim_ws(s: Seq<u8>, start: int, e: int) -> int
    decreases e - start,
{
    if e > start && is_ws(s[e - 1]) {
        trim_ws(s, start, e - 1)
    } else {
        e
    }
}

/// One opaque expression starting at `pos`: its text, trailing whitespace
/// trimmed, and the position of the stop character (or the end of input).
pub open spec fn scan_at(s: Seq<u8>, pos: int, sp: bool, se: bool, ss: bool) -> (Seq<u8>, int) {
    let e = scan_end(s, pos, pos, 0, sp, se, ss);
    let t = trim_ws(s, pos, e);
    (s.subrange(pos, t), e)
}

/// A nonempty `+`-separated trait-bound list starting at `pos`.
pub open spec fn bounds_at(s: Seq<u8>, pos: int) -> Option<(Seq<Seq<u8>>, int)>
    decreases s.len() - pos,
{
    let (btext, bp) = scan_at(s, pos, true, false, false);
    if btext.len() == 0 {
        None
    } else if bp < s.len() && s[bp] == B_PLUS {
        let nxt = ws_end(s, bp + 1);
        if nxt <= pos || nxt > s.len() {
            None
        } else {
            match bounds_at(s, nxt) {
                Some((bs, e)) => Some((seq![btext] + bs, e)),
                None => None,
            }
        }
    } else {
        Some((seq![btext], bp))
    }
}

/// One generic parameter starting exactly at `pos`: a lifetime, a const
/// parameter with its type and optional default, or a type parameter with
/// its bounds. The `,` or `>` that follows it is not consumed.
pub open spec fn param_at(s: Seq<u8>, pos: int) -> Option<(ParamModel, int)> {
    if pos >= s.len() || pos < 0 {
        None
    } else if s[pos] == B_QUOTE {
        match ident_at(s, pos + 1) {
            Some((name, p)) => Some((ParamModel::Lifetime { name }, p)),
            None => None,
        }
    } else {
        match ident_at(s, pos) {
            None => None,
            Some((id, p0)) => {
                if id == const_kw() {
                    let p1 = ws_end(s, p0);
                    match ident_at(s, p1) {
                        None => None,
                        Some((name, p2)) => {
                            let p3 = ws_end(s, p2);
                            if p3 >= s.len() || s[p3] != B_COLON {
                                None
                            } else {
                                let p4 = ws_end(s, p3 + 1);
                                let (ty, p5) = scan_at(s, p4, false, true, false);
                                if ty.len() == 0 {
                                    None
                                } else if p5 < s.len() && s[p5] == B_EQ {
                                    let p6 = ws_end(s, p5 + 1);
                                    let (dflt, p7) = scan_at(s, p6, false, false, false);
                                    if dflt.len() == 0 || p7 <= pos {
                                        None
                                    } else {
                                        Some(
                                            (
                                                ParamModel::Const {
                                                    name,
                                                    ty,
                                                    default: Some(dflt),
                                                },
                                                p7,
                                            ),
                                        )
                                    }
                                } else if p5 <= pos {
                                    None
                                } else {
                                    Some((ParamModel::Const { name, ty, default: None }, p5))
                                }
                            }
                        },
                    }
                } else {
                    let q = ws_end(s, p0);
                    if q < s.len() && s[q] == B_COLON {
                        let w = ws_end(s, q + 1);
                        match bounds_at(s, w) {
                            Some((bs, e)) => Some((ParamModel::Type { name: id, bounds: bs }, e)),
                            None => None,
                        }
                    } else {
                        Some((ParamModel::Type { name: id, bounds: Seq::empty() }, p0))
                    }
                }
            },
        }
    }
}

/// The parameters of a non-empty `<...>` list from the first parameter on,
/// with the closing `>` consumed.
pub open spec fn params_list_at(s: Seq<u8>, pos: int) -> Option<(Seq<ParamModel>, int)>
    decreases s.len() - pos,
{
    match param_at(s, pos) {
        None => None,
        Some((prm, p2)) => {
            let p3 = ws_end(s, p2);
            if p3 >= s.len() {
                None
            } else if s[p3] == B_COMMA {
                let p4 = ws_end(s, p3 + 1);
                if p4 < s.len() && s[p4] == B_GT {
                    Some((seq![prm], p4 + 1))
                } else if p4 <= pos || p4 > s.len() {
                    None
                } else {
                    match params_list_at(s, p4) {
                        Some((ps, e)) => Some((seq![prm] + ps, e)),
                        None => None,
                    }
                }
            } else if s[p3] == B_GT {
                Some((seq![prm], p3 + 1))
            } else {
                None
            }
        },
    }
}

/// A nonempty comma-separated where-predicate list starting at `pos`,
/// running to a `;` or the end of input.
pub open spec fn preds_at(s: Seq<u8>, pos: int) -> Option<(Seq<Seq<u8>>, int)>
    decreases s.len() - pos,
{
    let (ptext, pp) = scan_at(s, pos, false, false, true);
    if ptext.len() == 0 {
        None
    } else if pp < s.len() && s[pp] == B_COMMA {
        let nxt = ws_end(s, pp + 1);
        if nxt <= pos || nxt > s.len() {
            None
        } else {
            match preds_at(s, nxt) {
                Some((ps, e)) => Some((seq![ptext] + ps, e)),
                None => None,
            }
        }
    } else {
        Some((seq![ptext], pp))
    }
}

/// One declaration `Name => <params> [where preds]` starting exactly at
/// `pos`, a trailing `;` not consumed.
pub open spec fn decl_at(s: Seq<u8>, pos: int) -> Option<(DeclModel, int)> {
    match ident_at(s, pos) {
        None => None,
        Some((name, p0)) => {
            let p1 = ws_end(s, p0);
            if p1 >= s.len() || s[p1] != B_EQ || p1 + 1 >= s.len() || s[p1 + 1] != B_GT {
                None
            } else {
                let p2 = ws_end(s, p1 + 2);
                if p2 >= s.len() || s[p2] != B_LT {
                    None
                } else {
                    let start = ws_end(s, p2 + 1);
                    let body = if start < s.len() && s[start] == B_GT {
                        Some((Seq::<ParamModel>::empty(), start + 1))
                    } else {
                        params_list_at(s, start)
                    };
                    match body {
                        None => None,
                        Some((params, cur)) => {
                            let probe = ws_end(s, cur);
                            match ident_at(s, probe) {
                                Some((kw, pk)) => if kw == where_kw() {
                                    let w0 = ws_end(s, pk);
                                    if w0 < 0 || w0 > s.len() {
                                        None
                                    } else {
                                        match preds_at(s, w0) {
                                            Some((preds, e)) => Some(
                                                (
                                                    DeclModel {
                                                        name,
                                                        set: BoundSetModel { params, preds },
                                                    },
                                                    e,
                                                ),
                                            ),
                                            None => None,
                                        }
                                    }
                                } else {
                                    Some(
                                        (
                                            DeclModel {
                                                name,
                                                set: BoundSetModel {
                                                    params,
                                                    preds: Seq::empty(),
                                                },
                                            },
                                            cur,
                                        ),
                                    )
                                },
                                None => Some(
                                    (
                                        DeclModel {
                                            name,
                                            set: BoundSetModel { params, preds: Seq::empty() },
                                        },
                                        cur,
                                    ),
                                ),
                            }
                        },
                    }
                }
            }
        },
    }
}

/// A batch of declarations separated by optional semicolons, from `pos` to
/// the end of input.
pub open spec fn decls_from(s: Seq<u8>, pos: int) -> Option<Seq<DeclModel>>
    decreases s.len() - pos,
{
    if pos >= s.len() {
        Some(Seq::empty())
    } else {
        match decl_at(s, pos) {
            None => None,
            Some((d, p)) => {
                let p2 = ws_end(s, p);
                let p3 = if p2 < s.len() && s[p2] == B_SEMI {
                    ws_end(s, p2 + 1)
                } else {
                    p2
                };
                if p3 <= pos || p3 > s.len() {
                    None
                } else {
                    match decls_from(s, p3) {
                        Some(ds) => Some(seq![d] + ds),
                        None => None,
                    }
                }
            },
        }
    }
}

/// The declaration grammar of a whole registration batch: the entries it
/// holds, in order, or nothing when the text violates the grammar.
pub open spec fn decls_of(s: Seq<u8>) -> Option<Seq<DeclModel>> {
    decls_from(s, ws_end(s, 0))
}

/// A comma-separated identifier list from `pos` to the end of input.
pub open spec fn names_from(s: Seq<u8>, pos: int) -> Option<Seq<Seq<u8>>>
    decreases s.len() - pos,
{
    if pos >= s.len() {
        Some(Seq::empty())
    } else {
        match ident_at(s, pos) {
            None => None,
            Some((id, p)) => {
                let p2 = ws_end(s, p);
                if p2 >= s.len() {
                    if p2 <= pos || p2 > s.len() {
                        None
                    } else {
                        match names_from(s, p2) {
                            Some(ns) => Some(seq![id] + ns),
                            None => None,
                        }
                    }
                } else if s[p2] != B_COMMA {
                    None
                } else {
                    let p3 = ws_end(s, p2 + 1);
                    if p3 <= pos || p3 > s.len() {
                        None
                    } else {
                        match names_from(s, p3) {
                            Some(ns) => Some(seq![id] + ns),
                            None => None,
                        }
                    }
                }
            },
        }
    }
}

/// The grammar of a splice request's name list.
pub open spec fn names_of(s: Seq<u8>) -> Option<Seq<Seq<u8>>> {
    names_from(s, ws_end(s, 0))
}

} // verus!
