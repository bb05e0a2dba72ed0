use vstd::prelude::*;
use vstd::string::StrSliceExecFns;
use crate::error::{ErrorKind, ParseError};
use crate::lexer::{chars_of, lex_from, tokenize, Tok, TokV};
use crate::syntax::{Comp, Expr, ExprV, Fml, FmlV, Op, Quant};

verus! {

/// Which side an operator groups to when it is chained with itself.
#[derive(Debug, Clone, Copy, PartialEq, Eq, Structural)]
pub enum Assoc {
    Left,
    Right,
}

/// Binding strength: `+` and `-` bind weakest, then `*`, then `^`.
pub open spec fn prec(op: Op) -> nat {
    match op {
        Op::Add => 1,
        Op::Sub => 1,
        Op::Mul => 2,
        Op::Pow => 3,
    }
}

/// `^` groups to the right, every other operator to the left.
pub open spec fn assoc(op: Op) -> Assoc {
    match op {
        Op::Pow => Assoc::Right,
        _ => Assoc::Left,
    }
}

/// The least binding strength an operator may have to continue the right
/// operand of `op`.
pub open spec fn next_min(op: Op) -> nat {
    match assoc(op) {
        Assoc::Left => prec(op) + 1,
        Assoc::Right => prec(op),
    }
}

/// The models of a token sequence.
pub open spec fn toks_v(ts: Seq<Tok>) -> Seq<TokV> {
    ts.map_values(|t: Tok| t@)
}

/// The operator at token `i`, if that token is one.
pub open spec fn bin_at(ts: Seq<TokV>, i: int) -> Option<Op> {
    if 0 <= i < ts.len() {
        match ts[i] {
            TokV::Bin(op) => Some(op),
            _ => None,
        }
    } else {
        None
    }
}

/// The relation at token `i`, if that token is one.
pub open spec fn rel_at(ts: Seq<TokV>, i: int) -> Option<Comp> {
    if 0 <= i < ts.len() {
        match ts[i] {
            TokV::Rel(c) => Some(c),
            _ => None,
        }
    } else {
        None
    }
}

/// An expression at token `i` whose operators all bind at least `min`; with
/// the index after it, or the index and kind of the error.
pub open spec fn parse_expr(ts: Seq<TokV>, i: int, min: nat) -> Result<(ExprV, int), (int, ErrorKind)>
    decreases ts.len() - i, 1int,
{
    if 0 <= i < ts.len() {
        match parse_primary(ts, i) {
            Ok((lhs, j)) => if i < j <= ts.len() {
                climb(ts, lhs, j, min)
            } else {
                Err((i, ErrorKind::ExpectedOperand))
            },
            Err(e) => Err(e),
        }
    } else {
        Err((i, ErrorKind::ExpectedOperand))
    }
}

/// A number, a variable, or a parenthesised expression at token `i`.
pub open spec fn parse_primary(ts: Seq<TokV>, i: int) -> Result<(ExprV, int), (int, ErrorKind)>
    decreases ts.len() - i, 0int,
{
    if 0 <= i < ts.len() {
        match ts[i] {
            TokV::Num(n) => Ok((ExprV::Num(n), i + 1)),
            TokV::Ident(x) => Ok((ExprV::Var(x), i + 1)),
            TokV::LParen => match parse_expr(ts, i + 1, 1) {
                Ok((e, j)) => if i < j < ts.len() && ts[j] is RParen {
                    Ok((e, j + 1))
                } else {
                    Err((j, ErrorKind::ExpectedCloseParen))
                },
                Err(e) => Err(e),
            },
            _ => Err((i, ErrorKind::ExpectedOperand)),
        }
    } else {
        Err((i, ErrorKind::ExpectedOperand))
    }
}

/// Extends the left operand `lhs`, which ends before token `i`, with each
/// following operator that binds at least `min`.
pub open spec fn climb(ts: Seq<TokV>, lhs: ExprV, i: int, min: nat) -> Result<(ExprV, int), (int, ErrorKind)>
    decreases ts.len() - i, 2int,
{
    match bin_at(ts, i) {
        Some(op) => if prec(op) >= min {
            match parse_expr(ts, i + 1, next_min(op)) {
                Ok((rhs, j)) => if i < j <= ts.len() {
                    climb(ts, ExprV::Op { op, l: Box::new(lhs), r: Box::new(rhs) }, j, min)
                } else {
                    Err((j, ErrorKind::ExpectedOperand))
                },
                Err(e) => Err(e),
            }
        } else {
            Ok((lhs, i))
        },
        None => Ok((lhs, i)),
    }
}

/// The quantifier that a one-letter keyword stands for: `A` for all, `E` exists.
pub open spec fn quant_of(k: Seq<char>) -> Option<Quant> {
    if k.len() == 1 && k[0] == 'A' {
        Some(Quant::Forall)
    } else if k.len() == 1 && k[0] == 'E' {
        Some(Quant::Exists)
    } else {
        None
    }
}

/// A quantifier prefix `( K x )` at token `i`: its kind and bound variable.
pub open spec fn quant_prefix(ts: Seq<TokV>, i: int) -> Option<(Quant, Seq<char>)> {
    if 0 <= i && i + 3 < ts.len() && ts[i] is LParen && ts[i + 3] is RParen {
        match (ts[i + 1], ts[i + 2]) {
            (TokV::Ident(k), TokV::Ident(x)) => match quant_of(k) {
                Some(q) => Some((q, x)),
                None => None,
            },
            _ => None,
        }
    } else {
        None
    }
}

/// A comparison `l rel r` at token `i`.
pub open spec fn parse_prim(ts: Seq<TokV>, i: int) -> Result<(FmlV, int), (int, ErrorKind)> {
    match parse_expr(ts, i, 1) {
        Ok((l, j)) => match rel_at(ts, j) {
            Some(comp) => match parse_expr(ts, j + 1, 1) {
                Ok((r, k)) => Ok((FmlV::Prim { comp, l, r }, k)),
                Err(e) => Err(e),
            },
            None => Err((j, ErrorKind::ExpectedComparison)),
        },
        Err(e) => Err(e),
    }
}

/// A formula at token `i`: quantifier prefixes, outermost first, then a comparison.
pub open spec fn parse_fml(ts: Seq<TokV>, i: int) -> Result<(FmlV, int), (int, ErrorKind)>
    decreases ts.len() - i,
{
    match quant_prefix(ts, i) {
        Some((quant, var)) => match parse_fml(ts, i + 4) {
            Ok((f, j)) => Ok((FmlV::Quant { quant, var, inner: Box::new(f) }, j)),
            Err(e) => Err(e),
        },
        None => parse_prim(ts, i),
    }
}

/// A formula that takes up the whole token sequence.
pub open spec fn parse_tokens(ts: Seq<TokV>) -> Result<FmlV, (int, ErrorKind)> {
    match parse_fml(ts, 0) {
        Ok((f, j)) => if j == ts.len() {
            Ok(f)
        } else {
            Err((j, ErrorKind::TrailingInput))
        },
        Err(e) => Err(e),
    }
}

/// The formula that the text `cs` denotes, or the character offset and kind of
/// the first error. A syntax error is reported at the start of the token where
/// it was found, or at the end of the text.
pub open spec fn parse_text(cs: Seq<char>) -> Result<FmlV, (int, ErrorKind)> {
    match lex_from(cs, 0) {
        Err(e) => Err(e),
        Ok(lx) => match parse_tokens(lx.map_values(|p: (TokV, int)| p.0)) {
            Ok(f) => Ok(f),
            Err((k, kind)) => Err((if 0 <= k < lx.len() { lx[k].1 } else { cs.len() as int }, kind)),
        },
    }
}

/// The model of an expression reducer's outcome.
pub open spec fn expr_res(r: Result<(Expr, usize), (usize, ErrorKind)>) -> Result<(ExprV, int), (int, ErrorKind)> {
    match r {
        Ok((e, j)) => Ok((e@, j as int)),
        Err((p, k)) => Err((p as int, k)),
    }
}

/// The model of a formula reducer's outcome.
pub open spec fn fml_res(r: Result<(Fml, usize), (usize, ErrorKind)>) -> Result<(FmlV, int), (int, ErrorKind)> {
    match r {
        Ok((f, j)) => Ok((f@, j as int)),
        Err((p, k)) => Err((p as int, k)),
    }
}

} // verus!

verus! {

/// The precedence table: each operator's binding strength and grouping.
pub fn binding(op: Op) -> (r: (u32, Assoc))
    ensures
        r.0 == prec(op),
        r.1 == assoc(op),
{
    match op {
        Op::Add => (1, Assoc::Left),
        Op::Sub => (1, Assoc::Left),
        Op::Mul => (2, Assoc::Left),
        Op::Pow => (3, Assoc::Right),
    }
}

fn bin_op_at(ts: &Vec<Tok>, i: usize) -> (r: Option<Op>)
    ensures
        r == bin_at(toks_v(ts@), i as int),
{
    if i < ts.len() {
        match &ts[i] {
            Tok::Bin(op) => Some(*op),
            _ => None,
        }
    } else {
        None
    }
}

fn rel_op_at(ts: &Vec<Tok>, i: usize) -> (r: Option<Comp>)
    ensures
        r == rel_at(toks_v(ts@), i as int),
{
    if i < ts.len() {
        match &ts[i] {
            Tok::Rel(c) => Some(*c),
            _ => None,
        }
    } else {
        None
    }
}

/// Reduces the expression at token `i`, as far as its operators bind at least `min`.
pub fn expr(ts: &Vec<Tok>, i: usize, min: u32) -> (r: Result<(Expr, usize), (usize, ErrorKind)>)
    requires
        i <= ts@.len(),
    ensures
        expr_res(r) == parse_expr(toks_v(ts@), i as int, min as nat),
        r is Ok ==> i < (r->Ok_0).1 <= ts@.len(),
    decreases ts@.len() - i, 1int,
{
    let ghost tv = toks_v(ts@);
    let n: usize = ts.len();
    if i >= n {
        return Err((i, ErrorKind::ExpectedOperand));
    }
    let (mut lhs, mut j) = match primary(ts, i) {
        Ok(p) => p,
        Err(e) => {
            return Err(e);
        },
    };
    let ghost target = climb(tv, lhs@, j as int, min as nat);
    assert(parse_expr(tv, i as int, min as nat) == target);
    loop
        invariant
            tv == toks_v(ts@),
            n == ts@.len(),
            i < j <= ts@.len(),
            climb(tv, lhs@, j as int, min as nat) == target,
            target == parse_expr(tv, i as int, min as nat),
        decreases ts@.len() - j,
    {
        let op = match bin_op_at(ts, j) {
            Some(op) => op,
            None => {
                return Ok((lhs, j));
            },
        };
        let (p, a) = binding(op);
        if p < min {
            return Ok((lhs, j));
        }
        let nm: u32 = match a {
            Assoc::Left => p + 1,
            Assoc::Right => p,
        };
        match expr(ts, j + 1, nm) {
            Ok((rhs, k)) => {
                lhs = Expr::Op { op, l: Box::new(lhs), r: Box::new(rhs) };
                j = k;
            },
            Err(e) => {
                return Err(e);
            },
        }
    }
}

/// Reduces a number, a variable or a parenthesised expression at token `i`.
fn primary(ts: &Vec<Tok>, i: usize) -> (r: Result<(Expr, usize), (usize, ErrorKind)>)
    requires
        i < ts@.len(),
    ensures
        expr_res(r) == parse_primary(toks_v(ts@), i as int),
        r is Ok ==> i < (r->Ok_0).1 <= ts@.len(),
    decreases ts@.len() - i, 0int,
{
    let len: usize = ts.len();
    match &ts[i] {
        Tok::Num(n) => Ok((Expr::Num(*n), i + 1)),
        Tok::Ident(x) => Ok((Expr::Var(x.clone()), i + 1)),
        Tok::LParen => match expr(ts, i + 1, 1) {
            Ok((e, j)) => {
                if j < len && matches!(ts[j], Tok::RParen) {
                    Ok((e, j + 1))
                } else {
                    Err((j, ErrorKind::ExpectedCloseParen))
                }
            },
            Err(e) => Err(e),
        },
        _ => Err((i, ErrorKind::ExpectedOperand)),
    }
}

} // verus!

verus! {

/// The quantifier that the keyword `k` stands for.
fn quant_kind(k: &String) -> (r: Option<Quant>)
    ensures
        r == quant_of(k@),
{
    let s = k.as_str();
    if s.unicode_len() == 1 {
        let c = s.get_char(0);
        if c == 'A' {
            Some(Quant::Forall)
        } else if c == 'E' {
            Some(Quant::Exists)
        } else {
            None
        }
    } else {
        None
    }
}

/// The quantifier prefix `( K x )` at token `i`, if there is one.
fn quant(ts: &Vec<Tok>, i: usize) -> (r: Option<(Quant, String)>)
    requires
        i <= ts@.len(),
    ensures
        match quant_prefix(toks_v(ts@), i as int) {
            Some((q, x)) => r is Some && (r->0).0 == q && (r->0).1@ == x,
            None => r is None,
        },
{
    if ts.len() - i > 3 && matches!(ts[i], Tok::LParen) && matches!(ts[i + 3], Tok::RParen) {
        match (&ts[i + 1], &ts[i + 2]) {
            (Tok::Ident(k), Tok::Ident(x)) => match quant_kind(k) {
                Some(q) => Some((q, x.clone())),
                None => None,
            },
            _ => None,
        }
    } else {
        None
    }
}

/// Reduces the formula at token `i`: its quantifier prefixes, then a comparison.
pub fn fml(ts: &Vec<Tok>, i: usize) -> (r: Result<(Fml, usize), (usize, ErrorKind)>)
    requires
        i <= ts@.len(),
    ensures
        fml_res(r) == parse_fml(toks_v(ts@), i as int),
        r is Ok ==> (r->Ok_0).1 <= ts@.len(),
    decreases ts@.len() - i,
{
    let n: usize = ts.len();
    match quant(ts, i) {
        Some((quant, var)) => match fml(ts, i + 4) {
            Ok((inner, j)) => Ok((Fml::Quant { quant, var, inner: Box::new(inner) }, j)),
            Err(e) => Err(e),
        },
        None => {
            let (l, j) = match expr(ts, i, 1) {
                Ok(p) => p,
                Err(e) => {
                    return Err(e);
                },
            };
            let comp = match rel_op_at(ts, j) {
                Some(c) => c,
                None => {
                    return Err((j, ErrorKind::ExpectedComparison));
                },
            };
            match expr(ts, j + 1, 1) {
                Ok((r, k)) => Ok((Fml::Prim { comp, l, r }, k)),
                Err(e) => Err(e),
            }
        },
    }
}

/// Reduces a whole token sequence to one formula.
fn fml_of_tokens(ts: &Vec<Tok>) -> (r: Result<Fml, (usize, ErrorKind)>)
    ensures
        match parse_tokens(toks_v(ts@)) {
            Ok(f) => r is Ok && (r->Ok_0)@ == f,
            Err((p, k)) => r is Err && (r->Err_0).0 == p && (r->Err_0).1 == k,
        },
{
    match fml(ts, 0) {
        Ok((f, j)) => if j == ts.len() {
            Ok(f)
        } else {
            Err((j, ErrorKind::TrailingInput))
        },
        Err(e) => Err(e),
    }
}

/// Parses a formula: quantifier prefixes `(A x)` (for all) and `(E x)`
/// (exists), outermost first, then a comparison between two arithmetic
/// expressions. Among the operators `+` and `-` bind weakest and `^` binds
/// strongest; `^` groups to the right, the others to the left. Fails with the
/// character offset of the first error and its kind.
pub fn parse(s: &str) -> (r: Result<Fml, ParseError>)
    ensures
        match parse_text(s@) {
            Ok(f) => r is Ok && (r->Ok_0)@ == f,
            Err((p, k)) => r is Err && (r->Err_0).pos == p && (r->Err_0).kind == k,
        },
{
    let cs = chars_of(s);
    let (toks, offs) = match tokenize(s, &cs) {
        Ok(p) => p,
        Err((pos, kind)) => {
            return Err(ParseError { pos, kind });
        },
    };
    let ghost lx = lex_from(cs@, 0)->Ok_0;
    assert(toks_v(toks@) =~= lx.map_values(|p: (TokV, int)| p.0));
    match fml_of_tokens(&toks) {
        Ok(f) => Ok(f),
        Err((k, kind)) => {
            let pos = if k < offs.len() {
                offs[k]
            } else {
                cs.len()
            };
            Err(ParseError { pos, kind })
        },
    }
}

} // verus!
