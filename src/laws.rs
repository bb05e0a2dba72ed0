use vstd::prelude::*;
use crate::error::ErrorKind;
use crate::lexer::{digits_end, ident_end, is_alpha, is_ident_char, is_space, lex_from, token_at, TokV};
use crate::parser::{
    assoc, bin_at, climb, next_min, parse_expr, parse_fml, parse_primary, parse_text, parse_tokens,
    prec, quant_of, quant_prefix, rel_at, Assoc,
};
use crate::syntax::{comp_symbol, Comp, ExprV, FmlV, Op, Quant};

verus! {

/// An operand token: a number or a variable.
pub open spec fn is_atom(t: TokV) -> bool {
    t is Num || t is Ident
}

/// The expression that an operand token stands for.
pub open spec fn atom_expr(t: TokV) -> ExprV {
    match t {
        TokV::Num(n) => ExprV::Num(n),
        TokV::Ident(x) => ExprV::Var(x),
        _ => ExprV::Num(0),
    }
}

pub open spec fn bin_expr(op: Op, l: ExprV, r: ExprV) -> ExprV {
    ExprV::Op { op, l: Box::new(l), r: Box::new(r) }
}

proof fn lemma_atom(ts: Seq<TokV>, i: int, min: nat)
    requires
        0 <= i < ts.len(),
        is_atom(ts[i]),
        i + 1 == ts.len(),
    ensures
        parse_primary(ts, i) == Ok::<(ExprV, int), (int, ErrorKind)>((atom_expr(ts[i]), i + 1)),
        parse_expr(ts, i, min) == Ok::<(ExprV, int), (int, ErrorKind)>((atom_expr(ts[i]), i + 1)),
{
    assert(climb(ts, atom_expr(ts[i]), i + 1, min) == Ok::<(ExprV, int), (int, ErrorKind)>(
        (atom_expr(ts[i]), i + 1),
    ));
}

proof fn lemma_groups_right(a: TokV, op1: Op, b: TokV, op2: Op, c: TokV)
    requires
        is_atom(a),
        is_atom(b),
        is_atom(c),
        prec(op2) >= next_min(op1),
    ensures
        parse_expr(seq![a, TokV::Bin(op1), b, TokV::Bin(op2), c], 0, 1) == Ok::<
            (ExprV, int),
            (int, ErrorKind),
        >((bin_expr(op1, atom_expr(a), bin_expr(op2, atom_expr(b), atom_expr(c))), 5)),
{
    let ts = seq![a, TokV::Bin(op1), b, TokV::Bin(op2), c];
    let (ea, eb, ec) = (atom_expr(a), atom_expr(b), atom_expr(c));
    lemma_atom(ts, 4, next_min(op2));
    let bc = bin_expr(op2, eb, ec);
    assert(climb(ts, bc, 5, next_min(op1)) == Ok::<(ExprV, int), (int, ErrorKind)>((bc, 5)));
    assert(parse_primary(ts, 2) == Ok::<(ExprV, int), (int, ErrorKind)>((eb, 3)));
    assert(climb(ts, eb, 3, next_min(op1)) == Ok::<(ExprV, int), (int, ErrorKind)>((bc, 5)));
    assert(parse_expr(ts, 2, next_min(op1)) == Ok::<(ExprV, int), (int, ErrorKind)>((bc, 5)));
    let all = bin_expr(op1, ea, bc);
    assert(climb(ts, all, 5, 1) == Ok::<(ExprV, int), (int, ErrorKind)>((all, 5)));
    assert(parse_primary(ts, 0) == Ok::<(ExprV, int), (int, ErrorKind)>((ea, 1)));
    assert(climb(ts, ea, 1, 1) == Ok::<(ExprV, int), (int, ErrorKind)>((all, 5)));
}

/// In `a op1 b op2 c`, where `op1` binds weaker than `op2`, `op1` is the root
/// and `op2` the root of its right operand.
pub proof fn law_precedence(a: TokV, op1: Op, b: TokV, op2: Op, c: TokV)
    requires
        is_atom(a),
        is_atom(b),
        is_atom(c),
        prec(op1) < prec(op2),
    ensures
        parse_expr(seq![a, TokV::Bin(op1), b, TokV::Bin(op2), c], 0, 1) == Ok::<
            (ExprV, int),
            (int, ErrorKind),
        >((bin_expr(op1, atom_expr(a), bin_expr(op2, atom_expr(b), atom_expr(c))), 5)),
{
    lemma_groups_right(a, op1, b, op2, c);
}

} // verus!

verus! {

proof fn lemma_groups_left(a: TokV, op1: Op, b: TokV, op2: Op, c: TokV)
    requires
        is_atom(a),
        is_atom(b),
        is_atom(c),
        prec(op2) < next_min(op1),
    ensures
        parse_expr(seq![a, TokV::Bin(op1), b, TokV::Bin(op2), c], 0, 1) == Ok::<
            (ExprV, int),
            (int, ErrorKind),
        >((bin_expr(op2, bin_expr(op1, atom_expr(a), atom_expr(b)), atom_expr(c)), 5)),
{
    let ts = seq![a, TokV::Bin(op1), b, TokV::Bin(op2), c];
    let (ea, eb, ec) = (atom_expr(a), atom_expr(b), atom_expr(c));
    lemma_atom(ts, 4, next_min(op2));
    assert(climb(ts, eb, 3, next_min(op1)) == Ok::<(ExprV, int), (int, ErrorKind)>((eb, 3)));
    assert(parse_primary(ts, 2) == Ok::<(ExprV, int), (int, ErrorKind)>((eb, 3)));
    assert(parse_expr(ts, 2, next_min(op1)) == Ok::<(ExprV, int), (int, ErrorKind)>((eb, 3)));
    let ab = bin_expr(op1, ea, eb);
    let all = bin_expr(op2, ab, ec);
    assert(climb(ts, all, 5, 1) == Ok::<(ExprV, int), (int, ErrorKind)>((all, 5)));
    assert(climb(ts, ab, 3, 1) == Ok::<(ExprV, int), (int, ErrorKind)>((all, 5)));
    assert(parse_primary(ts, 0) == Ok::<(ExprV, int), (int, ErrorKind)>((ea, 1)));
    assert(climb(ts, ea, 1, 1) == Ok::<(ExprV, int), (int, ErrorKind)>((all, 5)));
}


/// Operators of equal strength that group to the left nest to the left:
/// `a op1 b op2 c` is `(a op1 b) op2 c`.
pub proof fn law_left_assoc(a: TokV, op1: Op, b: TokV, op2: Op, c: TokV)
    requires
        is_atom(a),
        is_atom(b),
        is_atom(c),
        prec(op1) == prec(op2),
        assoc(op1) == Assoc::Left,
    ensures
        parse_expr(seq![a, TokV::Bin(op1), b, TokV::Bin(op2), c], 0, 1) == Ok::<
            (ExprV, int),
            (int, ErrorKind),
        >((bin_expr(op2, bin_expr(op1, atom_expr(a), atom_expr(b)), atom_expr(c)), 5)),
{
    lemma_groups_left(a, op1, b, op2, c);
}

/// In `a op1 b op2 c`, where `op1` binds stronger than `op2`, `op2` is the
/// root and `op1` the root of its left operand.
pub proof fn law_stronger_first(a: TokV, op1: Op, b: TokV, op2: Op, c: TokV)
    requires
        is_atom(a),
        is_atom(b),
        is_atom(c),
        prec(op1) > prec(op2),
    ensures
        parse_expr(seq![a, TokV::Bin(op1), b, TokV::Bin(op2), c], 0, 1) == Ok::<
            (ExprV, int),
            (int, ErrorKind),
        >((bin_expr(op2, bin_expr(op1, atom_expr(a), atom_expr(b)), atom_expr(c)), 5)),
{
    lemma_groups_left(a, op1, b, op2, c);
}

/// Operators of equal strength that group to the right nest to the right:
/// `a op1 b op2 c` is `a op1 (b op2 c)`.
pub proof fn law_right_assoc(a: TokV, op1: Op, b: TokV, op2: Op, c: TokV)
    requires
        is_atom(a),
        is_atom(b),
        is_atom(c),
        prec(op1) == prec(op2),
        assoc(op1) == Assoc::Right,
    ensures
        parse_expr(seq![a, TokV::Bin(op1), b, TokV::Bin(op2), c], 0, 1) == Ok::<
            (ExprV, int),
            (int, ErrorKind),
        >((bin_expr(op1, atom_expr(a), bin_expr(op2, atom_expr(b), atom_expr(c))), 5)),
{
    lemma_groups_right(a, op1, b, op2, c);
}

/// Each relation between two variables becomes a comparison node of that
/// relation, with the variables as its operands in order.
pub proof fn law_comparison(x: Seq<char>, comp: Comp, y: Seq<char>)
    ensures
        parse_tokens(seq![TokV::Ident(x), TokV::Rel(comp), TokV::Ident(y)]) == Ok::<
            FmlV,
            (int, ErrorKind),
        >(FmlV::Prim { comp, l: ExprV::Var(x), r: ExprV::Var(y) }),
{
    let ts = seq![TokV::Ident(x), TokV::Rel(comp), TokV::Ident(y)];
    assert(parse_primary(ts, 0) == Ok::<(ExprV, int), (int, ErrorKind)>((ExprV::Var(x), 1)));
    assert(climb(ts, ExprV::Var(x), 1, 1) == Ok::<(ExprV, int), (int, ErrorKind)>(
        (ExprV::Var(x), 1),
    ));
    assert(parse_expr(ts, 0, 1) == Ok::<(ExprV, int), (int, ErrorKind)>((ExprV::Var(x), 1)));
    lemma_atom(ts, 2, 1);
    assert(quant_prefix(ts, 0) is None);
}

} // verus!

verus! {

proof fn lemma_lex_offsets(cs: Seq<char>, i: int)
    requires
        0 <= i,
    ensures
        match lex_from(cs, i) {
            Ok(lx) => forall|k: int| 0 <= k < lx.len() ==> i <= #[trigger] lx[k].1 < cs.len(),
            Err((p, _)) => i <= p < cs.len(),
        },
    decreases cs.len() - i,
{
    if i < cs.len() {
        if crate::lexer::is_space(cs[i]) {
            lemma_lex_offsets(cs, i + 1);
        } else {
            match crate::lexer::token_at(cs, i) {
                Ok((t, j)) => if i < j <= cs.len() {
                    lemma_lex_offsets(cs, j);
                    match lex_from(cs, j) {
                        Ok(rest) => {
                            let lx = seq![(t, i)] + rest;
                            assert forall|k: int| 0 <= k < lx.len() implies i <= #[trigger] lx[k].1
                                < cs.len() by {
                                if k > 0 {
                                    assert(lx[k] == rest[k - 1]);
                                }
                            }
                        },
                        Err(_) => {},
                    }
                },
                Err(_) => {},
            }
        }
    }
}

/// A rejected text is reported at an offset inside it, or at its very end.
pub proof fn law_error_position(cs: Seq<char>)
    ensures
        parse_text(cs) is Err ==> 0 <= (parse_text(cs)->Err_0).0 <= cs.len(),
{
    lemma_lex_offsets(cs, 0);
}

/// A formula is accepted only where it takes up every token: input left over
/// after it is an error at the first such token, never a shortened tree.
pub proof fn law_whole_input(ts: Seq<TokV>)
    ensures
        parse_tokens(ts) is Ok ==> parse_fml(ts, 0) == Ok::<(FmlV, int), (int, ErrorKind)>(
            (parse_tokens(ts)->Ok_0, ts.len() as int),
        ),
        parse_fml(ts, 0) is Ok && (parse_fml(ts, 0)->Ok_0).1 != ts.len() ==> parse_tokens(ts)
            == Err::<FmlV, (int, ErrorKind)>(
            ((parse_fml(ts, 0)->Ok_0).1, ErrorKind::TrailingInput),
        ),
{
}

} // verus!

verus! {

/// The text `x <rel> y`, with one blank on each side of the relation.
pub open spec fn comparison_text(comp: Comp) -> Seq<char> {
    seq!['x', ' '] + comp_symbol(comp) + seq![' ', 'y']
}

/// Written out, each of the six relations between `x` and `y` parses to a
/// comparison node of that relation between the variables `x` and `y`.
pub proof fn law_comparison_text(comp: Comp)
    ensures
        parse_text(comparison_text(comp)) == Ok::<FmlV, (int, ErrorKind)>(
            FmlV::Prim { comp, l: ExprV::Var(seq!['x']), r: ExprV::Var(seq!['y']) },
        ),
{
    let cs = comparison_text(comp);
    let m = comp_symbol(comp).len() as int;
    let n = cs.len() as int;
    assert(n == m + 4);
    assert(cs.subrange(0, 1) =~= seq!['x']);
    assert(cs.subrange(n - 1, n) =~= seq!['y']);
    assert(ident_end(cs, n) == n);
    assert(ident_end(cs, n - 1) == n);
    assert(ident_end(cs, 1) == 1);
    assert(ident_end(cs, 0) == 1);
    let ty = (TokV::Ident(seq!['y']), n - 1);
    let tc = (TokV::Rel(comp), 2int);
    let tx = (TokV::Ident(seq!['x']), 0int);
    assert(lex_from(cs, n) == Ok::<Seq<(TokV, int)>, (int, ErrorKind)>(Seq::empty()));
    assert(seq![ty] + Seq::<(TokV, int)>::empty() =~= seq![ty]);
    assert(lex_from(cs, n - 1) == Ok::<Seq<(TokV, int)>, (int, ErrorKind)>(seq![ty]));
    assert(lex_from(cs, n - 2) == Ok::<Seq<(TokV, int)>, (int, ErrorKind)>(seq![ty]));
    assert(token_at(cs, 2) == Ok::<(TokV, int), (int, ErrorKind)>((TokV::Rel(comp), n - 2)));
    assert(seq![tc] + seq![ty] =~= seq![tc, ty]);
    assert(lex_from(cs, 2) == Ok::<Seq<(TokV, int)>, (int, ErrorKind)>(seq![tc, ty]));
    assert(lex_from(cs, 1) == Ok::<Seq<(TokV, int)>, (int, ErrorKind)>(seq![tc, ty]));
    assert(seq![tx] + seq![tc, ty] =~= seq![tx, tc, ty]);
    assert(lex_from(cs, 0) == Ok::<Seq<(TokV, int)>, (int, ErrorKind)>(seq![tx, tc, ty]));
    let lx = seq![tx, tc, ty];
    assert(lx.map_values(|p: (TokV, int)| p.0) =~= seq![
        TokV::Ident(seq!['x']),
        TokV::Rel(comp),
        TokV::Ident(seq!['y']),
    ]);
    law_comparison(seq!['x'], comp, seq!['y']);
}

} // verus!

verus! {

/// The tokens of an expression written out with every compound operand in
/// parentheses: `(l op r)`.
pub open spec fn expr_tokens(e: ExprV) -> Seq<TokV>
    decreases e,
{
    match e {
        ExprV::Num(n) => seq![TokV::Num(n)],
        ExprV::Var(x) => seq![TokV::Ident(x)],
        ExprV::Op { op, l, r } => seq![TokV::LParen] + expr_tokens(*l) + seq![TokV::Bin(op)]
            + expr_tokens(*r) + seq![TokV::RParen],
    }
}

proof fn lemma_reparse(ts: Seq<TokV>, i: int, e: ExprV)
    requires
        0 <= i,
        i + expr_tokens(e).len() <= ts.len(),
        ts.subrange(i, i + expr_tokens(e).len()) == expr_tokens(e),
    ensures
        expr_tokens(e).len() >= 1,
        parse_primary(ts, i) == Ok::<(ExprV, int), (int, ErrorKind)>(
            (e, i + expr_tokens(e).len()),
        ),
    decreases e,
{
    let w = expr_tokens(e);
    assert(ts[i] == w[0]);
    match e {
        ExprV::Num(n) => {},
        ExprV::Var(x) => {},
        ExprV::Op { op, l, r } => {
            let tl = expr_tokens(*l);
            let tr = expr_tokens(*r);
            let j = i + 1 + tl.len();
            let k = j + 1 + tr.len();
            assert(w.len() == tl.len() + tr.len() + 3);
            assert(ts.subrange(i + 1, j) =~= tl) by {
                assert forall|m: int| 0 <= m < tl.len() implies ts[i + 1 + m] == tl[m] by {
                    assert(ts[i + 1 + m] == w[1 + m]);
                }
            }
            assert(ts.subrange(j + 1, k) =~= tr) by {
                assert forall|m: int| 0 <= m < tr.len() implies ts[j + 1 + m] == tr[m] by {
                    assert(ts[j + 1 + m] == w[j + 1 + m - i]);
                }
            }
            assert(ts[j] == w[j - i]);
            assert(ts[k] == w[k - i]);
            lemma_reparse(ts, i + 1, *l);
            lemma_reparse(ts, j + 1, *r);
            assert(climb(ts, *r, k, next_min(op)) == Ok::<(ExprV, int), (int, ErrorKind)>((*r, k)));
            assert(parse_expr(ts, j + 1, next_min(op)) == Ok::<(ExprV, int), (int, ErrorKind)>(
                (*r, k),
            ));
            assert(climb(ts, e, k, 1) == Ok::<(ExprV, int), (int, ErrorKind)>((e, k)));
            assert(climb(ts, *l, j, 1) == Ok::<(ExprV, int), (int, ErrorKind)>((e, k)));
            assert(parse_expr(ts, i + 1, 1) == Ok::<(ExprV, int), (int, ErrorKind)>((e, k)));
        },
    }
}

/// Reading back the written-out tokens of an expression gives the same
/// expression, and uses up every token.
pub proof fn law_reparse(e: ExprV)
    ensures
        parse_expr(expr_tokens(e), 0, 1) == Ok::<(ExprV, int), (int, ErrorKind)>(
            (e, expr_tokens(e).len() as int),
        ),
{
    let ts = expr_tokens(e);
    assert(ts.subrange(0, ts.len() as int) =~= ts);
    lemma_reparse(ts, 0, e);
    assert(climb(ts, e, ts.len() as int, 1) == Ok::<(ExprV, int), (int, ErrorKind)>(
        (e, ts.len() as int),
    ));
}

} // verus!

verus! {

/// The tokens `a0 o1 a1 ... on an` of operands `atoms` joined by `ops`.
pub open spec fn chain_tokens(atoms: Seq<TokV>, ops: Seq<Op>) -> Seq<TokV> {
    Seq::new(
        2 * ops.len() + 1,
        |k: int| if k % 2 == 0 { atoms[k / 2] } else { TokV::Bin(ops[k / 2]) },
    )
}

/// All of `ops` bind equally strongly and group to the left.
pub open spec fn left_level(ops: Seq<Op>) -> bool {
    forall|k: int|
        0 <= k < ops.len() ==> #[trigger] prec(ops[k]) == prec(ops[0]) && assoc(ops[k])
            == Assoc::Left
}

/// The first `i + 1` operands grouped to the left: `((a0 o1 a1) o2 a2) ...`.
pub open spec fn left_chain(atoms: Seq<TokV>, ops: Seq<Op>, i: nat) -> ExprV
    decreases i,
{
    if i == 0 {
        atom_expr(atoms[0])
    } else {
        bin_expr(ops[i - 1], left_chain(atoms, ops, (i - 1) as nat), atom_expr(atoms[i as int]))
    }
}

/// The operands from `i` on grouped to the right: `ai o(i+1) (a(i+1) ...)`.
pub open spec fn right_chain(atoms: Seq<TokV>, ops: Seq<Op>, i: nat) -> ExprV
    decreases ops.len() - i,
{
    if i >= ops.len() {
        atom_expr(atoms[i as int])
    } else {
        bin_expr(ops[i as int], atom_expr(atoms[i as int]), right_chain(atoms, ops, i + 1))
    }
}

proof fn lemma_left_chain(atoms: Seq<TokV>, ops: Seq<Op>, i: int)
    requires
        atoms.len() == ops.len() + 1,
        forall|k: int| 0 <= k < atoms.len() ==> is_atom(#[trigger] atoms[k]),
        left_level(ops),
        0 <= i <= ops.len(),
    ensures
        climb(chain_tokens(atoms, ops), left_chain(atoms, ops, i as nat), 2 * i + 1, 1) == Ok::<
            (ExprV, int),
            (int, ErrorKind),
        >((left_chain(atoms, ops, ops.len()), 2 * ops.len() + 1 as int)),
    decreases ops.len() - i,
{
    let ts = chain_tokens(atoms, ops);
    let n = ops.len() as int;
    if i < n {
        let op = ops[i];
        let j = 2 * i + 2;
        assert(ts[2 * i + 1] == TokV::Bin(op));
        assert(ts[j] == atoms[i + 1]);
        assert(is_atom(atoms[i + 1]));
        let p = atom_expr(atoms[i + 1]);
        assert(parse_primary(ts, j) == Ok::<(ExprV, int), (int, ErrorKind)>((p, j + 1)));
        if i + 1 < n {
            assert(ts[j + 1] == TokV::Bin(ops[i + 1]));
            assert(prec(ops[i + 1]) == prec(ops[0]));
            assert(prec(op) == prec(ops[0]));
        }
        assert(climb(ts, p, j + 1, next_min(op)) == Ok::<(ExprV, int), (int, ErrorKind)>(
            (p, j + 1),
        ));
        assert(parse_expr(ts, j, next_min(op)) == Ok::<(ExprV, int), (int, ErrorKind)>(
            (p, j + 1),
        ));
        lemma_left_chain(atoms, ops, i + 1);
    }
}

/// A chain of operators of equal strength that group to the left nests to the
/// left: `a0 o1 a1 ... on an` is `((a0 o1 a1) o2 a2) ... on an`.
pub proof fn law_left_chain(atoms: Seq<TokV>, ops: Seq<Op>)
    requires
        atoms.len() == ops.len() + 1,
        forall|k: int| 0 <= k < atoms.len() ==> is_atom(#[trigger] atoms[k]),
        left_level(ops),
    ensures
        parse_expr(chain_tokens(atoms, ops), 0, 1) == Ok::<(ExprV, int), (int, ErrorKind)>(
            (left_chain(atoms, ops, ops.len()), 2 * ops.len() + 1 as int),
        ),
{
    let ts = chain_tokens(atoms, ops);
    assert(ts[0] == atoms[0]);
    assert(is_atom(atoms[0]));
    assert(parse_primary(ts, 0) == Ok::<(ExprV, int), (int, ErrorKind)>(
        (left_chain(atoms, ops, 0), 1),
    ));
    lemma_left_chain(atoms, ops, 0);
}

proof fn lemma_right_chain(atoms: Seq<TokV>, ops: Seq<Op>, i: int, min: nat)
    requires
        atoms.len() == ops.len() + 1,
        forall|k: int| 0 <= k < atoms.len() ==> is_atom(#[trigger] atoms[k]),
        forall|k: int| 0 <= k < ops.len() ==> #[trigger] ops[k] == Op::Pow,
        0 <= i <= ops.len(),
        1 <= min <= 3,
    ensures
        parse_expr(chain_tokens(atoms, ops), 2 * i, min) == Ok::<(ExprV, int), (int, ErrorKind)>(
            (right_chain(atoms, ops, i as nat), 2 * ops.len() + 1 as int),
        ),
    decreases ops.len() - i,
{
    let ts = chain_tokens(atoms, ops);
    let n = ops.len() as int;
    assert(ts[2 * i] == atoms[i]);
    assert(is_atom(atoms[i]));
    let p = atom_expr(atoms[i]);
    assert(parse_primary(ts, 2 * i) == Ok::<(ExprV, int), (int, ErrorKind)>((p, 2 * i + 1)));
    if i < n {
        assert(ts[2 * i + 1] == TokV::Bin(ops[i]));
        lemma_right_chain(atoms, ops, i + 1, 3);
        let all = right_chain(atoms, ops, i as nat);
        assert(climb(ts, all, 2 * n + 1, min) == Ok::<(ExprV, int), (int, ErrorKind)>(
            (all, 2 * n + 1),
        ));
        assert(climb(ts, p, 2 * i + 1, min) == Ok::<(ExprV, int), (int, ErrorKind)>(
            (all, 2 * n + 1),
        ));
    }
}

/// A chain of `^` nests to the right: `a0 ^ a1 ^ ... ^ an` is
/// `a0 ^ (a1 ^ (... ^ an))`.
pub proof fn law_right_chain(atoms: Seq<TokV>, ops: Seq<Op>)
    requires
        atoms.len() == ops.len() + 1,
        forall|k: int| 0 <= k < atoms.len() ==> is_atom(#[trigger] atoms[k]),
        forall|k: int| 0 <= k < ops.len() ==> #[trigger] ops[k] == Op::Pow,
    ensures
        parse_expr(chain_tokens(atoms, ops), 0, 1) == Ok::<(ExprV, int), (int, ErrorKind)>(
            (right_chain(atoms, ops, 0), 2 * ops.len() + 1 as int),
        ),
{
    lemma_right_chain(atoms, ops, 0, 1);
}

} // verus!

verus! {

/// The one-letter keyword of a quantifier kind: `A` for all, `E` exists.
pub open spec fn keyword(q: Quant) -> Seq<char> {
    if q == Quant::Forall {
        seq!['A']
    } else {
        seq!['E']
    }
}

/// Quantifier prefixes `(K x)`, one for each kind and variable of `ps`, in order.
pub open spec fn prefix_tokens(ps: Seq<(Quant, Seq<char>)>) -> Seq<TokV> {
    Seq::new(
        4 * ps.len(),
        |k: int|
            if k % 4 == 0 {
                TokV::LParen
            } else if k % 4 == 1 {
                TokV::Ident(keyword(ps[k / 4].0))
            } else if k % 4 == 2 {
                TokV::Ident(ps[k / 4].1)
            } else {
                TokV::RParen
            },
    )
}

/// `f` under the quantifiers of `ps` from index `i` on, the first outermost.
pub open spec fn wrap(ps: Seq<(Quant, Seq<char>)>, i: int, f: FmlV) -> FmlV
    decreases ps.len() - i,
{
    if i < 0 || i >= ps.len() {
        f
    } else {
        FmlV::Quant { quant: ps[i].0, var: ps[i].1, inner: Box::new(wrap(ps, i + 1, f)) }
    }
}

/// Every kind in `ps` can be written as a prefix.
pub open spec fn writable(ps: Seq<(Quant, Seq<char>)>) -> bool {
    forall|k: int| 0 <= k < ps.len() ==> (#[trigger] ps[k]).0 is Forall || ps[k].0 is Exists
}

proof fn lemma_prefixes(ts: Seq<TokV>, ps: Seq<(Quant, Seq<char>)>, i: int, f: FmlV, j: int)
    requires
        writable(ps),
        4 * ps.len() <= ts.len(),
        ts.subrange(0, 4 * ps.len() as int) == prefix_tokens(ps),
        parse_fml(ts, 4 * ps.len() as int) == Ok::<(FmlV, int), (int, ErrorKind)>((f, j)),
        0 <= i <= ps.len(),
    ensures
        parse_fml(ts, 4 * i) == Ok::<(FmlV, int), (int, ErrorKind)>((wrap(ps, i, f), j)),
    decreases ps.len() - i,
{
    if i < ps.len() {
        let w = prefix_tokens(ps);
        assert(ts[4 * i] == w[4 * i]);
        assert(ts[4 * i + 1] == w[4 * i + 1]);
        assert(ts[4 * i + 2] == w[4 * i + 2]);
        assert(ts[4 * i + 3] == w[4 * i + 3]);
        assert((4 * i + 1) / 4 == i);
        assert((4 * i + 2) / 4 == i);
        let q = ps[i].0;
        assert(quant_of(keyword(q)) == Some(q));
        assert(quant_prefix(ts, 4 * i) == Some((q, ps[i].1)));
        lemma_prefixes(ts, ps, i + 1, f, j);
    }
}

/// Any number of quantifier prefixes nest in source order: the first one
/// written is the outermost node, and the formula after them is the body.
pub proof fn law_prefix_chain(ts: Seq<TokV>, ps: Seq<(Quant, Seq<char>)>, f: FmlV, j: int)
    requires
        writable(ps),
        4 * ps.len() <= ts.len(),
        ts.subrange(0, 4 * ps.len() as int) == prefix_tokens(ps),
        parse_fml(ts, 4 * ps.len() as int) == Ok::<(FmlV, int), (int, ErrorKind)>((f, j)),
    ensures
        parse_fml(ts, 0) == Ok::<(FmlV, int), (int, ErrorKind)>((wrap(ps, 0, f), j)),
{
    lemma_prefixes(ts, ps, 0, f, j);
}

} // verus!

verus! {

/// An expression reducer's outcome with every token index moved by `d`.
pub open spec fn shift_e(r: Result<(ExprV, int), (int, ErrorKind)>, d: int) -> Result<
    (ExprV, int),
    (int, ErrorKind),
> {
    match r {
        Ok((e, j)) => Ok((e, j + d)),
        Err((p, k)) => Err((p + d, k)),
    }
}

/// A formula reducer's outcome with every token index moved by `d`.
pub open spec fn shift_f(r: Result<(FmlV, int), (int, ErrorKind)>, d: int) -> Result<
    (FmlV, int),
    (int, ErrorKind),
> {
    match r {
        Ok((f, j)) => Ok((f, j + d)),
        Err((p, k)) => Err((p + d, k)),
    }
}

proof fn lemma_shift_expr(pre: Seq<TokV>, ts: Seq<TokV>, i: int, min: nat)
    requires
        0 <= i,
    ensures
        parse_expr(pre + ts, pre.len() + i, min) == shift_e(parse_expr(ts, i, min), pre.len() as int),
    decreases ts.len() - i, 1int,
{
    if i < ts.len() {
        lemma_shift_primary(pre, ts, i);
        match parse_primary(ts, i) {
            Ok((lhs, j)) => if i < j <= ts.len() {
                lemma_shift_climb(pre, ts, lhs, j, min);
            },
            Err(_) => {},
        }
    }
}

proof fn lemma_shift_primary(pre: Seq<TokV>, ts: Seq<TokV>, i: int)
    requires
        0 <= i,
    ensures
        parse_primary(pre + ts, pre.len() + i) == shift_e(parse_primary(ts, i), pre.len() as int),
    decreases ts.len() - i, 0int,
{
    let d = pre.len() as int;
    if i < ts.len() {
        assert((pre + ts)[d + i] == ts[i]);
        if ts[i] is LParen {
            lemma_shift_expr(pre, ts, i + 1, 1);
            match parse_expr(ts, i + 1, 1) {
                Ok((e, j)) => if i < j < ts.len() {
                    assert((pre + ts)[d + j] == ts[j]);
                },
                Err(_) => {},
            }
        }
    }
}

proof fn lemma_shift_climb(pre: Seq<TokV>, ts: Seq<TokV>, lhs: ExprV, i: int, min: nat)
    requires
        0 <= i,
    ensures
        climb(pre + ts, lhs, pre.len() + i, min) == shift_e(climb(ts, lhs, i, min), pre.len() as int),
    decreases ts.len() - i, 2int,
{
    let d = pre.len() as int;
    if i < ts.len() {
        assert((pre + ts)[d + i] == ts[i]);
    }
    assert(bin_at(pre + ts, d + i) == bin_at(ts, i));
    match bin_at(ts, i) {
        Some(op) => if prec(op) >= min {
            lemma_shift_expr(pre, ts, i + 1, next_min(op));
            match parse_expr(ts, i + 1, next_min(op)) {
                Ok((rhs, j)) => if i < j <= ts.len() {
                    lemma_shift_climb(
                        pre,
                        ts,
                        ExprV::Op { op, l: Box::new(lhs), r: Box::new(rhs) },
                        j,
                        min,
                    );
                },
                Err(_) => {},
            }
        },
        None => {},
    }
}

proof fn lemma_climb_advances(ts: Seq<TokV>, lhs: ExprV, i: int, min: nat)
    ensures
        climb(ts, lhs, i, min) is Ok ==> (climb(ts, lhs, i, min)->Ok_0).1 >= i,
    decreases ts.len() - i,
{
    match bin_at(ts, i) {
        Some(op) => if prec(op) >= min {
            match parse_expr(ts, i + 1, next_min(op)) {
                Ok((rhs, j)) => if i < j <= ts.len() {
                    lemma_climb_advances(
                        ts,
                        ExprV::Op { op, l: Box::new(lhs), r: Box::new(rhs) },
                        j,
                        min,
                    );
                },
                Err(_) => {},
            }
        },
        None => {},
    }
}

proof fn lemma_shift_fml(pre: Seq<TokV>, ts: Seq<TokV>, i: int)
    requires
        0 <= i,
    ensures
        parse_fml(pre + ts, pre.len() + i) == shift_f(parse_fml(ts, i), pre.len() as int),
    decreases ts.len() - i,
{
    let d = pre.len() as int;
    let all = pre + ts;
    if i + 3 < ts.len() {
        assert(all[d + i] == ts[i]);
        assert(all[d + i + 1] == ts[i + 1]);
        assert(all[d + i + 2] == ts[i + 2]);
        assert(all[d + i + 3] == ts[i + 3]);
    }
    assert(quant_prefix(all, d + i) == quant_prefix(ts, i));
    match quant_prefix(ts, i) {
        Some(_) => {
            lemma_shift_fml(pre, ts, i + 4);
        },
        None => {
            lemma_shift_expr(pre, ts, i, 1);
            match parse_expr(ts, i, 1) {
                Ok((l, j)) => {
                    match parse_primary(ts, i) {
                        Ok((lhs, j0)) => lemma_climb_advances(ts, lhs, j0, 1),
                        Err(_) => {},
                    }
                    if 0 <= j < ts.len() {
                        assert(all[d + j] == ts[j]);
                    }
                    assert(rel_at(all, d + j) == rel_at(ts, j));
                    if rel_at(ts, j) is Some {
                        lemma_shift_expr(pre, ts, j + 1, 1);
                    }
                },
                Err(_) => {},
            }
        },
    }
}

/// Putting one quantifier prefix `(K x)` before a formula's tokens binds `x`
/// over exactly that formula; where the formula is rejected, the error is the
/// same, four tokens later.
pub proof fn law_one_more_prefix(q: Quant, x: Seq<char>, ts: Seq<TokV>)
    requires
        q is Forall || q is Exists,
    ensures
        parse_tokens(prefix_tokens(seq![(q, x)]) + ts) == match parse_tokens(ts) {
            Ok(f) => Ok::<FmlV, (int, ErrorKind)>(FmlV::Quant { quant: q, var: x, inner: Box::new(f) }),
            Err((p, k)) => Err((p + 4, k)),
        },
{
    let pre = prefix_tokens(seq![(q, x)]);
    let all = pre + ts;
    assert(pre.len() == 4);
    assert(all[0] == pre[0]);
    assert(all[1] == pre[1]);
    assert(all[2] == pre[2]);
    assert(all[3] == pre[3]);
    assert(1int / 4 == 0 && 2int / 4 == 0);
    assert(quant_of(keyword(q)) == Some(q));
    assert(quant_prefix(all, 0) == Some((q, x)));
    lemma_shift_fml(pre, ts, 0);
}

} // verus!

verus! {

/// A lexer's outcome with every character offset moved by `d`.
pub open spec fn shift_lex(r: Result<Seq<(TokV, int)>, (int, ErrorKind)>, d: int) -> Result<
    Seq<(TokV, int)>,
    (int, ErrorKind),
> {
    match r {
        Ok(lx) => Ok(lx.map_values(|p: (TokV, int)| (p.0, p.1 + d))),
        Err((p, k)) => Err((p + d, k)),
    }
}

proof fn lemma_shift_digits_end(pre: Seq<char>, cs: Seq<char>, i: int)
    requires
        0 <= i,
    ensures
        digits_end(pre + cs, pre.len() + i) == pre.len() + digits_end(cs, i),
    decreases cs.len() - i,
{
    if i < cs.len() {
        assert((pre + cs)[pre.len() + i] == cs[i]);
        lemma_shift_digits_end(pre, cs, i + 1);
    }
}

proof fn lemma_shift_ident_end(pre: Seq<char>, cs: Seq<char>, i: int)
    requires
        0 <= i,
    ensures
        ident_end(pre + cs, pre.len() + i) == pre.len() + ident_end(cs, i),
    decreases cs.len() - i,
{
    if i < cs.len() {
        assert((pre + cs)[pre.len() + i] == cs[i]);
        lemma_shift_ident_end(pre, cs, i + 1);
    }
}

proof fn lemma_shift_token(pre: Seq<char>, cs: Seq<char>, i: int)
    requires
        0 <= i < cs.len(),
    ensures
        token_at(pre + cs, pre.len() + i) == match token_at(cs, i) {
            Ok((t, j)) => Ok::<(TokV, int), (int, ErrorKind)>((t, j + pre.len())),
            Err((p, k)) => Err((p + pre.len(), k)),
        },
{
    let d = pre.len() as int;
    let all = pre + cs;
    assert(all[d + i] == cs[i]);
    if i + 1 < cs.len() {
        assert(all[d + i + 1] == cs[i + 1]);
    }
    lemma_shift_digits_end(pre, cs, i);
    lemma_shift_ident_end(pre, cs, i);
    crate::lexer::lemma_digits_end_bounds(cs, i);
    crate::lexer::lemma_ident_end_bounds(cs, i);
    assert(all.subrange(d + i, d + digits_end(cs, i)) =~= cs.subrange(i, digits_end(cs, i)));
    assert(all.subrange(d + i, d + ident_end(cs, i)) =~= cs.subrange(i, ident_end(cs, i)));
}

proof fn lemma_shift_lex(pre: Seq<char>, cs: Seq<char>, i: int)
    requires
        0 <= i,
    ensures
        lex_from(pre + cs, pre.len() + i) == shift_lex(lex_from(cs, i), pre.len() as int),
    decreases cs.len() - i,
{
    let d = pre.len() as int;
    let all = pre + cs;
    if i >= cs.len() {
        assert(Seq::<(TokV, int)>::empty().map_values(|p: (TokV, int)| (p.0, p.1 + d))
            =~= Seq::<(TokV, int)>::empty());
    } else {
        assert(all[d + i] == cs[i]);
        if is_space(cs[i]) {
            lemma_shift_lex(pre, cs, i + 1);
        } else {
            lemma_shift_token(pre, cs, i);
            match token_at(cs, i) {
                Ok((t, j)) => if i < j <= cs.len() {
                    lemma_shift_lex(pre, cs, j);
                    match lex_from(cs, j) {
                        Ok(rest) => {
                            assert(seq![(t, d + i)] + rest.map_values(
                                |p: (TokV, int)| (p.0, p.1 + d),
                            ) =~= (seq![(t, i)] + rest).map_values(
                                |p: (TokV, int)| (p.0, p.1 + d),
                            ));
                        },
                        Err(_) => {},
                    }
                },
                Err(_) => {},
            }
        }
    }
}

} // verus!

verus! {

/// The text `(K v) `: a quantifier prefix and one blank.
pub open spec fn prefix_text(q: Quant, v: Seq<char>) -> Seq<char> {
    seq!['('] + keyword(q) + seq![' '] + v + seq![')', ' ']
}

/// `v` can be written as a variable: a letter, then letters, digits or `_`.
pub open spec fn is_name(v: Seq<char>) -> bool {
    &&& v.len() >= 1
    &&& is_alpha(v[0])
    &&& forall|m: int| 0 <= m < v.len() ==> is_ident_char(#[trigger] v[m])
}

proof fn lemma_name_end(cs: Seq<char>, v: Seq<char>, m: int)
    requires
        is_name(v),
        3 + v.len() < cs.len(),
        cs.subrange(3, 3 + v.len() as int) == v,
        cs[3 + v.len() as int] == ')',
        0 <= m <= v.len(),
    ensures
        ident_end(cs, 3 + m) == 3 + v.len(),
    decreases v.len() - m,
{
    if m < v.len() {
        assert(cs[3 + m] == v[m]);
        lemma_name_end(cs, v, m + 1);
    }
}

/// Writing `(A v) ` or `(E v) ` before an accepted formula text binds `v` over
/// exactly the formula that the text stood for.
pub proof fn law_prefix_text(q: Quant, v: Seq<char>, s: Seq<char>)
    requires
        q is Forall || q is Exists,
        is_name(v),
        parse_text(s) is Ok,
    ensures
        parse_text(prefix_text(q, v) + s) == Ok::<FmlV, (int, ErrorKind)>(
            FmlV::Quant { quant: q, var: v, inner: Box::new(parse_text(s)->Ok_0) },
        ),
{
    let pre = prefix_text(q, v);
    let all = pre + s;
    let n = v.len() as int;
    let d = n + 5;
    assert(pre.len() == d);
    assert(forall|m: int| 0 <= m < d ==> all[m] == #[trigger] pre[m]);
    assert(all[0] == '(');
    assert(all[1] == keyword(q)[0]);
    assert(all[2] == ' ');
    assert(all[3 + n] == ')');
    assert(all[4 + n] == ' ');
    assert(all.subrange(3, 3 + n) =~= v) by {
        assert forall|m: int| 0 <= m < n implies all[3 + m] == v[m] by {
            assert(pre[3 + m] == v[m]);
        }
    }
    assert(all.subrange(1, 2) =~= keyword(q));
    lemma_name_end(all, v, 0);
    assert(ident_end(all, 2) == 2);
    assert(ident_end(all, 1) == 2);
    lemma_shift_lex(pre, s, 0);
    let ls = lex_from(s, 0)->Ok_0;
    let shifted = ls.map_values(|p: (TokV, int)| (p.0, p.1 + d));
    let t3 = (TokV::RParen, 3 + n);
    let t2 = (TokV::Ident(v), 3int);
    let t1 = (TokV::Ident(keyword(q)), 1int);
    let t0 = (TokV::LParen, 0int);
    assert(lex_from(all, d) == Ok::<Seq<(TokV, int)>, (int, ErrorKind)>(shifted));
    assert(lex_from(all, 4 + n) == Ok::<Seq<(TokV, int)>, (int, ErrorKind)>(shifted));
    assert(lex_from(all, 3 + n) == Ok::<Seq<(TokV, int)>, (int, ErrorKind)>(
        seq![t3] + shifted,
    ));
    assert(token_at(all, 3) == Ok::<(TokV, int), (int, ErrorKind)>((TokV::Ident(v), 3 + n)));
    assert(seq![t2] + (seq![t3] + shifted) =~= seq![t2, t3] + shifted);
    assert(lex_from(all, 3) == Ok::<Seq<(TokV, int)>, (int, ErrorKind)>(
        seq![t2, t3] + shifted,
    ));
    assert(lex_from(all, 2) == Ok::<Seq<(TokV, int)>, (int, ErrorKind)>(
        seq![t2, t3] + shifted,
    ));
    assert(token_at(all, 1) == Ok::<(TokV, int), (int, ErrorKind)>((TokV::Ident(keyword(q)), 2)));
    assert(seq![t1] + (seq![t2, t3] + shifted) =~= seq![t1, t2, t3] + shifted);
    assert(lex_from(all, 1) == Ok::<Seq<(TokV, int)>, (int, ErrorKind)>(
        seq![t1, t2, t3] + shifted,
    ));
    assert(seq![t0] + (seq![t1, t2, t3] + shifted) =~= seq![t0, t1, t2, t3] + shifted);
    assert(lex_from(all, 0) == Ok::<Seq<(TokV, int)>, (int, ErrorKind)>(
        seq![t0, t1, t2, t3] + shifted,
    ));
    let lx = seq![t0, t1, t2, t3] + shifted;
    let ts = ls.map_values(|p: (TokV, int)| p.0);
    let pt = prefix_tokens(seq![(q, v)]);
    assert(1int / 4 == 0 && 2int / 4 == 0 && 3int / 4 == 0);
    assert(pt =~= seq![TokV::LParen, TokV::Ident(keyword(q)), TokV::Ident(v), TokV::RParen]);
    assert(lx.map_values(|p: (TokV, int)| p.0) =~= pt + ts);
    law_one_more_prefix(q, v, ts);
}

} // verus!
