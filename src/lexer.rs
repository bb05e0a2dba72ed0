use vstd::prelude::*;
use vstd::string::StrSliceExecFns;
use crate::error::ErrorKind;
use crate::syntax::{Comp, Op};

verus! {

/// A lexical token of the formula language.
#[derive(Debug, PartialEq, Eq)]
pub enum Tok {
    Num(i64),
    Ident(String),
    LParen,
    RParen,
    Bin(Op),
    Rel(Comp),
}

/// Model of a token: identifiers as character sequences.
pub enum TokV {
    Num(i64),
    Ident(Seq<char>),
    LParen,
    RParen,
    Bin(Op),
    Rel(Comp),
}

impl View for Tok {
    type V = TokV;

    open spec fn view(&self) -> TokV {
        match self {
            Tok::Num(n) => TokV::Num(*n),
            Tok::Ident(s) => TokV::Ident(s@),
            Tok::LParen => TokV::LParen,
            Tok::RParen => TokV::RParen,
            Tok::Bin(o) => TokV::Bin(*o),
            Tok::Rel(c) => TokV::Rel(*c),
        }
    }
}

/// Blanks between tokens.
pub open spec fn is_space(c: char) -> bool {
    c == ' ' || c == '\t' || c == '\n' || c == '\r'
}

/// Decimal digits.
pub open spec fn is_digit(c: char) -> bool {
    '0' <= c && c <= '9'
}

/// ASCII letters, which start identifiers.
pub open spec fn is_alpha(c: char) -> bool {
    ('a' <= c && c <= 'z') || ('A' <= c && c <= 'Z')
}

/// Characters that may continue an identifier.
pub open spec fn is_ident_char(c: char) -> bool {
    is_alpha(c) || is_digit(c) || c == '_'
}

/// The value of a decimal digit.
pub open spec fn digit_value(c: char) -> int {
    (c as u32) as int - ('0' as u32) as int
}

/// The value of a sequence of decimal digits.
pub open spec fn digits_value(s: Seq<char>) -> int
    decreases s.len(),
{
    if s.len() == 0 {
        0
    } else {
        10 * digits_value(s.drop_last()) + digit_value(s.last())
    }
}

/// The end of the run of digits that starts at `i`.
pub open spec fn digits_end(cs: Seq<char>, i: int) -> int
    decreases cs.len() - i,
{
    if 0 <= i < cs.len() && is_digit(cs[i]) {
        digits_end(cs, i + 1)
    } else {
        i
    }
}

/// The end of the run of identifier characters that starts at `i`.
pub open spec fn ident_end(cs: Seq<char>, i: int) -> int
    decreases cs.len() - i,
{
    if 0 <= i < cs.len() && is_ident_char(cs[i]) {
        ident_end(cs, i + 1)
    } else {
        i
    }
}

/// `cs[i]` followed by `=`.
pub open spec fn followed_by_eq(cs: Seq<char>, i: int) -> bool {
    cs.len() - i > 1 && cs[i + 1] == '='
}

/// The token that starts at the non-blank character `cs[i]`, and where it ends;
/// or the offset and kind of the lexical error there.
pub open spec fn token_at(cs: Seq<char>, i: int) -> Result<(TokV, int), (int, ErrorKind)> {
    let c = cs[i];
    if is_digit(c) {
        let j = digits_end(cs, i);
        let v = digits_value(cs.subrange(i, j));
        if v <= i64::MAX {
            Ok((TokV::Num(v as i64), j))
        } else {
            Err((i, ErrorKind::NumberTooLarge))
        }
    } else if is_alpha(c) {
        let j = ident_end(cs, i);
        Ok((TokV::Ident(cs.subrange(i, j)), j))
    } else if c == '(' {
        Ok((TokV::LParen, i + 1))
    } else if c == ')' {
        Ok((TokV::RParen, i + 1))
    } else if c == '+' {
        Ok((TokV::Bin(Op::Add), i + 1))
    } else if c == '-' {
        Ok((TokV::Bin(Op::Sub), i + 1))
    } else if c == '*' {
        Ok((TokV::Bin(Op::Mul), i + 1))
    } else if c == '^' {
        Ok((TokV::Bin(Op::Pow), i + 1))
    } else if c == '=' {
        Ok((TokV::Rel(Comp::Eq), i + 1))
    } else if c == '/' && followed_by_eq(cs, i) {
        Ok((TokV::Rel(Comp::Ne), i + 2))
    } else if c == '<' {
        if followed_by_eq(cs, i) {
            Ok((TokV::Rel(Comp::Le), i + 2))
        } else {
            Ok((TokV::Rel(Comp::Lt), i + 1))
        }
    } else if c == '>' {
        if followed_by_eq(cs, i) {
            Ok((TokV::Rel(Comp::Ge), i + 2))
        } else {
            Ok((TokV::Rel(Comp::Gt), i + 1))
        }
    } else {
        Err((i, ErrorKind::UnexpectedChar))
    }
}

/// The tokens of `cs` from offset `i` on, each with the offset where it starts;
/// or the first lexical error.
pub open spec fn lex_from(cs: Seq<char>, i: int) -> Result<Seq<(TokV, int)>, (int, ErrorKind)>
    decreases cs.len() - i,
{
    if i < 0 || i >= cs.len() {
        Ok(Seq::empty())
    } else if is_space(cs[i]) {
        lex_from(cs, i + 1)
    } else {
        match token_at(cs, i) {
            Err(e) => Err(e),
            Ok((t, j)) => if i < j <= cs.len() {
                match lex_from(cs, j) {
                    Ok(rest) => Ok(seq![(t, i)] + rest),
                    Err(e) => Err(e),
                }
            } else {
                Err((i, ErrorKind::UnexpectedChar))
            },
        }
    }
}

/// The tokens paired with their offsets.
pub open spec fn lexed(toks: Seq<Tok>, offs: Seq<usize>) -> Seq<(TokV, int)> {
    Seq::new(toks.len(), |k: int| (toks[k]@, offs[k] as int))
}

pub proof fn lemma_digits_end_bounds(cs: Seq<char>, i: int)
    requires
        0 <= i <= cs.len(),
    ensures
        i <= digits_end(cs, i) <= cs.len(),
        forall|k: int| i <= k < digits_end(cs, i) ==> is_digit(#[trigger] cs[k]),
    decreases cs.len() - i,
{
    if i < cs.len() && is_digit(cs[i]) {
        lemma_digits_end_bounds(cs, i + 1);
    }
}

proof fn lemma_digits_value_mono(cs: Seq<char>, i: int, k: int, j: int)
    requires
        0 <= i <= k <= j <= cs.len(),
        forall|m: int| i <= m < j ==> is_digit(#[trigger] cs[m]),
    ensures
        0 <= digits_value(cs.subrange(i, k)) <= digits_value(cs.subrange(i, j)),
    decreases j - i,
{
    if j > i {
        assert(cs.subrange(i, j).drop_last() =~= cs.subrange(i, j - 1));
        if k < j {
            lemma_digits_value_mono(cs, i, k, j - 1);
        } else {
            lemma_digits_value_mono(cs, i, k - 1, k - 1);
        }
    }
}

/// Reads the integer literal at `cs[i]`, a digit: its value and its end, or
/// `None` where the value does not fit in `i64`.
fn lex_number(cs: &Vec<char>, i: usize) -> (r: Option<(i64, usize)>)
    requires
        i < cs@.len(),
        is_digit(cs@[i as int]),
    ensures
        r is Some ==> (r->0).1 == digits_end(cs@, i as int) && (r->0).0 as int == digits_value(
            cs@.subrange(i as int, (r->0).1 as int),
        ),
        r is None ==> digits_value(cs@.subrange(i as int, digits_end(cs@, i as int))) > i64::MAX,
{
    proof {
        lemma_digits_end_bounds(cs@, i as int);
    }
    let ghost end = digits_end(cs@, i as int);
    let mut j: usize = i;
    let mut v: i64 = 0;
    while j < cs.len() && '0' <= cs[j] && cs[j] <= '9'
        invariant
            i <= j <= end <= cs@.len(),
            digits_end(cs@, j as int) == end,
            end == digits_end(cs@, i as int),
            forall|k: int| i <= k < end ==> is_digit(#[trigger] cs@[k]),
            v as int == digits_value(cs@.subrange(i as int, j as int)),
        decreases cs@.len() - j,
    {
        let d: i64 = (cs[j] as u32 - '0' as u32) as i64;
        proof {
            lemma_digits_end_bounds(cs@, j + 1);
        }
        assert(cs@.subrange(i as int, j + 1).drop_last() =~= cs@.subrange(i as int, j as int));
        assert(digits_value(cs@.subrange(i as int, j + 1)) == 10 * v + d);
        proof {
            lemma_digits_value_mono(cs@, i as int, j as int, end);
        }
        if v > (i64::MAX - d) / 10 {
            assert(10 * v + d > i64::MAX) by (nonlinear_arith)
                requires
                    v > (i64::MAX - d) / 10,
                    0 <= d <= 9,
            ;
            proof {
                lemma_digits_value_mono(cs@, i as int, j + 1, end);
            }
            return None;
        }
        assert(10 * v + d <= i64::MAX) by (nonlinear_arith)
            requires
                v <= (i64::MAX - d) / 10,
                0 <= d <= 9,
        ;
        v = 10 * v + d;
        j = j + 1;
    }
    Some((v, j))
}

} // verus!

verus! {

pub proof fn lemma_ident_end_bounds(cs: Seq<char>, i: int)
    requires
        0 <= i <= cs.len(),
    ensures
        i <= ident_end(cs, i) <= cs.len(),
    decreases cs.len() - i,
{
    if i < cs.len() && is_ident_char(cs[i]) {
        lemma_ident_end_bounds(cs, i + 1);
    }
}

/// The characters of `s`, one by one.
pub fn chars_of(s: &str) -> (cs: Vec<char>)
    ensures
        cs@ == s@,
{
    let mut cs: Vec<char> = Vec::new();
    for c in it: s.chars()
        invariant
            cs@.len() == it.index(),
            forall|k: int| 0 <= k < cs@.len() ==> cs@[k] == it.seq()[k],
    {
        cs.push(c);
    }
    assert(cs@ =~= s@);
    cs
}

fn is_ident_char_exec(c: char) -> (r: bool)
    ensures
        r == is_ident_char(c),
{
    ('a' <= c && c <= 'z') || ('A' <= c && c <= 'Z') || ('0' <= c && c <= '9') || c == '_'
}

fn eq_follows(cs: &Vec<char>, i: usize) -> (r: bool)
    requires
        i < cs@.len(),
    ensures
        r == followed_by_eq(cs@, i as int),
{
    cs.len() - i > 1 && cs[i + 1] == '='
}

/// The token that starts at `cs[i]`, a non-blank character of `s`.
fn next_token(s: &str, cs: &Vec<char>, i: usize) -> (r: Result<(Tok, usize), (usize, ErrorKind)>)
    requires
        cs@ == s@,
        i < cs@.len(),
    ensures
        match token_at(cs@, i as int) {
            Ok((t, j)) => r is Ok && (r->Ok_0).0@ == t && (r->Ok_0).1 == j && i < j <= cs@.len(),
            Err((p, k)) => r is Err && (r->Err_0).0 == p && (r->Err_0).1 == k,
        },
{
    let n: usize = cs.len();
    let c = cs[i];
    if '0' <= c && c <= '9' {
        proof {
            lemma_digits_end_bounds(cs@, i as int);
            assert(digits_end(cs@, i as int) == digits_end(cs@, i + 1));
            lemma_digits_end_bounds(cs@, i + 1);
        }
        match lex_number(cs, i) {
            Some((v, j)) => Ok((Tok::Num(v), j)),
            None => Err((i, ErrorKind::NumberTooLarge)),
        }
    } else if ('a' <= c && c <= 'z') || ('A' <= c && c <= 'Z') {
        let mut j: usize = i + 1;
        proof {
            assert(ident_end(cs@, i as int) == ident_end(cs@, i + 1));
            lemma_ident_end_bounds(cs@, i + 1);
        }
        while j < cs.len() && is_ident_char_exec(cs[j])
            invariant
                i < j <= cs@.len(),
                ident_end(cs@, j as int) == ident_end(cs@, i as int),
            decreases cs@.len() - j,
        {
            j = j + 1;
        }
        let name = s.substring_char(i, j).to_owned();
        Ok((Tok::Ident(name), j))
    } else if c == '(' {
        Ok((Tok::LParen, i + 1))
    } else if c == ')' {
        Ok((Tok::RParen, i + 1))
    } else if c == '+' {
        Ok((Tok::Bin(Op::Add), i + 1))
    } else if c == '-' {
        Ok((Tok::Bin(Op::Sub), i + 1))
    } else if c == '*' {
        Ok((Tok::Bin(Op::Mul), i + 1))
    } else if c == '^' {
        Ok((Tok::Bin(Op::Pow), i + 1))
    } else if c == '=' {
        Ok((Tok::Rel(Comp::Eq), i + 1))
    } else if c == '/' && eq_follows(cs, i) {
        Ok((Tok::Rel(Comp::Ne), i + 2))
    } else if c == '<' {
        if eq_follows(cs, i) {
            Ok((Tok::Rel(Comp::Le), i + 2))
        } else {
            Ok((Tok::Rel(Comp::Lt), i + 1))
        }
    } else if c == '>' {
        if eq_follows(cs, i) {
            Ok((Tok::Rel(Comp::Ge), i + 2))
        } else {
            Ok((Tok::Rel(Comp::Gt), i + 1))
        }
    } else {
        Err((i, ErrorKind::UnexpectedChar))
    }
}

/// `acc` followed by the outcome `rest` of lexing what comes after it.
pub open spec fn after(
    acc: Seq<(TokV, int)>,
    rest: Result<Seq<(TokV, int)>, (int, ErrorKind)>,
) -> Result<Seq<(TokV, int)>, (int, ErrorKind)> {
    match rest {
        Ok(ts) => Ok(acc + ts),
        Err(e) => Err(e),
    }
}

/// Splits the characters `cs` of `s` into tokens, each with the offset where
/// it starts; blanks separate tokens and are dropped.
pub fn tokenize(s: &str, cs: &Vec<char>) -> (r: Result<(Vec<Tok>, Vec<usize>), (usize, ErrorKind)>)
    requires
        cs@ == s@,
    ensures
        match lex_from(cs@, 0) {
            Ok(ts) => r is Ok && (r->Ok_0).0@.len() == (r->Ok_0).1@.len() && lexed(
                (r->Ok_0).0@,
                (r->Ok_0).1@,
            ) == ts,
            Err((p, k)) => r is Err && (r->Err_0).0 == p && (r->Err_0).1 == k,
        },
{
    let mut toks: Vec<Tok> = Vec::new();
    let mut offs: Vec<usize> = Vec::new();
    let mut i: usize = 0;
    assert(lexed(toks@, offs@) =~= Seq::<(TokV, int)>::empty());
    assert(after(Seq::empty(), lex_from(cs@, 0)) == lex_from(cs@, 0)) by {
        match lex_from(cs@, 0) {
            Ok(ts) => assert(Seq::<(TokV, int)>::empty() + ts =~= ts),
            Err(e) => {},
        }
    }
    while i < cs.len()
        invariant
            cs@ == s@,
            i <= cs@.len(),
            toks@.len() == offs@.len(),
            after(lexed(toks@, offs@), lex_from(cs@, i as int)) == lex_from(cs@, 0),
        decreases cs@.len() - i,
    {
        let c = cs[i];
        if c == ' ' || c == '\t' || c == '\n' || c == '\r' {
            i = i + 1;
        } else {
            match next_token(s, cs, i) {
                Err(e) => {
                    return Err(e);
                },
                Ok((t, j)) => {
                    let ghost acc = lexed(toks@, offs@);
                    let ghost x = (t@, i as int);
                    toks.push(t);
                    offs.push(i);
                    assert(lexed(toks@, offs@) =~= acc.push(x));
                    proof {
                        match lex_from(cs@, j as int) {
                            Ok(rest) => {
                                assert(acc + (seq![x] + rest) =~= acc.push(x) + rest);
                            },
                            Err(e) => {},
                        }
                    }
                    i = j;
                },
            }
        }
    }
    Ok((toks, offs))
}

} // verus!
