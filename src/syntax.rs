use vstd::prelude::*;

verus! {

/// Binary arithmetic operators.
#[derive(Debug, Clone, Copy, PartialEq, Eq, Structural)]
pub enum Op {
    Add,
    Sub,
    Mul,
    Pow,
}

/// Comparison relations between two arithmetic expressions.
#[derive(Debug, Clone, Copy, PartialEq, Eq, Structural)]
pub enum Comp {
    Eq,
    Ne,
    Lt,
    Gt,
    Le,
    Ge,
}

/// Quantifier kinds. `ExistsN(n)` reads "there exist exactly `n` values".
#[derive(Debug, Clone, Copy, PartialEq, Eq, Structural)]
pub enum Quant {
    Exists,
    Forall,
    ExistsN(u32),
}

/// Arithmetic expression tree.
#[derive(Debug, PartialEq, Eq)]
pub enum Expr {
    Num(i64),
    Var(String),
    Op { op: Op, l: Box<Expr>, r: Box<Expr> },
}

/// Formula tree: a comparison, or a quantifier over an inner formula.
#[derive(Debug, PartialEq, Eq)]
pub enum Fml {
    Prim { comp: Comp, l: Expr, r: Expr },
    Quant { quant: Quant, var: String, inner: Box<Fml> },
}

/// Mathematical model of an `Expr`: names are character sequences.
pub enum ExprV {
    Num(i64),
    Var(Seq<char>),
    Op { op: Op, l: Box<ExprV>, r: Box<ExprV> },
}

/// Mathematical model of a `Fml`.
pub enum FmlV {
    Prim { comp: Comp, l: ExprV, r: ExprV },
    Quant { quant: Quant, var: Seq<char>, inner: Box<FmlV> },
}

pub open spec fn expr_view(e: Expr) -> ExprV
    decreases e,
{
    match e {
        Expr::Num(n) => ExprV::Num(n),
        Expr::Var(s) => ExprV::Var(s@),
        Expr::Op { op, l, r } => ExprV::Op {
            op,
            l: Box::new(expr_view(*l)),
            r: Box::new(expr_view(*r)),
        },
    }
}

pub open spec fn fml_view(f: Fml) -> FmlV
    decreases f,
{
    match f {
        Fml::Prim { comp, l, r } => FmlV::Prim { comp, l: expr_view(l), r: expr_view(r) },
        Fml::Quant { quant, var, inner } => FmlV::Quant {
            quant,
            var: var@,
            inner: Box::new(fml_view(*inner)),
        },
    }
}

impl View for Expr {
    type V = ExprV;

    open spec fn view(&self) -> ExprV {
        expr_view(*self)
    }
}

impl View for Fml {
    type V = FmlV;

    open spec fn view(&self) -> FmlV {
        fml_view(*self)
    }
}

/// A deep copy of an expression.
fn copy_expr(e: &Expr) -> (r: Expr)
    ensures
        r@ == e@,
    decreases e,
{
    match e {
        Expr::Num(n) => Expr::Num(*n),
        Expr::Var(x) => Expr::Var(x.clone()),
        Expr::Op { op, l, r } => Expr::Op {
            op: *op,
            l: Box::new(copy_expr(l)),
            r: Box::new(copy_expr(r)),
        },
    }
}

/// A deep copy of a formula.
fn copy_fml(f: &Fml) -> (r: Fml)
    ensures
        r@ == f@,
    decreases f,
{
    match f {
        Fml::Prim { comp, l, r } => Fml::Prim { comp: *comp, l: copy_expr(l), r: copy_expr(r) },
        Fml::Quant { quant, var, inner } => Fml::Quant {
            quant: *quant,
            var: var.clone(),
            inner: Box::new(copy_fml(inner)),
        },
    }
}

impl Clone for Expr {
    fn clone(&self) -> (r: Self)
        ensures
            r@ == self@,
    {
        copy_expr(self)
    }
}

impl Clone for Fml {
    fn clone(&self) -> (r: Self)
        ensures
            r@ == self@,
    {
        copy_fml(self)
    }
}

/// The canonical written form of each relation.
pub open spec fn comp_symbol(c: Comp) -> Seq<char> {
    match c {
        Comp::Eq => seq!['='],
        Comp::Ne => seq!['/', '='],
        Comp::Lt => seq!['<'],
        Comp::Gt => seq!['>'],
        Comp::Le => seq!['<', '='],
        Comp::Ge => seq!['>', '='],
    }
}

impl Comp {
    /// The relation as it is written in formulas (`=`, `/=`, `<`, `>`, `<=`, `>=`).
    pub fn symbol(&self) -> (r: &'static str)
        ensures
            r@ == comp_symbol(*self),
    {
        match *self {
            Comp::Eq => {
                proof { reveal_strlit("="); }
                "="
            },
            Comp::Ne => {
                proof { reveal_strlit("/="); }
                "/="
            },
            Comp::Lt => {
                proof { reveal_strlit("<"); }
                "<"
            },
            Comp::Gt => {
                proof { reveal_strlit(">"); }
                ">"
            },
            Comp::Le => {
                proof { reveal_strlit("<="); }
                "<="
            },
            Comp::Ge => {
                proof { reveal_strlit(">="); }
                ">="
            },
        }
    }
}

} // verus!
