//! Expressions over the columns of a tuple: evaluation, predicates, variable
//! resolution and the value bounds that filters imply.
use vstd::prelude::*;
use crate::error::{QErr, QueryError};
use crate::tuple::{Tuple, vals};
use crate::value::{DataValue, Symbol, Val, val_lt};

verus! {

/// Comparison operators.
#[derive(PartialEq, Eq, Structural, Clone, Copy, Debug)]
pub enum CmpOp {
    Eq,
    Neq,
    Lt,
    Le,
    Gt,
    Ge,
}

/// An expression. A variable carries the column it was resolved to, if any.
pub enum Expr {
    Binding { var: Symbol, tuple_pos: Option<usize> },
    Const { val: DataValue },
    Compare { op: CmpOp, left: Box<Expr>, right: Box<Expr> },
    List { items: Vec<DataValue> },
}

pub open spec fn cmp_holds(op: CmpOp, a: Val, b: Val) -> bool {
    match op {
        CmpOp::Eq => a == b,
        CmpOp::Neq => a != b,
        CmpOp::Lt => val_lt(a, b),
        CmpOp::Le => a == b || val_lt(a, b),
        CmpOp::Gt => val_lt(b, a),
        CmpOp::Ge => a == b || val_lt(b, a),
    }
}

/// The value of `e` on the tuple `row`.
pub open spec fn eval_expr(e: Expr, row: Seq<Val>) -> Result<Val, QErr>
    decreases e,
{
    match e {
        Expr::Binding { var, tuple_pos } => match tuple_pos {
            Some(i) => if i < row.len() {
                Ok(row[i as int])
            } else {
                Err(QErr::UnboundVariable(var))
            },
            None => Err(QErr::UnboundVariable(var)),
        },
        Expr::Const { val } => Ok(val@),
        Expr::Compare { op, left, right } => match eval_expr(*left, row) {
            Err(x) => Err(x),
            Ok(a) => match eval_expr(*right, row) {
                Err(x) => Err(x),
                Ok(b) => Ok(Val::Bool(cmp_holds(op, a, b))),
            },
        },
        Expr::List { .. } => Err(QErr::ListNotScalar),
    }
}

/// Whether the predicate `e` holds of `row`.
pub open spec fn eval_pred(e: Expr, row: Seq<Val>) -> Result<bool, QErr> {
    match eval_expr(e, row) {
        Err(x) => Err(x),
        Ok(Val::Bool(b)) => Ok(b),
        Ok(_) => Err(QErr::NotABoolean),
    }
}

/// The values that a spread unification of `e` binds, one per output tuple;
/// none when `e` is no list.
pub open spec fn spread_values(e: Expr, row: Seq<Val>) -> Result<Option<Seq<Val>>, QErr> {
    match e {
        Expr::List { items } => Ok(Some(vals(items@))),
        _ => match eval_expr(e, row) {
            Err(x) => Err(x),
            Ok(_) => Ok(None),
        },
    }
}

/// The variables that `e` mentions.
pub open spec fn expr_vars(e: Expr) -> Set<Symbol>
    decreases e,
{
    match e {
        Expr::Binding { var, .. } => set![var],
        Expr::Compare { left, right, .. } => expr_vars(*left).union(expr_vars(*right)),
        _ => Set::empty(),
    }
}

/// Every variable of `e` is resolved to a column of `ctx` that holds it.
pub open spec fn resolved(e: Expr, ctx: Seq<Symbol>) -> bool
    decreases e,
{
    match e {
        Expr::Binding { var, tuple_pos } => match tuple_pos {
            Some(i) => i < ctx.len() && ctx[i as int] == var,
            None => false,
        },
        Expr::Compare { left, right, .. } => resolved(*left, ctx) && resolved(*right, ctx),
        _ => true,
    }
}

/// `b` is `a` with possibly other columns for its variables.
pub open spec fn same_but_positions(a: Expr, b: Expr) -> bool
    decreases a,
{
    match (a, b) {
        (Expr::Binding { var: x, .. }, Expr::Binding { var: y, .. }) => x == y,
        (Expr::Const { val: x }, Expr::Const { val: y }) => x == y,
        (Expr::Compare { op: o1, left: l1, right: r1 }, Expr::Compare { op: o2, left: l2, right: r2 }) =>
            o1 == o2 && same_but_positions(*l1, *l2) && same_but_positions(*r1, *r2),
        (Expr::List { items: x }, Expr::List { items: y }) => x == y,
        _ => false,
    }
}

/// Every filter holds of `row`, evaluating them in order; the first error wins.
pub open spec fn eval_preds(fs: Seq<Expr>, row: Seq<Val>) -> Result<bool, QErr>
    decreases fs.len(),
{
    if fs.len() == 0 {
        Ok(true)
    } else {
        match eval_pred(fs[0], row) {
            Err(x) => Err(x),
            Ok(false) => Ok(false),
            Ok(true) => eval_preds(fs.drop_first(), row),
        }
    }
}

/// The variables that some filter of `fs` mentions.
pub open spec fn exprs_vars(fs: Seq<Expr>) -> Set<Symbol> {
    Set::new(|s: Symbol| exists|i: int| 0 <= i < fs.len() && #[trigger] expr_vars(fs[i]).contains(s))
}

/// The value that `e` stands for once the columns `left` are known, if that
/// makes it constant.
pub open spec fn const_under(e: Expr, left: Seq<Val>) -> Option<Val> {
    match e {
        Expr::Const { val } => Some(val@),
        Expr::Binding { tuple_pos, .. } => match tuple_pos {
            Some(i) => if i < left.len() {
                Some(left[i as int])
            } else {
                None
            },
            None => None,
        },
        _ => None,
    }
}

/// `e` is the still unknown column named `s`.
pub open spec fn is_column(e: Expr, s: Symbol, left: Seq<Val>) -> bool {
    e matches Expr::Binding { var, .. } && var == s && const_under(e, left) is None
}

/// The lower bound that the filter `f` puts on the column `s`, if any.
pub open spec fn lower_from(f: Expr, s: Symbol, left: Seq<Val>) -> Option<Val> {
    match f {
        Expr::Compare { op, left: a, right: b } => if is_column(*a, s, left) && const_under(*b, left) is Some {
            match op {
                CmpOp::Gt | CmpOp::Ge | CmpOp::Eq => const_under(*b, left),
                _ => None,
            }
        } else if is_column(*b, s, left) && const_under(*a, left) is Some {
            match op {
                CmpOp::Lt | CmpOp::Le | CmpOp::Eq => const_under(*a, left),
                _ => None,
            }
        } else {
            None
        },
        _ => None,
    }
}

/// The upper bound that the filter `f` puts on the column `s`, if any.
pub open spec fn upper_from(f: Expr, s: Symbol, left: Seq<Val>) -> Option<Val> {
    match f {
        Expr::Compare { op, left: a, right: b } => if is_column(*a, s, left) && const_under(*b, left) is Some {
            match op {
                CmpOp::Lt | CmpOp::Le | CmpOp::Eq => const_under(*b, left),
                _ => None,
            }
        } else if is_column(*b, s, left) && const_under(*a, left) is Some {
            match op {
                CmpOp::Gt | CmpOp::Ge | CmpOp::Eq => const_under(*a, left),
                _ => None,
            }
        } else {
            None
        },
        _ => None,
    }
}

/// The greatest lower bound that the filters put on `s`; `Null` if none.
pub open spec fn lower_bound(fs: Seq<Expr>, s: Symbol, left: Seq<Val>) -> Val
    decreases fs.len(),
{
    if fs.len() == 0 {
        Val::Null
    } else {
        let prev = lower_bound(fs.drop_last(), s, left);
        match lower_from(fs.last(), s, left) {
            Some(c) => if val_lt(prev, c) {
                c
            } else {
                prev
            },
            None => prev,
        }
    }
}

/// The least upper bound that the filters put on `s`; `Bot` if none.
pub open spec fn upper_bound(fs: Seq<Expr>, s: Symbol, left: Seq<Val>) -> Val
    decreases fs.len(),
{
    if fs.len() == 0 {
        Val::Bot
    } else {
        let prev = upper_bound(fs.drop_last(), s, left);
        match upper_from(fs.last(), s, left) {
            Some(c) => if val_lt(c, prev) {
                c
            } else {
                prev
            },
            None => prev,
        }
    }
}

/// The bounds are open: they admit every value.
pub open spec fn is_open(lo: Val, hi: Val) -> bool {
    lo == Val::Null && hi == Val::Bot
}

pub proof fn lemma_same_refl(e: Expr)
    ensures
        same_but_positions(e, e),
    decreases e,
{
    if let Expr::Compare { left, right, .. } = e {
        lemma_same_refl(*left);
        lemma_same_refl(*right);
    }
}

/// The first column of `ctx` that holds `s`.
pub fn position_of(ctx: &Vec<Symbol>, s: Symbol) -> (r: Option<usize>)
    ensures
        r is None <==> !ctx@.contains(s),
        r matches Some(i) ==> i < ctx@.len() && ctx@[i as int] == s && forall|j: int| 0 <= j < i ==> ctx@[j] != s,
{
    let mut k: usize = 0;
    while k < ctx.len()
        invariant
            k <= ctx.len(),
            forall|j: int| 0 <= j < k ==> ctx@[j] != s,
        decreases ctx.len() - k,
    {
        if ctx[k] == s {
            return Some(k);
        }
        k = k + 1;
    }
    None
}

fn compare(op: CmpOp, a: &DataValue, b: &DataValue) -> (r: bool)
    ensures
        r == cmp_holds(op, a@, b@),
{
    match op {
        CmpOp::Eq => a.same_as(b),
        CmpOp::Neq => !a.same_as(b),
        CmpOp::Lt => a.less_than(b),
        CmpOp::Le => a.at_most(b),
        CmpOp::Gt => b.less_than(a),
        CmpOp::Ge => b.at_most(a),
    }
}

/// Whether every filter holds of the tuple, evaluating them in order.
pub fn filters_hold(fs: &Vec<Expr>, row: &Tuple) -> (r: Result<bool, QueryError>)
    ensures
        r matches Ok(b) ==> eval_preds(fs@, row@) == Ok::<bool, QErr>(b),
        r matches Err(x) ==> eval_preds(fs@, row@) == Err::<bool, QErr>(x@),
{
    let mut i: usize = 0;
    assert(fs@.skip(0) =~= fs@);
    while i < fs.len()
        invariant
            i <= fs.len(),
            eval_preds(fs@, row@) == eval_preds(fs@.skip(i as int), row@),
        decreases fs.len() - i,
    {
        assert(fs@.skip(i as int).drop_first() =~= fs@.skip(i as int + 1));
        assert(fs@.skip(i as int)[0] == fs@[i as int]);
        match fs[i].eval_pred(row) {
            Err(x) => { return Err(x); },
            Ok(false) => { return Ok(false); },
            Ok(true) => {},
        }
        i = i + 1;
    }
    Ok(true)
}

impl Expr {
    /// Evaluates the expression on a tuple.
    pub fn eval(&self, row: &Tuple) -> (r: Result<DataValue, QueryError>)
        ensures
            r matches Ok(v) ==> eval_expr(*self, row@) == Ok::<Val, QErr>(v@),
            r matches Err(x) ==> eval_expr(*self, row@) == Err::<Val, QErr>(x@),
        decreases self,
    {
        match self {
            Expr::Binding { var, tuple_pos } => match tuple_pos {
                Some(i) => if *i < row.0.len() {
                    Ok(row.0[*i].dup())
                } else {
                    Err(QueryError::UnboundVariable(*var))
                },
                None => Err(QueryError::UnboundVariable(*var)),
            },
            Expr::Const { val } => Ok(val.dup()),
            Expr::Compare { op, left, right } => {
                let a = match left.eval(row) {
                    Err(x) => { return Err(x); },
                    Ok(a) => a,
                };
                let b = match right.eval(row) {
                    Err(x) => { return Err(x); },
                    Ok(b) => b,
                };
                Ok(DataValue::Bool(compare(*op, &a, &b)))
            },
            Expr::List { .. } => Err(QueryError::ListNotScalar),
        }
    }

    /// Evaluates the expression as a predicate on a tuple.
    pub fn eval_pred(&self, row: &Tuple) -> (r: Result<bool, QueryError>)
        ensures
            r matches Ok(b) ==> eval_pred(*self, row@) == Ok::<bool, QErr>(b),
            r matches Err(x) ==> eval_pred(*self, row@) == Err::<bool, QErr>(x@),
    {
        match self.eval(row) {
            Err(x) => Err(x),
            Ok(DataValue::Bool(b)) => Ok(b),
            Ok(_) => Err(QueryError::NotABoolean),
        }
    }

    /// The values that a spread unification of the expression binds; none when
    /// the expression is no list.
    pub fn spread(&self, row: &Tuple) -> (r: Result<Option<Vec<DataValue>>, QueryError>)
        ensures
            r matches Ok(Some(v)) ==> spread_values(*self, row@) == Ok::<Option<Seq<Val>>, QErr>(Some(vals(v@))),
            r matches Ok(None) ==> spread_values(*self, row@) == Ok::<Option<Seq<Val>>, QErr>(None),
            r matches Err(x) ==> spread_values(*self, row@) == Err::<Option<Seq<Val>>, QErr>(x@),
    {
        match self {
            Expr::List { items } => {
                let mut out: Vec<DataValue> = Vec::new();
                let mut k: usize = 0;
                while k < items.len()
                    invariant
                        k <= items.len(),
                        vals(out@) == vals(items@.take(k as int)),
                    decreases items.len() - k,
                {
                    let ghost prev = out@;
                    out.push(items[k].dup());
                    proof {
                        crate::tuple::lemma_vals_push(prev, out@.last());
                        assert(out@ == prev.push(out@.last()));
                        crate::tuple::lemma_vals_take(items@, k as int);
                    }
                    k = k + 1;
                }
                assert(items@.take(items.len() as int) =~= items@);
                Ok(Some(out))
            },
            _ => match self.eval(row) {
                Err(x) => Err(x),
                Ok(_) => Ok(None),
            },
        }
    }

    /// Adds the variables of the expression to `out`.
    pub fn collect_bindings(&self, out: &mut Vec<Symbol>)
        ensures
            forall|s: Symbol| #[trigger] final(out)@.contains(s) <==> (old(out)@.contains(s) || expr_vars(*self).contains(s)),
        decreases self,
    {
        match self {
            Expr::Binding { var, .. } => {
                let ghost prev = out@;
                out.push(*var);
                assert forall|s: Symbol| #[trigger] out@.contains(s) <==> (prev.contains(s) || s == *var) by {
                    if out@.contains(s) {
                        let k = choose|k: int| 0 <= k < out@.len() && out@[k] == s;
                        if k < prev.len() {
                            assert(prev[k] == s);
                        }
                    }
                    if prev.contains(s) {
                        let k = choose|k: int| 0 <= k < prev.len() && prev[k] == s;
                        assert(out@[k] == s);
                    }
                    if s == *var {
                        assert(out@[out@.len() - 1] == s);
                    }
                }
            },
            Expr::Compare { left, right, .. } => {
                left.collect_bindings(out);
                right.collect_bindings(out);
            },
            _ => {},
        }
    }

    /// The variables of the expression.
    pub fn bindings(&self) -> (r: Vec<Symbol>)
        ensures
            forall|s: Symbol| #[trigger] r@.contains(s) <==> expr_vars(*self).contains(s),
    {
        let mut out: Vec<Symbol> = Vec::new();
        self.collect_bindings(&mut out);
        out
    }

    /// Resolves every variable to its first column in `ctx`; fails on the first
    /// variable that `ctx` lacks.
    pub fn fill_binding_indices(&mut self, ctx: &Vec<Symbol>) -> (r: Result<(), QueryError>)
        ensures
            r is Ok <==> expr_vars(*old(self)).subset_of(ctx@.to_set()),
            r is Ok ==> resolved(*final(self), ctx@),
            same_but_positions(*old(self), *final(self)),
            expr_vars(*final(self)) == expr_vars(*old(self)),
        decreases *old(self),
    {
        let ghost before = *self;
        match self {
            Expr::Binding { var, tuple_pos } => {
                match position_of(ctx, *var) {
                    Some(i) => {
                        *tuple_pos = Some(i);
                        assert(ctx@.to_set().contains(*var));
                        assert(expr_vars(before).subset_of(ctx@.to_set()));
                        Ok(())
                    },
                    None => {
                        assert(expr_vars(before).contains(*var));
                        assert(!ctx@.to_set().contains(*var));
                        Err(QueryError::UnboundVariable(*var))
                    },
                }
            },
            Expr::Compare { op, left, right } => {
                let ghost l0 = **left;
                let ghost r0 = **right;
                assert(before == Expr::Compare { op: *op, left: Box::new(l0), right: Box::new(r0) });
                let a = left.fill_binding_indices(ctx);
                match a {
                    Err(x) => {
                        proof { lemma_same_refl(r0); }
                        assert(!expr_vars(before).subset_of(ctx@.to_set())) by {
                            let w = choose|w: Symbol| expr_vars(l0).contains(w) && !ctx@.to_set().contains(w);
                            assert(expr_vars(before).contains(w));
                        }
                        Err(x)
                    },
                    Ok(()) => {
                        let b = right.fill_binding_indices(ctx);
                        proof {
                            if b is Err {
                                let w = choose|w: Symbol| expr_vars(r0).contains(w) && !ctx@.to_set().contains(w);
                                assert(expr_vars(before).contains(w));
                            }
                        }
                        b
                    },
                }
            },
            _ => Ok(()),
        }
    }

    /// The value of the expression once the columns of `left` are known, if that
    /// makes it constant.
    pub fn constant_under(&self, left: &Tuple) -> (r: Option<DataValue>)
        ensures
            r matches Some(v) ==> const_under(*self, left@) == Some(v@),
            r is None ==> const_under(*self, left@) is None,
    {
        match self {
            Expr::Const { val } => Some(val.dup()),
            Expr::Binding { tuple_pos, .. } => match tuple_pos {
                Some(i) => if *i < left.0.len() {
                    Some(left.0[*i].dup())
                } else {
                    None
                },
                None => None,
            },
            _ => None,
        }
    }

    fn is_column(&self, s: Symbol, left: &Tuple) -> (r: bool)
        ensures
            r == is_column(*self, s, left@),
    {
        match self {
            Expr::Binding { var, .. } => *var == s && self.constant_under(left).is_none(),
            _ => false,
        }
    }

    /// The lower and upper bounds that this filter puts on the column `s`.
    pub fn bounds_on(&self, s: Symbol, left: &Tuple) -> (r: (Option<DataValue>, Option<DataValue>))
        ensures
            r.0 matches Some(v) ==> lower_from(*self, s, left@) == Some(v@),
            r.0 is None ==> lower_from(*self, s, left@) is None,
            r.1 matches Some(v) ==> upper_from(*self, s, left@) == Some(v@),
            r.1 is None ==> upper_from(*self, s, left@) is None,
    {
        match self {
            Expr::Compare { op, left: a, right: b } => {
                if a.is_column(s, left) {
                    match b.constant_under(left) {
                        Some(c) => {
                            return match op {
                                CmpOp::Gt | CmpOp::Ge => (Some(c), None),
                                CmpOp::Lt | CmpOp::Le => (None, Some(c)),
                                CmpOp::Eq => (Some(c.dup()), Some(c)),
                                CmpOp::Neq => (None, None),
                            };
                        },
                        None => {},
                    }
                }
                if b.is_column(s, left) {
                    match a.constant_under(left) {
                        Some(c) => {
                            return match op {
                                CmpOp::Lt | CmpOp::Le => (Some(c), None),
                                CmpOp::Gt | CmpOp::Ge => (None, Some(c)),
                                CmpOp::Eq => (Some(c.dup()), Some(c)),
                                CmpOp::Neq => (None, None),
                            };
                        },
                        None => {},
                    }
                }
                (None, None)
            },
            _ => (None, None),
        }
    }
}

/// The tightest bounds that the filters put on the column `s`, where the columns
/// of `left` are known. Either end is open (`Null` or `Bot`) where no filter
/// bounds it.
pub fn value_bounds(filters: &Vec<Expr>, s: Symbol, left: &Tuple) -> (r: (DataValue, DataValue))
    ensures
        r.0@ == lower_bound(filters@, s, left@),
        r.1@ == upper_bound(filters@, s, left@),
{
    let mut lo = DataValue::Null;
    let mut hi = DataValue::Bot;
    let mut k: usize = 0;
    while k < filters.len()
        invariant
            k <= filters.len(),
            lo@ == lower_bound(filters@.take(k as int), s, left@),
            hi@ == upper_bound(filters@.take(k as int), s, left@),
        decreases filters.len() - k,
    {
        assert(filters@.take(k as int + 1).drop_last() =~= filters@.take(k as int));
        assert(filters@.take(k as int + 1).last() == filters@[k as int]);
        let (l, u) = filters[k].bounds_on(s, left);
        match l {
            Some(c) => if lo.less_than(&c) {
                lo = c;
            },
            None => {},
        }
        match u {
            Some(c) => if c.less_than(&hi) {
                hi = c;
            },
            None => {},
        }
        k = k + 1;
    }
    assert(filters@.take(k as int) =~= filters@);
    (lo, hi)
}

/// For each symbol of `syms`, the bounds that the filters put on its column.
pub fn compute_bounds(filters: &Vec<Expr>, syms: &Vec<Symbol>) -> (r: (Vec<DataValue>, Vec<DataValue>))
    ensures
        r.0@.len() == syms@.len(),
        r.1@.len() == syms@.len(),
        forall|i: int| 0 <= i < syms@.len() ==> (#[trigger] r.0@[i])@ == lower_bound(filters@, syms@[i], Seq::empty()),
        forall|i: int| 0 <= i < syms@.len() ==> (#[trigger] r.1@[i])@ == upper_bound(filters@, syms@[i], Seq::empty()),
{
    let none = Tuple(Vec::new());
    assert(none@ =~= Seq::<Val>::empty());
    let mut lows: Vec<DataValue> = Vec::new();
    let mut highs: Vec<DataValue> = Vec::new();
    let mut k: usize = 0;
    while k < syms.len()
        invariant
            k <= syms.len(),
            none@ == Seq::<Val>::empty(),
            lows@.len() == k,
            highs@.len() == k,
            forall|i: int| 0 <= i < k ==> (#[trigger] lows@[i])@ == lower_bound(filters@, syms@[i], Seq::empty()),
            forall|i: int| 0 <= i < k ==> (#[trigger] highs@[i])@ == upper_bound(filters@, syms@[i], Seq::empty()),
        decreases syms.len() - k,
    {
        let (l, u) = value_bounds(filters, syms[k], &none);
        lows.push(l);
        highs.push(u);
        k = k + 1;
    }
    (lows, highs)
}

/// The bounds that the filters put on the column `s`, unless they are open.
pub fn compute_single_bound(filters: &Vec<Expr>, s: Symbol) -> (r: Option<(DataValue, DataValue)>)
    ensures
        r is None <==> is_open(lower_bound(filters@, s, Seq::empty()), upper_bound(filters@, s, Seq::empty())),
        r matches Some(b) ==> b.0@ == lower_bound(filters@, s, Seq::empty()) && b.1@ == upper_bound(filters@, s, Seq::empty()),
{
    let none = Tuple(Vec::new());
    assert(none@ =~= Seq::<Val>::empty());
    let (l, u) = value_bounds(filters, s, &none);
    if matches!(l, DataValue::Null) && matches!(u, DataValue::Bot) {
        None
    } else {
        Some((l, u))
    }
}

} // verus!
