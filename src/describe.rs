//! A structured, human-readable rendering of values, expressions and trees.
use vstd::prelude::*;
use vstd::string::StringExecFns;
use crate::expr::{CmpOp, Expr};
use crate::relation::{Joiner, RelAlgebra, after};
use crate::tuple::vals;
use crate::value::{DataValue, Symbol, Val};

verus! {

/// The decimal digit `d`.
pub open spec fn digit(d: int) -> char {
    if d == 0 { '0' } else if d == 1 { '1' } else if d == 2 { '2' } else if d == 3 { '3' } else if d == 4 { '4' }
    else if d == 5 { '5' } else if d == 6 { '6' } else if d == 7 { '7' } else if d == 8 { '8' } else { '9' }
}

/// `n` written in decimal, without leading zeros.
pub open spec fn decimal(n: nat) -> Seq<char>
    decreases n,
{
    if n < 10 {
        seq![digit(n as int)]
    } else {
        decimal(n / 10).push(digit((n % 10) as int))
    }
}

/// `i` written in decimal, with a leading `-` when negative.
pub open spec fn int_text(i: int) -> Seq<char> {
    if i < 0 {
        "-"@ + decimal((-i) as nat)
    } else {
        decimal(i as nat)
    }
}

/// The text of a value: strings quoted, entities prefixed by `#`.
pub open spec fn value_text(v: Val) -> Seq<char> {
    match v {
        Val::Null => "Null"@,
        Val::Bool(b) => if b { "true"@ } else { "false"@ },
        Val::Int(i) => int_text(i),
        Val::Str(s) => "\""@ + s + "\""@,
        Val::Entity(e) => "#"@ + decimal(e),
        Val::Bot => "Bot"@,
    }
}

/// The text of a variable: `?` followed by its id.
pub open spec fn symbol_text(s: Symbol) -> Seq<char> {
    "?"@ + decimal(s.id as nat)
}

/// The texts of `xs` separated by `, `.
pub open spec fn joined(xs: Seq<Seq<char>>) -> Seq<char>
    decreases xs.len(),
{
    if xs.len() == 0 {
        Seq::empty()
    } else if xs.len() == 1 {
        xs[0]
    } else {
        joined(xs.drop_last()) + ", "@ + xs.last()
    }
}

/// `[a, b, ...]`.
pub open spec fn list_text(xs: Seq<Seq<char>>) -> Seq<char> {
    "["@ + joined(xs) + "]"@
}

pub open spec fn symbols_text(v: Seq<Symbol>) -> Seq<char> {
    list_text(v.map_values(|s: Symbol| symbol_text(s)))
}

pub open spec fn values_text(v: Seq<Val>) -> Seq<char> {
    list_text(v.map_values(|x: Val| value_text(x)))
}

pub open spec fn op_text(op: CmpOp) -> Seq<char> {
    match op {
        CmpOp::Eq => " == "@,
        CmpOp::Neq => " != "@,
        CmpOp::Lt => " < "@,
        CmpOp::Le => " <= "@,
        CmpOp::Gt => " > "@,
        CmpOp::Ge => " >= "@,
    }
}

/// The text of an expression; comparisons in parentheses.
pub open spec fn expr_text(e: Expr) -> Seq<char>
    decreases e,
{
    match e {
        Expr::Binding { var, .. } => symbol_text(var),
        Expr::Const { val } => value_text(val@),
        Expr::Compare { op, left, right } => "("@ + expr_text(*left) + op_text(op) + expr_text(*right) + ")"@,
        Expr::List { items } => values_text(vals(items@)),
    }
}

pub open spec fn exprs_text(fs: Seq<Expr>) -> Seq<char> {
    list_text(fs.map_values(|e: Expr| expr_text(e)))
}

/// `name(part, part, ...)`.
pub open spec fn node_text(name: Seq<char>, parts: Seq<Seq<char>>) -> Seq<char> {
    name + "("@ + joined(parts) + ")"@
}

/// `[left keys]<->[right keys]`.
pub open spec fn joiner_text(j: Joiner) -> Seq<char> {
    symbols_text(j.left_keys@) + "<->"@ + symbols_text(j.right_keys@)
}

/// The text of a tree: each node's name, the columns it outputs, its keys or
/// filters, and its children; `Unit` for the unit relation, and a join whose
/// left side is the unit shown as its right side alone.
pub open spec fn describe_of(ra: RelAlgebra) -> Seq<char>
    decreases ra,
{
    let b = symbols_text(after(ra));
    match ra {
        RelAlgebra::Fixed(f) => if f.bindings@.len() == 0 && f.data@.len() == 1 {
            "Unit"@
        } else if f.data@.len() == 1 {
            node_text("Singlet"@, seq![b, values_text(f.data@[0]@)])
        } else {
            node_text("Fixed"@, seq![b, "[...]"@])
        },
        RelAlgebra::Triple(t) => node_text("Triple"@, seq![b, t.attr.name@, exprs_text(t.filters@)]),
        RelAlgebra::Derived(d) => node_text("Derived"@, seq![b, d.storage.rule_name@, exprs_text(d.filters@)]),
        RelAlgebra::Relation(v) => node_text("Stored"@, seq![b, v.storage.name@, exprs_text(v.filters@)]),
        RelAlgebra::Join(j) => if j.left.is_unit_spec() {
            describe_of(j.right)
        } else {
            node_text("Join"@, seq![b, joiner_text(j.joiner), describe_of(j.left), describe_of(j.right)])
        },
        RelAlgebra::NegJoin(j) => node_text("NegJoin"@, seq![b, joiner_text(j.joiner), describe_of(j.left), describe_of(j.right)]),
        RelAlgebra::Reorder(o) => node_text("Reorder"@, seq![symbols_text(o.new_order@), describe_of(*o.relation)]),
        RelAlgebra::Filter(f) => node_text("Filter"@, seq![b, exprs_text(f.pred@), describe_of(*f.parent)]),
        RelAlgebra::Unification(u) => node_text("Unify"@, seq![b, describe_of(*u.parent), symbol_text(u.binding), expr_text(u.expr)]),
    }
}

/// The views of some strings.
pub open spec fn views(v: Seq<String>) -> Seq<Seq<char>> {
    v.map_values(|s: String| s@)
}

proof fn lemma_joined_step(xs: Seq<Seq<char>>, i: int)
    requires
        0 <= i < xs.len(),
    ensures
        joined(xs.take(i + 1)) == (if i == 0 { xs[0] } else { joined(xs.take(i)) + ", "@ + xs[i] }),
{
    assert(xs.take(i + 1).drop_last() =~= xs.take(i));
    assert(xs.take(i + 1).last() == xs[i]);
    assert(xs.take(i + 1)[0] == xs[0]);
}

fn push_str(out: &mut String, piece: &str)
    ensures
        final(out)@ == old(out)@ + piece@,
{
    out.append(piece);
}

fn digit_str(d: u64) -> (r: &'static str)
    requires
        d < 10,
    ensures
        r@ == seq![digit(d as int)],
{
    proof {
        reveal_strlit("0"); reveal_strlit("1"); reveal_strlit("2"); reveal_strlit("3"); reveal_strlit("4");
        reveal_strlit("5"); reveal_strlit("6"); reveal_strlit("7"); reveal_strlit("8"); reveal_strlit("9");
    }
    let r = if d == 0 { "0" } else if d == 1 { "1" } else if d == 2 { "2" } else if d == 3 { "3" } else if d == 4 { "4" }
        else if d == 5 { "5" } else if d == 6 { "6" } else if d == 7 { "7" } else if d == 8 { "8" } else { "9" };
    assert(r@ =~= seq![digit(d as int)]);
    r
}

/// Appends `n` in decimal.
fn push_decimal(out: &mut String, n: u64)
    ensures
        final(out)@ == old(out)@ + decimal(n as nat),
    decreases n,
{
    if n >= 10 {
        push_decimal(out, n / 10);
    }
    push_str(out, digit_str(n % 10));
    proof {
        if n >= 10 {
            assert(decimal(n as nat) == decimal((n / 10) as nat).push(digit((n % 10) as int)));
        }
    }
    assert(out@ =~= old(out)@ + decimal(n as nat));
}

impl DataValue {
    /// The value as text: strings quoted, entities prefixed by `#`.
    pub fn describe(&self) -> (r: String)
        ensures
            r@ == value_text(self@),
    {
        match self {
            DataValue::Null => String::from_str("Null"),
            DataValue::Bool(b) => if *b {
                String::from_str("true")
            } else {
                String::from_str("false")
            },
            DataValue::Int(i) => {
                let mut out = String::new();
                if *i < 0 {
                    push_str(&mut out, "-");
                    let n = (0i128 - (*i as i128)) as u64;
                    push_decimal(&mut out, n);
                } else {
                    push_decimal(&mut out, *i as u64);
                }
                assert(out@ =~= int_text(*i as int));
                out
            },
            DataValue::Str(s) => {
                let mut out = String::from_str("\"");
                push_str(&mut out, s.as_str());
                push_str(&mut out, "\"");
                out
            },
            DataValue::Entity(e) => {
                let mut out = String::from_str("#");
                push_decimal(&mut out, *e);
                out
            },
            DataValue::Bot => String::from_str("Bot"),
        }
    }
}

impl Symbol {
    /// The variable as text, `?` followed by its id.
    pub fn describe(&self) -> (r: String)
        ensures
            r@ == symbol_text(*self),
    {
        let mut out = String::from_str("?");
        push_decimal(&mut out, self.id);
        out
    }
}

/// `[` and the texts `parts`, separated by `, `, and `]`.
fn list_of(parts: &Vec<String>) -> (r: String)
    ensures
        r@ == list_text(views(parts@)),
{
    let mut out = String::from_str("[");
    push_joined(&mut out, parts);
    push_str(&mut out, "]");
    out
}

/// Appends the texts `parts` separated by `, `.
fn push_joined(out: &mut String, parts: &Vec<String>)
    ensures
        final(out)@ == old(out)@ + joined(views(parts@)),
{
    let ghost xs = views(parts@);
    let ghost start = out@;
    let mut i: usize = 0;
    assert(xs.take(0) =~= Seq::<Seq<char>>::empty());
    assert(start + joined(xs.take(0)) =~= start);
    while i < parts.len()
        invariant
            i <= parts@.len(),
            xs == views(parts@),
            out@ == start + joined(xs.take(i as int)),
        decreases parts.len() - i,
    {
        proof { lemma_joined_step(xs, i as int); }
        if i > 0 {
            push_str(out, ", ");
        }
        push_str(out, parts[i].as_str());
        assert(out@ =~= start + joined(xs.take(i as int + 1)));
        i = i + 1;
    }
    assert(xs.take(i as int) =~= xs);
}

/// A list of symbols as text: `[?1, ?2]`.
pub fn describe_symbols(v: &Vec<Symbol>) -> (r: String)
    ensures
        r@ == symbols_text(v@),
{
    let mut parts: Vec<String> = Vec::new();
    let mut i: usize = 0;
    while i < v.len()
        invariant
            i <= v@.len(),
            views(parts@) =~= v@.take(i as int).map_values(|s: Symbol| symbol_text(s)),
        decreases v.len() - i,
    {
        let ghost prev = parts@;
        let d = v[i].describe();
        parts.push(d);
        assert(views(parts@) =~= views(prev).push(d@));
        assert(v@.take(i as int + 1).map_values(|s: Symbol| symbol_text(s))
            =~= v@.take(i as int).map_values(|s: Symbol| symbol_text(s)).push(symbol_text(v@[i as int])));
        i = i + 1;
    }
    assert(v@.take(i as int) =~= v@);
    list_of(&parts)
}

/// A list of values as text: `[1, "a"]`.
pub fn describe_values(v: &Vec<DataValue>) -> (r: String)
    ensures
        r@ == values_text(vals(v@)),
{
    let mut parts: Vec<String> = Vec::new();
    let mut i: usize = 0;
    while i < v.len()
        invariant
            i <= v@.len(),
            views(parts@) =~= vals(v@.take(i as int)).map_values(|x: Val| value_text(x)),
        decreases v.len() - i,
    {
        let ghost prev = parts@;
        let d = v[i].describe();
        parts.push(d);
        assert(views(parts@) =~= views(prev).push(d@));
        assert(vals(v@.take(i as int + 1)).map_values(|x: Val| value_text(x))
            =~= vals(v@.take(i as int)).map_values(|x: Val| value_text(x)).push(value_text(v@[i as int]@)));
        i = i + 1;
    }
    assert(v@.take(i as int) =~= v@);
    list_of(&parts)
}

fn op_str(op: CmpOp) -> (r: &'static str)
    ensures
        r@ == op_text(op),
{
    match op {
        CmpOp::Eq => " == ",
        CmpOp::Neq => " != ",
        CmpOp::Lt => " < ",
        CmpOp::Le => " <= ",
        CmpOp::Gt => " > ",
        CmpOp::Ge => " >= ",
    }
}

impl Expr {
    /// The expression as text.
    pub fn describe(&self) -> (r: String)
        ensures
            r@ == expr_text(*self),
        decreases self,
    {
        match self {
            Expr::Binding { var, .. } => var.describe(),
            Expr::Const { val } => val.describe(),
            Expr::Compare { op, left, right } => {
                let mut out = String::from_str("(");
                push_str(&mut out, left.describe().as_str());
                push_str(&mut out, op_str(*op));
                push_str(&mut out, right.describe().as_str());
                push_str(&mut out, ")");
                out
            },
            Expr::List { items } => describe_values(items),
        }
    }
}

/// A list of expressions as text.
pub fn describe_exprs(v: &Vec<Expr>) -> (r: String)
    ensures
        r@ == exprs_text(v@),
{
    let mut parts: Vec<String> = Vec::new();
    let mut i: usize = 0;
    while i < v.len()
        invariant
            i <= v@.len(),
            views(parts@) =~= v@.take(i as int).map_values(|e: Expr| expr_text(e)),
        decreases v.len() - i,
    {
        let ghost prev = parts@;
        let d = v[i].describe();
        parts.push(d);
        assert(views(parts@) =~= views(prev).push(d@));
        assert(v@.take(i as int + 1).map_values(|e: Expr| expr_text(e))
            =~= v@.take(i as int).map_values(|e: Expr| expr_text(e)).push(expr_text(v@[i as int])));
        i = i + 1;
    }
    assert(v@.take(i as int) =~= v@);
    list_of(&parts)
}

/// `name(part, part, ...)`.
fn node(name: &str, parts: Vec<String>) -> (r: String)
    ensures
        r@ == node_text(name@, views(parts@)),
{
    let mut out = String::from_str(name);
    push_str(&mut out, "(");
    push_joined(&mut out, &parts);
    push_str(&mut out, ")");
    out
}

fn describe_joiner(j: &Joiner) -> (r: String)
    ensures
        r@ == joiner_text(*j),
{
    let mut out = describe_symbols(&j.left_keys);
    push_str(&mut out, "<->");
    push_str(&mut out, describe_symbols(&j.right_keys).as_str());
    out
}

impl RelAlgebra {
    /// The tree as text, each node with the columns it outputs: `Unit` for the
    /// unit relation, and a join whose left side is the unit shown as its right
    /// side alone.
    pub fn describe(&self) -> (r: String)
        ensures
            r@ == describe_of(*self),
        decreases self,
    {
        let bindings = describe_symbols(&self.bindings_after_eliminate());
        let ghost b = bindings@;
        match self {
            RelAlgebra::Fixed(f) => {
                if f.bindings.len() == 0 && f.data.len() == 1 {
                    String::from_str("Unit")
                } else if f.data.len() == 1 {
                    let parts = vec![bindings, describe_values(&f.data[0].0)];
                    assert(views(parts@) =~= seq![b, values_text(f.data@[0]@)]);
                    node("Singlet", parts)
                } else {
                    let parts = vec![bindings, String::from_str("[...]")];
                    assert(views(parts@) =~= seq![b, "[...]"@]);
                    node("Fixed", parts)
                }
            },
            RelAlgebra::Triple(t) => {
                let parts = vec![bindings, t.attr.name.clone(), describe_exprs(&t.filters)];
                assert(views(parts@) =~= seq![b, t.attr.name@, exprs_text(t.filters@)]);
                node("Triple", parts)
            },
            RelAlgebra::Derived(d) => {
                let parts = vec![bindings, d.storage.rule_name.clone(), describe_exprs(&d.filters)];
                assert(views(parts@) =~= seq![b, d.storage.rule_name@, exprs_text(d.filters@)]);
                node("Derived", parts)
            },
            RelAlgebra::Relation(v) => {
                let parts = vec![bindings, v.storage.name.clone(), describe_exprs(&v.filters)];
                assert(views(parts@) =~= seq![b, v.storage.name@, exprs_text(v.filters@)]);
                node("Stored", parts)
            },
            RelAlgebra::Join(j) => {
                if j.left.is_unit() {
                    j.right.describe()
                } else {
                    let parts = vec![bindings, describe_joiner(&j.joiner), j.left.describe(), j.right.describe()];
                    assert(views(parts@) =~= seq![b, joiner_text(j.joiner), describe_of(j.left), describe_of(j.right)]);
                    node("Join", parts)
                }
            },
            RelAlgebra::NegJoin(j) => {
                let parts = vec![bindings, describe_joiner(&j.joiner), j.left.describe(), j.right.describe()];
                assert(views(parts@) =~= seq![b, joiner_text(j.joiner), describe_of(j.left), describe_of(j.right)]);
                node("NegJoin", parts)
            },
            RelAlgebra::Reorder(o) => {
                let parts = vec![describe_symbols(&o.new_order), o.relation.describe()];
                assert(views(parts@) =~= seq![symbols_text(o.new_order@), describe_of(*o.relation)]);
                node("Reorder", parts)
            },
            RelAlgebra::Filter(f) => {
                let parts = vec![bindings, describe_exprs(&f.pred), f.parent.describe()];
                assert(views(parts@) =~= seq![b, exprs_text(f.pred@), describe_of(*f.parent)]);
                node("Filter", parts)
            },
            RelAlgebra::Unification(u) => {
                let parts = vec![bindings, u.parent.describe(), u.binding.describe(), u.expr.describe()];
                assert(views(parts@) =~= seq![b, describe_of(*u.parent), symbol_text(u.binding), expr_text(u.expr)]);
                node("Unify", parts)
            },
        }
    }
}

} // verus!
