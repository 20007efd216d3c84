//! The operator tree: construction, the bindings each node outputs, variable
//! elimination and binding resolution.
use vstd::prelude::*;
use crate::error::{QueryError, SourceSpan};
use crate::expr::{Expr, expr_vars, exprs_vars, lemma_same_refl, resolved, same_but_positions};
use crate::store::{Attribute, DerivedRelStore, RelationMetadata, SessionTx};
use crate::semantics::{eval_ra, fixed_rows, well_formed};
use crate::error::QErr;
use crate::tuple::{Tuple, drop_at, has_symbol, positions_of, rows};
use crate::value::{Symbol, Val};

verus! {

/// Computes a new column from an expression; a spread unification emits one
/// tuple per element of a list.
pub struct UnificationRA {
    pub parent: Box<RelAlgebra>,
    pub binding: Symbol,
    pub expr: Expr,
    pub is_multi: bool,
    pub to_eliminate: Vec<Symbol>,
    pub span: SourceSpan,
}

/// Keeps the tuples on which every predicate holds.
pub struct FilteredRA {
    pub parent: Box<RelAlgebra>,
    pub pred: Vec<Expr>,
    pub to_eliminate: Vec<Symbol>,
}

/// Permutes and projects the columns of its child.
pub struct ReorderRA {
    pub relation: Box<RelAlgebra>,
    pub new_order: Vec<Symbol>,
}

/// Constant tuples.
pub struct InlineFixedRA {
    pub bindings: Vec<Symbol>,
    pub data: Vec<Tuple>,
    pub to_eliminate: Vec<Symbol>,
}

/// The facts `(e, a, v)` of one attribute, as columns `[e, v]`.
pub struct TripleRA {
    pub attr: Attribute,
    pub vld: i64,
    pub bindings: [Symbol; 2],
    pub filters: Vec<Expr>,
    pub span: SourceSpan,
}

/// The rows of a stored relation.
pub struct RelationRA {
    pub bindings: Vec<Symbol>,
    pub storage: RelationMetadata,
    pub filters: Vec<Expr>,
}

/// The rows of a derived relation for an epoch.
pub struct DerivedRA {
    pub bindings: Vec<Symbol>,
    pub storage: DerivedRelStore,
    pub filters: Vec<Expr>,
}

/// The variables on which two relations are joined, pairwise.
pub struct Joiner {
    pub left_keys: Vec<Symbol>,
    pub right_keys: Vec<Symbol>,
}

/// Inner join.
pub struct InnerJoin {
    pub left: RelAlgebra,
    pub right: RelAlgebra,
    pub joiner: Joiner,
    pub to_eliminate: Vec<Symbol>,
}

/// Anti-join: the left tuples that match no right tuple.
pub struct NegJoin {
    pub left: RelAlgebra,
    pub right: RelAlgebra,
    pub joiner: Joiner,
    pub to_eliminate: Vec<Symbol>,
}

/// A node of the operator tree.
pub enum RelAlgebra {
    Fixed(InlineFixedRA),
    Triple(TripleRA),
    Derived(DerivedRA),
    Relation(RelationRA),
    Join(Box<InnerJoin>),
    NegJoin(Box<NegJoin>),
    Reorder(ReorderRA),
    Filter(FilteredRA),
    Unification(UnificationRA),
}

/// The symbols of `b` that are not in `e`, in order.
pub open spec fn without(b: Seq<Symbol>, e: Seq<Symbol>) -> Seq<Symbol> {
    b.filter(|x: Symbol| !e.contains(x))
}

/// The columns that a node's own operation produces, before it drops any.
pub open spec fn before(ra: RelAlgebra) -> Seq<Symbol>
    decreases ra, 0int,
{
    match ra {
        RelAlgebra::Fixed(f) => f.bindings@,
        RelAlgebra::Triple(t) => t.bindings@,
        RelAlgebra::Derived(d) => d.bindings@,
        RelAlgebra::Relation(r) => r.bindings@,
        RelAlgebra::Join(j) => after(j.left) + after(j.right),
        RelAlgebra::NegJoin(j) => after(j.left),
        RelAlgebra::Reorder(r) => r.new_order@,
        RelAlgebra::Filter(f) => after(*f.parent),
        RelAlgebra::Unification(u) => after(*u.parent).push(u.binding),
    }
}

/// The symbols a node drops, for the nodes that drop any.
pub open spec fn elim_set(ra: RelAlgebra) -> Option<Seq<Symbol>> {
    match ra {
        RelAlgebra::Fixed(f) => Some(f.to_eliminate@),
        RelAlgebra::Join(j) => Some(j.to_eliminate@),
        RelAlgebra::NegJoin(j) => Some(j.to_eliminate@),
        RelAlgebra::Filter(f) => Some(f.to_eliminate@),
        RelAlgebra::Unification(u) => Some(u.to_eliminate@),
        _ => None,
    }
}

/// The columns that a node outputs.
pub open spec fn after(ra: RelAlgebra) -> Seq<Symbol>
    decreases ra, 1int,
{
    match elim_set(ra) {
        Some(e) => without(before(ra), e),
        None => before(ra),
    }
}

/// The symbols a node drops; none for the nodes that drop nothing.
pub open spec fn dropped(ra: RelAlgebra) -> Seq<Symbol> {
    match elim_set(ra) {
        Some(e) => e,
        None => Seq::empty(),
    }
}

pub proof fn lemma_after_is_without(ra: RelAlgebra)
    ensures
        after(ra) == without(before(ra), dropped(ra)),
{
    if elim_set(ra) is None {
        reveal(Seq::filter);
        assert(without(before(ra), Seq::empty()) =~= before(ra)) by {
            lemma_without_nothing(before(ra));
        }
    }
}

pub proof fn lemma_without_nothing(b: Seq<Symbol>)
    ensures
        without(b, Seq::empty()) == b,
    decreases b.len(),
{
    reveal(Seq::filter);
    if b.len() > 0 {
        lemma_without_nothing(b.drop_last());
        assert(b.drop_last().push(b.last()) =~= b);
    }
}

/// The symbols of `b` not in `e`, in order.
pub fn symbols_without(b: &Vec<Symbol>, e: &Vec<Symbol>) -> (r: Vec<Symbol>)
    ensures
        r@ == without(b@, e@),
{
    let mut out: Vec<Symbol> = Vec::new();
    let mut i: usize = 0;
    while i < b.len()
        invariant
            i <= b.len(),
            out@ == without(b@.take(i as int), e@),
        decreases b.len() - i,
    {
        proof {
            reveal(Seq::filter);
            assert(b@.take(i as int + 1).drop_last() =~= b@.take(i as int));
        }
        if !has_symbol(e, b[i]) {
            out.push(b[i]);
        }
        i = i + 1;
    }
    assert(b@.take(i as int) =~= b@);
    out
}

/// A copy of a vector of symbols.
pub fn copy_symbols(b: &Vec<Symbol>) -> (r: Vec<Symbol>)
    ensures
        r@ == b@,
{
    let mut out: Vec<Symbol> = Vec::new();
    let mut i: usize = 0;
    while i < b.len()
        invariant
            i <= b.len(),
            out@ == b@.take(i as int),
        decreases b.len() - i,
    {
        out.push(b[i]);
        i = i + 1;
        assert(out@ =~= b@.take(i as int));
    }
    assert(b@.take(i as int) =~= b@);
    out
}

/// `a` followed by `b`.
pub fn append_symbols(a: &Vec<Symbol>, b: &Vec<Symbol>) -> (r: Vec<Symbol>)
    ensures
        r@ == a@ + b@,
{
    let mut out = copy_symbols(a);
    let mut i: usize = 0;
    while i < b.len()
        invariant
            i <= b.len(),
            out@ == a@ + b@.take(i as int),
        decreases b.len() - i,
    {
        out.push(b[i]);
        i = i + 1;
        assert(out@ =~= a@ + b@.take(i as int));
    }
    assert(b@.take(i as int) =~= b@);
    out
}

impl InlineFixedRA {
    /// The relation with no column and one empty tuple.
    pub fn unit() -> (r: Self)
        ensures
            r.bindings@.len() == 0,
            r.data@.len() == 1,
            r.data@[0]@.len() == 0,
            r.to_eliminate@.len() == 0,
    {
        let empty = Tuple(Vec::new());
        assert(empty@ =~= Seq::<Val>::empty());
        InlineFixedRA { bindings: Vec::new(), data: vec![empty], to_eliminate: Vec::new() }
    }
}

impl ReorderRA {
    /// The columns in their new order.
    pub fn bindings(&self) -> (r: Vec<Symbol>)
        ensures
            r@ == self.new_order@,
    {
        copy_symbols(&self.new_order)
    }
}

impl InnerJoin {
    /// The output columns of the left side followed by those of the right side.
    pub fn bindings(&self) -> (r: Vec<Symbol>)
        ensures
            r@ == after(self.left) + after(self.right),
    {
        let l = self.left.bindings_after_eliminate();
        let r = self.right.bindings_after_eliminate();
        append_symbols(&l, &r)
    }
}

impl RelAlgebra {
    /// The unit relation: no column, one tuple.
    pub fn unit() -> (r: Self)
        ensures
            r.is_unit_spec(),
            before(r).len() == 0,
            after(r).len() == 0,
            r->Fixed_0.data@[0]@.len() == 0,
            r->Fixed_0.to_eliminate@.len() == 0,
            forall|tx: SessionTx| #[trigger] well_formed(r, tx),
            forall|tx: SessionTx, epoch: Option<u32>, delta: Seq<u64>|
                #[trigger] eval_ra(r, tx, epoch, delta) == Ok::<Seq<Seq<Val>>, QErr>(seq![Seq::<Val>::empty()]),
    {
        let r = RelAlgebra::Fixed(InlineFixedRA::unit());
        proof {
            reveal(Seq::filter);
            let f = r->Fixed_0;
            assert(f.data@[0]@ =~= Seq::<Val>::empty());
            assert(rows(f.data@) =~= seq![Seq::<Val>::empty()]);
            assert(drop_at(Seq::<Val>::empty(), positions_of(f.bindings@, f.to_eliminate@)) =~= Seq::<Val>::empty());
            assert(fixed_rows(rows(f.data@), f.bindings@, f.to_eliminate@) =~= seq![Seq::<Val>::empty()]);
        }
        r
    }

    pub open spec fn is_unit_spec(&self) -> bool {
        self matches RelAlgebra::Fixed(f) && f.bindings@.len() == 0 && f.data@.len() == 1
    }

    /// Whether the node is the unit relation.
    pub fn is_unit(&self) -> (r: bool)
        ensures
            r == self.is_unit_spec(),
    {
        match self {
            RelAlgebra::Fixed(f) => f.bindings.len() == 0 && f.data.len() == 1,
            _ => false,
        }
    }

    /// The symbols this node drops, for the nodes that drop any.
    pub fn eliminate_set(&self) -> (r: Option<&Vec<Symbol>>)
        ensures
            r matches Some(v) ==> elim_set(*self) == Some(v@),
            r is None ==> elim_set(*self) is None,
    {
        match self {
            RelAlgebra::Fixed(f) => Some(&f.to_eliminate),
            RelAlgebra::Join(j) => Some(&j.to_eliminate),
            RelAlgebra::NegJoin(j) => Some(&j.to_eliminate),
            RelAlgebra::Filter(f) => Some(&f.to_eliminate),
            RelAlgebra::Unification(u) => Some(&u.to_eliminate),
            _ => None,
        }
    }

    /// The columns that the node's own operation produces.
    pub fn bindings_before_eliminate(&self) -> (r: Vec<Symbol>)
        ensures
            r@ == before(*self),
        decreases self, 0int,
    {
        match self {
            RelAlgebra::Fixed(f) => copy_symbols(&f.bindings),
            RelAlgebra::Triple(t) => {
                let r = vec![t.bindings[0], t.bindings[1]];
                assert(r@ =~= t.bindings@);
                r
            },
            RelAlgebra::Derived(d) => copy_symbols(&d.bindings),
            RelAlgebra::Relation(v) => copy_symbols(&v.bindings),
            RelAlgebra::Join(j) => {
                let l = j.left.bindings_after_eliminate();
                let r = j.right.bindings_after_eliminate();
                append_symbols(&l, &r)
            },
            RelAlgebra::Reorder(r) => r.bindings(),
            RelAlgebra::Filter(f) => f.parent.bindings_after_eliminate(),
            RelAlgebra::NegJoin(j) => j.left.bindings_after_eliminate(),
            RelAlgebra::Unification(u) => {
                let mut b = u.parent.bindings_after_eliminate();
                b.push(u.binding);
                b
            },
        }
    }

    /// The columns that the node outputs.
    pub fn bindings_after_eliminate(&self) -> (r: Vec<Symbol>)
        ensures
            r@ == after(*self),
        decreases self, 1int,
    {
        let ret = self.bindings_before_eliminate();
        match self.eliminate_set() {
            Some(e) => symbols_without(&ret, e),
            None => ret,
        }
    }

    /// The filter list of the innermost filterable source reached by descending
    /// right of joins and into filters.
    pub fn get_filters(&mut self) -> (r: Option<&mut Vec<Expr>>)
        ensures
            r is Some <==> has_filters(*old(self)),
            r matches Some(v) ==> v@ == reached_filters(*old(self)),
            r is None ==> *final(self) == *old(self),
            same_except_filters(*old(self), *final(self)),
        decreases *old(self),
    {
        match self {
            RelAlgebra::Triple(t) => Some(&mut t.filters),
            RelAlgebra::Derived(d) => Some(&mut d.filters),
            RelAlgebra::Join(j) => j.right.get_filters(),
            RelAlgebra::Filter(f) => Some(&mut f.pred),
            _ => None,
        }
    }

    /// Marks, top-down, the columns that no consumer of `used` needs, so that
    /// each node drops them as early as it can.
    pub fn eliminate_temp_vars(&mut self, used: &Vec<Symbol>) -> (r: Result<(), QueryError>)
        ensures
            r is Ok,
            eliminated(*old(self), *final(self), used@.to_set()),
            drops_distinct(*old(self)) ==> drops_distinct(*final(self)),
        decreases *old(self),
    {
        let ghost start = *self;
        let b = self.bindings_before_eliminate();
        match self {
            RelAlgebra::Fixed(f) => {
                push_unused(&mut f.to_eliminate, &b, used);
            },
            RelAlgebra::Triple(_) | RelAlgebra::Derived(_) | RelAlgebra::Relation(_) => {},
            RelAlgebra::Reorder(o) => {
                let _ = o.relation.eliminate_temp_vars(used);
            },
            RelAlgebra::Filter(f) => {
                push_unused(&mut f.to_eliminate, &b, used);
                let mut nxt = copy_symbols(used);
                add_filter_vars(&f.pred, &mut nxt);
                assert(nxt@.to_set() =~= used@.to_set().union(exprs_vars(f.pred@)));
                let _ = f.parent.eliminate_temp_vars(&nxt);
            },
            RelAlgebra::Unification(u) => {
                push_unused(&mut u.to_eliminate, &b, used);
                let mut nxt = copy_symbols(used);
                u.expr.collect_bindings(&mut nxt);
                assert(nxt@.to_set() =~= used@.to_set().union(expr_vars(u.expr)));
                let _ = u.parent.eliminate_temp_vars(&nxt);
            },
            RelAlgebra::NegJoin(j) => {
                push_unused(&mut j.to_eliminate, &b, used);
                let nxt = with_symbols(used, &j.joiner.left_keys);
                let _ = j.left.eliminate_temp_vars(&nxt);
            },
            RelAlgebra::Join(j) => {
                push_unused(&mut j.to_eliminate, &b, used);
                let mut left = with_symbols(used, &j.joiner.left_keys);
                let ghost base = left@;
                match &j.right {
                    RelAlgebra::Triple(t) => add_filter_vars(&t.filters, &mut left),
                    RelAlgebra::Derived(d) => add_filter_vars(&d.filters, &mut left),
                    RelAlgebra::Relation(v) => add_filter_vars(&v.filters, &mut left),
                    _ => {},
                }
                assert(left@.to_set() =~= base.to_set().union(pushed_filter_vars(j.right)));
                let _ = j.left.eliminate_temp_vars(&left);
                let right = with_symbols(used, &j.joiner.right_keys);
                let _ = j.right.eliminate_temp_vars(&right);
            },
        }
        proof { lemma_eliminated_distinct(start, *self, used@.to_set()); }
        Ok(())
    }

    /// Resolves every expression of the tree to column positions: those of a
    /// unary node against its child's output, those of a source against its own
    /// columns, and the filters of a join's right source against the join's
    /// columns.
    pub fn fill_normal_binding_indices(&mut self) -> (r: Result<(), QueryError>)
        ensures
            before(*final(self)) == before(*old(self)),
            after(*final(self)) == after(*old(self)),
            r is Ok <==> vars_available(*old(self)),
            r is Ok ==> indices_resolved(*final(self)),
            is_source(*final(self)) == is_source(*old(self)),
            refilled(*old(self), *final(self)),
        decreases *old(self), 0int,
    {
        let b = self.bindings_before_eliminate();
        match self {
            RelAlgebra::Fixed(_) => Ok(()),
            RelAlgebra::Triple(t) => fill_exprs(&mut t.filters, &b),
            RelAlgebra::Derived(d) => fill_exprs(&mut d.filters, &b),
            RelAlgebra::Relation(v) => fill_exprs(&mut v.filters, &b),
            RelAlgebra::Reorder(o) => o.relation.fill_normal_binding_indices(),
            RelAlgebra::Filter(f) => match f.parent.fill_normal_binding_indices() {
                Err(x) => {
                    proof { lemma_exprs_refilled_refl(f.pred@); }
                    Err(x)
                },
                Ok(()) => {
                    let pb = f.parent.bindings_after_eliminate();
                    fill_exprs(&mut f.pred, &pb)
                },
            },
            RelAlgebra::NegJoin(j) => j.left.fill_normal_binding_indices(),
            RelAlgebra::Unification(u) => match u.parent.fill_normal_binding_indices() {
                Err(x) => {
                    proof { lemma_same_refl(u.expr); }
                    Err(x)
                },
                Ok(()) => {
                    let pb = u.parent.bindings_after_eliminate();
                    u.expr.fill_binding_indices(&pb)
                },
            },
            RelAlgebra::Join(j) => match j.left.fill_normal_binding_indices() {
                Err(x) => {
                    proof { lemma_refilled_refl(j.right); }
                    Err(x)
                },
                Ok(()) => j.right.fill_join_binding_indices(&b),
            },
        }
    }

    /// Resolves the expressions of a join's right side; the filters of a source
    /// against the join's columns `bindings`.
    pub fn fill_join_binding_indices(&mut self, bindings: &Vec<Symbol>) -> (r: Result<(), QueryError>)
        ensures
            before(*final(self)) == before(*old(self)),
            after(*final(self)) == after(*old(self)),
            r is Ok <==> join_available(*old(self), bindings@),
            r is Ok ==> join_resolved(*final(self), bindings@),
            refilled(*old(self), *final(self)),
        decreases *old(self), 1int,
    {
        match self {
            RelAlgebra::Triple(t) => {
                let r = fill_exprs(&mut t.filters, bindings);
                r
            },
            RelAlgebra::Derived(d) => {
                let r = fill_exprs(&mut d.filters, bindings);
                r
            },
            RelAlgebra::Relation(v) => {
                let r = fill_exprs(&mut v.filters, bindings);
                r
            },
            _ => self.fill_normal_binding_indices(),
        }
    }

    /// Joins with `right` where no variable is shared.
    pub fn cartesian_join(self, right: RelAlgebra) -> (r: Self)
        ensures
            r == (RelAlgebra::Join(Box::new(InnerJoin {
                left: self,
                right: right,
                joiner: r->Join_0.joiner,
                to_eliminate: r->Join_0.to_eliminate,
            }))),
            r->Join_0.joiner.left_keys@.len() == 0,
            r->Join_0.joiner.right_keys@.len() == 0,
            r->Join_0.to_eliminate@.len() == 0,
    {
        self.join(right, Vec::new(), Vec::new())
    }

    /// A node reading a derived relation.
    pub fn derived(bindings: Vec<Symbol>, storage: DerivedRelStore) -> (r: Self)
        ensures
            r matches RelAlgebra::Derived(d) && d.bindings == bindings && d.storage == storage && d.filters@.len() == 0,
    {
        RelAlgebra::Derived(DerivedRA { bindings, storage, filters: Vec::new() })
    }

    /// A node reading a stored relation.
    pub fn relation(bindings: Vec<Symbol>, storage: RelationMetadata) -> (r: Self)
        ensures
            r matches RelAlgebra::Relation(v) && v.bindings == bindings && v.storage == storage && v.filters@.len() == 0,
    {
        RelAlgebra::Relation(RelationRA { bindings, storage, filters: Vec::new() })
    }

    /// A node reading the facts of one attribute as columns `[e_binding, v_binding]`.
    pub fn triple(attr: Attribute, vld: i64, e_binding: Symbol, v_binding: Symbol, span: SourceSpan) -> (r: Self)
        ensures
            r matches RelAlgebra::Triple(t) && t.attr == attr && t.vld == vld && t.span == span
                && t.bindings@ == seq![e_binding, v_binding] && t.filters@.len() == 0,
    {
        let r = RelAlgebra::Triple(TripleRA { attr, vld, bindings: [e_binding, v_binding], filters: Vec::new(), span });
        assert(r->Triple_0.bindings@ =~= seq![e_binding, v_binding]);
        r
    }

    /// The node's output with its columns in `new_order`.
    pub fn reorder(self, new_order: Vec<Symbol>) -> (r: Self)
        ensures
            r matches RelAlgebra::Reorder(o) && *o.relation == self && o.new_order == new_order,
    {
        RelAlgebra::Reorder(ReorderRA { relation: Box::new(self), new_order })
    }

    /// The node's output restricted to the tuples on which `filter` holds.
    pub fn filter(self, filter: Expr) -> (r: Self)
        ensures
            r matches RelAlgebra::Filter(f) && *f.parent == self && f.pred@ == seq![filter] && f.to_eliminate@.len() == 0,
    {
        let r = RelAlgebra::Filter(FilteredRA { parent: Box::new(self), pred: vec![filter], to_eliminate: Vec::new() });
        assert(r->Filter_0.pred@ =~= seq![filter]);
        r
    }

    /// The node's output extended by a column `binding` computed by `expr`.
    pub fn unify(self, binding: Symbol, expr: Expr, is_multi: bool, span: SourceSpan) -> (r: Self)
        ensures
            r matches RelAlgebra::Unification(u) && *u.parent == self && u.binding == binding && u.expr == expr
                && u.is_multi == is_multi && u.span == span && u.to_eliminate@.len() == 0,
    {
        RelAlgebra::Unification(UnificationRA {
            parent: Box::new(self),
            binding,
            expr,
            is_multi,
            to_eliminate: Vec::new(),
            span,
        })
    }

    /// Inner join with `right`, equating `left_keys` with `right_keys` pairwise.
    pub fn join(self, right: RelAlgebra, left_keys: Vec<Symbol>, right_keys: Vec<Symbol>) -> (r: Self)
        ensures
            r matches RelAlgebra::Join(j) && j.left == self && j.right == right && j.joiner.left_keys == left_keys
                && j.joiner.right_keys == right_keys && j.to_eliminate@.len() == 0,
    {
        RelAlgebra::Join(Box::new(InnerJoin {
            left: self,
            right,
            joiner: Joiner { left_keys, right_keys },
            to_eliminate: Vec::new(),
        }))
    }

    /// The tuples of this node that match no tuple of `right` on the keys.
    pub fn neg_join(self, right: RelAlgebra, left_keys: Vec<Symbol>, right_keys: Vec<Symbol>) -> (r: Self)
        ensures
            r matches RelAlgebra::NegJoin(j) && j.left == self && j.right == right && j.joiner.left_keys == left_keys
                && j.joiner.right_keys == right_keys && j.to_eliminate@.len() == 0,
    {
        RelAlgebra::NegJoin(Box::new(NegJoin {
            left: self,
            right,
            joiner: Joiner { left_keys, right_keys },
            to_eliminate: Vec::new(),
        }))
    }
}


/// The variables of the filters that a join pushes down to its right side.
pub open spec fn pushed_filter_vars(ra: RelAlgebra) -> Set<Symbol> {
    match ra {
        RelAlgebra::Triple(t) => exprs_vars(t.filters@),
        RelAlgebra::Derived(d) => exprs_vars(d.filters@),
        RelAlgebra::Relation(v) => exprs_vars(v.filters@),
        _ => Set::empty(),
    }
}

/// `new` is `old` after eliminating, top-down, the columns that no consumer
/// of `used` needs: each node that drops columns adds to its drop list those of
/// its own columns that `used` lacks, and asks its children for `used` and what
/// it needs itself.
pub open spec fn eliminated(old: RelAlgebra, new: RelAlgebra, used: Set<Symbol>) -> bool
    decreases old,
{
    match old {
        RelAlgebra::Fixed(f) => new matches RelAlgebra::Fixed(g) && g.bindings == f.bindings && g.data == f.data
            && g.to_eliminate@ == add_unused(f.to_eliminate@, before(old), used),
        RelAlgebra::Triple(_) | RelAlgebra::Derived(_) | RelAlgebra::Relation(_) => new == old,
        RelAlgebra::Reorder(o) => new matches RelAlgebra::Reorder(n) && n.new_order == o.new_order
            && eliminated(*o.relation, *n.relation, used),
        RelAlgebra::Filter(f) => new matches RelAlgebra::Filter(g) && g.pred == f.pred
            && g.to_eliminate@ == add_unused(f.to_eliminate@, before(old), used)
            && eliminated(*f.parent, *g.parent, used.union(exprs_vars(f.pred@))),
        RelAlgebra::Unification(u) => new matches RelAlgebra::Unification(w) && w.binding == u.binding
            && w.expr == u.expr && w.is_multi == u.is_multi && w.span == u.span
            && w.to_eliminate@ == add_unused(u.to_eliminate@, before(old), used)
            && eliminated(*u.parent, *w.parent, used.union(expr_vars(u.expr))),
        RelAlgebra::NegJoin(j) => new matches RelAlgebra::NegJoin(k) && k.right == j.right && k.joiner == j.joiner
            && k.to_eliminate@ == add_unused(j.to_eliminate@, before(old), used)
            && eliminated(j.left, k.left, used.union(j.joiner.left_keys@.to_set())),
        RelAlgebra::Join(j) => new matches RelAlgebra::Join(k) && k.joiner == j.joiner
            && k.to_eliminate@ == add_unused(j.to_eliminate@, before(old), used)
            && eliminated(j.left, k.left, used.union(j.joiner.left_keys@.to_set()).union(pushed_filter_vars(j.right)))
            && eliminated(j.right, k.right, used.union(j.joiner.right_keys@.to_set())),
    }
}

/// `dst` extended, in order, by the symbols of `b` that `used` lacks and that
/// it does not hold yet.
pub open spec fn add_unused(dst: Seq<Symbol>, b: Seq<Symbol>, used: Set<Symbol>) -> Seq<Symbol>
    decreases b.len(),
{
    if b.len() == 0 {
        dst
    } else {
        let prev = add_unused(dst, b.drop_last(), used);
        if !used.contains(b.last()) && !prev.contains(b.last()) {
            prev.push(b.last())
        } else {
            prev
        }
    }
}

/// Every drop list in the tree holds no symbol twice.
pub open spec fn drops_distinct(ra: RelAlgebra) -> bool
    decreases ra,
{
    dropped(ra).no_duplicates() && match ra {
        RelAlgebra::Reorder(o) => drops_distinct(*o.relation),
        RelAlgebra::Filter(f) => drops_distinct(*f.parent),
        RelAlgebra::Unification(u) => drops_distinct(*u.parent),
        RelAlgebra::NegJoin(j) => drops_distinct(j.left) && drops_distinct(j.right),
        RelAlgebra::Join(j) => drops_distinct(j.left) && drops_distinct(j.right),
        _ => true,
    }
}

/// Elimination keeps every drop list free of repeated symbols.
pub proof fn lemma_eliminated_distinct(old: RelAlgebra, new: RelAlgebra, used: Set<Symbol>)
    requires
        eliminated(old, new, used),
    ensures
        drops_distinct(old) ==> drops_distinct(new),
    decreases old,
{
    lemma_add_unused(dropped(old), before(old), used);
    match old {
        RelAlgebra::Reorder(o) => lemma_eliminated_distinct(*o.relation, *new->Reorder_0.relation, used),
        RelAlgebra::Filter(f) => lemma_eliminated_distinct(*f.parent, *new->Filter_0.parent, used.union(exprs_vars(f.pred@))),
        RelAlgebra::Unification(u) => lemma_eliminated_distinct(*u.parent, *new->Unification_0.parent, used.union(expr_vars(u.expr))),
        RelAlgebra::NegJoin(j) => lemma_eliminated_distinct(j.left, new->NegJoin_0.left, used.union(j.joiner.left_keys@.to_set())),
        RelAlgebra::Join(j) => {
            lemma_eliminated_distinct(j.left, new->Join_0.left,
                used.union(j.joiner.left_keys@.to_set()).union(pushed_filter_vars(j.right)));
            lemma_eliminated_distinct(j.right, new->Join_0.right, used.union(j.joiner.right_keys@.to_set()));
        },
        _ => {},
    }
}

/// `add_unused` keeps `dst` as its prefix, adds every symbol of `b` that `used`
/// lacks, and adds no symbol twice.
pub proof fn lemma_add_unused(dst: Seq<Symbol>, b: Seq<Symbol>, used: Set<Symbol>)
    ensures
        add_unused(dst, b, used).len() >= dst.len(),
        forall|i: int| 0 <= i < dst.len() ==> #[trigger] add_unused(dst, b, used)[i] == dst[i],
        forall|x: Symbol| b.contains(x) && !used.contains(x) ==> #[trigger] add_unused(dst, b, used).contains(x),
        forall|x: Symbol| #[trigger] add_unused(dst, b, used).contains(x) ==> dst.contains(x) || !used.contains(x),
        dst.no_duplicates() ==> add_unused(dst, b, used).no_duplicates(),
    decreases b.len(),
{
    if b.len() > 0 {
        let rest = b.drop_last();
        lemma_add_unused(dst, rest, used);
        let prev = add_unused(dst, rest, used);
        let x = b.last();
        assert forall|y: Symbol| #[trigger] add_unused(dst, b, used).contains(y) implies dst.contains(y) || !used.contains(y) by {
            if !used.contains(x) && !prev.contains(x) {
                assert(add_unused(dst, b, used) == prev.push(x));
                let m = choose|m: int| 0 <= m < prev.push(x).len() && prev.push(x)[m] == y;
                if m < prev.len() {
                    assert(prev[m] == y);
                    assert(prev.contains(y));
                } else {
                    assert(y == x);
                }
            } else {
                assert(add_unused(dst, b, used) == prev);
                assert(prev.contains(y));
            }
        }
        assert forall|y: Symbol| b.contains(y) && !used.contains(y) implies #[trigger] add_unused(dst, b, used).contains(y) by {
            let k = choose|k: int| 0 <= k < b.len() && b[k] == y;
            if k < rest.len() {
                assert(rest[k] == y);
                assert(prev.contains(y));
                let m = choose|m: int| 0 <= m < prev.len() && prev[m] == y;
                if !used.contains(x) && !prev.contains(x) {
                    assert(prev.push(x)[m] == y);
                }
            } else {
                if !prev.contains(x) {
                    assert(prev.push(x)[prev.len() as int] == y);
                }
            }
        }
    }
}

/// Appends to `dst` the symbols of `b` that `used` lacks and `dst` does not hold yet.
fn push_unused(dst: &mut Vec<Symbol>, b: &Vec<Symbol>, used: &Vec<Symbol>)
    ensures
        final(dst)@ == add_unused(old(dst)@, b@, used@.to_set()),
{
    let ghost start = dst@;
    let mut i: usize = 0;
    assert(b@.take(0) =~= Seq::<Symbol>::empty());
    while i < b.len()
        invariant
            i <= b.len(),
            dst@ == add_unused(start, b@.take(i as int), used@.to_set()),
        decreases b.len() - i,
    {
        assert(b@.take(i as int + 1).drop_last() =~= b@.take(i as int));
        assert(b@.take(i as int + 1).last() == b@[i as int]);
        if !has_symbol(used, b[i]) && !has_symbol(dst, b[i]) {
            dst.push(b[i]);
        }
        i = i + 1;
    }
    assert(b@.take(i as int) =~= b@);
}

/// Adds to `out` the variables of the filters.
fn add_filter_vars(fs: &Vec<Expr>, out: &mut Vec<Symbol>)
    ensures
        forall|s: Symbol| #[trigger] final(out)@.contains(s) <==> (old(out)@.contains(s) || exprs_vars(fs@).contains(s)),
{
    let ghost start = out@;
    let mut k: usize = 0;
    while k < fs.len()
        invariant
            k <= fs.len(),
            forall|s: Symbol| #[trigger] out@.contains(s) <==> (start.contains(s)
                || exists|i: int| 0 <= i < k && #[trigger] expr_vars(fs@[i]).contains(s)),
        decreases fs.len() - k,
    {
        fs[k].collect_bindings(out);
        k = k + 1;
    }
}

/// `used` extended by `more`.
fn with_symbols(used: &Vec<Symbol>, more: &Vec<Symbol>) -> (r: Vec<Symbol>)
    ensures
        r@.to_set() == used@.to_set().union(more@.to_set()),
{
    let r = append_symbols(used, more);
    assert forall|s: Symbol| r@.to_set().contains(s) <==> used@.to_set().union(more@.to_set()).contains(s) by {
        if r@.contains(s) {
            let i = choose|i: int| 0 <= i < r@.len() && r@[i] == s;
            if i < used@.len() {
                assert(used@[i] == s);
            } else {
                assert(more@[i - used@.len()] == s);
            }
        }
        if used@.contains(s) {
            let i = choose|i: int| 0 <= i < used@.len() && used@[i] == s;
            assert(r@[i] == s);
        }
        if more@.contains(s) {
            let i = choose|i: int| 0 <= i < more@.len() && more@[i] == s;
            assert(r@[used@.len() + i] == s);
        }
    }
    assert(r@.to_set() =~= used@.to_set().union(more@.to_set()));
    r
}

pub proof fn lemma_without_contains(b: Seq<Symbol>, e: Seq<Symbol>, x: Symbol)
    ensures
        without(b, e).contains(x) <==> (b.contains(x) && !e.contains(x)),
{
    let p = |y: Symbol| !e.contains(y);
    if without(b, e).contains(x) {
        b.lemma_filter_contains_rev(p, x);
        let i = choose|i: int| 0 <= i < b.filter(p).len() && b.filter(p)[i] == x;
        b.lemma_filter_pred(p, i);
    }
    if b.contains(x) && !e.contains(x) {
        let i = choose|i: int| 0 <= i < b.len() && b[i] == x;
        b.lemma_filter_contains(p, i);
    }
}


/// Elimination only removes output columns: whatever a node outputs, or
/// produces before dropping, afterwards, it did before.
pub proof fn lemma_eliminated_shrinks(old: RelAlgebra, new: RelAlgebra, used: Set<Symbol>)
    requires
        eliminated(old, new, used),
    ensures
        forall|x: Symbol| before(new).contains(x) ==> before(old).contains(x),
        forall|x: Symbol| after(new).contains(x) ==> after(old).contains(x),
        forall|x: Symbol| after(new).contains(x) ==> !dropped(new).contains(x),
    decreases old,
{
    match old {
        RelAlgebra::Reorder(o) => {
            let n = new->Reorder_0;
            lemma_eliminated_shrinks(*o.relation, *n.relation, used);
            assert(before(new) == before(old));
        },
        RelAlgebra::Filter(f) => {
            let g = new->Filter_0;
            lemma_eliminated_shrinks(*f.parent, *g.parent, used.union(exprs_vars(f.pred@)));
            assert(before(new) == after(*g.parent));
            assert(before(old) == after(*f.parent));
        },
        RelAlgebra::Unification(u) => {
            let w = new->Unification_0;
            lemma_eliminated_shrinks(*u.parent, *w.parent, used.union(expr_vars(u.expr)));
            assert(before(new) == after(*w.parent).push(w.binding));
            assert(before(old) == after(*u.parent).push(u.binding));
            assert forall|x: Symbol| before(new).contains(x) implies before(old).contains(x) by {
                if before(new).contains(x) && x != u.binding {
                    let i = choose|i: int| 0 <= i < before(new).len() && before(new)[i] == x;
                    assert(after(*w.parent)[i] == x);
                    assert(after(*u.parent).contains(x));
                    let k = choose|k: int| 0 <= k < after(*u.parent).len() && after(*u.parent)[k] == x;
                    assert(before(old)[k] == x);
                }
                if x == u.binding {
                    assert(before(old)[before(old).len() - 1] == x);
                }
            }
        },
        RelAlgebra::NegJoin(j) => {
            let k = new->NegJoin_0;
            lemma_eliminated_shrinks(j.left, k.left, used.union(j.joiner.left_keys@.to_set()));
            assert(before(new) == after(k.left));
            assert(before(old) == after(j.left));
        },
        RelAlgebra::Join(j) => {
            let k = new->Join_0;
            lemma_eliminated_shrinks(j.left, k.left,
                used.union(j.joiner.left_keys@.to_set()).union(pushed_filter_vars(j.right)));
            lemma_eliminated_shrinks(j.right, k.right, used.union(j.joiner.right_keys@.to_set()));
            assert(before(new) == after(k.left) + after(k.right));
            assert(before(old) == after(j.left) + after(j.right));
            assert forall|x: Symbol| before(new).contains(x) implies before(old).contains(x) by {
                let i = choose|i: int| 0 <= i < before(new).len() && before(new)[i] == x;
                if i < after(k.left).len() {
                    assert(after(k.left)[i] == x);
                    assert(after(k.left).contains(x));
                    let m = choose|m: int| 0 <= m < after(j.left).len() && after(j.left)[m] == x;
                    assert(before(old)[m] == x);
                } else {
                    assert(after(k.right)[i - after(k.left).len()] == x);
                    assert(after(k.right).contains(x));
                    let m = choose|m: int| 0 <= m < after(j.right).len() && after(j.right)[m] == x;
                    assert(before(old)[after(j.left).len() + m] == x);
                }
            }
        },
        RelAlgebra::Fixed(f) => {
            assert(before(new) == before(old));
        },
        _ => {},
    }
    lemma_after_is_without(old);
    lemma_after_is_without(new);
    assert forall|x: Symbol| after(new).contains(x) implies after(old).contains(x) && !dropped(new).contains(x) by {
        lemma_without_contains(before(new), dropped(new), x);
        lemma_without_contains(before(old), dropped(old), x);
        assert(forall|y: Symbol| dropped(old).contains(y) ==> dropped(new).contains(y)) by {
            assert forall|y: Symbol| dropped(old).contains(y) implies dropped(new).contains(y) by {
                if elim_set(old) is Some {
                    let i = choose|i: int| 0 <= i < dropped(old).len() && dropped(old)[i] == y;
                    lemma_add_unused(dropped(old), before(old), used);
                    assert(dropped(new)[i] == y);
                }
            }
        }
    }
}

/// Every expression of `fs` is resolved against `ctx`.
pub open spec fn all_resolved(fs: Seq<Expr>, ctx: Seq<Symbol>) -> bool {
    forall|i: int| 0 <= i < fs.len() ==> #[trigger] resolved(fs[i], ctx)
}

/// Every variable of every expression of `fs` is a column of `ctx`.
pub open spec fn all_available(fs: Seq<Expr>, ctx: Seq<Symbol>) -> bool {
    forall|i: int| 0 <= i < fs.len() ==> #[trigger] expr_vars(fs[i]).subset_of(ctx.to_set())
}

/// Every expression of the tree is resolved against the columns it is
/// evaluated on: a unary node's against its child's output, a source's against
/// its own columns, and the filters of a join's right source against the
/// join's columns.
pub open spec fn indices_resolved(ra: RelAlgebra) -> bool
    decreases ra, 0int,
{
    match ra {
        RelAlgebra::Fixed(_) => true,
        RelAlgebra::Triple(t) => all_resolved(t.filters@, before(ra)),
        RelAlgebra::Derived(d) => all_resolved(d.filters@, before(ra)),
        RelAlgebra::Relation(v) => all_resolved(v.filters@, before(ra)),
        RelAlgebra::Reorder(o) => indices_resolved(*o.relation),
        RelAlgebra::Filter(f) => indices_resolved(*f.parent) && all_resolved(f.pred@, after(*f.parent)),
        RelAlgebra::Unification(u) => indices_resolved(*u.parent) && resolved(u.expr, after(*u.parent)),
        RelAlgebra::NegJoin(j) => indices_resolved(j.left),
        RelAlgebra::Join(j) => indices_resolved(j.left) && join_resolved(j.right, before(ra)),
    }
}

/// The right side of a join is resolved, its own filters against `ctx`.
pub open spec fn join_resolved(ra: RelAlgebra, ctx: Seq<Symbol>) -> bool
    decreases ra, 1int,
{
    match ra {
        RelAlgebra::Triple(t) => all_resolved(t.filters@, ctx),
        RelAlgebra::Derived(d) => all_resolved(d.filters@, ctx),
        RelAlgebra::Relation(v) => all_resolved(v.filters@, ctx),
        _ => indices_resolved(ra),
    }
}

/// Every expression of the tree mentions only columns it can be resolved to.
pub open spec fn vars_available(ra: RelAlgebra) -> bool
    decreases ra, 0int,
{
    match ra {
        RelAlgebra::Fixed(_) => true,
        RelAlgebra::Triple(t) => all_available(t.filters@, before(ra)),
        RelAlgebra::Derived(d) => all_available(d.filters@, before(ra)),
        RelAlgebra::Relation(v) => all_available(v.filters@, before(ra)),
        RelAlgebra::Reorder(o) => vars_available(*o.relation),
        RelAlgebra::Filter(f) => vars_available(*f.parent) && all_available(f.pred@, after(*f.parent)),
        RelAlgebra::Unification(u) => vars_available(*u.parent) && expr_vars(u.expr).subset_of(after(*u.parent).to_set()),
        RelAlgebra::NegJoin(j) => vars_available(j.left),
        RelAlgebra::Join(j) => vars_available(j.left) && join_available(j.right, before(ra)),
    }
}

/// The right side of a join can be resolved, its own filters against `ctx`.
pub open spec fn join_available(ra: RelAlgebra, ctx: Seq<Symbol>) -> bool
    decreases ra, 1int,
{
    match ra {
        RelAlgebra::Triple(t) => all_available(t.filters@, ctx),
        RelAlgebra::Derived(d) => all_available(d.filters@, ctx),
        RelAlgebra::Relation(v) => all_available(v.filters@, ctx),
        _ => vars_available(ra),
    }
}

/// Resolves each expression of `fs` against `ctx`, stopping at the first failure.
fn fill_exprs(fs: &mut Vec<Expr>, ctx: &Vec<Symbol>) -> (r: Result<(), QueryError>)
    ensures
        final(fs)@.len() == old(fs)@.len(),
        r is Ok <==> all_available(old(fs)@, ctx@),
        r is Ok ==> all_resolved(final(fs)@, ctx@),
        exprs_refilled(old(fs)@, final(fs)@),
{
    let ghost start = fs@;
    let mut outcome: Result<(), QueryError> = Ok(());
    let mut i: usize = 0;
    assert forall|j: int| 0 <= j < start.len() implies #[trigger] same_but_positions(start[j], fs@[j]) by {
        lemma_same_refl(start[j]);
    }
    while i < fs.len()
        invariant
            i <= fs@.len(),
            fs@.len() == start.len(),
            forall|j: int| 0 <= j < start.len() ==> #[trigger] same_but_positions(start[j], fs@[j]),
            outcome is Ok ==> forall|j: int| 0 <= j < i ==> #[trigger] resolved(fs@[j], ctx@),
            outcome is Ok ==> forall|j: int| 0 <= j < i ==> #[trigger] expr_vars(start[j]).subset_of(ctx@.to_set()),
            outcome is Ok ==> forall|j: int| i <= j < fs@.len() ==> #[trigger] fs@[j] == start[j],
            outcome is Err ==> !all_available(start, ctx@),
            outcome is Err ==> i == fs@.len(),
        decreases fs@.len() - i,
    {
        let res = fs[i].fill_binding_indices(ctx);
        match res {
            Err(x) => {
                assert(!expr_vars(start[i as int]).subset_of(ctx@.to_set()));
                outcome = Err(x);
                i = fs.len();
            },
            Ok(()) => {
                i = i + 1;
            },
        }
    }
    outcome
}

/// `b` is `a` with each expression's variables possibly resolved to other columns.
pub open spec fn exprs_refilled(a: Seq<Expr>, b: Seq<Expr>) -> bool {
    a.len() == b.len() && forall|i: int| 0 <= i < a.len() ==> #[trigger] same_but_positions(a[i], b[i])
}

/// `new` is the tree `old` with only the columns its expressions' variables are
/// resolved to changed: every node keeps its kind, fields and children.
pub open spec fn refilled(old: RelAlgebra, new: RelAlgebra) -> bool
    decreases old,
{
    match old {
        RelAlgebra::Fixed(_) => new == old,
        RelAlgebra::Triple(t) => new matches RelAlgebra::Triple(u) && u.attr == t.attr && u.vld == t.vld
            && u.bindings == t.bindings && u.span == t.span && exprs_refilled(t.filters@, u.filters@),
        RelAlgebra::Derived(d) => new matches RelAlgebra::Derived(e) && e.bindings == d.bindings
            && e.storage == d.storage && exprs_refilled(d.filters@, e.filters@),
        RelAlgebra::Relation(v) => new matches RelAlgebra::Relation(w) && w.bindings == v.bindings
            && w.storage == v.storage && exprs_refilled(v.filters@, w.filters@),
        RelAlgebra::Reorder(o) => new matches RelAlgebra::Reorder(n) && n.new_order == o.new_order
            && refilled(*o.relation, *n.relation),
        RelAlgebra::Filter(f) => new matches RelAlgebra::Filter(g) && g.to_eliminate == f.to_eliminate
            && exprs_refilled(f.pred@, g.pred@) && refilled(*f.parent, *g.parent),
        RelAlgebra::Unification(u) => new matches RelAlgebra::Unification(w) && w.binding == u.binding
            && w.is_multi == u.is_multi && w.span == u.span && w.to_eliminate == u.to_eliminate
            && same_but_positions(u.expr, w.expr) && refilled(*u.parent, *w.parent),
        RelAlgebra::NegJoin(j) => new matches RelAlgebra::NegJoin(k) && k.right == j.right && k.joiner == j.joiner
            && k.to_eliminate == j.to_eliminate && refilled(j.left, k.left),
        RelAlgebra::Join(j) => new matches RelAlgebra::Join(k) && k.joiner == j.joiner
            && k.to_eliminate == j.to_eliminate && refilled(j.left, k.left) && refilled(j.right, k.right),
    }
}

pub proof fn lemma_exprs_refilled_refl(a: Seq<Expr>)
    ensures
        exprs_refilled(a, a),
{
    assert forall|i: int| 0 <= i < a.len() implies #[trigger] same_but_positions(a[i], a[i]) by {
        lemma_same_refl(a[i]);
    }
}

/// Every tree is a refilling of itself.
pub proof fn lemma_refilled_refl(ra: RelAlgebra)
    ensures
        refilled(ra, ra),
    decreases ra,
{
    match ra {
        RelAlgebra::Triple(t) => lemma_exprs_refilled_refl(t.filters@),
        RelAlgebra::Derived(d) => lemma_exprs_refilled_refl(d.filters@),
        RelAlgebra::Relation(v) => lemma_exprs_refilled_refl(v.filters@),
        RelAlgebra::Reorder(o) => lemma_refilled_refl(*o.relation),
        RelAlgebra::Filter(f) => {
            lemma_exprs_refilled_refl(f.pred@);
            lemma_refilled_refl(*f.parent);
        },
        RelAlgebra::Unification(u) => {
            lemma_same_refl(u.expr);
            lemma_refilled_refl(*u.parent);
        },
        RelAlgebra::NegJoin(j) => lemma_refilled_refl(j.left),
        RelAlgebra::Join(j) => {
            lemma_refilled_refl(j.left);
            lemma_refilled_refl(j.right);
        },
        RelAlgebra::Fixed(_) => {},
    }
}

/// The node reads a store directly.
pub open spec fn is_source(ra: RelAlgebra) -> bool {
    ra is Triple || ra is Derived || ra is Relation
}

/// `new` is `old` with at most the filter list that `get_filters` reaches
/// changed.
pub open spec fn same_except_filters(old: RelAlgebra, new: RelAlgebra) -> bool
    decreases old,
{
    match old {
        RelAlgebra::Triple(t) => new matches RelAlgebra::Triple(u) && u.attr == t.attr && u.vld == t.vld
            && u.bindings == t.bindings && u.span == t.span,
        RelAlgebra::Derived(d) => new matches RelAlgebra::Derived(e) && e.bindings == d.bindings && e.storage == d.storage,
        RelAlgebra::Filter(f) => new matches RelAlgebra::Filter(g) && g.parent == f.parent && g.to_eliminate == f.to_eliminate,
        RelAlgebra::Join(j) => new matches RelAlgebra::Join(k) && k.left == j.left && k.joiner == j.joiner
            && k.to_eliminate == j.to_eliminate && same_except_filters(j.right, k.right),
        _ => new == old,
    }
}

/// The filters of the node that `get_filters` reaches.
pub open spec fn reached_filters(ra: RelAlgebra) -> Seq<Expr>
    decreases ra,
{
    match ra {
        RelAlgebra::Triple(t) => t.filters@,
        RelAlgebra::Derived(d) => d.filters@,
        RelAlgebra::Filter(f) => f.pred@,
        RelAlgebra::Join(j) => reached_filters(j.right),
        _ => Seq::empty(),
    }
}

/// Descending right of joins and into filters reaches a node with filters.
pub open spec fn has_filters(ra: RelAlgebra) -> bool
    decreases ra,
{
    match ra {
        RelAlgebra::Triple(_) | RelAlgebra::Derived(_) | RelAlgebra::Filter(_) => true,
        RelAlgebra::Join(j) => has_filters(j.right),
        _ => false,
    }
}

} // verus!
