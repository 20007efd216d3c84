//! Properties of the operator tree, stated over the models and proved.
use vstd::prelude::*;
use crate::relation::{
    all_resolved, NegJoin, DerivedRA, InlineFixedRA, TripleRA, RelAlgebra, after, before, dropped, eliminated, lemma_after_is_without, lemma_eliminated_shrinks,
    lemma_without_contains,
};
use crate::error::QErr;
use crate::relation::{InnerJoin, without};
use crate::expr::exprs_vars;
use crate::semantics::{
    Outcome, eval_ra, flat_rows, lemma_eval_arity, rows_have_len, triple_join, triple_row, well_formed,
    hash_join, hash_row, key_filter, joined, extend_each, keep_row, fixed_rows, tquery, cartesian_range,
    anti_join, anti_row, reorder_row, reorder_rows,
};
use crate::expr::{Expr, const_under, eval_expr, eval_pred, is_column, lower_bound, lower_from, resolved, same_but_positions, upper_bound, upper_from};
use crate::store::{SessionTx, TripleQuery, TripleRow, triple_hits};
use crate::tuple::{drop_at, lemma_drop_nothing, positions_of, rows};
use crate::value::{Symbol, Val, val_le};

verus! {

/// A node outputs only columns that its own operation produces.
pub proof fn after_within_before(ra: RelAlgebra)
    ensures
        forall|x: Symbol| after(ra).contains(x) ==> before(ra).contains(x),
{
    lemma_after_is_without(ra);
    assert forall|x: Symbol| after(ra).contains(x) implies before(ra).contains(x) by {
        lemma_without_contains(before(ra), dropped(ra), x);
    }
}

/// After eliminating for `used`, a node that drops columns outputs only symbols
/// of `used`. Sources and reorders drop nothing themselves and are left out.
pub proof fn elimination_keeps_only_used(old: RelAlgebra, new: RelAlgebra, used: Set<Symbol>)
    requires
        eliminated(old, new, used),
        !(old is Triple || old is Derived || old is Relation || old is Reorder),
    ensures
        forall|x: Symbol| after(new).contains(x) ==> used.contains(x),
{
    lemma_eliminated_shrinks(old, new, used);
    lemma_after_is_without(new);
    assert forall|x: Symbol| after(new).contains(x) implies used.contains(x) by {
        lemma_without_contains(before(new), dropped(new), x);
        assert(before(old).contains(x));
        if !used.contains(x) {
            crate::relation::lemma_add_unused(dropped(old), before(old), used);
            assert(dropped(new).contains(x));
        }
    }
}

/// No node of the tree drops a column yet, as built by the constructors.
pub open spec fn no_drops(ra: RelAlgebra) -> bool
    decreases ra,
{
    dropped(ra).len() == 0 && match ra {
        RelAlgebra::Reorder(o) => no_drops(*o.relation),
        RelAlgebra::Filter(f) => no_drops(*f.parent),
        RelAlgebra::Unification(u) => no_drops(*u.parent),
        RelAlgebra::NegJoin(j) => no_drops(j.left),
        RelAlgebra::Join(j) => no_drops(j.left) && no_drops(j.right),
        _ => true,
    }
}

/// Eliminating for `used` on a tree that drops nothing yet keeps every output
/// column whose symbol is in `used`.
pub proof fn elimination_keeps_used(old: RelAlgebra, new: RelAlgebra, used: Set<Symbol>, x: Symbol)
    requires
        eliminated(old, new, used),
        no_drops(old),
        used.contains(x),
        after(old).contains(x),
    ensures
        after(new).contains(x),
    decreases old,
{
    lemma_after_is_without(old);
    lemma_after_is_without(new);
    lemma_without_contains(before(old), dropped(old), x);
    match old {
        RelAlgebra::Reorder(o) => {
            assert(before(new) == before(old));
        },
        RelAlgebra::Filter(f) => {
            let g = new->Filter_0;
            elimination_keeps_used(*f.parent, *g.parent, used.union(exprs_vars(f.pred@)), x);
            assert(before(new) == after(*g.parent));
        },
        RelAlgebra::Unification(u) => {
            let w = new->Unification_0;
            assert(before(old) == after(*u.parent).push(u.binding));
            assert(before(new) == after(*w.parent).push(w.binding));
            if x == u.binding {
                assert(before(new)[before(new).len() - 1] == x);
            } else {
                let i = choose|i: int| 0 <= i < before(old).len() && before(old)[i] == x;
                assert(after(*u.parent)[i] == x);
                elimination_keeps_used(*u.parent, *w.parent, used.union(crate::expr::expr_vars(u.expr)), x);
                let k = choose|k: int| 0 <= k < after(*w.parent).len() && after(*w.parent)[k] == x;
                assert(before(new)[k] == x);
            }
        },
        RelAlgebra::NegJoin(j) => {
            let k = new->NegJoin_0;
            elimination_keeps_used(j.left, k.left, used.union(j.joiner.left_keys@.to_set()), x);
            assert(before(new) == after(k.left));
        },
        RelAlgebra::Join(j) => {
            let k = new->Join_0;
            assert(before(old) == after(j.left) + after(j.right));
            assert(before(new) == after(k.left) + after(k.right));
            let i = choose|i: int| 0 <= i < before(old).len() && before(old)[i] == x;
            if i < after(j.left).len() {
                assert(after(j.left)[i] == x);
                elimination_keeps_used(j.left, k.left,
                    used.union(j.joiner.left_keys@.to_set()).union(crate::relation::pushed_filter_vars(j.right)), x);
                let m = choose|m: int| 0 <= m < after(k.left).len() && after(k.left)[m] == x;
                assert(before(new)[m] == x);
            } else {
                assert(after(j.right)[i - after(j.left).len()] == x);
                elimination_keeps_used(j.right, k.right, used.union(j.joiner.right_keys@.to_set()), x);
                let m = choose|m: int| 0 <= m < after(k.right).len() && after(k.right)[m] == x;
                assert(before(new)[after(k.left).len() + m] == x);
            }
        },
        _ => {},
    }
    crate::relation::lemma_add_unused(dropped(old), before(old), used);
    assert(!dropped(old).contains(x));
    lemma_without_contains(before(new), dropped(new), x);
}

/// Every tuple that a well-formed tree yields has one column per binding it
/// outputs.
pub proof fn rows_match_bindings(ra: RelAlgebra, tx: SessionTx, epoch: Option<u32>, delta: Seq<u64>)
    requires
        well_formed(ra, tx),
    ensures
        eval_ra(ra, tx, epoch, delta) matches Ok(r) ==> rows_have_len(r, after(ra).len() as int),
{
    lemma_eval_arity(ra, tx, epoch, delta);
}

/// A join's columns hold no symbol twice when neither side's do and the two
/// sides share none.
pub proof fn join_bindings_distinct(j: InnerJoin)
    requires
        after(j.left).no_duplicates(),
        after(j.right).no_duplicates(),
        forall|x: Symbol| after(j.left).contains(x) ==> !after(j.right).contains(x),
    ensures
        (after(j.left) + after(j.right)).no_duplicates(),
{
    let a = after(j.left);
    let b = after(j.right);
    assert forall|i: int, k: int| 0 <= i < k < (a + b).len() implies (a + b)[i] != (a + b)[k] by {
        if k < a.len() {
        } else if i >= a.len() {
            assert((a + b)[i] == b[i - a.len()]);
            assert((a + b)[k] == b[k - a.len()]);
        } else {
            assert((a + b)[i] == a[i]);
            assert(a.contains(a[i]));
            assert((a + b)[k] == b[k - a.len()]);
            assert(b.contains(b[k - a.len()]));
        }
    }
}

/// No fact of an attribute that has none.
pub proof fn lemma_hits_of_absent(ts: Seq<TripleRow>, q: TripleQuery)
    requires
        forall|i: int| 0 <= i < ts.len() ==> (#[trigger] ts[i]).attr != q.attr,
    ensures
        triple_hits(ts, q) == Seq::<Seq<Val>>::empty(),
    decreases ts.len(),
{
    if ts.len() > 0 {
        assert(ts.last() == ts[ts.len() - 1]);
        lemma_hits_of_absent(ts.drop_last(), q);
    }
}

/// A triple node over an attribute with no facts yields nothing, alone or as
/// the right side of a join without bound columns.
pub proof fn triple_of_empty_attribute(t: TripleRA, tx: SessionTx, ls: Seq<Seq<Val>>, gone: Set<int>)
    requires
        forall|i: int| 0 <= i < tx.triples@.len() ==> (#[trigger] tx.triples@[i]).attr != t.attr.id,
    ensures
        eval_ra(RelAlgebra::Triple(t), tx, None, Seq::empty()) == Ok::<Seq<Seq<Val>>, QErr>(Seq::empty()),
        triple_join(t, tx, ls, Seq::empty(), Seq::empty(), gone) == Ok::<Seq<Seq<Val>>, QErr>(Seq::empty()),
{
    let q = tquery(t, None, None, cartesian_range(t));
    lemma_hits_of_absent(tx.triples@, q);
    let f = triple_row(t, tx, Seq::empty(), Seq::empty(), gone);
    assert forall|l: Seq<Val>| #[trigger] f(l) == Ok::<Seq<Seq<Val>>, QErr>(Seq::empty()) by {
        assert(extend_each(l, Seq::<Seq<Val>>::empty()) =~= Seq::<Seq<Val>>::empty());
    }
    lemma_flat_all_empty(ls, f);
    let f0 = triple_row(t, tx, Seq::empty(), Seq::empty(), Set::empty());
    assert forall|l: Seq<Val>| #[trigger] f0(l) == Ok::<Seq<Seq<Val>>, QErr>(Seq::empty()) by {
        assert(extend_each(l, Seq::<Seq<Val>>::empty()) =~= Seq::<Seq<Val>>::empty());
    }
    lemma_flat_all_empty(seq![Seq::<Val>::empty()], f0);
}

/// With no fact of its attribute visible to it (none at all, or, for an
/// attribute with history, none valid yet at the node's validity), a triple
/// node joined on any columns yields no tuple: at most an error from a left
/// value that is not an entity.
pub proof fn triple_join_of_empty_attribute(t: TripleRA, tx: SessionTx, ls: Seq<Seq<Val>>, lji: Seq<usize>,
    rji: Seq<usize>, gone: Set<int>)
    requires
        forall|i: int| 0 <= i < tx.triples@.len() ==> (#[trigger] tx.triples@[i]).attr != t.attr.id
            || (t.attr.with_history && tx.triples@[i].vld > t.vld),
    ensures
        triple_join(t, tx, ls, lji, rji, gone) matches Ok(r) ==> r.len() == 0,
{
    let f = triple_row(t, tx, lji, rji, gone);
    assert forall|q: TripleQuery| q.attr == t.attr.id && q.as_of == crate::semantics::as_of(t)
        implies #[trigger] triple_hits(tx.triples@, q) == Seq::<Seq<Val>>::empty() by {
        lemma_hits_of_invisible(tx.triples@, q);
    }
    assert forall|l: Seq<Val>| #[trigger] f(l) matches Ok(ys) ==> ys.len() == 0 by {
        reveal(Seq::filter);
        let e = Seq::<Seq<Val>>::empty();
        assert(extend_each(l, e) =~= e);
        assert(e.filter(crate::semantics::value_is(l[lji[0] as int])) =~= e);
        if let Ok(cs) = crate::semantics::triple_cands(t, tx, l, lji, rji) {
            if cs.len() == 0 {
                assert(cs =~= e);
            }
        }
    }
    lemma_flat_empty_or_err(ls, f);
}

/// No fact is selected where none has the attribute or is valid at the scan's time.
proof fn lemma_hits_of_invisible(ts: Seq<TripleRow>, q: TripleQuery)
    requires
        forall|i: int| 0 <= i < ts.len() ==> (#[trigger] ts[i]).attr != q.attr
            || (q.as_of matches Some(at) && ts[i].vld > at),
    ensures
        triple_hits(ts, q) == Seq::<Seq<Val>>::empty(),
    decreases ts.len(),
{
    if ts.len() > 0 {
        assert(ts.last() == ts[ts.len() - 1]);
        assert forall|i: int| 0 <= i < ts.drop_last().len() implies (#[trigger] ts.drop_last()[i]).attr != q.attr
            || (q.as_of matches Some(at) && ts.drop_last()[i].vld > at) by {
            assert(ts.drop_last()[i] == ts[i]);
        }
        lemma_hits_of_invisible(ts.drop_last(), q);
    }
}

/// When each tuple yields nothing or an error, so does the whole.
proof fn lemma_flat_empty_or_err(ls: Seq<Seq<Val>>, f: spec_fn(Seq<Val>) -> Outcome)
    requires
        forall|l: Seq<Val>| #[trigger] f(l) matches Ok(ys) ==> ys.len() == 0,
    ensures
        flat_rows(ls, f) matches Ok(r) ==> r.len() == 0,
    decreases ls.len(),
{
    if ls.len() > 0 {
        lemma_flat_empty_or_err(ls.drop_last(), f);
        assert(f(ls.last()) matches Ok(ys) ==> ys.len() == 0);
    }
}

/// When each tuple yields nothing, so does the whole.
pub proof fn lemma_flat_all_empty(ls: Seq<Seq<Val>>, f: spec_fn(Seq<Val>) -> Outcome)
    requires
        forall|l: Seq<Val>| #[trigger] f(l) == Ok::<Seq<Seq<Val>>, QErr>(Seq::empty()),
    ensures
        flat_rows(ls, f) == Ok::<Seq<Seq<Val>>, QErr>(Seq::empty()),
    decreases ls.len(),
{
    if ls.len() > 0 {
        lemma_flat_all_empty(ls.drop_last(), f);
        assert(f(ls.last()) == Ok::<Seq<Seq<Val>>, QErr>(Seq::empty()));
        assert(Seq::<Seq<Val>>::empty() + Seq::<Seq<Val>>::empty() =~= Seq::<Seq<Val>>::empty());
    }
}

/// An inline relation with no rows yields nothing, alone or as the right side
/// of a join, whatever the left side yields.
pub proof fn fixed_without_rows(f: InlineFixedRA, j: InnerJoin, tx: SessionTx, epoch: Option<u32>, delta: Seq<u64>)
    requires
        f.data@.len() == 0,
        j.right == RelAlgebra::Fixed(f),
    ensures
        eval_ra(RelAlgebra::Fixed(f), tx, epoch, delta) == Ok::<Seq<Seq<Val>>, QErr>(Seq::empty()),
        eval_ra(RelAlgebra::Join(Box::new(j)), tx, epoch, delta) == Ok::<Seq<Seq<Val>>, QErr>(Seq::empty()),
{
    assert(fixed_rows(rows(f.data@), f.bindings@, f.to_eliminate@) =~= Seq::<Seq<Val>>::empty());
}

/// Joining with one tuple of no column on no keys, dropping nothing, yields the
/// left tuples unchanged.
pub proof fn lemma_join_with_unit(ls: Seq<Seq<Val>>, gone: Set<int>)
    requires
        forall|i: int| 0 <= i < ls.len() ==> forall|c: int| 0 <= c < (#[trigger] ls[i]).len() ==> !gone.contains(c),
    ensures
        hash_join(ls, seq![Seq::<Val>::empty()], Seq::empty(), Seq::empty(), gone) == Ok::<Seq<Seq<Val>>, QErr>(ls),
    decreases ls.len(),
{
    let one = seq![Seq::<Val>::empty()];
    let f = hash_row(one, Seq::empty(), Seq::empty(), gone);
    if ls.len() > 0 {
        lemma_join_with_unit(ls.drop_last(), gone);
        let l = ls.last();
        assert(ls[ls.len() - 1] == l);
        reveal(Seq::filter);
        assert(key_filter(l, Seq::empty(), Seq::empty())(Seq::<Val>::empty()));
        assert(one.drop_last() =~= Seq::<Seq<Val>>::empty());
        assert(one.filter(key_filter(l, Seq::empty(), Seq::empty())) =~= one);
        assert(l + Seq::<Val>::empty() =~= l);
        lemma_drop_nothing(l, gone);
        assert(one.filter(key_filter(l, Seq::empty(), Seq::empty())).map_values(joined(l, gone)) =~= seq![l]);
        assert(ls.drop_last() + seq![l] =~= ls);
    } else {
        assert(ls =~= Seq::<Seq<Val>>::empty());
    }
}

/// A derived relation read in its first epoch as a delta yields nothing,
/// whatever it holds.
pub proof fn derived_first_delta_empty(d: DerivedRA, tx: SessionTx, delta: Seq<u64>)
    requires
        delta.contains(d.storage.id),
    ensures
        eval_ra(RelAlgebra::Derived(d), tx, Some(0u32), delta) == Ok::<Seq<Seq<Val>>, QErr>(Seq::empty()),
{
}

/// A value range from `Null` to `Bot` admits every value: a scan with it selects
/// what a scan without a range does.
pub proof fn open_range_is_full_scan(ts: Seq<TripleRow>, q: TripleQuery)
    requires
        q.range == Some((Val::Null, Val::Bot)),
    ensures
        triple_hits(ts, q) == triple_hits(ts, TripleQuery { range: None, ..q }),
    decreases ts.len(),
{
    if ts.len() > 0 {
        open_range_is_full_scan(ts.drop_last(), q);
    }
}

/// Each key list is empty and the join drops nothing.
pub open spec fn plain_cartesian(j: InnerJoin) -> bool {
    j.joiner.left_keys@.len() == 0 && j.joiner.right_keys@.len() == 0 && j.to_eliminate@.len() == 0
}

/// The inline relation is the unit: no column, one empty tuple, nothing dropped.
pub open spec fn is_unit_fixed(ra: RelAlgebra) -> bool {
    ra matches RelAlgebra::Fixed(f) && f.bindings@.len() == 0 && rows(f.data@) == seq![Seq::<Val>::empty()]
        && f.to_eliminate@.len() == 0
}

proof fn lemma_unit_facts(ra: RelAlgebra, tx: SessionTx, epoch: Option<u32>, delta: Seq<u64>)
    requires
        is_unit_fixed(ra),
    ensures
        after(ra) == Seq::<Symbol>::empty(),
        eval_ra(ra, tx, epoch, delta) == Ok::<Seq<Seq<Val>>, QErr>(seq![Seq::<Val>::empty()]),
{
    let f = ra->Fixed_0;
    reveal(Seq::filter);
    assert(after(ra) =~= Seq::<Symbol>::empty());
    assert(drop_at(Seq::<Val>::empty(), positions_of(f.bindings@, f.to_eliminate@)) =~= Seq::<Val>::empty());
    assert(fixed_rows(rows(f.data@), f.bindings@, f.to_eliminate@) =~= seq![Seq::<Val>::empty()]);
}

proof fn lemma_no_positions(b: Seq<Symbol>)
    ensures
        positions_of(b, Seq::empty()) == Set::<int>::empty(),
{
    assert(positions_of(b, Seq::empty()) =~= Set::<int>::empty());
}

/// A cartesian join with the unit on the right yields the left side's tuples.
pub proof fn unit_on_right_is_identity(j: InnerJoin, tx: SessionTx, epoch: Option<u32>, delta: Seq<u64>)
    requires
        plain_cartesian(j),
        is_unit_fixed(j.right),
    ensures
        eval_ra(RelAlgebra::Join(Box::new(j)), tx, epoch, delta) == eval_ra(j.left, tx, epoch, delta),
{
    lemma_unit_facts(j.right, tx, epoch, delta);
    assert(j.to_eliminate@ =~= Seq::<Symbol>::empty());
    lemma_no_positions(after(j.left) + after(j.right));
    let (lji, rji) = crate::semantics::join_positions(j.joiner, after(j.left), after(j.right));
    assert(lji =~= Seq::<usize>::empty());
    assert(rji =~= Seq::<usize>::empty());
    if let Ok(ls) = eval_ra(j.left, tx, epoch, delta) {
        lemma_join_with_unit(ls, Set::empty());
    }
}

/// A cartesian join of the unit with `rs` on no keys yields `rs`.
proof fn lemma_unit_left(rs: Seq<Seq<Val>>)
    ensures
        hash_join(seq![Seq::<Val>::empty()], rs, Seq::empty(), Seq::empty(), Set::empty()) == Ok::<Seq<Seq<Val>>, QErr>(rs),
{
    let l = Seq::<Val>::empty();
    let one = seq![l];
    let f = hash_row(rs, Seq::empty(), Seq::empty(), Set::empty());
    lemma_filter_all(rs, key_filter(l, Seq::empty(), Seq::empty()));
    assert forall|i: int| 0 <= i < rs.len() implies #[trigger] rs.map_values(joined(l, Set::empty()))[i] == rs[i] by {
        assert(l + rs[i] =~= rs[i]);
        lemma_drop_nothing(rs[i], Set::empty());
    }
    assert(rs.map_values(joined(l, Set::empty())) =~= rs);
    lemma_flat_one(l, f);
}

/// A filter that holds of every tuple keeps them all.
proof fn lemma_filter_all(s: Seq<Seq<Val>>, p: spec_fn(Seq<Val>) -> bool)
    requires
        forall|x: Seq<Val>| #[trigger] p(x),
    ensures
        s.filter(p) == s,
    decreases s.len(),
{
    reveal(Seq::filter);
    if s.len() > 0 {
        lemma_filter_all(s.drop_last(), p);
        assert(p(s.last()));
        assert(s.drop_last().push(s.last()) =~= s);
    }
}

/// One tuple through `flat_rows` is what it yields.
proof fn lemma_flat_one(x: Seq<Val>, f: spec_fn(Seq<Val>) -> Outcome)
    ensures
        flat_rows(seq![x], f) == (match f(x) {
            Err(e) => Err(e),
            Ok(y) => Ok::<Seq<Seq<Val>>, QErr>(y),
        }),
{
    let e = seq![x].drop_last();
    assert(e =~= Seq::<Seq<Val>>::empty());
    assert(flat_rows(e, f) == Ok::<Seq<Seq<Val>>, QErr>(Seq::empty()));
    assert(seq![x].last() == x);
    if let Ok(y) = f(x) {
        assert(Seq::<Seq<Val>>::empty() + y =~= y);
    }
}

/// A cartesian join with the unit on the left yields the right side's tuples,
/// for a right side that is not a reorder or an anti-join. Where it is a stored
/// or derived relation with filters, the join pushes their bounds into its
/// scan; that loses nothing when the filters resolve against its columns, which
/// hold no symbol twice, and never fail on its rows.
#[verifier::rlimit(80)]
pub proof fn unit_on_left_is_identity(j: InnerJoin, tx: SessionTx, epoch: Option<u32>, delta: Seq<u64>)
    requires
        plain_cartesian(j),
        is_unit_fixed(j.left),
        !(j.right is Reorder || j.right is NegJoin),
        j.right matches RelAlgebra::Derived(d) ==> d.filters@.len() == 0 || pushdown_safe(d.filters@, d.bindings@,
            crate::store::epoch_rows(d.storage, crate::semantics::scan_epoch(d, epoch, delta))),
        j.right matches RelAlgebra::Relation(v) ==> v.filters@.len() == 0
            || pushdown_safe(v.filters@, v.bindings@, crate::semantics::stored_rows(tx, v)),
    ensures
        eval_ra(RelAlgebra::Join(Box::new(j)), tx, epoch, delta) == eval_ra(j.right, tx, epoch, delta),
{
    lemma_unit_facts(j.left, tx, epoch, delta);
    assert(j.to_eliminate@ =~= Seq::<Symbol>::empty());
    let unit = seq![Seq::<Val>::empty()];
    let b = after(j.left) + after(j.right);
    assert(b =~= after(j.right));
    lemma_no_positions(b);
    let (lji, rji) = crate::semantics::join_positions(j.joiner, after(j.left), after(j.right));
    assert(lji =~= Seq::<usize>::empty());
    assert(rji =~= Seq::<usize>::empty());
    assert(crate::semantics::is_prefix_keys(rji));
    match j.right {
        RelAlgebra::Fixed(f) => {
            lemma_unit_left(fixed_rows(rows(f.data@), f.bindings@, f.to_eliminate@));
            if f.data@.len() == 0 {
                assert(fixed_rows(rows(f.data@), f.bindings@, f.to_eliminate@) =~= Seq::<Seq<Val>>::empty());
            }
        },
        RelAlgebra::Triple(t) => {},
        RelAlgebra::Derived(d) => {
            let rs = crate::store::epoch_rows(d.storage, crate::semantics::scan_epoch(d, epoch, delta));
            if d.filters@.len() == 0 {
                lemma_prefix_unit(rs, d.bindings@, d.filters@);
            } else {
                lemma_prefix_unit_filtered(rs, d.bindings@, d.filters@);
            }
        },
        RelAlgebra::Relation(v) => {
            if v.filters@.len() == 0 {
                lemma_prefix_unit(crate::semantics::stored_rows(tx, v), v.bindings@, v.filters@);
            } else {
                lemma_prefix_unit_filtered(crate::semantics::stored_rows(tx, v), v.bindings@, v.filters@);
            }
        },
        _ => {
            if let Ok(rs) = eval_ra(j.right, tx, epoch, delta) {
                lemma_unit_left(rs);
            }
        },
    }
}

/// A prefix join of the unit on no keys with a filterless relation yields its rows.
proof fn lemma_prefix_unit(rs: Seq<Seq<Val>>, bindings: Seq<Symbol>, fs: Seq<crate::expr::Expr>)
    requires
        fs.len() == 0,
    ensures
        crate::semantics::prefix_join(rs, bindings, fs, seq![Seq::<Val>::empty()], Seq::empty(), Seq::empty(), Set::empty())
            == flat_rows(rs, keep_row(fs, Set::empty())),
{
    let l = Seq::<Val>::empty();
    let f = crate::semantics::prefix_row(rs, bindings, fs, Seq::empty(), Seq::empty(), Set::empty());
    lemma_flat_one(l, f);
    let cols = crate::semantics::prefix_cols(Seq::<usize>::empty(), Seq::<usize>::empty());
    assert(crate::semantics::prefix_len_from(Seq::<usize>::empty(), 0) == 0);
    assert(crate::semantics::pick(l, cols) =~= Seq::<Val>::empty());
    crate::store::lemma_range_all(rs);
    assert(extend_each(l, rs) =~= rs) by {
        assert forall|i: int| 0 <= i < rs.len() implies #[trigger] extend_each(l, rs)[i] == rs[i] by {
            assert(l + rs[i] =~= rs[i]);
        }
    }
}

/// Where all filters hold, each does.
proof fn lemma_preds_each(fs: Seq<Expr>, r: Seq<Val>, i: int)
    requires
        crate::expr::eval_preds(fs, r) == Ok::<bool, QErr>(true),
        0 <= i < fs.len(),
    ensures
        eval_pred(fs[i], r) == Ok::<bool, QErr>(true),
    decreases fs.len(),
{
    if i > 0 {
        lemma_preds_each(fs.drop_first(), r, i - 1);
        assert(fs.drop_first()[i - 1] == fs[i]);
    }
}

/// A filter that holds of `r` puts `r`'s column `j` within the bounds it gives
/// that column's symbol.
proof fn lemma_filter_bound_sound(f: Expr, b: Seq<Symbol>, r: Seq<Val>, j: int, known: Seq<Val>)
    requires
        resolved(f, b),
        b.no_duplicates(),
        known.len() <= j < b.len(),
        r.len() == b.len(),
        r.take(known.len() as int) == known,
        eval_pred(f, r) == Ok::<bool, QErr>(true),
    ensures
        lower_from(f, b[j], known) matches Some(c) ==> val_le(c, r[j]),
        upper_from(f, b[j], known) matches Some(c) ==> val_le(r[j], c),
{
    let s = b[j];
    if let Expr::Compare { op, left, right } = f {
        assert(resolved(*left, b) && resolved(*right, b));
        if is_column(*left, s, known) && const_under(*right, known) is Some {
            let p = (*left)->Binding_tuple_pos.unwrap() as int;
            assert(b[p] == s);
            assert(p == j);
            let c = const_under(*right, known).unwrap();
            if let Expr::Binding { tuple_pos, .. } = *right {
                let q = tuple_pos.unwrap() as int;
                assert(r.take(known.len() as int)[q] == r[q]);
            }
            assert(eval_expr(*left, r) == Ok::<Val, QErr>(r[j]));
            assert(eval_expr(*right, r) == Ok::<Val, QErr>(c));
            assert(crate::expr::cmp_holds(op, r[j], c));
        } else if is_column(*right, s, known) && const_under(*left, known) is Some {
            let p = (*right)->Binding_tuple_pos.unwrap() as int;
            assert(b[p] == s);
            assert(p == j);
            let c = const_under(*left, known).unwrap();
            if let Expr::Binding { tuple_pos, .. } = *left {
                let q = tuple_pos.unwrap() as int;
                assert(r.take(known.len() as int)[q] == r[q]);
            }
            assert(eval_expr(*right, r) == Ok::<Val, QErr>(r[j]));
            assert(eval_expr(*left, r) == Ok::<Val, QErr>(c));
            assert(crate::expr::cmp_holds(op, c, r[j]));
        }
    }
}

/// Filters that all hold of `r` put its column `j` within the bounds they give
/// once the leading columns `known` of `r` are known.
proof fn lemma_bounds_sound(fs: Seq<Expr>, b: Seq<Symbol>, r: Seq<Val>, j: int, known: Seq<Val>)
    requires
        all_resolved(fs, b),
        b.no_duplicates(),
        known.len() <= j < b.len(),
        r.len() == b.len(),
        r.take(known.len() as int) == known,
        forall|i: int| 0 <= i < fs.len() ==> #[trigger] eval_pred(fs[i], r) == Ok::<bool, QErr>(true),
    ensures
        val_le(lower_bound(fs, b[j], known), r[j]),
        val_le(r[j], upper_bound(fs, b[j], known)),
    decreases fs.len(),
{
    if fs.len() > 0 {
        let rest = fs.drop_last();
        assert forall|i: int| 0 <= i < rest.len() implies #[trigger] eval_pred(rest[i], r) == Ok::<bool, QErr>(true) by {
            assert(rest[i] == fs[i]);
        }
        assert forall|i: int| 0 <= i < rest.len() implies #[trigger] resolved(rest[i], b) by {
            assert(rest[i] == fs[i]);
        }
        lemma_bounds_sound(rest, b, r, j, known);
        assert(fs.last() == fs[fs.len() - 1]);
        assert(resolved(fs[fs.len() - 1], b));
        assert(eval_pred(fs[fs.len() - 1], r) == Ok::<bool, QErr>(true));
        lemma_filter_bound_sound(fs.last(), b, r, j, known);
    }
}

/// Where every filter holds, each does, and the value column lies within the
/// bounds the filters give it.
proof fn lemma_all_hold_sound(fs: Seq<Expr>, b: Seq<Symbol>, r: Seq<Val>, j: int, known: Seq<Val>)
    requires
        all_resolved(fs, b),
        b.no_duplicates(),
        known.len() <= j < b.len(),
        r.len() == b.len(),
        r.take(known.len() as int) == known,
        crate::expr::eval_preds(fs, r) == Ok::<bool, QErr>(true),
    ensures
        val_le(lower_bound(fs, b[j], known), r[j]),
        val_le(r[j], upper_bound(fs, b[j], known)),
{
    assert forall|m: int| 0 <= m < fs.len() implies #[trigger] eval_pred(fs[m], r) == Ok::<bool, QErr>(true) by {
        lemma_preds_each(fs, r, m);
    }
    lemma_bounds_sound(fs, b, r, j, known);
}

/// Pushing the filters' bounds into the scan loses no tuple: the filters
/// resolve against columns that hold no symbol twice, and never fail.
pub open spec fn pushdown_safe(fs: Seq<Expr>, b: Seq<Symbol>, rs: Seq<Seq<Val>>) -> bool {
    &&& b.no_duplicates()
    &&& all_resolved(fs, b)
    &&& rows_have_len(rs, b.len() as int)
    &&& forall|i: int| 0 <= i < rs.len() ==> #[trigger] crate::expr::eval_preds(fs, rs[i]) is Ok
}

/// `flat_rows` over the tuples a predicate keeps, where each tuple it drops
/// would yield nothing.
proof fn lemma_flat_filter(rs: Seq<Seq<Val>>, p: spec_fn(Seq<Val>) -> bool, k: spec_fn(Seq<Val>) -> Outcome)
    requires
        forall|i: int| 0 <= i < rs.len() && !p(rs[i]) ==> #[trigger] k(rs[i]) == Ok::<Seq<Seq<Val>>, QErr>(Seq::empty()),
    ensures
        flat_rows(rs.filter(p), k) == flat_rows(rs, k),
    decreases rs.len(),
{
    reveal(Seq::filter);
    if rs.len() > 0 {
        let rest = rs.drop_last();
        assert forall|i: int| 0 <= i < rest.len() && !p(rest[i]) implies #[trigger] k(rest[i]) == Ok::<Seq<Seq<Val>>, QErr>(Seq::empty()) by {
            assert(rest[i] == rs[i]);
        }
        lemma_flat_filter(rest, p, k);
        let x = rs.last();
        assert(x == rs[rs.len() - 1]);
        if p(x) {
            assert(rs.filter(p) == rest.filter(p).push(x));
            assert(rest.filter(p).push(x).drop_last() =~= rest.filter(p));
            assert(rest.filter(p).push(x).last() == x);
        } else {
            assert(rs.filter(p) == rest.filter(p));
            if let Ok(acc) = flat_rows(rest, k) {
                assert(acc + Seq::<Seq<Val>>::empty() =~= acc);
            }
        }
    } else {
        assert(rs.filter(p) =~= Seq::<Seq<Val>>::empty());
    }
}

/// A prefix join of the unit on no keys yields the relation's filtered rows,
/// where pushing its filters down is safe.
proof fn lemma_prefix_unit_filtered(rs: Seq<Seq<Val>>, bindings: Seq<Symbol>, fs: Seq<Expr>)
    requires
        pushdown_safe(fs, bindings, rs),
    ensures
        crate::semantics::prefix_join(rs, bindings, fs, seq![Seq::<Val>::empty()], Seq::empty(), Seq::empty(), Set::empty())
            == flat_rows(rs, keep_row(fs, Set::empty())),
{
    let l = Seq::<Val>::empty();
    let k = keep_row(fs, Set::empty());
    let f = crate::semantics::prefix_row(rs, bindings, fs, Seq::empty(), Seq::empty(), Set::empty());
    lemma_flat_one(l, f);
    let cols = crate::semantics::prefix_cols(Seq::<usize>::empty(), Seq::<usize>::empty());
    assert(crate::semantics::prefix_len_from(Seq::<usize>::empty(), 0) == 0);
    assert(crate::semantics::pick(l, cols) =~= Seq::<Val>::empty());
    assert(bindings.skip(0) =~= bindings);
    let bd = crate::semantics::prefix_bounds(fs, bindings);
    let p = |x: Seq<Val>| crate::store::row_in_range(x, Seq::<Val>::empty(), bd.0, bd.1);
    let sel = rs.filter(p);
    assert(extend_each(l, sel) =~= sel) by {
        assert forall|i: int| 0 <= i < sel.len() implies #[trigger] extend_each(l, sel)[i] == sel[i] by {
            assert(l + sel[i] =~= sel[i]);
        }
    }
    assert forall|i: int| 0 <= i < rs.len() && !p(rs[i]) implies #[trigger] k(rs[i]) == Ok::<Seq<Seq<Val>>, QErr>(Seq::empty()) by {
        let r = rs[i];
        assert(r.len() == bindings.len());
        assert(crate::expr::eval_preds(fs, r) is Ok);
        if crate::expr::eval_preds(fs, r) == Ok::<bool, QErr>(true) {
            assert forall|m: int| 0 <= m < fs.len() implies #[trigger] eval_pred(fs[m], r) == Ok::<bool, QErr>(true) by {
                lemma_preds_each(fs, r, m);
            }
            assert(r.take(0) =~= Seq::<Val>::empty());
            assert forall|j: int| 0 <= j < bd.0.len() && j < bd.1.len() implies #[trigger] crate::store::column_within(r, 0, bd.0, bd.1, j) by {
                assert(r.take(0) =~= Seq::<Val>::empty());
                lemma_bounds_sound(fs, bindings, r, j, Seq::empty());
            }
            assert(p(r));
        }
    }
    lemma_flat_filter(rs, p, k);
}

proof fn lemma_flat_push(xs: Seq<Seq<Val>>, y: Seq<Val>, k: spec_fn(Seq<Val>) -> Outcome)
    ensures
        flat_rows(xs.push(y), k) == (match flat_rows(xs, k) {
            Err(e) => Err(e),
            Ok(a) => match k(y) {
                Err(e) => Err(e),
                Ok(m) => Ok::<Seq<Seq<Val>>, QErr>(a + m),
            },
        }),
{
    assert(xs.push(y).drop_last() =~= xs);
    assert(xs.push(y).last() == y);
}

/// Scanning fewer candidates loses nothing when every candidate left out fails
/// the filters without error.
proof fn lemma_prune(l: Seq<Val>, xs: Seq<Seq<Val>>, p: spec_fn(Seq<Val>) -> bool, fs: Seq<Expr>, gone: Set<int>)
    requires
        forall|i: int| 0 <= i < xs.len() ==> #[trigger] crate::expr::eval_preds(fs, l + xs[i]) is Ok,
        forall|i: int| 0 <= i < xs.len() && crate::expr::eval_preds(fs, l + xs[i]) == Ok::<bool, QErr>(true)
            ==> #[trigger] p(xs[i]),
    ensures
        flat_rows(extend_each(l, xs.filter(p)), keep_row(fs, gone)) == flat_rows(extend_each(l, xs), keep_row(fs, gone)),
    decreases xs.len(),
{
    reveal(Seq::filter);
    let k = keep_row(fs, gone);
    if xs.len() > 0 {
        let rest = xs.drop_last();
        let x = xs.last();
        assert forall|i: int| 0 <= i < rest.len() implies #[trigger] crate::expr::eval_preds(fs, l + rest[i]) is Ok by {
            assert(rest[i] == xs[i]);
        }
        assert forall|i: int| 0 <= i < rest.len() && crate::expr::eval_preds(fs, l + rest[i]) == Ok::<bool, QErr>(true)
            implies #[trigger] p(rest[i]) by {
            assert(rest[i] == xs[i]);
        }
        lemma_prune(l, rest, p, fs, gone);
        assert(x == xs[xs.len() - 1]);
        assert(extend_each(l, xs) =~= extend_each(l, rest).push(l + x));
        lemma_flat_push(extend_each(l, rest), l + x, k);
        if p(x) {
            assert(xs.filter(p) == rest.filter(p).push(x));
            assert(extend_each(l, xs.filter(p)) =~= extend_each(l, rest.filter(p)).push(l + x));
            lemma_flat_push(extend_each(l, rest.filter(p)), l + x, k);
        } else {
            assert(xs.filter(p) == rest.filter(p));
            assert(k(l + x) == Ok::<Seq<Seq<Val>>, QErr>(Seq::empty()));
            if let Ok(a) = flat_rows(extend_each(l, rest), k) {
                assert(a + Seq::<Seq<Val>>::empty() =~= a);
            }
        }
    } else {
        assert(xs.filter(p) =~= xs);
    }
}

/// Narrowing a filter by a stronger predicate.
proof fn lemma_filter_narrow(s: Seq<Seq<Val>>, loose: spec_fn(Seq<Val>) -> bool, tight: spec_fn(Seq<Val>) -> bool)
    requires
        forall|x: Seq<Val>| #[trigger] tight(x) ==> loose(x),
    ensures
        s.filter(tight) == s.filter(loose).filter(tight),
    decreases s.len(),
{
    reveal(Seq::filter);
    if s.len() > 0 {
        lemma_filter_narrow(s.drop_last(), loose, tight);
        let x = s.last();
        if loose(x) {
            assert(s.filter(loose).drop_last() =~= s.drop_last().filter(loose));
        }
    }
}

/// The keys cover the leading columns: the prefix is as long as the keys.
proof fn lemma_prefix_len_full(rji: Seq<usize>, m: int)
    requires
        crate::semantics::is_prefix_keys(rji),
        0 <= m <= rji.len(),
    ensures
        crate::semantics::prefix_len_from(rji, m) == rji.len(),
    decreases rji.len() - m,
{
    if m < rji.len() {
        assert(rji.contains(m as usize));
        lemma_prefix_len_full(rji, m + 1);
    }
}

/// Scanning a stored or derived relation within the bounds that the filters
/// give its non-key columns yields what scanning by the key prefix alone and
/// filtering does, where the filters resolve against the join's columns, which
/// hold no symbol twice, and never fail.
pub proof fn prefix_pruning_sound(rs: Seq<Seq<Val>>, bindings: Seq<Symbol>, fs: Seq<Expr>, lji: Seq<usize>,
    rji: Seq<usize>, gone: Set<int>, lb: Seq<Symbol>, l: Seq<Val>)
    requires
        crate::semantics::is_prefix_keys(rji),
        rows_have_len(rs, bindings.len() as int),
        (lb + bindings).no_duplicates(),
        all_resolved(fs, lb + bindings),
        l.len() == lb.len(),
        forall|i: int| 0 <= i < rs.len() ==> #[trigger] crate::expr::eval_preds(fs, l + rs[i]) is Ok,
    ensures
        crate::semantics::prefix_row(rs, bindings, fs, lji, rji, gone)(l) == flat_rows(
            extend_each(l, crate::store::rows_in_range(rs, crate::semantics::pick(l, crate::semantics::prefix_cols(lji, rji)),
                Seq::empty(), Seq::empty())),
            keep_row(fs, gone),
        ),
{
    let ctx = lb + bindings;
    let pre = crate::semantics::pick(l, crate::semantics::prefix_cols(lji, rji));
    let k = crate::semantics::skip_len(rji, bindings);
    let cols = bindings.skip(k);
    let bd = crate::semantics::prefix_bounds(fs, cols);
    let loose = |x: Seq<Val>| crate::store::row_in_range(x, pre, Seq::<Val>::empty(), Seq::<Val>::empty());
    let tight = |x: Seq<Val>| crate::store::row_in_range(x, pre, bd.0, bd.1);
    let r0 = rs.filter(loose);
    lemma_prefix_len_full(rji, 0);
    assert(pre.len() == rji.len());
    assert forall|x: Seq<Val>| #[trigger] tight(x) implies loose(x) by {}
    lemma_filter_narrow(rs, loose, tight);
    assert forall|i: int| 0 <= i < r0.len() implies #[trigger] crate::expr::eval_preds(fs, l + r0[i]) is Ok
        && (crate::expr::eval_preds(fs, l + r0[i]) == Ok::<bool, QErr>(true) ==> tight(r0[i])) by {
        let x = r0[i];
        assert(r0.contains(x));
        rs.lemma_filter_contains_rev(loose, x);
        rs.lemma_filter_pred(loose, i);
        let m = choose|m: int| 0 <= m < rs.len() && rs[m] == x;
        assert(x.len() == bindings.len());
        if crate::expr::eval_preds(fs, l + x) == Ok::<bool, QErr>(true) {
            assert((l + x).take(0) =~= Seq::<Val>::empty());
            assert forall|j: int| 0 <= j < bd.0.len() && j < bd.1.len()
                implies #[trigger] crate::store::column_within(x, pre.len() as int, bd.0, bd.1, j) by {
                if bd.0.len() > 0 {
                    let c = lb.len() + k + j;
                    assert(ctx[c] == cols[j]);
                    assert((l + x)[c] == x[k + j]);
                    lemma_all_hold_sound(fs, ctx, l + x, c, Seq::empty());
                }
            }
        }
    }
    lemma_prune(l, r0, tight, fs, gone);
}

/// The value of a fact lies in the closed range.
pub open spec fn in_value_range(lo: Val, hi: Val) -> spec_fn(Seq<Val>) -> bool {
    |h: Seq<Val>| crate::value::val_within(h[1], lo, hi)
}

/// A scan with a value range selects the facts of the scan without one whose
/// value lies in the range.
proof fn lemma_hits_range(ts: Seq<TripleRow>, q: TripleQuery, lo: Val, hi: Val)
    requires
        q.range is None,
    ensures
        triple_hits(ts, TripleQuery { range: Some((lo, hi)), ..q }) == triple_hits(ts, q).filter(in_value_range(lo, hi)),
    decreases ts.len(),
{
    reveal(Seq::filter);
    if ts.len() > 0 {
        lemma_hits_range(ts.drop_last(), q, lo, hi);
        let x = crate::store::fact_row(ts.last());
        assert(x[1] == ts.last().value@);
        if crate::store::triple_selected(ts.last(), q) {
            assert(triple_hits(ts, q).drop_last() =~= triple_hits(ts.drop_last(), q));
        }
    }
}

/// Scanning a triple node's facts within the value range its filters give
/// yields what the scan without the range, then the filters, do: for the range
/// with no column bound and for the range once the left tuple is known, where
/// the filters resolve against the join's columns, which hold no symbol twice,
/// and never fail.
pub proof fn triple_pruning_sound(t: TripleRA, tx: SessionTx, l: Seq<Val>, lb: Seq<Symbol>, entity: Option<u64>, gone: Set<int>)
    requires
        (lb + t.bindings@).no_duplicates(),
        all_resolved(t.filters@, lb + t.bindings@),
        l.len() == lb.len(),
        forall|i: int| 0 <= i < triple_hits(tx.triples@, tquery(t, entity, None, None)).len()
            ==> #[trigger] crate::expr::eval_preds(t.filters@, l + triple_hits(tx.triples@, tquery(t, entity, None, None))[i]) is Ok,
    ensures
        flat_rows(extend_each(l, triple_hits(tx.triples@, tquery(t, entity, None, cartesian_range(t)))), keep_row(t.filters@, gone))
            == flat_rows(extend_each(l, triple_hits(tx.triples@, tquery(t, entity, None, None))), keep_row(t.filters@, gone)),
        flat_rows(extend_each(l, triple_hits(tx.triples@, tquery(t, entity, None, crate::semantics::entity_range(t, l)))), keep_row(t.filters@, gone))
            == flat_rows(extend_each(l, triple_hits(tx.triples@, tquery(t, entity, None, None))), keep_row(t.filters@, gone)),
{
    lemma_triple_range_sound(t, tx, l, lb, entity, gone, Seq::empty());
    lemma_triple_range_sound(t, tx, l, lb, entity, gone, l);
}

proof fn lemma_triple_range_sound(t: TripleRA, tx: SessionTx, l: Seq<Val>, lb: Seq<Symbol>, entity: Option<u64>,
    gone: Set<int>, known: Seq<Val>)
    requires
        (lb + t.bindings@).no_duplicates(),
        all_resolved(t.filters@, lb + t.bindings@),
        l.len() == lb.len(),
        known == Seq::<Val>::empty() || known == l,
        forall|i: int| 0 <= i < triple_hits(tx.triples@, tquery(t, entity, None, None)).len()
            ==> #[trigger] crate::expr::eval_preds(t.filters@, l + triple_hits(tx.triples@, tquery(t, entity, None, None))[i]) is Ok,
    ensures
        ({
            let lo = lower_bound(t.filters@, t.bindings@[1], known);
            let hi = upper_bound(t.filters@, t.bindings@[1], known);
            flat_rows(extend_each(l, triple_hits(tx.triples@, tquery(t, entity, None, Some((lo, hi))))), keep_row(t.filters@, gone))
                == flat_rows(extend_each(l, triple_hits(tx.triples@, tquery(t, entity, None, None))), keep_row(t.filters@, gone))
        }),
{
    let ctx = lb + t.bindings@;
    let fs = t.filters@;
    let lo = lower_bound(fs, t.bindings@[1], known);
    let hi = upper_bound(fs, t.bindings@[1], known);
    let q = tquery(t, entity, None, None);
    let base = triple_hits(tx.triples@, q);
    assert(tquery(t, entity, None, Some((lo, hi))) == TripleQuery { range: Some((lo, hi)), ..q });
    lemma_hits_range(tx.triples@, q, lo, hi);
    crate::semantics::lemma_hits_len(tx.triples@, q);
    let p = in_value_range(lo, hi);
    assert forall|i: int| 0 <= i < base.len() && crate::expr::eval_preds(fs, l + base[i]) == Ok::<bool, QErr>(true)
        implies #[trigger] p(base[i]) by {
        let x = base[i];
        let c = lb.len() + 1int;
        assert(x.len() == 2);
        assert(ctx[c] == t.bindings@[1]);
        assert((l + x)[c] == x[1]);
        assert((l + x).take(l.len() as int) =~= l);
        assert((l + x).take(0) =~= Seq::<Val>::empty());
        lemma_all_hold_sound(fs, ctx, l + x, c, known);
    }
    lemma_prune(l, base, p, fs, gone);
}

/// Dropping positions never lengthens a sequence.
proof fn lemma_drop_len_le<A>(s: Seq<A>, gone: Set<int>)
    ensures
        drop_at(s, gone).len() <= s.len(),
    decreases s.len(),
{
    if s.len() > 0 {
        lemma_drop_len_le(s.drop_last(), gone);
    }
}

/// `y` is some tuple of `ls` that matches nothing, minus the columns in `gone`.
pub open spec fn kept_from(ls: Seq<Seq<Val>>, y: Seq<Val>, found: spec_fn(Seq<Val>) -> Result<bool, QErr>, gone: Set<int>) -> bool {
    exists|m: int| 0 <= m < ls.len() && y == drop_at(ls[m], gone) && found(ls[m]) == Ok::<bool, QErr>(false)
}

/// Every tuple an anti-join yields is a left tuple that matches nothing, minus
/// the dropped columns.
proof fn lemma_anti_kept(ls: Seq<Seq<Val>>, found: spec_fn(Seq<Val>) -> Result<bool, QErr>, gone: Set<int>, out: Seq<Seq<Val>>)
    requires
        anti_join(ls, found, gone) == Ok::<Seq<Seq<Val>>, QErr>(out),
    ensures
        forall|i: int| 0 <= i < out.len() ==> #[trigger] kept_from(ls, out[i], found, gone),
    decreases ls.len(),
{
    if ls.len() > 0 {
        let rest = ls.drop_last();
        let f = anti_row(found, gone);
        let acc = flat_rows(rest, f)->Ok_0;
        let more = f(ls.last())->Ok_0;
        assert(flat_rows(rest, f) is Ok);
        lemma_anti_kept(rest, found, gone, acc);
        assert(out == acc + more);
        assert forall|i: int| 0 <= i < out.len() implies #[trigger] kept_from(ls, out[i], found, gone) by {
            if i < acc.len() {
                assert(out[i] == acc[i]);
                assert(kept_from(rest, acc[i], found, gone));
                let m = choose|m: int| 0 <= m < rest.len() && acc[i] == drop_at(rest[m], gone)
                    && found(rest[m]) == Ok::<bool, QErr>(false);
                assert(rest[m] == ls[m]);
            } else {
                assert(out[i] == more[i - acc.len()]);
                assert(ls[ls.len() - 1] == ls.last());
            }
        }
    }
}

/// An anti-join keeps every tuple that matches nothing.
proof fn lemma_anti_keeps_all(xs: Seq<Seq<Val>>, found: spec_fn(Seq<Val>) -> Result<bool, QErr>)
    requires
        forall|i: int| 0 <= i < xs.len() ==> #[trigger] found(xs[i]) == Ok::<bool, QErr>(false),
    ensures
        anti_join(xs, found, Set::empty()) == Ok::<Seq<Seq<Val>>, QErr>(xs),
    decreases xs.len(),
{
    if xs.len() > 0 {
        assert forall|i: int| 0 <= i < xs.drop_last().len() implies #[trigger] found(xs.drop_last()[i]) == Ok::<bool, QErr>(false) by {
            assert(xs.drop_last()[i] == xs[i]);
        }
        lemma_anti_keeps_all(xs.drop_last(), found);
        assert(found(xs[xs.len() - 1]) == Ok::<bool, QErr>(false));
        lemma_drop_nothing(xs.last(), Set::empty());
        assert(xs.drop_last() + seq![xs.last()] =~= xs);
    } else {
        assert(xs =~= Seq::<Seq<Val>>::empty());
    }
}

/// Whether a right source matches the left tuple `l`, keys read at `lji`.
pub open spec fn found_of(right: RelAlgebra, tx: SessionTx, lji: Seq<usize>, rji: Seq<usize>)
    -> spec_fn(Seq<Val>) -> Result<bool, QErr>
{
    match right {
        RelAlgebra::Triple(t) => crate::semantics::triple_found_fn(t, tx, lji, rji),
        RelAlgebra::Derived(d) => crate::semantics::rows_found_fn(crate::store::epoch_rows(d.storage, 0), lji, rji),
        RelAlgebra::Relation(v) => crate::semantics::rows_found_fn(crate::semantics::stored_rows(tx, v), lji, rji),
        _ => crate::semantics::rows_found_fn(Seq::empty(), lji, rji),
    }
}

/// Whether a source matches depends only on the key values of the tuple.
proof fn lemma_found_by_keys(right: RelAlgebra, tx: SessionTx, l: Seq<Val>, y: Seq<Val>, lji: Seq<usize>,
    lji2: Seq<usize>, rji: Seq<usize>)
    requires
        lji.len() == lji2.len(),
        lji.len() == rji.len(),
        right is Triple ==> rji.len() >= 1,
        forall|i: int| 0 <= i < lji.len() ==> #[trigger] y[lji2[i] as int] == l[lji[i] as int],
    ensures
        found_of(right, tx, lji2, rji)(y) == found_of(right, tx, lji, rji)(l),
{
    if lji.len() > 0 {
        assert(y[lji2[0] as int] == l[lji[0] as int]);
    }
    if lji.len() > 1 {
        assert(y[lji2[1] as int] == l[lji[1] as int]);
    }
    assert(crate::semantics::key_filter(y, lji2, rji) =~= crate::semantics::key_filter(l, lji, rji)) by {
        assert forall|r: Seq<Val>| #[trigger] crate::semantics::keys_match(y, r, lji2, rji) == crate::semantics::keys_match(l, r, lji, rji) by {
            if crate::semantics::keys_match(l, r, lji, rji) {
                assert forall|i: int| 0 <= i < lji2.len() && i < rji.len() implies y[#[trigger] lji2[i] as int] == r[rji[i] as int] by {
                    assert(l[lji[i] as int] == r[rji[i] as int]);
                }
            }
            if crate::semantics::keys_match(y, r, lji2, rji) {
                assert forall|i: int| 0 <= i < lji.len() && i < rji.len() implies l[#[trigger] lji[i] as int] == r[rji[i] as int] by {
                    assert(y[lji2[i] as int] == r[rji[i] as int]);
                }
            }
        }
    }
    let c = crate::semantics::prefix_cols(lji, rji);
    let c2 = crate::semantics::prefix_cols(lji2, rji);
    crate::semantics::lemma_prefix_len_bounds(rji, 0);
    assert forall|j: int| 0 <= j < c.len() implies #[trigger] crate::semantics::pick(y, c2)[j] == crate::semantics::pick(l, c)[j] by {
        crate::semantics::lemma_prefix_pos(rji, j);
    }
    assert(crate::semantics::pick(y, c2) =~= crate::semantics::pick(l, c));
}

/// A key column the inner anti-join keeps is read, in its output tuple, at
/// the key's position among the kept columns.
proof fn lemma_kept_column(l: Seq<Val>, b: Seq<Symbol>, e: Seq<Symbol>, k: Symbol)
    requires
        l.len() == b.len(),
        b.no_duplicates(),
        b.contains(k),
        !e.contains(k),
    ensures
        0 <= crate::semantics::first_pos(without(b, e), k) < drop_at(l, positions_of(b, e)).len(),
        crate::semantics::first_pos(without(b, e), k) < b.len(),
        drop_at(l, positions_of(b, e))[crate::semantics::first_pos(without(b, e), k)] == l[crate::semantics::first_pos(b, k)],
{
    lemma_drop_len_le(b, positions_of(b, e));
    let g = positions_of(b, e);
    crate::semantics::lemma_first_pos_exists(b, k);
    let p = crate::semantics::first_pos(b, k);
    assert(!g.contains(p));
    crate::tuple::lemma_drop_at_index(l, g, p);
    crate::tuple::lemma_drop_at_index(b, g, p);
    crate::tuple::lemma_drop_at_len(l.take(p), b.take(p), g);
    crate::tuple::lemma_drop_at_len(l, b, g);
    crate::tuple::lemma_drop_positions(b, e, b.len() as int);
    assert(b.take(b.len() as int) =~= b);
    let w = without(b, e);
    assert(drop_at(b, g) == w);
    crate::tuple::lemma_drop_at_subset(b, g);
    let c = drop_at(b.take(p), g).len() as int;
    assert(w[c] == k);
    crate::semantics::lemma_first_pos(w, k, c);
}

/// An anti-join over a source is `anti_join` with that source's match test.
proof fn lemma_neg_outcome_found(j: NegJoin, tx: SessionTx, left: Outcome)
    ensures
        crate::semantics::neg_outcome(j, tx, left) == (match left {
            Err(x) => Err(x),
            Ok(ls) => if crate::relation::is_source(j.right) {
                anti_join(ls, found_of(j.right, tx, crate::semantics::join_positions(j.joiner, after(j.left), after(j.right)).0,
                    crate::semantics::join_positions(j.joiner, after(j.left), after(j.right)).1),
                    positions_of(after(j.left), j.to_eliminate@))
            } else {
                Ok::<Seq<Seq<Val>>, QErr>(Seq::empty())
            },
        }),
{
}

/// Each tuple an anti-join keeps, read with the keys' positions among its
/// kept columns, matches nothing either.
proof fn lemma_kept_unmatched(right: RelAlgebra, tx: SessionTx, ls: Seq<Seq<Val>>, out: Seq<Seq<Val>>,
    b: Seq<Symbol>, e: Seq<Symbol>, lk: Seq<Symbol>, rji: Seq<usize>)
    requires
        rows_have_len(ls, b.len() as int),
        b.len() <= usize::MAX,
        b.no_duplicates(),
        crate::semantics::keys_within(lk, b),
        lk.len() == rji.len(),
        right is Triple ==> rji.len() >= 1,
        forall|i: int| 0 <= i < lk.len() ==> !e.contains(#[trigger] lk[i]),
        anti_join(ls, found_of(right, tx, crate::semantics::key_positions(lk, b), rji), positions_of(b, e))
            == Ok::<Seq<Seq<Val>>, QErr>(out),
    ensures
        forall|i: int| 0 <= i < out.len() ==> #[trigger] found_of(right, tx,
            crate::semantics::key_positions(lk, without(b, e)), rji)(out[i]) == Ok::<bool, QErr>(false),
{
    let g = positions_of(b, e);
    let lji = crate::semantics::key_positions(lk, b);
    let lji2 = crate::semantics::key_positions(lk, without(b, e));
    let f1 = found_of(right, tx, lji, rji);
    let f2 = found_of(right, tx, lji2, rji);
    assert(anti_join(ls, found_of(right, tx, crate::semantics::key_positions(lk, b), rji), positions_of(b, e))
        == Ok::<Seq<Seq<Val>>, QErr>(out));
    assert(f1 == found_of(right, tx, crate::semantics::key_positions(lk, b), rji));
    lemma_anti_kept(ls, f1, g, out);
    assert forall|i: int| 0 <= i < out.len() implies #[trigger] f2(out[i]) == Ok::<bool, QErr>(false) by {
        assert(kept_from(ls, out[i], f1, g));
        let m = choose|m: int| 0 <= m < ls.len() && out[i] == drop_at(ls[m], g)
            && f1(ls[m]) == Ok::<bool, QErr>(false);
        let l = ls[m];
        assert(l.len() == b.len());
        assert forall|q: int| 0 <= q < lji.len() implies #[trigger] out[i][lji2[q] as int] == l[lji[q] as int] by {
            assert(b.contains(lk[q]));
            assert(!e.contains(lk[q]));
            lemma_kept_column(l, b, e, lk[q]);
            crate::semantics::lemma_first_pos_exists(b, lk[q]);
            assert(lji2[q] as int == crate::semantics::first_pos(without(b, e), lk[q]));
            assert(lji[q] as int == crate::semantics::first_pos(b, lk[q]));
        }
        lemma_found_by_keys(right, tx, l, out[i], lji, lji2, rji);
    }
}

/// Anti-joining twice with the same relation on the same keys yields what
/// anti-joining once does: the second anti-join drops nothing, and the first
/// may drop any column but the keys, of a side whose columns hold no symbol
/// twice.
pub proof fn anti_join_idempotent(inner: NegJoin, outer: NegJoin, tx: SessionTx, epoch: Option<u32>, delta: Seq<u64>)
    requires
        outer.left == RelAlgebra::NegJoin(Box::new(inner)),
        outer.right == inner.right,
        outer.joiner == inner.joiner,
        outer.to_eliminate@.len() == 0,
        well_formed(RelAlgebra::NegJoin(Box::new(inner)), tx),
        after(inner.left).no_duplicates(),
        after(inner.left).len() <= usize::MAX,
        forall|i: int| 0 <= i < inner.joiner.left_keys@.len() ==> !inner.to_eliminate@.contains(#[trigger] inner.joiner.left_keys@[i]),
    ensures
        eval_ra(RelAlgebra::NegJoin(Box::new(outer)), tx, epoch, delta)
            == eval_ra(RelAlgebra::NegJoin(Box::new(inner)), tx, epoch, delta),
{
    let n1 = RelAlgebra::NegJoin(Box::new(inner));
    assert(well_formed(inner.left, tx));
    assert(crate::semantics::joiner_ok(inner.joiner, after(inner.left), after(inner.right)));
    assert(inner.right is Triple ==> inner.joiner.right_keys@.len() >= 1);
    let b = after(inner.left);
    let e = inner.to_eliminate@;
    lemma_after_is_without(n1);
    assert(after(n1) == without(b, e));
    assert(outer.to_eliminate@ =~= Seq::<Symbol>::empty());
    lemma_no_positions(after(n1));
    let lk = inner.joiner.left_keys@;
    let rji = crate::semantics::key_positions(inner.joiner.right_keys@, after(inner.right));
    lemma_eval_arity(inner.left, tx, epoch, delta);
    lemma_neg_outcome_found(inner, tx, eval_ra(inner.left, tx, epoch, delta));
    lemma_neg_outcome_found(outer, tx, eval_ra(n1, tx, epoch, delta));
    if let Ok(ls) = eval_ra(inner.left, tx, epoch, delta) {
        if crate::relation::is_source(inner.right) {
            let f1 = found_of(inner.right, tx, crate::semantics::key_positions(lk, b), rji);
            if let Ok(out) = anti_join(ls, f1, positions_of(b, e)) {
                lemma_kept_unmatched(inner.right, tx, ls, out, b, e, lk, rji);
                lemma_anti_keeps_all(out, found_of(inner.right, tx, crate::semantics::key_positions(lk, without(b, e)), rji));
            }
        }
    }
}

/// `x` is a filter of `parent` by the one predicate `p`, dropping nothing.
pub open spec fn filter_of(x: RelAlgebra, parent: RelAlgebra, p: Expr) -> bool {
    x matches RelAlgebra::Filter(f) && *f.parent == parent && f.pred@ == seq![p] && f.to_eliminate@.len() == 0
}

/// The predicate holds of the tuple.
pub open spec fn holds(p: Expr) -> spec_fn(Seq<Val>) -> bool {
    |x: Seq<Val>| eval_pred(p, x) == Ok::<bool, QErr>(true)
}

/// One predicate as a filter list.
proof fn lemma_preds_one(p: Expr, x: Seq<Val>)
    ensures
        crate::expr::eval_preds(seq![p], x) == eval_pred(p, x),
{
    assert(seq![p].drop_first() =~= Seq::<Expr>::empty());
    assert(seq![p][0] == p);
    assert(crate::expr::eval_preds(Seq::<Expr>::empty(), x) == Ok::<bool, QErr>(true));
}

/// A single predicate that never fails keeps the tuples it holds of.
proof fn lemma_filter_one(rs: Seq<Seq<Val>>, p: Expr)
    requires
        forall|i: int| 0 <= i < rs.len() ==> #[trigger] eval_pred(p, rs[i]) is Ok,
    ensures
        flat_rows(rs, keep_row(seq![p], Set::empty())) == Ok::<Seq<Seq<Val>>, QErr>(rs.filter(holds(p))),
    decreases rs.len(),
{
    reveal(Seq::filter);
    let f = keep_row(seq![p], Set::empty());
    if rs.len() > 0 {
        assert forall|i: int| 0 <= i < rs.drop_last().len() implies #[trigger] eval_pred(p, rs.drop_last()[i]) is Ok by {
            assert(rs.drop_last()[i] == rs[i]);
        }
        lemma_filter_one(rs.drop_last(), p);
        let x = rs.last();
        assert(eval_pred(p, rs[rs.len() - 1]) is Ok);
        lemma_preds_one(p, x);
        lemma_drop_nothing(x, Set::empty());
        let acc = rs.drop_last().filter(holds(p));
        if eval_pred(p, x) == Ok::<bool, QErr>(true) {
            assert(f(x) == Ok::<Seq<Seq<Val>>, QErr>(seq![x]));
            assert(rs.filter(holds(p)) == acc.push(x));
            assert(acc + seq![x] =~= acc.push(x));
        } else {
            assert(f(x) == Ok::<Seq<Seq<Val>>, QErr>(Seq::empty()));
            assert(rs.filter(holds(p)) == acc);
            assert(acc + Seq::<Seq<Val>>::empty() =~= acc);
        }
    } else {
        assert(rs.filter(holds(p)) =~= Seq::<Seq<Val>>::empty());
    }
}

/// Two filters of a sequence commute.
proof fn lemma_filters_commute(s: Seq<Seq<Val>>, a: spec_fn(Seq<Val>) -> bool, b: spec_fn(Seq<Val>) -> bool)
    ensures
        s.filter(a).filter(b) == s.filter(b).filter(a),
    decreases s.len(),
{
    reveal(Seq::filter);
    if s.len() > 0 {
        lemma_filters_commute(s.drop_last(), a, b);
        let x = s.last();
        if a(x) {
            assert(s.filter(a).drop_last() =~= s.drop_last().filter(a));
        }
        if b(x) {
            assert(s.filter(b).drop_last() =~= s.drop_last().filter(b));
        }
    }
}

/// Kept tuples came from the sequence.
proof fn lemma_filter_from(s: Seq<Seq<Val>>, a: spec_fn(Seq<Val>) -> bool, i: int)
    requires
        0 <= i < s.filter(a).len(),
    ensures
        s.contains(s.filter(a)[i]),
{
    assert(s.filter(a).contains(s.filter(a)[i]));
    s.lemma_filter_contains_rev(a, s.filter(a)[i]);
}

/// Filtering by `p` then `q` yields what filtering by `q` then `p` does, where
/// neither predicate fails on the tuples of `r`.
#[verifier::rlimit(80)]
pub proof fn filters_commute(r: RelAlgebra, p: Expr, q: Expr, a1: RelAlgebra, a2: RelAlgebra, b1: RelAlgebra, b2: RelAlgebra,
    tx: SessionTx, epoch: Option<u32>, delta: Seq<u64>)
    requires
        filter_of(a1, r, p),
        filter_of(a2, a1, q),
        filter_of(b1, r, q),
        filter_of(b2, b1, p),
        eval_ra(r, tx, epoch, delta) matches Ok(rs) ==> forall|i: int| 0 <= i < rs.len()
            ==> #[trigger] eval_pred(p, rs[i]) is Ok && eval_pred(q, rs[i]) is Ok,
    ensures
        eval_ra(a2, tx, epoch, delta) == eval_ra(b2, tx, epoch, delta),
{
    assert(a1->Filter_0.to_eliminate@ =~= Seq::<Symbol>::empty());
    assert(a2->Filter_0.to_eliminate@ =~= Seq::<Symbol>::empty());
    assert(b1->Filter_0.to_eliminate@ =~= Seq::<Symbol>::empty());
    assert(b2->Filter_0.to_eliminate@ =~= Seq::<Symbol>::empty());
    lemma_no_positions(after(r));
    lemma_no_positions(after(a1));
    lemma_no_positions(after(b1));
    let fp = keep_row(seq![p], Set::empty());
    let fq = keep_row(seq![q], Set::empty());
    assert(eval_ra(a1, tx, epoch, delta) == (match eval_ra(r, tx, epoch, delta) {
        Err(x) => Err(x),
        Ok(rs) => flat_rows(rs, fp),
    }));
    assert(eval_ra(b1, tx, epoch, delta) == (match eval_ra(r, tx, epoch, delta) {
        Err(x) => Err(x),
        Ok(rs) => flat_rows(rs, fq),
    }));
    assert(eval_ra(a2, tx, epoch, delta) == (match eval_ra(a1, tx, epoch, delta) {
        Err(x) => Err(x),
        Ok(rs) => flat_rows(rs, fq),
    }));
    assert(eval_ra(b2, tx, epoch, delta) == (match eval_ra(b1, tx, epoch, delta) {
        Err(x) => Err(x),
        Ok(rs) => flat_rows(rs, fp),
    }));
    if let Ok(rs) = eval_ra(r, tx, epoch, delta) {
        assert forall|i: int| 0 <= i < rs.len() implies #[trigger] eval_pred(q, rs[i]) is Ok by {
            assert(eval_pred(p, rs[i]) is Ok && eval_pred(q, rs[i]) is Ok);
        }
        lemma_filter_one(rs, p);
        lemma_filter_one(rs, q);
        let sp = rs.filter(holds(p));
        let sq = rs.filter(holds(q));
        assert forall|i: int| 0 <= i < sp.len() implies #[trigger] eval_pred(q, sp[i]) is Ok by {
            lemma_filter_from(rs, holds(p), i);
            let k = choose|k: int| 0 <= k < rs.len() && rs[k] == sp[i];
            assert(eval_pred(p, rs[k]) is Ok && eval_pred(q, rs[k]) is Ok);
        }
        assert forall|i: int| 0 <= i < sq.len() implies #[trigger] eval_pred(p, sq[i]) is Ok by {
            lemma_filter_from(rs, holds(q), i);
            let k = choose|k: int| 0 <= k < rs.len() && rs[k] == sq[i];
            assert(eval_pred(p, rs[k]) is Ok && eval_pred(q, rs[k]) is Ok);
        }
        lemma_filter_one(sp, q);
        lemma_filter_one(sq, p);
        lemma_filters_commute(rs, holds(p), holds(q));
    }
}

/// An expression resolved against `b` and its copy resolved against `order`
/// agree on a tuple and on its reordering, where `b` holds no symbol twice.
proof fn lemma_eval_reordered(p: Expr, p2: Expr, x: Seq<Val>, b: Seq<Symbol>, order: Seq<Symbol>)
    requires
        resolved(p, b),
        resolved(p2, order),
        same_but_positions(p, p2),
        b.no_duplicates(),
        x.len() == b.len(),
    ensures
        eval_expr(p2, reorder_row(x, b, order)) == eval_expr(p, x),
    decreases p,
{
    match p {
        Expr::Binding { var, tuple_pos } => {
            let i = tuple_pos.unwrap() as int;
            let i2 = p2->Binding_tuple_pos.unwrap() as int;
            assert forall|k: int| 0 <= k < i implies b[k] != var by {
                assert(b[i] == var);
            }
            crate::semantics::lemma_first_pos(b, var, i);
            assert(order[i2] == var);
        },
        Expr::Compare { op, left, right } => {
            let l2 = *p2->Compare_left;
            let r2 = *p2->Compare_right;
            lemma_eval_reordered(*left, l2, x, b, order);
            lemma_eval_reordered(*right, r2, x, b, order);
        },
        _ => {},
    }
}

/// Filtering then reordering yields what reordering then filtering by the
/// re-resolved predicate does.
proof fn lemma_filter_reorder_rows(rs: Seq<Seq<Val>>, p: Expr, p2: Expr, b: Seq<Symbol>, order: Seq<Symbol>)
    requires
        resolved(p, b),
        resolved(p2, order),
        same_but_positions(p, p2),
        b.no_duplicates(),
        rows_have_len(rs, b.len() as int),
    ensures
        flat_rows(reorder_rows(rs, b, order), keep_row(seq![p2], Set::empty())) == (match flat_rows(rs, keep_row(seq![p], Set::empty())) {
            Err(e) => Err(e),
            Ok(y) => Ok::<Seq<Seq<Val>>, QErr>(reorder_rows(y, b, order)),
        }),
    decreases rs.len(),
{
    let fp = keep_row(seq![p], Set::empty());
    let fp2 = keep_row(seq![p2], Set::empty());
    let rr = reorder_rows(rs, b, order);
    if rs.len() > 0 {
        assert(rows_have_len(rs.drop_last(), b.len() as int)) by {
            assert forall|i: int| 0 <= i < rs.drop_last().len() implies (#[trigger] rs.drop_last()[i]).len() == b.len() by {
                assert(rs.drop_last()[i] == rs[i]);
            }
        }
        lemma_filter_reorder_rows(rs.drop_last(), p, p2, b, order);
        let x = rs.last();
        assert(x.len() == b.len()) by { assert(rs[rs.len() - 1] == x); }
        assert(rr.drop_last() =~= reorder_rows(rs.drop_last(), b, order));
        assert(rr.last() == reorder_row(x, b, order));
        lemma_eval_reordered(p, p2, x, b, order);
        lemma_preds_one(p, x);
        lemma_preds_one(p2, reorder_row(x, b, order));
        lemma_drop_nothing(x, Set::empty());
        lemma_drop_nothing(reorder_row(x, b, order), Set::empty());
        if let Ok(acc) = flat_rows(rs.drop_last(), fp) {
            if let Ok(more) = fp(x) {
                assert(reorder_rows(acc + more, b, order) =~= reorder_rows(acc, b, order) + reorder_rows(more, b, order));
                if eval_pred(p, x) == Ok::<bool, QErr>(true) {
                    assert(reorder_rows(more, b, order) =~= seq![reorder_row(x, b, order)]);
                } else {
                    assert(reorder_rows(more, b, order) =~= Seq::<Seq<Val>>::empty());
                }
            }
        }
    } else {
        assert(rr =~= Seq::<Seq<Val>>::empty());
        assert(reorder_rows(Seq::<Seq<Val>>::empty(), b, order) =~= Seq::<Seq<Val>>::empty());
    }
}

/// Filtering by `p` then reordering to `order` yields what reordering then
/// filtering by `p2` does, where `p2` is `p` resolved against the reordered
/// columns (so its variables are among them) and `r` outputs no symbol twice.
#[verifier::rlimit(80)]
pub proof fn filter_reorder_commute(r: RelAlgebra, p: Expr, p2: Expr, fa: RelAlgebra, a: RelAlgebra, rb: RelAlgebra,
    b: RelAlgebra, tx: SessionTx, epoch: Option<u32>, delta: Seq<u64>)
    requires
        well_formed(r, tx),
        filter_of(fa, r, p),
        a matches RelAlgebra::Reorder(o) && *o.relation == fa,
        rb matches RelAlgebra::Reorder(o2) && *o2.relation == r && o2.new_order == a->Reorder_0.new_order,
        filter_of(b, rb, p2),
        resolved(p, after(r)),
        resolved(p2, a->Reorder_0.new_order@),
        same_but_positions(p, p2),
        after(r).no_duplicates(),
    ensures
        eval_ra(a, tx, epoch, delta) == eval_ra(b, tx, epoch, delta),
{
    let order = a->Reorder_0.new_order@;
    let f = fa->Filter_0;
    let g = b->Filter_0;
    assert(f.to_eliminate@ =~= Seq::<Symbol>::empty());
    assert(g.to_eliminate@ =~= Seq::<Symbol>::empty());
    crate::relation::lemma_without_nothing(after(r));
    assert(after(fa) == after(r));
    assert(after(rb) == order);
    lemma_no_positions(after(r));
    lemma_no_positions(order);
    lemma_eval_arity(r, tx, epoch, delta);
    let fp = keep_row(seq![p], Set::empty());
    let fp2 = keep_row(seq![p2], Set::empty());
    assert(eval_ra(fa, tx, epoch, delta) == (match eval_ra(r, tx, epoch, delta) {
        Err(x) => Err(x),
        Ok(rs) => flat_rows(rs, fp),
    }));
    assert(eval_ra(rb, tx, epoch, delta) == (match eval_ra(r, tx, epoch, delta) {
        Err(x) => Err(x),
        Ok(rs) => Ok::<Seq<Seq<Val>>, QErr>(crate::semantics::reorder_rows(rs, after(r), order)),
    }));
    assert(eval_ra(b, tx, epoch, delta) == (match eval_ra(rb, tx, epoch, delta) {
        Err(x) => Err(x),
        Ok(rs) => flat_rows(rs, fp2),
    }));
    if let Ok(rs) = eval_ra(r, tx, epoch, delta) {
        lemma_filter_reorder_rows(rs, p, p2, after(r), order);
    }
}

} // verus!
