//! What each operator yields, stated over the models: the tuples a tree
//! produces from a store, for an epoch and a set of delta relations.
use vstd::prelude::*;
use crate::error::{QErr, SourceSpan};
use crate::expr::{Expr, eval_expr, eval_preds, lower_bound, upper_bound, is_open, spread_values};
use crate::relation::{lemma_after_is_without, without, 
    InnerJoin, Joiner, NegJoin, RelAlgebra, TripleRA, DerivedRA, RelationRA, after, before, is_source,
};
use crate::store::{SessionTx, TripleQuery, TripleRow, epoch_rows, row_in_range, rows_in_range, triple_hits};
use crate::tuple::{drop_at, lemma_drop_at_len, lemma_drop_nothing, lemma_drop_positions, positions_of, rows};
use crate::value::{Symbol, Val};

verus! {

/// A result: the tuples produced, or the first error met.
pub type Outcome = Result<Seq<Seq<Val>>, QErr>;

/// Applies `f` to each tuple of `ls` in order and concatenates what it yields;
/// the first error ends the whole.
pub open spec fn flat_rows(ls: Seq<Seq<Val>>, f: spec_fn(Seq<Val>) -> Outcome) -> Outcome
    decreases ls.len(),
{
    if ls.len() == 0 {
        Ok(Seq::empty())
    } else {
        match flat_rows(ls.drop_last(), f) {
            Err(x) => Err(x),
            Ok(acc) => match f(ls.last()) {
                Err(x) => Err(x),
                Ok(more) => Ok(acc + more),
            },
        }
    }
}

/// The tuple, minus the columns in `gone`, if the filters hold of it.
pub open spec fn keep_row(fs: Seq<Expr>, gone: Set<int>) -> spec_fn(Seq<Val>) -> Outcome {
    |r: Seq<Val>| match eval_preds(fs, r) {
        Err(x) => Err(x),
        Ok(true) => Ok(seq![drop_at(r, gone)]),
        Ok(false) => Ok(Seq::empty()),
    }
}

/// The first position of `x` in `s`.
pub open spec fn first_pos<A>(s: Seq<A>, x: A) -> int {
    choose|p: int| 0 <= p < s.len() && s[p] == x && forall|j: int| 0 <= j < p ==> s[j] != x
}

/// For each key, its first position in `b`.
pub open spec fn key_positions(keys: Seq<Symbol>, b: Seq<Symbol>) -> Seq<usize> {
    Seq::new(keys.len(), |i: int| first_pos(b, keys[i]) as usize)
}

/// The left and right key positions of a join.
pub open spec fn join_positions(j: Joiner, lb: Seq<Symbol>, rb: Seq<Symbol>) -> (Seq<usize>, Seq<usize>) {
    (key_positions(j.left_keys@, lb), key_positions(j.right_keys@, rb))
}

/// `l` and `r` agree on every pair of key columns.
pub open spec fn keys_match(l: Seq<Val>, r: Seq<Val>, lji: Seq<usize>, rji: Seq<usize>) -> bool {
    forall|i: int| 0 <= i < lji.len() && i < rji.len() ==> l[#[trigger] lji[i] as int] == r[rji[i] as int]
}

/// For each left tuple, its concatenation with every right tuple that agrees
/// on the keys, minus the columns in `gone`.
pub open spec fn hash_join(ls: Seq<Seq<Val>>, rs: Seq<Seq<Val>>, lji: Seq<usize>, rji: Seq<usize>, gone: Set<int>) -> Outcome {
    flat_rows(ls, hash_row(rs, lji, rji, gone))
}

pub open spec fn key_filter(l: Seq<Val>, lji: Seq<usize>, rji: Seq<usize>) -> spec_fn(Seq<Val>) -> bool {
    |r: Seq<Val>| keys_match(l, r, lji, rji)
}

pub open spec fn joined(l: Seq<Val>, gone: Set<int>) -> spec_fn(Seq<Val>) -> Seq<Val> {
    |r: Seq<Val>| drop_at(l + r, gone)
}

/// What one left tuple yields in a hash join.
pub open spec fn hash_row(rs: Seq<Seq<Val>>, lji: Seq<usize>, rji: Seq<usize>, gone: Set<int>) -> spec_fn(Seq<Val>) -> Outcome {
    |l: Seq<Val>| Ok(rs.filter(key_filter(l, lji, rji)).map_values(joined(l, gone)))
}

/// `rji` holds every position below its length: the keys are a prefix of the
/// right relation's columns.
pub open spec fn is_prefix_keys(rji: Seq<usize>) -> bool {
    forall|j: usize| j < rji.len() ==> #[trigger] rji.contains(j)
}

/// How many leading columns of the right relation the keys cover.
pub open spec fn prefix_len_from(rji: Seq<usize>, m: int) -> int
    decreases rji.len() - m,
{
    if 0 <= m < rji.len() && rji.contains(m as usize) {
        prefix_len_from(rji, m + 1)
    } else {
        m
    }
}

/// The left columns that give the right relation's leading key columns, in
/// the right relation's order.
pub open spec fn prefix_cols(lji: Seq<usize>, rji: Seq<usize>) -> Seq<usize> {
    Seq::new(prefix_len_from(rji, 0) as nat, |j: int| lji[first_pos(rji, j as usize)])
}

/// The values of `l` at `cols`.
pub open spec fn pick(l: Seq<Val>, cols: Seq<usize>) -> Seq<Val> {
    Seq::new(cols.len(), |j: int| l[cols[j] as int])
}

pub open spec fn entity_of(v: Val) -> Option<nat> {
    match v {
        Val::Entity(e) => Some(e),
        _ => None,
    }
}

/// The validity that scans of the attribute observe.
pub open spec fn as_of(t: TripleRA) -> Option<i64> {
    if t.attr.with_history {
        Some(t.vld)
    } else {
        None
    }
}

pub open spec fn tquery(t: TripleRA, entity: Option<u64>, value: Option<Val>, range: Option<(Val, Val)>) -> TripleQuery {
    TripleQuery { attr: t.attr.id, entity, value, range, as_of: as_of(t) }
}

/// The value range that a triple's filters give its value column when no
/// column is bound, or none when they leave it open.
pub open spec fn cartesian_range(t: TripleRA) -> Option<(Val, Val)> {
    let lo = lower_bound(t.filters@, t.bindings@[1], Seq::empty());
    let hi = upper_bound(t.filters@, t.bindings@[1], Seq::empty());
    if t.filters@.len() > 0 && !is_open(lo, hi) {
        Some((lo, hi))
    } else {
        None
    }
}

/// The value range that a triple's filters give its value column once the
/// left tuple `l` is known, or none when they leave it open.
pub open spec fn entity_range(t: TripleRA, l: Seq<Val>) -> Option<(Val, Val)> {
    let lo = lower_bound(t.filters@, t.bindings@[1], l);
    let hi = upper_bound(t.filters@, t.bindings@[1], l);
    if t.filters@.len() > 0 && !is_open(lo, hi) {
        Some((lo, hi))
    } else {
        None
    }
}

/// `l` followed by each of `hs`.
pub open spec fn extend_each(l: Seq<Val>, hs: Seq<Seq<Val>>) -> Seq<Seq<Val>> {
    hs.map_values(prepend(l))
}

pub open spec fn prepend(l: Seq<Val>) -> spec_fn(Seq<Val>) -> Seq<Val> {
    |h: Seq<Val>| l + h
}

/// The facts that a left tuple `l` joins with, appended to it, before the
/// triple's own filters; the scan is chosen by which columns are bound.
pub open spec fn triple_cands(t: TripleRA, tx: SessionTx, l: Seq<Val>, lji: Seq<usize>, rji: Seq<usize>) -> Outcome {
    let ts = tx.triples@;
    if rji.len() == 0 {
        Ok(extend_each(l, triple_hits(ts, tquery(t, None, None, cartesian_range(t)))))
    } else if rji.len() >= 2 {
        let le = if rji[0] == 0 { lji[0] } else { lji[1] };
        let lv = if rji[0] == 0 { lji[1] } else { lji[0] };
        match entity_of(l[le as int]) {
            None => Err(QErr::EntityIdExpected(l[le as int], t.span)),
            Some(e) => if triple_hits(ts, tquery(t, Some(e as u64), Some(l[lv as int]), None)).len() > 0 {
                Ok(seq![l + seq![Val::Entity(e), l[lv as int]]])
            } else {
                Ok(Seq::empty())
            },
        }
    } else if rji[0] == 0 {
        match entity_of(l[lji[0] as int]) {
            None => Err(QErr::EntityIdExpected(l[lji[0] as int], t.span)),
            Some(e) => Ok(extend_each(l, triple_hits(ts, tquery(t, Some(e as u64), None, entity_range(t, l))))),
        }
    } else if t.attr.is_ref {
        match entity_of(l[lji[0] as int]) {
            None => Err(QErr::EntityIdExpected(l[lji[0] as int], t.span)),
            Some(e) => Ok(extend_each(l, triple_hits(ts, tquery(t, None, Some(Val::Entity(e)), None)))),
        }
    } else if t.attr.indexed {
        Ok(extend_each(l, triple_hits(ts, tquery(t, None, Some(l[lji[0] as int]), None))))
    } else {
        Ok(extend_each(l, triple_hits(ts, tquery(t, None, None, None)).filter(value_is(l[lji[0] as int]))))
    }
}

/// Joins each left tuple with the facts of a triple node, then applies the
/// node's filters and drops the columns in `gone`.
pub open spec fn triple_join(t: TripleRA, tx: SessionTx, ls: Seq<Seq<Val>>, lji: Seq<usize>, rji: Seq<usize>, gone: Set<int>) -> Outcome {
    flat_rows(ls, triple_row(t, tx, lji, rji, gone))
}

/// What one left tuple yields in a join with a triple node.
pub open spec fn triple_row(t: TripleRA, tx: SessionTx, lji: Seq<usize>, rji: Seq<usize>, gone: Set<int>) -> spec_fn(Seq<Val>) -> Outcome {
    |l: Seq<Val>| match triple_cands(t, tx, l, lji, rji) {
        Err(x) => Err(x),
        Ok(cs) => flat_rows(cs, keep_row(t.filters@, gone)),
    }
}

/// The fact has the value `v`.
pub open spec fn value_is(v: Val) -> spec_fn(Seq<Val>) -> bool {
    |h: Seq<Val>| h[1] == v
}

/// Whether a fact matches the left tuple `l` on the keys, for an anti-join.
pub open spec fn triple_found(t: TripleRA, tx: SessionTx, l: Seq<Val>, lji: Seq<usize>, rji: Seq<usize>) -> Result<bool, QErr> {
    let ts = tx.triples@;
    if rji.len() >= 2 {
        let le = if rji[0] == 0 { lji[0] } else { lji[1] };
        let lv = if rji[0] == 0 { lji[1] } else { lji[0] };
        match entity_of(l[le as int]) {
            None => Err(QErr::EntityIdExpected(l[le as int], t.span)),
            Some(e) => Ok(triple_hits(ts, tquery(t, Some(e as u64), Some(l[lv as int]), None)).len() > 0),
        }
    } else if rji[0] == 0 {
        match entity_of(l[lji[0] as int]) {
            None => Err(QErr::EntityIdExpected(l[lji[0] as int], t.span)),
            Some(e) => Ok(triple_hits(ts, tquery(t, Some(e as u64), None, None)).len() > 0),
        }
    } else if t.attr.is_ref {
        match entity_of(l[lji[0] as int]) {
            None => Err(QErr::EntityIdExpected(l[lji[0] as int], t.span)),
            Some(e) => Ok(triple_hits(ts, tquery(t, None, Some(Val::Entity(e)), None)).len() > 0),
        }
    } else if t.attr.indexed {
        Ok(triple_hits(ts, tquery(t, None, Some(l[lji[0] as int]), None)).len() > 0)
    } else {
        Ok(triple_hits(ts, tquery(t, None, None, None)).filter(value_is(l[lji[0] as int])).len() > 0)
    }
}

/// The epoch whose rows a derived relation is read at: the previous epoch's
/// delta for a relation in `delta` during a recursive epoch, else the stable
/// contents.
pub open spec fn scan_epoch(d: DerivedRA, epoch: Option<u32>, delta: Seq<u64>) -> int {
    match epoch {
        Some(ep) => if delta.contains(d.storage.id) && ep > 0 {
            ep - 1
        } else {
            0
        },
        None => 0,
    }
}

/// The derived relation has nothing yet in its first delta.
pub open spec fn derived_empty(d: DerivedRA, epoch: Option<u32>, delta: Seq<u64>) -> bool {
    epoch == Some(0u32) && delta.contains(d.storage.id)
}

/// The lower bound that the filters give each of `cols`.
pub open spec fn bound_lows(fs: Seq<Expr>, cols: Seq<Symbol>) -> Seq<Val> {
    Seq::new(cols.len(), |i: int| lower_bound(fs, cols[i], Seq::empty()))
}

/// The upper bound that the filters give each of `cols`.
pub open spec fn bound_highs(fs: Seq<Expr>, cols: Seq<Symbol>) -> Seq<Val> {
    Seq::new(cols.len(), |i: int| upper_bound(fs, cols[i], Seq::empty()))
}

/// The bounds that filters give the non-key columns `cols` of a stored or
/// derived relation, or no bounds when they leave every column open.
pub open spec fn prefix_bounds(fs: Seq<Expr>, cols: Seq<Symbol>) -> (Seq<Val>, Seq<Val>) {
    let lo = bound_lows(fs, cols);
    let hi = bound_highs(fs, cols);
    if fs.len() > 0 && exists|i: int| 0 <= i < cols.len() && !is_open(#[trigger] lo[i], hi[i]) {
        (lo, hi)
    } else {
        (Seq::empty(), Seq::empty())
    }
}

/// Joins each left tuple with the rows of `rs` that start with its key values,
/// then applies the filters and drops the columns in `gone`.
pub open spec fn prefix_join(rs: Seq<Seq<Val>>, bindings: Seq<Symbol>, fs: Seq<Expr>, ls: Seq<Seq<Val>>,
    lji: Seq<usize>, rji: Seq<usize>, gone: Set<int>) -> Outcome
{
    flat_rows(ls, prefix_row(rs, bindings, fs, lji, rji, gone))
}

/// How many leading columns the keys take, within the relation's columns.
pub open spec fn skip_len(rji: Seq<usize>, bindings: Seq<Symbol>) -> int {
    if rji.len() <= bindings.len() {
        rji.len() as int
    } else {
        bindings.len() as int
    }
}

/// What one left tuple yields in a prefix join.
pub open spec fn prefix_row(rs: Seq<Seq<Val>>, bindings: Seq<Symbol>, fs: Seq<Expr>,
    lji: Seq<usize>, rji: Seq<usize>, gone: Set<int>) -> spec_fn(Seq<Val>) -> Outcome
{
    let b = prefix_bounds(fs, bindings.skip(skip_len(rji, bindings)));
    |l: Seq<Val>| flat_rows(
        extend_each(l, rows_in_range(rs, pick(l, prefix_cols(lji, rji)), b.0, b.1)),
        keep_row(fs, gone),
    )
}

/// Whether some row of `rs` matches the left tuple `l` on the keys.
pub open spec fn rows_found(rs: Seq<Seq<Val>>, l: Seq<Val>, lji: Seq<usize>, rji: Seq<usize>) -> bool {
    rows_in_range(rs, pick(l, prefix_cols(lji, rji)), Seq::empty(), Seq::empty())
        .filter(key_filter(l, lji, rji)).len() > 0
}

pub open spec fn triple_found_fn(t: TripleRA, tx: SessionTx, lji: Seq<usize>, rji: Seq<usize>) -> spec_fn(Seq<Val>) -> Result<bool, QErr> {
    |l: Seq<Val>| triple_found(t, tx, l, lji, rji)
}

pub open spec fn rows_found_fn(rs: Seq<Seq<Val>>, lji: Seq<usize>, rji: Seq<usize>) -> spec_fn(Seq<Val>) -> Result<bool, QErr> {
    |l: Seq<Val>| Ok(rows_found(rs, l, lji, rji))
}

/// The rows of the stored relation that a node reads.
pub open spec fn stored_rows(tx: SessionTx, v: RelationRA) -> Seq<Seq<Val>> {
    if v.storage.id < tx.relations@.len() {
        rows(tx.relations@[v.storage.id as int]@)
    } else {
        Seq::empty()
    }
}

/// The left tuples that match nothing, minus the columns in `gone`.
pub open spec fn anti_join(ls: Seq<Seq<Val>>, found: spec_fn(Seq<Val>) -> Result<bool, QErr>, gone: Set<int>) -> Outcome {
    flat_rows(ls, anti_row(found, gone))
}

/// What one left tuple yields in an anti-join.
pub open spec fn anti_row(found: spec_fn(Seq<Val>) -> Result<bool, QErr>, gone: Set<int>) -> spec_fn(Seq<Val>) -> Outcome {
    |l: Seq<Val>| match found(l) {
        Err(x) => Err(x),
        Ok(true) => Ok(Seq::empty()),
        Ok(false) => Ok(seq![drop_at(l, gone)]),
    }
}

/// The rows of an inline relation, minus its dropped columns.
pub open spec fn fixed_rows(data: Seq<Seq<Val>>, bindings: Seq<Symbol>, elim: Seq<Symbol>) -> Seq<Seq<Val>> {
    data.map_values(|r: Seq<Val>| drop_at(r, positions_of(bindings, elim)))
}

/// One tuple per value of `vs`: `r` extended by it, minus the columns in `gone`.
pub open spec fn spread_rows(r: Seq<Val>, vs: Seq<Val>, gone: Set<int>) -> Seq<Seq<Val>> {
    vs.map_values(|v: Val| drop_at(r.push(v), gone))
}

/// The tuples that a unification yields for the tuple `r`.
pub open spec fn unify_row(e: Expr, is_multi: bool, span: SourceSpan, gone: Set<int>) -> spec_fn(Seq<Val>) -> Outcome {
    |r: Seq<Val>| if is_multi {
        match spread_values(e, r) {
            Err(x) => Err(x),
            Ok(None) => Err(QErr::BadSpreadUnification(span)),
            Ok(Some(vs)) => Ok(spread_rows(r, vs, gone)),
        }
    } else {
        match eval_expr(e, r) {
            Err(x) => Err(x),
            Ok(v) => Ok(seq![drop_at(r.push(v), gone)]),
        }
    }
}

/// The columns `order` of each tuple, each read where it first stands in `b`.
pub open spec fn reorder_rows(rs: Seq<Seq<Val>>, b: Seq<Symbol>, order: Seq<Symbol>) -> Seq<Seq<Val>> {
    rs.map_values(|r: Seq<Val>| reorder_row(r, b, order))
}

/// The columns `order` of the tuple `r`, each read where it first stands in `b`.
pub open spec fn reorder_row(r: Seq<Val>, b: Seq<Symbol>, order: Seq<Symbol>) -> Seq<Val> {
    Seq::new(order.len(), |i: int| r[first_pos(b, order[i])])
}

/// The tuples that the tree `ra` yields from the store `tx`, at `epoch`, with
/// the derived relations in `delta` read as deltas.
pub open spec fn eval_ra(ra: RelAlgebra, tx: SessionTx, epoch: Option<u32>, delta: Seq<u64>) -> Outcome
    decreases ra,
{
    match ra {
        RelAlgebra::Fixed(f) => Ok(fixed_rows(rows(f.data@), f.bindings@, f.to_eliminate@)),
        RelAlgebra::Triple(t) => triple_join(t, tx, seq![Seq::empty()], Seq::empty(), Seq::empty(), Set::empty()),
        RelAlgebra::Derived(d) => if derived_empty(d, epoch, delta) {
            Ok(Seq::empty())
        } else {
            flat_rows(epoch_rows(d.storage, scan_epoch(d, epoch, delta)), keep_row(d.filters@, Set::empty()))
        },
        RelAlgebra::Relation(v) => flat_rows(stored_rows(tx, v), keep_row(v.filters@, Set::empty())),
        RelAlgebra::Reorder(o) => match eval_ra(*o.relation, tx, epoch, delta) {
            Err(x) => Err(x),
            Ok(rs) => Ok(reorder_rows(rs, after(*o.relation), o.new_order@)),
        },
        RelAlgebra::Filter(f) => match eval_ra(*f.parent, tx, epoch, delta) {
            Err(x) => Err(x),
            Ok(rs) => flat_rows(rs, keep_row(f.pred@, positions_of(after(*f.parent), f.to_eliminate@))),
        },
        RelAlgebra::Unification(u) => match eval_ra(*u.parent, tx, epoch, delta) {
            Err(x) => Err(x),
            Ok(rs) => flat_rows(rs, unify_row(u.expr, u.is_multi, u.span, positions_of(after(*u.parent).push(u.binding), u.to_eliminate@))),
        },
        RelAlgebra::NegJoin(j) => neg_outcome(*j, tx, eval_ra(j.left, tx, epoch, delta)),
        RelAlgebra::Join(j) => join_outcome(*j, tx, epoch, delta, eval_ra(j.left, tx, epoch, delta), eval_ra(j.right, tx, epoch, delta)),
    }
}


/// What an anti-join yields, given what its left side yields.
pub open spec fn neg_outcome(j: NegJoin, tx: SessionTx, left: Outcome) -> Outcome {
    let (lji, rji) = join_positions(j.joiner, after(j.left), after(j.right));
    let gone = positions_of(after(j.left), j.to_eliminate@);
    match left {
        Err(x) => Err(x),
        Ok(ls) => match j.right {
            RelAlgebra::Triple(t) => anti_join(ls, triple_found_fn(t, tx, lji, rji), gone),
            RelAlgebra::Derived(d) => anti_join(ls, rows_found_fn(epoch_rows(d.storage, 0), lji, rji), gone),
            RelAlgebra::Relation(v) => anti_join(ls, rows_found_fn(stored_rows(tx, v), lji, rji), gone),
            _ => Ok(Seq::empty()),
        },
    }
}

/// What an inner join yields, given what its two sides yield; the right side
/// decides which of them is read.
pub open spec fn join_outcome(j: InnerJoin, tx: SessionTx, epoch: Option<u32>, delta: Seq<u64>, left: Outcome, right: Outcome) -> Outcome {
    let (lji, rji) = join_positions(j.joiner, after(j.left), after(j.right));
    let gone = positions_of(after(j.left) + after(j.right), j.to_eliminate@);
    match j.right {
        RelAlgebra::Fixed(f) => if f.data@.len() == 0 {
            Ok(Seq::empty())
        } else {
            match left {
                Err(x) => Err(x),
                Ok(ls) => hash_join(ls, fixed_rows(rows(f.data@), f.bindings@, f.to_eliminate@), lji, rji, gone),
            }
        },
        RelAlgebra::Triple(t) => match left {
            Err(x) => Err(x),
            Ok(ls) => triple_join(t, tx, ls, lji, rji, gone),
        },
        RelAlgebra::Derived(d) => if derived_empty(d, epoch, delta) {
            Ok(Seq::empty())
        } else {
            let rs = epoch_rows(d.storage, scan_epoch(d, epoch, delta));
            match left {
                Err(x) => Err(x),
                Ok(ls) => if is_prefix_keys(rji) {
                    prefix_join(rs, d.bindings@, d.filters@, ls, lji, rji, gone)
                } else {
                    keyed_join(rs, d.filters@, ls, lji, rji, gone)
                },
            }
        },
        RelAlgebra::Relation(v) => match left {
            Err(x) => Err(x),
            Ok(ls) => if is_prefix_keys(rji) {
                prefix_join(stored_rows(tx, v), v.bindings@, v.filters@, ls, lji, rji, gone)
            } else {
                keyed_join(stored_rows(tx, v), v.filters@, ls, lji, rji, gone)
            },
        },
        RelAlgebra::Reorder(_) | RelAlgebra::NegJoin(_) => Ok(Seq::empty()),
        _ => materialized(right, left, lji, rji, gone),
    }
}

/// Each left tuple joined with every row of `rs` that agrees on the keys; the
/// filters run on the joined tuple, then the columns in `gone` are dropped.
pub open spec fn keyed_join(rs: Seq<Seq<Val>>, fs: Seq<Expr>, ls: Seq<Seq<Val>>, lji: Seq<usize>, rji: Seq<usize>,
    gone: Set<int>) -> Outcome
{
    flat_rows(ls, keyed_row(rs, fs, lji, rji, gone))
}

/// What one left tuple yields in a keyed join.
pub open spec fn keyed_row(rs: Seq<Seq<Val>>, fs: Seq<Expr>, lji: Seq<usize>, rji: Seq<usize>, gone: Set<int>)
    -> spec_fn(Seq<Val>) -> Outcome
{
    |l: Seq<Val>| flat_rows(extend_each(l, rs.filter(key_filter(l, lji, rji))), keep_row(fs, gone))
}

/// The right side evaluated in full, then matched against each left tuple.
pub open spec fn materialized(right: Outcome, left: Outcome, lji: Seq<usize>, rji: Seq<usize>, gone: Set<int>) -> Outcome {
    match right {
        Err(x) => Err(x),
        Ok(rs) => match left {
            Err(x) => Err(x),
            Ok(ls) => hash_join(ls, rs, lji, rji, gone),
        },
    }
}

/// Every tuple of `rs` has `n` columns.
pub open spec fn rows_have_len(rs: Seq<Seq<Val>>, n: int) -> bool {
    forall|i: int| 0 <= i < rs.len() ==> (#[trigger] rs[i]).len() == n
}

/// Each key of `keys` is a column of `b`.
pub open spec fn keys_within(keys: Seq<Symbol>, b: Seq<Symbol>) -> bool {
    forall|i: int| 0 <= i < keys.len() ==> b.contains(#[trigger] keys[i])
}

/// The joiner pairs its keys and finds each on its side.
pub open spec fn joiner_ok(j: Joiner, lb: Seq<Symbol>, rb: Seq<Symbol>) -> bool {
    j.left_keys@.len() == j.right_keys@.len() && keys_within(j.left_keys@, lb) && keys_within(j.right_keys@, rb)
}

/// The keys on a triple node name at most its two columns, each once.
pub open spec fn triple_keys_ok(keys: Seq<Symbol>) -> bool {
    keys.len() <= 2 && (keys.len() == 2 ==> keys[0] != keys[1])
}

/// The tree can be run on `tx` without a planner error: stored rows have the
/// arity of the node reading them, keys and reordered columns exist, a join's
/// right side is not a reorder or an anti-join, an anti-join's right side is a
/// source, and keys on a triple node are one or two distinct columns.
pub open spec fn well_formed(ra: RelAlgebra, tx: SessionTx) -> bool
    decreases ra,
{
    match ra {
        RelAlgebra::Fixed(f) => rows_have_len(rows(f.data@), f.bindings@.len() as int),
        RelAlgebra::Triple(_) => true,
        RelAlgebra::Derived(d) => forall|e: int| 0 <= e < d.storage.epochs@.len()
            ==> rows_have_len(#[trigger] rows(d.storage.epochs@[e]@), d.bindings@.len() as int),
        RelAlgebra::Relation(v) => v.storage.id < tx.relations@.len()
            && rows_have_len(rows(tx.relations@[v.storage.id as int]@), v.bindings@.len() as int),
        RelAlgebra::Reorder(o) => well_formed(*o.relation, tx) && keys_within(o.new_order@, after(*o.relation)),
        RelAlgebra::Filter(f) => well_formed(*f.parent, tx),
        RelAlgebra::Unification(u) => well_formed(*u.parent, tx),
        RelAlgebra::Join(j) => well_formed(j.left, tx) && well_formed(j.right, tx)
            && joiner_ok(j.joiner, after(j.left), after(j.right))
            && !(j.right is Reorder || j.right is NegJoin)
            && (j.right is Triple ==> triple_keys_ok(j.joiner.right_keys@)),
        RelAlgebra::NegJoin(j) => well_formed(j.left, tx) && well_formed(j.right, tx)
            && joiner_ok(j.joiner, after(j.left), after(j.right))
            && is_source(j.right)
            && (j.right is Triple ==> triple_keys_ok(j.joiner.right_keys@) && j.joiner.right_keys@.len() >= 1),
    }
}

/// `flat_rows` over one more tuple.
pub proof fn lemma_flat_step(ls: Seq<Seq<Val>>, f: spec_fn(Seq<Val>) -> Outcome, i: int)
    requires
        0 <= i < ls.len(),
    ensures
        flat_rows(ls.take(i + 1), f) == (match flat_rows(ls.take(i), f) {
            Err(x) => Err(x),
            Ok(acc) => match f(ls[i]) {
                Err(x) => Err(x),
                Ok(more) => Ok(acc + more),
            },
        }),
{
    assert(ls.take(i + 1).drop_last() =~= ls.take(i));
    assert(ls.take(i + 1).last() == ls[i]);
}

/// Once `flat_rows` fails on a prefix, it fails with the same error on the whole.
pub proof fn lemma_flat_err(ls: Seq<Seq<Val>>, f: spec_fn(Seq<Val>) -> Outcome, i: int)
    requires
        0 <= i <= ls.len(),
        flat_rows(ls.take(i), f) is Err,
    ensures
        flat_rows(ls, f) == flat_rows(ls.take(i), f),
    decreases ls.len() - i,
{
    if i < ls.len() {
        lemma_flat_step(ls, f, i);
        lemma_flat_err(ls, f, i + 1);
    } else {
        assert(ls.take(i) =~= ls);
    }
}

/// `flat_rows` over the whole of `ls`.
pub proof fn lemma_flat_all(ls: Seq<Seq<Val>>, f: spec_fn(Seq<Val>) -> Outcome)
    ensures
        flat_rows(ls.take(ls.len() as int), f) == flat_rows(ls, f),
{
    assert(ls.take(ls.len() as int) =~= ls);
}

/// `first_pos` is the position that has `x` with no `x` before it.
pub proof fn lemma_first_pos<A>(s: Seq<A>, x: A, p: int)
    requires
        0 <= p < s.len(),
        s[p] == x,
        forall|j: int| 0 <= j < p ==> s[j] != x,
    ensures
        first_pos(s, x) == p,
{
    let q = first_pos(s, x);
    assert(0 <= q < s.len() && s[q] == x && forall|j: int| 0 <= j < q ==> s[j] != x);
    if q < p {
        assert(s[q] != x);
    }
    if p < q {
        assert(s[p] != x);
    }
}

/// A sequence holding `x` has a first position of it.
pub proof fn lemma_first_pos_exists<A>(s: Seq<A>, x: A)
    requires
        s.contains(x),
    ensures
        0 <= first_pos(s, x) < s.len(),
        s[first_pos(s, x)] == x,
    decreases s.len(),
{
    let p = choose|p: int| 0 <= p < s.len() && s[p] == x;
    lemma_first_exists_below(s, x, p);
}

proof fn lemma_first_exists_below<A>(s: Seq<A>, x: A, p: int)
    requires
        0 <= p < s.len(),
        s[p] == x,
    ensures
        0 <= first_pos(s, x) < s.len(),
        s[first_pos(s, x)] == x,
    decreases p,
{
    if exists|j: int| 0 <= j < p && s[j] == x {
        let j = choose|j: int| 0 <= j < p && s[j] == x;
        lemma_first_exists_below(s, x, j);
    } else {
        lemma_first_pos(s, x, p);
    }
}

pub proof fn lemma_prefix_len_bounds(rji: Seq<usize>, m: int)
    requires
        0 <= m,
    ensures
        m <= prefix_len_from(rji, m),
        prefix_len_from(rji, m) <= m || prefix_len_from(rji, m) <= rji.len(),
    decreases rji.len() - m,
{
    if 0 <= m < rji.len() && rji.contains(m as usize) {
        lemma_prefix_len_bounds(rji, m + 1);
    }
}

/// Each leading key column has a first position among the keys.
pub proof fn lemma_prefix_pos(rji: Seq<usize>, j: int)
    requires
        0 <= j < prefix_len_from(rji, 0),
    ensures
        0 <= first_pos(rji, j as usize) < rji.len(),
        rji[first_pos(rji, j as usize)] == j as usize,
{
    lemma_prefix_len_covers(rji, 0, j);
    lemma_first_pos_exists(rji, j as usize);
}

proof fn lemma_prefix_len_covers(rji: Seq<usize>, m: int, j: int)
    requires
        0 <= m <= j < prefix_len_from(rji, m),
    ensures
        rji.contains(j as usize),
    decreases rji.len() - m,
{
    if m < j {
        lemma_prefix_len_covers(rji, m + 1, j);
    }
}


/// What each row yields has arity `n` when the row has arity `m`; then so has
/// everything `flat_rows` yields from rows of arity `m`.
pub proof fn lemma_flat_len(ls: Seq<Seq<Val>>, f: spec_fn(Seq<Val>) -> Outcome, m: int, n: int)
    requires
        rows_have_len(ls, m),
        forall|x: Seq<Val>| x.len() == m ==> (#[trigger] f(x) matches Ok(ys) ==> rows_have_len(ys, n)),
    ensures
        flat_rows(ls, f) matches Ok(r) ==> rows_have_len(r, n),
    decreases ls.len(),
{
    if ls.len() > 0 {
        lemma_flat_len(ls.drop_last(), f, m, n);
        assert(ls.last().len() == m);
        if let Ok(acc) = flat_rows(ls.drop_last(), f) {
            if let Ok(more) = f(ls.last()) {
                assert forall|i: int| 0 <= i < (acc + more).len() implies (#[trigger] (acc + more)[i]).len() == n by {
                    if i < acc.len() {
                        assert((acc + more)[i] == acc[i]);
                    } else {
                        assert((acc + more)[i] == more[i - acc.len()]);
                    }
                }
            }
        }
    }
}

/// Dropping the eliminated positions of a tuple as wide as `b` leaves as many
/// columns as `b` keeps.
pub proof fn lemma_drop_len(x: Seq<Val>, b: Seq<Symbol>, e: Seq<Symbol>)
    requires
        x.len() == b.len(),
    ensures
        drop_at(x, positions_of(b, e)).len() == without(b, e).len(),
{
    lemma_drop_at_len(x, b, positions_of(b, e));
    lemma_drop_positions(b, e, b.len() as int);
    assert(b.take(b.len() as int) =~= b);
}

/// A filter step on rows as wide as `b` yields rows as wide as `b` keeps.
pub proof fn lemma_keep_len(fs: Seq<Expr>, b: Seq<Symbol>, e: Seq<Symbol>)
    ensures
        forall|x: Seq<Val>| x.len() == b.len() ==> (#[trigger] keep_row(fs, positions_of(b, e))(x) matches Ok(ys)
            ==> rows_have_len(ys, without(b, e).len() as int)),
{
    assert forall|x: Seq<Val>| x.len() == b.len() implies (#[trigger] keep_row(fs, positions_of(b, e))(x) matches Ok(ys)
        ==> rows_have_len(ys, without(b, e).len() as int)) by {
        lemma_drop_len(x, b, e);
    }
}

/// A filter step that drops nothing keeps the arity.
pub proof fn lemma_keep_len_all(fs: Seq<Expr>, n: int)
    ensures
        forall|x: Seq<Val>| x.len() == n ==> (#[trigger] keep_row(fs, Set::empty())(x) matches Ok(ys) ==> rows_have_len(ys, n)),
{
    assert forall|x: Seq<Val>| x.len() == n implies (#[trigger] keep_row(fs, Set::empty())(x) matches Ok(ys) ==> rows_have_len(ys, n)) by {
        lemma_drop_nothing(x, Set::empty());
    }
}

/// `l` followed by each of some two-column tuples.
pub proof fn lemma_extend_len(l: Seq<Val>, hs: Seq<Seq<Val>>, n: int)
    requires
        rows_have_len(hs, n),
    ensures
        rows_have_len(extend_each(l, hs), l.len() + n),
{
    assert forall|i: int| 0 <= i < extend_each(l, hs).len() implies (#[trigger] extend_each(l, hs)[i]).len() == l.len() + n by {
        assert(extend_each(l, hs)[i] == l + hs[i]);
    }
}

/// The candidates of a triple join are the left tuple and two more columns.
pub proof fn lemma_triple_cands_len(t: TripleRA, tx: SessionTx, l: Seq<Val>, lji: Seq<usize>, rji: Seq<usize>)
    ensures
        triple_cands(t, tx, l, lji, rji) matches Ok(cs) ==> rows_have_len(cs, l.len() + 2int),
{
    lemma_hits_len_all(tx.triples@);
    let ts = tx.triples@;
    if rji.len() == 0 {
        lemma_extend_len(l, triple_hits(ts, tquery(t, None, None, cartesian_range(t))), 2);
    } else if rji.len() >= 2 {
    } else {
        let v = l[lji[0] as int];
        if rji[0] == 0 {
            if let Some(e) = entity_of(v) {
                lemma_extend_len(l, triple_hits(ts, tquery(t, Some(e as u64), None, entity_range(t, l))), 2);
            }
        } else if t.attr.is_ref {
            if let Some(e) = entity_of(v) {
                lemma_extend_len(l, triple_hits(ts, tquery(t, None, Some(Val::Entity(e)), None)), 2);
            }
        } else if t.attr.indexed {
            lemma_extend_len(l, triple_hits(ts, tquery(t, None, Some(v), None)), 2);
        } else {
            let hs = triple_hits(ts, tquery(t, None, None, None));
            lemma_filter_keeps_len(hs, value_is(v), 2);
            lemma_extend_len(l, hs.filter(value_is(v)), 2);
        }
    }
}

pub proof fn lemma_hits_len_all(ts: Seq<TripleRow>)
    ensures
        forall|q: TripleQuery| #[trigger] rows_have_len(triple_hits(ts, q), 2),
{
    assert forall|q: TripleQuery| #[trigger] rows_have_len(triple_hits(ts, q), 2) by {
        lemma_hits_len(ts, q);
    }
}

/// Every fact a scan selects is a two-column tuple.
pub proof fn lemma_hits_len(ts: Seq<TripleRow>, q: TripleQuery)
    ensures
        rows_have_len(triple_hits(ts, q), 2),
    decreases ts.len(),
{
    if ts.len() > 0 {
        lemma_hits_len(ts.drop_last(), q);
    }
}

/// Keeping some tuples keeps their arity.
pub proof fn lemma_filter_keeps_len(s: Seq<Seq<Val>>, p: spec_fn(Seq<Val>) -> bool, n: int)
    requires
        rows_have_len(s, n),
    ensures
        rows_have_len(s.filter(p), n),
{
    assert forall|i: int| 0 <= i < s.filter(p).len() implies (#[trigger] s.filter(p)[i]).len() == n by {
        let x = s.filter(p)[i];
        assert(s.filter(p).contains(x));
        s.lemma_filter_contains_rev(p, x);
        let j = choose|j: int| 0 <= j < s.len() && s[j] == x;
        assert(s[j].len() == n);
    }
}

/// A join yields tuples as wide as the join keeps of its two sides.
proof fn lemma_hash_len(ls: Seq<Seq<Val>>, rs: Seq<Seq<Val>>, lji: Seq<usize>, rji: Seq<usize>, b: Seq<Symbol>,
    e: Seq<Symbol>, m: int)
    requires
        rows_have_len(ls, m),
        rows_have_len(rs, b.len() - m),
    ensures
        hash_join(ls, rs, lji, rji, positions_of(b, e)) matches Ok(r) ==> rows_have_len(r, without(b, e).len() as int),
{
    let g = positions_of(b, e);
    let n = without(b, e).len() as int;
    assert forall|l: Seq<Val>| l.len() == m implies (#[trigger] hash_row(rs, lji, rji, g)(l) matches Ok(ys) ==> rows_have_len(ys, n)) by {
        let kept = rs.filter(key_filter(l, lji, rji));
        lemma_filter_keeps_len(rs, key_filter(l, lji, rji), b.len() - m);
        assert forall|i: int| 0 <= i < kept.len() implies (#[trigger] kept.map_values(joined(l, g))[i]).len() == n by {
            lemma_drop_len(l + kept[i], b, e);
        }
    }
    lemma_flat_len(ls, hash_row(rs, lji, rji, g), m, n);
}

/// Each tuple that the tree yields has one column per output binding.
pub proof fn lemma_eval_arity(ra: RelAlgebra, tx: SessionTx, epoch: Option<u32>, delta: Seq<u64>)
    requires
        well_formed(ra, tx),
    ensures
        eval_ra(ra, tx, epoch, delta) matches Ok(r) ==> rows_have_len(r, after(ra).len() as int),
    decreases ra,
{
    lemma_after_is_without(ra);
    match ra {
        RelAlgebra::Fixed(f) => {
            let b = f.bindings@;
            assert forall|i: int| 0 <= i < rows(f.data@).len() implies
                (#[trigger] fixed_rows(rows(f.data@), b, f.to_eliminate@)[i]).len() == after(ra).len() by {
                lemma_drop_len(rows(f.data@)[i], b, f.to_eliminate@);
            }
        },
        RelAlgebra::Triple(t) => {
            let one = seq![Seq::<Val>::empty()];
            assert forall|l: Seq<Val>| l.len() == 0 implies (#[trigger] triple_row(t, tx, Seq::empty(), Seq::empty(), Set::empty())(l)
                matches Ok(ys) ==> rows_have_len(ys, 2)) by {
                lemma_triple_cands_len(t, tx, l, Seq::empty(), Seq::empty());
                if let Ok(cs) = triple_cands(t, tx, l, Seq::empty(), Seq::empty()) {
                    lemma_keep_len_all(t.filters@, 2);
                    lemma_flat_len(cs, keep_row(t.filters@, Set::empty()), 2, 2);
                }
            }
            lemma_flat_len(one, triple_row(t, tx, Seq::empty(), Seq::empty(), Set::empty()), 0, 2);
            lemma_drop_nothing(before(ra), Set::empty());
        },
        RelAlgebra::Derived(d) => {
            let n = d.bindings@.len() as int;
            lemma_keep_len_all(d.filters@, n);
            let e = scan_epoch(d, epoch, delta);
            if 0 <= e < d.storage.epochs@.len() {
                assert(rows_have_len(rows(d.storage.epochs@[e]@), n));
            }
            lemma_flat_len(epoch_rows(d.storage, e), keep_row(d.filters@, Set::empty()), n, n);
        },
        RelAlgebra::Relation(v) => {
            let n = v.bindings@.len() as int;
            lemma_keep_len_all(v.filters@, n);
            lemma_flat_len(stored_rows(tx, v), keep_row(v.filters@, Set::empty()), n, n);
        },
        RelAlgebra::Reorder(o) => {
            lemma_eval_arity(*o.relation, tx, epoch, delta);
        },
        RelAlgebra::Filter(f) => {
            lemma_eval_arity(*f.parent, tx, epoch, delta);
            let b = after(*f.parent);
            lemma_keep_len(f.pred@, b, f.to_eliminate@);
            if let Ok(rs) = eval_ra(*f.parent, tx, epoch, delta) {
                lemma_flat_len(rs, keep_row(f.pred@, positions_of(b, f.to_eliminate@)), b.len() as int, without(b, f.to_eliminate@).len() as int);
            }
        },
        RelAlgebra::Unification(u) => {
            lemma_eval_arity(*u.parent, tx, epoch, delta);
            let b = after(*u.parent).push(u.binding);
            let g = positions_of(b, u.to_eliminate@);
            let n = without(b, u.to_eliminate@).len() as int;
            assert forall|x: Seq<Val>| x.len() == b.len() - 1 implies (#[trigger] unify_row(u.expr, u.is_multi, u.span, g)(x)
                matches Ok(ys) ==> rows_have_len(ys, n)) by {
                assert forall|v: Val| #[trigger] drop_at(x.push(v), g).len() == n by {
                    lemma_drop_len(x.push(v), b, u.to_eliminate@);
                }
            }
            if let Ok(rs) = eval_ra(*u.parent, tx, epoch, delta) {
                lemma_flat_len(rs, unify_row(u.expr, u.is_multi, u.span, g), b.len() - 1, n);
            }
        },
        RelAlgebra::NegJoin(j) => {
            lemma_eval_arity(j.left, tx, epoch, delta);
            lemma_neg_arity(*j, tx, eval_ra(j.left, tx, epoch, delta));
        },
        RelAlgebra::Join(j) => {
            lemma_eval_arity(j.left, tx, epoch, delta);
            lemma_eval_arity(j.right, tx, epoch, delta);
            lemma_join_arity(*j, tx, epoch, delta, eval_ra(j.left, tx, epoch, delta), eval_ra(j.right, tx, epoch, delta));
        },
    }
}

/// An anti-join yields the left tuples minus the dropped columns.
proof fn lemma_neg_arity(j: NegJoin, tx: SessionTx, left: Outcome)
    requires
        left matches Ok(ls) ==> rows_have_len(ls, after(j.left).len() as int),
    ensures
        neg_outcome(j, tx, left) matches Ok(r) ==> rows_have_len(r, without(after(j.left), j.to_eliminate@).len() as int),
{
    let b = after(j.left);
    let g = positions_of(b, j.to_eliminate@);
    let n = without(b, j.to_eliminate@).len() as int;
    let (lji, rji) = join_positions(j.joiner, after(j.left), after(j.right));
    if let Ok(ls) = left {
        let found = match j.right {
            RelAlgebra::Triple(t) => triple_found_fn(t, tx, lji, rji),
            RelAlgebra::Derived(d) => rows_found_fn(epoch_rows(d.storage, 0), lji, rji),
            RelAlgebra::Relation(v) => rows_found_fn(stored_rows(tx, v), lji, rji),
            _ => rows_found_fn(Seq::empty(), lji, rji),
        };
        assert forall|x: Seq<Val>| x.len() == b.len() implies (#[trigger] anti_row(found, g)(x)
            matches Ok(ys) ==> rows_have_len(ys, n)) by {
            lemma_drop_len(x, b, j.to_eliminate@);
        }
        lemma_flat_len(ls, anti_row(found, g), b.len() as int, n);
    }
}

/// An inner join yields tuples as wide as the join keeps of its two sides.
#[verifier::rlimit(40)]
proof fn lemma_join_arity(j: InnerJoin, tx: SessionTx, epoch: Option<u32>, delta: Seq<u64>, left: Outcome, right: Outcome)
    requires
        well_formed(j.right, tx),
        left matches Ok(ls) ==> rows_have_len(ls, after(j.left).len() as int),
        right matches Ok(rs) ==> rows_have_len(rs, after(j.right).len() as int),
        j.right is Fixed ==> right == Ok::<Seq<Seq<Val>>, QErr>(fixed_rows(rows(j.right->Fixed_0.data@), j.right->Fixed_0.bindings@, j.right->Fixed_0.to_eliminate@)),
    ensures
        join_outcome(j, tx, epoch, delta, left, right) matches Ok(r)
            ==> rows_have_len(r, without(after(j.left) + after(j.right), j.to_eliminate@).len() as int),
{
    let b = after(j.left) + after(j.right);
    let e = j.to_eliminate@;
    let g = positions_of(b, e);
    let n = without(b, e).len() as int;
    let m = after(j.left).len() as int;
    let (lji, rji) = join_positions(j.joiner, after(j.left), after(j.right));
    if let Ok(ls) = left {
        match j.right {
            RelAlgebra::Fixed(f) => {
                lemma_hash_len(ls, fixed_rows(rows(f.data@), f.bindings@, f.to_eliminate@), lji, rji, b, e, m);
            },
            RelAlgebra::Triple(t) => {
                lemma_keep_len(t.filters@, b, e);
                assert forall|l: Seq<Val>| l.len() == m implies (#[trigger] triple_row(t, tx, lji, rji, g)(l)
                    matches Ok(ys) ==> rows_have_len(ys, n)) by {
                    lemma_triple_cands_len(t, tx, l, lji, rji);
                    if let Ok(cs) = triple_cands(t, tx, l, lji, rji) {
                        lemma_flat_len(cs, keep_row(t.filters@, g), b.len() as int, n);
                    }
                }
                lemma_flat_len(ls, triple_row(t, tx, lji, rji, g), m, n);
            },
            RelAlgebra::Derived(d) => {
                let ep = scan_epoch(d, epoch, delta);
                if 0 <= ep < d.storage.epochs@.len() {
                    assert(rows_have_len(rows(d.storage.epochs@[ep]@), d.bindings@.len() as int));
                }
                lemma_prefix_join_len(epoch_rows(d.storage, ep), d.bindings@, d.filters@, ls, lji, rji, b, e, m);
                lemma_keyed_join_len(epoch_rows(d.storage, ep), d.filters@, ls, lji, rji, b, e, m);
            },
            RelAlgebra::Relation(v) => {
                lemma_prefix_join_len(stored_rows(tx, v), v.bindings@, v.filters@, ls, lji, rji, b, e, m);
                lemma_keyed_join_len(stored_rows(tx, v), v.filters@, ls, lji, rji, b, e, m);
            },
            RelAlgebra::Reorder(_) | RelAlgebra::NegJoin(_) => {},
            _ => {
                if let Ok(rs) = right {
                    lemma_hash_len(ls, rs, lji, rji, b, e, m);
                }
            },
        }
    }
}

proof fn lemma_keyed_join_len(rs: Seq<Seq<Val>>, fs: Seq<Expr>, ls: Seq<Seq<Val>>,
    lji: Seq<usize>, rji: Seq<usize>, b: Seq<Symbol>, e: Seq<Symbol>, m: int)
    requires
        rows_have_len(ls, m),
        rows_have_len(rs, b.len() - m),
    ensures
        keyed_join(rs, fs, ls, lji, rji, positions_of(b, e)) matches Ok(r)
            ==> rows_have_len(r, without(b, e).len() as int),
{
    let g = positions_of(b, e);
    let n = without(b, e).len() as int;
    lemma_keep_len(fs, b, e);
    assert forall|l: Seq<Val>| l.len() == m implies (#[trigger] keyed_row(rs, fs, lji, rji, g)(l)
        matches Ok(ys) ==> rows_have_len(ys, n)) by {
        let sel = rs.filter(key_filter(l, lji, rji));
        lemma_filter_keeps_len(rs, key_filter(l, lji, rji), b.len() - m);
        lemma_extend_len(l, sel, b.len() - m);
        lemma_flat_len(extend_each(l, sel), keep_row(fs, g), b.len() as int, n);
    }
    lemma_flat_len(ls, keyed_row(rs, fs, lji, rji, g), m, n);
}

proof fn lemma_prefix_join_len(rs: Seq<Seq<Val>>, bindings: Seq<Symbol>, fs: Seq<Expr>, ls: Seq<Seq<Val>>,
    lji: Seq<usize>, rji: Seq<usize>, b: Seq<Symbol>, e: Seq<Symbol>, m: int)
    requires
        rows_have_len(ls, m),
        rows_have_len(rs, b.len() - m),
    ensures
        prefix_join(rs, bindings, fs, ls, lji, rji, positions_of(b, e)) matches Ok(r)
            ==> rows_have_len(r, without(b, e).len() as int),
{
    let g = positions_of(b, e);
    let n = without(b, e).len() as int;
    lemma_keep_len(fs, b, e);
    assert forall|l: Seq<Val>| l.len() == m implies (#[trigger] prefix_row(rs, bindings, fs, lji, rji, g)(l)
        matches Ok(ys) ==> rows_have_len(ys, n)) by {
        let bd = prefix_bounds(fs, bindings.skip(skip_len(rji, bindings)));
        let sel = rows_in_range(rs, pick(l, prefix_cols(lji, rji)), bd.0, bd.1);
        lemma_filter_keeps_len(rs, |x: Seq<Val>| row_in_range(x, pick(l, prefix_cols(lji, rji)), bd.0, bd.1), b.len() - m);
        assert(rows_have_len(extend_each(l, sel), b.len() as int));
        lemma_flat_len(extend_each(l, sel), keep_row(fs, g), b.len() as int, n);
    }
    lemma_flat_len(ls, prefix_row(rs, bindings, fs, lji, rji, g), m, n);
}

/// Distinct keys on a triple node sit at distinct columns among its two.
pub proof fn lemma_triple_positions(keys: Seq<Symbol>, rb: Seq<Symbol>)
    requires
        triple_keys_ok(keys),
        keys_within(keys, rb),
        rb.len() == 2,
    ensures
        key_positions(keys, rb).len() <= 2,
        forall|k: int| 0 <= k < key_positions(keys, rb).len() ==> (#[trigger] key_positions(keys, rb)[k]) < 2,
        key_positions(keys, rb).len() == 2 ==> (key_positions(keys, rb)[0] == 0 && key_positions(keys, rb)[1] == 1)
            || (key_positions(keys, rb)[0] == 1 && key_positions(keys, rb)[1] == 0),
{
    assert forall|k: int| 0 <= k < keys.len() implies 0 <= first_pos(rb, #[trigger] keys[k]) < 2 && rb[first_pos(rb, keys[k])] == keys[k] by {
        assert(rb.contains(keys[k]));
        lemma_first_pos_exists(rb, keys[k]);
    }
    if keys.len() == 2 {
        assert(rb[first_pos(rb, keys[0])] == keys[0]);
        assert(rb[first_pos(rb, keys[1])] == keys[1]);
    }
}

} // verus!
