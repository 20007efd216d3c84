//! Running the operator tree: each node's tuples, computed from its children's.
use vstd::prelude::*;
use crate::error::{QErr, QueryError, SourceSpan};
use crate::expr::{Expr, compute_bounds, is_open, lower_bound, upper_bound, compute_single_bound, filters_hold, position_of, value_bounds};
use crate::relation::{DerivedRA, FilteredRA, InlineFixedRA, InnerJoin, Joiner, NegJoin, RelAlgebra, RelationRA, ReorderRA, TripleRA, UnificationRA, after, append_symbols};
use crate::semantics::{
    Outcome, anti_join, eval_ra, extend_each, first_pos, flat_rows, fixed_rows, hash_join,
    is_prefix_keys, join_positions, joiner_ok, keep_row, key_positions, keys_match, lemma_first_pos,
    lemma_flat_all, lemma_flat_err, lemma_flat_step, pick, prefix_bounds, prefix_cols, prefix_join,
    prefix_len_from, reorder_rows, reorder_row, rows_found, spread_rows, unify_row, hash_row, key_filter, joined, keys_within, as_of, cartesian_range, entity_range, prepend, tquery, triple_row, value_is, keyed_join, keyed_row, prefix_row, skip_len, bound_lows, bound_highs, anti_row, lemma_hits_len, lemma_filter_keeps_len, lemma_eval_arity, lemma_triple_positions, derived_empty, scan_epoch, join_outcome, neg_outcome, materialized, rows_found_fn, rows_have_len, triple_cands, triple_found, triple_found_fn,
    triple_join, well_formed,
};
use crate::store::{rows_in_range, select_rows, SessionTx, TripleScan, lemma_rows_push, triple_hits};
use crate::tuple::{Tuple, drop_at, dup_values, eliminate_from_tuple, get_eliminate_indices, index_set, positions_of, rows, vals};
use crate::value::{DataValue, Symbol, Val};

verus! {

/// The model of a result.
pub open spec fn outcome(r: Result<Vec<Tuple>, QueryError>) -> Outcome {
    match r {
        Ok(v) => Ok(rows(v@)),
        Err(e) => Err(e@),
    }
}

/// The first position of `x` in `v`.
fn index_position(v: &Vec<usize>, x: usize) -> (r: Option<usize>)
    ensures
        r is None <==> !v@.contains(x),
        r matches Some(i) ==> i < v@.len() && v@[i as int] == x && first_pos(v@, x) == i,
{
    let mut k: usize = 0;
    while k < v.len()
        invariant
            k <= v.len(),
            forall|j: int| 0 <= j < k ==> v@[j] != x,
        decreases v.len() - k,
    {
        if v[k] == x {
            proof { lemma_first_pos(v@, x, k as int); }
            return Some(k);
        }
        k = k + 1;
    }
    None
}

impl Joiner {
    /// The positions of the left keys among `left_bindings` and of the right
    /// keys among `right_bindings`, pairwise.
    pub fn join_indices(&self, left_bindings: &Vec<Symbol>, right_bindings: &Vec<Symbol>) -> (r: (Vec<usize>, Vec<usize>))
        requires
            joiner_ok(*self, left_bindings@, right_bindings@),
        ensures
            (r.0@, r.1@) == join_positions(*self, left_bindings@, right_bindings@),
            forall|i: int| 0 <= i < r.0@.len() ==> (#[trigger] r.0@[i]) < left_bindings@.len(),
            forall|i: int| 0 <= i < r.1@.len() ==> (#[trigger] r.1@[i]) < right_bindings@.len(),
    {
        let mut ret_l: Vec<usize> = Vec::new();
        let mut ret_r: Vec<usize> = Vec::new();
        let mut i: usize = 0;
        while i < self.left_keys.len()
            invariant
                joiner_ok(*self, left_bindings@, right_bindings@),
                i <= self.left_keys@.len(),
                ret_l@ =~= key_positions(self.left_keys@, left_bindings@).take(i as int),
                ret_r@ =~= key_positions(self.right_keys@, right_bindings@).take(i as int),
                forall|k: int| 0 <= k < ret_l@.len() ==> (#[trigger] ret_l@[k]) < left_bindings@.len(),
                forall|k: int| 0 <= k < ret_r@.len() ==> (#[trigger] ret_r@[k]) < right_bindings@.len(),
            decreases self.left_keys.len() - i,
        {
            assert(left_bindings@.contains(self.left_keys@[i as int]));
            assert(right_bindings@.contains(self.right_keys@[i as int]));
            let l = position_of(left_bindings, self.left_keys[i]).unwrap();
            let r = position_of(right_bindings, self.right_keys[i]).unwrap();
            proof {
                lemma_first_pos(left_bindings@, self.left_keys@[i as int], l as int);
                lemma_first_pos(right_bindings@, self.right_keys@[i as int], r as int);
            }
            ret_l.push(l);
            ret_r.push(r);
            i = i + 1;
        }
        assert(ret_l@ =~= key_positions(self.left_keys@, left_bindings@));
        assert(ret_r@ =~= key_positions(self.right_keys@, right_bindings@));
        (ret_l, ret_r)
    }
}

/// Applies the filters to each candidate, drops the columns at `elim` from those
/// kept, and appends them to `out`; stops at the first error.
fn finish_rows(cands: &Vec<Tuple>, fs: &Vec<Expr>, elim: &Vec<usize>, out: &mut Vec<Tuple>) -> (r: Result<(), QueryError>)
    ensures
        match flat_rows(rows(cands@), keep_row(fs@, index_set(elim@))) {
            Ok(x) => r is Ok && rows(final(out)@) == rows(old(out)@) + x,
            Err(e) => r matches Err(y) && y@ == e,
        },
{
    let ghost f = keep_row(fs@, index_set(elim@));
    let ghost cs = rows(cands@);
    let ghost start = rows(out@);
    let mut i: usize = 0;
    assert(cs.take(0) =~= Seq::<Seq<Val>>::empty());
    assert(start + Seq::<Seq<Val>>::empty() =~= start);
    while i < cands.len()
        invariant
            i <= cands@.len(),
            cs == rows(cands@),
            f == keep_row(fs@, index_set(elim@)),
            flat_rows(cs.take(i as int), f) matches Ok(acc) && rows(out@) == start + acc,
        decreases cands.len() - i,
    {
        proof { lemma_flat_step(cs, f, i as int); }
        let ghost acc = flat_rows(cs.take(i as int), f)->Ok_0;
        match filters_hold(fs, &cands[i]) {
            Err(x) => {
                proof { lemma_flat_err(cs, f, i as int + 1); }
                return Err(x);
            },
            Ok(false) => {
                assert(acc + Seq::<Seq<Val>>::empty() =~= acc);
            },
            Ok(true) => {
                let ghost prev = out@;
                let t = eliminate_from_tuple(cands[i].dup(), elim);
                out.push(t);
                proof {
                    lemma_rows_push(prev, t);
                    assert(start + (acc + seq![drop_at(cs[i as int], index_set(elim@))]) =~= rows(out@));
                }
            },
        }
        i = i + 1;
    }
    proof { lemma_flat_all(cs, f); }
    Ok(())
}

/// Filtering the first `k + 1` tuples, then mapping, adds at most one tuple to
/// doing so for the first `k`.
pub proof fn lemma_filter_map_step(s: Seq<Seq<Val>>, p: spec_fn(Seq<Val>) -> bool, g: spec_fn(Seq<Val>) -> Seq<Val>, k: int)
    requires
        0 <= k < s.len(),
    ensures
        s.take(k + 1).filter(p).map_values(g) == s.take(k).filter(p).map_values(g)
            + (if p(s[k]) { seq![g(s[k])] } else { Seq::empty() }),
{
    reveal(Seq::filter);
    assert(s.take(k + 1).drop_last() =~= s.take(k));
    assert(s.take(k + 1).last() == s[k]);
    if p(s[k]) {
        assert(s.take(k + 1).filter(p) == s.take(k).filter(p).push(s[k]));
        assert(s.take(k + 1).filter(p).map_values(g) =~= s.take(k).filter(p).map_values(g) + seq![g(s[k])]);
    } else {
        assert(s.take(k + 1).filter(p) == s.take(k).filter(p));
        assert(s.take(k).filter(p).map_values(g) + Seq::<Seq<Val>>::empty() =~= s.take(k).filter(p).map_values(g));
    }
}

/// Whether `l` and `r` agree on every pair of key columns.
fn keys_agree(l: &Tuple, r: &Tuple, lji: &Vec<usize>, rji: &Vec<usize>) -> (ok: bool)
    requires
        lji@.len() == rji@.len(),
        forall|k: int| 0 <= k < lji@.len() ==> (#[trigger] lji@[k]) < l@.len(),
        forall|k: int| 0 <= k < rji@.len() ==> (#[trigger] rji@[k]) < r@.len(),
    ensures
        ok == keys_match(l@, r@, lji@, rji@),
{
    let mut i: usize = 0;
    while i < lji.len()
        invariant
            i <= lji@.len(),
            lji@.len() == rji@.len(),
            l@.len() == l.0@.len(),
            r@.len() == r.0@.len(),
            forall|k: int| 0 <= k < lji@.len() ==> (#[trigger] lji@[k]) < l@.len(),
            forall|k: int| 0 <= k < rji@.len() ==> (#[trigger] rji@[k]) < r@.len(),
            forall|k: int| 0 <= k < i ==> l@[#[trigger] lji@[k] as int] == r@[rji@[k] as int],
        decreases lji.len() - i,
    {
        if !l.0[lji[i]].same_as(&r.0[rji[i]]) {
            assert(l@[lji@[i as int] as int] != r@[rji@[i as int] as int]);
            return false;
        }
        i = i + 1;
    }
    true
}

/// Each left tuple joined with every right tuple that agrees on the keys,
/// minus the columns at `elim`.
fn hash_join_exec(ls: &Vec<Tuple>, rs: &Vec<Tuple>, lji: &Vec<usize>, rji: &Vec<usize>, elim: &Vec<usize>) -> (r: Vec<Tuple>)
    requires
        lji@.len() == rji@.len(),
        forall|i: int, k: int| 0 <= i < ls@.len() && 0 <= k < lji@.len() ==> (#[trigger] lji@[k]) < (#[trigger] ls@[i])@.len(),
        forall|i: int, k: int| 0 <= i < rs@.len() && 0 <= k < rji@.len() ==> (#[trigger] rji@[k]) < (#[trigger] rs@[i])@.len(),
    ensures
        hash_join(rows(ls@), rows(rs@), lji@, rji@, index_set(elim@)) == Ok::<Seq<Seq<Val>>, QErr>(rows(r@)),
{
    let ghost gone = index_set(elim@);
    let ghost f = hash_row(rows(rs@), lji@, rji@, gone);
    let ghost lsv = rows(ls@);
    let ghost rsv = rows(rs@);
    let mut out: Vec<Tuple> = Vec::new();
    let mut i: usize = 0;
    assert(lsv.take(0) =~= Seq::<Seq<Val>>::empty());
    assert(rows(out@) =~= Seq::<Seq<Val>>::empty());
    while i < ls.len()
        invariant
            i <= ls@.len(),
            lji@.len() == rji@.len(),
            forall|i: int, k: int| 0 <= i < ls@.len() && 0 <= k < lji@.len() ==> (#[trigger] lji@[k]) < (#[trigger] ls@[i])@.len(),
            forall|i: int, k: int| 0 <= i < rs@.len() && 0 <= k < rji@.len() ==> (#[trigger] rji@[k]) < (#[trigger] rs@[i])@.len(),
            gone == index_set(elim@),
            f == hash_row(rows(rs@), lji@, rji@, gone),
            lsv == rows(ls@),
            rsv == rows(rs@),
            flat_rows(lsv.take(i as int), f) == Ok::<Seq<Seq<Val>>, QErr>(rows(out@)),
        decreases ls.len() - i,
    {
        let l = &ls[i];
        let ghost acc = rows(out@);
        let ghost p = key_filter(l@, lji@, rji@);
        let ghost g = joined(l@, gone);
        let mut k: usize = 0;
        assert(rsv.take(0) =~= Seq::<Seq<Val>>::empty());
        assert(acc + rsv.take(0).filter(p).map_values(g) =~= acc) by { reveal(Seq::filter); }
        while k < rs.len()
            invariant
                k <= rs@.len(),
                i < ls@.len(),
                l == &ls@[i as int],
                lji@.len() == rji@.len(),
                forall|i: int, k: int| 0 <= i < ls@.len() && 0 <= k < lji@.len() ==> (#[trigger] lji@[k]) < (#[trigger] ls@[i])@.len(),
                forall|i: int, k: int| 0 <= i < rs@.len() && 0 <= k < rji@.len() ==> (#[trigger] rji@[k]) < (#[trigger] rs@[i])@.len(),
                gone == index_set(elim@),
                rsv == rows(rs@),
                p == key_filter(l@, lji@, rji@),
                g == joined(l@, gone),
                rows(out@) == acc + rsv.take(k as int).filter(p).map_values(g),
            decreases rs.len() - k,
        {
            proof { lemma_filter_map_step(rsv, p, g, k as int); }
            assert(forall|j: int| 0 <= j < lji@.len() ==> (#[trigger] lji@[j]) < l@.len());
            assert(forall|j: int| 0 <= j < rji@.len() ==> (#[trigger] rji@[j]) < rs@[k as int]@.len());
            if keys_agree(l, &rs[k], lji, rji) {
                let ghost prev = out@;
                let t = eliminate_from_tuple(l.concat(&rs[k].0), elim);
                out.push(t);
                proof {
                    lemma_rows_push(prev, t);
                    assert(rs@[k as int]@ == vals(rs@[k as int].0@));
                }
            } else {
                assert(rows(out@) =~= acc + rsv.take(k as int + 1).filter(p).map_values(g));
            }
            k = k + 1;
        }
        proof {
            assert(rsv.take(rs@.len() as int) =~= rsv);
            lemma_flat_step(lsv, f, i as int);
        }
        i = i + 1;
    }
    proof { lemma_flat_all(lsv, f); }
    out
}

/// The rows of an inline relation, minus its dropped columns.
fn fixed_rows_exec(f: &InlineFixedRA) -> (r: Vec<Tuple>)
    ensures
        rows(r@) == fixed_rows(rows(f.data@), f.bindings@, f.to_eliminate@),
{
    let idx = get_eliminate_indices(&f.bindings, &f.to_eliminate);
    let ghost ds = rows(f.data@);
    let mut out: Vec<Tuple> = Vec::new();
    let mut i: usize = 0;
    while i < f.data.len()
        invariant
            i <= f.data@.len(),
            ds == rows(f.data@),
            index_set(idx@) == positions_of(f.bindings@, f.to_eliminate@),
            rows(out@) == fixed_rows(ds.take(i as int), f.bindings@, f.to_eliminate@),
        decreases f.data.len() - i,
    {
        let ghost prev = out@;
        let t = eliminate_from_tuple(f.data[i].dup(), &idx);
        out.push(t);
        proof {
            lemma_rows_push(prev, t);
            assert(fixed_rows(ds.take(i as int + 1), f.bindings@, f.to_eliminate@)
                =~= fixed_rows(ds.take(i as int), f.bindings@, f.to_eliminate@).push(t@));
        }
        i = i + 1;
    }
    assert(ds.take(i as int) =~= ds);
    out
}

/// The tuples that a unification yields for each tuple of `ps`.
fn unify_rows_exec(ps: &Vec<Tuple>, u: &UnificationRA, elim: &Vec<usize>) -> (r: Result<Vec<Tuple>, QueryError>)
    ensures
        outcome(r) == flat_rows(rows(ps@), unify_row(u.expr, u.is_multi, u.span, index_set(elim@))),
{
    let ghost gone = index_set(elim@);
    let ghost f = unify_row(u.expr, u.is_multi, u.span, gone);
    let ghost pv = rows(ps@);
    let mut out: Vec<Tuple> = Vec::new();
    let mut i: usize = 0;
    assert(pv.take(0) =~= Seq::<Seq<Val>>::empty());
    assert(rows(out@) =~= Seq::<Seq<Val>>::empty());
    while i < ps.len()
        invariant
            i <= ps@.len(),
            gone == index_set(elim@),
            f == unify_row(u.expr, u.is_multi, u.span, gone),
            pv == rows(ps@),
            flat_rows(pv.take(i as int), f) == Ok::<Seq<Seq<Val>>, QErr>(rows(out@)),
        decreases ps.len() - i,
    {
        proof { lemma_flat_step(pv, f, i as int); }
        let t = &ps[i];
        assert(pv[i as int] == t@);
        let ghost acc = rows(out@);
        if u.is_multi {
            match u.expr.spread(t) {
                Err(x) => {
                    proof { lemma_flat_err(pv, f, i as int + 1); }
                    return Err(x);
                },
                Ok(None) => {
                    proof { lemma_flat_err(pv, f, i as int + 1); }
                    return Err(QueryError::BadSpreadUnification(u.span));
                },
                Ok(Some(vs)) => {
                    let mut k: usize = 0;
                    assert(spread_rows(t@, vals(vs@).take(0), gone) =~= Seq::<Seq<Val>>::empty());
                    assert(acc + Seq::<Seq<Val>>::empty() =~= acc);
                    while k < vs.len()
                        invariant
                            k <= vs@.len(),
                            gone == index_set(elim@),
                            rows(out@) == acc + spread_rows(t@, vals(vs@).take(k as int), gone),
                        decreases vs.len() - k,
                    {
                        let mut row = dup_values(&t.0);
                        let ghost before_push = row@;
                        row.push(vs[k].dup());
                        proof {
                            crate::tuple::lemma_vals_push(before_push, row@.last());
                            assert(row@ == before_push.push(row@.last()));
                        }
                        let ghost prev = out@;
                        let nt = eliminate_from_tuple(Tuple(row), elim);
                        out.push(nt);
                        proof {
                            lemma_rows_push(prev, nt);
                            assert(vals(vs@).take(k as int + 1) =~= vals(vs@).take(k as int).push(vs@[k as int]@));
                            assert(spread_rows(t@, vals(vs@).take(k as int + 1), gone)
                                =~= spread_rows(t@, vals(vs@).take(k as int), gone).push(drop_at(t@.push(vs@[k as int]@), gone)));
                        }
                        k = k + 1;
                    }
                    assert(vals(vs@).take(vs@.len() as int) =~= vals(vs@));
                },
            }
        } else {
            match u.expr.eval(t) {
                Err(x) => {
                    proof { lemma_flat_err(pv, f, i as int + 1); }
                    return Err(x);
                },
                Ok(v) => {
                    let mut row = dup_values(&t.0);
                    let ghost before_push = row@;
                    row.push(v);
                    proof {
                        crate::tuple::lemma_vals_push(before_push, row@.last());
                        assert(row@ == before_push.push(row@.last()));
                    }
                    let ghost prev = out@;
                    let nt = eliminate_from_tuple(Tuple(row), elim);
                    out.push(nt);
                    proof {
                        lemma_rows_push(prev, nt);
                        assert(rows(out@) =~= acc + seq![drop_at(t@.push(v@), gone)]);
                    }
                },
            }
        }
        i = i + 1;
    }
    proof { lemma_flat_all(pv, f); }
    Ok(out)
}

/// Each tuple's columns `order`, each read where it first stands in `b`.
fn reorder_rows_exec(rs: &Vec<Tuple>, b: &Vec<Symbol>, order: &Vec<Symbol>) -> (r: Vec<Tuple>)
    requires
        rows_have_len(rows(rs@), b@.len() as int),
        keys_within(order@, b@),
    ensures
        rows(r@) == reorder_rows(rows(rs@), b@, order@),
{
    let mut idx: Vec<usize> = Vec::new();
    let mut k: usize = 0;
    while k < order.len()
        invariant
            k <= order@.len(),
            keys_within(order@, b@),
            idx@.len() == k,
            forall|j: int| 0 <= j < k ==> (#[trigger] idx@[j]) as int == first_pos(b@, order@[j]) && idx@[j] < b@.len(),
        decreases order.len() - k,
    {
        assert(b@.contains(order@[k as int]));
        let p = position_of(b, order[k]).unwrap();
        proof { lemma_first_pos(b@, order@[k as int], p as int); }
        idx.push(p);
        k = k + 1;
    }
    let ghost rv = rows(rs@);
    let mut out: Vec<Tuple> = Vec::new();
    let mut i: usize = 0;
    while i < rs.len()
        invariant
            i <= rs@.len(),
            rv == rows(rs@),
            rows_have_len(rv, b@.len() as int),
            idx@.len() == order@.len(),
            forall|j: int| 0 <= j < order@.len() ==> (#[trigger] idx@[j]) as int == first_pos(b@, order@[j]) && idx@[j] < b@.len(),
            rows(out@) == reorder_rows(rv.take(i as int), b@, order@),
        decreases rs.len() - i,
    {
        let t = &rs[i];
        assert(rv[i as int] == t@);
        let mut row: Vec<DataValue> = Vec::new();
        let mut j: usize = 0;
        while j < idx.len()
            invariant
                j <= idx@.len(),
                t@.len() == b@.len(),
                t@.len() == t.0@.len(),
                idx@.len() == order@.len(),
                forall|j: int| 0 <= j < order@.len() ==> (#[trigger] idx@[j]) as int == first_pos(b@, order@[j]) && idx@[j] < b@.len(),
                vals(row@) =~= reorder_row(t@, b@, order@).take(j as int),
            decreases idx.len() - j,
        {
            let ghost before_push = row@;
            row.push(t.0[idx[j]].dup());
            proof {
                crate::tuple::lemma_vals_push(before_push, row@.last());
                assert(row@ == before_push.push(row@.last()));
            }
            j = j + 1;
        }
        let ghost prev = out@;
        let nt = Tuple(row);
        assert(nt@ =~= reorder_row(t@, b@, order@));
        out.push(nt);
        proof {
            lemma_rows_push(prev, nt);
            assert(reorder_rows(rv.take(i as int + 1), b@, order@) =~= reorder_rows(rv.take(i as int), b@, order@).push(nt@));
        }
        i = i + 1;
    }
    assert(rv.take(i as int) =~= rv);
    out
}

/// `l` followed by each tuple of `hs`.
fn extend_all(l: &Tuple, hs: &Vec<Tuple>) -> (r: Vec<Tuple>)
    ensures
        rows(r@) == extend_each(l@, rows(hs@)),
{
    let ghost hv = rows(hs@);
    let mut out: Vec<Tuple> = Vec::new();
    let mut k: usize = 0;
    while k < hs.len()
        invariant
            k <= hs@.len(),
            hv == rows(hs@),
            rows(out@) == extend_each(l@, hv.take(k as int)),
        decreases hs.len() - k,
    {
        let ghost prev = out@;
        let nt = l.concat(&hs[k].0);
        out.push(nt);
        proof {
            lemma_rows_push(prev, nt);
            assert(extend_each(l@, hv.take(k as int + 1)) =~= extend_each(l@, hv.take(k as int)).push(nt@));
        }
        k = k + 1;
    }
    assert(hv.take(k as int) =~= hv);
    out
}

fn as_of_exec(t: &TripleRA) -> (r: Option<i64>)
    ensures
        r == as_of(*t),
{
    if t.attr.with_history {
        Some(t.vld)
    } else {
        None
    }
}

/// The value range that the filters give the value column once `l` is known.
fn entity_range_exec(t: &TripleRA, l: &Tuple) -> (r: Option<(DataValue, DataValue)>)
    ensures
        r matches Some(b) ==> entity_range(*t, l@) == Some((b.0@, b.1@)),
        r is None ==> entity_range(*t, l@) is None,
{
    if t.filters.len() > 0 {
        let (lo, hi) = value_bounds(&t.filters, t.bindings[1], l);
        if matches!(lo, DataValue::Null) && matches!(hi, DataValue::Bot) {
            None
        } else {
            Some((lo, hi))
        }
    } else {
        None
    }
}

/// The value range that the filters give the value column with no column bound.
fn cartesian_range_exec(t: &TripleRA) -> (r: Option<(DataValue, DataValue)>)
    ensures
        r matches Some(b) ==> cartesian_range(*t) == Some((b.0@, b.1@)),
        r is None ==> cartesian_range(*t) is None,
{
    if t.filters.len() > 0 {
        compute_single_bound(&t.filters, t.bindings[1])
    } else {
        None
    }
}

fn entity_error(v: &DataValue, span: SourceSpan) -> (r: QueryError)
    ensures
        r@ == QErr::EntityIdExpected(v@, span),
{
    QueryError::EntityIdExpected(v.dup(), span)
}

/// The facts that the left tuple `l` joins with, appended to it.
fn triple_cands_exec(t: &TripleRA, tx: &SessionTx, l: &Tuple, lji: &Vec<usize>, rji: &Vec<usize>,
    all_facts: &Vec<Tuple>, crange: &Option<(DataValue, DataValue)>) -> (r: Result<Vec<Tuple>, QueryError>)
    requires
        lji@.len() == rji@.len(),
        rji@.len() <= 2,
        rji@.len() == 2 ==> (rji@[0] == 0 && rji@[1] == 1) || (rji@[0] == 1 && rji@[1] == 0),
        forall|k: int| 0 <= k < lji@.len() ==> (#[trigger] lji@[k]) < l@.len(),
        rji@.len() == 1 && rji@[0] != 0 && !t.attr.is_ref && !t.attr.indexed
            ==> rows(all_facts@) == triple_hits(tx.triples@, tquery(*t, None, None, None)),
        crange matches Some(b) ==> cartesian_range(*t) == Some((b.0@, b.1@)),
        crange is None ==> cartesian_range(*t) is None,
    ensures
        outcome(r) == triple_cands(*t, *tx, l@, lji@, rji@),
{
    let asof = as_of_exec(t);
    if rji.len() == 0 {
        let range = match crange {
            Some(b) => Some((b.0.dup(), b.1.dup())),
            None => None,
        };
        let q = TripleScan { attr: t.attr.id, entity: None, value: None, range, as_of: asof };
        assert(q@ == tquery(*t, None, None, cartesian_range(*t)));
        let hs = tx.scan_triples(&q);
        return Ok(extend_all(l, &hs));
    }
    if rji.len() >= 2 {
        let le = if rji[0] == 0 { lji[0] } else { lji[1] };
        let lv = if rji[0] == 0 { lji[1] } else { lji[0] };
        match l.0[le].get_entity_id() {
            None => { return Err(entity_error(&l.0[le], t.span)); },
            Some(e) => {
                let q = TripleScan { attr: t.attr.id, entity: Some(e), value: Some(l.0[lv].dup()), range: None, as_of: asof };
                assert(q@ == tquery(*t, Some(e), Some(l@[lv as int]), None));
                if tx.any_triple(&q) {
                    let mut row = dup_values(&l.0);
                    let ghost before_push = row@;
                    row.push(DataValue::Entity(e));
                    row.push(l.0[lv].dup());
                    let nt = Tuple(row);
                    assert(nt@ =~= l@ + seq![Val::Entity(e as nat), l@[lv as int]]);
                    let mut out: Vec<Tuple> = Vec::new();
                    out.push(nt);
                    assert(rows(out@) =~= seq![nt@]);
                    return Ok(out);
                } else {
                    let out: Vec<Tuple> = Vec::new();
                    assert(rows(out@) =~= Seq::<Seq<Val>>::empty());
                    return Ok(out);
                }
            },
        }
    }
    let lx = lji[0];
    if rji[0] == 0 {
        match l.0[lx].get_entity_id() {
            None => Err(entity_error(&l.0[lx], t.span)),
            Some(e) => {
                let range = entity_range_exec(t, l);
                let q = TripleScan { attr: t.attr.id, entity: Some(e), value: None, range, as_of: asof };
                assert(q@ == tquery(*t, Some(e), None, entity_range(*t, l@)));
                let hs = tx.scan_triples(&q);
                Ok(extend_all(l, &hs))
            },
        }
    } else if t.attr.is_ref {
        match l.0[lx].get_entity_id() {
            None => Err(entity_error(&l.0[lx], t.span)),
            Some(e) => {
                let q = TripleScan { attr: t.attr.id, entity: None, value: Some(DataValue::Entity(e)), range: None, as_of: asof };
                assert(q@ == tquery(*t, None, Some(Val::Entity(e as nat)), None));
                let hs = tx.scan_triples(&q);
                Ok(extend_all(l, &hs))
            },
        }
    } else if t.attr.indexed {
        let q = TripleScan { attr: t.attr.id, entity: None, value: Some(l.0[lx].dup()), range: None, as_of: asof };
        assert(q@ == tquery(*t, None, Some(l@[lx as int]), None));
        let hs = tx.scan_triples(&q);
        Ok(extend_all(l, &hs))
    } else {
        let ghost hv = rows(all_facts@);
        let ghost p = value_is(l@[lx as int]);
        let ghost g = prepend(l@);
        proof { lemma_hits_len(tx.triples@, tquery(*t, None, None, None)); }
        let mut out: Vec<Tuple> = Vec::new();
        let mut k: usize = 0;
        assert(hv.take(0).filter(p).map_values(g) =~= Seq::<Seq<Val>>::empty()) by { reveal(Seq::filter); }
        while k < all_facts.len()
            invariant
                k <= all_facts@.len(),
                hv == rows(all_facts@),
                rows_have_len(hv, 2),
                lx < l@.len(),
                p == value_is(l@[lx as int]),
                g == prepend(l@),
                rows(out@) == hv.take(k as int).filter(p).map_values(g),
            decreases all_facts.len() - k,
        {
            proof { lemma_filter_map_step(hv, p, g, k as int); }
            let h = &all_facts[k];
            assert(hv[k as int] == h@);
            assert(h@.len() == 2);
            if h.0[1].same_as(&l.0[lx]) {
                let ghost prev = out@;
                let nt = l.concat(&h.0);
                out.push(nt);
                proof {
                    lemma_rows_push(prev, nt);
                    assert(rows(out@) =~= hv.take(k as int).filter(p).map_values(g) + seq![g(h@)]);
                }
            } else {
                assert(rows(out@) =~= hv.take(k as int).filter(p).map_values(g) + Seq::<Seq<Val>>::empty());
            }
            k = k + 1;
        }
        assert(hv.take(k as int) =~= hv);
        Ok(out)
    }
}

/// Joins each left tuple with the facts of a triple node, then applies the
/// node's filters and drops the columns at `elim`.
fn triple_join_exec(t: &TripleRA, tx: &SessionTx, ls: &Vec<Tuple>, lji: &Vec<usize>, rji: &Vec<usize>, elim: &Vec<usize>)
    -> (r: Result<Vec<Tuple>, QueryError>)
    requires
        lji@.len() == rji@.len(),
        rji@.len() <= 2,
        rji@.len() == 2 ==> (rji@[0] == 0 && rji@[1] == 1) || (rji@[0] == 1 && rji@[1] == 0),
        forall|i: int, k: int| 0 <= i < ls@.len() && 0 <= k < lji@.len() ==> (#[trigger] lji@[k]) < (#[trigger] ls@[i])@.len(),
    ensures
        outcome(r) == triple_join(*t, *tx, rows(ls@), lji@, rji@, index_set(elim@)),
{
    let ghost gone = index_set(elim@);
    let ghost f = triple_row(*t, *tx, lji@, rji@, gone);
    let ghost lsv = rows(ls@);
    let crange = cartesian_range_exec(t);
    let all_facts = if rji.len() == 1 && rji[0] != 0 && !t.attr.is_ref && !t.attr.indexed {
        let q = TripleScan { attr: t.attr.id, entity: None, value: None, range: None, as_of: as_of_exec(t) };
        tx.scan_triples(&q)
    } else {
        Vec::new()
    };
    let mut out: Vec<Tuple> = Vec::new();
    let mut i: usize = 0;
    assert(lsv.take(0) =~= Seq::<Seq<Val>>::empty());
    assert(rows(out@) =~= Seq::<Seq<Val>>::empty());
    while i < ls.len()
        invariant
            i <= ls@.len(),
            lji@.len() == rji@.len(),
            rji@.len() <= 2,
            rji@.len() == 2 ==> (rji@[0] == 0 && rji@[1] == 1) || (rji@[0] == 1 && rji@[1] == 0),
            forall|i: int, k: int| 0 <= i < ls@.len() && 0 <= k < lji@.len() ==> (#[trigger] lji@[k]) < (#[trigger] ls@[i])@.len(),
            rji@.len() == 1 && rji@[0] != 0 && !t.attr.is_ref && !t.attr.indexed
                ==> rows(all_facts@) == triple_hits(tx.triples@, tquery(*t, None, None, None)),
            crange matches Some(b) ==> cartesian_range(*t) == Some((b.0@, b.1@)),
            crange is None ==> cartesian_range(*t) is None,
            gone == index_set(elim@),
            f == triple_row(*t, *tx, lji@, rji@, gone),
            lsv == rows(ls@),
            flat_rows(lsv.take(i as int), f) == Ok::<Seq<Seq<Val>>, QErr>(rows(out@)),
        decreases ls.len() - i,
    {
        proof { lemma_flat_step(lsv, f, i as int); }
        let l = &ls[i];
        assert(lsv[i as int] == l@);
        assert(forall|k: int| 0 <= k < lji@.len() ==> (#[trigger] lji@[k]) < l@.len());
        let cands = triple_cands_exec(t, tx, l, lji, rji, &all_facts, &crange);
        match cands {
            Err(x) => {
                proof { lemma_flat_err(lsv, f, i as int + 1); }
                return Err(x);
            },
            Ok(cs) => {
                let ghost acc = rows(out@);
                match finish_rows(&cs, &t.filters, elim, &mut out) {
                    Err(x) => {
                        proof { lemma_flat_err(lsv, f, i as int + 1); }
                        return Err(x);
                    },
                    Ok(()) => {},
                }
            },
        }
        i = i + 1;
    }
    proof { lemma_flat_all(lsv, f); }
    Ok(out)
}

/// The leading key columns of the right relation, read from the left tuple.
fn prefix_from(lji: &Vec<usize>, rji: &Vec<usize>) -> (r: Vec<usize>)
    requires
        lji@.len() == rji@.len(),
    ensures
        r@ == prefix_cols(lji@, rji@),
{
    let mut out: Vec<usize> = Vec::new();
    let mut m: usize = 0;
    let mut done = false;
    while m < rji.len() && !done
        invariant
            lji@.len() == rji@.len(),
            m <= rji@.len(),
            prefix_len_from(rji@, 0) == (if done { m as int } else { prefix_len_from(rji@, m as int) }),
            out@ =~= Seq::new(m as nat, |j: int| lji@[first_pos(rji@, j as usize)]),
        decreases rji.len() - m + (if done { 0int } else { 1int }),
    {
        match index_position(rji, m) {
            None => {
                done = true;
            },
            Some(i) => {
                out.push(lji[i]);
                m = m + 1;
            },
        }
    }
    out
}

/// Whether the keys are a prefix of the right relation's columns.
pub fn keys_are_prefix(rji: &Vec<usize>) -> (r: bool)
    ensures
        r == is_prefix_keys(rji@),
{
    let mut j: usize = 0;
    while j < rji.len()
        invariant
            j <= rji@.len(),
            forall|k: usize| k < j ==> #[trigger] rji@.contains(k),
        decreases rji.len() - j,
    {
        if index_position(rji, j).is_none() {
            return false;
        }
        j = j + 1;
    }
    true
}

/// The bounds that the filters give the columns of `bindings` from `k` on, or
/// none when they leave each open.
fn prefix_bounds_exec(fs: &Vec<Expr>, bindings: &Vec<Symbol>, k: usize) -> (r: (Vec<DataValue>, Vec<DataValue>))
    requires
        k <= bindings@.len(),
    ensures
        (vals(r.0@), vals(r.1@)) == prefix_bounds(fs@, bindings@.skip(k as int)),
{
    let mut cols: Vec<Symbol> = Vec::new();
    let mut i: usize = k;
    while i < bindings.len()
        invariant
            k <= i <= bindings@.len(),
            cols@ =~= bindings@.subrange(k as int, i as int),
        decreases bindings.len() - i,
    {
        cols.push(bindings[i]);
        i = i + 1;
    }
    assert(cols@ =~= bindings@.skip(k as int));
    let (lo, hi) = compute_bounds(fs, &cols);
    let ghost slo = bound_lows(fs@, cols@);
    let ghost shi = bound_highs(fs@, cols@);
    assert(vals(lo@) =~= slo);
    assert(vals(hi@) =~= shi);
    let ghost pb = prefix_bounds(fs@, bindings@.skip(k as int));
    if fs.len() > 0 {
        let mut j: usize = 0;
        while j < lo.len()
            invariant
                j <= lo@.len(),
                lo@.len() == cols@.len(),
                hi@.len() == cols@.len(),
                vals(lo@) == slo,
                vals(hi@) == shi,
                slo == bound_lows(fs@, cols@),
                shi == bound_highs(fs@, cols@),
                cols@ == bindings@.skip(k as int),
                pb == prefix_bounds(fs@, bindings@.skip(k as int)),
                fs@.len() > 0,
                forall|m: int| 0 <= m < j ==> is_open(#[trigger] lower_bound(fs@, cols@[m], Seq::empty()), upper_bound(fs@, cols@[m], Seq::empty())),
            decreases lo.len() - j,
        {
            assert(vals(lo@)[j as int] == lo@[j as int]@);
            assert(vals(hi@)[j as int] == hi@[j as int]@);
            if !(matches!(lo[j], DataValue::Null) && matches!(hi[j], DataValue::Bot)) {
                assert(!is_open(slo[j as int], shi[j as int]));
                assert(exists|m: int| 0 <= m < cols@.len() && !is_open(#[trigger] bound_lows(fs@, cols@)[m], bound_highs(fs@, cols@)[m]));
                assert(pb == (bound_lows(fs@, cols@), bound_highs(fs@, cols@)));
                return (lo, hi);
            }
            assert(is_open(slo[j as int], shi[j as int]));
            assert(slo[j as int] == lower_bound(fs@, cols@[j as int], Seq::empty()));
            j = j + 1;
        }
    }
    assert(!(fs@.len() > 0 && exists|m: int| 0 <= m < cols@.len() && !is_open(#[trigger] bound_lows(fs@, cols@)[m], bound_highs(fs@, cols@)[m])));
    let e1: Vec<DataValue> = Vec::new();
    let e2: Vec<DataValue> = Vec::new();
    assert(vals(e1@) =~= Seq::<Val>::empty());
    assert(vals(e2@) =~= Seq::<Val>::empty());
    (e1, e2)
}

/// The values of `l` at `cols`.
fn pick_values(l: &Tuple, cols: &Vec<usize>) -> (r: Vec<DataValue>)
    requires
        forall|k: int| 0 <= k < cols@.len() ==> (#[trigger] cols@[k]) < l@.len(),
    ensures
        vals(r@) == pick(l@, cols@),
{
    let mut out: Vec<DataValue> = Vec::new();
    let mut j: usize = 0;
    while j < cols.len()
        invariant
            j <= cols@.len(),
            l@.len() == l.0@.len(),
            forall|k: int| 0 <= k < cols@.len() ==> (#[trigger] cols@[k]) < l@.len(),
            vals(out@) =~= pick(l@, cols@.take(j as int)),
        decreases cols.len() - j,
    {
        let ghost prev = out@;
        out.push(l.0[cols[j]].dup());
        proof {
            crate::tuple::lemma_vals_push(prev, out@.last());
            assert(out@ == prev.push(out@.last()));
            assert(pick(l@, cols@.take(j as int + 1)) =~= pick(l@, cols@.take(j as int)).push(l@[cols@[j as int] as int]));
        }
        j = j + 1;
    }
    assert(cols@.take(j as int) =~= cols@);
    out
}

/// Each left tuple joined with the rows of `src` that start with its key values
/// and lie within the filters' bounds, then filtered, minus the columns at `elim`.
fn prefix_join_exec(src: &Vec<Tuple>, bindings: &Vec<Symbol>, fs: &Vec<Expr>, ls: &Vec<Tuple>, lji: &Vec<usize>,
    rji: &Vec<usize>, elim: &Vec<usize>) -> (r: Result<Vec<Tuple>, QueryError>)
    requires
        lji@.len() == rji@.len(),
        forall|i: int, k: int| 0 <= i < ls@.len() && 0 <= k < lji@.len() ==> (#[trigger] lji@[k]) < (#[trigger] ls@[i])@.len(),
    ensures
        outcome(r) == prefix_join(rows(src@), bindings@, fs@, rows(ls@), lji@, rji@, index_set(elim@)),
{
    let ghost gone = index_set(elim@);
    let ghost f = prefix_row(rows(src@), bindings@, fs@, lji@, rji@, gone);
    let ghost lsv = rows(ls@);
    let cols = prefix_from(lji, rji);
    let k = if rji.len() <= bindings.len() { rji.len() } else { bindings.len() };
    let (lo, hi) = prefix_bounds_exec(fs, bindings, k);
    proof { crate::semantics::lemma_prefix_len_bounds(rji@, 0); }
    let mut out: Vec<Tuple> = Vec::new();
    let mut i: usize = 0;
    assert(lsv.take(0) =~= Seq::<Seq<Val>>::empty());
    assert(rows(out@) =~= Seq::<Seq<Val>>::empty());
    while i < ls.len()
        invariant
            i <= ls@.len(),
            lji@.len() == rji@.len(),
            forall|i: int, k: int| 0 <= i < ls@.len() && 0 <= k < lji@.len() ==> (#[trigger] lji@[k]) < (#[trigger] ls@[i])@.len(),
            cols@ == prefix_cols(lji@, rji@),
            (vals(lo@), vals(hi@)) == prefix_bounds(fs@, bindings@.skip(skip_len(rji@, bindings@))),
            gone == index_set(elim@),
            f == prefix_row(rows(src@), bindings@, fs@, lji@, rji@, gone),
            lsv == rows(ls@),
            flat_rows(lsv.take(i as int), f) == Ok::<Seq<Seq<Val>>, QErr>(rows(out@)),
        decreases ls.len() - i,
    {
        proof { lemma_flat_step(lsv, f, i as int); }
        let l = &ls[i];
        assert(lsv[i as int] == l@);
        proof { crate::semantics::lemma_prefix_len_bounds(rji@, 0); }
        assert(cols@.len() == prefix_len_from(rji@, 0));
        assert forall|j: int| 0 <= j < cols@.len() implies (#[trigger] cols@[j]) < l@.len() by {
            let p = first_pos(rji@, j as usize);
            crate::semantics::lemma_prefix_pos(rji@, j);
            assert(lji@[p] < l@.len());
        }
        let prefix = pick_values(l, &cols);
        let found = select_rows(src, &prefix, &lo, &hi);
        let cands = extend_all(l, &found);
        match finish_rows(&cands, fs, elim, &mut out) {
            Err(x) => {
                proof { lemma_flat_err(lsv, f, i as int + 1); }
                return Err(x);
            },
            Ok(()) => {},
        }
        i = i + 1;
    }
    proof { lemma_flat_all(lsv, f); }
    Ok(out)
}

/// Whether a fact matches the left tuple `l` on the keys.
fn triple_found_exec(t: &TripleRA, tx: &SessionTx, l: &Tuple, lji: &Vec<usize>, rji: &Vec<usize>, all_facts: &Vec<Tuple>)
    -> (r: Result<bool, QueryError>)
    requires
        lji@.len() == rji@.len(),
        1 <= rji@.len() <= 2,
        rji@.len() == 2 ==> (rji@[0] == 0 && rji@[1] == 1) || (rji@[0] == 1 && rji@[1] == 0),
        forall|k: int| 0 <= k < lji@.len() ==> (#[trigger] lji@[k]) < l@.len(),
        rji@.len() == 1 && rji@[0] != 0 && !t.attr.is_ref && !t.attr.indexed
            ==> rows(all_facts@) == triple_hits(tx.triples@, tquery(*t, None, None, None)),
    ensures
        r matches Ok(b) ==> triple_found(*t, *tx, l@, lji@, rji@) == Ok::<bool, QErr>(b),
        r matches Err(x) ==> triple_found(*t, *tx, l@, lji@, rji@) == Err::<bool, QErr>(x@),
{
    let asof = as_of_exec(t);
    if rji.len() >= 2 {
        let le = if rji[0] == 0 { lji[0] } else { lji[1] };
        let lv = if rji[0] == 0 { lji[1] } else { lji[0] };
        return match l.0[le].get_entity_id() {
            None => Err(entity_error(&l.0[le], t.span)),
            Some(e) => {
                let q = TripleScan { attr: t.attr.id, entity: Some(e), value: Some(l.0[lv].dup()), range: None, as_of: asof };
                assert(q@ == tquery(*t, Some(e), Some(l@[lv as int]), None));
                Ok(tx.any_triple(&q))
            },
        };
    }
    let lx = lji[0];
    if rji[0] == 0 {
        match l.0[lx].get_entity_id() {
            None => Err(entity_error(&l.0[lx], t.span)),
            Some(e) => {
                let q = TripleScan { attr: t.attr.id, entity: Some(e), value: None, range: None, as_of: asof };
                assert(q@ == tquery(*t, Some(e), None, None));
                Ok(tx.any_triple(&q))
            },
        }
    } else if t.attr.is_ref {
        match l.0[lx].get_entity_id() {
            None => Err(entity_error(&l.0[lx], t.span)),
            Some(e) => {
                let q = TripleScan { attr: t.attr.id, entity: None, value: Some(DataValue::Entity(e)), range: None, as_of: asof };
                assert(q@ == tquery(*t, None, Some(Val::Entity(e as nat)), None));
                Ok(tx.any_triple(&q))
            },
        }
    } else if t.attr.indexed {
        let q = TripleScan { attr: t.attr.id, entity: None, value: Some(l.0[lx].dup()), range: None, as_of: asof };
        assert(q@ == tquery(*t, None, Some(l@[lx as int]), None));
        Ok(tx.any_triple(&q))
    } else {
        let ghost hv = rows(all_facts@);
        let ghost p = value_is(l@[lx as int]);
        proof { lemma_hits_len(tx.triples@, tquery(*t, None, None, None)); }
        let mut k: usize = 0;
        assert(hv.take(0).filter(p) =~= Seq::<Seq<Val>>::empty()) by { reveal(Seq::filter); }
        while k < all_facts.len()
            invariant
                k <= all_facts@.len(),
                hv == rows(all_facts@),
                rows_have_len(hv, 2),
                lx < l@.len(),
                lji@.len() == 1,
                rji@.len() == 1,
                rji@[0] != 0,
                !t.attr.is_ref,
                !t.attr.indexed,
                lx == lji@[0],
                p == value_is(l@[lx as int]),
                hv == triple_hits(tx.triples@, tquery(*t, None, None, None)),
                hv.take(k as int).filter(p).len() == 0,
            decreases all_facts.len() - k,
        {
            let h = &all_facts[k];
            assert(hv[k as int] == h@);
            assert(h@.len() == 2);
            proof {
                reveal(Seq::filter);
                assert(hv.take(k as int + 1).drop_last() =~= hv.take(k as int));
            }
            if h.0[1].same_as(&l.0[lx]) {
                proof {
                    hv.lemma_filter_contains(p, k as int);
                    assert(hv.filter(p).len() > 0);
                }
                return Ok(true);
            }
            k = k + 1;
        }
        assert(hv.take(k as int) =~= hv);
        Ok(false)
    }
}

/// Whether a row of `src` that starts with the left tuple's leading key values
/// matches it on every key.
fn rows_found_exec(src: &Vec<Tuple>, l: &Tuple, lji: &Vec<usize>, rji: &Vec<usize>, cols: &Vec<usize>, Ghost(n): Ghost<int>) -> (r: bool)
    requires
        lji@.len() == rji@.len(),
        cols@ == prefix_cols(lji@, rji@),
        forall|k: int| 0 <= k < lji@.len() ==> (#[trigger] lji@[k]) < l@.len(),
        forall|k: int| 0 <= k < rji@.len() ==> (#[trigger] rji@[k]) < n,
        rows_have_len(rows(src@), n),
    ensures
        r == rows_found(rows(src@), l@, lji@, rji@),
{
    proof { crate::semantics::lemma_prefix_len_bounds(rji@, 0); }
    assert forall|j: int| 0 <= j < cols@.len() implies (#[trigger] cols@[j]) < l@.len() by {
        crate::semantics::lemma_prefix_pos(rji@, j);
    }
    let prefix = pick_values(l, cols);
    let empty: Vec<DataValue> = Vec::new();
    assert(vals(empty@) =~= Seq::<Val>::empty());
    let found = select_rows(src, &prefix, &empty, &empty);
    let ghost fv = rows(found@);
    let ghost p = key_filter(l@, lji@, rji@);
    proof { lemma_filter_keeps_len(rows(src@), |x: Seq<Val>| crate::store::row_in_range(x, vals(prefix@), Seq::empty(), Seq::empty()), n); }
    let mut k: usize = 0;
    assert(fv.take(0).filter(p) =~= Seq::<Seq<Val>>::empty()) by { reveal(Seq::filter); }
    while k < found.len()
        invariant
            k <= found@.len(),
            fv == rows(found@),
            rows_have_len(fv, n),
            lji@.len() == rji@.len(),
            forall|k: int| 0 <= k < lji@.len() ==> (#[trigger] lji@[k]) < l@.len(),
            forall|k: int| 0 <= k < rji@.len() ==> (#[trigger] rji@[k]) < n,
            p == key_filter(l@, lji@, rji@),
            fv == rows_in_range(rows(src@), pick(l@, prefix_cols(lji@, rji@)), Seq::empty(), Seq::empty()),
            fv.take(k as int).filter(p).len() == 0,
        decreases found.len() - k,
    {
        let c = &found[k];
        assert(fv[k as int] == c@);
        proof {
            reveal(Seq::filter);
            assert(fv.take(k as int + 1).drop_last() =~= fv.take(k as int));
        }
        if keys_agree(l, c, lji, rji) {
            proof {
                fv.lemma_filter_contains(p, k as int);
                assert(fv.filter(p).len() > 0);
            }
            return true;
        }
        k = k + 1;
    }
    assert(fv.take(k as int) =~= fv);
    false
}

/// The left tuples that match no fact of the triple node, minus the columns at `elim`.
fn neg_triple_exec(t: &TripleRA, tx: &SessionTx, ls: &Vec<Tuple>, lji: &Vec<usize>, rji: &Vec<usize>, elim: &Vec<usize>)
    -> (r: Result<Vec<Tuple>, QueryError>)
    requires
        lji@.len() == rji@.len(),
        1 <= rji@.len() <= 2,
        rji@.len() == 2 ==> (rji@[0] == 0 && rji@[1] == 1) || (rji@[0] == 1 && rji@[1] == 0),
        forall|i: int, k: int| 0 <= i < ls@.len() && 0 <= k < lji@.len() ==> (#[trigger] lji@[k]) < (#[trigger] ls@[i])@.len(),
    ensures
        outcome(r) == anti_join(rows(ls@), triple_found_fn(*t, *tx, lji@, rji@), index_set(elim@)),
{
    let ghost gone = index_set(elim@);
    let ghost f = anti_row(triple_found_fn(*t, *tx, lji@, rji@), gone);
    let ghost lsv = rows(ls@);
    let all_facts = if rji.len() == 1 && rji[0] != 0 && !t.attr.is_ref && !t.attr.indexed {
        let q = TripleScan { attr: t.attr.id, entity: None, value: None, range: None, as_of: as_of_exec(t) };
        tx.scan_triples(&q)
    } else {
        Vec::new()
    };
    let mut out: Vec<Tuple> = Vec::new();
    let mut i: usize = 0;
    assert(lsv.take(0) =~= Seq::<Seq<Val>>::empty());
    assert(rows(out@) =~= Seq::<Seq<Val>>::empty());
    while i < ls.len()
        invariant
            i <= ls@.len(),
            lji@.len() == rji@.len(),
            1 <= rji@.len() <= 2,
            rji@.len() == 2 ==> (rji@[0] == 0 && rji@[1] == 1) || (rji@[0] == 1 && rji@[1] == 0),
            forall|i: int, k: int| 0 <= i < ls@.len() && 0 <= k < lji@.len() ==> (#[trigger] lji@[k]) < (#[trigger] ls@[i])@.len(),
            rji@.len() == 1 && rji@[0] != 0 && !t.attr.is_ref && !t.attr.indexed
                ==> rows(all_facts@) == triple_hits(tx.triples@, tquery(*t, None, None, None)),
            gone == index_set(elim@),
            f == anti_row(triple_found_fn(*t, *tx, lji@, rji@), gone),
            lsv == rows(ls@),
            flat_rows(lsv.take(i as int), f) == Ok::<Seq<Seq<Val>>, QErr>(rows(out@)),
        decreases ls.len() - i,
    {
        proof { lemma_flat_step(lsv, f, i as int); }
        let l = &ls[i];
        assert(lsv[i as int] == l@);
        assert(forall|k: int| 0 <= k < lji@.len() ==> (#[trigger] lji@[k]) < l@.len());
        match triple_found_exec(t, tx, l, lji, rji, &all_facts) {
            Err(x) => {
                proof { lemma_flat_err(lsv, f, i as int + 1); }
                return Err(x);
            },
            Ok(true) => {
                assert(rows(out@) + Seq::<Seq<Val>>::empty() =~= rows(out@));
            },
            Ok(false) => {
                let ghost prev = out@;
                let nt = eliminate_from_tuple(l.dup(), elim);
                out.push(nt);
                proof {
                    lemma_rows_push(prev, nt);
                    assert(rows(out@) =~= rows(prev) + seq![drop_at(l@, gone)]);
                }
            },
        }
        i = i + 1;
    }
    proof { lemma_flat_all(lsv, f); }
    Ok(out)
}

/// The left tuples that match no row of `src` on the keys, minus the columns at `elim`.
fn neg_rows_exec(src: &Vec<Tuple>, ls: &Vec<Tuple>, lji: &Vec<usize>, rji: &Vec<usize>, elim: &Vec<usize>, Ghost(n): Ghost<int>)
    -> (r: Vec<Tuple>)
    requires
        lji@.len() == rji@.len(),
        forall|i: int, k: int| 0 <= i < ls@.len() && 0 <= k < lji@.len() ==> (#[trigger] lji@[k]) < (#[trigger] ls@[i])@.len(),
        forall|k: int| 0 <= k < rji@.len() ==> (#[trigger] rji@[k]) < n,
        rows_have_len(rows(src@), n),
    ensures
        anti_join(rows(ls@), rows_found_fn(rows(src@), lji@, rji@), index_set(elim@)) == Ok::<Seq<Seq<Val>>, QErr>(rows(r@)),
{
    let ghost gone = index_set(elim@);
    let ghost f = anti_row(rows_found_fn(rows(src@), lji@, rji@), gone);
    let ghost lsv = rows(ls@);
    let cols = prefix_from(lji, rji);
    let mut out: Vec<Tuple> = Vec::new();
    let mut i: usize = 0;
    assert(lsv.take(0) =~= Seq::<Seq<Val>>::empty());
    assert(rows(out@) =~= Seq::<Seq<Val>>::empty());
    while i < ls.len()
        invariant
            i <= ls@.len(),
            lji@.len() == rji@.len(),
            cols@ == prefix_cols(lji@, rji@),
            forall|i: int, k: int| 0 <= i < ls@.len() && 0 <= k < lji@.len() ==> (#[trigger] lji@[k]) < (#[trigger] ls@[i])@.len(),
            forall|k: int| 0 <= k < rji@.len() ==> (#[trigger] rji@[k]) < n,
            rows_have_len(rows(src@), n),
            gone == index_set(elim@),
            f == anti_row(rows_found_fn(rows(src@), lji@, rji@), gone),
            lsv == rows(ls@),
            flat_rows(lsv.take(i as int), f) == Ok::<Seq<Seq<Val>>, QErr>(rows(out@)),
        decreases ls.len() - i,
    {
        proof { lemma_flat_step(lsv, f, i as int); }
        let l = &ls[i];
        assert(lsv[i as int] == l@);
        assert(forall|k: int| 0 <= k < lji@.len() ==> (#[trigger] lji@[k]) < l@.len());
        if rows_found_exec(src, l, lji, rji, &cols, Ghost(n)) {
            assert(rows(out@) + Seq::<Seq<Val>>::empty() =~= rows(out@));
        } else {
            let ghost prev = out@;
            let nt = eliminate_from_tuple(l.dup(), elim);
            out.push(nt);
            proof {
                lemma_rows_push(prev, nt);
                assert(rows(out@) =~= rows(prev) + seq![drop_at(l@, gone)]);
            }
        }
        i = i + 1;
    }
    proof { lemma_flat_all(lsv, f); }
    out
}

/// Each left tuple joined with every row of `src` that agrees on the keys; the
/// filters run on the joined tuple, then the columns at `elim` are dropped.
fn keyed_join_exec(src: &Vec<Tuple>, fs: &Vec<Expr>, ls: &Vec<Tuple>, lji: &Vec<usize>, rji: &Vec<usize>,
    elim: &Vec<usize>) -> (r: Result<Vec<Tuple>, QueryError>)
    requires
        lji@.len() == rji@.len(),
        forall|i: int, k: int| 0 <= i < ls@.len() && 0 <= k < lji@.len() ==> (#[trigger] lji@[k]) < (#[trigger] ls@[i])@.len(),
        forall|i: int, k: int| 0 <= i < src@.len() && 0 <= k < rji@.len() ==> (#[trigger] rji@[k]) < (#[trigger] src@[i])@.len(),
    ensures
        outcome(r) == keyed_join(rows(src@), fs@, rows(ls@), lji@, rji@, index_set(elim@)),
{
    let ghost gone = index_set(elim@);
    let ghost f = keyed_row(rows(src@), fs@, lji@, rji@, gone);
    let ghost lsv = rows(ls@);
    let ghost rsv = rows(src@);
    let mut out: Vec<Tuple> = Vec::new();
    let mut i: usize = 0;
    assert(lsv.take(0) =~= Seq::<Seq<Val>>::empty());
    assert(rows(out@) =~= Seq::<Seq<Val>>::empty());
    while i < ls.len()
        invariant
            i <= ls@.len(),
            lji@.len() == rji@.len(),
            forall|i: int, k: int| 0 <= i < ls@.len() && 0 <= k < lji@.len() ==> (#[trigger] lji@[k]) < (#[trigger] ls@[i])@.len(),
            forall|i: int, k: int| 0 <= i < src@.len() && 0 <= k < rji@.len() ==> (#[trigger] rji@[k]) < (#[trigger] src@[i])@.len(),
            gone == index_set(elim@),
            f == keyed_row(rows(src@), fs@, lji@, rji@, gone),
            lsv == rows(ls@),
            rsv == rows(src@),
            flat_rows(lsv.take(i as int), f) == Ok::<Seq<Seq<Val>>, QErr>(rows(out@)),
        decreases ls.len() - i,
    {
        proof { lemma_flat_step(lsv, f, i as int); }
        let l = &ls[i];
        assert(lsv[i as int] == l@);
        let ghost p = key_filter(l@, lji@, rji@);
        let ghost g = prepend(l@);
        let mut cands: Vec<Tuple> = Vec::new();
        let mut k: usize = 0;
        assert(rsv.take(0).filter(p).map_values(g) =~= Seq::<Seq<Val>>::empty()) by { reveal(Seq::filter); }
        assert(rows(cands@) =~= Seq::<Seq<Val>>::empty());
        while k < src.len()
            invariant
                k <= src@.len(),
                i < ls@.len(),
                l == &ls@[i as int],
                lji@.len() == rji@.len(),
                forall|i: int, k: int| 0 <= i < ls@.len() && 0 <= k < lji@.len() ==> (#[trigger] lji@[k]) < (#[trigger] ls@[i])@.len(),
                forall|i: int, k: int| 0 <= i < src@.len() && 0 <= k < rji@.len() ==> (#[trigger] rji@[k]) < (#[trigger] src@[i])@.len(),
                rsv == rows(src@),
                p == key_filter(l@, lji@, rji@),
                g == prepend(l@),
                rows(cands@) == rsv.take(k as int).filter(p).map_values(g),
            decreases src.len() - k,
        {
            proof { lemma_filter_map_step(rsv, p, g, k as int); }
            assert(forall|j: int| 0 <= j < lji@.len() ==> (#[trigger] lji@[j]) < l@.len());
            assert(forall|j: int| 0 <= j < rji@.len() ==> (#[trigger] rji@[j]) < src@[k as int]@.len());
            assert(rsv[k as int] == src@[k as int]@);
            if keys_agree(l, &src[k], lji, rji) {
                let ghost prev = cands@;
                let nt = l.concat(&src[k].0);
                cands.push(nt);
                proof {
                    lemma_rows_push(prev, nt);
                    assert(src@[k as int]@ == vals(src@[k as int].0@));
                }
            } else {
                assert(rows(cands@) =~= rsv.take(k as int + 1).filter(p).map_values(g));
            }
            k = k + 1;
        }
        assert(rsv.take(src@.len() as int) =~= rsv);
        match finish_rows(&cands, fs, elim, &mut out) {
            Err(x) => {
                proof { lemma_flat_err(lsv, f, i as int + 1); }
                return Err(x);
            },
            Ok(()) => {},
        }
        i = i + 1;
    }
    proof { lemma_flat_all(lsv, f); }
    Ok(out)
}

/// A stored or derived relation joined with the left tuples: by prefix scan
/// where the keys lead its columns, else by matching every row on the keys.
fn source_join_exec(src: &Vec<Tuple>, bindings: &Vec<Symbol>, fs: &Vec<Expr>, ls: &Vec<Tuple>, lji: &Vec<usize>,
    rji: &Vec<usize>, elim: &Vec<usize>) -> (r: Result<Vec<Tuple>, QueryError>)
    requires
        lji@.len() == rji@.len(),
        forall|i: int, k: int| 0 <= i < ls@.len() && 0 <= k < lji@.len() ==> (#[trigger] lji@[k]) < (#[trigger] ls@[i])@.len(),
        forall|k: int| 0 <= k < rji@.len() ==> (#[trigger] rji@[k]) < bindings@.len(),
        rows_have_len(rows(src@), bindings@.len() as int),
    ensures
        outcome(r) == (if is_prefix_keys(rji@) {
            prefix_join(rows(src@), bindings@, fs@, rows(ls@), lji@, rji@, index_set(elim@))
        } else {
            keyed_join(rows(src@), fs@, rows(ls@), lji@, rji@, index_set(elim@))
        }),
{
    if keys_are_prefix(rji) {
        prefix_join_exec(src, bindings, fs, ls, lji, rji, elim)
    } else {
        proof { lemma_rows_bound(src@, rji@, bindings@.len() as int); }
        keyed_join_exec(src, fs, ls, lji, rji, elim)
    }
}

/// Whether `v` holds `x`.
fn has_id(v: &Vec<u64>, x: u64) -> (r: bool)
    ensures
        r == v@.contains(x),
{
    let mut k: usize = 0;
    while k < v.len()
        invariant
            k <= v.len(),
            forall|j: int| 0 <= j < k ==> v@[j] != x,
        decreases v.len() - k,
    {
        if v[k] == x {
            return true;
        }
        k = k + 1;
    }
    false
}

impl DerivedRA {
    /// Whether the relation has nothing yet in its first delta.
    pub fn is_empty_delta(&self, epoch: Option<u32>, use_delta: &Vec<u64>) -> (r: bool)
        ensures
            r == derived_empty(*self, epoch, use_delta@),
    {
        match epoch {
            Some(e) => e == 0 && has_id(use_delta, self.storage.id),
            None => false,
        }
    }

    /// The epoch at which the relation is read.
    pub fn scan_epoch(&self, epoch: Option<u32>, use_delta: &Vec<u64>) -> (r: u32)
        ensures
            r as int == scan_epoch(*self, epoch, use_delta@),
    {
        match epoch {
            Some(ep) => if ep > 0 && has_id(use_delta, self.storage.id) {
                ep - 1
            } else {
                0
            },
            None => 0,
        }
    }

    /// Whether the join keys, at positions `right_join_indices` of this
    /// relation, are a prefix of its columns.
    pub fn join_is_prefix(&self, right_join_indices: &Vec<usize>) -> (r: bool)
        ensures
            r == is_prefix_keys(right_join_indices@),
    {
        keys_are_prefix(right_join_indices)
    }
}

impl RelationRA {
    /// Whether the join keys, at positions `right_join_indices` of this
    /// relation, are a prefix of its columns.
    pub fn join_is_prefix(&self, right_join_indices: &Vec<usize>) -> (r: bool)
        ensures
            r == is_prefix_keys(right_join_indices@),
    {
        keys_are_prefix(right_join_indices)
    }
}

proof fn lemma_no_index()
    ensures
        index_set(Seq::<usize>::empty()) == Set::<int>::empty(),
{
    assert(index_set(Seq::<usize>::empty()) =~= Set::<int>::empty());
}

impl RelAlgebra {
    /// The tuples that the tree yields from `tx` at `epoch`, reading the derived
    /// relations in `use_delta` as deltas.
    pub fn iter(&self, tx: &SessionTx, epoch: Option<u32>, use_delta: &Vec<u64>) -> (r: Result<Vec<Tuple>, QueryError>)
        requires
            well_formed(*self, *tx),
        ensures
            outcome(r) == eval_ra(*self, *tx, epoch, use_delta@),
            r matches Ok(v) ==> rows_have_len(rows(v@), after(*self).len() as int),
        decreases self, 1int,
    {
        proof {
            lemma_eval_arity(*self, *tx, epoch, use_delta@);
            lemma_no_index();
        }
        let none: Vec<usize> = Vec::new();
        match self {
            RelAlgebra::Fixed(f) => Ok(fixed_rows_exec(f)),
            RelAlgebra::Triple(t) => {
                let unit = vec![Tuple(Vec::new())];
                assert(unit@[0]@ =~= Seq::<Val>::empty());
                assert(rows(unit@) =~= seq![Seq::<Val>::empty()]);
                let keys: Vec<usize> = Vec::new();
                triple_join_exec(t, tx, &unit, &keys, &keys, &none)
            },
            RelAlgebra::Derived(d) => {
                if d.is_empty_delta(epoch, use_delta) {
                    let out: Vec<Tuple> = Vec::new();
                    assert(rows(out@) =~= Seq::<Seq<Val>>::empty());
                    return Ok(out);
                }
                let e = d.scan_epoch(epoch, use_delta);
                let mut out: Vec<Tuple> = Vec::new();
                assert(rows(out@) =~= Seq::<Seq<Val>>::empty());
                let res = if (e as usize) < d.storage.epochs.len() {
                    finish_rows(&d.storage.epochs[e as usize], &d.filters, &none, &mut out)
                } else {
                    let empty: Vec<Tuple> = Vec::new();
                    assert(rows(empty@) =~= Seq::<Seq<Val>>::empty());
                    finish_rows(&empty, &d.filters, &none, &mut out)
                };
                match res {
                    Err(x) => Err(x),
                    Ok(()) => {
                        assert(Seq::<Seq<Val>>::empty() + rows(out@) =~= rows(out@));
                        Ok(out)
                    },
                }
            },
            RelAlgebra::Relation(v) => {
                let mut out: Vec<Tuple> = Vec::new();
                assert(rows(out@) =~= Seq::<Seq<Val>>::empty());
                match finish_rows(&tx.relations[v.storage.id], &v.filters, &none, &mut out) {
                    Err(x) => Err(x),
                    Ok(()) => Ok(out),
                }
            },
            RelAlgebra::Reorder(o) => o.iter(tx, epoch, use_delta),
            RelAlgebra::Filter(f) => f.iter(tx, epoch, use_delta),
            RelAlgebra::Unification(u) => u.iter(tx, epoch, use_delta),
            RelAlgebra::NegJoin(j) => j.iter(tx, epoch, use_delta),
            RelAlgebra::Join(j) => j.iter(tx, epoch, use_delta),
        }
    }
}

impl ReorderRA {
    /// The child's tuples with their columns in the new order.
    pub fn iter(&self, tx: &SessionTx, epoch: Option<u32>, use_delta: &Vec<u64>) -> (r: Result<Vec<Tuple>, QueryError>)
        requires
            well_formed(RelAlgebra::Reorder(*self), *tx),
        ensures
            outcome(r) == eval_ra(RelAlgebra::Reorder(*self), *tx, epoch, use_delta@),
        decreases self, 1int,
    {
        match self.relation.iter(tx, epoch, use_delta) {
            Err(x) => Err(x),
            Ok(rs) => {
                let b = self.relation.bindings_after_eliminate();
                Ok(reorder_rows_exec(&rs, &b, &self.new_order))
            },
        }
    }
}

impl FilteredRA {
    /// The child's tuples on which every predicate holds, minus the dropped columns.
    pub fn iter(&self, tx: &SessionTx, epoch: Option<u32>, use_delta: &Vec<u64>) -> (r: Result<Vec<Tuple>, QueryError>)
        requires
            well_formed(RelAlgebra::Filter(*self), *tx),
        ensures
            outcome(r) == eval_ra(RelAlgebra::Filter(*self), *tx, epoch, use_delta@),
        decreases self, 1int,
    {
        match self.parent.iter(tx, epoch, use_delta) {
            Err(x) => Err(x),
            Ok(ps) => {
                let b = self.parent.bindings_after_eliminate();
                let idx = get_eliminate_indices(&b, &self.to_eliminate);
                let mut out: Vec<Tuple> = Vec::new();
                assert(rows(out@) =~= Seq::<Seq<Val>>::empty());
                match finish_rows(&ps, &self.pred, &idx, &mut out) {
                    Err(x) => Err(x),
                    Ok(()) => {
                        assert(Seq::<Seq<Val>>::empty() + rows(out@) =~= rows(out@));
                        Ok(out)
                    },
                }
            },
        }
    }
}

impl UnificationRA {
    /// The child's tuples, each extended by the computed column, minus the
    /// dropped columns.
    pub fn iter(&self, tx: &SessionTx, epoch: Option<u32>, use_delta: &Vec<u64>) -> (r: Result<Vec<Tuple>, QueryError>)
        requires
            well_formed(RelAlgebra::Unification(*self), *tx),
        ensures
            outcome(r) == eval_ra(RelAlgebra::Unification(*self), *tx, epoch, use_delta@),
        decreases self, 1int,
    {
        match self.parent.iter(tx, epoch, use_delta) {
            Err(x) => Err(x),
            Ok(ps) => {
                let mut b = self.parent.bindings_after_eliminate();
                b.push(self.binding);
                let idx = get_eliminate_indices(&b, &self.to_eliminate);
                unify_rows_exec(&ps, self, &idx)
            },
        }
    }
}

impl NegJoin {
    /// The left tuples that match no tuple of the right source on the keys,
    /// minus the dropped columns.
    pub fn iter(&self, tx: &SessionTx, epoch: Option<u32>, use_delta: &Vec<u64>) -> (r: Result<Vec<Tuple>, QueryError>)
        requires
            well_formed(RelAlgebra::NegJoin(Box::new(*self)), *tx),
        ensures
            outcome(r) == neg_outcome(*self, *tx, eval_ra(self.left, *tx, epoch, use_delta@)),
        decreases self, 1int,
    {
        assert(well_formed(self.left, *tx));
        assert(well_formed(self.right, *tx));
        let lb = self.left.bindings_after_eliminate();
        let rb = self.right.bindings_after_eliminate();
        let (lji, rji) = self.joiner.join_indices(&lb, &rb);
        let idx = get_eliminate_indices(&lb, &self.to_eliminate);
        let ls = match self.left.iter(tx, epoch, use_delta) {
            Err(x) => { return Err(x); },
            Ok(ls) => ls,
        };
        assert(forall|i: int, k: int| 0 <= i < ls@.len() && 0 <= k < lji@.len() ==> (#[trigger] lji@[k]) < (#[trigger] ls@[i])@.len()) by {
            assert forall|i: int, k: int| 0 <= i < ls@.len() && 0 <= k < lji@.len() implies (#[trigger] lji@[k]) < (#[trigger] ls@[i])@.len() by {
                assert(rows(ls@)[i] == ls@[i]@);
            }
        }
        match &self.right {
            RelAlgebra::Triple(t) => {
                proof { lemma_triple_positions(self.joiner.right_keys@, rb@); }
                neg_triple_exec(t, tx, &ls, &lji, &rji, &idx)
            },
            RelAlgebra::Derived(d) => {
                assert(rb@ == d.bindings@);
                if d.storage.epochs.len() > 0 {
                    assert(rows_have_len(rows(d.storage.epochs@[0]@), d.bindings@.len() as int));
                    Ok(neg_rows_exec(&d.storage.epochs[0], &ls, &lji, &rji, &idx, Ghost(d.bindings@.len() as int)))
                } else {
                    let empty: Vec<Tuple> = Vec::new();
                    assert(rows(empty@) =~= Seq::<Seq<Val>>::empty());
                    Ok(neg_rows_exec(&empty, &ls, &lji, &rji, &idx, Ghost(d.bindings@.len() as int)))
                }
            },
            RelAlgebra::Relation(v) => {
                assert(rb@ == v.bindings@);
                Ok(neg_rows_exec(&tx.relations[v.storage.id], &ls, &lji, &rji, &idx, Ghost(v.bindings@.len() as int)))
            },
            _ => Ok(Vec::new()),
        }
    }
}

impl InnerJoin {
    /// The joined tuples, minus the dropped columns. The right side decides how:
    /// inline rows and materialized results are matched in memory, a triple node
    /// scans by the bound columns, and a stored or derived relation whose keys
    /// are a prefix of its columns is scanned by prefix.
    pub fn iter(&self, tx: &SessionTx, epoch: Option<u32>, use_delta: &Vec<u64>) -> (r: Result<Vec<Tuple>, QueryError>)
        requires
            well_formed(RelAlgebra::Join(Box::new(*self)), *tx),
        ensures
            outcome(r) == join_outcome(*self, *tx, epoch, use_delta@, eval_ra(self.left, *tx, epoch, use_delta@),
                eval_ra(self.right, *tx, epoch, use_delta@)),
        decreases self, 1int,
    {
        assert(well_formed(self.left, *tx));
        assert(well_formed(self.right, *tx));
        assert(joiner_ok(self.joiner, after(self.left), after(self.right)));
        let lb = self.left.bindings_after_eliminate();
        let rb = self.right.bindings_after_eliminate();
        let (lji, rji) = self.joiner.join_indices(&lb, &rb);
        let bindings = append_symbols(&lb, &rb);
        let idx = get_eliminate_indices(&bindings, &self.to_eliminate);
        match &self.right {
            RelAlgebra::Fixed(f) => {
                if f.data.len() == 0 {
                    let out: Vec<Tuple> = Vec::new();
                    assert(rows(out@) =~= Seq::<Seq<Val>>::empty());
                    return Ok(out);
                }
                let ls = match self.left.iter(tx, epoch, use_delta) {
                    Err(x) => { return Err(x); },
                    Ok(ls) => ls,
                };
                let rs = fixed_rows_exec(f);
                proof {
                    lemma_rows_bound(ls@, lji@, lb@.len() as int);
                    lemma_eval_arity(self.right, *tx, epoch, use_delta@);
                    lemma_rows_bound(rs@, rji@, rb@.len() as int);
                }
                Ok(hash_join_exec(&ls, &rs, &lji, &rji, &idx))
            },
            RelAlgebra::Triple(t) => {
                let ls = match self.left.iter(tx, epoch, use_delta) {
                    Err(x) => { return Err(x); },
                    Ok(ls) => ls,
                };
                proof {
                    lemma_rows_bound(ls@, lji@, lb@.len() as int);
                    lemma_triple_positions(self.joiner.right_keys@, rb@);
                }
                triple_join_exec(t, tx, &ls, &lji, &rji, &idx)
            },
            RelAlgebra::Derived(d) => {
                if d.is_empty_delta(epoch, use_delta) {
                    let out: Vec<Tuple> = Vec::new();
                    assert(rows(out@) =~= Seq::<Seq<Val>>::empty());
                    return Ok(out);
                }
                let ls = match self.left.iter(tx, epoch, use_delta) {
                    Err(x) => { return Err(x); },
                    Ok(ls) => ls,
                };
                proof { lemma_rows_bound(ls@, lji@, lb@.len() as int); }
                assert(rb@ == d.bindings@);
                let e = d.scan_epoch(epoch, use_delta);
                if (e as usize) < d.storage.epochs.len() {
                    assert(rows_have_len(rows(d.storage.epochs@[e as int]@), d.bindings@.len() as int));
                    source_join_exec(&d.storage.epochs[e as usize], &d.bindings, &d.filters, &ls, &lji, &rji, &idx)
                } else {
                    let empty: Vec<Tuple> = Vec::new();
                    assert(rows(empty@) =~= Seq::<Seq<Val>>::empty());
                    source_join_exec(&empty, &d.bindings, &d.filters, &ls, &lji, &rji, &idx)
                }
            },
            RelAlgebra::Relation(v) => {
                let ls = match self.left.iter(tx, epoch, use_delta) {
                    Err(x) => { return Err(x); },
                    Ok(ls) => ls,
                };
                proof { lemma_rows_bound(ls@, lji@, lb@.len() as int); }
                assert(rb@ == v.bindings@);
                source_join_exec(&tx.relations[v.storage.id], &v.bindings, &v.filters, &ls, &lji, &rji, &idx)
            },
            RelAlgebra::Reorder(_) | RelAlgebra::NegJoin(_) => Ok(Vec::new()),
            _ => self.materialized_join(tx, &lji, &rji, &idx, epoch, use_delta),
        }
    }

    /// Evaluates the right side in full, then matches each left tuple against
    /// its tuples on the keys.
    fn materialized_join(&self, tx: &SessionTx, lji: &Vec<usize>, rji: &Vec<usize>, idx: &Vec<usize>,
        epoch: Option<u32>, use_delta: &Vec<u64>) -> (r: Result<Vec<Tuple>, QueryError>)
        requires
            well_formed(self.left, *tx),
            well_formed(self.right, *tx),
            (lji@, rji@) == join_positions(self.joiner, after(self.left), after(self.right)),
            lji@.len() == rji@.len(),
            forall|k: int| 0 <= k < lji@.len() ==> (#[trigger] lji@[k]) < after(self.left).len(),
            forall|k: int| 0 <= k < rji@.len() ==> (#[trigger] rji@[k]) < after(self.right).len(),
        ensures
            outcome(r) == materialized(eval_ra(self.right, *tx, epoch, use_delta@), eval_ra(self.left, *tx, epoch, use_delta@),
                lji@, rji@, index_set(idx@)),
        decreases self, 0int,
    {
        let rs = match self.right.iter(tx, epoch, use_delta) {
            Err(x) => { return Err(x); },
            Ok(rs) => rs,
        };
        let ls = match self.left.iter(tx, epoch, use_delta) {
            Err(x) => { return Err(x); },
            Ok(ls) => ls,
        };
        proof {
            lemma_rows_bound(ls@, lji@, after(self.left).len() as int);
            lemma_rows_bound(rs@, rji@, after(self.right).len() as int);
        }
        Ok(hash_join_exec(&ls, &rs, lji, rji, idx))
    }
}

/// Positions below the arity of every tuple are in range of each tuple.
proof fn lemma_rows_bound(ts: Seq<Tuple>, ix: Seq<usize>, n: int)
    requires
        rows_have_len(rows(ts), n),
        forall|k: int| 0 <= k < ix.len() ==> (#[trigger] ix[k]) < n,
    ensures
        forall|i: int, k: int| 0 <= i < ts.len() && 0 <= k < ix.len() ==> (#[trigger] ix[k]) < (#[trigger] ts[i])@.len(),
{
    assert forall|i: int, k: int| 0 <= i < ts.len() && 0 <= k < ix.len() implies (#[trigger] ix[k]) < (#[trigger] ts[i])@.len() by {
        assert(rows(ts)[i] == ts[i]@);
    }
}

} // verus!
