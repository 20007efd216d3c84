//! Fixed-arity tuples and the projection that drops eliminated columns.
use vstd::prelude::*;
use crate::value::{DataValue, Symbol, Val};

verus! {

/// The models of a sequence of values.
pub open spec fn vals(s: Seq<DataValue>) -> Seq<Val> {
    s.map_values(|v: DataValue| v@)
}

/// An ordered sequence of values.
#[derive(Debug, PartialEq)]
pub struct Tuple(pub Vec<DataValue>);

impl View for Tuple {
    type V = Seq<Val>;

    open spec fn view(&self) -> Seq<Val> {
        vals(self.0@)
    }
}

/// The models of a sequence of tuples.
pub open spec fn rows(s: Seq<Tuple>) -> Seq<Seq<Val>> {
    s.map_values(|t: Tuple| t@)
}

/// `s` without the positions in `gone`, order kept.
pub open spec fn drop_at<A>(s: Seq<A>, gone: Set<int>) -> Seq<A>
    decreases s.len(),
{
    if s.len() == 0 {
        s
    } else if gone.contains(s.len() - 1) {
        drop_at(s.drop_last(), gone)
    } else {
        drop_at(s.drop_last(), gone).push(s.last())
    }
}

/// The positions that a vector of indices names.
pub open spec fn index_set(v: Seq<usize>) -> Set<int> {
    Set::new(|i: int| 0 <= i <= usize::MAX && v.contains(i as usize))
}

/// The positions of `bindings` whose symbol is in `eliminate`.
pub open spec fn positions_of(bindings: Seq<Symbol>, eliminate: Seq<Symbol>) -> Set<int> {
    Set::new(|i: int| 0 <= i < bindings.len() && eliminate.contains(bindings[i]))
}

/// Dropping the same positions from two sequences of one length leaves two
/// sequences of one length.
pub proof fn lemma_drop_at_len<A, B>(s: Seq<A>, t: Seq<B>, gone: Set<int>)
    requires
        s.len() == t.len(),
    ensures
        drop_at(s, gone).len() == drop_at(t, gone).len(),
    decreases s.len(),
{
    if s.len() > 0 {
        lemma_drop_at_len(s.drop_last(), t.drop_last(), gone);
    }
}

/// Every element left by `drop_at` was in the sequence, and a sequence with no
/// repeated element keeps none.
pub proof fn lemma_drop_at_subset<A>(s: Seq<A>, gone: Set<int>)
    ensures
        forall|x: A| drop_at(s, gone).contains(x) ==> s.contains(x),
        s.no_duplicates() ==> drop_at(s, gone).no_duplicates(),
    decreases s.len(),
{
    if s.len() > 0 {
        let rest = s.drop_last();
        lemma_drop_at_subset(rest, gone);
        assert forall|x: A| drop_at(s, gone).contains(x) implies s.contains(x) by {
            if drop_at(rest, gone).contains(x) {
                assert(rest.contains(x));
                let j = choose|j: int| 0 <= j < rest.len() && rest[j] == x;
                assert(rest[j] == s[j]);
            } else {
                assert(drop_at(s, gone) == drop_at(rest, gone).push(s.last()));
                assert(s[s.len() - 1] == x);
            }
        }
        if s.no_duplicates() && !gone.contains(s.len() - 1) {
            assert(rest.no_duplicates()) by {
                assert forall|i: int, j: int| 0 <= i < rest.len() && 0 <= j < rest.len() && i != j implies rest[i] != rest[j] by {
                    assert(rest[i] == s[i] && rest[j] == s[j]);
                }
            }
            if drop_at(rest, gone).contains(s.last()) {
                assert(rest.contains(s.last()));
                let j = choose|j: int| 0 <= j < rest.len() && rest[j] == s.last();
                assert(s[j] == s[s.len() - 1]);
            }
        } else if s.no_duplicates() {
            assert(rest.no_duplicates()) by {
                assert forall|i: int, j: int| 0 <= i < rest.len() && 0 <= j < rest.len() && i != j implies rest[i] != rest[j] by {
                    assert(rest[i] == s[i] && rest[j] == s[j]);
                }
            }
        }
    }
}

/// A kept position `p` lands, after `drop_at`, at the number of kept positions
/// before it.
pub proof fn lemma_drop_at_index<A>(s: Seq<A>, gone: Set<int>, p: int)
    requires
        0 <= p < s.len(),
        !gone.contains(p),
    ensures
        drop_at(s.take(p), gone).len() < drop_at(s, gone).len(),
        drop_at(s, gone)[drop_at(s.take(p), gone).len() as int] == s[p],
    decreases s.len(),
{
    let rest = s.drop_last();
    if p == s.len() - 1 {
        assert(s.take(p) =~= rest);
    } else {
        assert(rest.take(p) =~= s.take(p));
        lemma_drop_at_index(rest, gone, p);
    }
}

/// Dropping the positions whose symbol is eliminated keeps exactly the symbols
/// that are not eliminated.
pub proof fn lemma_drop_positions(b: Seq<Symbol>, e: Seq<Symbol>, n: int)
    requires
        0 <= n <= b.len(),
    ensures
        drop_at(b.take(n), positions_of(b, e)) == b.take(n).filter(|x: Symbol| !e.contains(x)),
    decreases n,
{
    let g = positions_of(b, e);
    let f = |x: Symbol| !e.contains(x);
    reveal(Seq::filter);
    if n > 0 {
        lemma_drop_positions(b, e, n - 1);
        assert(b.take(n).drop_last() =~= b.take(n - 1));
        assert(g.contains(n - 1) == e.contains(b[n - 1]));
    } else {
        assert(b.take(0) =~= Seq::<Symbol>::empty());
    }
}

pub proof fn lemma_vals_push(s: Seq<DataValue>, x: DataValue)
    ensures
        vals(s.push(x)) == vals(s).push(x@),
{
    assert(vals(s.push(x)) =~= vals(s).push(x@));
}

pub proof fn lemma_vals_take(s: Seq<DataValue>, k: int)
    requires
        0 <= k < s.len(),
    ensures
        vals(s.take(k + 1)) == vals(s.take(k)).push(s[k]@),
{
    assert(vals(s.take(k + 1)) =~= vals(s.take(k)).push(s[k]@));
}

/// Whether `v` holds the index `i`.
pub fn has_index(v: &Vec<usize>, i: usize) -> (r: bool)
    ensures
        r == v@.contains(i),
{
    let mut k: usize = 0;
    while k < v.len()
        invariant
            k <= v.len(),
            forall|j: int| 0 <= j < k ==> v@[j] != i,
        decreases v.len() - k,
    {
        if v[k] == i {
            return true;
        }
        k = k + 1;
    }
    false
}

/// Whether `v` holds the symbol `s`.
pub fn has_symbol(v: &Vec<Symbol>, s: Symbol) -> (r: bool)
    ensures
        r == v@.contains(s),
{
    let mut k: usize = 0;
    while k < v.len()
        invariant
            k <= v.len(),
            forall|j: int| 0 <= j < k ==> v@[j] != s,
        decreases v.len() - k,
    {
        if v[k] == s {
            return true;
        }
        k = k + 1;
    }
    false
}

/// A copy of a sequence of values.
pub fn dup_values(v: &Vec<DataValue>) -> (r: Vec<DataValue>)
    ensures
        vals(r@) == vals(v@),
        r@.len() == v@.len(),
{
    let mut out: Vec<DataValue> = Vec::new();
    let mut k: usize = 0;
    while k < v.len()
        invariant
            k <= v.len(),
            vals(out@) =~= vals(v@.take(k as int)),
            out@.len() == k,
        decreases v.len() - k,
    {
        out.push(v[k].dup());
        k = k + 1;
        assert forall|j: int| 0 <= j < k implies vals(out@)[j] == vals(v@.take(k as int))[j] by {
            if j < k - 1 {
                assert(vals(out@.drop_last())[j] == vals(v@.take(k - 1))[j]);
            }
        }
        assert(vals(out@) =~= vals(v@.take(k as int)));
    }
    assert(v@.take(v.len() as int) =~= v@);
    out
}

impl Tuple {
    /// A copy of the tuple.
    pub fn dup(&self) -> (r: Tuple)
        ensures
            r@ == self@,
    {
        Tuple(dup_values(&self.0))
    }

    /// The tuple followed by the values of `other`.
    pub fn concat(&self, other: &Vec<DataValue>) -> (r: Tuple)
        ensures
            r@ == self@ + vals(other@),
    {
        let mut out = dup_values(&self.0);
        let mut k: usize = 0;
        while k < other.len()
            invariant
                k <= other.len(),
                vals(out@) =~= self@ + vals(other@.take(k as int)),
            decreases other.len() - k,
        {
            let ghost prev = out@;
            out.push(other[k].dup());
            k = k + 1;
            proof {
                lemma_vals_push(prev, out@.last());
                assert(out@ == prev.push(out@.last()));
                lemma_vals_take(other@, k - 1);
                assert(vals(out@) =~= self@ + vals(other@.take(k as int)));
            }
        }
        assert(other@.take(other.len() as int) =~= other@);
        Tuple(out)
    }
}

/// Removes from the tuple the columns at `eliminate_indices`, keeping the order
/// of the others.
pub fn eliminate_from_tuple(ret: Tuple, eliminate_indices: &Vec<usize>) -> (r: Tuple)
    ensures
        r@ == drop_at(ret@, index_set(eliminate_indices@)),
{
    let ghost gone = index_set(eliminate_indices@);
    if eliminate_indices.len() == 0 {
        assert(drop_at(ret@, gone) == ret@) by {
            lemma_drop_nothing(ret@, gone);
        }
        return ret;
    }
    let mut out: Vec<DataValue> = Vec::new();
    let mut i: usize = 0;
    while i < ret.0.len()
        invariant
            i <= ret.0.len(),
            gone == index_set(eliminate_indices@),
            vals(out@) == drop_at(ret@.take(i as int), gone),
        decreases ret.0.len() - i,
    {
        assert(ret@.take(i as int + 1).drop_last() =~= ret@.take(i as int));
        if !has_index(eliminate_indices, i) {
            out.push(ret.0[i].dup());
            assert(vals(out@) =~= drop_at(ret@.take(i as int), gone).push(ret@[i as int]));
        }
        i = i + 1;
    }
    assert(ret@.take(i as int) =~= ret@);
    Tuple(out)
}

/// With no position in range dropped, `drop_at` is the identity.
pub proof fn lemma_drop_nothing<A>(s: Seq<A>, gone: Set<int>)
    requires
        forall|i: int| 0 <= i < s.len() ==> !gone.contains(i),
    ensures
        drop_at(s, gone) == s,
    decreases s.len(),
{
    if s.len() > 0 {
        lemma_drop_nothing(s.drop_last(), gone);
        assert(s.drop_last().push(s.last()) =~= s);
    }
}

/// The positions of `bindings` whose symbol is in `eliminate`, ascending.
pub fn get_eliminate_indices(bindings: &Vec<Symbol>, eliminate: &Vec<Symbol>) -> (r: Vec<usize>)
    ensures
        index_set(r@) == positions_of(bindings@, eliminate@),
        forall|k: int| 0 <= k < r@.len() ==> r@[k] < bindings@.len(),
{
    let mut out: Vec<usize> = Vec::new();
    let mut i: usize = 0;
    while i < bindings.len()
        invariant
            i <= bindings.len(),
            forall|k: int| 0 <= k < out@.len() ==> out@[k] < i,
            forall|j: usize| #[trigger] out@.contains(j) <==> (j < i && eliminate@.contains(bindings@[j as int])),
        decreases bindings.len() - i,
    {
        let ghost prev = out@;
        if has_symbol(eliminate, bindings[i]) {
            out.push(i);
            assert forall|j: usize| #[trigger] out@.contains(j) <==> (prev.contains(j) || j == i) by {
                if out@.contains(j) {
                    let k = choose|k: int| 0 <= k < out@.len() && out@[k] == j;
                    if k < prev.len() {
                        assert(prev[k] == j);
                    }
                }
                if prev.contains(j) {
                    let k = choose|k: int| 0 <= k < prev.len() && prev[k] == j;
                    assert(out@[k] == j);
                }
                if j == i {
                    assert(out@[out@.len() - 1] == j);
                }
            }
        }
        i = i + 1;
    }
    assert forall|k: int| index_set(out@).contains(k) <==> positions_of(bindings@, eliminate@).contains(k) by {
        if 0 <= k < bindings@.len() {
            assert(out@.contains(k as usize) <==> eliminate@.contains(bindings@[k]));
        }
    }
    assert(index_set(out@) =~= positions_of(bindings@, eliminate@));
    out
}

} // verus!
