//! The stores that queries read: the triple store with its attributes, stored
//! relations, and derived relations kept per epoch.
use vstd::prelude::*;
use crate::tuple::{Tuple, rows, vals};
use crate::value::{DataValue, Val, val_within};

verus! {

/// Metadata of an attribute.
pub struct Attribute {
    pub id: u64,
    pub name: String,
    /// Facts of this attribute carry a validity, and scans observe them as of a time.
    pub with_history: bool,
    /// Values of this attribute are entity ids.
    pub is_ref: bool,
    /// Values of this attribute are indexed.
    pub indexed: bool,
}

/// One fact `(entity, attribute, value)`, valid from `vld` on.
pub struct TripleRow {
    pub entity: u64,
    pub attr: u64,
    pub value: DataValue,
    pub vld: i64,
}

/// What a scan of the triple store selects: facts of one attribute, optionally
/// of one entity, with one value or a value in a closed range, and optionally
/// only those valid as of a time.
pub struct TripleScan {
    pub attr: u64,
    pub entity: Option<u64>,
    pub value: Option<DataValue>,
    pub range: Option<(DataValue, DataValue)>,
    pub as_of: Option<i64>,
}

/// The mathematical model of a `TripleScan`.
pub struct TripleQuery {
    pub attr: u64,
    pub entity: Option<u64>,
    pub value: Option<Val>,
    pub range: Option<(Val, Val)>,
    pub as_of: Option<i64>,
}

impl View for TripleScan {
    type V = TripleQuery;

    open spec fn view(&self) -> TripleQuery {
        TripleQuery {
            attr: self.attr,
            entity: self.entity,
            value: match self.value {
                Some(v) => Some(v@),
                None => None,
            },
            range: match self.range {
                Some(b) => Some((b.0@, b.1@)),
                None => None,
            },
            as_of: self.as_of,
        }
    }
}

pub open spec fn triple_selected(t: TripleRow, q: TripleQuery) -> bool {
    &&& t.attr == q.attr
    &&& (q.entity matches Some(e) ==> t.entity == e)
    &&& (q.value matches Some(v) ==> t.value@ == v)
    &&& (q.range matches Some(b) ==> val_within(t.value@, b.0, b.1))
    &&& (q.as_of matches Some(at) ==> t.vld <= at)
}

/// The fact as a two-column tuple `[entity, value]`.
pub open spec fn fact_row(t: TripleRow) -> Seq<Val> {
    seq![Val::Entity(t.entity as nat), t.value@]
}

/// The facts that a scan selects, as `[entity, value]` tuples in store order.
pub open spec fn triple_hits(ts: Seq<TripleRow>, q: TripleQuery) -> Seq<Seq<Val>>
    decreases ts.len(),
{
    if ts.len() == 0 {
        Seq::empty()
    } else if triple_selected(ts.last(), q) {
        triple_hits(ts.drop_last(), q).push(fact_row(ts.last()))
    } else {
        triple_hits(ts.drop_last(), q)
    }
}

/// A row of a stored or derived relation starts with `prefix`, and the columns
/// after it lie within `lo` and `hi`, one pair of bounds per column.
pub open spec fn row_in_range(r: Seq<Val>, prefix: Seq<Val>, lo: Seq<Val>, hi: Seq<Val>) -> bool {
    &&& prefix.len() <= r.len()
    &&& r.take(prefix.len() as int) == prefix
    &&& forall|j: int| 0 <= j < lo.len() && j < hi.len() ==> #[trigger] column_within(r, prefix.len() as int, lo, hi, j)
}

/// Column `from + j` of `r` exists and lies within the `j`-th bounds.
pub open spec fn column_within(r: Seq<Val>, from: int, lo: Seq<Val>, hi: Seq<Val>, j: int) -> bool {
    from + j < r.len() && val_within(r[from + j], lo[j], hi[j])
}

/// The rows of `rs` in range, in order.
pub open spec fn rows_in_range(rs: Seq<Seq<Val>>, prefix: Seq<Val>, lo: Seq<Val>, hi: Seq<Val>) -> Seq<Seq<Val>> {
    rs.filter(|r: Seq<Val>| row_in_range(r, prefix, lo, hi))
}

pub proof fn lemma_rows_take(s: Seq<Tuple>, k: int)
    requires
        0 <= k < s.len(),
    ensures
        rows(s.take(k + 1)) == rows(s.take(k)).push(s[k]@),
{
    assert(rows(s.take(k + 1)) =~= rows(s.take(k)).push(s[k]@));
}

pub proof fn lemma_rows_push(s: Seq<Tuple>, x: Tuple)
    ensures
        rows(s.push(x)) == rows(s).push(x@),
{
    assert(rows(s.push(x)) =~= rows(s).push(x@));
}

fn values_within(r: &Tuple, from: usize, lo: &Vec<DataValue>, hi: &Vec<DataValue>) -> (ok: bool)
    requires
        from <= r@.len(),
    ensures
        ok == (forall|j: int| 0 <= j < lo@.len() && j < hi@.len() ==> #[trigger] column_within(r@, from as int, vals(lo@), vals(hi@), j)),
{
    let mut j: usize = 0;
    while j < lo.len() && j < hi.len()
        invariant
            from <= r@.len(),
            r@.len() == r.0@.len(),
            forall|k: int| 0 <= k < j ==> #[trigger] column_within(r@, from as int, vals(lo@), vals(hi@), k),
        decreases lo.len() - j,
    {
        if j >= r.0.len() - from {
            assert(!column_within(r@, from as int, vals(lo@), vals(hi@), j as int));
            return false;
        }
        let v = &r.0[from + j];
        if !(lo[j].at_most(v) && v.at_most(&hi[j])) {
            assert(!column_within(r@, from as int, vals(lo@), vals(hi@), j as int));
            return false;
        }
        assert(column_within(r@, from as int, vals(lo@), vals(hi@), j as int));
        j = j + 1;
    }
    true
}

fn has_prefix(r: &Tuple, prefix: &Vec<DataValue>) -> (ok: bool)
    ensures
        ok == (prefix@.len() <= r@.len() && r@.take(prefix@.len() as int) == vals(prefix@)),
{
    if prefix.len() > r.0.len() {
        return false;
    }
    let mut j: usize = 0;
    while j < prefix.len()
        invariant
            prefix@.len() <= r@.len(),
            r@.len() == r.0@.len(),
            forall|k: int| 0 <= k < j ==> r@[k] == prefix@[k]@,
        decreases prefix.len() - j,
    {
        if !r.0[j].same_as(&prefix[j]) {
            assert(r@.take(prefix@.len() as int)[j as int] != vals(prefix@)[j as int]);
            return false;
        }
        j = j + 1;
    }
    assert(r@.take(prefix@.len() as int) =~= vals(prefix@));
    true
}

/// The rows of `src` that start with `prefix` and whose following columns lie
/// within `lo` and `hi`, in order.
pub fn select_rows(src: &Vec<Tuple>, prefix: &Vec<DataValue>, lo: &Vec<DataValue>, hi: &Vec<DataValue>) -> (r: Vec<Tuple>)
    ensures
        rows(r@) == rows_in_range(rows(src@), vals(prefix@), vals(lo@), vals(hi@)),
{
    let ghost p = |x: Seq<Val>| row_in_range(x, vals(prefix@), vals(lo@), vals(hi@));
    let mut out: Vec<Tuple> = Vec::new();
    let mut i: usize = 0;
    while i < src.len()
        invariant
            i <= src.len(),
            p == (|x: Seq<Val>| row_in_range(x, vals(prefix@), vals(lo@), vals(hi@))),
            rows(out@) == rows(src@.take(i as int)).filter(p),
        decreases src.len() - i,
    {
        proof {
            lemma_rows_take(src@, i as int);
            reveal(Seq::filter);
            assert(rows(src@.take(i as int + 1)).drop_last() =~= rows(src@.take(i as int)));
        }
        let row = &src[i];
        let mut keep = has_prefix(row, prefix);
        if keep {
            keep = values_within(row, prefix.len(), lo, hi);
        }
        assert(keep == row_in_range(row@, vals(prefix@), vals(lo@), vals(hi@))) by {
            assert(vals(lo@).len() == lo@.len());
            assert(vals(hi@).len() == hi@.len());
            assert(vals(prefix@).len() == prefix@.len());
        }
        if keep {
            let ghost prev = out@;
            out.push(row.dup());
            proof { lemma_rows_push(prev, out@.last()); assert(out@ == prev.push(out@.last())); }
        }
        i = i + 1;
    }
    assert(src@.take(src.len() as int) =~= src@);
    out
}

/// Handle of a stored relation: the position of its table in the store.
pub struct RelationMetadata {
    pub id: usize,
    pub name: String,
}

/// A derived relation, its rows kept per epoch of a recursive evaluation.
pub struct DerivedRelStore {
    pub id: u64,
    pub rule_name: String,
    pub epochs: Vec<Vec<Tuple>>,
}

/// The rows that a derived relation holds for an epoch; none past its last.
pub open spec fn epoch_rows(d: DerivedRelStore, epoch: int) -> Seq<Seq<Val>> {
    if 0 <= epoch < d.epochs@.len() {
        rows(d.epochs@[epoch]@)
    } else {
        Seq::empty()
    }
}

/// The store that a query reads: facts and the tables of stored relations.
pub struct SessionTx {
    pub triples: Vec<TripleRow>,
    pub relations: Vec<Vec<Tuple>>,
}

impl SessionTx {
    /// The facts that `q` selects, as `[entity, value]` tuples in store order.
    pub fn scan_triples(&self, q: &TripleScan) -> (r: Vec<Tuple>)
        ensures
            rows(r@) == triple_hits(self.triples@, q@),
    {
        let mut out: Vec<Tuple> = Vec::new();
        let mut i: usize = 0;
        while i < self.triples.len()
            invariant
                i <= self.triples.len(),
                rows(out@) == triple_hits(self.triples@.take(i as int), q@),
            decreases self.triples.len() - i,
        {
            assert(self.triples@.take(i as int + 1).drop_last() =~= self.triples@.take(i as int));
            let t = &self.triples[i];
            let mut hit = t.attr == q.attr;
            match q.entity {
                Some(e) => if t.entity != e { hit = false; },
                None => {},
            }
            match &q.value {
                Some(v) => if !t.value.same_as(v) { hit = false; },
                None => {},
            }
            match &q.range {
                Some(b) => if !(b.0.at_most(&t.value) && t.value.at_most(&b.1)) { hit = false; },
                None => {},
            }
            match q.as_of {
                Some(at) => if t.vld > at { hit = false; },
                None => {},
            }
            if hit {
                let ghost prev = out@;
                let f = Tuple(vec![DataValue::Entity(t.entity), t.value.dup()]);
                assert(f@ =~= fact_row(*t));
                out.push(f);
                proof { lemma_rows_push(prev, out@.last()); assert(out@ == prev.push(out@.last())); }
            }
            i = i + 1;
        }
        assert(self.triples@.take(i as int) =~= self.triples@);
        out
    }

    /// Whether `q` selects some fact.
    pub fn any_triple(&self, q: &TripleScan) -> (r: bool)
        ensures
            r == (triple_hits(self.triples@, q@).len() > 0),
    {
        self.scan_triples(q).len() > 0
    }
}

/// Filtering with no prefix and no bounds keeps every row.
pub proof fn lemma_range_all(rs: Seq<Seq<Val>>)
    ensures
        rows_in_range(rs, Seq::empty(), Seq::empty(), Seq::empty()) == rs,
    decreases rs.len(),
{
    reveal(Seq::filter);
    if rs.len() > 0 {
        lemma_range_all(rs.drop_last());
        assert(rs.last().take(0) =~= Seq::<Val>::empty());
        assert(rs.drop_last().push(rs.last()) =~= rs);
    }
}

} // verus!
