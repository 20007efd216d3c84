use relalg::error::{QueryError, SourceSpan};
use relalg::expr::{CmpOp, Expr, compute_single_bound};
use relalg::relation::RelAlgebra;
use relalg::store::{Attribute, DerivedRelStore, RelationMetadata, SessionTx, TripleRow};
use relalg::tuple::Tuple;
use relalg::value::{DataValue, Symbol};

const NAME: u64 = 10;
const AGE: u64 = 11;
const PARENT: u64 = 12;

fn sym(id: u64) -> Symbol {
    Symbol { id }
}

fn span() -> SourceSpan {
    SourceSpan(0, 0)
}

fn name_attr() -> Attribute {
    Attribute { id: NAME, name: "name".to_string(), with_history: false, is_ref: false, indexed: true }
}

fn age_attr() -> Attribute {
    Attribute { id: AGE, name: "age".to_string(), with_history: false, is_ref: false, indexed: false }
}

fn parent_attr() -> Attribute {
    Attribute { id: PARENT, name: "parent".to_string(), with_history: false, is_ref: true, indexed: false }
}

fn fact(entity: u64, attr: u64, value: DataValue) -> TripleRow {
    TripleRow { entity, attr, value, vld: 0 }
}

fn s(text: &str) -> DataValue {
    DataValue::Str(text.to_string())
}

fn people() -> SessionTx {
    SessionTx {
        triples: vec![
            fact(1, NAME, s("A")),
            fact(2, NAME, s("B")),
            fact(1, AGE, DataValue::Int(30)),
            fact(2, AGE, DataValue::Int(40)),
        ],
        relations: vec![],
    }
}

fn var(id: u64) -> Expr {
    Expr::Binding { var: sym(id), tuple_pos: None }
}

fn constant(v: DataValue) -> Expr {
    Expr::Const { val: v }
}

fn cmp(op: CmpOp, a: Expr, b: Expr) -> Expr {
    Expr::Compare { op, left: Box::new(a), right: Box::new(b) }
}

fn sorted(rows: &[Tuple]) -> Vec<String> {
    let mut out: Vec<String> = rows.iter().map(|t| format!("{:?}", t.0)).collect();
    out.sort();
    out
}

fn expect(rows: &[Tuple], want: Vec<Vec<DataValue>>) {
    let want: Vec<Tuple> = want.into_iter().map(Tuple).collect();
    assert_eq!(sorted(rows), sorted(&want));
}

fn prepare(mut ra: RelAlgebra, used: Vec<Symbol>) -> RelAlgebra {
    ra.eliminate_temp_vars(&used).unwrap();
    ra.fill_normal_binding_indices().unwrap();
    ra
}

#[test]
fn equality_join_on_entity() {
    let (e, n, e2, a) = (sym(1), sym(2), sym(3), sym(4));
    let mut names = RelAlgebra::unit().cartesian_join(RelAlgebra::triple(name_attr(), 0, e, n, span()));
    names.get_filters().unwrap().push(cmp(CmpOp::Eq, var(2), constant(s("A"))));
    let q = names.join(RelAlgebra::triple(age_attr(), 0, e2, a, span()), vec![e], vec![e2]);
    let q = prepare(q, vec![e, n, a]);
    assert_eq!(q.bindings_after_eliminate(), vec![e, n, a]);
    let rows = q.iter(&people(), None, &vec![]).unwrap();
    expect(&rows, vec![vec![DataValue::Entity(1), s("A"), DataValue::Int(30)]]);
}

#[test]
fn negation_by_stored_relation() {
    let (e, n, r) = (sym(1), sym(2), sym(3));
    let mut tx = people();
    tx.relations.push(vec![Tuple(vec![DataValue::Entity(1)])]);
    let stored = RelAlgebra::relation(vec![r], RelationMetadata { id: 0, name: "R".to_string() });
    let q = RelAlgebra::unit()
        .cartesian_join(RelAlgebra::triple(name_attr(), 0, e, n, span()))
        .neg_join(stored, vec![e], vec![r]);
    let q = prepare(q, vec![e, n]);
    let rows = q.iter(&tx, None, &vec![]).unwrap();
    expect(&rows, vec![vec![DataValue::Entity(2), s("B")]]);
}

#[test]
fn spread_unification_over_unit() {
    let x = sym(1);
    let list = Expr::List { items: vec![DataValue::Int(1), DataValue::Int(2), DataValue::Int(3)] };
    let q = prepare(RelAlgebra::unit().unify(x, list, true, span()), vec![x]);
    let rows = q.iter(&people(), None, &vec![]).unwrap();
    assert_eq!(
        rows,
        vec![
            Tuple(vec![DataValue::Int(1)]),
            Tuple(vec![DataValue::Int(2)]),
            Tuple(vec![DataValue::Int(3)]),
        ]
    );
}

fn ages() -> SessionTx {
    SessionTx {
        triples: vec![
            fact(1, AGE, DataValue::Int(30)),
            fact(2, AGE, DataValue::Int(40)),
            fact(3, AGE, DataValue::Int(50)),
        ],
        relations: vec![],
    }
}

#[test]
fn range_pushdown_without_bound_entity() {
    let (e, a) = (sym(1), sym(2));
    let attr = age_attr();
    let gt = cmp(CmpOp::Gt, var(2), constant(DataValue::Int(31)));
    let bound = compute_single_bound(&vec![cmp(CmpOp::Gt, var(2), constant(DataValue::Int(31)))], a);
    assert_eq!(bound, Some((DataValue::Int(31), DataValue::Bot)));
    let mut q = RelAlgebra::unit().cartesian_join(RelAlgebra::triple(attr, 0, e, a, span()));
    q.get_filters().unwrap().push(gt);
    let q = prepare(q, vec![a]);
    let rows = q.iter(&ages(), None, &vec![]).unwrap();
    expect(&rows, vec![vec![DataValue::Int(40)], vec![DataValue::Int(50)]]);
}

#[test]
fn range_pushdown_with_bound_entity() {
    let (e, e2, a) = (sym(1), sym(3), sym(2));
    let ents = RelAlgebra::Fixed(relalg::relation::InlineFixedRA {
        bindings: vec![e],
        data: vec![
            Tuple(vec![DataValue::Entity(1)]),
            Tuple(vec![DataValue::Entity(2)]),
            Tuple(vec![DataValue::Entity(3)]),
        ],
        to_eliminate: vec![],
    });
    let mut q = ents.join(RelAlgebra::triple(age_attr(), 0, e2, a, span()), vec![e], vec![e2]);
    q.get_filters().unwrap().push(cmp(CmpOp::Gt, var(2), constant(DataValue::Int(31))));
    let q = prepare(q, vec![a]);
    assert_eq!(q.bindings_after_eliminate(), vec![a]);
    let rows = q.iter(&ages(), None, &vec![]).unwrap();
    expect(&rows, vec![vec![DataValue::Int(40)], vec![DataValue::Int(50)]]);
}

#[test]
fn elimination_keeps_one_column() {
    let (e, n, e2, a, e3, p) = (sym(1), sym(2), sym(3), sym(4), sym(5), sym(6));
    let mut tx = people();
    tx.triples.push(fact(2, PARENT, DataValue::Entity(1)));
    let q = RelAlgebra::unit()
        .cartesian_join(RelAlgebra::triple(name_attr(), 0, e, n, span()))
        .join(RelAlgebra::triple(age_attr(), 0, e2, a, span()), vec![e], vec![e2])
        .join(RelAlgebra::triple(parent_attr(), 0, e3, p, span()), vec![e], vec![e3]);
    let q = prepare(q, vec![n]);
    assert_eq!(q.bindings_after_eliminate(), vec![n]);
    if let RelAlgebra::Join(j) = &q {
        let inner = j.left.bindings_after_eliminate();
        assert!(!inner.contains(&a));
        assert!(!inner.contains(&e2));
    } else {
        panic!("expected a join at the root");
    }
    let rows = q.iter(&tx, None, &vec![]).unwrap();
    expect(&rows, vec![vec![s("B")]]);
}

fn derived(id: u64, epochs: Vec<Vec<i64>>) -> DerivedRelStore {
    DerivedRelStore {
        id,
        rule_name: format!("r{}", id),
        epochs: epochs
            .into_iter()
            .map(|rows| rows.into_iter().map(|v| Tuple(vec![DataValue::Int(v)])).collect())
            .collect(),
    }
}

#[test]
fn recursive_delta_reads_previous_epoch() {
    let x = sym(1);
    let r = RelAlgebra::derived(vec![x], derived(7, vec![vec![1, 2, 3], vec![3], vec![]]));
    let rows = r.iter(&people(), Some(2), &vec![7]).unwrap();
    expect(&rows, vec![vec![DataValue::Int(3)]]);
    let other = RelAlgebra::derived(vec![x], derived(8, vec![vec![1, 2, 3], vec![3], vec![]]));
    let rows = other.iter(&people(), Some(2), &vec![7]).unwrap();
    expect(&rows, vec![vec![DataValue::Int(1)], vec![DataValue::Int(2)], vec![DataValue::Int(3)]]);
}

#[test]
fn first_delta_epoch_is_empty() {
    let x = sym(1);
    let r = RelAlgebra::derived(vec![x], derived(7, vec![vec![1, 2, 3]]));
    assert!(r.iter(&people(), Some(0), &vec![7]).unwrap().is_empty());
    let q = RelAlgebra::unit().cartesian_join(RelAlgebra::derived(vec![x], derived(7, vec![vec![1, 2, 3]])));
    assert!(q.iter(&people(), Some(0), &vec![7]).unwrap().is_empty());
    assert_eq!(r.iter(&people(), None, &vec![7]).unwrap().len(), 3);
}

#[test]
fn derived_prefix_join_on_key() {
    let (x, y, k, v) = (sym(1), sym(2), sym(3), sym(4));
    let pairs = DerivedRelStore {
        id: 9,
        rule_name: "pairs".to_string(),
        epochs: vec![vec![
            Tuple(vec![DataValue::Int(1), DataValue::Int(10)]),
            Tuple(vec![DataValue::Int(2), DataValue::Int(20)]),
            Tuple(vec![DataValue::Int(1), DataValue::Int(11)]),
        ]],
    };
    let left = RelAlgebra::Fixed(relalg::relation::InlineFixedRA {
        bindings: vec![x, y],
        data: vec![Tuple(vec![DataValue::Int(1), s("a")]), Tuple(vec![DataValue::Int(3), s("c")])],
        to_eliminate: vec![],
    });
    let q = left.join(RelAlgebra::derived(vec![k, v], pairs), vec![x], vec![k]);
    let q = prepare(q, vec![y, v]);
    let rows = q.iter(&people(), None, &vec![]).unwrap();
    expect(&rows, vec![vec![s("a"), DataValue::Int(10)], vec![s("a"), DataValue::Int(11)]]);
}

#[test]
fn stored_join_off_prefix_is_materialized() {
    let (x, k, v) = (sym(1), sym(3), sym(4));
    let mut tx = people();
    tx.relations.push(vec![
        Tuple(vec![DataValue::Int(10), DataValue::Int(1)]),
        Tuple(vec![DataValue::Int(20), DataValue::Int(2)]),
    ]);
    let left = RelAlgebra::Fixed(relalg::relation::InlineFixedRA {
        bindings: vec![x],
        data: vec![Tuple(vec![DataValue::Int(2)])],
        to_eliminate: vec![],
    });
    let stored = RelAlgebra::relation(vec![k, v], RelationMetadata { id: 0, name: "S".to_string() });
    let q = left.join(stored, vec![x], vec![v]);
    let q = prepare(q, vec![x, k]);
    let rows = q.iter(&tx, None, &vec![]).unwrap();
    expect(&rows, vec![vec![DataValue::Int(2), DataValue::Int(20)]]);
}

#[test]
fn value_join_by_index_and_by_reference() {
    let (n, e, nn, c, p) = (sym(1), sym(2), sym(3), sym(4), sym(5));
    let mut tx = people();
    tx.triples.push(fact(2, PARENT, DataValue::Entity(1)));
    let wanted = RelAlgebra::Fixed(relalg::relation::InlineFixedRA {
        bindings: vec![n],
        data: vec![Tuple(vec![s("B")])],
        to_eliminate: vec![],
    });
    let q = wanted.join(RelAlgebra::triple(name_attr(), 0, e, nn, span()), vec![n], vec![nn]);
    let q = prepare(q, vec![e]);
    expect(&q.iter(&tx, None, &vec![]).unwrap(), vec![vec![DataValue::Entity(2)]]);

    let parents = RelAlgebra::Fixed(relalg::relation::InlineFixedRA {
        bindings: vec![p],
        data: vec![Tuple(vec![DataValue::Entity(1)])],
        to_eliminate: vec![],
    });
    let q = parents.join(RelAlgebra::triple(parent_attr(), 0, c, sym(6), span()), vec![p], vec![sym(6)]);
    let q = prepare(q, vec![c]);
    expect(&q.iter(&tx, None, &vec![]).unwrap(), vec![vec![DataValue::Entity(2)]]);
}

#[test]
fn value_join_without_index() {
    let (a, e, aa) = (sym(1), sym(2), sym(3));
    let wanted = RelAlgebra::Fixed(relalg::relation::InlineFixedRA {
        bindings: vec![a],
        data: vec![Tuple(vec![DataValue::Int(40)])],
        to_eliminate: vec![],
    });
    let q = wanted.join(RelAlgebra::triple(age_attr(), 0, e, aa, span()), vec![a], vec![aa]);
    let q = prepare(q, vec![a, e, aa]);
    let rows = q.iter(&people(), None, &vec![]).unwrap();
    expect(&rows, vec![vec![DataValue::Int(40), DataValue::Entity(2), DataValue::Int(40)]]);
}

#[test]
fn history_scan_observes_validity() {
    let (e, a) = (sym(1), sym(2));
    let mut attr = age_attr();
    attr.with_history = true;
    let tx = SessionTx {
        triples: vec![
            TripleRow { entity: 1, attr: AGE, value: DataValue::Int(30), vld: 5 },
            TripleRow { entity: 2, attr: AGE, value: DataValue::Int(40), vld: 50 },
        ],
        relations: vec![],
    };
    let q = RelAlgebra::triple(attr, 10, e, a, span());
    let rows = q.iter(&tx, None, &vec![]).unwrap();
    expect(&rows, vec![vec![DataValue::Entity(1), DataValue::Int(30)]]);
}

#[test]
fn entity_position_rejects_other_values() {
    let (x, e, a) = (sym(1), sym(2), sym(3));
    let left = RelAlgebra::Fixed(relalg::relation::InlineFixedRA {
        bindings: vec![x],
        data: vec![Tuple(vec![DataValue::Int(7)])],
        to_eliminate: vec![],
    });
    let q = prepare(left.join(RelAlgebra::triple(age_attr(), 0, e, a, span()), vec![x], vec![e]), vec![x, a]);
    match q.iter(&people(), None, &vec![]) {
        Err(QueryError::EntityIdExpected(v, _)) => assert_eq!(v, DataValue::Int(7)),
        other => panic!("unexpected {:?}", other),
    }
}

#[test]
fn spread_of_a_scalar_fails() {
    let x = sym(1);
    let q = prepare(RelAlgebra::unit().unify(x, constant(DataValue::Int(3)), true, SourceSpan(4, 9)), vec![x]);
    match q.iter(&people(), None, &vec![]) {
        Err(QueryError::BadSpreadUnification(sp)) => assert_eq!(sp, SourceSpan(4, 9)),
        other => panic!("unexpected {:?}", other),
    }
}

#[test]
fn list_in_scalar_unification_fails() {
    let x = sym(1);
    let list = Expr::List { items: vec![DataValue::Int(1)] };
    let q = prepare(RelAlgebra::unit().unify(x, list, false, span()), vec![x]);
    assert!(matches!(q.iter(&people(), None, &vec![]), Err(QueryError::ListNotScalar)));
}

#[test]
fn non_boolean_predicate_fails() {
    let (e, n) = (sym(1), sym(2));
    let q = RelAlgebra::triple(name_attr(), 0, e, n, span()).filter(constant(DataValue::Int(1)));
    let q = prepare(q, vec![e, n]);
    assert!(matches!(q.iter(&people(), None, &vec![]), Err(QueryError::NotABoolean)));
}

#[test]
fn unresolved_variable_fails() {
    let (e, n) = (sym(1), sym(2));
    let mut q = RelAlgebra::triple(name_attr(), 0, e, n, span()).filter(cmp(CmpOp::Eq, var(99), constant(s("A"))));
    assert!(matches!(q.fill_normal_binding_indices(), Err(QueryError::UnboundVariable(v)) if v == sym(99)));
    assert!(matches!(q.iter(&people(), None, &vec![]), Err(QueryError::UnboundVariable(_))));
}

#[test]
fn unify_computes_a_column() {
    let (e, a, b) = (sym(1), sym(2), sym(3));
    let q = RelAlgebra::triple(age_attr(), 0, e, a, span()).unify(b, cmp(CmpOp::Ge, var(2), constant(DataValue::Int(35))), false, span());
    let q = prepare(q, vec![a, b]);
    assert_eq!(q.bindings_after_eliminate(), vec![a, b]);
    let rows = q.iter(&people(), None, &vec![]).unwrap();
    expect(
        &rows,
        vec![vec![DataValue::Int(30), DataValue::Bool(false)], vec![DataValue::Int(40), DataValue::Bool(true)]],
    );
}

#[test]
fn string_order_in_filters() {
    let (e, n) = (sym(1), sym(2));
    let q = RelAlgebra::triple(name_attr(), 0, e, n, span()).filter(cmp(CmpOp::Lt, var(2), constant(s("AB"))));
    let q = prepare(q, vec![n]);
    expect(&q.iter(&people(), None, &vec![]).unwrap(), vec![vec![s("A")]]);
}

#[test]
fn off_prefix_join_filters_joined_tuples() {
    let (a, x, y) = (sym(1), sym(2), sym(3));
    let left = RelAlgebra::Fixed(relalg::relation::InlineFixedRA {
        bindings: vec![a],
        data: vec![Tuple(vec![DataValue::Int(10)])],
        to_eliminate: vec![],
    });
    let store = DerivedRelStore {
        id: 4,
        rule_name: "pairs".to_string(),
        epochs: vec![vec![
            Tuple(vec![DataValue::Int(1), DataValue::Int(10)]),
            Tuple(vec![DataValue::Int(7), DataValue::Int(10)]),
            Tuple(vec![DataValue::Int(9), DataValue::Int(11)]),
        ]],
    };
    let mut q = left.join(RelAlgebra::derived(vec![x, y], store), vec![a], vec![y]);
    q.get_filters().unwrap().push(cmp(CmpOp::Gt, var(2), constant(DataValue::Int(5))));
    let q = prepare(q, vec![a, x, y]);
    let rows = q.iter(&people(), None, &vec![]).unwrap();
    assert_eq!(rows, vec![Tuple(vec![DataValue::Int(10), DataValue::Int(7), DataValue::Int(10)])]);
}
