use relalg::error::SourceSpan;
use relalg::expr::{CmpOp, Expr, compute_single_bound, value_bounds};
use relalg::relation::{InlineFixedRA, RelAlgebra};
use relalg::store::{Attribute, RelationMetadata, SessionTx, TripleRow};
use relalg::tuple::{Tuple, eliminate_from_tuple, get_eliminate_indices};
use relalg::value::{DataValue, Symbol};

const NAME: u64 = 10;
const AGE: u64 = 11;

fn sym(id: u64) -> Symbol {
    Symbol { id }
}

fn span() -> SourceSpan {
    SourceSpan(0, 0)
}

fn attr(id: u64, indexed: bool) -> Attribute {
    Attribute { id, name: format!("a{}", id), with_history: false, is_ref: false, indexed }
}

fn s(text: &str) -> DataValue {
    DataValue::Str(text.to_string())
}

fn store() -> SessionTx {
    SessionTx {
        triples: vec![
            TripleRow { entity: 1, attr: NAME, value: s("A"), vld: 0 },
            TripleRow { entity: 2, attr: NAME, value: s("B"), vld: 0 },
            TripleRow { entity: 3, attr: NAME, value: s("C"), vld: 0 },
            TripleRow { entity: 1, attr: AGE, value: DataValue::Int(30), vld: 0 },
            TripleRow { entity: 2, attr: AGE, value: DataValue::Int(40), vld: 0 },
        ],
        relations: vec![vec![Tuple(vec![DataValue::Entity(1)])]],
    }
}

fn var(id: u64) -> Expr {
    Expr::Binding { var: sym(id), tuple_pos: None }
}

fn cmp(op: CmpOp, a: Expr, b: Expr) -> Expr {
    Expr::Compare { op, left: Box::new(a), right: Box::new(b) }
}

fn num(v: i64) -> Expr {
    Expr::Const { val: DataValue::Int(v) }
}

fn sorted(rows: &[Tuple]) -> Vec<String> {
    let mut out: Vec<String> = rows.iter().map(|t| format!("{:?}", t.0)).collect();
    out.sort();
    out
}

fn prepare(mut ra: RelAlgebra, used: Vec<Symbol>) -> RelAlgebra {
    ra.eliminate_temp_vars(&used).unwrap();
    ra.fill_normal_binding_indices().unwrap();
    ra
}

fn name_age_join() -> RelAlgebra {
    RelAlgebra::unit()
        .cartesian_join(RelAlgebra::triple(attr(NAME, true), 0, sym(1), sym(2), span()))
        .join(RelAlgebra::triple(attr(AGE, false), 0, sym(3), sym(4), span()), vec![sym(1)], vec![sym(3)])
}

#[test]
fn tuples_have_one_column_per_binding() {
    for used in [vec![sym(1), sym(2), sym(4)], vec![sym(2)], vec![sym(1), sym(2), sym(3), sym(4)]] {
        let q = prepare(name_age_join(), used);
        let width = q.bindings_after_eliminate().len();
        let rows = q.iter(&store(), None, &vec![]).unwrap();
        assert_eq!(rows.len(), 2);
        assert!(rows.iter().all(|r| r.0.len() == width));
    }
}

#[test]
fn output_bindings_are_produced_bindings() {
    let q = prepare(name_age_join(), vec![sym(2)]);
    let before = q.bindings_before_eliminate();
    let after = q.bindings_after_eliminate();
    assert_eq!(after, vec![sym(2)]);
    assert!(after.iter().all(|b| before.contains(b)));
    assert_eq!(before, vec![sym(1), sym(2), sym(3), sym(4)]);
}

#[test]
fn filled_expressions_point_at_their_columns() {
    let q = RelAlgebra::triple(attr(AGE, false), 0, sym(1), sym(2), span())
        .filter(cmp(CmpOp::Gt, var(2), num(0)));
    let q = prepare(q, vec![sym(1), sym(2)]);
    match &q {
        RelAlgebra::Filter(f) => match &f.pred[0] {
            Expr::Compare { left, .. } => match left.as_ref() {
                Expr::Binding { var, tuple_pos } => {
                    assert_eq!(*var, sym(2));
                    assert_eq!(*tuple_pos, Some(1));
                },
                _ => panic!("expected a variable"),
            },
            _ => panic!("expected a comparison"),
        },
        _ => panic!("expected a filter"),
    }
}

#[test]
fn join_bindings_have_no_duplicates() {
    let q = name_age_join();
    match &q {
        RelAlgebra::Join(j) => {
            let b = j.bindings();
            assert_eq!(b, vec![sym(1), sym(2), sym(3), sym(4)]);
            for (i, x) in b.iter().enumerate() {
                assert!(!b[i + 1..].contains(x));
            }
        },
        _ => panic!("expected a join"),
    }
}

#[test]
fn elimination_leaves_only_used_symbols() {
    for used in [vec![], vec![sym(4)], vec![sym(2), sym(4)], vec![sym(9)]] {
        let mut q = name_age_join();
        q.eliminate_temp_vars(&used).unwrap();
        assert!(q.bindings_after_eliminate().iter().all(|b| used.contains(b)));
    }
}

#[test]
fn unit_is_identity_for_cartesian_join() {
    let tx = store();
    let plain = prepare(RelAlgebra::triple(attr(NAME, true), 0, sym(1), sym(2), span()), vec![sym(1), sym(2)]);
    let joined = prepare(
        RelAlgebra::unit().cartesian_join(RelAlgebra::triple(attr(NAME, true), 0, sym(1), sym(2), span())),
        vec![sym(1), sym(2)],
    );
    assert_eq!(sorted(&plain.iter(&tx, None, &vec![]).unwrap()), sorted(&joined.iter(&tx, None, &vec![]).unwrap()));

    let filtered = || RelAlgebra::triple(attr(AGE, false), 0, sym(1), sym(2), span()).filter(cmp(CmpOp::Gt, var(2), num(35)));
    let plain = prepare(filtered(), vec![sym(1), sym(2)]);
    let joined = prepare(RelAlgebra::unit().cartesian_join(filtered()), vec![sym(1), sym(2)]);
    let a = plain.iter(&tx, None, &vec![]).unwrap();
    assert_eq!(a.len(), 1);
    assert_eq!(sorted(&a), sorted(&joined.iter(&tx, None, &vec![]).unwrap()));
}

#[test]
fn filters_commute() {
    let tx = store();
    let base = || RelAlgebra::triple(attr(AGE, false), 0, sym(1), sym(2), span());
    let p = || cmp(CmpOp::Gt, var(2), num(20));
    let q = || cmp(CmpOp::Lt, var(2), num(35));
    let pq = prepare(base().filter(p()).filter(q()), vec![sym(1), sym(2)]);
    let qp = prepare(base().filter(q()).filter(p()), vec![sym(1), sym(2)]);
    let a = pq.iter(&tx, None, &vec![]).unwrap();
    assert_eq!(a, vec![Tuple(vec![DataValue::Entity(1), DataValue::Int(30)])]);
    assert_eq!(a, qp.iter(&tx, None, &vec![]).unwrap());
}

#[test]
fn filter_commutes_with_reorder() {
    let tx = store();
    let base = || RelAlgebra::triple(attr(AGE, false), 0, sym(1), sym(2), span());
    let p = || cmp(CmpOp::Ge, var(2), num(40));
    let order = vec![sym(2), sym(1)];
    let mut a = base().filter(p()).reorder(order.clone());
    a.fill_normal_binding_indices().unwrap();
    let mut b = base().reorder(order).filter(p());
    b.fill_normal_binding_indices().unwrap();
    let ra = a.iter(&tx, None, &vec![]).unwrap();
    assert_eq!(ra, vec![Tuple(vec![DataValue::Int(40), DataValue::Entity(2)])]);
    assert_eq!(ra, b.iter(&tx, None, &vec![]).unwrap());
}

#[test]
fn negation_is_idempotent() {
    let tx = store();
    let names = || RelAlgebra::unit().cartesian_join(RelAlgebra::triple(attr(NAME, true), 0, sym(1), sym(2), span()));
    let r = || RelAlgebra::relation(vec![sym(5)], RelationMetadata { id: 0, name: "R".to_string() });
    let once = prepare(names().neg_join(r(), vec![sym(1)], vec![sym(5)]), vec![sym(1), sym(2)]);
    let twice = prepare(
        names().neg_join(r(), vec![sym(1)], vec![sym(5)]).neg_join(r(), vec![sym(1)], vec![sym(5)]),
        vec![sym(1), sym(2)],
    );
    let a = once.iter(&tx, None, &vec![]).unwrap();
    assert_eq!(a.len(), 2);
    assert_eq!(sorted(&a), sorted(&twice.iter(&tx, None, &vec![]).unwrap()));

    let ages = || RelAlgebra::triple(attr(AGE, false), 0, sym(6), sym(7), span());
    let once = prepare(names().neg_join(ages(), vec![sym(1)], vec![sym(6)]), vec![sym(1), sym(2)]);
    let twice = prepare(
        names().neg_join(ages(), vec![sym(1)], vec![sym(6)]).neg_join(ages(), vec![sym(1)], vec![sym(6)]),
        vec![sym(1), sym(2)],
    );
    let a = once.iter(&tx, None, &vec![]).unwrap();
    assert_eq!(a, vec![Tuple(vec![DataValue::Entity(3), s("C")])]);
    assert_eq!(a, twice.iter(&tx, None, &vec![]).unwrap());
}

#[test]
fn triple_of_empty_attribute_yields_nothing() {
    let tx = store();
    let t = RelAlgebra::triple(attr(99, true), 0, sym(1), sym(2), span());
    assert!(t.iter(&tx, None, &vec![]).unwrap().is_empty());
    let q = prepare(name_age_join().join(RelAlgebra::triple(attr(99, false), 0, sym(5), sym(6), span()), vec![sym(1)], vec![sym(5)]), vec![sym(2)]);
    assert!(q.iter(&tx, None, &vec![]).unwrap().is_empty());
}

#[test]
fn inline_rows_edge_cases() {
    let tx = store();
    let empty = RelAlgebra::Fixed(InlineFixedRA { bindings: vec![sym(8)], data: vec![], to_eliminate: vec![] });
    assert!(empty.iter(&tx, None, &vec![]).unwrap().is_empty());
    let q = name_age_join().cartesian_join(RelAlgebra::Fixed(InlineFixedRA { bindings: vec![sym(8)], data: vec![], to_eliminate: vec![] }));
    assert!(q.iter(&tx, None, &vec![]).unwrap().is_empty());

    let plain = prepare(name_age_join(), vec![sym(1), sym(2), sym(3), sym(4)]);
    let with_unit = prepare(name_age_join().cartesian_join(RelAlgebra::unit()), vec![sym(1), sym(2), sym(3), sym(4)]);
    assert_eq!(sorted(&plain.iter(&tx, None, &vec![]).unwrap()), sorted(&with_unit.iter(&tx, None, &vec![]).unwrap()));
    assert!(RelAlgebra::unit().is_unit());
    assert_eq!(RelAlgebra::unit().iter(&tx, None, &vec![]).unwrap(), vec![Tuple(vec![])]);
}

#[test]
fn open_bounds_mean_full_scan() {
    let tx = store();
    let no_bound = vec![cmp(CmpOp::Neq, var(2), num(0))];
    assert_eq!(compute_single_bound(&no_bound, sym(2)), None);
    assert_eq!(value_bounds(&no_bound, sym(2), &Tuple(vec![])), (DataValue::Null, DataValue::Bot));
    let mut q = RelAlgebra::unit().cartesian_join(RelAlgebra::triple(attr(AGE, true), 0, sym(1), sym(2), span()));
    q.get_filters().unwrap().push(cmp(CmpOp::Neq, var(2), num(0)));
    let q = prepare(q, vec![sym(2)]);
    assert_eq!(sorted(&q.iter(&tx, None, &vec![]).unwrap()), vec!["[Int(30)]".to_string(), "[Int(40)]".to_string()]);
}

#[test]
fn bounds_tighten_from_several_filters() {
    let fs = vec![
        cmp(CmpOp::Gt, var(2), num(10)),
        cmp(CmpOp::Ge, var(2), num(20)),
        cmp(CmpOp::Lt, num(50), var(2)),
        cmp(CmpOp::Le, var(2), num(90)),
        cmp(CmpOp::Lt, var(2), num(70)),
    ];
    assert_eq!(compute_single_bound(&fs, sym(2)), Some((DataValue::Int(50), DataValue::Int(70))));
    assert_eq!(compute_single_bound(&fs, sym(3)), None);
}

#[test]
fn eliminating_columns_of_a_tuple() {
    let t = Tuple(vec![DataValue::Int(1), DataValue::Int(2), DataValue::Int(3)]);
    assert_eq!(eliminate_from_tuple(t, &vec![0, 2]), Tuple(vec![DataValue::Int(2)]));
    let t = Tuple(vec![DataValue::Int(1)]);
    assert_eq!(eliminate_from_tuple(t, &vec![]), Tuple(vec![DataValue::Int(1)]));
    assert_eq!(get_eliminate_indices(&vec![sym(1), sym(2), sym(3)], &vec![sym(3), sym(1)]), vec![0, 2]);
}

#[test]
fn prefix_detection() {
    let d = relalg::relation::RelationRA {
        bindings: vec![sym(1), sym(2), sym(3)],
        storage: RelationMetadata { id: 0, name: "T".to_string() },
        filters: vec![],
    };
    assert!(d.join_is_prefix(&vec![1, 0]));
    assert!(d.join_is_prefix(&vec![]));
    assert!(!d.join_is_prefix(&vec![0, 2]));
    assert!(!d.join_is_prefix(&vec![1]));
}

#[test]
fn trees_render_as_text() {
    assert_eq!(RelAlgebra::unit().describe(), "Unit");
    let t = RelAlgebra::triple(attr(NAME, true), 0, sym(1), sym(2), span());
    assert_eq!(t.describe(), "Triple([?1, ?2], a10, [])");
    let j = RelAlgebra::unit().cartesian_join(RelAlgebra::triple(attr(NAME, true), 0, sym(1), sym(2), span()));
    assert_eq!(j.describe(), "Triple([?1, ?2], a10, [])");
    let f = RelAlgebra::triple(attr(AGE, false), 0, sym(1), sym(2), span()).filter(cmp(CmpOp::Gt, var(2), num(3)));
    assert_eq!(f.describe(), "Filter([?1, ?2], [(?2 > 3)], Triple([?1, ?2], a11, []))");
    let one = RelAlgebra::Fixed(InlineFixedRA { bindings: vec![sym(4)], data: vec![Tuple(vec![s("x")])], to_eliminate: vec![] });
    assert_eq!(one.describe(), "Singlet([?4], [\"x\"])");
    assert_eq!(DataValue::Entity(7).describe(), "#7");
}

#[test]
fn unit_join_keeps_filtered_derived_rows() {
    let tx = store();
    let rel = || relalg::store::DerivedRelStore {
        id: 3,
        rule_name: "d".to_string(),
        epochs: vec![(1..=6).map(|v| Tuple(vec![DataValue::Int(v), DataValue::Int(v * 10)])).collect()],
    };
    let filtered = || {
        let mut d = RelAlgebra::derived(vec![sym(1), sym(2)], rel());
        d.get_filters().unwrap().push(cmp(CmpOp::Ge, var(1), num(3)));
        d.get_filters().unwrap().push(cmp(CmpOp::Lt, var(2), num(60)));
        d
    };
    let plain = prepare(filtered(), vec![sym(1), sym(2)]);
    let joined = prepare(RelAlgebra::unit().cartesian_join(filtered()), vec![sym(1), sym(2)]);
    let a = plain.iter(&tx, None, &vec![]).unwrap();
    assert_eq!(sorted(&a), sorted(&joined.iter(&tx, None, &vec![]).unwrap()));
    assert_eq!(a.len(), 3);
}

#[test]
fn values_and_joins_render_as_text() {
    assert_eq!(DataValue::Int(-1205).describe(), "-1205");
    assert_eq!(DataValue::Int(i64::MIN).describe(), i64::MIN.to_string());
    assert_eq!(DataValue::Int(0).describe(), "0");
    assert_eq!(DataValue::Null.describe(), "Null");
    let j = name_age_join();
    assert_eq!(
        j.describe(),
        "Join([?1, ?2, ?3, ?4], [?1]<->[?3], Triple([?1, ?2], a10, []), Triple([?3, ?4], a11, []))"
    );
    let list = Expr::List { items: vec![DataValue::Int(1), s("b")] };
    assert_eq!(list.describe(), "[1, \"b\"]");
}

#[test]
fn negation_is_idempotent_after_elimination() {
    let tx = store();
    let r = || RelAlgebra::relation(vec![sym(5)], RelationMetadata { id: 0, name: "R".to_string() });
    let once = prepare(name_age_join().neg_join(r(), vec![sym(1)], vec![sym(5)]), vec![sym(2)]);
    let twice = prepare(
        name_age_join().neg_join(r(), vec![sym(1)], vec![sym(5)]).neg_join(r(), vec![sym(1)], vec![sym(5)]),
        vec![sym(2)],
    );
    let a = once.iter(&tx, None, &vec![]).unwrap();
    assert_eq!(a, vec![Tuple(vec![s("B")])]);
    assert_eq!(once.bindings_after_eliminate(), twice.bindings_after_eliminate());
    assert_eq!(a, twice.iter(&tx, None, &vec![]).unwrap());
}

#[test]
fn repeated_elimination_keeps_drop_lists_distinct() {
    let mut q = name_age_join();
    q.eliminate_temp_vars(&vec![sym(2)]).unwrap();
    q.eliminate_temp_vars(&vec![sym(2)]).unwrap();
    let dropped = q.eliminate_set().unwrap().clone();
    for (i, x) in dropped.iter().enumerate() {
        assert!(!dropped[i + 1..].contains(x));
    }
    assert_eq!(q.bindings_after_eliminate(), vec![sym(2)]);
}
