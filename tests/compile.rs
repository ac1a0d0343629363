use cozo::compile::StoreEntry;
use cozo::program::{
    collect_rule_sets, Aggregation, AttrTripleAtom, AttrValueType, Atom, Attribute,
    BindingHeadTerm, Cardinality, PredicateAtom, PredicateOp, QueryCompilationError, Rule,
    RuleApplyAtom, Term,
};
use cozo::relation::{Binding, Relation, TempStoreId};
use cozo::transact::SessionTx;
use cozo::value::{AttrId, DataValue, EntityId, Validity};

fn tx() -> SessionTx {
    SessionTx { facts: vec![], w_tx_id: None }
}

fn attr(id: u32, name: &str) -> Attribute {
    Attribute {
        id: AttrId(id),
        name: name.to_string(),
        val_type: AttrValueType::Ref,
        cardinality: Cardinality::Many,
        indexed: true,
        with_history: false,
        unique: false,
    }
}

fn var<T>(s: &str) -> Term<T> {
    Term::Var(s.to_string())
}

fn triple(a: &Attribute, e: Term<EntityId>, v: Term<DataValue>) -> Atom {
    Atom::AttrTriple(AttrTripleAtom { attr: a.clone(), entity: e, value: v })
}

fn apply(name: &str, args: Vec<Term<DataValue>>) -> Atom {
    Atom::Rule(RuleApplyAtom { name: name.to_string(), args })
}

fn kws(names: &[&str]) -> Vec<String> {
    names.iter().map(|s| s.to_string()).collect()
}

fn names_of(bs: &[Binding]) -> Vec<String> {
    bs.iter()
        .map(|b| match b {
            Binding::Var(k) => k.clone(),
            Binding::Temp(n) => format!("*{}", n),
        })
        .collect()
}

fn stores() -> Vec<StoreEntry> {
    vec![StoreEntry { name: "ancestor".to_string(), store: TempStoreId(7), arity: 2 }]
}

#[test]
fn recursive_rule_body_binds_requested_vars_in_order() {
    // ancestor(a, b) :- parent(a, c), ancestor(c, b)
    let parent = attr(1, "parent");
    let body = vec![
        triple(&parent, var("a"), var("c")),
        apply("ancestor", vec![var("c"), var("b")]),
    ];
    let rel = tx()
        .compile_rule_body(&body, Validity(10), &stores(), &kws(&["a", "b"]))
        .unwrap();
    assert_eq!(names_of(&rel.bindings()), kws(&["a", "b"]));
}

#[test]
fn lone_triple_is_the_whole_plan() {
    let parent = attr(1, "parent");
    let body = vec![triple(&parent, var("a"), var("b"))];
    let rel = tx()
        .compile_rule_body(&body, Validity(0), &stores(), &kws(&["b", "a"]))
        .unwrap();
    assert_eq!(names_of(&rel.bindings()), kws(&["b", "a"]));
    match rel {
        Relation::Reorder { inner, .. } => assert!(matches!(*inner, Relation::Triple { .. })),
        other => panic!("unexpected {:?}", other),
    }
}

#[test]
fn constants_and_reseen_vars_compile() {
    let parent = attr(1, "parent");
    let body = vec![
        triple(&parent, Term::Const(EntityId(3)), var("x")),
        triple(&parent, var("x"), Term::Const(DataValue::EnId(EntityId(5)))),
        triple(&parent, var("x"), var("x")),
        apply("ancestor", vec![var("x"), Term::Const(DataValue::Int(1))]),
        Atom::Predicate(PredicateAtom {
            op: PredicateOp::Ne,
            left: var("x"),
            right: Term::Const(DataValue::Int(0)),
        }),
    ];
    let rel = tx()
        .compile_rule_body(&body, Validity(0), &stores(), &kws(&["x"]))
        .unwrap();
    assert_eq!(names_of(&rel.bindings()), kws(&["x"]));
}

#[test]
fn unbound_head_variable_is_unsafe() {
    // ?(x, y) :- parent(x, z).
    let parent = attr(1, "parent");
    let body = vec![triple(&parent, var("x"), var("z"))];
    match tx().compile_rule_body(&body, Validity(0), &stores(), &kws(&["x", "y"])) {
        Err(QueryCompilationError::UnsafeUnboundVars(vs)) => assert_eq!(vs, kws(&["y"])),
        other => panic!("unexpected {:?}", other),
    }
}

#[test]
fn predicate_on_unbound_variable_is_unsafe() {
    let body = vec![Atom::Predicate(PredicateAtom {
        op: PredicateOp::Lt,
        left: var("q"),
        right: Term::Const(DataValue::Int(3)),
    })];
    match tx().compile_rule_body(&body, Validity(0), &stores(), &kws(&[])) {
        Err(QueryCompilationError::UnsafeUnboundVars(vs)) => assert_eq!(vs, kws(&["q"])),
        other => panic!("unexpected {:?}", other),
    }
}

#[test]
fn undefined_rule_is_reported() {
    let body = vec![apply("nowhere", vec![var("x")])];
    match tx().compile_rule_body(&body, Validity(0), &stores(), &kws(&["x"])) {
        Err(QueryCompilationError::UndefinedRule(n)) => assert_eq!(n, "nowhere"),
        other => panic!("unexpected {:?}", other),
    }
}

#[test]
fn rule_applied_with_wrong_arity_is_reported() {
    let body = vec![apply("ancestor", vec![var("x")])];
    match tx().compile_rule_body(&body, Validity(0), &stores(), &kws(&["x"])) {
        Err(QueryCompilationError::ArityMismatch(n)) => assert_eq!(n, "ancestor"),
        other => panic!("unexpected {:?}", other),
    }
}

fn rule(head: &[&str], body: Vec<Atom>) -> Rule {
    Rule {
        head: head
            .iter()
            .map(|h| BindingHeadTerm { name: h.to_string(), aggr: Aggregation::default() })
            .collect(),
        body,
        vld: Validity(0),
    }
}

#[test]
fn definitions_of_differing_arity_fail() {
    let defs = vec![
        ("ancestor".to_string(), rule(&["a", "b"], vec![])),
        ("other".to_string(), rule(&["a"], vec![])),
        ("ancestor".to_string(), rule(&["a"], vec![])),
    ];
    match collect_rule_sets(defs) {
        Err(QueryCompilationError::ArityMismatch(n)) => assert_eq!(n, "ancestor"),
        other => panic!("unexpected {:?}", other.map(|s| s.len())),
    }
}

#[test]
fn definitions_group_by_name() {
    let defs = vec![
        ("ancestor".to_string(), rule(&["a", "b"], vec![])),
        ("other".to_string(), rule(&["a"], vec![])),
        ("ancestor".to_string(), rule(&["c", "d"], vec![])),
    ];
    let sets = collect_rule_sets(defs).unwrap();
    assert_eq!(sets.len(), 2);
    assert_eq!(sets[0].0, "ancestor");
    assert_eq!(sets[0].1.arity, 2);
    assert_eq!(sets[0].1.rules.len(), 2);
    assert_eq!(sets[1].0, "other");
    assert_eq!(sets[1].1.arity, 1);
}

#[test]
fn contained_rules_lists_each_name_once() {
    let parent = attr(1, "parent");
    let r = rule(
        &["a"],
        vec![
            apply("ancestor", vec![var("a")]),
            triple(&parent, var("a"), var("b")),
            apply("ancestor", vec![var("b")]),
            apply("other", vec![]),
        ],
    );
    assert_eq!(r.contained_rules(), kws(&["ancestor", "other"]));
}

#[test]
fn term_accessors() {
    let v: Term<DataValue> = var("x");
    assert_eq!(v.get_var().map(|s| s.as_str()), Some("x"));
    assert!(v.get_const().is_none());
    let c: Term<DataValue> = Term::Const(DataValue::Int(4));
    assert!(c.get_var().is_none());
    assert!(matches!(c.get_const(), Some(DataValue::Int(4))));
}

#[test]
fn repeated_requested_variable_is_refused() {
    let parent = attr(1, "parent");
    let body = vec![triple(&parent, var("x"), var("y"))];
    match tx().compile_rule_body(&body, Validity(0), &stores(), &kws(&["x", "x"])) {
        Err(QueryCompilationError::UnexpectedForm(n, _)) => assert_eq!(n, "x"),
        other => panic!("unexpected {:?}", other),
    }
}

#[test]
fn empty_body_is_the_unit_relation() {
    let rel = tx().compile_rule_body(&vec![], Validity(0), &stores(), &kws(&[])).unwrap();
    assert!(rel.is_unit());
}

#[test]
fn rule_sets_keep_definitions_in_order() {
    let defs = vec![
        ("ancestor".to_string(), rule(&["a", "b"], vec![])),
        ("other".to_string(), rule(&["a"], vec![])),
        ("ancestor".to_string(), rule(&["c", "d"], vec![])),
    ];
    let sets = collect_rule_sets(defs).unwrap();
    assert_eq!(sets[0].1.rules[0].head[0].name, "a");
    assert_eq!(sets[0].1.rules[1].head[0].name, "c");
    assert_eq!(sets[1].1.rules.len(), 1);
}
