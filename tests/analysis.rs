use fixpoint::deps::{dependency_matrix, reach_from, stratify};
use fixpoint::engine::{Program, ProgramError};
use fixpoint::plan::check_bindings;
use fixpoint::rule::{atom, eval_body, eval_head, eval_term, Clause, Cmp, Rule, Term};
use fixpoint::store::{RelKind, Relation};

use Term::{Const, Var};

fn copy_rule(src: usize, dst: usize) -> Rule {
    Rule::new(1).and(atom(src, vec![Var(0)])).head(dst, vec![Var(0)])
}

#[test]
fn dependency_matrix_has_one_entry_per_read_and_write() {
    let rules = vec![copy_rule(0, 1), copy_rule(1, 2)];
    let m = dependency_matrix(&rules, 3);
    assert_eq!(m, vec![vec![false, true, false], vec![false, false, true], vec![false, false, false]]);
}

#[test]
fn reach_follows_paths_and_includes_the_start() {
    let m = vec![vec![false, true, false, false], vec![false, false, true, false], vec![true, false, false, false], vec![false, false, false, false]];
    assert_eq!(reach_from(&m, 0), vec![true, true, true, false]);
    assert_eq!(reach_from(&m, 3), vec![false, false, false, true]);
}

#[test]
fn stratify_orders_components() {
    // 0 -> 1, 1 <-> 2 (recursive), 2 -> 3, 4 unrelated
    let rules = vec![copy_rule(0, 1), copy_rule(1, 2), copy_rule(2, 1), copy_rule(2, 3)];
    let r = stratify(&rules, 5);
    assert_eq!(r, vec![1, 3, 3, 4, 1]);
    assert!(r[0] < r[1]);
    assert_eq!(r[1], r[2]);
    assert!(r[2] < r[3]);
}

#[test]
fn body_environments_in_order() {
    let rels: Vec<Relation> = Vec::new();
    // x in 0..3, y in x..3, x != y
    let r = Rule::new(2)
        .and(Clause::Range { var: 0, lo: Const(0), hi: Const(3) })
        .and(Clause::Range { var: 1, lo: Var(0), hi: Const(3) })
        .and(Clause::Guard { cmp: Cmp::Ne, left: Var(0), right: Var(1) })
        .head(0, vec![Var(1), Var(0)]);
    let envs = eval_body(&r, &rels, &rels);
    assert_eq!(envs, vec![vec![Some(0), Some(1)], vec![Some(0), Some(2)], vec![Some(1), Some(2)]]);
    assert_eq!(eval_head(&r, 0, &envs), vec![vec![1, 0], vec![2, 0], vec![2, 1]]);
}

#[test]
fn atoms_bind_and_check_variables() {
    let mut rel = Relation::new(2, RelKind::Plain);
    for t in [[1, 1], [1, 2], [3, 3]] {
        rel.insert(t.to_vec());
    }
    let rels = vec![rel];
    // p(x, x)
    let r = Rule::new(1).and(atom(0, vec![Var(0), Var(0)])).head(0, vec![Var(0), Const(0)]);
    let envs = eval_body(&r, &rels, &rels);
    assert_eq!(envs, vec![vec![Some(1)], vec![Some(3)]]);
}

#[test]
fn terms_evaluate_with_overflow_as_undefined() {
    let env = vec![Some(2), Some(40), None, Some(i64::MAX)];
    assert_eq!(eval_term(Term::Add(0, 1), &env), Some(42));
    assert_eq!(eval_term(Term::Offset(1, -50), &env), Some(-10));
    assert_eq!(eval_term(Term::Add(0, 2), &env), None);
    assert_eq!(eval_term(Term::Add(0, 3), &env), None);
    assert_eq!(eval_term(Var(7), &env), None);
    assert_eq!(eval_term(Const(5), &env), Some(5));
}

#[test]
fn bindings_must_precede_uses() {
    // guard before the atom that binds its variable
    let bad = Rule::new(1)
        .and(Clause::Guard { cmp: Cmp::Lt, left: Var(0), right: Const(3) })
        .and(atom(0, vec![Var(0)]))
        .head(1, vec![Var(0)]);
    assert!(!check_bindings(&bad));
    let good = Rule::new(1)
        .and(atom(0, vec![Var(0)]))
        .and(Clause::Guard { cmp: Cmp::Lt, left: Var(0), right: Const(3) })
        .head(1, vec![Var(0)]);
    assert!(check_bindings(&good));
    // a variable bound on one alternative only cannot be used afterwards
    let one_side = Rule::new(2)
        .or(vec![vec![atom(0, vec![Var(0)])], vec![atom(0, vec![Var(1)])]])
        .head(1, vec![Var(0)]);
    assert!(!check_bindings(&one_side));
    // an expression column needs its variables already bound
    let expr_first = Rule::new(2).and(atom(0, vec![Term::Add(0, 1)])).head(1, vec![Const(1)]);
    assert!(!check_bindings(&expr_first));
    // a variable index past the rule's variables is refused
    let out_of_range = Rule::new(1).and(atom(0, vec![Var(4)])).head(1, vec![Const(1)]);
    assert!(!check_bindings(&out_of_range));
}

#[test]
fn unbound_head_variable_is_refused() {
    let mut p = Program::new();
    let a = p.declare(1, RelKind::Plain).unwrap();
    let b = p.declare(2, RelKind::Plain).unwrap();
    let r = Rule::new(2).and(atom(a, vec![Var(0)])).head(b, vec![Var(0), Var(1)]);
    assert_eq!(p.add_rule(r), Err(ProgramError::UnboundVariable));
}

#[test]
fn lookup_selects_on_bound_columns() {
    let mut rel = Relation::new(3, RelKind::Plain);
    for t in [[1, 2, 3], [1, 5, 3], [2, 2, 3], [1, 2, 4]] {
        rel.insert(t.to_vec());
    }
    assert_eq!(rel.lookup(&vec![0, 2], &vec![1, 3]), vec![vec![1, 2, 3], vec![1, 5, 3]]);
    assert_eq!(rel.lookup(&vec![1], &vec![9]), Vec::<Vec<i64>>::new());
    assert_eq!(rel.lookup(&vec![], &vec![]).len(), 4);
    assert_eq!(rel.lookup(&vec![7], &vec![1]).len(), 0);
}

fn path_rules(edge: usize, path: usize) -> Vec<Rule> {
    vec![
        Rule::new(2).and(atom(edge, vec![Var(0), Var(1)])).head(path, vec![Var(0), Var(1)]),
        Rule::new(3)
            .and(atom(path, vec![Var(0), Var(1)]))
            .and(atom(path, vec![Var(1), Var(2)]))
            .head(path, vec![Var(0), Var(2)]),
    ]
}

fn contents(r: &Relation) -> Vec<Vec<i64>> {
    let mut v: Vec<Vec<i64>> = (0..r.len()).map(|i| r.get(i).clone()).collect();
    v.sort();
    v
}

#[test]
fn semi_naive_run_matches_naive_iteration() {
    let edges = [[1, 2], [2, 3], [3, 4], [4, 2], [5, 1], [6, 6]];
    // naive: every rule over the full stores until nothing changes
    let mut rels = vec![Relation::new(2, RelKind::Plain), Relation::new(2, RelKind::Plain)];
    for e in edges {
        rels[0].insert(e.to_vec());
    }
    loop {
        let mut changed = false;
        for r in path_rules(0, 1) {
            let envs = eval_body(&r, &rels, &rels);
            for t in eval_head(&r, 0, &envs) {
                changed |= rels[1].insert(t);
            }
        }
        if !changed {
            break;
        }
    }
    let mut p = Program::new();
    let edge = p.declare(2, RelKind::Plain).unwrap();
    let path = p.declare(2, RelKind::Plain).unwrap();
    for r in path_rules(edge, path) {
        p.add_rule(r).unwrap();
    }
    for e in edges {
        p.insert_fact(edge, e.to_vec()).unwrap();
    }
    assert_eq!(p.run_semi_naive(100), fixpoint::engine::RunStatus::Saturated);
    let want = contents(&rels[1]);
    assert_eq!(want.len(), 17);
    assert_eq!(contents(p.relation(path)), want);
}

#[test]
fn delta_reading_atoms_see_only_the_delta() {
    let mut full = Relation::new(1, RelKind::Plain);
    let mut delta = Relation::new(1, RelKind::Plain);
    for x in [1, 2, 3] {
        full.insert(vec![x]);
    }
    delta.insert(vec![3]);
    let fulls = vec![full];
    let deltas = vec![delta];
    let r = Rule::new(1)
        .and(Clause::Atom { rel: 0, terms: vec![Var(0)], source: fixpoint::rule::Source::Delta })
        .head(0, vec![Var(0)]);
    assert_eq!(eval_body(&r, &fulls, &deltas), vec![vec![Some(3)]]);
    let r2 = Rule::new(1).and(atom(0, vec![Var(0)])).head(0, vec![Var(0)]);
    assert_eq!(eval_body(&r2, &fulls, &deltas).len(), 3);
}

#[test]
fn body_atoms_must_name_declared_relations_with_their_arity() {
    let mut p = Program::new();
    let a = p.declare(1, RelKind::Plain).unwrap();
    let b = p.declare(1, RelKind::Plain).unwrap();
    let unknown = Rule::new(1).and(atom(b + 3, vec![Var(0)])).head(a, vec![Var(0)]);
    assert_eq!(p.add_rule(unknown), Err(ProgramError::UnknownRelation));
    let wrong = Rule::new(2).and(atom(b, vec![Var(0), Var(1)])).head(a, vec![Var(0)]);
    assert_eq!(p.add_rule(wrong), Err(ProgramError::ArityMismatch));
    let fine = Rule::new(1).and(atom(b, vec![Var(0)])).head(a, vec![Var(0)]);
    assert_eq!(p.add_rule(fine), Ok(()));
}

#[test]
fn naive_and_semi_naive_runs_agree_on_shortest_paths() {
    let build = || {
        let mut p = Program::new();
        let sp = p.declare(3, RelKind::Min).unwrap();
        let edge = p.declare(3, RelKind::Plain).unwrap();
        p.add_rule(Rule::new(3).and(atom(edge, vec![Var(0), Var(1), Var(2)])).head(sp, vec![Var(0), Var(1), Var(2)]))
            .unwrap();
        p.add_rule(
            Rule::new(5)
                .and(atom(edge, vec![Var(0), Var(1), Var(2)]))
                .and(atom(sp, vec![Var(1), Var(3), Var(4)]))
                .head(sp, vec![Var(0), Var(3), Term::Add(2, 4)]),
        )
        .unwrap();
        for t in [[1, 2, 30], [2, 3, 50], [1, 3, 40], [2, 4, 100], [4, 1, 1000]] {
            p.insert_fact(edge, t.to_vec()).unwrap();
        }
        (p, sp)
    };
    let (mut naive, sp) = build();
    let (mut semi, _) = build();
    assert_eq!(naive.run(1000), fixpoint::engine::RunStatus::Saturated);
    assert_eq!(semi.run_semi_naive(1000), fixpoint::engine::RunStatus::Saturated);
    assert_eq!(contents(naive.relation(sp)), contents(semi.relation(sp)));
}
