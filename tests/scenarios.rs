use fixpoint::engine::{Program, ProgramError, RunStatus};
use fixpoint::rule::{atom, Clause, Cmp, Rule, Term};
use fixpoint::store::{RelKind, Relation};

fn plain(p: &mut Program, arity: usize) -> usize {
    p.declare(arity, RelKind::Plain).unwrap()
}

fn fact(p: &mut Program, rel: usize, t: &[i64]) {
    p.insert_fact(rel, t.to_vec()).unwrap();
}

fn sorted(r: &Relation) -> Vec<Vec<i64>> {
    let mut v: Vec<Vec<i64>> = (0..r.len()).map(|i| r.get(i).clone()).collect();
    v.sort();
    v
}

fn expect(r: &Relation, want: &[&[i64]]) {
    let mut w: Vec<Vec<i64>> = want.iter().map(|t| t.to_vec()).collect();
    w.sort();
    assert_eq!(sorted(r), w);
}

use Term::{Const, Var};

#[test]
fn test_dl2() {
    let mut p = Program::new();
    let bar = plain(&mut p, 2);
    let foo1 = plain(&mut p, 2);
    let foo2 = plain(&mut p, 2);
    fact(&mut p, foo1, &[1, 2]);
    fact(&mut p, foo1, &[10, 20]);
    fact(&mut p, foo1, &[0, 2]);
    // bar(x, y + z) <-- foo1(x, y), x != 0, foo2(y, z)
    let r = Rule::new(3)
        .and(atom(foo1, vec![Var(0), Var(1)]))
        .and(Clause::Guard { cmp: Cmp::Ne, left: Var(0), right: Const(0) })
        .and(atom(foo2, vec![Var(1), Var(2)]))
        .head(bar, vec![Var(0), Term::Add(1, 2)]);
    p.add_rule(r).unwrap();
    p.assign(foo2, vec![vec![2, 4], vec![2, 1], vec![20, 40], vec![20, 0]]).unwrap();
    assert_eq!(p.run(100), RunStatus::Saturated);
    expect(p.relation(bar), &[&[1, 3], &[1, 6], &[10, 60], &[10, 20]]);
}

#[test]
fn test_dl_expressions() {
    let mut p = Program::new();
    let foo = plain(&mut p, 2);
    let bar = plain(&mut p, 2);
    let baz = plain(&mut p, 3);
    for t in [[1, 2], [2, 3], [3, 5]] {
        fact(&mut p, foo, &t);
    }
    fact(&mut p, bar, &[3, 6]);
    fact(&mut p, bar, &[5, 10]);
    // baz(x, y, z) <-- foo(x, y), bar(x + y, z)
    let r = Rule::new(3)
        .and(atom(foo, vec![Var(0), Var(1)]))
        .and(atom(bar, vec![Term::Add(0, 1), Var(2)]))
        .head(baz, vec![Var(0), Var(1), Var(2)]);
    p.add_rule(r).unwrap();
    assert_eq!(p.run(100), RunStatus::Saturated);
    expect(p.relation(baz), &[&[1, 2, 6], &[2, 3, 10]]);
}

#[test]
fn test_dl_generators() {
    let mut p = Program::new();
    let foo = plain(&mut p, 2);
    let bar = plain(&mut p, 1);
    // foo(x, y) <-- for x in 0..10, for y in (x + 1)..10
    let r = Rule::new(2)
        .and(Clause::Range { var: 0, lo: Const(0), hi: Const(10) })
        .and(Clause::Range { var: 1, lo: Term::Offset(0, 1), hi: Const(10) })
        .head(foo, vec![Var(0), Var(1)]);
    p.add_rule(r).unwrap();
    p.add_rule(Rule::new(2).and(atom(foo, vec![Var(0), Var(1)])).head(bar, vec![Var(0)])).unwrap();
    p.add_rule(Rule::new(2).and(atom(foo, vec![Var(0), Var(1)])).head(bar, vec![Var(1)])).unwrap();
    assert_eq!(p.run(100), RunStatus::Saturated);
    assert_eq!(p.relation(foo).len(), 45);
    assert_eq!(p.relation(bar).len(), 10);
}

#[test]
fn test_dl_generators2() {
    let mut p = Program::new();
    let foo = plain(&mut p, 2);
    let bar = plain(&mut p, 1);
    fact(&mut p, foo, &[3, 4]);
    fact(&mut p, foo, &[4, 6]);
    fact(&mut p, foo, &[20, 21]);
    // bar(x) <-- for x in 0..10, foo(x, x + 1)
    let r = Rule::new(1)
        .and(Clause::Range { var: 0, lo: Const(0), hi: Const(10) })
        .and(atom(foo, vec![Var(0), Term::Offset(0, 1)]))
        .head(bar, vec![Var(0)]);
    p.add_rule(r).unwrap();
    assert_eq!(p.run(100), RunStatus::Saturated);
    expect(p.relation(bar), &[&[3]]);
}

#[test]
fn test_dl_disjunctions() {
    let mut p = Program::new();
    let foo1 = plain(&mut p, 2);
    let foo2 = plain(&mut p, 2);
    let small = plain(&mut p, 1);
    let bar = plain(&mut p, 2);
    // small(x) <-- for x in 0..5
    p.add_rule(
        Rule::new(1).and(Clause::Range { var: 0, lo: Const(0), hi: Const(5) }).head(small, vec![Var(0)]),
    )
    .unwrap();
    for t in [[0, 4], [1, 4], [2, 6]] {
        fact(&mut p, foo1, &t);
    }
    for t in [[3, 30], [2, 20], [8, 21], [9, 21]] {
        fact(&mut p, foo2, &t);
    }
    // bar(x, y) <-- (for x in 3..10, small(x) || foo1(x, _)), foo2(x, y)
    let r = Rule::new(3)
        .or(vec![
            vec![Clause::Range { var: 0, lo: Const(3), hi: Const(10) }, atom(small, vec![Var(0)])],
            vec![atom(foo1, vec![Var(0), Var(2)])],
        ])
        .and(atom(foo2, vec![Var(0), Var(1)]))
        .head(bar, vec![Var(0), Var(1)]);
    p.add_rule(r).unwrap();
    assert_eq!(p.run(100), RunStatus::Saturated);
    expect(p.relation(bar), &[&[3, 30], &[2, 20]]);
}

fn shortest_paths() -> (Program, usize) {
    let mut p = Program::new();
    let sp = p.declare(3, RelKind::Min).unwrap();
    let edge = plain(&mut p, 3);
    // shortest_path(x, y, w) <-- edge(x, y, w)
    p.add_rule(Rule::new(3).and(atom(edge, vec![Var(0), Var(1), Var(2)])).head(sp, vec![Var(0), Var(1), Var(2)]))
        .unwrap();
    // shortest_path(x, z, w + l) <-- edge(x, y, w), shortest_path(y, z, l)
    let r = Rule::new(5)
        .and(atom(edge, vec![Var(0), Var(1), Var(2)]))
        .and(atom(sp, vec![Var(1), Var(3), Var(4)]))
        .head(sp, vec![Var(0), Var(3), Term::Add(2, 4)]);
    p.add_rule(r).unwrap();
    for t in [[1, 2, 30], [2, 3, 50], [1, 3, 40], [2, 4, 100], [4, 1, 1000]] {
        fact(&mut p, edge, &t);
    }
    (p, sp)
}

#[test]
fn test_dl_lattice() {
    let (mut p, sp) = shortest_paths();
    assert_eq!(p.run(1000), RunStatus::Saturated);
    let r = p.relation(sp);
    assert_eq!(r.len(), 12);
    assert!(r.contains(&vec![1, 3, 40]));
    assert!(r.contains(&vec![1, 2, 30]));
    assert!(r.contains(&vec![2, 3, 50]));
    assert!(r.contains(&vec![1, 4, 130]));
    assert!(r.contains(&vec![4, 3, 1040]));
    assert!(r.contains(&vec![1, 1, 1130]));
    assert!(!r.contains(&vec![1, 3, 80]));
}

#[test]
fn lattice_values_never_get_worse_between_rounds() {
    let (mut p, sp) = shortest_paths();
    let mut best: Option<i64> = None;
    for _ in 0..20 {
        p.run(1);
        let r = p.relation(sp);
        for i in 0..r.len() {
            let t = r.get(i);
            if t[0] == 1 && t[1] == 3 {
                if let Some(b) = best {
                    assert!(t[2] <= b);
                }
                best = Some(t[2]);
            }
        }
    }
    assert_eq!(best, Some(40));
}

#[test]
fn saturated_run_is_a_fixpoint() {
    let (mut p, sp) = shortest_paths();
    assert_eq!(p.run(1000), RunStatus::Saturated);
    let before = sorted(p.relation(sp));
    assert_eq!(p.run(100), RunStatus::Saturated);
    assert_eq!(sorted(p.relation(sp)), before);
}

#[test]
fn rule_order_does_not_change_result() {
    let build = |reverse: bool| {
        let mut p = Program::new();
        let edge = plain(&mut p, 2);
        let path = plain(&mut p, 2);
        let a = Rule::new(2).and(atom(edge, vec![Var(0), Var(1)])).head(path, vec![Var(0), Var(1)]);
        let b = Rule::new(3)
            .and(atom(path, vec![Var(0), Var(1)]))
            .and(atom(edge, vec![Var(1), Var(2)]))
            .head(path, vec![Var(0), Var(2)]);
        if reverse {
            p.add_rule(b).unwrap();
            p.add_rule(a).unwrap();
        } else {
            p.add_rule(a).unwrap();
            p.add_rule(b).unwrap();
        }
        for t in [[1, 2], [2, 3], [3, 1], [3, 4]] {
            fact(&mut p, edge, &t);
        }
        assert_eq!(p.run(100), RunStatus::Saturated);
        sorted(p.relation(path))
    };
    let x = build(false);
    assert_eq!(x.len(), 12);
    assert_eq!(x, build(true));
}

#[test]
fn multiple_heads_fire_from_one_binding() {
    let mut p = Program::new();
    let foo = plain(&mut p, 2);
    let left = plain(&mut p, 1);
    let right = plain(&mut p, 1);
    for t in [[3, 4], [12, 45], [10, 20]] {
        fact(&mut p, foo, &t);
    }
    // left(x), right(y) <-- foo(x, y), x > 5
    let r = Rule::new(2)
        .and(atom(foo, vec![Var(0), Var(1)]))
        .and(Clause::Guard { cmp: Cmp::Lt, left: Const(5), right: Var(0) })
        .head(left, vec![Var(0)])
        .head(right, vec![Var(1)]);
    p.add_rule(r).unwrap();
    assert_eq!(p.run(10), RunStatus::Saturated);
    expect(p.relation(left), &[&[12], &[10]]);
    expect(p.relation(right), &[&[45], &[20]]);
}

#[test]
fn repeated_facts_are_stored_once() {
    let mut p = Program::new();
    let r = plain(&mut p, 2);
    assert_eq!(p.insert_fact(r, vec![1, 2]), Ok(true));
    assert_eq!(p.insert_fact(r, vec![1, 2]), Ok(false));
    assert_eq!(p.relation(r).len(), 1);
}

#[test]
fn lattice_offer_merges_by_key() {
    let mut r = Relation::new(2, RelKind::Min);
    assert!(r.insert(vec![7, 50]));
    assert!(!r.insert(vec![7, 60]));
    assert!(r.insert(vec![7, 40]));
    assert!(r.insert(vec![8, 1]));
    assert_eq!(r.len(), 2);
    assert!(r.contains(&vec![7, 40]));
    let mut m = Relation::new(1, RelKind::Max);
    assert!(m.insert(vec![3]));
    assert!(m.insert(vec![9]));
    assert!(!m.insert(vec![4]));
    assert_eq!(m.len(), 1);
    assert!(m.contains(&vec![9]));
}

#[test]
fn assign_drops_duplicates() {
    let mut p = Program::new();
    let r = plain(&mut p, 1);
    p.assign(r, vec![vec![1], vec![2], vec![1]]).unwrap();
    expect(p.relation(r), &[&[1], &[2]]);
}

#[test]
fn errors_are_reported() {
    let mut p = Program::new();
    assert_eq!(p.declare(0, RelKind::Min), Err(ProgramError::NoLatticeColumn));
    let r = plain(&mut p, 2);
    assert_eq!(p.insert_fact(r + 1, vec![1, 2]), Err(ProgramError::UnknownRelation));
    assert_eq!(p.insert_fact(r, vec![1]), Err(ProgramError::ArityMismatch));
    assert_eq!(p.assign(r, vec![vec![1, 2, 3]]), Err(ProgramError::ArityMismatch));
    assert_eq!(p.add_rule(Rule::new(1).head(r + 5, vec![Var(0)])), Err(ProgramError::UnknownRelation));
    assert_eq!(p.add_rule(Rule::new(1).head(r, vec![Var(0)])), Err(ProgramError::ArityMismatch));
    assert_eq!(p.run(0), RunStatus::OutOfRounds);
}

#[test]
fn overflowing_sums_derive_nothing() {
    let mut p = Program::new();
    let a = plain(&mut p, 1);
    let b = plain(&mut p, 1);
    fact(&mut p, a, &[i64::MAX]);
    fact(&mut p, a, &[5]);
    p.add_rule(Rule::new(1).and(atom(a, vec![Var(0)])).head(b, vec![Term::Offset(0, 1)])).unwrap();
    assert_eq!(p.run(10), RunStatus::Saturated);
    expect(p.relation(b), &[&[6]]);
}

// Optional values are stored as two columns: a tag (0 for none, 1 for
// some) and a payload; the pattern `Some(y)` is the tag literal 1 followed
// by a variable.
fn optional_foo(p: &mut Program, rows: &[(i64, Option<i64>)]) -> usize {
    let foo = plain(p, 3);
    for (x, y) in rows {
        let t = match y {
            Some(v) => [*x, 1, *v],
            None => [*x, 0, 0],
        };
        fact(p, foo, &t);
    }
    foo
}

#[test]
fn test_dl_patterns() {
    let mut p = Program::new();
    let foo = optional_foo(&mut p, &[(1, None), (2, Some(2)), (3, Some(30))]);
    let bar = plain(&mut p, 2);
    // bar(x, y) <-- foo(x, Some(y)), y != x
    let r = Rule::new(2)
        .and(atom(foo, vec![Var(0), Const(1), Var(1)]))
        .and(Clause::Guard { cmp: Cmp::Ne, left: Var(1), right: Var(0) })
        .head(bar, vec![Var(0), Var(1)]);
    p.add_rule(r).unwrap();
    assert_eq!(p.run(10), RunStatus::Saturated);
    assert!(p.relation(bar).contains(&vec![3, 30]));
    assert!(p.relation(bar).len() == 1);
}

#[test]
fn test_dl_pattern_args() {
    let mut p = Program::new();
    let foo = optional_foo(&mut p, &[(1, None), (2, Some(2)), (3, Some(30)), (3, None)]);
    let bar = plain(&mut p, 2);
    let r = Rule::new(2)
        .and(atom(foo, vec![Var(0), Const(1), Var(1)]))
        .and(Clause::Guard { cmp: Cmp::Ne, left: Var(1), right: Var(0) })
        .head(bar, vec![Var(0), Var(1)]);
    p.add_rule(r).unwrap();
    assert_eq!(p.run(10), RunStatus::Saturated);
    assert!(p.relation(bar).contains(&vec![3, 30]));
    assert!(p.relation(bar).len() == 1);
}

#[test]
fn test_dl_vars_bound_in_patterns() {
    let mut p = Program::new();
    let foo = optional_foo(&mut p, &[(1, Some(2)), (2, None), (3, Some(5)), (4, Some(10))]);
    let bar = plain(&mut p, 2);
    let baz = plain(&mut p, 3);
    for t in [[3, 6], [5, 10], [10, 20]] {
        fact(&mut p, bar, &t);
    }
    // baz(x, y, z) <-- foo(x, Some(y)), bar(y, z)
    let r = Rule::new(3)
        .and(atom(foo, vec![Var(0), Const(1), Var(1)]))
        .and(atom(bar, vec![Var(1), Var(2)]))
        .head(baz, vec![Var(0), Var(1), Var(2)]);
    p.add_rule(r).unwrap();
    assert_eq!(p.run(10), RunStatus::Saturated);
    expect(p.relation(baz), &[&[3, 5, 10], &[4, 10, 20]]);
}
