//! Soundness of delta evaluation: a copy of a rule in which atoms read the
//! latest delta derives nothing that the rule itself does not derive from
//! the full stores, when every delta tuple is also in its store.
use vstd::prelude::*;
use crate::rule::{
    atom_envs, body_envs, body_view, clause_envs, conj, disj, empty_env, groups, head_facts, head_vals, match_tuple,
    opt_seq, rel_at, rule_facts, step, Clause, Db, Env, Rule, Source, Term,
};

verus! {

/// Every element of `a` is an element of `b`.
pub open spec fn within<T>(a: Seq<T>, b: Seq<T>) -> bool {
    forall|x: T| #[trigger] a.contains(x) ==> b.contains(x)
}

/// Every tuple of every relation of `d` is in the same relation of `f`.
pub open spec fn db_within(d: Db, f: Db) -> bool {
    forall|i: usize| #![trigger rel_at(d, i)] within(rel_at(d, i), rel_at(f, i))
}

/// `c1` is `c2`, except that an atom may read another source.
pub open spec fn clause_copy(c1: Clause, c2: Clause) -> bool {
    match (c1, c2) {
        (Clause::Atom { rel: r1, terms: t1, .. }, Clause::Atom { rel: r2, terms: t2, .. }) => r1 == r2 && t1@ == t2@,
        (Clause::Guard { cmp: k1, left: l1, right: g1 }, Clause::Guard { cmp: k2, left: l2, right: g2 }) =>
            k1 == k2 && l1 == l2 && g1 == g2,
        (Clause::Range { var: v1, lo: a1, hi: b1 }, Clause::Range { var: v2, lo: a2, hi: b2 }) =>
            v1 == v2 && a1 == a2 && b1 == b2,
        _ => false,
    }
}

pub open spec fn conj_copy(a: Seq<Clause>, b: Seq<Clause>) -> bool {
    a.len() == b.len() && forall|i: int| 0 <= i < a.len() ==> clause_copy(#[trigger] a[i], b[i])
}

pub open spec fn disj_copy(a: Seq<Seq<Clause>>, b: Seq<Seq<Clause>>) -> bool {
    a.len() == b.len() && forall|i: int| 0 <= i < a.len() ==> conj_copy(#[trigger] a[i], b[i])
}

pub open spec fn groups_copy(a: Seq<Seq<Seq<Clause>>>, b: Seq<Seq<Seq<Clause>>>) -> bool {
    a.len() == b.len() && forall|i: int| 0 <= i < a.len() ==> disj_copy(#[trigger] a[i], b[i])
}

/// `v` is `r` with some atoms reading another source.
pub open spec fn rule_copy(v: Rule, r: Rule) -> bool {
    &&& v.nvars == r.nvars
    &&& groups_copy(body_view(v.body@), body_view(r.body@))
    &&& v.heads@.len() == r.heads@.len()
    &&& forall|h: int| 0 <= h < r.heads@.len() ==> (#[trigger] v.heads@[h]).rel == r.heads@[h].rel
        && v.heads@[h].terms@ == r.heads@[h].terms@
}

proof fn lemma_within_concat<T>(a1: Seq<T>, a2: Seq<T>, b1: Seq<T>, b2: Seq<T>)
    requires
        within(a1, b1),
        within(a2, b2),
    ensures
        within(a1 + a2, b1 + b2),
{
    assert forall|x: T| #[trigger] (a1 + a2).contains(x) implies (b1 + b2).contains(x) by {
        let i = choose|i: int| 0 <= i < (a1 + a2).len() && (a1 + a2)[i] == x;
        if i < a1.len() {
            assert(a1[i] == x);
            assert(a1.contains(x));
            let j = choose|j: int| 0 <= j < b1.len() && b1[j] == x;
            assert((b1 + b2)[j] == x);
        } else {
            assert(a2[i - a1.len()] == x);
            assert(a2.contains(x));
            let j = choose|j: int| 0 <= j < b2.len() && b2[j] == x;
            assert((b1 + b2)[b1.len() + j] == x);
        }
    }
}

proof fn lemma_atom_members(terms: Seq<Term>, tups: Seq<Seq<i64>>, env: Env, x: Env)
    ensures
        atom_envs(terms, tups, env).contains(x) <==>
            exists|i: int| 0 <= i < tups.len() && match_tuple(terms, #[trigger] tups[i], env) == Some(x),
    decreases tups.len(),
{
    if tups.len() > 0 {
        let pre = tups.drop_last();
        lemma_atom_members(terms, pre, env, x);
        let a = atom_envs(terms, pre, env);
        let o = opt_seq(match_tuple(terms, tups.last(), env));
        let all = a + o;
        if all.contains(x) {
            let k = choose|k: int| 0 <= k < all.len() && all[k] == x;
            if k < a.len() {
                assert(a[k] == x);
                assert(a.contains(x));
                let i = choose|i: int| 0 <= i < pre.len() && match_tuple(terms, #[trigger] pre[i], env) == Some(x);
                assert(tups[i] == pre[i]);
            } else {
                assert(o[k - a.len()] == x);
                assert(match_tuple(terms, tups[tups.len() - 1], env) == Some(x));
            }
        }
        if exists|i: int| 0 <= i < tups.len() && match_tuple(terms, #[trigger] tups[i], env) == Some(x) {
            let i = choose|i: int| 0 <= i < tups.len() && match_tuple(terms, #[trigger] tups[i], env) == Some(x);
            if i < pre.len() {
                assert(pre[i] == tups[i]);
                assert(a.contains(x));
                let k = choose|k: int| 0 <= k < a.len() && a[k] == x;
                assert(all[k] == x);
            } else {
                assert(o[0] == x);
                assert(all[a.len() as int] == x);
            }
        }
    }
}

proof fn lemma_atom_within(terms: Seq<Term>, d: Seq<Seq<i64>>, f: Seq<Seq<i64>>, env: Env)
    requires
        within(d, f),
    ensures
        within(atom_envs(terms, d, env), atom_envs(terms, f, env)),
{
    assert forall|x: Env| #[trigger] atom_envs(terms, d, env).contains(x) implies atom_envs(terms, f, env).contains(x) by {
        lemma_atom_members(terms, d, env, x);
        lemma_atom_members(terms, f, env, x);
        let i = choose|i: int| 0 <= i < d.len() && match_tuple(terms, #[trigger] d[i], env) == Some(x);
        assert(d.contains(d[i]));
        let j = choose|j: int| 0 <= j < f.len() && f[j] == d[i];
        assert(match_tuple(terms, f[j], env) == Some(x));
    }
}

proof fn lemma_clause_within(c1: Clause, c2: Clause, env: Env, full: Db, delta: Db, full2: Db)
    requires
        clause_copy(c1, c2),
        db_within(delta, full2),
        db_within(full, full2),
    ensures
        within(clause_envs(c1, env, full, delta), clause_envs(c2, env, full2, full2)),
{
    match (c1, c2) {
        (Clause::Atom { rel, terms, source }, Clause::Atom { .. }) => {
            assert(rel_at(delta, rel) == rel_at(delta, rel));
            assert(rel_at(full, rel) == rel_at(full, rel));
            if source == Source::Full {
                lemma_atom_within(terms@, rel_at(full, rel), rel_at(full2, rel), env);
            } else {
                lemma_atom_within(terms@, rel_at(delta, rel), rel_at(full2, rel), env);
            }
        },
        _ => {},
    }
}

proof fn lemma_step_members(c: Clause, envs: Seq<Env>, full: Db, delta: Db, x: Env)
    ensures
        step(c, envs, full, delta).contains(x) <==>
            exists|i: int| 0 <= i < envs.len() && clause_envs(c, #[trigger] envs[i], full, delta).contains(x),
    decreases envs.len(),
{
    if envs.len() > 0 {
        let pre = envs.drop_last();
        lemma_step_members(c, pre, full, delta, x);
        let a = step(c, pre, full, delta);
        let o = clause_envs(c, envs.last(), full, delta);
        let all = a + o;
        if all.contains(x) {
            let k = choose|k: int| 0 <= k < all.len() && all[k] == x;
            if k < a.len() {
                assert(a[k] == x);
                assert(a.contains(x));
                let i = choose|i: int| 0 <= i < pre.len() && clause_envs(c, #[trigger] pre[i], full, delta).contains(x);
                assert(envs[i] == pre[i]);
            } else {
                assert(o[k - a.len()] == x);
                assert(o.contains(x));
                assert(envs[envs.len() - 1] == envs.last());
            }
        }
        if exists|i: int| 0 <= i < envs.len() && clause_envs(c, #[trigger] envs[i], full, delta).contains(x) {
            let i = choose|i: int| 0 <= i < envs.len() && clause_envs(c, #[trigger] envs[i], full, delta).contains(x);
            if i < pre.len() {
                assert(pre[i] == envs[i]);
                assert(a.contains(x));
                let k = choose|k: int| 0 <= k < a.len() && a[k] == x;
                assert(all[k] == x);
            } else {
                assert(envs[i] == envs.last());
                let k = choose|k: int| 0 <= k < o.len() && o[k] == x;
                assert(all[a.len() + k] == x);
            }
        }
    }
}

proof fn lemma_step_within(c1: Clause, c2: Clause, e1: Seq<Env>, e2: Seq<Env>, full: Db, delta: Db, full2: Db)
    requires
        clause_copy(c1, c2),
        db_within(delta, full2),
        db_within(full, full2),
        within(e1, e2),
    ensures
        within(step(c1, e1, full, delta), step(c2, e2, full2, full2)),
{
    assert forall|x: Env| #[trigger] step(c1, e1, full, delta).contains(x) implies step(c2, e2, full2, full2).contains(x) by {
        lemma_step_members(c1, e1, full, delta, x);
        lemma_step_members(c2, e2, full2, full2, x);
        let i = choose|i: int| 0 <= i < e1.len() && clause_envs(c1, #[trigger] e1[i], full, delta).contains(x);
        assert(e1.contains(e1[i]));
        let j = choose|j: int| 0 <= j < e2.len() && e2[j] == e1[i];
        lemma_clause_within(c1, c2, e1[i], full, delta, full2);
        assert(clause_envs(c2, e2[j], full2, full2).contains(x));
    }
}

proof fn lemma_conj_within(a: Seq<Clause>, b: Seq<Clause>, e1: Seq<Env>, e2: Seq<Env>, full: Db, delta: Db, full2: Db)
    requires
        conj_copy(a, b),
        db_within(delta, full2),
        db_within(full, full2),
        within(e1, e2),
    ensures
        within(conj(a, e1, full, delta), conj(b, e2, full2, full2)),
    decreases a.len(),
{
    if a.len() > 0 {
        let (pa, pb) = (a.drop_last(), b.drop_last());
        assert forall|i: int| 0 <= i < pa.len() implies clause_copy(#[trigger] pa[i], pb[i]) by {
            assert(pa[i] == a[i] && pb[i] == b[i]);
        }
        lemma_conj_within(pa, pb, e1, e2, full, delta, full2);
        assert(clause_copy(a[a.len() - 1], b[b.len() - 1]));
        lemma_step_within(a.last(), b.last(), conj(pa, e1, full, delta), conj(pb, e2, full2, full2), full, delta, full2);
    }
}

proof fn lemma_disj_within(a: Seq<Seq<Clause>>, b: Seq<Seq<Clause>>, e1: Seq<Env>, e2: Seq<Env>, full: Db, delta: Db, full2: Db)
    requires
        disj_copy(a, b),
        db_within(delta, full2),
        db_within(full, full2),
        within(e1, e2),
    ensures
        within(disj(a, e1, full, delta), disj(b, e2, full2, full2)),
    decreases a.len(),
{
    if a.len() > 0 {
        let (pa, pb) = (a.drop_last(), b.drop_last());
        assert forall|i: int| 0 <= i < pa.len() implies conj_copy(#[trigger] pa[i], pb[i]) by {
            assert(pa[i] == a[i] && pb[i] == b[i]);
        }
        lemma_disj_within(pa, pb, e1, e2, full, delta, full2);
        assert(conj_copy(a[a.len() - 1], b[b.len() - 1]));
        lemma_conj_within(a.last(), b.last(), e1, e2, full, delta, full2);
        lemma_within_concat(disj(pa, e1, full, delta), conj(a.last(), e1, full, delta),
            disj(pb, e2, full2, full2), conj(b.last(), e2, full2, full2));
    }
}

proof fn lemma_groups_within(a: Seq<Seq<Seq<Clause>>>, b: Seq<Seq<Seq<Clause>>>, e1: Seq<Env>, e2: Seq<Env>, full: Db, delta: Db, full2: Db)
    requires
        groups_copy(a, b),
        db_within(delta, full2),
        db_within(full, full2),
        within(e1, e2),
    ensures
        within(groups(a, e1, full, delta), groups(b, e2, full2, full2)),
    decreases a.len(),
{
    if a.len() > 0 {
        let (pa, pb) = (a.drop_last(), b.drop_last());
        assert forall|i: int| 0 <= i < pa.len() implies disj_copy(#[trigger] pa[i], pb[i]) by {
            assert(pa[i] == a[i] && pb[i] == b[i]);
        }
        lemma_groups_within(pa, pb, e1, e2, full, delta, full2);
        assert(disj_copy(a[a.len() - 1], b[b.len() - 1]));
        lemma_disj_within(a.last(), b.last(), groups(pa, e1, full, delta), groups(pb, e2, full2, full2), full, delta, full2);
    }
}

proof fn lemma_head_members(terms: Seq<Term>, envs: Seq<Env>, t: Seq<i64>)
    ensures
        head_facts(terms, envs).contains(t) <==>
            exists|i: int| 0 <= i < envs.len() && head_vals(terms, #[trigger] envs[i]) == Some(t),
    decreases envs.len(),
{
    if envs.len() > 0 {
        let pre = envs.drop_last();
        lemma_head_members(terms, pre, t);
        let a = head_facts(terms, pre);
        let o: Seq<Seq<i64>> = match head_vals(terms, envs.last()) {
            Some(u) => seq![u],
            None => Seq::empty(),
        };
        let all = a + o;
        assert(head_facts(terms, envs) == all);
        if all.contains(t) {
            let k = choose|k: int| 0 <= k < all.len() && all[k] == t;
            if k < a.len() {
                assert(a[k] == t);
                assert(a.contains(t));
                let i = choose|i: int| 0 <= i < pre.len() && head_vals(terms, #[trigger] pre[i]) == Some(t);
                assert(envs[i] == pre[i]);
            } else {
                assert(o[k - a.len()] == t);
                assert(envs[envs.len() - 1] == envs.last());
            }
        }
        if exists|i: int| 0 <= i < envs.len() && head_vals(terms, #[trigger] envs[i]) == Some(t) {
            let i = choose|i: int| 0 <= i < envs.len() && head_vals(terms, #[trigger] envs[i]) == Some(t);
            if i < pre.len() {
                assert(pre[i] == envs[i]);
                assert(a.contains(t));
                let k = choose|k: int| 0 <= k < a.len() && a[k] == t;
                assert(all[k] == t);
            } else {
                assert(envs[i] == envs.last());
                assert(all[a.len() as int] == t);
            }
        }
    }
}

/// Every tuple that a copy of rule `r` derives while some of its atoms read
/// `delta` is also derived by `r` from `full` alone, provided each relation
/// of `delta` holds only tuples of the same relation of `full`.
pub proof fn lemma_delta_copy_sound(v: Rule, r: Rule, h: int, full: Db, delta: Db, t: Seq<i64>)
    requires
        rule_copy(v, r),
        db_within(delta, full),
        0 <= h < r.heads@.len(),
        rule_facts(v, h, full, delta).contains(t),
    ensures
        rule_facts(r, h, full, full).contains(t),
{
    let e0 = seq![empty_env(r.nvars as nat)];
    let e1 = body_envs(v, full, delta);
    let e2 = body_envs(r, full, full);
    lemma_groups_within(body_view(v.body@), body_view(r.body@), e0, e0, full, delta, full);
    let terms = r.heads@[h].terms@;
    assert(v.heads@[h].terms@ == terms);
    lemma_head_members(terms, e1, t);
    lemma_head_members(terms, e2, t);
    let i = choose|i: int| 0 <= i < e1.len() && head_vals(terms, #[trigger] e1[i]) == Some(t);
    assert(e1.contains(e1[i]));
    let j = choose|j: int| 0 <= j < e2.len() && e2[j] == e1[i];
    assert(head_vals(terms, e2[j]) == Some(t));
}

proof fn lemma_rule_copy_refl(r: Rule)
    ensures
        rule_copy(r, r),
{
    let b = body_view(r.body@);
    assert forall|g: int| 0 <= g < b.len() implies disj_copy(#[trigger] b[g], b[g]) by {
        assert forall|a: int| 0 <= a < b[g].len() implies conj_copy(#[trigger] b[g][a], b[g][a]) by {
            assert forall|c: int| 0 <= c < b[g][a].len() implies clause_copy(#[trigger] b[g][a][c], b[g][a][c]) by {
                match b[g][a][c] {
                    Clause::Atom { .. } => {},
                    Clause::Guard { .. } => {},
                    Clause::Range { .. } => {},
                }
            }
        }
    }
}

/// Derivation is monotone: what a rule derives from stores `f1` it also
/// derives from stores `f2` that hold every tuple of `f1`.
pub proof fn lemma_rule_facts_mono(r: Rule, h: int, f1: Db, f2: Db, t: Seq<i64>)
    requires
        db_within(f1, f2),
        0 <= h < r.heads@.len(),
        rule_facts(r, h, f1, f1).contains(t),
    ensures
        rule_facts(r, h, f2, f2).contains(t),
{
    lemma_rule_copy_refl(r);
    let e0 = seq![empty_env(r.nvars as nat)];
    let e1 = body_envs(r, f1, f1);
    let e2 = body_envs(r, f2, f2);
    lemma_groups_within(body_view(r.body@), body_view(r.body@), e0, e0, f1, f1, f2);
    let terms = r.heads@[h].terms@;
    lemma_head_members(terms, e1, t);
    lemma_head_members(terms, e2, t);
    let i = choose|i: int| 0 <= i < e1.len() && head_vals(terms, #[trigger] e1[i]) == Some(t);
    assert(e1.contains(e1[i]));
    let j = choose|j: int| 0 <= j < e2.len() && e2[j] == e1[i];
    assert(head_vals(terms, e2[j]) == Some(t));
}

} // verus!
