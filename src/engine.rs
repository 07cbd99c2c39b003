//! The program driver and the semi-naive fixpoint executor.
use vstd::prelude::*;
use crate::store::{covers, deep, insert_all, insert_spec, lemma_insert_covers, lemma_insert_keeps_covers, Relation};
use crate::rule::{body_envs, db_of, eval_body, eval_head, head_facts, rule_facts, Clause, Db, Env, Head, Rule, Source, Term};
use crate::store::RelKind;
use crate::plan::{check_bindings, well_bound};
use crate::seminaive::{clause_copy, conj_copy, db_within, disj_copy, groups_copy, lemma_rule_facts_mono, rule_copy};
use crate::store::lemma_plain_offers;
use crate::rule::rel_at;
use crate::rule::body_view;

verus! {

/// An atom clause names one of `rels`, with one term per column when
/// `arity` is set.
pub open spec fn clause_ok(c: Clause, rels: Seq<Relation>, arity: bool) -> bool {
    match c {
        Clause::Atom { rel, terms, .. } => rel < rels.len() && (arity ==> terms@.len() == rels[rel as int].arity),
        _ => true,
    }
}

/// Every atom of the body of `r` satisfies `clause_ok`.
pub open spec fn atoms_ok(r: Rule, rels: Seq<Relation>, arity: bool) -> bool {
    forall|g: int, a: int, c: int|
        0 <= g < r.body@.len() && 0 <= a < r.body@[g]@.len() && 0 <= c < r.body@[g]@[a]@.len()
        ==> clause_ok(#[trigger] r.body@[g]@[a]@[c], rels, arity)
}

fn atoms_ok_exec(r: &Rule, rels: &Vec<Relation>, arity: bool) -> (ok: bool)
    ensures
        ok == atoms_ok(*r, rels@, arity),
{
    let mut g: usize = 0;
    while g < r.body.len()
        invariant
            g <= r.body@.len(),
            forall|g2: int, a: int, c: int|
                0 <= g2 < g && 0 <= a < r.body@[g2]@.len() && 0 <= c < r.body@[g2]@[a]@.len()
                ==> clause_ok(#[trigger] r.body@[g2]@[a]@[c], rels@, arity),
        decreases r.body@.len() - g,
    {
        let mut a: usize = 0;
        while a < r.body[g].len()
            invariant
                g < r.body@.len(),
                a <= r.body@[g as int]@.len(),
                forall|g2: int, a2: int, c: int|
                    0 <= g2 < g && 0 <= a2 < r.body@[g2]@.len() && 0 <= c < r.body@[g2]@[a2]@.len()
                    ==> clause_ok(#[trigger] r.body@[g2]@[a2]@[c], rels@, arity),
                forall|a2: int, c: int| 0 <= a2 < a && 0 <= c < r.body@[g as int]@[a2]@.len()
                    ==> clause_ok(#[trigger] r.body@[g as int]@[a2]@[c], rels@, arity),
            decreases r.body@[g as int]@.len() - a,
        {
            let mut c: usize = 0;
            while c < r.body[g][a].len()
                invariant
                    g < r.body@.len(),
                    a < r.body@[g as int]@.len(),
                    c <= r.body@[g as int]@[a as int]@.len(),
                    forall|g2: int, a2: int, c2: int|
                        0 <= g2 < g && 0 <= a2 < r.body@[g2]@.len() && 0 <= c2 < r.body@[g2]@[a2]@.len()
                        ==> clause_ok(#[trigger] r.body@[g2]@[a2]@[c2], rels@, arity),
                    forall|a2: int, c2: int| 0 <= a2 < a && 0 <= c2 < r.body@[g as int]@[a2]@.len()
                        ==> clause_ok(#[trigger] r.body@[g as int]@[a2]@[c2], rels@, arity),
                    forall|c2: int| 0 <= c2 < c ==> clause_ok(#[trigger] r.body@[g as int]@[a as int]@[c2], rels@, arity),
                decreases r.body@[g as int]@[a as int]@.len() - c,
            {
                let ok = match &r.body[g][a][c] {
                    Clause::Atom { rel, terms, .. } => *rel < rels.len() && (!arity || terms.len() == rels[*rel].arity),
                    _ => true,
                };
                if !ok {
                    assert(!clause_ok(r.body@[g as int]@[a as int]@[c as int], rels@, arity));
                    return false;
                }
                c = c + 1;
            }
            a = a + 1;
        }
        g = g + 1;
    }
    true
}

/// The kind of each relation.
pub open spec fn kinds_of(rels: Seq<Relation>) -> Seq<RelKind> {
    rels.map_values(|r: Relation| r.kind)
}

/// The stores after every tuple of `facts` is offered in turn to relation `i`.
pub open spec fn offer_all(kinds: Seq<RelKind>, db: Db, i: int, facts: Seq<Seq<i64>>) -> Db {
    db.update(i, insert_all(kinds[i], db[i], facts))
}

/// The stores after the first `n` heads of `r` offer what they derive from
/// `full` and `delta`.
pub open spec fn heads_round(r: Rule, n: int, kinds: Seq<RelKind>, full: Db, delta: Db, db: Db) -> Db
    decreases n,
{
    if n <= 0 {
        db
    } else {
        offer_all(kinds, heads_round(r, n - 1, kinds, full, delta, db), r.heads@[n - 1].rel as int,
            rule_facts(r, n - 1, full, delta))
    }
}

/// The stores after every rule of `rules`, in order, offers what it derives
/// from `full` and `delta`.
pub open spec fn rules_round(rules: Seq<Rule>, kinds: Seq<RelKind>, full: Db, delta: Db, db: Db) -> Db
    decreases rules.len(),
{
    if rules.len() == 0 {
        db
    } else {
        heads_round(rules.last(), rules.last().heads@.len() as int, kinds, full, delta,
            rules_round(rules.drop_last(), kinds, full, delta, db))
    }
}

/// One naive round: every rule evaluated over the stores as they stand.
pub open spec fn naive_step(rules: Seq<Rule>, kinds: Seq<RelKind>, db: Db) -> Db {
    rules_round(rules, kinds, db, db, db)
}

/// The stores after `k` naive rounds.
pub open spec fn naive(rules: Seq<Rule>, kinds: Seq<RelKind>, db: Db, k: nat) -> Db
    decreases k,
{
    if k == 0 {
        db
    } else {
        naive_step(rules, kinds, naive(rules, kinds, db, (k - 1) as nat))
    }
}

/// Every head of every rule names one of `n` relations.
pub open spec fn heads_in(rules: Seq<Rule>, n: nat) -> bool {
    forall|k: int, h: int| 0 <= k < rules.len() && 0 <= h < rules[k].heads@.len() ==> (#[trigger] rules[k].heads@[h]).rel < n
}

/// Some head of some rule, aimed at relation `i`, derives `u`.
pub open spec fn derived(rules: Seq<Rule>, full: Db, delta: Db, i: int, u: Seq<i64>) -> bool {
    exists|k: int, h: int| 0 <= k < rules.len() && 0 <= h < rules[k].heads@.len()
        && rules[k].heads@[h].rel == i && #[trigger] rule_facts(rules[k], h, full, delta).contains(u)
}

proof fn lemma_heads_round_members(r: Rule, n: int, kinds: Seq<RelKind>, full: Db, delta: Db, db: Db, i: int, u: Seq<i64>)
    requires
        0 <= n <= r.heads@.len(),
        kinds.len() == db.len(),
        forall|h: int| 0 <= h < r.heads@.len() ==> (#[trigger] r.heads@[h]).rel < db.len(),
        0 <= i < db.len(),
        kinds[i] == RelKind::Plain,
    ensures
        heads_round(r, n, kinds, full, delta, db).len() == db.len(),
        heads_round(r, n, kinds, full, delta, db)[i].contains(u) <==> db[i].contains(u)
            || exists|h: int| 0 <= h < n && r.heads@[h].rel == i && #[trigger] rule_facts(r, h, full, delta).contains(u),
    decreases n,
{
    if n > 0 {
        lemma_heads_round_members(r, n - 1, kinds, full, delta, db, i, u);
        let prev = heads_round(r, n - 1, kinds, full, delta, db);
        let rel = r.heads@[n - 1].rel as int;
        if rel == i {
            lemma_plain_offers(prev[i], rule_facts(r, n - 1, full, delta), u);
        }
    }
}

/// What a plain relation holds after a round: what it held before, and
/// every tuple some head aimed at it derives. Rule order plays no part.
pub proof fn lemma_round_members(rules: Seq<Rule>, kinds: Seq<RelKind>, full: Db, delta: Db, db: Db, i: int, u: Seq<i64>)
    requires
        kinds.len() == db.len(),
        heads_in(rules, db.len()),
        0 <= i < db.len(),
        kinds[i] == RelKind::Plain,
    ensures
        rules_round(rules, kinds, full, delta, db).len() == db.len(),
        rules_round(rules, kinds, full, delta, db)[i].contains(u) <==> db[i].contains(u) || derived(rules, full, delta, i, u),
    decreases rules.len(),
{
    if rules.len() > 0 {
        let pre = rules.drop_last();
        let r = rules.last();
        assert(heads_in(pre, db.len())) by {
            assert forall|k: int, h: int| 0 <= k < pre.len() && 0 <= h < pre[k].heads@.len() implies (#[trigger] pre[k].heads@[h]).rel < db.len() by {
                assert(pre[k] == rules[k]);
            }
        }
        lemma_round_members(pre, kinds, full, delta, db, i, u);
        let mid = rules_round(pre, kinds, full, delta, db);
        assert(r == rules[rules.len() - 1]);
        lemma_heads_round_members(r, r.heads@.len() as int, kinds, full, delta, mid, i, u);
        if derived(rules, full, delta, i, u) {
            let (k, h) = choose|k: int, h: int| 0 <= k < rules.len() && 0 <= h < rules[k].heads@.len()
                && rules[k].heads@[h].rel == i && #[trigger] rule_facts(rules[k], h, full, delta).contains(u);
            if k < pre.len() {
                assert(pre[k] == rules[k]);
                assert(derived(pre, full, delta, i, u));
            }
        }
        if derived(pre, full, delta, i, u) {
            let (k, h) = choose|k: int, h: int| 0 <= k < pre.len() && 0 <= h < pre[k].heads@.len()
                && pre[k].heads@[h].rel == i && #[trigger] rule_facts(pre[k], h, full, delta).contains(u);
            assert(pre[k] == rules[k]);
            assert(derived(rules, full, delta, i, u));
        }
        if exists|h: int| 0 <= h < r.heads@.len() && r.heads@[h].rel == i && #[trigger] rule_facts(r, h, full, delta).contains(u) {
            let h = choose|h: int| 0 <= h < r.heads@.len() && r.heads@[h].rel == i && #[trigger] rule_facts(r, h, full, delta).contains(u);
            assert(rule_facts(rules[rules.len() - 1], h, full, delta).contains(u));
        }
    }
}

/// All relations are plain.
pub open spec fn all_plain(kinds: Seq<RelKind>) -> bool {
    forall|i: int| 0 <= i < kinds.len() ==> kinds[i] == RelKind::Plain
}

/// Every rule of `a` is also a rule of `b`.
pub open spec fn rules_within(a: Seq<Rule>, b: Seq<Rule>) -> bool {
    forall|m: int| 0 <= m < a.len() ==> exists|j: int| 0 <= j < b.len() && b[j] == #[trigger] a[m]
}

/// Naive evaluation does not depend on the order of the rules: for plain
/// relations, two lists holding the same rules give, after any number of
/// rounds, relations with the same tuples.
pub proof fn lemma_rule_order_independent(rules1: Seq<Rule>, rules2: Seq<Rule>, kinds: Seq<RelKind>, db: Db, k: nat)
    requires
        rules_within(rules1, rules2),
        rules_within(rules2, rules1),
        heads_in(rules1, db.len()),
        heads_in(rules2, db.len()),
        kinds.len() == db.len(),
        all_plain(kinds),
    ensures
        naive(rules1, kinds, db, k).len() == db.len(),
        naive(rules2, kinds, db, k).len() == db.len(),
        forall|i: int, u: Seq<i64>| 0 <= i < db.len() ==>
            (#[trigger] naive(rules1, kinds, db, k)[i].contains(u) <==> naive(rules2, kinds, db, k)[i].contains(u)),
    decreases k,
{
    if k > 0 {
        let km = (k - 1) as nat;
        lemma_rule_order_independent(rules1, rules2, kinds, db, km);
        let (a, b) = (naive(rules1, kinds, db, km), naive(rules2, kinds, db, km));
        lemma_same_members_within(a, b);
        lemma_same_members_within(b, a);
        assert forall|i: int, u: Seq<i64>| 0 <= i < db.len() implies
            (#[trigger] naive(rules1, kinds, db, k)[i].contains(u) <==> naive(rules2, kinds, db, k)[i].contains(u)) by {
            lemma_round_members(rules1, kinds, a, a, a, i, u);
            lemma_round_members(rules2, kinds, b, b, b, i, u);
            if derived(rules1, a, a, i, u) {
                lemma_derived_transfer(rules1, rules2, a, b, i, u);
            }
            if derived(rules2, b, b, i, u) {
                lemma_derived_transfer(rules2, rules1, b, a, i, u);
            }
        }
        lemma_round_len(rules1, kinds, a, a, a);
        lemma_round_len(rules2, kinds, b, b, b);
    }
}

proof fn lemma_round_len(rules: Seq<Rule>, kinds: Seq<RelKind>, full: Db, delta: Db, db: Db)
    requires
        heads_in(rules, db.len()),
    ensures
        rules_round(rules, kinds, full, delta, db).len() == db.len(),
    decreases rules.len(),
{
    if rules.len() > 0 {
        let pre = rules.drop_last();
        assert(heads_in(pre, db.len())) by {
            assert forall|k: int, h: int| 0 <= k < pre.len() && 0 <= h < pre[k].heads@.len() implies (#[trigger] pre[k].heads@[h]).rel < db.len() by {
                assert(pre[k] == rules[k]);
            }
        }
        lemma_round_len(pre, kinds, full, delta, db);
        lemma_heads_len(rules.last(), rules.last().heads@.len() as int, kinds, full, delta, rules_round(pre, kinds, full, delta, db));
        assert(rules.last() == rules[rules.len() - 1]);
    }
}

proof fn lemma_heads_len(r: Rule, n: int, kinds: Seq<RelKind>, full: Db, delta: Db, db: Db)
    requires
        n <= r.heads@.len(),
        forall|h: int| 0 <= h < r.heads@.len() ==> (#[trigger] r.heads@[h]).rel < db.len(),
    ensures
        heads_round(r, n, kinds, full, delta, db).len() == db.len(),
    decreases n,
{
    if n > 0 {
        lemma_heads_len(r, n - 1, kinds, full, delta, db);
    }
}

proof fn lemma_same_members_within(a: Db, b: Db)
    requires
        a.len() == b.len(),
        forall|i: int, u: Seq<i64>| 0 <= i < a.len() ==> (#[trigger] a[i].contains(u) <==> b[i].contains(u)),
    ensures
        db_within(a, b),
{
    assert forall|i: usize| #![trigger rel_at(a, i)] crate::seminaive::within(rel_at(a, i), rel_at(b, i)) by {
        assert forall|x: Seq<i64>| #[trigger] rel_at(a, i).contains(x) implies rel_at(b, i).contains(x) by {
            if i < a.len() {
                assert(a[i as int].contains(x));
            }
        }
    }
}

proof fn lemma_derived_transfer(r1: Seq<Rule>, r2: Seq<Rule>, a: Db, b: Db, i: int, u: Seq<i64>)
    requires
        rules_within(r1, r2),
        db_within(a, b),
        derived(r1, a, a, i, u),
    ensures
        derived(r2, b, b, i, u),
{
    let (k, h) = choose|k: int, h: int| 0 <= k < r1.len() && 0 <= h < r1[k].heads@.len()
        && r1[k].heads@[h].rel == i && #[trigger] rule_facts(r1[k], h, a, a).contains(u);
    let j = choose|j: int| 0 <= j < r2.len() && r2[j] == #[trigger] r1[k];
    lemma_rule_facts_mono(r1[k], h, a, b, u);
    assert(rule_facts(r2[j], h, b, b).contains(u));
}

/// Every head of `r` names a relation of `rels` and gives one term per column.
pub open spec fn rule_valid(r: Rule, rels: Seq<Relation>) -> bool {
    forall|h: int| 0 <= h < r.heads@.len() ==> {
        let hd = #[trigger] r.heads@[h];
        hd.rel < rels.len() && hd.terms@.len() == rels[hd.rel as int].arity
    }
}

pub open spec fn rules_valid(rules: Seq<Rule>, rels: Seq<Relation>) -> bool {
    forall|k: int| 0 <= k < rules.len() ==> rule_valid(#[trigger] rules[k], rels)
}

pub open spec fn rels_wf(rels: Seq<Relation>) -> bool {
    forall|i: int| 0 <= i < rels.len() ==> (#[trigger] rels[i]).wf()
}

/// `a` and `b` hold relations of the same arities and kinds.
pub open spec fn same_shape(a: Seq<Relation>, b: Seq<Relation>) -> bool {
    &&& a.len() == b.len()
    &&& forall|i: int| 0 <= i < a.len() ==> (#[trigger] a[i]).arity == b[i].arity && a[i].kind == b[i].kind
}

/// `b` holds every relation of `a` with the same contents.
pub open spec fn same_db(a: Seq<Relation>, b: Seq<Relation>) -> bool {
    same_shape(a, b) && forall|i: int| 0 <= i < a.len() ==> (#[trigger] a[i]).view() == b[i].view()
}

/// Whether tuple `u` adds nothing to relation `i` of `rels`.
pub open spec fn covered(rels: Seq<Relation>, i: int, u: Seq<i64>) -> bool {
    covers(rels[i].kind, rels[i].view(), u)
}

/// Nothing that `a` covers is lost in `b`: tuples are never removed, and
/// lattice values only move up.
pub open spec fn grows(a: Seq<Relation>, b: Seq<Relation>) -> bool {
    &&& same_shape(a, b)
    &&& forall|i: int, u: Seq<i64>| 0 <= i < a.len() && u.len() == a[i].arity && #[trigger] covered(a, i, u)
        ==> #[trigger] covered(b, i, u)
}

/// Every tuple that a head of `r` derives from `full` and `delta` is covered by `rels`.
pub open spec fn rule_covered(r: Rule, full: Db, delta: Db, rels: Seq<Relation>) -> bool {
    forall|h: int, j: int| 0 <= h < r.heads@.len() && 0 <= j < rule_facts(r, h, full, delta).len()
        ==> covered(rels, r.heads@[h].rel as int, #[trigger] rule_facts(r, h, full, delta)[j])
}

/// Every tuple that a rule of `rules` derives from `full` and `delta` is covered by `rels`.
pub open spec fn all_covered(rules: Seq<Rule>, full: Db, delta: Db, rels: Seq<Relation>) -> bool {
    forall|k: int| 0 <= k < rules.len() ==> rule_covered(#[trigger] rules[k], full, delta, rels)
}

/// The fixpoint condition: one more naive round over `rels` adds nothing.
pub open spec fn saturated(rules: Seq<Rule>, rels: Seq<Relation>) -> bool {
    all_covered(rules, db_of(rels), db_of(rels), rels)
}

/// Once the stores are saturated, one more round is a no-op: offering any
/// tuple that any head of any rule derives from them leaves its relation
/// unchanged.
pub proof fn lemma_saturated_round_adds_nothing(rules: Seq<Rule>, rels: Seq<Relation>, k: int, h: int, j: int)
    requires
        saturated(rules, rels),
        0 <= k < rules.len(),
        0 <= h < rules[k].heads@.len(),
        0 <= j < rule_facts(rules[k], h, db_of(rels), db_of(rels)).len(),
    ensures
        ({
            let i = rules[k].heads@[h].rel as int;
            insert_spec(rels[i].kind, rels[i].view(), rule_facts(rules[k], h, db_of(rels), db_of(rels))[j])
                == rels[i].view()
        }),
{
    assert(rule_covered(rules[k], db_of(rels), db_of(rels), rels));
}

proof fn lemma_head_facts_len(terms: Seq<Term>, envs: Seq<Env>)
    ensures
        forall|j: int| 0 <= j < head_facts(terms, envs).len() ==> (#[trigger] head_facts(terms, envs)[j]).len() == terms.len(),
    decreases envs.len(),
{
    if envs.len() > 0 {
        lemma_head_facts_len(terms, envs.drop_last());
        lemma_head_vals_len(terms, envs.last());
        let p = head_facts(terms, envs.drop_last());
        assert forall|j: int| 0 <= j < p.len() implies head_facts(terms, envs)[j] == p[j] by {}
    }
}

proof fn lemma_head_vals_len(terms: Seq<Term>, env: Env)
    ensures
        crate::rule::head_vals(terms, env) matches Some(t) ==> t.len() == terms.len(),
    decreases terms.len(),
{
    if terms.len() > 0 {
        lemma_head_vals_len(terms.drop_last(), env);
    }
}

/// Offers tuple `t` to relation `i`, and records it in `next` when it was new.
fn rel_insert(rels: &mut Vec<Relation>, next: &mut Vec<Relation>, i: usize, t: Vec<i64>) -> (changed: bool)
    requires
        i < old(rels)@.len(),
        rels_wf(old(rels)@),
        rels_wf(old(next)@),
        same_shape(old(rels)@, old(next)@),
        t@.len() == old(rels)@[i as int].arity,
    ensures
        rels_wf(final(rels)@),
        rels_wf(final(next)@),
        same_shape(old(rels)@, final(rels)@),
        same_shape(old(rels)@, final(next)@),
        forall|j: int| 0 <= j < old(rels)@.len() && j != i ==> final(rels)@[j] == old(rels)@[j],
        final(rels)@[i as int].view() == insert_spec(old(rels)@[i as int].kind, old(rels)@[i as int].view(), t@),
        changed == !covered(old(rels)@, i as int, t@),
{
    let td = t.clone();
    assert(td@ =~= t@);
    let ghost (r0, n0) = (rels@, next@);
    let mut r = rels.remove(i);
    let changed = r.insert(t);
    rels.insert(i, r);
    assert forall|j: int| 0 <= j < r0.len() && j != i implies rels@[j] == r0[j] by {
        if j < i {
            assert(rels@[j] == r0[j]);
        } else {
            assert(rels@[j] == r0[j]);
        }
    }
    if changed {
        let mut d = next.remove(i);
        d.insert(td);
        next.insert(i, d);
        assert forall|j: int| 0 <= j < n0.len() && j != i implies next@[j] == n0[j] by {}
    }
    changed
}

proof fn lemma_insert_grows(a: Seq<Relation>, b: Seq<Relation>, i: int, t: Seq<i64>)
    requires
        0 <= i < a.len(),
        rels_wf(a),
        same_shape(a, b),
        forall|j: int| 0 <= j < a.len() && j != i ==> b[j] == a[j],
        b[i].view() == insert_spec(a[i].kind, a[i].view(), t),
        t.len() == a[i].arity,
    ensures
        grows(a, b),
        covered(b, i, t),
{
    assert forall|j: int, u: Seq<i64>| 0 <= j < a.len() && u.len() == a[j].arity && #[trigger] covered(a, j, u)
        implies #[trigger] covered(b, j, u) by {
        if j == i {
            assert(a[i].wf());
            lemma_insert_keeps_covers(a[i].kind, a[i].arity as nat, a[i].view(), t, u);
        }
    }
    assert(a[i].wf());
    lemma_insert_covers(a[i].kind, a[i].arity as nat, a[i].view(), t);
}

proof fn lemma_grows_trans(a: Seq<Relation>, b: Seq<Relation>, c: Seq<Relation>)
    requires
        grows(a, b),
        grows(b, c),
    ensures
        grows(a, c),
{
    assert forall|j: int, u: Seq<i64>| 0 <= j < a.len() && u.len() == a[j].arity && #[trigger] covered(a, j, u)
        implies #[trigger] covered(c, j, u) by {
        assert(covered(b, j, u));
    }
}

proof fn lemma_shape_trans(a: Seq<Relation>, b: Seq<Relation>, c: Seq<Relation>)
    requires
        same_shape(a, b),
        same_shape(a, c),
    ensures
        same_shape(b, c),
        same_shape(b, a),
{
    assert forall|i: int| 0 <= i < b.len() implies (#[trigger] b[i]).arity == c[i].arity && b[i].kind == c[i].kind by {
        assert(a[i].arity == b[i].arity);
    }
    assert forall|i: int| 0 <= i < b.len() implies (#[trigger] b[i]).arity == a[i].arity && b[i].kind == a[i].kind by {
        assert(a[i].arity == b[i].arity);
    }
}

proof fn lemma_same_db_trans(a: Seq<Relation>, b: Seq<Relation>, c: Seq<Relation>)
    requires
        same_db(a, b),
        same_db(b, c),
    ensures
        same_db(a, c),
{
    assert forall|i: int| 0 <= i < a.len() implies (#[trigger] a[i]).view() == c[i].view()
        && a[i].arity == c[i].arity && a[i].kind == c[i].kind by {
        assert(b[i].view() == c[i].view() && b[i].arity == c[i].arity);
    }
}

proof fn lemma_grows_refl(a: Seq<Relation>)
    ensures
        grows(a, a),
{
}

/// Offers every tuple of `facts` to relation `i`.
fn insert_facts(rels: &mut Vec<Relation>, next: &mut Vec<Relation>, i: usize, facts: &Vec<Vec<i64>>) -> (changed: bool)
    requires
        i < old(rels)@.len(),
        rels_wf(old(rels)@),
        rels_wf(old(next)@),
        same_shape(old(rels)@, old(next)@),
        forall|j: int| 0 <= j < facts@.len() ==> (#[trigger] facts@[j])@.len() == old(rels)@[i as int].arity,
    ensures
        rels_wf(final(rels)@),
        rels_wf(final(next)@),
        same_shape(old(rels)@, final(next)@),
        grows(old(rels)@, final(rels)@),
        forall|j: int| 0 <= j < facts@.len() ==> covered(final(rels)@, i as int, (#[trigger] facts@[j])@),
        !changed ==> same_db(old(rels)@, final(rels)@),
        kinds_of(final(rels)@) == kinds_of(old(rels)@),
        db_of(final(rels)@) == offer_all(kinds_of(old(rels)@), db_of(old(rels)@), i as int, deep(facts@)),
{
    let ghost r0 = rels@;
    proof {
        assert(deep(facts@).take(0) =~= Seq::<Seq<i64>>::empty());
        assert(db_of(r0) =~= offer_all(kinds_of(r0), db_of(r0), i as int, deep(facts@).take(0)));
    }
    let mut changed = false;
    let mut j: usize = 0;
    while j < facts.len()
        invariant
            i < r0.len(),
            j <= facts@.len(),
            rels_wf(r0),
            rels_wf(rels@),
            rels_wf(next@),
            same_shape(r0, next@),
            same_shape(rels@, next@),
            grows(r0, rels@),
            forall|j: int| 0 <= j < facts@.len() ==> (#[trigger] facts@[j])@.len() == r0[i as int].arity,
            forall|m: int| 0 <= m < j ==> covered(rels@, i as int, (#[trigger] facts@[m])@),
            !changed ==> same_db(r0, rels@),
            kinds_of(rels@) == kinds_of(r0),
            db_of(rels@) == offer_all(kinds_of(r0), db_of(r0), i as int, deep(facts@).take(j as int)),
        decreases facts@.len() - j,
    {
        let ghost before = rels@;
        let t = facts[j].clone();
        assert(t@ =~= facts@[j as int]@);
        let ghost nb = next@;
        let c = rel_insert(rels, next, i, t);
        proof {
            lemma_shape_trans(before, rels@, next@);
            lemma_shape_trans(r0, before, nb);
            lemma_shape_trans(before, r0, next@);
            lemma_insert_grows(before, rels@, i as int, facts@[j as int]@);
            lemma_grows_trans(r0, before, rels@);
            assert forall|m: int| 0 <= m < j + 1 implies covered(rels@, i as int, (#[trigger] facts@[m])@) by {
                if m < j {
                    assert(covered(before, i as int, facts@[m]@));
                }
            }
            if !c {
                assert(same_db(before, rels@));
            }
            assert(kinds_of(rels@) =~= kinds_of(before));
            assert(deep(facts@).take(j + 1).drop_last() =~= deep(facts@).take(j as int));
            assert(deep(facts@).take(j + 1).last() == facts@[j as int]@);
            assert(db_of(rels@) =~= db_of(before).update(i as int, insert_spec(before[i as int].kind, before[i as int].view(), facts@[j as int]@)));
            assert(db_of(before)[i as int] == before[i as int].view());
            assert(kinds_of(r0)[i as int] == r0[i as int].kind);
            assert(r0[i as int].kind == before[i as int].kind);
            assert(insert_all(kinds_of(r0)[i as int], db_of(r0)[i as int], deep(facts@).take(j + 1))
                == insert_spec(before[i as int].kind, insert_all(kinds_of(r0)[i as int], db_of(r0)[i as int], deep(facts@).take(j as int)), facts@[j as int]@));
            assert(db_of(rels@) =~= offer_all(kinds_of(r0), db_of(r0), i as int, deep(facts@).take(j + 1)));
        }
        changed = changed || c;
        j = j + 1;
    }
    assert(deep(facts@).take(j as int) =~= deep(facts@));
    changed
}

proof fn lemma_rule_facts_len(r: Rule, h: int, full: Db, delta: Db, rels: Seq<Relation>)
    requires
        rule_valid(r, rels),
        0 <= h < r.heads@.len(),
    ensures
        forall|j: int| 0 <= j < rule_facts(r, h, full, delta).len() ==>
            (#[trigger] rule_facts(r, h, full, delta)[j]).len() == rels[r.heads@[h].rel as int].arity,
{
    let hd = r.heads@[h];
    lemma_head_facts_len(hd.terms@, body_envs(r, full, delta));
}

/// Evaluates rule `r` against `full` and `delta` and offers what its heads
/// derive to `rels`, recording new tuples in `next`.
fn apply_rule(r: &Rule, full: &Vec<Relation>, delta: &Vec<Relation>, rels: &mut Vec<Relation>, next: &mut Vec<Relation>) -> (changed: bool)
    requires
        rule_valid(*r, old(rels)@),
        rels_wf(old(rels)@),
        rels_wf(old(next)@),
        same_shape(old(rels)@, old(next)@),
    ensures
        rels_wf(final(rels)@),
        rels_wf(final(next)@),
        same_shape(old(rels)@, final(next)@),
        grows(old(rels)@, final(rels)@),
        rule_covered(*r, db_of(full@), db_of(delta@), final(rels)@),
        !changed ==> same_db(old(rels)@, final(rels)@),
        kinds_of(final(rels)@) == kinds_of(old(rels)@),
        db_of(final(rels)@) == heads_round(*r, r.heads@.len() as int, kinds_of(old(rels)@), db_of(full@), db_of(delta@), db_of(old(rels)@)),
{
    let ghost r0 = rels@;
    let ghost (fd, dd) = (db_of(full@), db_of(delta@));
    let envs = eval_body(r, full, delta);
    let mut changed = false;
    let mut h: usize = 0;
    proof { lemma_grows_refl(r0); }
    while h < r.heads.len()
        invariant
            h <= r.heads@.len(),
            fd == db_of(full@),
            dd == db_of(delta@),
            crate::rule::envs_of(envs@) == body_envs(*r, fd, dd),
            rule_valid(*r, r0),
            rels_wf(r0),
            rels_wf(rels@),
            rels_wf(next@),
            same_shape(r0, next@),
            same_shape(rels@, next@),
            grows(r0, rels@),
            forall|g: int, j: int| 0 <= g < h && 0 <= j < rule_facts(*r, g, fd, dd).len()
                ==> covered(rels@, r.heads@[g].rel as int, #[trigger] rule_facts(*r, g, fd, dd)[j]),
            !changed ==> same_db(r0, rels@),
            kinds_of(rels@) == kinds_of(r0),
            db_of(rels@) == heads_round(*r, h as int, kinds_of(r0), fd, dd, db_of(r0)),
        decreases r.heads@.len() - h,
    {
        let ghost before = rels@;
        let ghost nb = next@;
        let facts = eval_head(r, h, &envs);
        let rel = r.heads[h].rel;
        proof {
            assert(r.heads@[h as int] == r.heads@[h as int]);
            lemma_rule_facts_len(*r, h as int, fd, dd, r0);
            assert forall|j: int| 0 <= j < facts@.len() implies (#[trigger] facts@[j])@.len() == rels@[rel as int].arity by {
                assert(crate::store::deep(facts@)[j] == facts@[j]@);
                assert(rule_facts(*r, h as int, fd, dd)[j] == facts@[j]@);
            }
        }
        let c = insert_facts(rels, next, rel, &facts);
        proof {
            lemma_grows_trans(r0, before, rels@);
            lemma_shape_trans(before, next@, nb);
            lemma_shape_trans(r0, before, nb);
            lemma_shape_trans(before, r0, next@);
            lemma_shape_trans(r0, next@, rels@);
            lemma_rule_facts_len(*r, h as int, fd, dd, r0);
            assert forall|g: int, j: int| 0 <= g < h + 1 && 0 <= j < rule_facts(*r, g, fd, dd).len()
                implies covered(rels@, r.heads@[g].rel as int, #[trigger] rule_facts(*r, g, fd, dd)[j]) by {
                if g < h {
                    lemma_rule_facts_len(*r, g, fd, dd, r0);
                    assert(covered(before, r.heads@[g].rel as int, rule_facts(*r, g, fd, dd)[j]));
                } else {
                    assert(crate::store::deep(facts@)[j] == facts@[j]@);
                }
            }
            if !c && !changed {
                lemma_same_db_trans(r0, before, rels@);
            }
            assert(deep(facts@) == rule_facts(*r, h as int, fd, dd));
        }
        changed = changed || c;
        h = h + 1;
    }
    changed
}

proof fn lemma_valid_shape(rules: Seq<Rule>, a: Seq<Relation>, b: Seq<Relation>)
    requires
        rules_valid(rules, a),
        same_shape(a, b),
    ensures
        rules_valid(rules, b),
{
    assert forall|k: int| 0 <= k < rules.len() implies rule_valid(#[trigger] rules[k], b) by {
        assert(rule_valid(rules[k], a));
        assert forall|h: int| 0 <= h < rules[k].heads@.len() implies {
            let hd = #[trigger] rules[k].heads@[h];
            hd.rel < b.len() && hd.terms@.len() == b[hd.rel as int].arity
        } by {
            let hd = rules[k].heads@[h];
            assert(a[hd.rel as int].arity == b[hd.rel as int].arity);
        }
    }
}

/// One round: applies every rule of `rules`, reading `full` and `delta`.
fn round(rules: &Vec<Rule>, full: &Vec<Relation>, delta: &Vec<Relation>, rels: &mut Vec<Relation>, next: &mut Vec<Relation>) -> (changed: bool)
    requires
        rules_valid(rules@, old(rels)@),
        rels_wf(old(rels)@),
        rels_wf(old(next)@),
        same_shape(old(rels)@, old(next)@),
    ensures
        rels_wf(final(rels)@),
        rels_wf(final(next)@),
        same_shape(old(rels)@, final(next)@),
        grows(old(rels)@, final(rels)@),
        all_covered(rules@, db_of(full@), db_of(delta@), final(rels)@),
        !changed ==> same_db(old(rels)@, final(rels)@),
        kinds_of(final(rels)@) == kinds_of(old(rels)@),
        db_of(final(rels)@) == rules_round(rules@, kinds_of(old(rels)@), db_of(full@), db_of(delta@), db_of(old(rels)@)),
{
    let ghost r0 = rels@;
    let ghost (fd, dd) = (db_of(full@), db_of(delta@));
    let mut changed = false;
    let mut k: usize = 0;
    assert(rules@.take(0) =~= Seq::<Rule>::empty());
    proof { lemma_grows_refl(r0); }
    while k < rules.len()
        invariant
            k <= rules@.len(),
            fd == db_of(full@),
            dd == db_of(delta@),
            rules_valid(rules@, r0),
            rels_wf(r0),
            rels_wf(rels@),
            rels_wf(next@),
            same_shape(r0, next@),
            same_shape(rels@, next@),
            grows(r0, rels@),
            forall|m: int| 0 <= m < k ==> rule_covered(#[trigger] rules@[m], fd, dd, rels@),
            !changed ==> same_db(r0, rels@),
            kinds_of(rels@) == kinds_of(r0),
            db_of(rels@) == rules_round(rules@.take(k as int), kinds_of(r0), fd, dd, db_of(r0)),
        decreases rules@.len() - k,
    {
        let ghost before = rels@;
        let ghost nb = next@;
        proof {
            lemma_valid_shape(rules@, r0, rels@);
        }
        let c = apply_rule(&rules[k], full, delta, rels, next);
        proof {
            lemma_grows_trans(r0, before, rels@);
            lemma_shape_trans(before, next@, nb);
            lemma_shape_trans(r0, before, nb);
            lemma_shape_trans(before, r0, next@);
            lemma_shape_trans(r0, next@, rels@);
            assert forall|m: int| 0 <= m < k + 1 implies rule_covered(#[trigger] rules@[m], fd, dd, rels@) by {
                if m < k {
                    let r = rules@[m];
                    assert(rule_covered(r, fd, dd, before));
                    assert forall|h: int, j: int| 0 <= h < r.heads@.len() && 0 <= j < rule_facts(r, h, fd, dd).len()
                        implies covered(rels@, r.heads@[h].rel as int, #[trigger] rule_facts(r, h, fd, dd)[j]) by {
                        assert(rule_valid(r, r0));
                        lemma_rule_facts_len(r, h, fd, dd, r0);
                        assert(covered(before, r.heads@[h].rel as int, rule_facts(r, h, fd, dd)[j]));
                    }
                }
            }
            if !c && !changed {
                lemma_same_db_trans(r0, before, rels@);
            }
            assert(rules@.take(k + 1).drop_last() =~= rules@.take(k as int));
            assert(rules@.take(k + 1).last() == rules@[k as int]);
        }
        changed = changed || c;
        k = k + 1;
    }
    assert(rules@.take(k as int) =~= rules@);
    changed
}

/// Every rule of `vs` is a copy of some rule of `rules`, some of its atoms
/// reading another source.
pub open spec fn copies_of(vs: Seq<Rule>, rules: Seq<Rule>) -> bool {
    forall|m: int| 0 <= m < vs.len() ==> exists|k: int| 0 <= k < rules.len() && rule_copy(#[trigger] vs[m], rules[k])
}

/// Copies of the relations, with the same contents.
fn copy_rels(rels: &Vec<Relation>) -> (r: Vec<Relation>)
    requires
        rels_wf(rels@),
    ensures
        same_db(rels@, r@),
        rels_wf(r@),
        db_of(r@) == db_of(rels@),
{
    let mut out: Vec<Relation> = Vec::new();
    let mut i: usize = 0;
    while i < rels.len()
        invariant
            i <= rels@.len(),
            rels_wf(rels@),
            out@.len() == i,
            forall|j: int| 0 <= j < i ==> (#[trigger] out@[j]).view() == rels@[j].view()
                && out@[j].arity == rels@[j].arity && out@[j].kind == rels@[j].kind,
        decreases rels@.len() - i,
    {
        out.push(rels[i].copy());
        i = i + 1;
    }
    assert(db_of(out@) =~= db_of(rels@));
    assert forall|j: int| 0 <= j < out@.len() implies (#[trigger] out@[j]).wf() by {
        assert(rels@[j].wf());
    }
    out
}

/// Whether the two lists of relations have the same contents.
fn same_contents(a: &Vec<Relation>, b: &Vec<Relation>) -> (r: bool)
    ensures
        r == (db_of(a@) == db_of(b@)),
{
    if a.len() != b.len() {
        assert(db_of(a@).len() != db_of(b@).len());
        return false;
    }
    let mut i: usize = 0;
    while i < a.len()
        invariant
            a@.len() == b@.len(),
            i <= a@.len(),
            forall|j: int| 0 <= j < i ==> (#[trigger] a@[j]).view() == b@[j].view(),
        decreases a@.len() - i,
    {
        let (x, y) = (&a[i], &b[i]);
        if x.len() != y.len() {
            assert(db_of(a@)[i as int] != db_of(b@)[i as int]);
            return false;
        }
        let mut t: usize = 0;
        while t < x.len()
            invariant
                a@.len() == b@.len(),
                i < a@.len(),
                *x == a@[i as int],
                *y == b@[i as int],
                x.view().len() == y.view().len(),
                t <= x.view().len(),
                forall|u: int| 0 <= u < t ==> x.view()[u] == y.view()[u],
            decreases x.view().len() - t,
        {
            if !crate::store::tuple_eq(x.get(t), y.get(t)) {
                assert(db_of(a@)[i as int][t as int] != db_of(b@)[i as int][t as int]);
                return false;
            }
            t = t + 1;
        }
        assert(x.view() =~= y.view());
        i = i + 1;
    }
    assert(db_of(a@) =~= db_of(b@));
    true
}

/// Empty relations of the same arities and kinds.
fn empty_like(rels: &Vec<Relation>) -> (r: Vec<Relation>)
    requires
        rels_wf(rels@),
    ensures
        same_shape(rels@, r@),
        rels_wf(r@),
{
    let mut out: Vec<Relation> = Vec::new();
    let mut i: usize = 0;
    while i < rels.len()
        invariant
            i <= rels@.len(),
            rels_wf(rels@),
            out@.len() == i,
            rels_wf(out@),
            forall|j: int| 0 <= j < i ==> (#[trigger] out@[j]).arity == rels@[j].arity && out@[j].kind == rels@[j].kind,
        decreases rels@.len() - i,
    {
        assert(rels@[i as int].wf());
        out.push(Relation::new(rels[i].arity, rels[i].kind));
        i = i + 1;
    }
    out
}

/// Whether every relation is empty.
fn all_empty(rels: &Vec<Relation>) -> (r: bool)
    ensures
        r == forall|j: int| 0 <= j < rels@.len() ==> (#[trigger] rels@[j]).view().len() == 0,
{
    let mut i: usize = 0;
    while i < rels.len()
        invariant
            i <= rels@.len(),
            forall|j: int| 0 <= j < i ==> (#[trigger] rels@[j]).view().len() == 0,
        decreases rels@.len() - i,
    {
        if rels[i].len() != 0 {
            return false;
        }
        i = i + 1;
    }
    true
}

fn copy_terms(v: &Vec<Term>) -> (r: Vec<Term>)
    ensures
        r@ == v@,
{
    let mut out: Vec<Term> = Vec::new();
    let mut i: usize = 0;
    while i < v.len()
        invariant
            i <= v@.len(),
            out@ == v@.take(i as int),
        decreases v@.len() - i,
    {
        out.push(v[i]);
        assert(out@ =~= v@.take(i + 1));
        i = i + 1;
    }
    assert(v@.take(i as int) =~= v@);
    out
}

/// A copy of a clause; an atom reads the delta when `to_delta` is set.
fn copy_clause(c: &Clause, to_delta: bool) -> (r: Clause)
    ensures
        clause_copy(r, *c),
{
    match c {
        Clause::Atom { rel, terms, source } => Clause::Atom {
            rel: *rel,
            terms: copy_terms(terms),
            source: if to_delta { Source::Delta } else { *source },
        },
        Clause::Guard { cmp, left, right } => Clause::Guard { cmp: *cmp, left: *left, right: *right },
        Clause::Range { var, lo, hi } => Clause::Range { var: *var, lo: *lo, hi: *hi },
    }
}

fn copy_heads(hs: &Vec<Head>) -> (r: Vec<Head>)
    ensures
        r@.len() == hs@.len(),
        forall|h: int| 0 <= h < hs@.len() ==> (#[trigger] r@[h]).rel == hs@[h].rel && r@[h].terms@ == hs@[h].terms@,
{
    let mut out: Vec<Head> = Vec::new();
    let mut i: usize = 0;
    while i < hs.len()
        invariant
            i <= hs@.len(),
            out@.len() == i,
            forall|h: int| 0 <= h < i ==> (#[trigger] out@[h]).rel == hs@[h].rel && out@[h].terms@ == hs@[h].terms@,
        decreases hs@.len() - i,
    {
        out.push(Head { rel: hs[i].rel, terms: copy_terms(&hs[i].terms) });
        i = i + 1;
    }
    out
}

/// A copy of `r`; the clause at position `at`, if any, reads the delta.
fn copy_rule(r: &Rule, at: Option<(usize, usize, usize)>) -> (v: Rule)
    ensures
        rule_copy(v, *r),
{
    let ghost rb = body_view(r.body@);
    let mut body: Vec<Vec<Vec<Clause>>> = Vec::new();
    let mut gi: usize = 0;
    while gi < r.body.len()
        invariant
            gi <= r.body@.len(),
            rb == body_view(r.body@),
            body@.len() == gi,
            forall|g: int| 0 <= g < gi ==> disj_copy(#[trigger] body_view(body@)[g], rb[g]),
        decreases r.body@.len() - gi,
    {
        let mut alts: Vec<Vec<Clause>> = Vec::new();
        let mut ai: usize = 0;
        while ai < r.body[gi].len()
            invariant
                gi < r.body@.len(),
                ai <= r.body@[gi as int]@.len(),
                alts@.len() == ai,
                forall|a: int| 0 <= a < ai ==> conj_copy(#[trigger] alts@[a]@, r.body@[gi as int]@[a]@),
            decreases r.body@[gi as int]@.len() - ai,
        {
            let mut cs: Vec<Clause> = Vec::new();
            let mut ci: usize = 0;
            while ci < r.body[gi][ai].len()
                invariant
                    gi < r.body@.len(),
                    ai < r.body@[gi as int]@.len(),
                    ci <= r.body@[gi as int]@[ai as int]@.len(),
                    cs@.len() == ci,
                    forall|c: int| 0 <= c < ci ==> clause_copy(#[trigger] cs@[c], r.body@[gi as int]@[ai as int]@[c]),
                decreases r.body@[gi as int]@[ai as int]@.len() - ci,
            {
                let here = match at {
                    Some((g, a, c)) => gi == g && ai == a && ci == c,
                    None => false,
                };
                cs.push(copy_clause(&r.body[gi][ai][ci], here));
                ci = ci + 1;
            }
            alts.push(cs);
            proof {
                assert forall|a: int| 0 <= a < ai + 1 implies conj_copy(#[trigger] alts@[a]@, r.body@[gi as int]@[a]@) by {}
            }
            ai = ai + 1;
        }
        let ghost b0 = body@;
        body.push(alts);
        proof {
            assert forall|g: int| 0 <= g < gi + 1 implies disj_copy(#[trigger] body_view(body@)[g], rb[g]) by {
                if g < gi {
                    assert(body_view(body@)[g] == body_view(b0)[g]);
                }
            }
        }
        gi = gi + 1;
    }
    assert(groups_copy(body_view(body@), rb));
    Rule { nvars: r.nvars, body, heads: copy_heads(&r.heads) }
}

/// For every atom of every rule over a relation of rank `level` (of any
/// rank when `level` is `None`), a copy of the rule in which that atom
/// reads the delta: together they derive what the delta makes new.
fn delta_variants(rules: &Vec<Rule>, ranks: &Vec<usize>, level: Option<usize>, rels: Ghost<Seq<Relation>>) -> (vs: Vec<Rule>)
    requires
        rules_valid(rules@, rels@),
    ensures
        rules_valid(vs@, rels@),
        copies_of(vs@, rules@),
{
    let mut out: Vec<Rule> = Vec::new();
    let mut k: usize = 0;
    while k < rules.len()
        invariant
            k <= rules@.len(),
            rules_valid(rules@, rels@),
            rules_valid(out@, rels@),
            copies_of(out@, rules@),
        decreases rules@.len() - k,
    {
        let r = &rules[k];
        let mut g: usize = 0;
        while g < r.body.len()
            invariant
                k < rules@.len(),
                r == rules@[k as int],
                rules_valid(rules@, rels@),
                rules_valid(out@, rels@),
                copies_of(out@, rules@),
            decreases r.body@.len() - g,
        {
            let mut a: usize = 0;
            while a < r.body[g].len()
                invariant
                    k < rules@.len(),
                    g < r.body@.len(),
                    r == rules@[k as int],
                    rules_valid(rules@, rels@),
                    rules_valid(out@, rels@),
                    copies_of(out@, rules@),
                decreases r.body@[g as int]@.len() - a,
            {
                let mut c: usize = 0;
                while c < r.body[g][a].len()
                    invariant
                        k < rules@.len(),
                        g < r.body@.len(),
                        a < r.body@[g as int]@.len(),
                        r == rules@[k as int],
                        rules_valid(rules@, rels@),
                        rules_valid(out@, rels@),
                        copies_of(out@, rules@),
                    decreases r.body@[g as int]@[a as int]@.len() - c,
                {
                    let in_stratum = match &r.body[g][a][c] {
                        Clause::Atom { rel, .. } => match level {
                            None => true,
                            Some(l) => *rel < ranks.len() && ranks[*rel] == l,
                        },
                        _ => false,
                    };
                    if in_stratum {
                        let v = copy_rule(r, Some((g, a, c)));
                        proof {
                            assert(rule_valid(*r, rels@));
                            assert forall|h: int| 0 <= h < v.heads@.len() implies {
                                let hd = #[trigger] v.heads@[h];
                                hd.rel < rels@.len() && hd.terms@.len() == rels@[hd.rel as int].arity
                            } by {
                                assert(r.heads@[h] == r.heads@[h]);
                            }
                        }
                        let ghost o0 = out@;
                        out.push(v);
                        proof {
                            assert forall|m: int| 0 <= m < out@.len() implies rule_valid(#[trigger] out@[m], rels@) by {
                                if m < out@.len() - 1 {
                                    assert(out@[m] == out@.drop_last()[m]);
                                }
                            }
                            assert forall|m: int| 0 <= m < out@.len() implies exists|k2: int| 0 <= k2 < rules@.len() && rule_copy(#[trigger] out@[m], rules@[k2]) by {
                                if m < o0.len() {
                                    assert(out@[m] == o0[m]);
                                } else {
                                    assert(rule_copy(out@[m], rules@[k as int]));
                                }
                            }
                        }
                    }
                    c = c + 1;
                }
                a = a + 1;
            }
            g = g + 1;
        }
        k = k + 1;
    }
    out
}

/// The stratum of a rule: the highest rank among its heads.
fn stratum_of(r: &Rule, ranks: &Vec<usize>) -> usize {
    let mut top: usize = 0;
    let mut h: usize = 0;
    while h < r.heads.len()
        decreases r.heads@.len() - h,
    {
        let rel = r.heads[h].rel;
        if rel < ranks.len() && ranks[rel] > top {
            top = ranks[rel];
        }
        h = h + 1;
    }
    top
}

/// Copies of the rules whose stratum is `level`.
fn stratum_rules(rules: &Vec<Rule>, ranks: &Vec<usize>, level: usize, rels: Ghost<Seq<Relation>>) -> (out: Vec<Rule>)
    requires
        rules_valid(rules@, rels@),
    ensures
        rules_valid(out@, rels@),
        copies_of(out@, rules@),
{
    let mut out: Vec<Rule> = Vec::new();
    let mut k: usize = 0;
    while k < rules.len()
        invariant
            k <= rules@.len(),
            rules_valid(rules@, rels@),
            rules_valid(out@, rels@),
            copies_of(out@, rules@),
        decreases rules@.len() - k,
    {
        if stratum_of(&rules[k], ranks) == level {
            let r = &rules[k];
            let v = copy_rule(r, None);
            proof {
                assert(rule_valid(rules@[k as int], rels@));
                assert forall|h: int| 0 <= h < v.heads@.len() implies {
                    let hd = #[trigger] v.heads@[h];
                    hd.rel < rels@.len() && hd.terms@.len() == rels@[hd.rel as int].arity
                } by {
                    assert(r.heads@[h] == r.heads@[h]);
                }
            }
            let ghost o0 = out@;
            out.push(v);
            proof {
                assert forall|m: int| 0 <= m < out@.len() implies rule_valid(#[trigger] out@[m], rels@) by {
                    if m < out@.len() - 1 {
                        assert(out@[m] == out@.drop_last()[m]);
                    }
                }
                assert forall|m: int| 0 <= m < out@.len() implies exists|k2: int| 0 <= k2 < rules@.len() && rule_copy(#[trigger] out@[m], rules@[k2]) by {
                    if m < o0.len() {
                        assert(out@[m] == o0[m]);
                    } else {
                        assert(rule_copy(out@[m], rules@[k as int]));
                    }
                }
            }
        }
        k = k + 1;
    }
    out
}

/// Evaluates `rules` to a fixpoint in at most `fuel` rounds: a full round,
/// then rounds over `variants` reading the previous round's delta until
/// it comes out empty, then a full round again to confirm. Returns whether
/// saturation was confirmed, and the rounds left.
fn fixpoint(rels: &mut Vec<Relation>, rules: &Vec<Rule>, variants: &Vec<Rule>, budget: u64) -> (r: (bool, u64))
    requires
        rels_wf(old(rels)@),
        rules_valid(rules@, old(rels)@),
        rules_valid(variants@, old(rels)@),
    ensures
        rels_wf(final(rels)@),
        grows(old(rels)@, final(rels)@),
        r.1 <= budget,
        r.0 ==> saturated(rules@, final(rels)@),
        budget == 0 ==> !r.0,
{
    let ghost r0 = rels@;
    let mut fuel = budget;
    proof { lemma_grows_refl(r0); }
    while fuel > 0
        invariant
            r0 == old(rels)@,
            rels_wf(rels@),
            fuel <= budget,
            same_shape(r0, rels@),
            rules_valid(rules@, rels@),
            rules_valid(variants@, rels@),
            grows(r0, rels@),
        decreases fuel,
    {
        fuel = fuel - 1;
        let ghost before = rels@;
        let snap = copy_rels(rels);
        let mut next = empty_like(rels);
        let changed = round(rules, &snap, &snap, rels, &mut next);
        proof {
            lemma_grows_trans(r0, before, rels@);
            lemma_valid_shape(rules@, before, rels@);
            lemma_valid_shape(variants@, before, rels@);
            lemma_shape_trans(before, r0, rels@);
            lemma_shape_trans(r0, before, rels@);
        }
        if !changed {
            proof {
                assert(db_of(rels@) =~= db_of(snap@)) by {
                    assert forall|j: int| 0 <= j < rels@.len() implies rels@[j].view() == snap@[j].view() by {
                        assert(before[j].view() == snap@[j].view());
                        assert(before[j].view() == rels@[j].view());
                    }
                }
            }
            return (true, fuel);
        }
        let mut delta = next;
        let ghost f1 = fuel;
        proof { lemma_shape_trans(before, rels@, delta@); }
        while fuel > 0
            invariant
                rels_wf(rels@),
                fuel <= f1,
                f1 <= budget,
                same_shape(r0, rels@),
                same_shape(rels@, delta@),
                rels_wf(delta@),
                rules_valid(rules@, rels@),
                rules_valid(variants@, rels@),
                grows(r0, rels@),
            decreases fuel,
        {
            if all_empty(&delta) {
                break;
            }
            fuel = fuel - 1;
            let ghost b2 = rels@;
            let snap2 = copy_rels(rels);
            let mut nd = empty_like(rels);
            round(variants, &snap2, &delta, rels, &mut nd);
            proof {
                lemma_grows_trans(r0, b2, rels@);
                lemma_valid_shape(rules@, b2, rels@);
                lemma_valid_shape(variants@, b2, rels@);
                lemma_shape_trans(b2, r0, rels@);
                lemma_shape_trans(r0, b2, rels@);
                lemma_shape_trans(b2, rels@, nd@);
            }
            delta = nd;
        }
    }
    (false, fuel)
}

/// How a run ended.
#[derive(Clone, Copy, Debug, PartialEq, Eq, Structural)]
pub enum RunStatus {
    /// A full round over every rule added nothing: the stores are a fixpoint.
    Saturated,
    /// The round budget ran out first.
    OutOfRounds,
}

/// Why a declaration, fact or rule was refused.
#[derive(Clone, Copy, Debug, PartialEq, Eq, Structural)]
pub enum ProgramError {
    /// An index that names no declared relation.
    UnknownRelation,
    /// A tuple or a head whose length is not the relation's arity.
    ArityMismatch,
    /// A lattice relation needs a value column.
    NoLatticeColumn,
    /// A rule uses a variable before any clause binds it.
    UnboundVariable,
}

/// The program driver: the relations and the rules that derive into them.
pub struct Program {
    pub rels: Vec<Relation>,
    pub rules: Vec<Rule>,
}

impl Program {
    pub open spec fn wf(&self) -> bool {
        rels_wf(self.rels@) && rules_valid(self.rules@, self.rels@)
    }

    /// A program with no relations and no rules.
    pub fn new() -> (p: Program)
        ensures
            p.wf(),
            p.rels@.len() == 0,
            p.rules@.len() == 0,
    {
        Program { rels: Vec::new(), rules: Vec::new() }
    }

    /// Declares an empty relation of kind `kind` with `arity` columns and
    /// returns its index. A lattice relation keeps its value in the last
    /// column, so it needs at least one.
    pub fn declare(&mut self, arity: usize, kind: RelKind) -> (r: Result<usize, ProgramError>)
        requires
            old(self).wf(),
        ensures
            final(self).wf(),
            final(self).rules@ == old(self).rules@,
            (kind != RelKind::Plain && arity == 0) <==> r is Err,
            r is Err ==> r == Err::<usize, ProgramError>(ProgramError::NoLatticeColumn)
                && final(self).rels@ == old(self).rels@,
            r matches Ok(i) ==> i == old(self).rels@.len()
                && final(self).rels@.len() == i + 1
                && final(self).rels@.drop_last() == old(self).rels@
                && final(self).rels@[i as int].arity == arity
                && final(self).rels@[i as int].kind == kind
                && final(self).rels@[i as int].view().len() == 0,
    {
        if kind != RelKind::Plain && arity == 0 {
            return Err(ProgramError::NoLatticeColumn);
        }
        let ghost r0 = self.rels@;
        let i = self.rels.len();
        self.rels.push(Relation::new(arity, kind));
        proof {
            assert(self.rels@.drop_last() =~= r0);
            assert forall|j: int| 0 <= j < self.rels@.len() implies (#[trigger] self.rels@[j]).wf() by {
                if j < i {
                    assert(self.rels@[j] == r0[j]);
                }
            }
            assert(same_shape(r0, r0));
            assert forall|k: int| 0 <= k < self.rules@.len() implies rule_valid(#[trigger] self.rules@[k], self.rels@) by {
                let r = self.rules@[k];
                assert(rule_valid(r, r0));
                assert forall|h: int| 0 <= h < r.heads@.len() implies {
                    let hd = #[trigger] r.heads@[h];
                    hd.rel < self.rels@.len() && hd.terms@.len() == self.rels@[hd.rel as int].arity
                } by {
                    assert(self.rels@[r.heads@[h].rel as int] == r0[r.heads@[h].rel as int]);
                }
            }
        }
        Ok(i)
    }

    /// Offers a fact to relation `rel`; returns whether it changed the relation.
    pub fn insert_fact(&mut self, rel: usize, t: Vec<i64>) -> (r: Result<bool, ProgramError>)
        requires
            old(self).wf(),
        ensures
            final(self).wf(),
            final(self).rules@ == old(self).rules@,
            rel >= old(self).rels@.len() ==> r == Err::<bool, ProgramError>(ProgramError::UnknownRelation),
            rel < old(self).rels@.len() && t@.len() != old(self).rels@[rel as int].arity
                ==> r == Err::<bool, ProgramError>(ProgramError::ArityMismatch),
            rel < old(self).rels@.len() && t@.len() == old(self).rels@[rel as int].arity ==> r is Ok,
            r is Err ==> final(self).rels@ == old(self).rels@,
            r matches Ok(c) ==> rel < old(self).rels@.len()
                && t@.len() == old(self).rels@[rel as int].arity
                && c == !covered(old(self).rels@, rel as int, t@)
                && same_shape(old(self).rels@, final(self).rels@)
                && final(self).rels@[rel as int].view()
                    == insert_spec(old(self).rels@[rel as int].kind, old(self).rels@[rel as int].view(), t@)
                && forall|j: int| 0 <= j < old(self).rels@.len() && j != rel ==> final(self).rels@[j] == old(self).rels@[j],
    {
        if rel >= self.rels.len() {
            return Err(ProgramError::UnknownRelation);
        }
        if t.len() != self.rels[rel].arity {
            return Err(ProgramError::ArityMismatch);
        }
        let mut scratch = empty_like(&self.rels);
        let ghost r0 = self.rels@;
        let c = rel_insert(&mut self.rels, &mut scratch, rel, t);
        proof { lemma_valid_shape(self.rules@, r0, self.rels@); }
        Ok(c)
    }

    /// Replaces the contents of relation `rel` by `ts`, as if each tuple
    /// were offered in turn to the empty relation.
    pub fn assign(&mut self, rel: usize, ts: Vec<Vec<i64>>) -> (r: Result<(), ProgramError>)
        requires
            old(self).wf(),
        ensures
            final(self).wf(),
            final(self).rules@ == old(self).rules@,
            rel >= old(self).rels@.len() ==> r == Err::<(), ProgramError>(ProgramError::UnknownRelation),
            rel < old(self).rels@.len() && (exists|i: int| 0 <= i < ts@.len() && (#[trigger] ts@[i])@.len() != old(self).rels@[rel as int].arity)
                ==> r == Err::<(), ProgramError>(ProgramError::ArityMismatch),
            rel < old(self).rels@.len() && (forall|i: int| 0 <= i < ts@.len() ==> (#[trigger] ts@[i])@.len() == old(self).rels@[rel as int].arity)
                ==> r is Ok,
            r is Err ==> final(self).rels@ == old(self).rels@,
            r is Ok ==> rel < old(self).rels@.len()
                && same_shape(old(self).rels@, final(self).rels@)
                && final(self).rels@[rel as int].view()
                    == crate::store::insert_all(old(self).rels@[rel as int].kind, Seq::empty(), crate::store::deep(ts@))
                && forall|j: int| 0 <= j < old(self).rels@.len() && j != rel ==> final(self).rels@[j] == old(self).rels@[j],
    {
        if rel >= self.rels.len() {
            return Err(ProgramError::UnknownRelation);
        }
        let arity = self.rels[rel].arity;
        let mut i: usize = 0;
        while i < ts.len()
            invariant
                self.wf(),
                rel < self.rels@.len(),
                arity == self.rels@[rel as int].arity,
                i <= ts@.len(),
                forall|j: int| 0 <= j < i ==> (#[trigger] ts@[j])@.len() == arity,
            decreases ts@.len() - i,
        {
            if ts[i].len() != arity {
                return Err(ProgramError::ArityMismatch);
            }
            i = i + 1;
        }
        let ghost r0 = self.rels@;
        assert(self.rels@[rel as int].wf());
        let mut r = self.rels.remove(rel);
        r.assign(ts);
        self.rels.insert(rel, r);
        proof {
            assert forall|j: int| 0 <= j < r0.len() && j != rel implies self.rels@[j] == r0[j] by {}
            assert forall|j: int| 0 <= j < r0.len() implies (#[trigger] self.rels@[j]).wf() by {
                assert(r0[j].wf());
            }
            lemma_valid_shape(self.rules@, r0, self.rels@);
        }
        Ok(())
    }

    /// Adds a rule after checking that every head names a declared relation
    /// with as many columns as the head has terms, that every body atom
    /// does the same, and that every variable is bound before it is used.
    pub fn add_rule(&mut self, rule: Rule) -> (r: Result<(), ProgramError>)
        requires
            old(self).wf(),
        ensures
            final(self).wf(),
            final(self).rels@ == old(self).rels@,
            r is Ok ==> final(self).rules@ == old(self).rules@.push(rule),
            r is Err ==> final(self).rules@ == old(self).rules@,
            r is Ok <==> rule_valid(rule, old(self).rels@) && atoms_ok(rule, old(self).rels@, true) && well_bound(rule),
            r == Err::<(), ProgramError>(ProgramError::UnknownRelation) <==>
                (exists|h: int| 0 <= h < rule.heads@.len() && (#[trigger] rule.heads@[h]).rel >= old(self).rels@.len())
                || !atoms_ok(rule, old(self).rels@, false),
            r == Err::<(), ProgramError>(ProgramError::ArityMismatch) <==>
                (forall|h: int| 0 <= h < rule.heads@.len() ==> (#[trigger] rule.heads@[h]).rel < old(self).rels@.len())
                && atoms_ok(rule, old(self).rels@, false)
                && !(rule_valid(rule, old(self).rels@) && atoms_ok(rule, old(self).rels@, true)),
            r == Err::<(), ProgramError>(ProgramError::UnboundVariable) <==>
                rule_valid(rule, old(self).rels@) && atoms_ok(rule, old(self).rels@, true) && !well_bound(rule),
    {
        let mut h: usize = 0;
        while h < rule.heads.len()
            invariant
                self.wf(),
                h <= rule.heads@.len(),
                forall|j: int| 0 <= j < h ==> (#[trigger] rule.heads@[j]).rel < self.rels@.len(),
            decreases rule.heads@.len() - h,
        {
            if rule.heads[h].rel >= self.rels.len() {
                return Err(ProgramError::UnknownRelation);
            }
            h = h + 1;
        }
        if !atoms_ok_exec(&rule, &self.rels, false) {
            return Err(ProgramError::UnknownRelation);
        }
        let mut h: usize = 0;
        while h < rule.heads.len()
            invariant
                self.wf(),
                atoms_ok(rule, self.rels@, false),
                h <= rule.heads@.len(),
                forall|j: int| 0 <= j < rule.heads@.len() ==> (#[trigger] rule.heads@[j]).rel < self.rels@.len(),
                forall|j: int| 0 <= j < h ==> (#[trigger] rule.heads@[j]).terms@.len() == self.rels@[rule.heads@[j].rel as int].arity,
            decreases rule.heads@.len() - h,
        {
            if rule.heads[h].terms.len() != self.rels[rule.heads[h].rel].arity {
                return Err(ProgramError::ArityMismatch);
            }
            h = h + 1;
        }
        if !atoms_ok_exec(&rule, &self.rels, true) {
            proof {
                assert forall|g: int, a: int, c: int|
                    0 <= g < rule.body@.len() && 0 <= a < rule.body@[g]@.len() && 0 <= c < rule.body@[g]@[a]@.len()
                    implies clause_ok(#[trigger] rule.body@[g]@[a]@[c], self.rels@, false) by {}
            }
            return Err(ProgramError::ArityMismatch);
        }
        if !check_bindings(&rule) {
            return Err(ProgramError::UnboundVariable);
        }
        let ghost k0 = self.rules@;
        self.rules.push(rule);
        proof {
            assert forall|k: int| 0 <= k < self.rules@.len() implies rule_valid(#[trigger] self.rules@[k], self.rels@) by {
                if k < k0.len() {
                    assert(self.rules@[k] == k0[k]);
                }
            }
        }
        Ok(())
    }

    /// The number of declared relations.
    pub fn num_relations(&self) -> (n: usize)
        ensures
            n == self.rels@.len(),
    {
        self.rels.len()
    }

    /// The relation at index `i`.
    pub fn relation(&self, i: usize) -> (r: &Relation)
        requires
            i < self.rels@.len(),
        ensures
            *r == self.rels@[i as int],
    {
        &self.rels[i]
    }

    /// Naive evaluation: runs rounds over every rule until a round leaves
    /// the stores unchanged, for at most `max_rounds` rounds. The stores are
    /// then exactly those after some number of naive rounds; `Saturated` is
    /// returned exactly when a fixpoint was reached within the budget.
    pub fn run(&mut self, max_rounds: u64) -> (st: RunStatus)
        requires
            old(self).wf(),
        ensures
            final(self).wf(),
            final(self).rules@ == old(self).rules@,
            grows(old(self).rels@, final(self).rels@),
            kinds_of(final(self).rels@) == kinds_of(old(self).rels@),
            exists|k: nat| k <= max_rounds && db_of(final(self).rels@)
                == naive(old(self).rules@, kinds_of(old(self).rels@), db_of(old(self).rels@), k),
            st == RunStatus::Saturated ==> saturated(final(self).rules@, final(self).rels@)
                && naive_step(old(self).rules@, kinds_of(old(self).rels@), db_of(final(self).rels@)) == db_of(final(self).rels@),
            st == RunStatus::OutOfRounds ==> db_of(final(self).rels@)
                == naive(old(self).rules@, kinds_of(old(self).rels@), db_of(old(self).rels@), max_rounds as nat),
            (exists|j: nat| j < max_rounds
                && #[trigger] naive(old(self).rules@, kinds_of(old(self).rels@), db_of(old(self).rels@), j + 1)
                    == naive(old(self).rules@, kinds_of(old(self).rels@), db_of(old(self).rels@), j))
                ==> st == RunStatus::Saturated,
    {
        let ghost r0 = self.rels@;
        let ghost (ks, d0) = (kinds_of(r0), db_of(r0));
        let mut k: u64 = 0;
        proof { lemma_grows_refl(r0); }
        while k < max_rounds
            invariant
                self.wf(),
                r0 == old(self).rels@,
                ks == kinds_of(r0),
                d0 == db_of(r0),
                k <= max_rounds,
                self.rules@ == old(self).rules@,
                same_shape(r0, self.rels@),
                grows(r0, self.rels@),
                kinds_of(self.rels@) == ks,
                db_of(self.rels@) == naive(self.rules@, ks, d0, k as nat),
                forall|j: nat| j < k ==> #[trigger] naive(self.rules@, ks, d0, j + 1) != naive(self.rules@, ks, d0, j),
            decreases max_rounds - k,
        {
            let ghost before = self.rels@;
            let snap = copy_rels(&self.rels);
            let mut next = empty_like(&self.rels);
            round(&self.rules, &snap, &snap, &mut self.rels, &mut next);
            proof {
                lemma_grows_trans(r0, before, self.rels@);
                lemma_valid_shape(self.rules@, before, self.rels@);
                lemma_shape_trans(before, r0, self.rels@);
                lemma_shape_trans(r0, before, self.rels@);
                assert(naive(self.rules@, ks, d0, (k + 1) as nat) == naive_step(self.rules@, ks, naive(self.rules@, ks, d0, k as nat)));
            }
            if same_contents(&snap, &self.rels) {
                return RunStatus::Saturated;
            }
            k = k + 1;
        }
        RunStatus::OutOfRounds
    }

    /// Evaluates the rules to a fixpoint, for at most `max_rounds` rounds.
    /// Strata run in rank order, each to its own fixpoint; within one, a
    /// first full round is followed by rounds that read the previous round's
    /// delta at one atom per rule copy. A final full round over every rule
    /// confirms saturation.
    pub fn run_semi_naive(&mut self, max_rounds: u64) -> (st: RunStatus)
        requires
            old(self).wf(),
        ensures
            final(self).wf(),
            final(self).rules@ == old(self).rules@,
            grows(old(self).rels@, final(self).rels@),
            st == RunStatus::Saturated ==> saturated(final(self).rules@, final(self).rels@),
            max_rounds == 0 ==> st == RunStatus::OutOfRounds,
    {
        let ghost r0 = self.rels@;
        let n = self.rels.len();
        let ranks = crate::deps::stratify(&self.rules, n);
        let mut fuel = max_rounds;
        let mut level: usize = 0;
        proof { lemma_grows_refl(r0); }
        while level < n && fuel > 0
            invariant
                self.wf(),
                r0 == old(self).rels@,
                n == r0.len(),
                fuel <= max_rounds,
                self.rules@ == old(self).rules@,
                grows(r0, self.rels@),
            decreases n - level,
        {
            let ghost before = self.rels@;
            let stratum = level + 1;
            let srules = stratum_rules(&self.rules, &ranks, stratum, Ghost(self.rels@));
            let variants = delta_variants(&srules, &ranks, Some(stratum), Ghost(self.rels@));
            if srules.len() > 0 {
                let (_, left) = fixpoint(&mut self.rels, &srules, &variants, fuel);
                fuel = left;
            }
            proof {
                lemma_grows_trans(r0, before, self.rels@);
                lemma_valid_shape(self.rules@, before, self.rels@);
            }
            level = level + 1;
        }
        let ghost before = self.rels@;
        let all = delta_variants(&self.rules, &ranks, None, Ghost(self.rels@));
        let (done, _) = fixpoint(&mut self.rels, &self.rules, &all, fuel);
        proof {
            lemma_grows_trans(r0, before, self.rels@);
            lemma_valid_shape(self.rules@, before, self.rels@);
        }
        if done { RunStatus::Saturated } else { RunStatus::OutOfRounds }
    }
}

} // verus!
