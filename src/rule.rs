//! The rule intermediate representation and the evaluation of one rule's
//! body against the stores, environment list by environment list.
use vstd::prelude::*;
use crate::store::{deep, Relation};

verus! {

/// A binding environment: one slot per rule variable.
pub type Env = Seq<Option<i64>>;

/// The contents of every relation, by index.
pub type Db = Seq<Seq<Seq<i64>>>;

/// A column or argument expression.
#[derive(Clone, Copy, Debug, PartialEq, Eq, Structural)]
pub enum Term {
    /// A variable: binds the column when unbound, else must equal it.
    Var(usize),
    /// A literal.
    Const(i64),
    /// The sum of two bound variables.
    Add(usize, usize),
    /// A bound variable plus a literal.
    Offset(usize, i64),
}

/// A guard comparison.
#[derive(Clone, Copy, Debug, PartialEq, Eq, Structural)]
pub enum Cmp {
    Eq,
    Ne,
    Lt,
    Le,
}

/// Which contents an atom reads: the whole relation or its latest delta.
#[derive(Clone, Copy, Debug, PartialEq, Eq, Structural)]
pub enum Source {
    Full,
    Delta,
}

/// One body clause.
#[derive(Debug)]
pub enum Clause {
    /// Reads the tuples of relation `rel` matching `terms`.
    Atom { rel: usize, terms: Vec<Term>, source: Source },
    /// Keeps the environment only when the comparison holds.
    Guard { cmp: Cmp, left: Term, right: Term },
    /// Binds `var` to every integer in `lo..hi`.
    Range { var: usize, lo: Term, hi: Term },
}

/// A head: the target relation and one expression per column.
#[derive(Debug)]
pub struct Head {
    pub rel: usize,
    pub terms: Vec<Term>,
}

/// A rule: a conjunction of groups, each a disjunction of clause sequences,
/// and one or more heads.
#[derive(Debug)]
pub struct Rule {
    pub nvars: usize,
    pub body: Vec<Vec<Vec<Clause>>>,
    pub heads: Vec<Head>,
}

impl Rule {
    /// A rule over `nvars` variables with an empty body and no heads.
    pub fn new(nvars: usize) -> (r: Rule)
        ensures
            r.nvars == nvars,
            r.body@.len() == 0,
            r.heads@.len() == 0,
    {
        Rule { nvars, body: Vec::new(), heads: Vec::new() }
    }

    /// Appends one clause to the body.
    pub fn and(self, c: Clause) -> (r: Rule)
        ensures
            r.nvars == self.nvars,
            r.heads == self.heads,
            r.body@.len() == self.body@.len() + 1,
            r.body@.drop_last() == self.body@,
            r.body@.last()@.len() == 1,
            r.body@.last()@[0]@ == seq![c],
    {
        let mut alt: Vec<Clause> = Vec::new();
        alt.push(c);
        let mut g: Vec<Vec<Clause>> = Vec::new();
        g.push(alt);
        self.or(g)
    }

    /// Appends a disjunction of clause sequences to the body.
    pub fn or(self, alts: Vec<Vec<Clause>>) -> (r: Rule)
        ensures
            r.nvars == self.nvars,
            r.heads == self.heads,
            r.body@ == self.body@.push(alts),
    {
        let mut r = self;
        r.body.push(alts);
        r
    }

    /// Adds a head.
    pub fn head(self, rel: usize, terms: Vec<Term>) -> (r: Rule)
        ensures
            r.nvars == self.nvars,
            r.body == self.body,
            r.heads@ == self.heads@.push(Head { rel, terms }),
    {
        let mut r = self;
        r.heads.push(Head { rel, terms });
        r
    }
}

/// An atom clause that reads the whole relation.
pub fn atom(rel: usize, terms: Vec<Term>) -> (c: Clause)
    ensures
        c == (Clause::Atom { rel, terms, source: Source::Full }),
{
    Clause::Atom { rel, terms, source: Source::Full }
}

pub open spec fn envs_of(v: Seq<Vec<Option<i64>>>) -> Seq<Env> {
    v.map_values(|e: Vec<Option<i64>>| e@)
}

pub open spec fn db_of(rels: Seq<Relation>) -> Db {
    rels.map_values(|r: Relation| r.view())
}

pub open spec fn in_i64(x: int) -> bool {
    i64::MIN <= x <= i64::MAX
}

/// The value of a term under an environment, if bound and in range.
pub open spec fn term_val(t: Term, env: Env) -> Option<i64> {
    match t {
        Term::Var(v) => if v < env.len() { env[v as int] } else { None },
        Term::Const(c) => Some(c),
        Term::Add(a, b) => {
            if a < env.len() && b < env.len() && env[a as int] is Some && env[b as int] is Some
                && in_i64(env[a as int]->0 + env[b as int]->0) {
                Some((env[a as int]->0 + env[b as int]->0) as i64)
            } else {
                None
            }
        },
        Term::Offset(a, c) => {
            if a < env.len() && env[a as int] is Some && in_i64(env[a as int]->0 + c) {
                Some((env[a as int]->0 + c) as i64)
            } else {
                None
            }
        },
    }
}

/// Binds variable `v` to `x`, or checks it when already bound.
pub open spec fn bind(env: Env, v: usize, x: i64) -> Option<Env> {
    if v >= env.len() {
        None
    } else {
        match env[v as int] {
            None => Some(env.update(v as int, Some(x))),
            Some(y) => if y == x { Some(env) } else { None },
        }
    }
}

/// Matching one column against a term.
pub open spec fn match_col(t: Term, x: i64, env: Env) -> Option<Env> {
    match t {
        Term::Var(v) => bind(env, v, x),
        _ => if term_val(t, env) == Some(x) { Some(env) } else { None },
    }
}

/// Matching columns `i..` of a tuple against the terms.
pub open spec fn match_from(terms: Seq<Term>, tup: Seq<i64>, env: Env, i: int) -> Option<Env>
    decreases terms.len() - i,
{
    if i < 0 || i >= terms.len() || i >= tup.len() {
        Some(env)
    } else {
        match match_col(terms[i], tup[i], env) {
            None => None,
            Some(e) => match_from(terms, tup, e, i + 1),
        }
    }
}

/// Matching a whole tuple against an atom's terms.
pub open spec fn match_tuple(terms: Seq<Term>, tup: Seq<i64>, env: Env) -> Option<Env> {
    if tup.len() != terms.len() {
        None
    } else {
        match_from(terms, tup, env, 0)
    }
}

pub open spec fn opt_seq(o: Option<Env>) -> Seq<Env> {
    match o {
        Some(e) => seq![e],
        None => Seq::empty(),
    }
}

/// The extensions of `env` by every matching tuple, in store order.
pub open spec fn atom_envs(terms: Seq<Term>, tups: Seq<Seq<i64>>, env: Env) -> Seq<Env>
    decreases tups.len(),
{
    if tups.len() == 0 {
        Seq::empty()
    } else {
        atom_envs(terms, tups.drop_last(), env) + opt_seq(match_tuple(terms, tups.last(), env))
    }
}

pub open spec fn guard_holds(cmp: Cmp, l: Term, r: Term, env: Env) -> bool {
    match (term_val(l, env), term_val(r, env)) {
        (Some(a), Some(b)) => match cmp {
            Cmp::Eq => a == b,
            Cmp::Ne => a != b,
            Cmp::Lt => a < b,
            Cmp::Le => a <= b,
        },
        _ => false,
    }
}

/// The extensions of `env` binding `v` to each of `lo..hi`, in order.
pub open spec fn range_envs(v: usize, lo: int, hi: int, env: Env) -> Seq<Env>
    decreases hi - lo,
{
    if hi <= lo {
        Seq::empty()
    } else {
        range_envs(v, lo, hi - 1, env) + opt_seq(bind(env, v, (hi - 1) as i64))
    }
}

pub open spec fn rel_at(db: Db, rel: usize) -> Seq<Seq<i64>> {
    if rel < db.len() { db[rel as int] } else { Seq::empty() }
}

/// What one clause makes of one environment.
pub open spec fn clause_envs(c: Clause, env: Env, full: Db, delta: Db) -> Seq<Env> {
    match c {
        Clause::Atom { rel, terms, source } => {
            let db = if source == Source::Full { full } else { delta };
            atom_envs(terms@, rel_at(db, rel), env)
        },
        Clause::Guard { cmp, left, right } => {
            if guard_holds(cmp, left, right, env) { seq![env] } else { Seq::empty() }
        },
        Clause::Range { var, lo, hi } => {
            match (term_val(lo, env), term_val(hi, env)) {
                (Some(a), Some(b)) => range_envs(var, a as int, b as int, env),
                _ => Seq::empty(),
            }
        },
    }
}

/// What one clause makes of a list of environments.
pub open spec fn step(c: Clause, envs: Seq<Env>, full: Db, delta: Db) -> Seq<Env>
    decreases envs.len(),
{
    if envs.len() == 0 {
        Seq::empty()
    } else {
        step(c, envs.drop_last(), full, delta) + clause_envs(c, envs.last(), full, delta)
    }
}

/// A clause sequence, applied left to right.
pub open spec fn conj(cs: Seq<Clause>, envs: Seq<Env>, full: Db, delta: Db) -> Seq<Env>
    decreases cs.len(),
{
    if cs.len() == 0 {
        envs
    } else {
        step(cs.last(), conj(cs.drop_last(), envs, full, delta), full, delta)
    }
}

/// A disjunction: the union of what each alternative makes of `envs`.
pub open spec fn disj(alts: Seq<Seq<Clause>>, envs: Seq<Env>, full: Db, delta: Db) -> Seq<Env>
    decreases alts.len(),
{
    if alts.len() == 0 {
        Seq::empty()
    } else {
        disj(alts.drop_last(), envs, full, delta) + conj(alts.last(), envs, full, delta)
    }
}

/// A conjunction of disjunctive groups.
pub open spec fn groups(gs: Seq<Seq<Seq<Clause>>>, envs: Seq<Env>, full: Db, delta: Db) -> Seq<Env>
    decreases gs.len(),
{
    if gs.len() == 0 {
        envs
    } else {
        disj(gs.last(), groups(gs.drop_last(), envs, full, delta), full, delta)
    }
}

pub open spec fn empty_env(n: nat) -> Env {
    Seq::new(n, |i: int| None)
}

/// Every environment that satisfies the rule's body.
pub open spec fn body_envs(r: Rule, full: Db, delta: Db) -> Seq<Env> {
    groups(body_view(r.body@), seq![empty_env(r.nvars as nat)], full, delta)
}

/// Evaluates a term.
pub fn eval_term(t: Term, env: &Vec<Option<i64>>) -> (r: Option<i64>)
    ensures
        r == term_val(t, env@),
{
    match t {
        Term::Var(v) => if v < env.len() { env[v] } else { None },
        Term::Const(c) => Some(c),
        Term::Add(a, b) => {
            if a < env.len() && b < env.len() {
                match (env[a], env[b]) {
                    (Some(x), Some(y)) => x.checked_add(y),
                    _ => None,
                }
            } else {
                None
            }
        },
        Term::Offset(a, c) => {
            if a < env.len() {
                match env[a] {
                    Some(x) => x.checked_add(c),
                    None => None,
                }
            } else {
                None
            }
        },
    }
}

/// Binds or checks variable `v` in place; returns whether it matched.
fn bind_in(env: &mut Vec<Option<i64>>, v: usize, x: i64) -> (ok: bool)
    ensures
        ok == (bind(old(env)@, v, x) is Some),
        ok ==> final(env)@ == bind(old(env)@, v, x)->0,
{
    if v >= env.len() {
        return false;
    }
    match env[v] {
        None => {
            env.set(v, Some(x));
            true
        },
        Some(y) => y == x,
    }
}

/// Matches a tuple against an atom's terms.
pub fn match_tuple_exec(terms: &Vec<Term>, tup: &Vec<i64>, env: &Vec<Option<i64>>) -> (r: Option<Vec<Option<i64>>>)
    ensures
        match_tuple(terms@, tup@, env@) is Some <==> r is Some,
        r matches Some(e) ==> e@ == match_tuple(terms@, tup@, env@)->0,
{
    if tup.len() != terms.len() {
        return None;
    }
    let mut cur = env.clone();
    assert(cur@ =~= env@);
    let mut i: usize = 0;
    while i < terms.len()
        invariant
            i <= terms@.len(),
            terms@.len() == tup@.len(),
            match_from(terms@, tup@, cur@, i as int) == match_tuple(terms@, tup@, env@),
        decreases terms@.len() - i,
    {
        let t = terms[i];
        let ok = match t {
            Term::Var(v) => bind_in(&mut cur, v, tup[i]),
            _ => eval_term(t, &cur) == Some(tup[i]),
        };
        if !ok {
            return None;
        }
        i = i + 1;
    }
    Some(cur)
}

proof fn lemma_take_step<T>(s: Seq<T>, i: int)
    requires
        0 <= i < s.len(),
    ensures
        s.take(i + 1).drop_last() == s.take(i),
        s.take(i + 1).last() == s[i],
{
    assert(s.take(i + 1).drop_last() =~= s.take(i));
}

/// The extensions of `env` by every matching tuple of `rel`.
fn atom_exec(terms: &Vec<Term>, rel: &Relation, env: &Vec<Option<i64>>, out: &mut Vec<Vec<Option<i64>>>)
    ensures
        envs_of(final(out)@) == envs_of(old(out)@) + atom_envs(terms@, rel.view(), env@),
{
    let ghost o = envs_of(out@);
    let n = rel.len();
    let mut j: usize = 0;
    while j < n
        invariant
            n == rel.view().len(),
            j <= n,
            envs_of(out@) == o + atom_envs(terms@, rel.view().take(j as int), env@),
        decreases n - j,
    {
        proof { lemma_take_step(rel.view(), j as int); }
        let ghost before = out@;
        match match_tuple_exec(terms, rel.get(j), env) {
            Some(e) => {
                out.push(e);
                assert(envs_of(out@) =~= envs_of(before) + seq![e@]);
            },
            None => {},
        }
        assert(envs_of(out@) =~= o + atom_envs(terms@, rel.view().take(j + 1), env@));
        j = j + 1;
    }
    assert(rel.view().take(n as int) =~= rel.view());
}

/// Whether a guard holds.
pub fn guard_exec(cmp: Cmp, l: Term, r: Term, env: &Vec<Option<i64>>) -> (b: bool)
    ensures
        b == guard_holds(cmp, l, r, env@),
{
    match (eval_term(l, env), eval_term(r, env)) {
        (Some(a), Some(b)) => match cmp {
            Cmp::Eq => a == b,
            Cmp::Ne => a != b,
            Cmp::Lt => a < b,
            Cmp::Le => a <= b,
        },
        _ => false,
    }
}

/// The extensions of `env` binding `v` to each of `lo..hi`.
fn range_exec(v: usize, lo: i64, hi: i64, env: &Vec<Option<i64>>, out: &mut Vec<Vec<Option<i64>>>)
    ensures
        envs_of(final(out)@) == envs_of(old(out)@) + range_envs(v, lo as int, hi as int, env@),
{
    let ghost o = envs_of(out@);
    if hi <= lo {
        return;
    }
    let mut x: i64 = lo;
    while x < hi
        invariant
            lo <= x <= hi,
            envs_of(out@) == o + range_envs(v, lo as int, x as int, env@),
        decreases hi - x,
    {
        let ghost before = out@;
        let mut e = env.clone();
        assert(e@ =~= env@);
        if bind_in(&mut e, v, x) {
            out.push(e);
            assert(envs_of(out@) =~= envs_of(before) + seq![e@]);
        }
        assert(envs_of(out@) =~= o + range_envs(v, lo as int, x + 1, env@));
        x = x + 1;
    }
}

/// What one clause makes of one environment, appended to `out`.
fn clause_exec(
    c: &Clause,
    env: &Vec<Option<i64>>,
    full: &Vec<Relation>,
    delta: &Vec<Relation>,
    out: &mut Vec<Vec<Option<i64>>>,
)
    ensures
        envs_of(final(out)@) == envs_of(old(out)@) + clause_envs(*c, env@, db_of(full@), db_of(delta@)),
{
    match c {
        Clause::Atom { rel, terms, source } => {
            let db = match source {
                Source::Full => full,
                Source::Delta => delta,
            };
            if *rel < db.len() {
                atom_exec(terms, &db[*rel], env, out);
            } else {
                assert(envs_of(out@) =~= envs_of(out@) + Seq::<Env>::empty());
            }
        },
        Clause::Guard { cmp, left, right } => {
            if guard_exec(*cmp, *left, *right, env) {
                let ghost before = out@;
                out.push(env.clone());
                assert(envs_of(out@) =~= envs_of(before) + seq![env@]);
            } else {
                assert(envs_of(out@) =~= envs_of(out@) + Seq::<Env>::empty());
            }
        },
        Clause::Range { var, lo, hi } => {
            match (eval_term(*lo, env), eval_term(*hi, env)) {
                (Some(a), Some(b)) => range_exec(*var, a, b, env, out),
                _ => {
                    assert(envs_of(out@) =~= envs_of(out@) + Seq::<Env>::empty());
                },
            }
        },
    }
}

/// What one clause makes of a list of environments.
fn step_exec(c: &Clause, envs: &Vec<Vec<Option<i64>>>, full: &Vec<Relation>, delta: &Vec<Relation>) -> (r: Vec<Vec<Option<i64>>>)
    ensures
        envs_of(r@) == step(*c, envs_of(envs@), db_of(full@), db_of(delta@)),
{
    let mut out: Vec<Vec<Option<i64>>> = Vec::new();
    let mut k: usize = 0;
    while k < envs.len()
        invariant
            k <= envs@.len(),
            envs_of(out@) == step(*c, envs_of(envs@).take(k as int), db_of(full@), db_of(delta@)),
        decreases envs@.len() - k,
    {
        proof { lemma_take_step(envs_of(envs@), k as int); }
        clause_exec(c, &envs[k], full, delta, &mut out);
        k = k + 1;
    }
    assert(envs_of(envs@).take(k as int) =~= envs_of(envs@));
    out
}

/// A clause sequence applied to a list of environments.
fn conj_exec(cs: &Vec<Clause>, envs: Vec<Vec<Option<i64>>>, full: &Vec<Relation>, delta: &Vec<Relation>) -> (r: Vec<Vec<Option<i64>>>)
    ensures
        envs_of(r@) == conj(cs@, envs_of(envs@), db_of(full@), db_of(delta@)),
{
    let mut cur = envs;
    let mut k: usize = 0;
    while k < cs.len()
        invariant
            k <= cs@.len(),
            envs_of(cur@) == conj(cs@.take(k as int), envs_of(envs@), db_of(full@), db_of(delta@)),
        decreases cs@.len() - k,
    {
        proof { lemma_take_step(cs@, k as int); }
        cur = step_exec(&cs[k], &cur, full, delta);
        k = k + 1;
    }
    assert(cs@.take(k as int) =~= cs@);
    cur
}

proof fn lemma_envs_of_concat(a: Seq<Vec<Option<i64>>>, b: Seq<Vec<Option<i64>>>)
    ensures
        envs_of(a + b) == envs_of(a) + envs_of(b),
{
    assert(envs_of(a + b) =~= envs_of(a) + envs_of(b));
}

fn clone_envs(envs: &Vec<Vec<Option<i64>>>) -> (r: Vec<Vec<Option<i64>>>)
    ensures
        envs_of(r@) == envs_of(envs@),
{
    let mut r: Vec<Vec<Option<i64>>> = Vec::new();
    let mut k: usize = 0;
    while k < envs.len()
        invariant
            k <= envs@.len(),
            envs_of(r@) == envs_of(envs@).take(k as int),
        decreases envs@.len() - k,
    {
        let e = envs[k].clone();
        assert(e@ =~= envs@[k as int]@);
        let ghost before = r@;
        r.push(e);
        assert(envs_of(r@) =~= envs_of(before).push(envs@[k as int]@));
        assert(envs_of(r@) =~= envs_of(envs@).take(k + 1));
        k = k + 1;
    }
    assert(envs_of(envs@).take(k as int) =~= envs_of(envs@));
    r
}

/// The union of what each alternative makes of a list of environments.
fn disj_exec(alts: &Vec<Vec<Clause>>, envs: &Vec<Vec<Option<i64>>>, full: &Vec<Relation>, delta: &Vec<Relation>) -> (r: Vec<Vec<Option<i64>>>)
    ensures
        envs_of(r@) == disj(alts@.map_values(|a: Vec<Clause>| a@), envs_of(envs@), db_of(full@), db_of(delta@)),
{
    let ghost av = alts@.map_values(|a: Vec<Clause>| a@);
    let mut out: Vec<Vec<Option<i64>>> = Vec::new();
    let mut k: usize = 0;
    while k < alts.len()
        invariant
            k <= alts@.len(),
            av == alts@.map_values(|a: Vec<Clause>| a@),
            envs_of(out@) == disj(av.take(k as int), envs_of(envs@), db_of(full@), db_of(delta@)),
        decreases alts@.len() - k,
    {
        proof { lemma_take_step(av, k as int); }
        let mut part = conj_exec(&alts[k], clone_envs(envs), full, delta);
        let ghost (o, p) = (out@, part@);
        out.append(&mut part);
        proof { lemma_envs_of_concat(o, p); }
        k = k + 1;
    }
    assert(av.take(k as int) =~= av);
    out
}

pub open spec fn body_view(body: Seq<Vec<Vec<Clause>>>) -> Seq<Seq<Seq<Clause>>> {
    body.map_values(|g: Vec<Vec<Clause>>| g@.map_values(|a: Vec<Clause>| a@))
}

/// The values of a head's terms, if every one is defined.
pub open spec fn head_vals(terms: Seq<Term>, env: Env) -> Option<Seq<i64>>
    decreases terms.len(),
{
    if terms.len() == 0 {
        Some(Seq::empty())
    } else {
        match (head_vals(terms.drop_last(), env), term_val(terms.last(), env)) {
            (Some(p), Some(x)) => Some(p.push(x)),
            _ => None,
        }
    }
}

/// The tuples a head produces from a list of environments, in order.
pub open spec fn head_facts(terms: Seq<Term>, envs: Seq<Env>) -> Seq<Seq<i64>>
    decreases envs.len(),
{
    if envs.len() == 0 {
        Seq::empty()
    } else {
        head_facts(terms, envs.drop_last()) + match head_vals(terms, envs.last()) {
            Some(t) => seq![t],
            None => Seq::empty(),
        }
    }
}

/// The tuples that head `h` of rule `r` derives.
pub open spec fn rule_facts(r: Rule, h: int, full: Db, delta: Db) -> Seq<Seq<i64>> {
    head_facts(r.heads@[h].terms@, body_envs(r, full, delta))
}

/// Every environment that satisfies the rule's body.
pub fn eval_body(r: &Rule, full: &Vec<Relation>, delta: &Vec<Relation>) -> (res: Vec<Vec<Option<i64>>>)
    ensures
        envs_of(res@) == body_envs(*r, db_of(full@), db_of(delta@)),
{
    let ghost gs = body_view(r.body@);
    let mut start: Vec<Option<i64>> = Vec::new();
    let mut i: usize = 0;
    while i < r.nvars
        invariant
            i <= r.nvars,
            start@ == empty_env(i as nat),
        decreases r.nvars - i,
    {
        start.push(None);
        assert(start@ =~= empty_env((i + 1) as nat));
        i = i + 1;
    }
    let mut cur: Vec<Vec<Option<i64>>> = Vec::new();
    cur.push(start);
    assert(envs_of(cur@) =~= seq![empty_env(r.nvars as nat)]);
    let ghost e0 = envs_of(cur@);
    let mut k: usize = 0;
    while k < r.body.len()
        invariant
            k <= r.body@.len(),
            gs == body_view(r.body@),
            envs_of(cur@) == groups(gs.take(k as int), e0, db_of(full@), db_of(delta@)),
        decreases r.body@.len() - k,
    {
        proof { lemma_take_step(gs, k as int); }
        cur = disj_exec(&r.body[k], &cur, full, delta);
        k = k + 1;
    }
    assert(gs.take(k as int) =~= gs);
    cur
}

/// The values of a head's terms under one environment.
fn head_exec(terms: &Vec<Term>, env: &Vec<Option<i64>>) -> (r: Option<Vec<i64>>)
    ensures
        head_vals(terms@, env@) is Some <==> r is Some,
        r matches Some(t) ==> t@ == head_vals(terms@, env@)->0,
{
    let mut out: Vec<i64> = Vec::new();
    let mut i: usize = 0;
    while i < terms.len()
        invariant
            i <= terms@.len(),
            head_vals(terms@.take(i as int), env@) == Some(out@),
        decreases terms@.len() - i,
    {
        proof { lemma_take_step(terms@, i as int); }
        match eval_term(terms[i], env) {
            Some(x) => out.push(x),
            None => {
                proof { lemma_head_vals_none(terms@, env@, i as int + 1); }
                return None;
            },
        }
        i = i + 1;
    }
    assert(terms@.take(i as int) =~= terms@);
    Some(out)
}

proof fn lemma_head_vals_none(terms: Seq<Term>, env: Env, i: int)
    requires
        0 < i <= terms.len(),
        head_vals(terms.take(i), env) is None,
    ensures
        head_vals(terms, env) is None,
    decreases terms.len() - i,
{
    if i < terms.len() {
        lemma_take_step(terms, i);
        lemma_head_vals_none(terms, env, i + 1);
    } else {
        assert(terms.take(i) =~= terms);
    }
}

/// The tuples that head `h` of `r` produces from the environments `envs`,
/// one per environment under which every head term is defined.
pub fn eval_head(r: &Rule, h: usize, envs: &Vec<Vec<Option<i64>>>) -> (res: Vec<Vec<i64>>)
    requires
        h < r.heads@.len(),
    ensures
        deep(res@) == head_facts(r.heads@[h as int].terms@, envs_of(envs@)),
{
    let terms = &r.heads[h].terms;
    let mut out: Vec<Vec<i64>> = Vec::new();
    let mut k: usize = 0;
    while k < envs.len()
        invariant
            k <= envs@.len(),
            terms@ == r.heads@[h as int].terms@,
            deep(out@) == head_facts(terms@, envs_of(envs@).take(k as int)),
        decreases envs@.len() - k,
    {
        proof { lemma_take_step(envs_of(envs@), k as int); }
        let ghost before = out@;
        match head_exec(terms, &envs[k]) {
            Some(t) => {
                out.push(t);
                assert(deep(out@) =~= deep(before) + seq![t@]);
            },
            None => {
                assert(deep(out@) =~= deep(before) + Seq::<Seq<i64>>::empty());
            },
        }
        k = k + 1;
    }
    assert(envs_of(envs@).take(k as int) =~= envs_of(envs@));
    out
}

} // verus!
