//! Binding analysis of a rule body in its declared join order: which
//! variables are bound after each clause, and whether every guard, range,
//! expression and head only uses variables bound before it.
use vstd::prelude::*;
use crate::rule::{body_view, Clause, Head, Rule, Term};

verus! {

/// Which variables are bound: one flag per rule variable.
pub type Bound = Seq<bool>;

/// A term whose value is defined once the variables in `b` are bound.
pub open spec fn term_bound(t: Term, b: Bound) -> bool {
    match t {
        Term::Var(v) => v < b.len() && b[v as int],
        Term::Const(_) => true,
        Term::Add(x, y) => x < b.len() && y < b.len() && b[x as int] && b[y as int],
        Term::Offset(x, _) => x < b.len() && b[x as int],
    }
}

/// An atom column binds a variable, or needs its expression bound.
pub open spec fn col_bind(t: Term, b: Bound) -> Option<Bound> {
    match t {
        Term::Var(v) => if v < b.len() { Some(b.update(v as int, true)) } else { None },
        _ => if term_bound(t, b) { Some(b) } else { None },
    }
}

/// The columns of an atom, left to right.
pub open spec fn atom_bind(terms: Seq<Term>, b: Bound) -> Option<Bound>
    decreases terms.len(),
{
    if terms.len() == 0 {
        Some(b)
    } else {
        match atom_bind(terms.drop_last(), b) {
            Some(b2) => col_bind(terms.last(), b2),
            None => None,
        }
    }
}

pub open spec fn clause_bind(c: Clause, b: Bound) -> Option<Bound> {
    match c {
        Clause::Atom { terms, .. } => atom_bind(terms@, b),
        Clause::Guard { left, right, .. } => {
            if term_bound(left, b) && term_bound(right, b) { Some(b) } else { None }
        },
        Clause::Range { var, lo, hi } => {
            if var < b.len() && term_bound(lo, b) && term_bound(hi, b) {
                Some(b.update(var as int, true))
            } else {
                None
            }
        },
    }
}

pub open spec fn conj_bind(cs: Seq<Clause>, b: Bound) -> Option<Bound>
    decreases cs.len(),
{
    if cs.len() == 0 {
        Some(b)
    } else {
        match conj_bind(cs.drop_last(), b) {
            Some(b2) => clause_bind(cs.last(), b2),
            None => None,
        }
    }
}

/// Variables bound on both sides.
pub open spec fn meet(x: Bound, y: Bound) -> Bound {
    Seq::new(x.len(), |i: int| x[i] && i < y.len() && y[i])
}

/// A disjunction binds what every alternative binds; it needs at least one.
pub open spec fn disj_bind(alts: Seq<Seq<Clause>>, b: Bound) -> Option<Bound>
    decreases alts.len(),
{
    if alts.len() == 0 {
        None
    } else if alts.len() == 1 {
        conj_bind(alts[0], b)
    } else {
        match (disj_bind(alts.drop_last(), b), conj_bind(alts.last(), b)) {
            (Some(x), Some(y)) => Some(meet(x, y)),
            _ => None,
        }
    }
}

pub open spec fn groups_bind(gs: Seq<Seq<Seq<Clause>>>, b: Bound) -> Option<Bound>
    decreases gs.len(),
{
    if gs.len() == 0 {
        Some(b)
    } else {
        match groups_bind(gs.drop_last(), b) {
            Some(b2) => disj_bind(gs.last(), b2),
            None => None,
        }
    }
}

pub open spec fn heads_bound(hs: Seq<Head>, b: Bound) -> bool {
    forall|h: int, i: int| 0 <= h < hs.len() && 0 <= i < hs[h].terms@.len() ==> term_bound(#[trigger] hs[h].terms@[i], b)
}

/// Every variable is introduced before it is used, on every alternative.
pub open spec fn well_bound(r: Rule) -> bool {
    match groups_bind(body_view(r.body@), Seq::new(r.nvars as nat, |i: int| false)) {
        Some(b) => heads_bound(r.heads@, b),
        None => false,
    }
}

fn term_bound_exec(t: Term, b: &Vec<bool>) -> (r: bool)
    ensures
        r == term_bound(t, b@),
{
    match t {
        Term::Var(v) => v < b.len() && b[v],
        Term::Const(_) => true,
        Term::Add(x, y) => x < b.len() && y < b.len() && b[x] && b[y],
        Term::Offset(x, _) => x < b.len() && b[x],
    }
}

fn atom_bind_exec(terms: &Vec<Term>, b: &mut Vec<bool>) -> (ok: bool)
    ensures
        ok == (atom_bind(terms@, old(b)@) is Some),
        ok ==> final(b)@ == atom_bind(terms@, old(b)@)->0,
{
    let ghost b0 = b@;
    let mut i: usize = 0;
    while i < terms.len()
        invariant
            b0 == old(b)@,
            i <= terms@.len(),
            atom_bind(terms@.take(i as int), b0) == Some(b@),
        decreases terms@.len() - i,
    {
        assert(terms@.take(i + 1).drop_last() =~= terms@.take(i as int));
        assert(terms@.take(i + 1).last() == terms@[i as int]);
        match terms[i] {
            Term::Var(v) => {
                if v >= b.len() {
                    proof { lemma_atom_bind_none(terms@, b0, i as int + 1); }
                    return false;
                }
                b.set(v, true);
            },
            t => {
                if !term_bound_exec(t, b) {
                    proof { lemma_atom_bind_none(terms@, b0, i as int + 1); }
                    return false;
                }
            },
        }
        i = i + 1;
    }
    assert(terms@.take(i as int) =~= terms@);
    true
}

proof fn lemma_atom_bind_none(terms: Seq<Term>, b: Bound, i: int)
    requires
        0 < i <= terms.len(),
        atom_bind(terms.take(i), b) is None,
    ensures
        atom_bind(terms, b) is None,
    decreases terms.len() - i,
{
    if i < terms.len() {
        assert(terms.take(i + 1).drop_last() =~= terms.take(i));
        lemma_atom_bind_none(terms, b, i + 1);
    } else {
        assert(terms.take(i) =~= terms);
    }
}

proof fn lemma_conj_bind_none(cs: Seq<Clause>, b: Bound, i: int)
    requires
        0 < i <= cs.len(),
        conj_bind(cs.take(i), b) is None,
    ensures
        conj_bind(cs, b) is None,
    decreases cs.len() - i,
{
    if i < cs.len() {
        assert(cs.take(i + 1).drop_last() =~= cs.take(i));
        lemma_conj_bind_none(cs, b, i + 1);
    } else {
        assert(cs.take(i) =~= cs);
    }
}

fn clause_bind_exec(c: &Clause, b: &mut Vec<bool>) -> (ok: bool)
    ensures
        ok == (clause_bind(*c, old(b)@) is Some),
        ok ==> final(b)@ == clause_bind(*c, old(b)@)->0,
{
    match c {
        Clause::Atom { terms, .. } => atom_bind_exec(terms, b),
        Clause::Guard { left, right, .. } => term_bound_exec(*left, b) && term_bound_exec(*right, b),
        Clause::Range { var, lo, hi } => {
            if *var < b.len() && term_bound_exec(*lo, b) && term_bound_exec(*hi, b) {
                b.set(*var, true);
                true
            } else {
                false
            }
        },
    }
}

fn conj_bind_exec(cs: &Vec<Clause>, b: &Vec<bool>) -> (r: Option<Vec<bool>>)
    ensures
        r is Some == (conj_bind(cs@, b@) is Some),
        r matches Some(x) ==> x@ == conj_bind(cs@, b@)->0,
{
    let mut cur = b.clone();
    assert(cur@ =~= b@);
    let mut i: usize = 0;
    while i < cs.len()
        invariant
            i <= cs@.len(),
            conj_bind(cs@.take(i as int), b@) == Some(cur@),
        decreases cs@.len() - i,
    {
        assert(cs@.take(i + 1).drop_last() =~= cs@.take(i as int));
        if !clause_bind_exec(&cs[i], &mut cur) {
            proof { lemma_conj_bind_none(cs@, b@, i as int + 1); }
            return None;
        }
        i = i + 1;
    }
    assert(cs@.take(i as int) =~= cs@);
    Some(cur)
}

fn meet_exec(x: &Vec<bool>, y: &Vec<bool>) -> (r: Vec<bool>)
    ensures
        r@ == meet(x@, y@),
{
    let mut out: Vec<bool> = Vec::new();
    let mut i: usize = 0;
    while i < x.len()
        invariant
            i <= x@.len(),
            out@ == meet(x@, y@).take(i as int),
        decreases x@.len() - i,
    {
        out.push(x[i] && i < y.len() && y[i]);
        assert(out@ =~= meet(x@, y@).take(i + 1));
        i = i + 1;
    }
    assert(meet(x@, y@).take(i as int) =~= meet(x@, y@));
    out
}

fn disj_bind_exec(alts: &Vec<Vec<Clause>>, b: &Vec<bool>) -> (r: Option<Vec<bool>>)
    ensures
        r is Some == (disj_bind(alts@.map_values(|a: Vec<Clause>| a@), b@) is Some),
        r matches Some(x) ==> x@ == disj_bind(alts@.map_values(|a: Vec<Clause>| a@), b@)->0,
{
    let ghost av = alts@.map_values(|a: Vec<Clause>| a@);
    if alts.len() == 0 {
        return None;
    }
    let mut cur = match conj_bind_exec(&alts[0], b) {
        Some(x) => x,
        None => {
            proof { lemma_disj_bind_none(av, b@, 1); }
            return None;
        },
    };
    assert(av.take(1).drop_last() =~= Seq::<Seq<Clause>>::empty());
    let mut i: usize = 1;
    while i < alts.len()
        invariant
            1 <= i <= alts@.len(),
            av == alts@.map_values(|a: Vec<Clause>| a@),
            disj_bind(av.take(i as int), b@) == Some(cur@),
        decreases alts@.len() - i,
    {
        assert(av.take(i + 1).drop_last() =~= av.take(i as int));
        match conj_bind_exec(&alts[i], b) {
            Some(y) => {
                cur = meet_exec(&cur, &y);
            },
            None => {
                proof { lemma_disj_bind_none(av, b@, i as int + 1); }
                return None;
            },
        }
        i = i + 1;
    }
    assert(av.take(i as int) =~= av);
    Some(cur)
}

proof fn lemma_disj_bind_none(alts: Seq<Seq<Clause>>, b: Bound, i: int)
    requires
        0 < i <= alts.len(),
        disj_bind(alts.take(i), b) is None,
    ensures
        disj_bind(alts, b) is None,
    decreases alts.len() - i,
{
    if i < alts.len() {
        assert(alts.take(i + 1).drop_last() =~= alts.take(i));
        lemma_disj_bind_none(alts, b, i + 1);
    } else {
        assert(alts.take(i) =~= alts);
    }
}

proof fn lemma_groups_bind_none(gs: Seq<Seq<Seq<Clause>>>, b: Bound, i: int)
    requires
        0 < i <= gs.len(),
        groups_bind(gs.take(i), b) is None,
    ensures
        groups_bind(gs, b) is None,
    decreases gs.len() - i,
{
    if i < gs.len() {
        assert(gs.take(i + 1).drop_last() =~= gs.take(i));
        lemma_groups_bind_none(gs, b, i + 1);
    } else {
        assert(gs.take(i) =~= gs);
    }
}

/// Whether every variable of `r` is bound before it is used: by an earlier
/// atom column or range on every alternative that leads to the use.
pub fn check_bindings(r: &Rule) -> (ok: bool)
    ensures
        ok == well_bound(*r),
{
    let ghost gs = body_view(r.body@);
    let mut b: Vec<bool> = Vec::new();
    let mut i: usize = 0;
    while i < r.nvars
        invariant
            i <= r.nvars,
            b@ == Seq::new(i as nat, |j: int| false),
        decreases r.nvars - i,
    {
        b.push(false);
        assert(b@ =~= Seq::new((i + 1) as nat, |j: int| false));
        i = i + 1;
    }
    let ghost b0 = b@;
    let mut k: usize = 0;
    while k < r.body.len()
        invariant
            k <= r.body@.len(),
            gs == body_view(r.body@),
            b0 == Seq::new(r.nvars as nat, |j: int| false),
            groups_bind(gs.take(k as int), b0) == Some(b@),
        decreases r.body@.len() - k,
    {
        assert(gs.take(k + 1).drop_last() =~= gs.take(k as int));
        match disj_bind_exec(&r.body[k], &b) {
            Some(x) => b = x,
            None => {
                proof { lemma_groups_bind_none(gs, b0, k as int + 1); }
                return false;
            },
        }
        k = k + 1;
    }
    assert(gs.take(k as int) =~= gs);
    let mut h: usize = 0;
    while h < r.heads.len()
        invariant
            gs == body_view(r.body@),
            b0 == Seq::new(r.nvars as nat, |j: int| false),
            groups_bind(gs, b0) == Some(b@),
            h <= r.heads@.len(),
            forall|h2: int, i: int| 0 <= h2 < h && 0 <= i < r.heads@[h2].terms@.len()
                ==> term_bound(#[trigger] r.heads@[h2].terms@[i], b@),
        decreases r.heads@.len() - h,
    {
        let terms = &r.heads[h].terms;
        let mut i: usize = 0;
        while i < terms.len()
            invariant
                gs == body_view(r.body@),
                b0 == Seq::new(r.nvars as nat, |j: int| false),
                groups_bind(gs, b0) == Some(b@),
                h < r.heads@.len(),
                terms@ == r.heads@[h as int].terms@,
                i <= terms@.len(),
                forall|j: int| 0 <= j < i ==> term_bound(#[trigger] terms@[j], b@),
            decreases terms@.len() - i,
        {
            if !term_bound_exec(terms[i], &b) {
                assert(!term_bound(r.heads@[h as int].terms@[i as int], b@));
                return false;
            }
            i = i + 1;
        }
        h = h + 1;
    }
    true
}

} // verus!
