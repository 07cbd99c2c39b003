//! Dependency analysis: which relation a rule reads and writes, the
//! reachability closure of that graph, and a rank per relation that orders
//! the strata.
use vstd::prelude::*;
use crate::rule::{Clause, Rule};

verus! {

/// Clause `c` is an atom over relation `a`.
pub open spec fn atom_on(c: Clause, a: int) -> bool {
    match c {
        Clause::Atom { rel, .. } => rel == a,
        _ => false,
    }
}

/// Rule `r` reads relation `a` in some atom of its body.
pub open spec fn rule_reads(r: Rule, a: int) -> bool {
    exists|g: int, al: int, c: int|
        0 <= g < r.body@.len() && 0 <= al < r.body@[g]@.len() && 0 <= c < r.body@[g]@[al]@.len()
        && atom_on(#[trigger] r.body@[g]@[al]@[c], a)
}

/// Rule `r` writes relation `b` in one of its heads.
pub open spec fn rule_writes(r: Rule, b: int) -> bool {
    exists|h: int| 0 <= h < r.heads@.len() && (#[trigger] r.heads@[h]).rel == b
}

/// Some rule reads `a` and writes `b`: `b` depends on `a`.
pub open spec fn depends(rules: Seq<Rule>, a: int, b: int) -> bool {
    exists|k: int| 0 <= k < rules.len() && rule_reads(#[trigger] rules[k], a) && rule_writes(rules[k], b)
}

/// A square boolean matrix of side `n`.
pub open spec fn square(m: Seq<Seq<bool>>, n: nat) -> bool {
    m.len() == n && forall|i: int| 0 <= i < n ==> (#[trigger] m[i]).len() == n
}

pub open spec fn mat(m: Seq<Vec<bool>>) -> Seq<Seq<bool>> {
    m.map_values(|r: Vec<bool>| r@)
}

/// An edge of matrix `m`.
pub open spec fn edge(m: Seq<Seq<bool>>, a: int, b: int) -> bool {
    0 <= a < m.len() && 0 <= b < m[a].len() && m[a][b]
}

/// A non-empty sequence of nodes, each joined to the next by an edge.
pub open spec fn is_path(m: Seq<Seq<bool>>, path: Seq<int>) -> bool {
    path.len() >= 1 && forall|i: int| 0 <= i < path.len() - 1 ==> #[trigger] edge(m, path[i], path[i + 1])
}

/// `t` is reachable from `s` (in zero or more edges).
pub open spec fn reaches(m: Seq<Seq<bool>>, s: int, t: int) -> bool {
    exists|path: Seq<int>| #[trigger] is_path(m, path) && path[0] == s && path.last() == t
}

fn reads_exec(r: &Rule, a: usize) -> (b: bool)
    ensures
        b == rule_reads(*r, a as int),
{
    let mut g: usize = 0;
    while g < r.body.len()
        invariant
            g <= r.body@.len(),
            forall|g2: int, al: int, c: int|
                0 <= g2 < g && 0 <= al < r.body@[g2]@.len() && 0 <= c < r.body@[g2]@[al]@.len()
                ==> !(atom_on(#[trigger] r.body@[g2]@[al]@[c], a as int)),
        decreases r.body@.len() - g,
    {
        let mut al: usize = 0;
        while al < r.body[g].len()
            invariant
                g < r.body@.len(),
                al <= r.body@[g as int]@.len(),
                forall|g2: int, al2: int, c: int|
                    0 <= g2 < g && 0 <= al2 < r.body@[g2]@.len() && 0 <= c < r.body@[g2]@[al2]@.len()
                    ==> !(atom_on(#[trigger] r.body@[g2]@[al2]@[c], a as int)),
                forall|al2: int, c: int|
                    0 <= al2 < al && 0 <= c < r.body@[g as int]@[al2]@.len()
                    ==> !(atom_on(#[trigger] r.body@[g as int]@[al2]@[c], a as int)),
            decreases r.body@[g as int]@.len() - al,
        {
            let mut c: usize = 0;
            while c < r.body[g][al].len()
                invariant
                    g < r.body@.len(),
                    al < r.body@[g as int]@.len(),
                    c <= r.body@[g as int]@[al as int]@.len(),
                    forall|g2: int, al2: int, c2: int|
                        0 <= g2 < g && 0 <= al2 < r.body@[g2]@.len() && 0 <= c2 < r.body@[g2]@[al2]@.len()
                        ==> !(atom_on(#[trigger] r.body@[g2]@[al2]@[c2], a as int)),
                    forall|al2: int, c2: int|
                        0 <= al2 < al && 0 <= c2 < r.body@[g as int]@[al2]@.len()
                        ==> !(atom_on(#[trigger] r.body@[g as int]@[al2]@[c2], a as int)),
                    forall|c2: int| 0 <= c2 < c
                        ==> !(atom_on(#[trigger] r.body@[g as int]@[al as int]@[c2], a as int)),
                decreases r.body@[g as int]@[al as int]@.len() - c,
            {
                if let Clause::Atom { rel, .. } = &r.body[g][al][c] {
                    if *rel == a {
                        assert(atom_on(r.body@[g as int]@[al as int]@[c as int], a as int));
                        return true;
                    }
                }
                c = c + 1;
            }
            al = al + 1;
        }
        g = g + 1;
    }
    false
}

fn writes_exec(r: &Rule, b: usize) -> (w: bool)
    ensures
        w == rule_writes(*r, b as int),
{
    let mut h: usize = 0;
    while h < r.heads.len()
        invariant
            h <= r.heads@.len(),
            forall|h2: int| 0 <= h2 < h ==> (#[trigger] r.heads@[h2]).rel != b,
        decreases r.heads@.len() - h,
    {
        if r.heads[h].rel == b {
            return true;
        }
        h = h + 1;
    }
    false
}

/// The dependency matrix over `n` relations: entry (a, b) holds exactly when
/// some rule reads `a` and writes `b`.
pub fn dependency_matrix(rules: &Vec<Rule>, n: usize) -> (m: Vec<Vec<bool>>)
    ensures
        square(mat(m@), n as nat),
        forall|a: int, b: int| 0 <= a < n && 0 <= b < n ==> mat(m@)[a][b] == depends(rules@, a, b),
{
    let mut m: Vec<Vec<bool>> = Vec::new();
    let mut a: usize = 0;
    while a < n
        invariant
            a <= n,
            m@.len() == a,
            forall|i: int| 0 <= i < a ==> (#[trigger] m@[i])@.len() == n,
            forall|i: int, b: int| 0 <= i < a && 0 <= b < n ==> #[trigger] mat(m@)[i][b] == depends(rules@, i, b),
        decreases n - a,
    {
        let mut row: Vec<bool> = Vec::new();
        let mut b: usize = 0;
        while b < n
            invariant
                a < n,
                b <= n,
                row@.len() == b,
                forall|j: int| 0 <= j < b ==> row@[j] == depends(rules@, a as int, j),
            decreases n - b,
        {
            let mut found = false;
            let mut k: usize = 0;
            while k < rules.len()
                invariant
                    k <= rules@.len(),
                    found == exists|k2: int| 0 <= k2 < k && rule_reads(#[trigger] rules@[k2], a as int)
                        && rule_writes(rules@[k2], b as int),
                decreases rules@.len() - k,
            {
                if reads_exec(&rules[k], a) && writes_exec(&rules[k], b) {
                    found = true;
                }
                k = k + 1;
            }
            row.push(found);
            b = b + 1;
        }
        let ghost m0 = m@;
        m.push(row);
        proof {
            assert forall|i: int, b: int| 0 <= i < a + 1 && 0 <= b < n implies #[trigger] mat(m@)[i][b] == depends(rules@, i, b) by {
                if i < a {
                    assert(mat(m@)[i] == mat(m0)[i]);
                }
            }
        }
        a = a + 1;
    }
    assert(square(mat(m@), n as nat));
    m
}

/// The number of set entries.
pub open spec fn count(v: Seq<bool>) -> nat
    decreases v.len(),
{
    if v.len() == 0 {
        0
    } else {
        count(v.drop_last()) + if v.last() { 1nat } else { 0nat }
    }
}

proof fn lemma_count_le(v: Seq<bool>)
    ensures
        count(v) <= v.len(),
    decreases v.len(),
{
    if v.len() > 0 {
        lemma_count_le(v.drop_last());
    }
}

proof fn lemma_count_set(v: Seq<bool>, i: int)
    requires
        0 <= i < v.len(),
        !v[i],
    ensures
        count(v.update(i, true)) == count(v) + 1,
    decreases v.len(),
{
    let u = v.update(i, true);
    if i < v.len() - 1 {
        assert(u.drop_last() =~= v.drop_last().update(i, true));
        lemma_count_set(v.drop_last(), i);
    } else {
        assert(u.drop_last() =~= v.drop_last());
    }
}

/// Entry-wise inclusion with one entry more counts strictly more.
proof fn lemma_count_lt(p: Seq<bool>, q: Seq<bool>, j: int)
    requires
        p.len() == q.len(),
        forall|i: int| 0 <= i < p.len() && #[trigger] p[i] ==> q[i],
        0 <= j < p.len(),
        q[j] && !p[j],
    ensures
        count(p) < count(q),
    decreases p.len(),
{
    lemma_count_mono(p.drop_last(), q.drop_last());
    if j < p.len() - 1 {
        lemma_count_lt(p.drop_last(), q.drop_last(), j);
    }
}

proof fn lemma_count_mono(p: Seq<bool>, q: Seq<bool>)
    requires
        p.len() == q.len(),
        forall|i: int| 0 <= i < p.len() && #[trigger] p[i] ==> q[i],
    ensures
        count(p) <= count(q),
    decreases p.len(),
{
    if p.len() > 0 {
        lemma_count_mono(p.drop_last(), q.drop_last());
    }
}

/// Reachability is transitive.
pub proof fn lemma_reaches_trans(m: Seq<Seq<bool>>, a: int, b: int, c: int)
    requires
        reaches(m, a, b),
        reaches(m, b, c),
    ensures
        reaches(m, a, c),
{
    let first = choose|path: Seq<int>| #[trigger] is_path(m, path) && path[0] == a && path.last() == b;
    let second = choose|path: Seq<int>| #[trigger] is_path(m, path) && path[0] == b && path.last() == c;
    let p = first + second.drop_first();
    assert forall|i: int| 0 <= i < p.len() - 1 implies #[trigger] edge(m, p[i], p[i + 1]) by {
        if i < first.len() - 1 {
            assert(edge(m, first[i], first[i + 1]));
        } else if i == first.len() - 1 {
            let z: int = 0;
            assert(edge(m, second[z], second[z + 1]));
        } else {
            let j = i - first.len() + 1;
            assert(edge(m, second[j], second[j + 1]));
        }
    }
    if second.len() == 1 {
        assert(p =~= first);
    }
    assert(is_path(m, p));
}

/// A set of nodes that holds the start of a path and is closed under edges
/// holds its end.
proof fn lemma_closed_path(m: Seq<Seq<bool>>, v: Seq<bool>, path: Seq<int>, i: int)
    requires
        is_path(m, path),
        0 <= i < path.len(),
        0 <= path[0] < v.len(),
        v[path[0]],
        forall|p: int, c: int| 0 <= p < v.len() && #[trigger] edge(m, p, c) && v[p] ==> 0 <= c < v.len() && v[c],
    ensures
        0 <= path[i] < v.len() && v[path[i]],
    decreases i,
{
    if i > 0 {
        lemma_closed_path(m, v, path, i - 1);
        let k = i - 1;
        assert(edge(m, path[k], path[k + 1]));
    }
}

/// The nodes reachable from `s`, by a breadth-first search.
pub fn reach_from(m: &Vec<Vec<bool>>, s: usize) -> (v: Vec<bool>)
    requires
        square(mat(m@), m@.len()),
        s < m@.len(),
    ensures
        v@.len() == m@.len(),
        forall|t: int| 0 <= t < m@.len() ==> v@[t] == reaches(mat(m@), s as int, t),
{
    let n = m.len();
    let ghost g = mat(m@);
    let mut v: Vec<bool> = Vec::new();
    let mut i: usize = 0;
    while i < n
        invariant
            i <= n,
            v@.len() == i,
            forall|t: int| 0 <= t < i ==> !v@[t],
        decreases n - i,
    {
        v.push(false);
        i = i + 1;
    }
    proof {
        assert(v@ =~= Seq::new(n as nat, |t: int| false));
        assert(count(v@) == 0) by {
            assert forall|t: int| 0 <= t < n implies !(#[trigger] v@[t]) by {}
            lemma_count_mono(v@, Seq::new(n as nat, |t: int| false));
            lemma_count_zero(n as nat);
        }
        lemma_count_set(v@, s as int);
        assert(is_path(g, seq![s as int]));
    }
    v.set(s, true);
    let mut queue: Vec<usize> = Vec::new();
    queue.push(s);
    proof {
        assert forall|t: int| 0 <= t < n && #[trigger] v@[t] implies exists|j: int| 0 <= j < queue@.len() && queue@[j] == t by {
            assert(t == s);
            assert(queue@[0] == s);
        }
        assert forall|t: int| 0 <= t < n && #[trigger] v@[t] implies reaches(g, s as int, t) by {
            assert(t == s);
            assert(is_path(g, seq![s as int]));
        }
    }
    let mut q: usize = 0;
    while q < queue.len()
        invariant
            n == m@.len(),
            g == mat(m@),
            square(g, n as nat),
            s < n,
            v@.len() == n,
            v@[s as int],
            q <= queue@.len(),
            queue@.len() == count(v@),
            forall|j: int| 0 <= j < queue@.len() ==> (#[trigger] queue@[j]) < n && v@[queue@[j] as int],
            forall|t: int| 0 <= t < n && #[trigger] v@[t] ==> exists|j: int| 0 <= j < queue@.len() && queue@[j] == t,
            forall|t: int| 0 <= t < n && #[trigger] v@[t] ==> reaches(g, s as int, t),
            forall|j: int, c: int| 0 <= j < q && 0 <= c < n && #[trigger] g[queue@[j] as int][c] ==> v@[c],
        decreases n - q,
    {
        proof { lemma_count_le(v@); }
        let p = queue[q];
        let mut c: usize = 0;
        while c < n
            invariant
                n == m@.len(),
                g == mat(m@),
                square(g, n as nat),
                s < n,
                v@.len() == n,
                v@[s as int],
                q < queue@.len(),
                p == queue@[q as int],
                c <= n,
                queue@.len() == count(v@),
                forall|j: int| 0 <= j < queue@.len() ==> (#[trigger] queue@[j]) < n && v@[queue@[j] as int],
                forall|t: int| 0 <= t < n && #[trigger] v@[t] ==> exists|j: int| 0 <= j < queue@.len() && queue@[j] == t,
                forall|t: int| 0 <= t < n && #[trigger] v@[t] ==> reaches(g, s as int, t),
                forall|j: int, c2: int| 0 <= j < q && 0 <= c2 < n && #[trigger] g[queue@[j] as int][c2] ==> v@[c2],
                forall|c2: int| 0 <= c2 < c && #[trigger] g[p as int][c2] ==> v@[c2],
            decreases n - c,
        {
            assert(m@[p as int]@ == g[p as int]);
            if m[p][c] && !v[c] {
                proof {
                    lemma_count_set(v@, c as int);
                    assert(v@[p as int]);
                    assert(reaches(g, s as int, p as int));
                    let w = choose|path: Seq<int>| #[trigger] is_path(g, path) && path[0] == s && path.last() == p;
                    let w2 = w.push(c as int);
                    assert forall|i: int| 0 <= i < w2.len() - 1 implies #[trigger] edge(g, w2[i], w2[i + 1]) by {
                        if i < w.len() - 1 {
                            assert(edge(g, w[i], w[i + 1]));
                        }
                    }
                    assert(is_path(g, w2));
                }
                let ghost q0 = queue@;
                v.set(c, true);
                queue.push(c);
                proof {
                    assert forall|t: int| 0 <= t < n && #[trigger] v@[t] implies exists|j: int| 0 <= j < queue@.len() && queue@[j] == t by {
                        if t == c {
                            assert(queue@[q0.len() as int] == t);
                        } else {
                            let j = choose|j: int| 0 <= j < q0.len() && q0[j] == t;
                            assert(queue@[j] == t);
                        }
                    }
                    assert forall|j: int| 0 <= j < queue@.len() implies (#[trigger] queue@[j]) < n && v@[queue@[j] as int] by {
                        if j < q0.len() {
                            assert(queue@[j] == q0[j]);
                        }
                    }
                }
            }
            c = c + 1;
        }
        q = q + 1;
    }
    proof {
        assert forall|t: int| 0 <= t < n implies v@[t] == reaches(g, s as int, t) by {
            if reaches(g, s as int, t) {
                let w = choose|path: Seq<int>| #[trigger] is_path(g, path) && path[0] == s && path.last() == t;
                assert forall|p: int, c: int| 0 <= p < v@.len() && #[trigger] edge(g, p, c) && v@[p] implies 0 <= c < v@.len() && v@[c] by {
                    let j = choose|j: int| 0 <= j < queue@.len() && queue@[j] == p;
                    assert(g[queue@[j] as int][c]);
                }
                lemma_closed_path(g, v@, w, w.len() - 1);
            }
        }
    }
    v
}

/// Which of the `n` nodes reach `x`.
pub open spec fn sources(m: Seq<Seq<bool>>, n: nat, x: int) -> Seq<bool> {
    Seq::new(n, |s: int| reaches(m, s, x))
}

/// The stratum rank of `x`: the number of nodes that reach it.
pub open spec fn rank(m: Seq<Seq<bool>>, n: nat, x: int) -> nat {
    count(sources(m, n, x))
}

/// Ranks never decrease along a path, and go strictly up along a path that
/// leaves a strongly connected component.
pub proof fn lemma_rank_order(m: Seq<Seq<bool>>, n: nat, a: int, b: int)
    requires
        square(m, n),
        0 <= a < n,
        0 <= b < n,
        reaches(m, a, b),
    ensures
        rank(m, n, a) <= rank(m, n, b),
        !reaches(m, b, a) ==> rank(m, n, a) < rank(m, n, b),
{
    let (p, q) = (sources(m, n, a), sources(m, n, b));
    assert forall|i: int| 0 <= i < p.len() && #[trigger] p[i] implies q[i] by {
        lemma_reaches_trans(m, i, a, b);
    }
    lemma_count_mono(p, q);
    if !reaches(m, b, a) {
        assert(is_path(m, seq![b]));
        assert(q[b] && !p[b]);
        lemma_count_lt(p, q, b);
    }
}

/// The rank of every node of a square matrix.
pub fn ranks(m: &Vec<Vec<bool>>) -> (r: Vec<usize>)
    requires
        square(mat(m@), m@.len()),
    ensures
        r@.len() == m@.len(),
        forall|x: int| 0 <= x < m@.len() ==> r@[x] == rank(mat(m@), m@.len(), x),
{
    let n = m.len();
    let ghost g = mat(m@);
    let mut rows: Vec<Vec<bool>> = Vec::new();
    let mut s: usize = 0;
    while s < n
        invariant
            n == m@.len(),
            g == mat(m@),
            square(g, n as nat),
            s <= n,
            rows@.len() == s,
            forall|i: int| 0 <= i < s ==> (#[trigger] rows@[i])@.len() == n,
            forall|i: int, t: int| 0 <= i < s && 0 <= t < n ==> #[trigger] rows@[i]@[t] == reaches(g, i, t),
        decreases n - s,
    {
        let row = reach_from(m, s);
        rows.push(row);
        proof {
            assert forall|i: int, t: int| 0 <= i < s + 1 && 0 <= t < n implies #[trigger] rows@[i]@[t] == reaches(g, i, t) by {}
        }
        s = s + 1;
    }
    let mut out: Vec<usize> = Vec::new();
    let mut x: usize = 0;
    while x < n
        invariant
            n == m@.len(),
            g == mat(m@),
            x <= n,
            rows@.len() == n,
            forall|i: int| 0 <= i < n ==> (#[trigger] rows@[i])@.len() == n,
            forall|i: int, t: int| 0 <= i < n && 0 <= t < n ==> #[trigger] rows@[i]@[t] == reaches(g, i, t),
            out@.len() == x,
            forall|y: int| 0 <= y < x ==> out@[y] == rank(g, n as nat, y),
        decreases n - x,
    {
        let ghost col = sources(g, n as nat, x as int);
        let mut c: usize = 0;
        let mut i: usize = 0;
        while i < n
            invariant
                n == m@.len(),
                x < n,
                i <= n,
                rows@.len() == n,
                col == sources(g, n as nat, x as int),
                forall|i: int| 0 <= i < n ==> (#[trigger] rows@[i])@.len() == n,
                forall|i: int, t: int| 0 <= i < n && 0 <= t < n ==> #[trigger] rows@[i]@[t] == reaches(g, i, t),
                c == count(col.take(i as int)),
                c <= i,
            decreases n - i,
        {
            assert(col.take(i + 1).drop_last() =~= col.take(i as int));
            assert(rows@[i as int]@[x as int] == col[i as int]);
            if rows[i][x] {
                c = c + 1;
            }
            i = i + 1;
        }
        assert(col.take(n as int) =~= col);
        out.push(c);
        x = x + 1;
    }
    out
}

/// The dependency matrix as a spec value.
pub open spec fn dep_graph(rules: Seq<Rule>, n: nat) -> Seq<Seq<bool>> {
    Seq::new(n, |a: int| Seq::new(n, |b: int| depends(rules, a, b)))
}

/// A stratum rank for each of `n` relations: a relation that depends on
/// another ranks no lower than it, and strictly higher unless the two are
/// mutually recursive.
pub fn stratify(rules: &Vec<Rule>, n: usize) -> (r: Vec<usize>)
    ensures
        r@.len() == n,
        forall|x: int| 0 <= x < n ==> r@[x] == rank(dep_graph(rules@, n as nat), n as nat, x),
{
    let m = dependency_matrix(rules, n);
    assert(mat(m@) =~= dep_graph(rules@, n as nat)) by {
        assert forall|a: int| 0 <= a < n implies mat(m@)[a] =~= dep_graph(rules@, n as nat)[a] by {
            assert forall|b: int| 0 <= b < n implies mat(m@)[a][b] == dep_graph(rules@, n as nat)[a][b] by {}
        }
    }
    ranks(&m)
}

/// The ranks that `stratify` gives order the strata: a relation ranks no
/// lower than any relation it depends on, and strictly higher when the
/// dependency does not lead back to it.
pub proof fn lemma_stratify_order(rules: Seq<Rule>, n: nat, a: int, b: int)
    requires
        0 <= a < n,
        0 <= b < n,
        depends(rules, a, b),
    ensures
        rank(dep_graph(rules, n), n, a) <= rank(dep_graph(rules, n), n, b),
        !reaches(dep_graph(rules, n), b, a) ==> rank(dep_graph(rules, n), n, a) < rank(dep_graph(rules, n), n, b),
{
    let g = dep_graph(rules, n);
    let w = seq![a, b];
    let z: int = 0;
    assert(edge(g, w[z], w[z + 1]));
    assert(is_path(g, w));
    lemma_rank_order(g, n, a, b);
}

proof fn lemma_count_zero(n: nat)
    ensures
        count(Seq::new(n, |t: int| false)) == 0,
    decreases n,
{
    if n > 0 {
        assert(Seq::new(n, |t: int| false).drop_last() =~= Seq::new((n - 1) as nat, |t: int| false));
        lemma_count_zero((n - 1) as nat);
    }
}

} // verus!
