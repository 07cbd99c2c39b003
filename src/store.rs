//! Relation storage: set-semantics tuple stores and lattice stores keyed on
//! all columns but the last.
use vstd::prelude::*;

verus! {

/// How a relation absorbs a new tuple.
#[derive(Clone, Copy, Debug, PartialEq, Eq, Structural)]
pub enum RelKind {
    /// Plain set insertion.
    Plain,
    /// Lattice on the last column, merged by minimum (smaller is better).
    Min,
    /// Lattice on the last column, merged by maximum.
    Max,
}

/// The lattice join of two values for a lattice kind.
pub open spec fn merge(kind: RelKind, a: i64, b: i64) -> i64 {
    match kind {
        RelKind::Min => if a <= b { a } else { b },
        _ => if a >= b { a } else { b },
    }
}

/// The lattice order: `a` carries no more information than `b`.
pub open spec fn lattice_le(kind: RelKind, a: i64, b: i64) -> bool {
    match kind {
        RelKind::Min => b <= a,
        _ => a <= b,
    }
}

/// Two tuples agree on every column but the last.
pub open spec fn same_key(a: Seq<i64>, b: Seq<i64>) -> bool {
    a.len() == b.len() && a.len() >= 1 && a.drop_last() == b.drop_last()
}

/// Position of the last stored tuple with the same key as `t`, or -1.
pub open spec fn key_pos(s: Seq<Seq<i64>>, t: Seq<i64>) -> int
    decreases s.len(),
{
    if s.len() == 0 {
        -1
    } else if same_key(s.last(), t) {
        s.len() - 1
    } else {
        key_pos(s.drop_last(), t)
    }
}

/// Whether `t` adds nothing to the contents `s` of a relation of kind `kind`.
pub open spec fn covers(kind: RelKind, s: Seq<Seq<i64>>, t: Seq<i64>) -> bool {
    match kind {
        RelKind::Plain => s.contains(t),
        _ => {
            let i = key_pos(s, t);
            i >= 0 && merge(kind, s[i].last(), t.last()) == s[i].last()
        },
    }
}

/// The contents after `t` is offered to the contents `s`.
pub open spec fn insert_spec(kind: RelKind, s: Seq<Seq<i64>>, t: Seq<i64>) -> Seq<Seq<i64>> {
    if covers(kind, s, t) {
        s
    } else {
        match kind {
            RelKind::Plain => s.push(t),
            _ => {
                let i = key_pos(s, t);
                if i < 0 {
                    s.push(t)
                } else {
                    s.update(i, t.drop_last().push(merge(kind, s[i].last(), t.last())))
                }
            },
        }
    }
}

/// Well-formed contents: every tuple has the arity; no duplicates, and for a
/// lattice no two tuples with one key.
pub open spec fn contents_wf(kind: RelKind, arity: nat, s: Seq<Seq<i64>>) -> bool {
    &&& forall|i: int| 0 <= i < s.len() ==> #[trigger] s[i].len() == arity
    &&& forall|i: int, j: int|
        0 <= i < s.len() && 0 <= j < s.len() && i != j ==> s[i] != s[j]
    &&& kind != RelKind::Plain ==> arity >= 1 && forall|i: int, j: int|
        0 <= i < s.len() && 0 <= j < s.len() && i != j ==> !same_key(s[i], s[j])
}

pub open spec fn deep(v: Seq<Vec<i64>>) -> Seq<Seq<i64>> {
    v.map_values(|t: Vec<i64>| t@)
}

/// What `key_pos` finds.
pub proof fn lemma_key_pos(s: Seq<Seq<i64>>, t: Seq<i64>)
    ensures
        -1 <= key_pos(s, t) < s.len(),
        key_pos(s, t) >= 0 ==> same_key(s[key_pos(s, t)], t),
        forall|j: int| key_pos(s, t) < j < s.len() ==> !same_key(#[trigger] s[j], t),
    decreases s.len(),
{
    if s.len() > 0 {
        let p = s.drop_last();
        lemma_key_pos(p, t);
        assert forall|j: int| 0 <= j < p.len() implies p[j] == s[j] by {}
    }
}

/// The position found from the end is the last one.
proof fn lemma_key_pos_at(s: Seq<Seq<i64>>, t: Seq<i64>, i: int)
    requires
        -1 <= i < s.len(),
        i >= 0 ==> same_key(s[i], t),
        forall|j: int| i < j < s.len() ==> !same_key(#[trigger] s[j], t),
    ensures
        key_pos(s, t) == i,
    decreases s.len(),
{
    if s.len() > 0 && i != s.len() - 1 {
        let p = s.drop_last();
        assert forall|j: int| i < j < p.len() implies !same_key(#[trigger] p[j], t) by {
            assert(p[j] == s[j]);
        }
        lemma_key_pos_at(p, t, i);
    }
}

proof fn lemma_push_wf(kind: RelKind, arity: nat, s: Seq<Seq<i64>>, t: Seq<i64>)
    requires
        contents_wf(kind, arity, s),
        t.len() == arity,
        forall|a: int| 0 <= a < s.len() ==> s[a] != t,
        kind != RelKind::Plain ==> forall|a: int| 0 <= a < s.len() ==> !same_key(s[a], t),
    ensures
        contents_wf(kind, arity, s.push(t)),
{
    let ns = s.push(t);
    assert forall|a: int| 0 <= a < ns.len() implies #[trigger] ns[a].len() == arity by {
        if a < s.len() {
            assert(ns[a] == s[a]);
        }
    }
    assert forall|a: int, b: int| 0 <= a < ns.len() && 0 <= b < ns.len() && a != b implies
        ns[a] != ns[b] && (kind != RelKind::Plain ==> !same_key(ns[a], ns[b])) by {
        if a < s.len() && b < s.len() {
            assert(ns[a] == s[a] && ns[b] == s[b]);
        } else if a < s.len() {
            assert(ns[a] == s[a]);
        } else {
            assert(ns[b] == s[b]);
            assert(ns[b].drop_last() == t.drop_last() ==> ns[a].drop_last() == s[b].drop_last());
        }
    }
}

/// Tuple equality on values.
pub fn tuple_eq(a: &Vec<i64>, b: &Vec<i64>) -> (r: bool)
    ensures
        r == (a@ == b@),
{
    if a.len() != b.len() {
        return false;
    }
    let mut i: usize = 0;
    while i < a.len()
        invariant
            a@.len() == b@.len(),
            i <= a.len(),
            forall|j: int| 0 <= j < i ==> a@[j] == b@[j],
        decreases a.len() - i,
    {
        if a[i] != b[i] {
            return false;
        }
        i = i + 1;
    }
    assert(a@ =~= b@);
    true
}

/// Equality on all columns but the last.
fn key_eq(a: &Vec<i64>, b: &Vec<i64>) -> (r: bool)
    ensures
        r == same_key(a@, b@),
{
    if a.len() != b.len() || a.len() == 0 {
        return false;
    }
    let n = a.len() - 1;
    let mut i: usize = 0;
    while i < n
        invariant
            a@.len() == b@.len(),
            n == a@.len() - 1,
            i <= n,
            forall|j: int| 0 <= j < i ==> a@[j] == b@[j],
        decreases n - i,
    {
        if a[i] != b[i] {
            assert(a@.drop_last()[i as int] != b@.drop_last()[i as int]);
            return false;
        }
        i = i + 1;
    }
    assert(a@.drop_last() =~= b@.drop_last());
    true
}

/// A relation: a named arity, a kind, and its current contents.
pub struct Relation {
    pub arity: usize,
    pub kind: RelKind,
    pub tuples: Vec<Vec<i64>>,
}

impl Relation {
    pub open spec fn view(&self) -> Seq<Seq<i64>> {
        deep(self.tuples@)
    }

    pub open spec fn wf(&self) -> bool {
        contents_wf(self.kind, self.arity as nat, self.view())
    }

    /// An empty relation of the given arity and kind.
    pub fn new(arity: usize, kind: RelKind) -> (r: Relation)
        requires
            kind != RelKind::Plain ==> arity >= 1,
        ensures
            r.wf(),
            r.arity == arity,
            r.kind == kind,
            r.view() == Seq::<Seq<i64>>::empty(),
    {
        let r = Relation { arity, kind, tuples: Vec::new() };
        assert(r.view() =~= Seq::<Seq<i64>>::empty());
        r
    }

    /// A copy with the same arity, kind and contents.
    pub fn copy(&self) -> (r: Relation)
        ensures
            r.arity == self.arity,
            r.kind == self.kind,
            r.view() == self.view(),
    {
        let mut ts: Vec<Vec<i64>> = Vec::new();
        let mut i: usize = 0;
        while i < self.tuples.len()
            invariant
                i <= self.tuples@.len(),
                deep(ts@) == self.view().take(i as int),
            decreases self.tuples@.len() - i,
        {
            let t = self.tuples[i].clone();
            assert(t@ =~= self.tuples@[i as int]@);
            let ghost before = ts@;
            ts.push(t);
            assert(deep(ts@) =~= deep(before).push(self.view()[i as int]));
            assert(deep(ts@) =~= self.view().take(i + 1));
            i = i + 1;
        }
        assert(self.view().take(i as int) =~= self.view());
        Relation { arity: self.arity, kind: self.kind, tuples: ts }
    }

    /// Number of stored tuples.
    pub fn len(&self) -> (r: usize)
        ensures
            r == self.view().len(),
    {
        self.tuples.len()
    }

    /// The stored tuple at position `i`.
    pub fn get(&self, i: usize) -> (r: &Vec<i64>)
        requires
            i < self.view().len(),
        ensures
            r@ == self.view()[i as int],
    {
        &self.tuples[i]
    }

    /// Whether the tuple is stored.
    pub fn contains(&self, t: &Vec<i64>) -> (r: bool)
        ensures
            r == self.view().contains(t@),
    {
        let mut i: usize = 0;
        while i < self.tuples.len()
            invariant
                i <= self.tuples@.len(),
                forall|j: int| 0 <= j < i ==> self.view()[j] != t@,
            decreases self.tuples@.len() - i,
        {
            if tuple_eq(&self.tuples[i], t) {
                assert(self.view()[i as int] == t@);
                return true;
            }
            i = i + 1;
        }
        false
    }

    /// The stored tuples whose column `cols[i]` holds `vals[i]` for every
    /// `i`, in store order.
    pub fn lookup(&self, cols: &Vec<usize>, vals: &Vec<i64>) -> (r: Vec<Vec<i64>>)
        requires
            cols@.len() == vals@.len(),
        ensures
            deep(r@) == select(self.view(), cols@, vals@),
    {
        let mut out: Vec<Vec<i64>> = Vec::new();
        let mut i: usize = 0;
        while i < self.tuples.len()
            invariant
                cols@.len() == vals@.len(),
                i <= self.tuples@.len(),
                deep(out@) == select(self.view().take(i as int), cols@, vals@),
            decreases self.tuples@.len() - i,
        {
            let t = &self.tuples[i];
            assert(self.view().take(i + 1).drop_last() =~= self.view().take(i as int));
            assert(self.view().take(i + 1).last() == t@);
            let mut ok = true;
            let mut j: usize = 0;
            while j < cols.len()
                invariant
                    cols@.len() == vals@.len(),
                    j <= cols@.len(),
                    ok == forall|k: int| 0 <= k < j ==> #[trigger] cols@[k] < t@.len() && t@[cols@[k] as int] == vals@[k],
                decreases cols@.len() - j,
            {
                if !(cols[j] < t.len() && t[cols[j]] == vals[j]) {
                    ok = false;
                }
                j = j + 1;
            }
            if ok {
                let ghost before = out@;
                let c = t.clone();
                assert(c@ =~= t@);
                out.push(c);
                assert(deep(out@) =~= deep(before).push(t@));
            }
            i = i + 1;
        }
        assert(self.view().take(i as int) =~= self.view());
        out
    }

    /// Position of the stored tuple whose key equals that of `t`, if any.
    fn find_key(&self, t: &Vec<i64>) -> (r: Option<usize>)
        ensures
            r is None ==> key_pos(self.view(), t@) == -1,
            r matches Some(i) ==> key_pos(self.view(), t@) == i && i < self.view().len(),
    {
        let mut i: usize = self.tuples.len();
        while i > 0
            invariant
                i <= self.tuples@.len(),
                forall|j: int| i <= j < self.view().len() ==> !same_key(#[trigger] self.view()[j], t@),
            decreases i,
        {
            if key_eq(&self.tuples[i - 1], t) {
                proof { lemma_key_pos_at(self.view(), t@, i - 1); }
                return Some(i - 1);
            }
            i = i - 1;
        }
        proof { lemma_key_pos_at(self.view(), t@, -1); }
        None
    }

    /// Offers a tuple: plain relations add it when absent; lattice relations
    /// merge its last column into the value stored for its key. Returns
    /// whether the contents changed.
    pub fn insert(&mut self, t: Vec<i64>) -> (r: bool)
        requires
            old(self).wf(),
            t@.len() == old(self).arity,
        ensures
            final(self).wf(),
            final(self).arity == old(self).arity,
            final(self).kind == old(self).kind,
            r == !covers(old(self).kind, old(self).view(), t@),
            final(self).view() == insert_spec(old(self).kind, old(self).view(), t@),
    {
        let ghost s = self.view();
        proof { lemma_key_pos(s, t@); }
        match self.kind {
            RelKind::Plain => {
                if self.contains(&t) {
                    false
                } else {
                    self.tuples.push(t);
                    assert(self.view() =~= s.push(t@));
                    proof {
                        assert forall|a: int| 0 <= a < s.len() implies s[a] != t@ by {
                            assert(s.contains(s[a]));
                        }
                        lemma_push_wf(self.kind, self.arity as nat, s, t@);
                    }
                    true
                }
            },
            _ => {
                match self.find_key(&t) {
                    None => {
                        proof {
                            assert forall|i: int| 0 <= i < s.len() implies s[i] != t@ by {
                                assert(!same_key(s[i], t@));
                            }
                        }
                        self.tuples.push(t);
                        assert(self.view() =~= s.push(t@));
                        proof { lemma_push_wf(self.kind, self.arity as nat, s, t@); }
                        true
                    },
                    Some(i) => {
                        let cur = self.tuples[i][self.arity - 1];
                        let v = t[self.arity - 1];
                        let m = match self.kind {
                            RelKind::Min => if cur <= v { cur } else { v },
                            _ => if cur >= v { cur } else { v },
                        };
                        if m == cur {
                            false
                        } else {
                            let mut nt = t;
                            nt.set(self.arity - 1, m);
                            assert(nt@ =~= t@.drop_last().push(m));
                            self.tuples.set(i, nt);
                            let ghost ns = s.update(i as int, t@.drop_last().push(m));
                            assert(self.view() =~= ns);
                            assert forall|a: int, b: int|
                                #![trigger ns[a], ns[b]]
                                0 <= a < ns.len() && 0 <= b < ns.len() && a != b implies
                                !same_key(ns[a], ns[b]) && ns[a] != ns[b] by {
                                assert(same_key(s[i as int], t@));
                                assert(ns[i as int].drop_last() =~= t@.drop_last());
                                if a == i {
                                    assert(ns[b] == s[b]);
                                    assert(!same_key(s[a], s[b]));
                                } else if b == i {
                                    assert(ns[a] == s[a]);
                                    assert(!same_key(s[a], s[b]));
                                } else {
                                    assert(ns[a] == s[a] && ns[b] == s[b]);
                                }
                            }
                            assert forall|a: int| 0 <= a < ns.len() implies #[trigger] ns[a].len() == self.arity by {
                                if a != i {
                                    assert(ns[a] == s[a]);
                                }
                            }
                            true
                        }
                    },
                }
            },
        }
    }

    /// Replaces the whole contents by `ts`, dropping repeated tuples (for a
    /// lattice, merging values of repeated keys), as if each were offered in
    /// turn to an empty relation.
    pub fn assign(&mut self, ts: Vec<Vec<i64>>)
        requires
            old(self).wf(),
            forall|i: int| 0 <= i < ts@.len() ==> (#[trigger] ts@[i])@.len() == old(self).arity,
        ensures
            final(self).wf(),
            final(self).arity == old(self).arity,
            final(self).kind == old(self).kind,
            final(self).view() == insert_all(old(self).kind, Seq::empty(), deep(ts@)),
    {
        let mut fresh = Relation::new(self.arity, self.kind);
        let mut i: usize = 0;
        while i < ts.len()
            invariant
                self.wf(),
                fresh.wf(),
                fresh.arity == self.arity,
                fresh.kind == self.kind,
                i <= ts@.len(),
                forall|j: int| 0 <= j < ts@.len() ==> (#[trigger] ts@[j])@.len() == self.arity,
                fresh.view() == insert_all(self.kind, Seq::empty(), deep(ts@).take(i as int)),
            decreases ts@.len() - i,
        {
            let t = ts[i].clone();
            fresh.insert(t);
            assert(deep(ts@).take(i + 1).drop_last() =~= deep(ts@).take(i as int));
            i = i + 1;
        }
        assert(deep(ts@).take(i as int) =~= deep(ts@));
        *self = fresh;
    }
}

/// Two contents that agree, position by position, on which tuples share
/// `u`'s key have the same key position for `u`.
proof fn lemma_key_pos_ext(s: Seq<Seq<i64>>, s2: Seq<Seq<i64>>, u: Seq<i64>)
    requires
        s.len() == s2.len(),
        forall|j: int| 0 <= j < s.len() ==> same_key(s[j], u) == same_key(s2[j], u),
    ensures
        key_pos(s, u) == key_pos(s2, u),
    decreases s.len(),
{
    if s.len() > 0 {
        let (p, p2) = (s.drop_last(), s2.drop_last());
        assert forall|j: int| 0 <= j < p.len() implies same_key(p[j], u) == same_key(p2[j], u) by {
            assert(p[j] == s[j] && p2[j] == s2[j]);
        }
        lemma_key_pos_ext(p, s2.drop_last(), u);
    }
}

/// Tuples with one key have one key position.
proof fn lemma_key_pos_same(s: Seq<Seq<i64>>, t: Seq<i64>, u: Seq<i64>)
    requires
        same_key(t, u),
    ensures
        key_pos(s, t) == key_pos(s, u),
    decreases s.len(),
{
    if s.len() > 0 {
        lemma_key_pos_same(s.drop_last(), t, u);
    }
}

/// How the key position of `u` moves when `t` is offered.
proof fn lemma_key_pos_after(kind: RelKind, s: Seq<Seq<i64>>, t: Seq<i64>, u: Seq<i64>)
    requires
        kind != RelKind::Plain,
        t.len() >= 1,
        u.len() == t.len(),
    ensures
        ({
            let ns = insert_spec(kind, s, t);
            let p = key_pos(s, u);
            &&& p >= 0 ==> key_pos(ns, u) == p
            &&& (p < 0 && same_key(t, u) && !covers(kind, s, t)) ==> key_pos(ns, u) == s.len()
            &&& (p < 0 && !(same_key(t, u) && !covers(kind, s, t))) ==> key_pos(ns, u) == -1
        }),
{
    let ns = insert_spec(kind, s, t);
    let i = key_pos(s, t);
    lemma_key_pos(s, t);
    lemma_key_pos(s, u);
    if same_key(t, u) {
        lemma_key_pos_same(s, t, u);
    }
    if !covers(kind, s, t) {
        if i < 0 {
            let p = s.push(t);
            assert(p.drop_last() =~= s);
        } else {
            let nt = t.drop_last().push(merge(kind, s[i].last(), t.last()));
            assert(nt.drop_last() =~= t.drop_last());
            assert forall|j: int| 0 <= j < s.len() implies same_key(s[j], u) == same_key(ns[j], u) by {
                if j == i {
                    assert(same_key(s[i], t));
                }
            }
            lemma_key_pos_ext(s, ns, u);
        }
    }
}

/// What a relation covers stays covered after any offer.
pub proof fn lemma_insert_keeps_covers(kind: RelKind, arity: nat, s: Seq<Seq<i64>>, t: Seq<i64>, u: Seq<i64>)
    requires
        contents_wf(kind, arity, s),
        t.len() == arity,
        u.len() == arity,
        covers(kind, s, u),
    ensures
        covers(kind, insert_spec(kind, s, t), u),
{
    let ns = insert_spec(kind, s, t);
    if kind == RelKind::Plain {
        if !covers(kind, s, t) {
            let j = choose|j: int| 0 <= j < s.len() && s[j] == u;
            assert(ns[j] == u);
        }
    } else {
        lemma_key_pos_after(kind, s, t, u);
        lemma_key_pos(s, t);
        lemma_key_pos(s, u);
        if same_key(t, u) {
            lemma_key_pos_same(s, t, u);
        }
    }
}

/// The offered tuple is covered after the offer.
pub proof fn lemma_insert_covers(kind: RelKind, arity: nat, s: Seq<Seq<i64>>, t: Seq<i64>)
    requires
        contents_wf(kind, arity, s),
        t.len() == arity,
    ensures
        covers(kind, insert_spec(kind, s, t), t),
{
    let ns = insert_spec(kind, s, t);
    if !covers(kind, s, t) {
        if kind == RelKind::Plain {
            assert(ns[s.len() as int] == t);
        } else {
            lemma_key_pos_after(kind, s, t, t);
            lemma_key_pos(s, t);
            let i = key_pos(s, t);
            if i >= 0 {
                assert(ns[i].last() == merge(kind, s[i].last(), t.last()));
            } else {
                assert(ns[s.len() as int] == t);
            }
        }
    }
}

/// Lattice monotonicity of one offer: every stored tuple keeps its place and
/// its key, and its value only moves up in the lattice order, to exactly
/// the join with the offered value where the key is the offered one.
pub proof fn lemma_offer_monotone(kind: RelKind, arity: nat, s: Seq<Seq<i64>>, t: Seq<i64>)
    requires
        kind != RelKind::Plain,
        contents_wf(kind, arity, s),
        t.len() == arity,
    ensures
        ({
            let ns = insert_spec(kind, s, t);
            &&& contents_wf(kind, arity, ns)
            &&& s.len() <= ns.len() <= s.len() + 1
            &&& forall|i: int| 0 <= i < s.len() ==> same_key(#[trigger] ns[i], s[i])
                && lattice_le(kind, s[i].last(), ns[i].last())
                && ns[i].last() == (if same_key(s[i], t) { merge(kind, s[i].last(), t.last()) } else { s[i].last() })
            &&& ns.len() == s.len() + 1 <==> key_pos(s, t) < 0
            &&& ns.len() == s.len() + 1 ==> ns.last() == t
        }),
{
    let ns = insert_spec(kind, s, t);
    lemma_key_pos(s, t);
    let k = key_pos(s, t);
    assert forall|i: int| 0 <= i < s.len() implies same_key(#[trigger] ns[i], s[i])
        && lattice_le(kind, s[i].last(), ns[i].last())
        && ns[i].last() == (if same_key(s[i], t) { merge(kind, s[i].last(), t.last()) } else { s[i].last() }) by {
        if i == k {
            let nt = t.drop_last().push(merge(kind, s[i].last(), t.last()));
            assert(nt.drop_last() =~= t.drop_last());
        } else if k >= 0 && same_key(s[i], t) {
            assert(same_key(s[i], s[k]));
        }
    }
    if k < 0 {
        assert forall|i: int| 0 <= i < s.len() implies s[i] != t by {
            assert(!same_key(s[i], t));
        }
        lemma_push_wf(kind, arity, s, t);
    } else if !covers(kind, s, t) {
        let nt = t.drop_last().push(merge(kind, s[k].last(), t.last()));
        assert(nt.drop_last() =~= t.drop_last());
        assert forall|a: int, b: int|
            #![trigger ns[a], ns[b]]
            0 <= a < ns.len() && 0 <= b < ns.len() && a != b implies
            !same_key(ns[a], ns[b]) && ns[a] != ns[b] by {
            assert(same_key(ns[a], s[a]) && same_key(ns[b], s[b]));
            assert(!same_key(s[a], s[b]));
        }
        assert forall|a: int| 0 <= a < ns.len() implies #[trigger] ns[a].len() == arity by {
            assert(same_key(ns[a], s[a]));
        }
    }
}

/// The merge of a lattice kind is a join: commutative, associative,
/// idempotent, and an upper bound of both operands.
pub proof fn lemma_merge_join(kind: RelKind, a: i64, b: i64, c: i64)
    requires
        kind != RelKind::Plain,
    ensures
        merge(kind, a, b) == merge(kind, b, a),
        merge(kind, merge(kind, a, b), c) == merge(kind, a, merge(kind, b, c)),
        merge(kind, a, a) == a,
        lattice_le(kind, a, merge(kind, a, b)),
        lattice_le(kind, b, merge(kind, a, b)),
{
}

/// The join of the values of the tuples of `ts` whose key is `u`'s.
pub open spec fn join_of(kind: RelKind, ts: Seq<Seq<i64>>, u: Seq<i64>) -> Option<i64>
    decreases ts.len(),
{
    if ts.len() == 0 {
        None
    } else {
        let p = join_of(kind, ts.drop_last(), u);
        if same_key(ts.last(), u) {
            match p {
                None => Some(ts.last().last()),
                Some(v) => Some(merge(kind, v, ts.last().last())),
            }
        } else {
            p
        }
    }
}

/// After a sequence of offers to an empty lattice relation, a key is stored
/// exactly when some offer carried it, and its value is the join of every
/// value offered for it.
pub proof fn lemma_offers_join(kind: RelKind, arity: nat, ts: Seq<Seq<i64>>, u: Seq<i64>)
    requires
        kind != RelKind::Plain,
        arity >= 1,
        u.len() == arity,
        forall|i: int| 0 <= i < ts.len() ==> (#[trigger] ts[i]).len() == arity,
    ensures
        contents_wf(kind, arity, insert_all(kind, Seq::empty(), ts)),
        ({
            let s = insert_all(kind, Seq::empty(), ts);
            let p = key_pos(s, u);
            &&& (p >= 0) == (join_of(kind, ts, u) is Some)
            &&& p >= 0 ==> s[p].last() == join_of(kind, ts, u)->0
        }),
    decreases ts.len(),
{
    let s0 = Seq::<Seq<i64>>::empty();
    if ts.len() == 0 {
        assert(contents_wf(kind, arity, s0));
    } else {
        let pre = ts.drop_last();
        let t = ts.last();
        assert forall|i: int| 0 <= i < pre.len() implies (#[trigger] pre[i]).len() == arity by {
            assert(pre[i] == ts[i]);
        }
        lemma_offers_join(kind, arity, pre, u);
        let s = insert_all(kind, s0, pre);
        lemma_offer_monotone(kind, arity, s, t);
        lemma_key_pos_after(kind, s, t, u);
        lemma_key_pos(s, u);
        lemma_key_pos(s, t);
        let ns = insert_spec(kind, s, t);
        lemma_key_pos(ns, u);
        if same_key(t, u) {
            lemma_key_pos_same(s, t, u);
        }
    }
}

/// Tuple `t` holds `vals[i]` in column `cols[i]` for every `i`.
pub open spec fn matches_cols(t: Seq<i64>, cols: Seq<usize>, vals: Seq<i64>) -> bool {
    forall|k: int| 0 <= k < cols.len() ==> #[trigger] cols[k] < t.len() && t[cols[k] as int] == vals[k]
}

/// The tuples of `s` that match, in order.
pub open spec fn select(s: Seq<Seq<i64>>, cols: Seq<usize>, vals: Seq<i64>) -> Seq<Seq<i64>>
    decreases s.len(),
{
    if s.len() == 0 {
        Seq::empty()
    } else if matches_cols(s.last(), cols, vals) {
        select(s.drop_last(), cols, vals).push(s.last())
    } else {
        select(s.drop_last(), cols, vals)
    }
}

/// A plain relation holds, after a batch of offers, exactly what it held
/// before and what the batch offered, whatever the order of the batch.
pub proof fn lemma_plain_offers(s: Seq<Seq<i64>>, ts: Seq<Seq<i64>>, u: Seq<i64>)
    ensures
        insert_all(RelKind::Plain, s, ts).contains(u) <==> s.contains(u) || ts.contains(u),
    decreases ts.len(),
{
    if ts.len() > 0 {
        let pre = ts.drop_last();
        lemma_plain_offers(s, pre, u);
        let r = insert_all(RelKind::Plain, s, pre);
        if ts.contains(u) && !pre.contains(u) {
            let i = choose|i: int| 0 <= i < ts.len() && ts[i] == u;
            if i < pre.len() {
                assert(pre[i] == u);
            }
        }
        if pre.contains(u) {
            let i = choose|i: int| 0 <= i < pre.len() && pre[i] == u;
            assert(ts[i] == u);
        }
        if !covers(RelKind::Plain, r, ts.last()) {
            let rr = r.push(ts.last());
            if r.contains(u) {
                let i = choose|i: int| 0 <= i < r.len() && r[i] == u;
                assert(rr[i] == u);
            }
            if rr.contains(u) {
                let i = choose|i: int| 0 <= i < rr.len() && rr[i] == u;
                if i < r.len() {
                    assert(r[i] == u);
                }
            }
            assert(rr[r.len() as int] == ts.last());
        }
        assert(ts[ts.len() - 1] == ts.last());
    }
}

/// The join of a batch is its best value: one of the values offered for
/// the key, and no worse than any of them. It does not depend on the order
/// of the batch.
pub proof fn lemma_join_of_extreme(kind: RelKind, ts: Seq<Seq<i64>>, u: Seq<i64>)
    requires
        kind != RelKind::Plain,
    ensures
        join_of(kind, ts, u) is Some <==> exists|i: int| 0 <= i < ts.len() && same_key(#[trigger] ts[i], u),
        join_of(kind, ts, u) matches Some(v) ==> {
            &&& exists|i: int| 0 <= i < ts.len() && same_key(#[trigger] ts[i], u) && ts[i].last() == v
            &&& forall|i: int| 0 <= i < ts.len() && same_key(#[trigger] ts[i], u) ==> lattice_le(kind, ts[i].last(), v)
        },
    decreases ts.len(),
{
    if ts.len() > 0 {
        let pre = ts.drop_last();
        lemma_join_of_extreme(kind, pre, u);
        assert forall|i: int| 0 <= i < pre.len() implies pre[i] == ts[i] by {}
        let n = ts.len() - 1;
        assert(ts[n] == ts.last());
        match join_of(kind, pre, u) {
            Some(v) => {
                let i = choose|i: int| 0 <= i < pre.len() && same_key(#[trigger] pre[i], u) && pre[i].last() == v;
                assert(same_key(ts[i], u) && ts[i].last() == v);
            },
            None => {},
        }
    }
}

/// The contents after each tuple of `ts` is offered in turn.
pub open spec fn insert_all(kind: RelKind, s: Seq<Seq<i64>>, ts: Seq<Seq<i64>>) -> Seq<Seq<i64>>
    decreases ts.len(),
{
    if ts.len() == 0 {
        s
    } else {
        insert_spec(kind, insert_all(kind, s, ts.drop_last()), ts.last())
    }
}

} // verus!
