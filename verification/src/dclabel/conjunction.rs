use vstd::prelude::*;

use super::disjunction::Disjunction;
use super::formula::{
    ClauseSet, FormulaSet, formula_fin, is_antichain, lemma_reduce_ensures,
    lemma_reduce_eq_antichain, lemma_reduce_union, reduce,
};
use crate::order::{
    clause_lt, lemma_clause_lt_connected, lemma_clause_lt_trans, sorted_clauses, sorted_names,
};

verus! {

broadcast use vstd::seq_lib::group_seq_lib_default;

/// A conjunction of disjunctions, interpreted as their logical AND: a
/// positive formula in conjunctive normal form. The empty conjunction
/// denotes true; the conjunction holding only the empty clause denotes
/// false.
///
/// The clauses are kept sorted, so that two conjunctions in logical normal
/// form with the same meaning are structurally equal.
#[derive(Debug, Hash)]
pub struct Conjunction(Vec<Disjunction>);

/// The set of clauses of a sequence of clauses, each taken as a set.
pub open spec fn seq_cset(s: Seq<Seq<Seq<char>>>) -> FormulaSet {
    Set::new(
        |x: ClauseSet| exists|i: int| #![trigger s[i]] 0 <= i < s.len() && s[i].to_set() == x,
    )
}

/// Every clause of the sequence is itself sorted.
pub open spec fn clauses_wf(s: Seq<Seq<Seq<char>>>) -> bool {
    forall|i: int| 0 <= i < s.len() ==> sorted_names(#[trigger] s[i])
}

impl View for Conjunction {
    type V = Seq<Seq<Seq<char>>>;

    closed spec fn view(&self) -> Seq<Seq<Seq<char>>> {
        self.0.deep_view()
    }
}

impl DeepView for Conjunction {
    type V = Seq<Seq<Seq<char>>>;

    open spec fn deep_view(&self) -> Seq<Seq<Seq<char>>> {
        self.view()
    }
}

impl Conjunction {
    /// The set of clauses of the formula, each as a set of principals.
    pub open spec fn cset(&self) -> FormulaSet {
        seq_cset(self@)
    }

    /// Canonical shape: clauses strictly sorted, each clause sorted.
    pub open spec fn wf(&self) -> bool {
        sorted_clauses(self@) && clauses_wf(self@)
    }

    /// Logical normal form: canonical shape, and no clause implied by
    /// another.
    pub open spec fn is_lnf(&self) -> bool {
        self.wf() && is_antichain(self.cset())
    }
}

/// A sequence of clauses names a finite set of finite clauses.
pub proof fn lemma_seq_cset_fin(s: Seq<Seq<Seq<char>>>)
    ensures
        formula_fin(seq_cset(s)),
{
    let f = |c: Seq<Seq<char>>| c.to_set();
    let m = s.map_values(f);
    assert(seq_cset(s) =~= m.to_set()) by {
        assert forall|x: ClauseSet| seq_cset(s).contains(x) implies m.to_set().contains(x) by {
            let i = choose|i: int| 0 <= i < s.len() && #[trigger] s[i].to_set() == x;
            assert(m[i] == x);
            assert(m.contains(x));
        }
        assert forall|x: ClauseSet| m.to_set().contains(x) implies seq_cset(s).contains(x) by {
            let i = choose|i: int| 0 <= i < m.len() && m[i] == x;
            assert(s[i].to_set() == x);
        }
    }
    assert forall|x: ClauseSet| seq_cset(s).contains(x) implies x.finite() by {
        let i = choose|i: int| 0 <= i < s.len() && #[trigger] s[i].to_set() == x;
    }
}

/// Membership in the clause set, through the set of clause sequences.
pub proof fn lemma_seq_cset_via_set(s: Seq<Seq<Seq<char>>>, x: ClauseSet)
    ensures
        seq_cset(s).contains(x) <==> exists|e: Seq<Seq<char>>| #[trigger]
            s.to_set().contains(e) && e.to_set() == x,
{
    if seq_cset(s).contains(x) {
        let i = choose|i: int| 0 <= i < s.len() && #[trigger] s[i].to_set() == x;
        assert(s.to_set().contains(s[i]) && s[i].to_set() == x);
    }
    if exists|e: Seq<Seq<char>>| #[trigger] s.to_set().contains(e) && e.to_set() == x {
        let e = choose|e: Seq<Seq<char>>| #[trigger] s.to_set().contains(e) && e.to_set() == x;
        let i = choose|i: int| 0 <= i < s.len() && s[i] == e;
        assert(s[i].to_set() == x);
    }
}

/// Inserts a clause into a sorted vector of clauses, keeping it sorted and
/// free of duplicates.
fn insert_clause(v: &mut Vec<Disjunction>, d: Disjunction)
    requires
        sorted_clauses(old(v).deep_view()),
    ensures
        sorted_clauses(final(v).deep_view()),
        final(v).deep_view().to_set() == old(v).deep_view().to_set().insert(d@),
{
    let ghost dv = v.deep_view();
    let mut i: usize = 0;
    while i < v.len() && v[i].lt(&d)
        invariant
            i <= v.len(),
            v.deep_view() == dv,
            forall|k: int| 0 <= k < i ==> clause_lt(dv[k], d@),
        decreases v.len() - i,
    {
        proof {
            assert(v@[i as int]@ == dv[i as int]);
        }
        i += 1;
    }
    proof {
        if i < dv.len() {
            assert(v@[i as int]@ == dv[i as int]);
        }
    }
    if i < v.len() && v[i] == d {
        proof {
            assert(dv[i as int] == d@);
            assert(dv.contains(d@));
            assert(v.deep_view().to_set() =~= dv.to_set().insert(d@));
        }
        return;
    }
    proof {
        if i < dv.len() && dv[i as int] != d@ {
            lemma_clause_lt_connected(dv[i as int], d@);
        }
    }
    assert(i < dv.len() ==> clause_lt(d@, dv[i as int]));
    v.insert(i, d);
    proof {
        let nv = v.deep_view();
        assert(nv =~= dv.insert(i as int, d@)) by {
            assert forall|k: int| 0 <= k < nv.len() implies nv[k] == dv.insert(i as int, d@)[k] by {
                assert(nv[k] == v@[k]@);
            }
        }
        assert forall|a: int, b: int| 0 <= a < b < nv.len() implies clause_lt(nv[a], nv[b]) by {
            let ia = if a < i { dv[a] } else if a == i { d@ } else { dv[a - 1] };
            let ib = if b < i { dv[b] } else if b == i { d@ } else { dv[b - 1] };
            assert(nv[a] == ia);
            assert(nv[b] == ib);
            if a == i && b > i {
                if b - 1 > i {
                    lemma_clause_lt_trans(d@, dv[i as int], dv[b - 1]);
                }
            }
        }
        assert(nv.to_set() =~= dv.to_set().insert(d@)) by {
            assert forall|e: Seq<Seq<char>>| nv.to_set().contains(e)
                <==> dv.to_set().contains(e) || e == d@ by {
                if nv.contains(e) {
                    let k = choose|k: int| 0 <= k < nv.len() && nv[k] == e;
                    if k < i {
                        assert(dv[k] == e);
                    } else if k > i {
                        assert(dv[k - 1] == e);
                    }
                }
                if dv.contains(e) {
                    let k = choose|k: int| 0 <= k < dv.len() && dv[k] == e;
                    if k < i {
                        assert(nv[k] == e);
                    } else {
                        assert(nv[k + 1] == e);
                    }
                }
                assert(nv[i as int] == d@);
            }
        }
    }
}

impl Conjunction {
    /// The empty conjunction: true.
    pub fn mk_true() -> (r: Self)
        ensures
            r.is_lnf(),
            r@ == Seq::<Seq<Seq<char>>>::empty(),
            r.cset() == Set::<ClauseSet>::empty(),
    {
        let v: Vec<Disjunction> = Vec::new();
        proof {
            assert(v.deep_view() =~= Seq::<Seq<Seq<char>>>::empty());
            assert(seq_cset(v.deep_view()) =~= Set::<ClauseSet>::empty());
        }
        Conjunction(v)
    }

    /// The conjunction holding exactly the empty clause: false.
    pub fn mk_false() -> (r: Self)
        ensures
            r.is_lnf(),
            r.cset() == Set::<ClauseSet>::empty().insert(Set::<Seq<char>>::empty()),
    {
        let mut v: Vec<Disjunction> = Vec::new();
        let d = Disjunction::mk_false();
        v.push(d);
        proof {
            let nv = v.deep_view();
            assert(nv.len() == 1);
            assert(nv[0] == Seq::<Seq<char>>::empty());
            assert(nv[0].to_set() =~= Set::<Seq<char>>::empty());
            assert(seq_cset(nv) =~= Set::<ClauseSet>::empty().insert(Set::<Seq<char>>::empty()))
                by {
                assert(nv[0].to_set() == Set::<Seq<char>>::empty());
            }
        }
        Conjunction(v)
    }

    /// Add a disjunction clause.
    ///
    /// Adds the clause only if no clause of the conjunction implies it, and
    /// removes every clause that the new one implies: the result is again in
    /// logical normal form, holding the reduction of the clauses of `self`
    /// together with `disj`.
    #[verifier::loop_isolation(false)]
    pub fn add(self, disj: Disjunction) -> (r: Self)
        requires
            self.is_lnf(),
            disj.wf(),
        ensures
            r.is_lnf(),
            r.cset() == reduce(self.cset().insert(disj.pset())),
    {
        let ghost s0 = self.cset();
        let ghost dps = disj.pset();
        proof {
            lemma_seq_cset_fin(self@);
        }
        let mut i: usize = 0;
        while i < self.0.len()
            invariant
                i <= self.0.len(),
                forall|k: int| 0 <= k < i ==> !(#[trigger] self@[k]).to_set().subset_of(
                    disj.pset()),
            decreases self.0.len() - i,
        {
            proof {
                assert(self.0@[i as int]@ == self@[i as int]);
            }
            if self.0[i].implies(&disj) {
                proof {
                    assert(self@[i as int].to_set().subset_of(dps));
                    assert(s0.contains(self@[i as int].to_set()));
                    lemma_reduce_eq_antichain(s0, s0.insert(dps));
                }
                return self;
            }
            i += 1;
        }
        let ghost sv = self@;
        let mut v: Vec<Disjunction> = Vec::new();
        let ghost mut idx: Seq<int> = Seq::empty();
        let mut j: usize = 0;
        while j < self.0.len()
            invariant
                j <= self.0.len(),
                idx.len() == v.deep_view().len(),
                forall|a: int| 0 <= a < idx.len() ==> 0 <= #[trigger] idx[a] < j
                    && sv[idx[a]] == v.deep_view()[a]
                    && !disj.pset().subset_of(sv[idx[a]].to_set()),
                forall|a: int, b: int| #![trigger idx[a], idx[b]] 0 <= a < b < idx.len() ==> idx[a] < idx[b],
                forall|k: int|
                    0 <= k < j && !disj.pset().subset_of((#[trigger] sv[k]).to_set())
                    ==> v.deep_view().contains(sv[k]),
            decreases self.0.len() - j,
        {
            proof {
                assert(self.0@[j as int]@ == sv[j as int]);
            }
            if !disj.implies(&self.0[j]) {
                let ghost pv = v.deep_view();
                let c = self.0[j].clone();
                v.push(c);
                proof {
                    let nv = v.deep_view();
                    assert(nv =~= pv.push(sv[j as int])) by {
                        assert forall|k: int| 0 <= k < nv.len()
                            implies nv[k] == pv.push(sv[j as int])[k] by {
                            assert(nv[k] == v@[k]@);
                        }
                    }
                    idx = idx.push(j as int);
                    assert forall|k: int|
                        0 <= k < j + 1 && !disj.pset().subset_of((#[trigger] sv[k]).to_set())
                        implies nv.contains(sv[k]) by {
                        if k < j {
                            assert(pv.contains(sv[k]));
                            let a = choose|a: int| 0 <= a < pv.len() && pv[a] == sv[k];
                            assert(nv[a] == sv[k]);
                        } else {
                            assert(nv[nv.len() - 1] == sv[j as int]);
                        }
                    }
                }
            }
            j += 1;
        }
        proof {
            assert forall|a: int, b: int| 0 <= a < b < v.deep_view().len()
                implies clause_lt(v.deep_view()[a], v.deep_view()[b]) by {
                assert(idx[a] < idx[b]);
                assert(clause_lt(sv[idx[a]], sv[idx[b]]));
            }
            assert forall|a: int| 0 <= a < v.deep_view().len()
                implies sorted_names(v.deep_view()[a]) by {
                assert(sorted_names(sv[idx[a]]));
            }
        }
        let ghost pv = v.deep_view();
        insert_clause(&mut v, disj);
        let r = Conjunction(v);
        proof {
            let nv = r@;
            let target = reduce(s0.insert(dps));
            assert(nv.to_set() == pv.to_set().insert(disj@));
            // every clause of the result is sorted
            assert forall|a: int| 0 <= a < nv.len() implies sorted_names(nv[a]) by {
                assert(nv.to_set().contains(nv[a]));
                if nv[a] != disj@ {
                    assert(pv.to_set().contains(nv[a]));
                    let b = choose|b: int| 0 <= b < pv.len() && pv[b] == nv[a];
                    assert(sorted_names(sv[idx[b]]));
                }
            }
            // no clause of the conjunction matches the new clause as a set
            assert forall|k: int| 0 <= k < sv.len() implies (#[trigger] sv[k]).to_set() != dps by {
                if sv[k].to_set() == dps {
                    assert(sv[k].to_set().subset_of(dps));
                }
            }
            assert(nv.to_set() =~= pv.to_set().insert(disj@));
            assert(r.cset() =~= target) by {
                assert forall|x: ClauseSet| r.cset().contains(x) implies target.contains(x) by {
                    lemma_seq_cset_via_set(nv, x);
                    let e = choose|e: Seq<Seq<char>>| #[trigger]
                        nv.to_set().contains(e) && e.to_set() == x;
                    if e == disj@ {
                        assert(x == dps);
                        assert(s0.insert(dps).contains(x));
                        assert forall|d: ClauseSet|
                            s0.insert(dps).contains(d) && d != x implies !d.subset_of(x) by {
                            let k = choose|k: int|
                                0 <= k < sv.len() && #[trigger] sv[k].to_set() == d;
                        }
                    } else {
                        assert(pv.to_set().contains(e));
                        let b = choose|b: int| 0 <= b < pv.len() && pv[b] == e;
                        let k = idx[b];
                        assert(s0.contains(x)) by {
                            assert(sv[k].to_set() == x);
                        }
                        assert forall|d: ClauseSet|
                            s0.insert(dps).contains(d) && d != x implies !d.subset_of(x) by {
                            if d == dps {
                                assert(!dps.subset_of(x));
                            } else {
                                assert(s0.contains(d));
                            }
                        }
                    }
                }
                assert forall|x: ClauseSet| target.contains(x) implies r.cset().contains(x) by {
                    lemma_seq_cset_via_set(nv, x);
                    if x == dps {
                        assert(nv.to_set().contains(disj@) && disj@.to_set() == x);
                    } else {
                        assert(s0.contains(x));
                        let k = choose|k: int| 0 <= k < sv.len() && #[trigger] sv[k].to_set() == x;
                        assert(!dps.subset_of(x)) by {
                            if dps.subset_of(x) {
                                assert(s0.insert(dps).contains(dps) && dps != x
                                    && dps.subset_of(x));
                            }
                        }
                        assert(pv.contains(sv[k]));
                        assert(nv.to_set().contains(sv[k]) && sv[k].to_set() == x);
                    }
                }
            }
            assert(is_antichain(r.cset())) by {
                lemma_seq_cset_fin(sv);
                assert(formula_fin(s0.insert(dps)));
                lemma_reduce_ensures(s0.insert(dps));
            }
        }
        r
    }
}


/// Appending a clause to a sequence adds its set to the clause set.
pub proof fn lemma_seq_cset_push(s: Seq<Seq<Seq<char>>>, d: Seq<Seq<char>>)
    ensures
        seq_cset(s.push(d)) == seq_cset(s).insert(d.to_set()),
{
    assert forall|x: ClauseSet| seq_cset(s.push(d)).contains(x)
        <==> seq_cset(s).insert(d.to_set()).contains(x) by {
        if seq_cset(s.push(d)).contains(x) {
            let i = choose|i: int| 0 <= i < s.push(d).len() && #[trigger] s.push(d)[i].to_set()
                == x;
            if i < s.len() {
                assert(s[i].to_set() == x);
            } else {
                assert(s.push(d)[i] == d);
            }
        }
        if seq_cset(s).contains(x) {
            let i = choose|i: int| 0 <= i < s.len() && #[trigger] s[i].to_set() == x;
            assert(s.push(d)[i].to_set() == x);
        }
        assert(s.push(d)[s.len() as int] == d);
    }
    assert(seq_cset(s.push(d)) =~= seq_cset(s).insert(d.to_set()));
}

/// In canonical shape, distinct clauses of one conjunction name distinct
/// sets of principals.
pub proof fn lemma_clause_sets_distinct(s: Seq<Seq<Seq<char>>>)
    requires
        sorted_clauses(s),
        clauses_wf(s),
    ensures
        forall|i: int, j: int| #![trigger s[i], s[j]]
            0 <= i < s.len() && 0 <= j < s.len() && i != j ==> s[i].to_set() != s[j].to_set(),
{
    assert forall|i: int, j: int| #![trigger s[i], s[j]]
        0 <= i < s.len() && 0 <= j < s.len() && i != j
        implies s[i].to_set() != s[j].to_set() by {
        if s[i].to_set() == s[j].to_set() {
            crate::order::lemma_sorted_names_unique(s[i], s[j]);
            if i < j {
                assert(clause_lt(s[i], s[j]));
                crate::order::lemma_clause_lt_asym(s[i], s[j]);
            } else {
                assert(clause_lt(s[j], s[i]));
                crate::order::lemma_clause_lt_asym(s[j], s[i]);
            }
        }
    }
}

impl Conjunction {
    /// Whether some clause of the conjunction implies the given clause.
    fn implied_by_some(&self, d: &Disjunction) -> (r: bool)
        ensures
            r == exists|l: int| #![trigger self@[l]]
                0 <= l < self@.len() && self@[l].to_set().subset_of(d.pset()),
    {
        let mut j: usize = 0;
        while j < self.0.len()
            invariant
                j <= self.0.len(),
                forall|l: int| 0 <= l < j ==> !(#[trigger] self@[l]).to_set().subset_of(
                    d.pset()),
            decreases self.0.len() - j,
        {
            proof {
                assert(self.0@[j as int]@ == self@[j as int]);
            }
            if self.0[j].implies(d) {
                return true;
            }
            j += 1;
        }
        false
    }

    /// Whether this conjunction implies another.
    ///
    /// True exactly when every clause of `rhs` is implied by some clause of
    /// `self`: the satisfying assignments of `self` are then a subset of
    /// those of `rhs`. The true (empty) conjunction is implied by every
    /// conjunction, and implies only conjunctions that are logically true.
    pub fn implies(&self, rhs: &Self) -> (r: bool)
        ensures
            r == super::formula::formula_implies(self.cset(), rhs.cset()),
    {
        let mut i: usize = 0;
        while i < rhs.0.len()
            invariant
                i <= rhs.0.len(),
                forall|k: int| #![trigger rhs@[k]] 0 <= k < i ==> exists|l: int|
                    #![trigger self@[l]]
                    0 <= l < self@.len() && self@[l].to_set().subset_of(rhs@[k].to_set()),
            decreases rhs.0.len() - i,
        {
            proof {
                assert(rhs.0@[i as int]@ == rhs@[i as int]);
            }
            if !self.implied_by_some(&rhs.0[i]) {
                proof {
                    let w = rhs@[i as int].to_set();
                    assert(rhs.cset().contains(w));
                    assert forall|s: ClauseSet| self.cset().contains(s)
                        implies !s.subset_of(w) by {
                        let l = choose|l: int| 0 <= l < self@.len() && #[trigger]
                            self@[l].to_set() == s;
                    }
                }
                return false;
            }
            i += 1;
        }
        proof {
            assert forall|r0: ClauseSet| rhs.cset().contains(r0)
                implies exists|s: ClauseSet| #[trigger]
                    self.cset().contains(s) && s.subset_of(r0) by {
                let k = choose|k: int| 0 <= k < rhs@.len() && #[trigger] rhs@[k].to_set() == r0;
                let l = choose|l: int|
                    0 <= l < self@.len() && #[trigger] self@[l].to_set().subset_of(
                        rhs@[k].to_set());
                assert(self.cset().contains(self@[l].to_set()));
            }
        }
        true
    }

    /// The conjunction holding the one given clause.
    pub fn from_disjunction(d: Disjunction) -> (r: Self)
        requires
            d.wf(),
        ensures
            r.is_lnf(),
            r.cset() == Set::<ClauseSet>::empty().insert(d.pset()),
    {
        let ghost dv = d@;
        let mut v: Vec<Disjunction> = Vec::new();
        v.push(d);
        proof {
            let nv = v.deep_view();
            assert(nv.len() == 1 && nv[0] == dv);
            assert(seq_cset(nv) =~= Set::<ClauseSet>::empty().insert(dv.to_set()));
        }
        Conjunction(v)
    }

    /// The conjunction standing for a truth value: true is the empty
    /// conjunction, false the one holding the empty clause.
    pub fn from_bool(b: bool) -> (r: Self)
        ensures
            r.is_lnf(),
            b ==> r.cset() == Set::<ClauseSet>::empty(),
            !b ==> r.cset() == Set::<ClauseSet>::empty().insert(Set::<Seq<char>>::empty()),
    {
        if b {
            Conjunction::mk_true()
        } else {
            Conjunction::mk_false()
        }
    }

    /// The conjunction restricting to one principal: a single singleton
    /// clause.
    pub fn from_principal(p: &str) -> (r: Self)
        ensures
            r.is_lnf(),
            r.cset() == Set::<ClauseSet>::empty().insert(
                Set::<Seq<char>>::empty().insert(p@)),
    {
        let d = Disjunction::mk_false().add(p);
        proof {
            assert(d.pset() == Set::<Seq<char>>::empty().insert(p@));
        }
        Conjunction::from_disjunction(d)
    }
}

impl Clone for Conjunction {
    /// An independent copy of the conjunction, over the same clauses.
    fn clone(&self) -> (res: Self)
        ensures
            res@ == self@,
    {
        let mut v: Vec<Disjunction> = Vec::new();
        let mut k: usize = 0;
        while k < self.0.len()
            invariant
                k <= self.0.len(),
                v@.len() == k,
                forall|t: int| 0 <= t < k ==> (#[trigger] v@[t])@ == self@[t],
            decreases self.0.len() - k,
        {
            let ghost pvs = v@;
            v.push(self.0[k].clone());
            proof {
                assert forall|t: int| 0 <= t < k + 1 implies (#[trigger] v@[t])@ == self@[t] by {
                    if t < k {
                        assert(v@[t] == pvs[t]);
                    } else {
                        assert(self.0@[k as int]@ == self@[k as int]);
                    }
                }
            }
            k += 1;
        }
        proof {
            assert(v.deep_view() =~= self@) by {
                assert forall|t: int| 0 <= t < v@.len()
                    implies v.deep_view()[t] == self@[t] by {
                    assert(v.deep_view()[t] == v@[t]@);
                }
            }
        }
        Conjunction(v)
    }
}

impl PartialEq for Conjunction {
    fn eq(&self, other: &Self) -> (r: bool) {
        if self.0.len() != other.0.len() {
            proof {
                assert(self@.len() != other@.len());
            }
            return false;
        }
        let mut i: usize = 0;
        while i < self.0.len()
            invariant
                i <= self.0.len(),
                self.0.len() == other.0.len(),
                forall|k: int| 0 <= k < i ==> self@[k] == other@[k],
            decreases self.0.len() - i,
        {
            if !(self.0[i] == other.0[i]) {
                proof {
                    assert(self.0@[i as int]@ != other.0@[i as int]@);
                    assert(self@[i as int] != other@[i as int]);
                }
                return false;
            }
            proof {
                assert(self@[i as int] == other@[i as int]);
            }
            i += 1;
        }
        proof {
            assert(self@ =~= other@);
        }
        true
    }
}

impl Eq for Conjunction {

}

impl vstd::std_specs::cmp::PartialEqSpecImpl for Conjunction {
    open spec fn obeys_eq_spec() -> bool {
        true
    }

    open spec fn eq_spec(&self, other: &Self) -> bool {
        self@ == other@
    }
}

/// Two well-formed conjunctions over the same clause sets are equal.
pub proof fn lemma_conjunction_canonical(c1: Conjunction, c2: Conjunction)
    requires
        c1.wf(),
        c2.wf(),
        c1.cset() == c2.cset(),
    ensures
        c1@ == c2@,
{
    assert(c1@.to_set() =~= c2@.to_set()) by {
        assert forall|e: Seq<Seq<char>>| c1@.to_set().contains(e)
            implies c2@.to_set().contains(e) by {
            let i = choose|i: int| 0 <= i < c1@.len() && c1@[i] == e;
            assert(c1.cset().contains(c1@[i].to_set()));
            let j = choose|j: int| 0 <= j < c2@.len() && #[trigger] c2@[j].to_set()
                == c1@[i].to_set();
            crate::order::lemma_sorted_names_unique(c1@[i], c2@[j]);
            assert(c2@.contains(e));
        }
        assert forall|e: Seq<Seq<char>>| c2@.to_set().contains(e)
            implies c1@.to_set().contains(e) by {
            let i = choose|i: int| 0 <= i < c2@.len() && c2@[i] == e;
            assert(c2.cset().contains(c2@[i].to_set()));
            let j = choose|j: int| 0 <= j < c1@.len() && #[trigger] c1@[j].to_set()
                == c2@[i].to_set();
            crate::order::lemma_sorted_names_unique(c2@[i], c1@[j]);
            assert(c1@.contains(e));
        }
    }
    crate::order::lemma_sorted_clauses_unique(c1@, c2@);
}



/// A set of pairwise unions that covers every pair is exactly the cross.
proof fn lemma_cover_is_cross(sv: Seq<Seq<Seq<char>>>, rv: Seq<Seq<Seq<char>>>, dset: FormulaSet)
    requires
        dset.subset_of(super::formula::cross(seq_cset(sv), seq_cset(rv))),
        forall|k: int, l: int| #![trigger sv[k], rv[l]]
            0 <= k < sv.len() && 0 <= l < rv.len() ==> dset.contains(sv[k].to_set().union(
                rv[l].to_set())),
    ensures
        dset == super::formula::cross(seq_cset(sv), seq_cset(rv)),
{
    let a = seq_cset(sv);
    let b = seq_cset(rv);
    let c0 = super::formula::cross(a, b);
    assert forall|c: ClauseSet| c0.contains(c) implies dset.contains(c) by {
        let (x, y): (ClauseSet, ClauseSet) = choose|x: ClauseSet, y: ClauseSet|
            #![trigger a.contains(x), b.contains(y)]
            a.contains(x) && b.contains(y) && c == x.union(y);
        let k = choose|k: int| 0 <= k < sv.len() && #[trigger] sv[k].to_set() == x;
        let l = choose|l: int| 0 <= l < rv.len() && #[trigger] rv[l].to_set() == y;
        assert(dset.contains(sv[k].to_set().union(rv[l].to_set())));
    }
    assert(dset =~= c0);
}

impl Conjunction {
    /// The conjunction of two conjunctions: all clauses of both, reduced to
    /// logical normal form.
    #[verifier::loop_isolation(false)]
    pub fn and(self, rhs: Self) -> (r: Self)
        requires
            self.is_lnf(),
            rhs.is_lnf(),
        ensures
            r.is_lnf(),
            r.cset() == reduce(self.cset().union(rhs.cset())),
    {
        let ghost a0 = self.cset();
        proof {
            lemma_seq_cset_fin(self@);
        }
        let ghost rseq = rhs@;
        let mut acc = self;
        let mut j: usize = 0;
        while j < rhs.0.len()
            invariant
                j <= rhs.0.len(),
                acc.is_lnf(),
                acc.cset() == reduce(a0.union(seq_cset(rseq.take(j as int)))),
            decreases rhs.0.len() - j,
        {
            let ghost before = acc.cset();
            proof {
                assert(rhs.0@[j as int]@ == rseq[j as int]);
            }
            let d = rhs.0[j].clone();
            acc = acc.add(d);
            proof {
                let pj = seq_cset(rseq.take(j as int));
                let cj = rseq[j as int].to_set();
                assert(rseq.take(j + 1) =~= rseq.take(j as int).push(rseq[j as int]));
                lemma_seq_cset_push(rseq.take(j as int), rseq[j as int]);
                lemma_seq_cset_fin(rseq.take(j as int));
                assert(formula_fin(a0.union(pj))) by {
                    vstd::set_lib::lemma_set_union_finite_iff(a0, pj);
                    assert forall|c: ClauseSet| a0.union(pj).contains(c)
                        implies c.finite() by {}
                }
                lemma_reduce_union(a0.union(pj), Set::<ClauseSet>::empty().insert(cj));
                assert(before.insert(cj) =~= reduce(a0.union(pj)).union(
                    Set::<ClauseSet>::empty().insert(cj)));
                assert(a0.union(pj).union(Set::<ClauseSet>::empty().insert(cj)) =~= a0.union(
                    seq_cset(rseq.take(j + 1))));
            }
            j += 1;
        }
        proof {
            assert(rseq.take(rseq.len() as int) =~= rseq);
        }
        acc
    }

    /// The disjunction of two conjunctions: the clauses are the pairwise
    /// unions, reduced to logical normal form. When either operand is true
    /// (empty), so is the result.
    #[verifier::loop_isolation(false)]
    #[verifier::rlimit(60)]
    pub fn or(&self, rhs: &Self) -> (r: Self)
        requires
            self.is_lnf(),
            rhs.is_lnf(),
        ensures
            r.is_lnf(),
            r.cset() == reduce(super::formula::cross(self.cset(), rhs.cset())),
    {
        let ghost sv = self@;
        let ghost rv = rhs@;
        let ghost target = super::formula::cross(self.cset(), rhs.cset());
        let mut acc = Conjunction::mk_true();
        let ghost mut dset: FormulaSet = Set::empty();
        proof {
            assert(reduce(dset) =~= dset);
        }
        let mut i: usize = 0;
        while i < self.0.len()
            invariant
                i <= self.0.len(),
                acc.is_lnf(),
                acc.cset() == reduce(dset),
                formula_fin(dset),
                dset.subset_of(target),
                forall|k: int, l: int| #![trigger sv[k], rv[l]]
                    0 <= k < i && 0 <= l < rv.len() ==> dset.contains(sv[k].to_set().union(
                        rv[l].to_set())),
            decreases self.0.len() - i,
        {
            let mut j: usize = 0;
            while j < rhs.0.len()
                invariant
                    j <= rhs.0.len(),
                    i < self.0.len(),
                    acc.is_lnf(),
                    acc.cset() == reduce(dset),
                    formula_fin(dset),
                    dset.subset_of(target),
                    forall|k: int, l: int| #![trigger sv[k], rv[l]]
                        0 <= k < i && 0 <= l < rv.len() ==> dset.contains(sv[k].to_set().union(
                            rv[l].to_set())),
                    forall|l: int| 0 <= l < j ==> dset.contains(sv[i as int].to_set().union(
                        (#[trigger] rv[l]).to_set())),
                decreases rhs.0.len() - j,
            {
                let ghost before = acc.cset();
                proof {
                    assert(self.0@[i as int]@ == sv[i as int]);
                    assert(rhs.0@[j as int]@ == rv[j as int]);
                }
                let u = self.0[i].or(&rhs.0[j]);
                let ghost ups = u.pset();
                acc = acc.add(u);
                proof {
                    assert(ups == sv[i as int].to_set().union(rv[j as int].to_set()));
                    assert(target.contains(ups)) by {
                        assert(self.cset().contains(sv[i as int].to_set()));
                        assert(rhs.cset().contains(rv[j as int].to_set()));
                    }
                    lemma_reduce_union(dset, Set::<ClauseSet>::empty().insert(ups));
                    assert(before.insert(ups) =~= reduce(dset).union(
                        Set::<ClauseSet>::empty().insert(ups)));
                    assert(dset.union(Set::<ClauseSet>::empty().insert(ups)) =~= dset.insert(
                        ups));
                    dset = dset.insert(ups);
                    assert(formula_fin(dset)) by {
                        vstd::set_lib::lemma_set_union_finite_iff(sv[i as int].to_set(),
                            rv[j as int].to_set());
                    }
                }
                j += 1;
            }
            i += 1;
        }
        proof {
            lemma_cover_is_cross(sv, rv, dset);
        }
        acc
    }


    /// AND a single principal into the conjunction: conjoin the singleton
    /// clause naming it.
    pub fn and_principal(self, p: &str) -> (r: Self)
        requires
            self.is_lnf(),
        ensures
            r.is_lnf(),
            r.cset() == reduce(self.cset().union(
                Set::<ClauseSet>::empty().insert(Set::<Seq<char>>::empty().insert(p@)))),
    {
        self.and(Conjunction::from_principal(p))
    }

    /// OR a single principal into the conjunction: every clause gains that
    /// principal.
    pub fn or_principal(self, p: &str) -> (r: Self)
        requires
            self.is_lnf(),
        ensures
            r.is_lnf(),
            r.cset() == reduce(super::formula::cross(self.cset(),
                Set::<ClauseSet>::empty().insert(Set::<Seq<char>>::empty().insert(p@)))),
    {
        let other = Conjunction::from_principal(p);
        self.or(&other)
    }

    /// Canonicalize to logical normal form: drop every clause implied by
    /// another clause of the conjunction. Idempotent: a conjunction already
    /// in logical normal form is left as it is.
    #[verifier::loop_isolation(false)]
    pub fn to_lnf(&mut self)
        requires
            old(self).wf(),
        ensures
            final(self).is_lnf(),
            final(self).cset() == reduce(old(self).cset()),
    {
        let ghost sv = self@;
        let ghost s0 = seq_cset(sv);
        proof {
            lemma_seq_cset_fin(sv);
            lemma_clause_sets_distinct(sv);
        }
        let mut v: Vec<Disjunction> = Vec::new();
        let ghost mut idx: Seq<int> = Seq::empty();
        let mut i: usize = 0;
        while i < self.0.len()
            invariant
                i <= self.0.len(),
                self@ == sv,
                idx.len() == v@.len(),
                forall|a: int| 0 <= a < idx.len() ==> 0 <= #[trigger] idx[a] < i
                    && v@[a]@ == sv[idx[a]]
                    && !(exists|j2: int| #![trigger sv[j2]]
                        0 <= j2 < sv.len() && j2 != idx[a] && sv[j2].to_set().subset_of(
                            sv[idx[a]].to_set())),
                forall|a: int, b: int| #![trigger idx[a], idx[b]]
                    0 <= a < b < idx.len() ==> idx[a] < idx[b],
                forall|k: int| #![trigger sv[k]]
                    0 <= k < i && !(exists|j2: int| #![trigger sv[j2]]
                        0 <= j2 < sv.len() && j2 != k && sv[j2].to_set().subset_of(
                            sv[k].to_set()))
                    ==> v.deep_view().contains(sv[k]),
            decreases self.0.len() - i,
        {
            proof {
                assert(self.0@[i as int]@ == sv[i as int]);
            }
            let mut dropped = false;
            let mut j: usize = 0;
            while j < self.0.len()
                invariant
                    j <= self.0.len(),
                    i < self.0.len(),
                    self@ == sv,
                    dropped ==> exists|j2: int| #![trigger sv[j2]]
                        0 <= j2 < sv.len() && j2 != i && sv[j2].to_set().subset_of(
                            sv[i as int].to_set()),
                    !dropped ==> forall|j2: int| #![trigger sv[j2]]
                        0 <= j2 < j && j2 != i ==> !sv[j2].to_set().subset_of(
                            sv[i as int].to_set()),
                decreases self.0.len() - j,
            {
                if j != i {
                    proof {
                        assert(self.0@[j as int]@ == sv[j as int]);
                    }
                    if self.0[j].implies(&self.0[i]) {
                        dropped = true;
                    }
                }
                j += 1;
            }
            if !dropped {
                let ghost pvs = v@;
                let ghost pdv = v.deep_view();
                let c = self.0[i].clone();
                v.push(c);
                proof {
                    idx = idx.push(i as int);
                    assert forall|a: int| 0 <= a < idx.len() implies 0 <= #[trigger] idx[a] < i + 1
                        && v@[a]@ == sv[idx[a]]
                        && !(exists|j2: int| #![trigger sv[j2]]
                            0 <= j2 < sv.len() && j2 != idx[a] && sv[j2].to_set().subset_of(
                                sv[idx[a]].to_set())) by {
                        if a < idx.len() - 1 {
                            assert(v@[a] == pvs[a]);
                        } else {
                            assert(v@[a]@ == sv[i as int]);
                        }
                    }
                    assert forall|k: int| #![trigger sv[k]]
                        0 <= k < i + 1 && !(exists|j2: int| #![trigger sv[j2]]
                            0 <= j2 < sv.len() && j2 != k && sv[j2].to_set().subset_of(
                                sv[k].to_set()))
                        implies v.deep_view().contains(sv[k]) by {
                        if k < i {
                            assert(pdv.contains(sv[k]));
                            let a = choose|a: int| 0 <= a < pdv.len() && pdv[a] == sv[k];
                            assert(pdv[a] == pvs[a]@);
                            assert(v.deep_view()[a] == v@[a]@);
                            assert(v.deep_view()[a] == sv[k]);
                        } else {
                            let last = v.deep_view().len() - 1;
                            assert(v.deep_view()[last] == v@[last]@);
                            assert(v.deep_view()[last] == sv[i as int]);
                        }
                    }
                }
            } else {
                proof {
                    assert forall|k: int| #![trigger sv[k]]
                        0 <= k < i + 1 && !(exists|j2: int| #![trigger sv[j2]]
                            0 <= j2 < sv.len() && j2 != k && sv[j2].to_set().subset_of(
                                sv[k].to_set()))
                        implies v.deep_view().contains(sv[k]) by {}
                }
            }
            i += 1;
        }
        self.0 = v;
        proof {
            let nv = self@;
            assert forall|a: int| 0 <= a < nv.len() implies nv[a] == sv[idx[a]] by {
                assert(nv[a] == self.0@[a]@);
            }
            assert forall|a: int, b: int| 0 <= a < b < nv.len()
                implies clause_lt(nv[a], nv[b]) by {
                assert(idx[a] < idx[b]);
                assert(clause_lt(sv[idx[a]], sv[idx[b]]));
            }
            assert forall|a: int| 0 <= a < nv.len() implies sorted_names(nv[a]) by {
                assert(sorted_names(sv[idx[a]]));
            }
            assert(self.cset() =~= reduce(s0)) by {
                assert forall|x: ClauseSet| self.cset().contains(x)
                    implies reduce(s0).contains(x) by {
                    let a = choose|a: int| 0 <= a < nv.len() && #[trigger] nv[a].to_set() == x;
                    let k = idx[a];
                    assert(nv[a] == sv[k]);
                    assert(s0.contains(x)) by {
                        assert(sv[k].to_set() == x);
                    }
                    assert forall|d: ClauseSet| s0.contains(d) && d != x
                        implies !d.subset_of(x) by {
                        let j2 = choose|j2: int|
                            0 <= j2 < sv.len() && #[trigger] sv[j2].to_set() == d;
                        assert(j2 != k);
                    }
                }
                assert forall|x: ClauseSet| reduce(s0).contains(x)
                    implies self.cset().contains(x) by {
                    let k = choose|k: int| 0 <= k < sv.len() && #[trigger] sv[k].to_set() == x;
                    assert(!(exists|j2: int| #![trigger sv[j2]]
                        0 <= j2 < sv.len() && j2 != k && sv[j2].to_set().subset_of(
                            sv[k].to_set()))) by {
                        if exists|j2: int| #![trigger sv[j2]]
                            0 <= j2 < sv.len() && j2 != k && sv[j2].to_set().subset_of(
                                sv[k].to_set()) {
                            let j2 = choose|j2: int| #![trigger sv[j2]]
                                0 <= j2 < sv.len() && j2 != k && sv[j2].to_set().subset_of(
                                    sv[k].to_set());
                            assert(s0.contains(sv[j2].to_set()));
                            assert(sv[j2].to_set() != x);
                        }
                    }
                    assert(nv.contains(sv[k]));
                    let a = choose|a: int| 0 <= a < nv.len() && nv[a] == sv[k];
                    assert(nv[a].to_set() == x);
                }
            }
            assert(is_antichain(self.cset())) by {
                lemma_reduce_ensures(s0);
            }
        }
    }
}


/// The clause debug forms from position `i` on, each preceded by the AND
/// separator.
pub open spec fn clauses_rest(s: Seq<Seq<Seq<char>>>, i: int) -> Seq<char>
    decreases s.len() - i,
{
    if i < 0 || i >= s.len() {
        Seq::empty()
    } else {
        seq![' ', '/', '\\', ' '] + crate::order::debug_names_spec(s[i]) + clauses_rest(
            s,
            i + 1,
        )
    }
}

/// The debug form of a conjunction: the clause debug forms joined by the
/// AND sign; the true conjunction prints as the word True.
pub open spec fn conj_debug_spec(s: Seq<Seq<Seq<char>>>) -> Seq<char> {
    if s.len() == 0 {
        seq!['T', 'r', 'u', 'e']
    } else {
        crate::order::debug_names_spec(s[0]) + clauses_rest(s, 1)
    }
}

impl Conjunction {
    /// The debug form: clauses joined by the AND sign; the true conjunction
    /// prints as the word True.
    pub fn debug_string(&self) -> (r: String)
        ensures
            r@ == conj_debug_spec(self@),
    {
        if self.0.len() == 0 {
            let out = String::from_str("True");
            proof {
                reveal_strlit("True");
                assert(out@ =~= seq!['T', 'r', 'u', 'e']);
            }
            return out;
        }
        let ghost sv = self@;
        let mut out = self.0[0].debug_string();
        proof {
            assert(self.0@[0]@ == sv[0]);
        }
        let mut i: usize = 1;
        while i < self.0.len()
            invariant
                1 <= i <= self.0.len(),
                self@ == sv,
                sv.len() > 0,
                crate::order::debug_names_spec(sv[0]) + clauses_rest(sv, 1) == out@
                    + clauses_rest(sv, i as int),
            decreases self.0.len() - i,
        {
            proof {
                reveal_strlit(" /\\ ");
                assert(" /\\ "@ =~= seq![' ', '/', '\\', ' ']);
                assert(self.0@[i as int]@ == sv[i as int]);
            }
            let ghost before = out@;
            out.append(" /\\ ");
            let part = self.0[i].debug_string();
            out.append(part.as_str());
            proof {
                assert(out@ =~= before + seq![' ', '/', '\\', ' ']
                    + crate::order::debug_names_spec(sv[i as int]));
                assert(clauses_rest(sv, i as int) == seq![' ', '/', '\\', ' ']
                    + crate::order::debug_names_spec(sv[i as int]) + clauses_rest(sv, i + 1));
                assert(before + (seq![' ', '/', '\\', ' ']
                    + crate::order::debug_names_spec(sv[i as int]) + clauses_rest(sv, i + 1))
                    =~= (before + seq![' ', '/', '\\', ' ']
                    + crate::order::debug_names_spec(sv[i as int])) + clauses_rest(sv, i + 1));
            }
            i += 1;
        }
        proof {
            assert(clauses_rest(sv, i as int) =~= Seq::<char>::empty());
            assert(out@ + Seq::<char>::empty() =~= out@);
        }
        out
    }
}

} // verus!
