//! The mathematical model of conjunctions of disjunctions: sets of clauses,
//! clause-set implication, and reduction to the logical normal form, with the
//! facts the lattice laws rest on.
use vstd::prelude::*;
use vstd::set_lib::lemma_len_subset;

verus! {

/// A clause, as the set of the principals it names.
pub type ClauseSet = Set<Seq<char>>;

/// A formula, as the set of its clauses: their conjunction.
pub type FormulaSet = Set<Set<Seq<char>>>;

/// Every clause of `b` is implied by some clause of `a`: the conjunction `a`
/// implies the conjunction `b`.
pub open spec fn formula_implies(a: FormulaSet, b: FormulaSet) -> bool {
    forall|r: ClauseSet| #[trigger]
        b.contains(r) ==> exists|s: ClauseSet| #[trigger] a.contains(s) && s.subset_of(r)
}

/// The clauses of `f` that no other clause of `f` implies: dropping the rest
/// keeps the formula logically the same.
pub open spec fn reduce(f: FormulaSet) -> FormulaSet {
    Set::new(
        |c: ClauseSet|
            f.contains(c) && !(exists|d: ClauseSet| #[trigger]
                f.contains(d) && d != c && d.subset_of(c)),
    )
}

/// No clause of the formula implies another: the shape of a formula in
/// logical normal form.
pub open spec fn is_antichain(f: FormulaSet) -> bool {
    forall|c: ClauseSet, d: ClauseSet|
        #[trigger] f.contains(c) && #[trigger] f.contains(d) && c != d ==> !c.subset_of(d)
}

/// The pairwise unions of clauses of `a` and of `b`: the clauses of the OR of
/// two conjunctions. When either operand is true (empty), so is the result.
pub open spec fn cross(a: FormulaSet, b: FormulaSet) -> FormulaSet {
    Set::new(
        |c: ClauseSet|
            exists|x: ClauseSet, y: ClauseSet|
                #![trigger a.contains(x), b.contains(y)]
                a.contains(x) && b.contains(y) && c == x.union(y),
    )
}

/// The formula and each of its clauses are finite.
pub open spec fn formula_fin(f: FormulaSet) -> bool {
    f.finite() && forall|c: ClauseSet| #[trigger] f.contains(c) ==> c.finite()
}

/// An assignment is the set of principals taken to be true; it satisfies a
/// clause naming one of them, and a formula all of whose clauses it satisfies.
pub open spec fn sat(f: FormulaSet, asg: Set<Seq<char>>) -> bool {
    forall|c: ClauseSet| #[trigger]
        f.contains(c) ==> exists|p: Seq<char>| #[trigger] c.contains(p) && asg.contains(p)
}

pub proof fn lemma_formula_implies_refl(a: FormulaSet)
    ensures
        formula_implies(a, a),
{
    assert forall|r: ClauseSet| a.contains(r)
        implies exists|s: ClauseSet| #[trigger] a.contains(s) && s.subset_of(r) by {
        assert(a.contains(r) && r.subset_of(r));
    }
}

pub proof fn lemma_formula_implies_trans(a: FormulaSet, b: FormulaSet, c: FormulaSet)
    requires
        formula_implies(a, b),
        formula_implies(b, c),
    ensures
        formula_implies(a, c),
{
    assert forall|r: ClauseSet| c.contains(r)
        implies exists|s: ClauseSet| #[trigger] a.contains(s) && s.subset_of(r) by {
        let s2 = choose|s2: ClauseSet| #[trigger] b.contains(s2) && s2.subset_of(r);
        let s1 = choose|s1: ClauseSet| #[trigger] a.contains(s1) && s1.subset_of(s2);
        assert(a.contains(s1) && s1.subset_of(r));
    }
}

/// Below every clause of a finite formula stands a clause that survives
/// reduction.
pub proof fn lemma_minimal_below(f: FormulaSet, c: ClauseSet) -> (m: ClauseSet)
    requires
        formula_fin(f),
        f.contains(c),
    ensures
        reduce(f).contains(m),
        m.subset_of(c),
    decreases c.len(),
{
    if exists|d: ClauseSet| #[trigger] f.contains(d) && d != c && d.subset_of(c) {
        let d = choose|d: ClauseSet| #[trigger] f.contains(d) && d != c && d.subset_of(c);
        assert(exists|q: Seq<char>| #[trigger] c.contains(q) && !d.contains(q)) by {
            if !(exists|q: Seq<char>| #[trigger] c.contains(q) && !d.contains(q)) {
                assert(c =~= d);
            }
        }
        let p = choose|q: Seq<char>| #[trigger] c.contains(q) && !d.contains(q);
        assert(d.subset_of(c.remove(p)));
        lemma_len_subset(d, c.remove(p));
        assert(c.remove(p).len() < c.len()) by {
            assert(c.remove(p).len() == c.len() - 1);
        }
        let m = lemma_minimal_below(f, d);
        assert(m.subset_of(c));
        m
    } else {
        assert(reduce(f).contains(c));
        c
    }
}

/// Reduction keeps an antichain as it is; in particular it is idempotent.
pub proof fn lemma_reduce_eq_antichain(a: FormulaSet, s: FormulaSet)
    requires
        is_antichain(a),
        a.subset_of(s),
        forall|c: ClauseSet| #[trigger]
            s.contains(c) ==> exists|x: ClauseSet| #[trigger] a.contains(x) && x.subset_of(c),
    ensures
        reduce(s) == a,
{
    assert forall|c: ClauseSet| reduce(s).contains(c) <==> a.contains(c) by {
        if a.contains(c) {
            assert(s.contains(c));
            if exists|d: ClauseSet| #[trigger] s.contains(d) && d != c && d.subset_of(c) {
                let d = choose|d: ClauseSet| #[trigger] s.contains(d) && d != c && d.subset_of(c);
                let x = choose|x: ClauseSet| #[trigger] a.contains(x) && x.subset_of(d);
                assert(x.subset_of(c));
                assert(x == c);
                assert(c =~= d);
            }
            assert(reduce(s).contains(c));
        }
        if reduce(s).contains(c) {
            let x = choose|x: ClauseSet| #[trigger] a.contains(x) && x.subset_of(c);
            assert(s.contains(x));
            if x != c {
                assert(s.contains(x) && x != c && x.subset_of(c));
                assert(!reduce(s).contains(c));
            }
            assert(a.contains(c));
        }
    }
    assert(reduce(s) =~= a);
}

/// What reduction returns is an antichain, a subset of the formula, and
/// logically the same formula: it implies and is implied by it.
pub proof fn lemma_reduce_ensures(f: FormulaSet)
    requires
        formula_fin(f),
    ensures
        is_antichain(reduce(f)),
        reduce(f).subset_of(f),
        formula_implies(f, reduce(f)),
        formula_implies(reduce(f), f),
        formula_fin(reduce(f)),
{
    assert(reduce(f).subset_of(f)) by {
        assert forall|c: ClauseSet| reduce(f).contains(c) implies f.contains(c) by {}
    }
    assert(is_antichain(reduce(f))) by {
        assert forall|c: ClauseSet, d: ClauseSet|
            reduce(f).contains(c) && reduce(f).contains(d) && c != d
            implies !c.subset_of(d) by {
            if c.subset_of(d) {
                assert(f.contains(c) && c != d && c.subset_of(d));
            }
        }
    }
    assert(formula_implies(f, reduce(f))) by {
        assert forall|r: ClauseSet| reduce(f).contains(r)
            implies exists|s: ClauseSet| #[trigger] f.contains(s) && s.subset_of(r) by {
            assert(f.contains(r) && r.subset_of(r));
        }
    }
    assert(formula_implies(reduce(f), f)) by {
        assert forall|r: ClauseSet| f.contains(r)
            implies exists|s: ClauseSet| #[trigger] reduce(f).contains(s) && s.subset_of(r) by {
            let m = lemma_minimal_below(f, r);
        }
    }
    assert(formula_fin(reduce(f))) by {
        lemma_len_subset(reduce(f), f);
    }
}

/// Two antichains that imply each other are the same set of clauses: the
/// logical normal form of a formula is unique.
pub proof fn lemma_antichain_implies_unique(a: FormulaSet, b: FormulaSet)
    requires
        is_antichain(a),
        is_antichain(b),
        formula_implies(a, b),
        formula_implies(b, a),
    ensures
        a == b,
{
    assert forall|c: ClauseSet| a.contains(c) implies b.contains(c) by {
        let r = choose|r: ClauseSet| #[trigger] b.contains(r) && r.subset_of(c);
        let s = choose|s: ClauseSet| #[trigger] a.contains(s) && s.subset_of(r);
        assert(s.subset_of(c));
        assert(s == c);
        assert(c.subset_of(r) && r.subset_of(c));
        assert(c =~= r);
    }
    assert forall|c: ClauseSet| b.contains(c) implies a.contains(c) by {
        let r = choose|r: ClauseSet| #[trigger] a.contains(r) && r.subset_of(c);
        let s = choose|s: ClauseSet| #[trigger] b.contains(s) && s.subset_of(r);
        assert(s.subset_of(c));
        assert(s == c);
        assert(c =~= r);
    }
    assert(a =~= b);
}

/// Syntactic implication is complete: a formula that semantically entails
/// another also implies it clause by clause.
pub proof fn lemma_implies_complete(a: FormulaSet, b: FormulaSet)
    requires
        forall|asg: Set<Seq<char>>| sat(a, asg) ==> #[trigger] sat(b, asg),
    ensures
        formula_implies(a, b),
{
    assert forall|r: ClauseSet| b.contains(r)
        implies exists|s: ClauseSet| #[trigger] a.contains(s) && s.subset_of(r) by {
        let asg = Set::new(|p: Seq<char>| !r.contains(p));
        assert(!sat(b, asg)) by {
            if sat(b, asg) {
                let p = choose|p: Seq<char>| #[trigger] r.contains(p) && asg.contains(p);
            }
        }
        assert(!sat(a, asg));
        let s = choose|s: ClauseSet| #[trigger] a.contains(s) && !(exists|p: Seq<char>| #[trigger]
            s.contains(p) && asg.contains(p));
        assert(s.subset_of(r)) by {
            assert forall|p: Seq<char>| s.contains(p) implies r.contains(p) by {
                if !r.contains(p) {
                    assert(s.contains(p) && asg.contains(p));
                }
            }
        }
    }
}

/// Reducing before a union changes nothing: the dropped clauses were implied
/// by kept ones.
pub proof fn lemma_reduce_union(x: FormulaSet, y: FormulaSet)
    requires
        formula_fin(x),
    ensures
        reduce(reduce(x).union(y)) == reduce(x.union(y)),
{
    let s1 = reduce(x).union(y);
    let s2 = x.union(y);
    assert forall|c: ClauseSet| reduce(s2).contains(c) implies reduce(s1).contains(c) by {
        if x.contains(c) {
            assert(reduce(x).contains(c)) by {
                if exists|d: ClauseSet| #[trigger] x.contains(d) && d != c && d.subset_of(c) {
                    let d = choose|d: ClauseSet| #[trigger] x.contains(d) && d != c
                        && d.subset_of(c);
                    assert(s2.contains(d));
                }
            }
        }
        assert(s1.contains(c));
        if exists|d: ClauseSet| #[trigger] s1.contains(d) && d != c && d.subset_of(c) {
            let d = choose|d: ClauseSet| #[trigger] s1.contains(d) && d != c && d.subset_of(c);
            assert(s2.contains(d));
        }
    }
    assert forall|c: ClauseSet| reduce(s1).contains(c) implies reduce(s2).contains(c) by {
        assert(s2.contains(c));
        if exists|d: ClauseSet| #[trigger] s2.contains(d) && d != c && d.subset_of(c) {
            let d = choose|d: ClauseSet| #[trigger] s2.contains(d) && d != c && d.subset_of(c);
            if y.contains(d) {
                assert(s1.contains(d));
            } else {
                let m = lemma_minimal_below(x, d);
                assert(s1.contains(m));
                assert(m.subset_of(c));
                if m == c {
                    assert(c.subset_of(d) && d.subset_of(c));
                    assert(c =~= d);
                }
                assert(s1.contains(m) && m != c && m.subset_of(c));
            }
        }
    }
    assert(reduce(s1) =~= reduce(s2));
}

/// Crossing is commutative.
pub proof fn lemma_cross_comm(a: FormulaSet, b: FormulaSet)
    ensures
        cross(a, b) == cross(b, a),
{
    assert forall|c: ClauseSet| cross(a, b).contains(c) implies cross(b, a).contains(c) by {
        let (x, y): (ClauseSet, ClauseSet) = choose|x: ClauseSet, y: ClauseSet|
            #![trigger a.contains(x), b.contains(y)]
            a.contains(x) && b.contains(y) && c == x.union(y);
        assert(y.union(x) =~= x.union(y));
        assert(b.contains(y) && a.contains(x) && c == y.union(x));
    }
    assert forall|c: ClauseSet| cross(b, a).contains(c) implies cross(a, b).contains(c) by {
        let (x, y): (ClauseSet, ClauseSet) = choose|x: ClauseSet, y: ClauseSet|
            #![trigger b.contains(x), a.contains(y)]
            b.contains(x) && a.contains(y) && c == x.union(y);
        assert(y.union(x) =~= x.union(y));
        assert(a.contains(y) && b.contains(x) && c == y.union(x));
    }
    assert(cross(a, b) =~= cross(b, a));
}


/// Absorption, join side: joining a formula with anything it implies
/// clause-for-clause gives the formula back.
pub proof fn lemma_absorb_union(a: FormulaSet, b: FormulaSet)
    requires
        is_antichain(a),
        formula_fin(a),
        formula_fin(b),
    ensures
        reduce(a.union(reduce(cross(a, b)))) == a,
{
    let t = reduce(cross(a, b));
    let s = a.union(t);
    lemma_cross_fin(a, b);
    lemma_reduce_ensures(cross(a, b));
    assert forall|c: ClauseSet| s.contains(c)
        implies exists|x: ClauseSet| #[trigger] a.contains(x) && x.subset_of(c) by {
        if a.contains(c) {
            assert(a.contains(c) && c.subset_of(c));
        } else {
            assert(cross(a, b).contains(c));
            let (x, y): (ClauseSet, ClauseSet) = choose|x: ClauseSet, y: ClauseSet|
                #![trigger a.contains(x), b.contains(y)]
                a.contains(x) && b.contains(y) && c == x.union(y);
            assert(a.contains(x) && x.subset_of(c));
        }
    }
    lemma_reduce_eq_antichain(a, s);
}

/// Absorption, meet side: crossing a formula with anything some clause of
/// which implies each of its clauses gives the formula back.
pub proof fn lemma_absorb_cross(a: FormulaSet, b: FormulaSet)
    requires
        is_antichain(a),
        formula_fin(a),
        formula_fin(b),
    ensures
        reduce(cross(a, reduce(a.union(b)))) == a,
{
    let t = reduce(a.union(b));
    let s = cross(a, t);
    assert(formula_fin(a.union(b))) by {
        vstd::set_lib::lemma_set_union_finite_iff(a, b);
        assert forall|c: ClauseSet| a.union(b).contains(c) implies c.finite() by {}
    }
    lemma_reduce_ensures(a.union(b));
    assert(a.subset_of(s)) by {
        assert forall|x: ClauseSet| a.contains(x) implies s.contains(x) by {
            assert(a.union(b).contains(x));
            let m = lemma_minimal_below(a.union(b), x);
            assert(x.union(m) =~= x);
            assert(a.contains(x) && t.contains(m) && x == x.union(m));
        }
    }
    assert forall|c: ClauseSet| s.contains(c)
        implies exists|x: ClauseSet| #[trigger] a.contains(x) && x.subset_of(c) by {
        let (x, y): (ClauseSet, ClauseSet) = choose|x: ClauseSet, y: ClauseSet|
            #![trigger a.contains(x), t.contains(y)]
            a.contains(x) && t.contains(y) && c == x.union(y);
        assert(a.contains(x) && x.subset_of(c));
    }
    lemma_reduce_eq_antichain(a, s);
}

/// Crossing a single clause with a finite formula gives a finite formula.
proof fn lemma_cross_fin_single(x: ClauseSet, b: FormulaSet)
    requires
        b.finite(),
    ensures
        cross(Set::empty().insert(x), b).finite(),
    decreases b.len(),
{
    let sx = Set::empty().insert(x);
    if b.len() == 0 {
        assert(b =~= Set::empty());
        assert(cross(sx, b) =~= Set::empty()) by {
            assert forall|c: ClauseSet| !cross(sx, b).contains(c) by {
                if cross(sx, b).contains(c) {
                    let (x0, y0): (ClauseSet, ClauseSet) = choose|x0: ClauseSet, y0: ClauseSet|
                        #![trigger sx.contains(x0), b.contains(y0)]
                        sx.contains(x0) && b.contains(y0) && c == x0.union(y0);
                }
            }
        }
    } else {
        let y0 = b.choose();
        let rest = b.remove(y0);
        lemma_cross_fin_single(x, rest);
        assert(cross(sx, b) =~= cross(sx, rest).insert(x.union(y0))) by {
            assert forall|c: ClauseSet| cross(sx, b).contains(c)
                implies cross(sx, rest).insert(x.union(y0)).contains(c) by {
                let (x0, yc): (ClauseSet, ClauseSet) = choose|x0: ClauseSet, yc: ClauseSet|
                    #![trigger sx.contains(x0), b.contains(yc)]
                    sx.contains(x0) && b.contains(yc) && c == x0.union(yc);
                if yc != y0 {
                    assert(rest.contains(yc));
                    assert(sx.contains(x) && rest.contains(yc) && c == x.union(yc));
                }
            }
            assert forall|c: ClauseSet| cross(sx, rest).insert(x.union(y0)).contains(c)
                implies cross(sx, b).contains(c) by {
                if cross(sx, rest).contains(c) {
                    let (x0, yc): (ClauseSet, ClauseSet) = choose|x0: ClauseSet, yc: ClauseSet|
                        #![trigger sx.contains(x0), rest.contains(yc)]
                        sx.contains(x0) && rest.contains(yc) && c == x0.union(yc);
                    assert(sx.contains(x0) && b.contains(yc) && c == x0.union(yc));
                } else {
                    assert(sx.contains(x) && b.contains(y0) && c == x.union(y0));
                }
            }
        }
    }
}

/// A cross of finite formulas is finite, clauses included.
pub proof fn lemma_cross_fin(a: FormulaSet, b: FormulaSet)
    requires
        formula_fin(a),
        formula_fin(b),
    ensures
        formula_fin(cross(a, b)),
    decreases a.len(),
{
    assert forall|c: ClauseSet| cross(a, b).contains(c) implies c.finite() by {
        let (x, y): (ClauseSet, ClauseSet) = choose|x: ClauseSet, y: ClauseSet|
            #![trigger a.contains(x), b.contains(y)]
            a.contains(x) && b.contains(y) && c == x.union(y);
        vstd::set_lib::lemma_set_union_finite_iff(x, y);
    }
    if a.len() == 0 {
        assert(a =~= Set::empty());
        assert(cross(a, b) =~= Set::empty()) by {
            assert forall|c: ClauseSet| !cross(a, b).contains(c) by {
                if cross(a, b).contains(c) {
                    let (x0, y0): (ClauseSet, ClauseSet) = choose|x0: ClauseSet, y0: ClauseSet|
                        #![trigger a.contains(x0), b.contains(y0)]
                        a.contains(x0) && b.contains(y0) && c == x0.union(y0);
                }
            }
        }
    } else {
        let x0 = a.choose();
        let rest = a.remove(x0);
        let sx = Set::empty().insert(x0);
        lemma_cross_fin(rest, b);
        lemma_cross_fin_single(x0, b);
        assert(cross(a, b) =~= cross(rest, b).union(cross(sx, b))) by {
            assert forall|c: ClauseSet| cross(a, b).contains(c)
                implies cross(rest, b).union(cross(sx, b)).contains(c) by {
                let (xc, yc): (ClauseSet, ClauseSet) = choose|xc: ClauseSet, yc: ClauseSet|
                    #![trigger a.contains(xc), b.contains(yc)]
                    a.contains(xc) && b.contains(yc) && c == xc.union(yc);
                if xc == x0 {
                    assert(sx.contains(xc) && b.contains(yc) && c == xc.union(yc));
                } else {
                    assert(rest.contains(xc) && b.contains(yc) && c == xc.union(yc));
                }
            }
            assert forall|c: ClauseSet| cross(rest, b).union(cross(sx, b)).contains(c)
                implies cross(a, b).contains(c) by {
                if cross(rest, b).contains(c) {
                    let (xc, yc): (ClauseSet, ClauseSet) = choose|xc: ClauseSet, yc: ClauseSet|
                        #![trigger rest.contains(xc), b.contains(yc)]
                        rest.contains(xc) && b.contains(yc) && c == xc.union(yc);
                    assert(a.contains(xc) && b.contains(yc) && c == xc.union(yc));
                } else {
                    let (xc, yc): (ClauseSet, ClauseSet) = choose|xc: ClauseSet, yc: ClauseSet|
                        #![trigger sx.contains(xc), b.contains(yc)]
                        sx.contains(xc) && b.contains(yc) && c == xc.union(yc);
                    assert(a.contains(x0) && b.contains(yc) && c == xc.union(yc));
                }
            }
        }
    }
}

} // verus!
