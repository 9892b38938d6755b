use vstd::prelude::*;

mod conjunction;
mod disjunction;
pub mod formula;

pub use conjunction::Conjunction;
pub use conjunction::lemma_conjunction_canonical;
pub use disjunction::Disjunction;
pub use disjunction::Principal;

use crate::Label;
use conjunction::seq_cset;
use formula::{
    FormulaSet, cross, formula_fin, formula_implies, is_antichain, lemma_absorb_cross,
    lemma_absorb_union, lemma_antichain_implies_unique, lemma_cross_comm,
    lemma_formula_implies_refl, lemma_formula_implies_trans, lemma_implies_complete,
    lemma_minimal_below, lemma_reduce_eq_antichain, reduce, sat,
};

verus! {

/// A label of the decentralized model: a secrecy formula saying who must
/// consent before the data flows out, and an integrity formula saying who
/// vouches for the data. Both are held in logical normal form.
#[derive(Debug, Hash)]
pub struct DCLabel {
    secrecy: Conjunction,
    integrity: Conjunction,
}

impl View for DCLabel {
    type V = (Seq<Seq<Seq<char>>>, Seq<Seq<Seq<char>>>);

    closed spec fn view(&self) -> (Seq<Seq<Seq<char>>>, Seq<Seq<Seq<char>>>) {
        (self.secrecy@, self.integrity@)
    }
}

impl DCLabel {
    /// The secrecy component, as a set of clause sets.
    pub open spec fn sset(&self) -> FormulaSet {
        seq_cset(self@.0)
    }

    /// The integrity component, as a set of clause sets.
    pub open spec fn iset(&self) -> FormulaSet {
        seq_cset(self@.1)
    }

    /// Both components canonical and in logical normal form.
    pub open spec fn wf(&self) -> bool {
        &&& crate::order::sorted_clauses(self@.0)
        &&& conjunction::clauses_wf(self@.0)
        &&& is_antichain(self.sset())
        &&& crate::order::sorted_clauses(self@.1)
        &&& conjunction::clauses_wf(self@.1)
        &&& is_antichain(self.iset())
    }

    /// The flow relation on models: the destination's secrecy implies the
    /// source's, and the source's integrity implies the destination's.
    pub open spec fn can_flow_to_spec(&self, rhs: &Self) -> bool {
        formula_implies(rhs.sset(), self.sset()) && formula_implies(self.iset(), rhs.iset())
    }

    /// What the join of two labels holds: secrecy is the AND of the secrecy
    /// components, integrity the OR of the integrity components.
    pub open spec fn is_join_of(&self, l1: &Self, l2: &Self) -> bool {
        &&& self.wf()
        &&& self.sset() == reduce(l1.sset().union(l2.sset()))
        &&& self.iset() == reduce(cross(l1.iset(), l2.iset()))
    }

    /// What the meet of two labels holds: secrecy is the OR of the secrecy
    /// components, integrity the AND of the integrity components.
    pub open spec fn is_meet_of(&self, l1: &Self, l2: &Self) -> bool {
        &&& self.wf()
        &&& self.sset() == reduce(cross(l1.sset(), l2.sset()))
        &&& self.iset() == reduce(l1.iset().union(l2.iset()))
    }

    /// Construct a label from a secrecy and an integrity conjunction; both
    /// are canonicalized.
    pub fn new(secrecy: Conjunction, integrity: Conjunction) -> (r: Self)
        requires
            secrecy.wf(),
            integrity.wf(),
        ensures
            r.wf(),
            r.sset() == reduce(secrecy.cset()),
            r.iset() == reduce(integrity.cset()),
            secrecy.is_lnf() ==> r.sset() == secrecy.cset(),
            integrity.is_lnf() ==> r.iset() == integrity.cset(),
    {
        let mut s = secrecy;
        let mut i = integrity;
        proof {
            if s.is_lnf() {
                lemma_reduce_eq_antichain(s.cset(), s.cset());
            }
            if i.is_lnf() {
                lemma_reduce_eq_antichain(i.cset(), i.cset());
            }
        }
        s.to_lnf();
        i.to_lnf();
        DCLabel { secrecy: s, integrity: i }
    }

    /// The label nothing may flow to, except itself: secrecy false,
    /// integrity true.
    pub fn top() -> (r: Self)
        ensures
            r.wf(),
            r.sset() == Set::<formula::ClauseSet>::empty().insert(Set::<Seq<char>>::empty()),
            r.iset() == Set::<formula::ClauseSet>::empty(),
    {
        let r = DCLabel::new(Conjunction::from_bool(false), Conjunction::from_bool(true));
        r
    }

    /// The unrestricted label every task starts from: secrecy true,
    /// integrity true.
    pub fn public() -> (r: Self)
        ensures
            r.wf(),
            r.sset() == Set::<formula::ClauseSet>::empty(),
            r.iset() == Set::<formula::ClauseSet>::empty(),
    {
        let r = DCLabel::new(Conjunction::from_bool(true), Conjunction::from_bool(true));
        r
    }

    /// The label nothing flows out of, except to itself: secrecy true,
    /// integrity false.
    pub fn bottom() -> (r: Self)
        ensures
            r.wf(),
            r.sset() == Set::<formula::ClauseSet>::empty(),
            r.iset() == Set::<formula::ClauseSet>::empty().insert(Set::<Seq<char>>::empty()),
    {
        let r = DCLabel::new(Conjunction::from_bool(true), Conjunction::from_bool(false));
        r
    }

    /// The least upper bound: AND on secrecy, OR on integrity, both
    /// re-canonicalized.
    pub fn join(&self, rhs: &Self) -> (r: Self)
        requires
            self.wf(),
            rhs.wf(),
        ensures
            r.is_join_of(self, rhs),
    {
        let mut secrecy = self.secrecy.clone().and(rhs.secrecy.clone());
        let mut integrity = self.integrity.clone().or(&rhs.integrity.clone());
        proof {
            lemma_reduce_eq_antichain(secrecy.cset(), secrecy.cset());
            lemma_reduce_eq_antichain(integrity.cset(), integrity.cset());
        }
        secrecy.to_lnf();
        integrity.to_lnf();
        DCLabel { secrecy, integrity }
    }

    /// The greatest lower bound: OR on secrecy, AND on integrity, both
    /// re-canonicalized.
    pub fn meet(&self, rhs: &Self) -> (r: Self)
        requires
            self.wf(),
            rhs.wf(),
        ensures
            r.is_meet_of(self, rhs),
    {
        let mut secrecy = self.secrecy.clone().or(&rhs.secrecy.clone());
        let mut integrity = self.integrity.clone().and(rhs.integrity.clone());
        proof {
            lemma_reduce_eq_antichain(secrecy.cset(), secrecy.cset());
            lemma_reduce_eq_antichain(integrity.cset(), integrity.cset());
        }
        secrecy.to_lnf();
        integrity.to_lnf();
        DCLabel { secrecy, integrity }
    }

    /// Whether data labeled `self` may flow to an entity labeled `rhs`.
    pub fn can_flow_to(&self, rhs: &Self) -> (r: bool)
        ensures
            r == self.can_flow_to_spec(rhs),
    {
        rhs.secrecy.implies(&self.secrecy) && self.integrity.implies(&rhs.integrity)
    }
}

impl Clone for DCLabel {
    /// An independent copy of the label, over the same formulas.
    fn clone(&self) -> (res: Self)
        ensures
            res@ == self@,
    {
        DCLabel { secrecy: self.secrecy.clone(), integrity: self.integrity.clone() }
    }
}

impl PartialEq for DCLabel {
    fn eq(&self, other: &Self) -> (r: bool) {
        self.secrecy == other.secrecy && self.integrity == other.integrity
    }
}

impl Eq for DCLabel {

}

impl vstd::std_specs::cmp::PartialEqSpecImpl for DCLabel {
    open spec fn obeys_eq_spec() -> bool {
        true
    }

    open spec fn eq_spec(&self, other: &Self) -> bool {
        self@ == other@
    }
}

impl Label for DCLabel {
    open spec fn lwf(&self) -> bool {
        self.wf()
    }

    fn join(&self, rhs: &Self) -> (r: Self) {
        DCLabel::join(self, rhs)
    }

    fn meet(&self, rhs: &Self) -> (r: Self) {
        DCLabel::meet(self, rhs)
    }

    fn can_flow_to(&self, rhs: &Self) -> bool {
        DCLabel::can_flow_to(self, rhs)
    }
}

/// Reflexivity: every label can flow to itself.
pub proof fn lemma_flow_reflexive(l: &DCLabel)
    ensures
        l.can_flow_to_spec(l),
{
    lemma_formula_implies_refl(l.sset());
    lemma_formula_implies_refl(l.iset());
}

/// Antisymmetry: two labels that flow to each other are the same label.
pub proof fn lemma_flow_antisymmetric(l1: &DCLabel, l2: &DCLabel)
    requires
        l1.wf(),
        l2.wf(),
        l1.can_flow_to_spec(l2),
        l2.can_flow_to_spec(l1),
    ensures
        l1@ == l2@,
{
    lemma_antichain_implies_unique(l1.sset(), l2.sset());
    lemma_antichain_implies_unique(l1.iset(), l2.iset());
    lemma_conjunction_canonical(l1.secrecy, l2.secrecy);
    lemma_conjunction_canonical(l1.integrity, l2.integrity);
}

/// Transitivity: flows compose.
pub proof fn lemma_flow_transitive(l1: &DCLabel, l2: &DCLabel, l3: &DCLabel)
    requires
        l1.can_flow_to_spec(l2),
        l2.can_flow_to_spec(l3),
    ensures
        l1.can_flow_to_spec(l3),
{
    lemma_formula_implies_trans(l3.sset(), l2.sset(), l1.sset());
    lemma_formula_implies_trans(l1.iset(), l2.iset(), l3.iset());
}

/// Join is commutative: the join of two labels does not depend on their
/// order.
pub proof fn lemma_join_commutative(l1: &DCLabel, l2: &DCLabel, a: &DCLabel, b: &DCLabel)
    requires
        a.is_join_of(l1, l2),
        b.is_join_of(l2, l1),
    ensures
        a@ == b@,
{
    assert(l1.sset().union(l2.sset()) =~= l2.sset().union(l1.sset()));
    lemma_cross_comm(l1.iset(), l2.iset());
    lemma_conjunction_canonical(a.secrecy, b.secrecy);
    lemma_conjunction_canonical(a.integrity, b.integrity);
}

/// Meet is commutative: the meet of two labels does not depend on their
/// order.
pub proof fn lemma_meet_commutative(l1: &DCLabel, l2: &DCLabel, a: &DCLabel, b: &DCLabel)
    requires
        a.is_meet_of(l1, l2),
        b.is_meet_of(l2, l1),
    ensures
        a@ == b@,
{
    assert(l1.iset().union(l2.iset()) =~= l2.iset().union(l1.iset()));
    lemma_cross_comm(l1.sset(), l2.sset());
    lemma_conjunction_canonical(a.secrecy, b.secrecy);
    lemma_conjunction_canonical(a.integrity, b.integrity);
}

/// Join is an upper bound: each operand can flow to the join.
pub proof fn lemma_join_upper(l1: &DCLabel, l2: &DCLabel, j: &DCLabel)
    requires
        j.is_join_of(l1, l2),
    ensures
        l1.can_flow_to_spec(j),
        l2.can_flow_to_spec(j),
{
    let u = l1.sset().union(l2.sset());
    conjunction::lemma_seq_cset_fin(l1@.0);
    conjunction::lemma_seq_cset_fin(l2@.0);
    assert(formula_fin(u)) by {
        vstd::set_lib::lemma_set_union_finite_iff(l1.sset(), l2.sset());
        assert forall|c: formula::ClauseSet| u.contains(c) implies c.finite() by {}
    }
    assert forall|r0: formula::ClauseSet| l1.sset().contains(r0)
        implies exists|s: formula::ClauseSet| #[trigger]
            j.sset().contains(s) && s.subset_of(r0) by {
        let m = lemma_minimal_below(u, r0);
    }
    assert forall|r0: formula::ClauseSet| l2.sset().contains(r0)
        implies exists|s: formula::ClauseSet| #[trigger]
            j.sset().contains(s) && s.subset_of(r0) by {
        let m = lemma_minimal_below(u, r0);
    }
    assert forall|r0: formula::ClauseSet| j.iset().contains(r0)
        implies (exists|s: formula::ClauseSet| #[trigger]
            l1.iset().contains(s) && s.subset_of(r0)) && (exists|s: formula::ClauseSet|
            #[trigger] l2.iset().contains(s) && s.subset_of(r0)) by {
        assert(cross(l1.iset(), l2.iset()).contains(r0));
        let (x, y): (formula::ClauseSet, formula::ClauseSet) = choose|
            x: formula::ClauseSet,
            y: formula::ClauseSet,
        |
            #![trigger l1.iset().contains(x), l2.iset().contains(y)]
            l1.iset().contains(x) && l2.iset().contains(y) && r0 == x.union(y);
        assert(l1.iset().contains(x) && x.subset_of(r0));
        assert(l2.iset().contains(y) && y.subset_of(r0));
    }
}

/// Meet is a lower bound: the meet can flow to each operand.
pub proof fn lemma_meet_lower(l1: &DCLabel, l2: &DCLabel, m: &DCLabel)
    requires
        m.is_meet_of(l1, l2),
    ensures
        m.can_flow_to_spec(l1),
        m.can_flow_to_spec(l2),
{
    let u = l1.iset().union(l2.iset());
    conjunction::lemma_seq_cset_fin(l1@.1);
    conjunction::lemma_seq_cset_fin(l2@.1);
    assert(formula_fin(u)) by {
        vstd::set_lib::lemma_set_union_finite_iff(l1.iset(), l2.iset());
        assert forall|c: formula::ClauseSet| u.contains(c) implies c.finite() by {}
    }
    assert forall|r0: formula::ClauseSet| l1.iset().contains(r0)
        implies exists|s: formula::ClauseSet| #[trigger]
            m.iset().contains(s) && s.subset_of(r0) by {
        let w = lemma_minimal_below(u, r0);
    }
    assert forall|r0: formula::ClauseSet| l2.iset().contains(r0)
        implies exists|s: formula::ClauseSet| #[trigger]
            m.iset().contains(s) && s.subset_of(r0) by {
        let w = lemma_minimal_below(u, r0);
    }
    assert forall|r0: formula::ClauseSet| m.sset().contains(r0)
        implies (exists|s: formula::ClauseSet| #[trigger]
            l1.sset().contains(s) && s.subset_of(r0)) && (exists|s: formula::ClauseSet|
            #[trigger] l2.sset().contains(s) && s.subset_of(r0)) by {
        assert(cross(l1.sset(), l2.sset()).contains(r0));
        let (x, y): (formula::ClauseSet, formula::ClauseSet) = choose|
            x: formula::ClauseSet,
            y: formula::ClauseSet,
        |
            #![trigger l1.sset().contains(x), l2.sset().contains(y)]
            l1.sset().contains(x) && l2.sset().contains(y) && r0 == x.union(y);
        assert(l1.sset().contains(x) && x.subset_of(r0));
        assert(l2.sset().contains(y) && y.subset_of(r0));
    }
}

/// Absorption: joining a label with its meet with anything gives the label
/// back.
pub proof fn lemma_absorption_join(l1: &DCLabel, l2: &DCLabel, m: &DCLabel, j: &DCLabel)
    requires
        l1.wf(),
        l2.wf(),
        m.is_meet_of(l1, l2),
        j.is_join_of(l1, m),
    ensures
        j@ == l1@,
{
    conjunction::lemma_seq_cset_fin(l1@.0);
    conjunction::lemma_seq_cset_fin(l1@.1);
    conjunction::lemma_seq_cset_fin(l2@.0);
    conjunction::lemma_seq_cset_fin(l2@.1);
    lemma_absorb_union(l1.sset(), l2.sset());
    lemma_absorb_cross(l1.iset(), l2.iset());
    lemma_conjunction_canonical(j.secrecy, l1.secrecy);
    lemma_conjunction_canonical(j.integrity, l1.integrity);
}

/// Absorption, dually: meeting a label with its join with anything gives
/// the label back.
pub proof fn lemma_absorption_meet(l1: &DCLabel, l2: &DCLabel, j: &DCLabel, m: &DCLabel)
    requires
        l1.wf(),
        l2.wf(),
        j.is_join_of(l1, l2),
        m.is_meet_of(l1, j),
    ensures
        m@ == l1@,
{
    conjunction::lemma_seq_cset_fin(l1@.0);
    conjunction::lemma_seq_cset_fin(l1@.1);
    conjunction::lemma_seq_cset_fin(l2@.0);
    conjunction::lemma_seq_cset_fin(l2@.1);
    lemma_absorb_cross(l1.sset(), l2.sset());
    lemma_absorb_union(l1.iset(), l2.iset());
    lemma_conjunction_canonical(m.secrecy, l1.secrecy);
    lemma_conjunction_canonical(m.integrity, l1.integrity);
}

/// Logical uniqueness: two conjunctions in logical normal form that hold
/// under exactly the same assignments are structurally equal.
pub proof fn lemma_lnf_unique(c1: &Conjunction, c2: &Conjunction)
    requires
        c1.is_lnf(),
        c2.is_lnf(),
        forall|asg: Set<Seq<char>>| sat(c1.cset(), asg) == #[trigger] sat(c2.cset(), asg),
    ensures
        c1@ == c2@,
{
    lemma_implies_complete(c1.cset(), c2.cset());
    lemma_implies_complete(c2.cset(), c1.cset());
    lemma_antichain_implies_unique(c1.cset(), c2.cset());
    lemma_conjunction_canonical(*c1, *c2);
}

/// Idempotence of canonicalization: a conjunction already in logical normal
/// form is its own reduction, so canonicalizing a second time changes
/// nothing.
pub proof fn lemma_lnf_fixedpoint(c1: &Conjunction, c2: &Conjunction)
    requires
        c1.is_lnf(),
        c2.wf(),
        c2.cset() == reduce(c1.cset()),
    ensures
        c2@ == c1@,
{
    lemma_reduce_eq_antichain(c1.cset(), c1.cset());
    lemma_conjunction_canonical(*c2, *c1);
}

} // verus!
