use vstd::prelude::*;

use crate::order::{insert_name, name_in, sorted_names, union_names};

verus! {

/// The name of a principal, as the first draft of the clause algebra wrote
/// it.
pub type Principal = String;

/// The first draft of a disjunction of principals. It differs from the one
/// the labels use in its reading of implication: here everything implies
/// the false (empty) clause, and false implies nothing else.
///
/// The names are kept sorted and free of duplicates.
#[derive(Debug, Hash)]
pub struct Disjunction(Vec<String>);

impl View for Disjunction {
    type V = Seq<Seq<char>>;

    closed spec fn view(&self) -> Seq<Seq<char>> {
        self.0.deep_view()
    }
}

impl DeepView for Disjunction {
    type V = Seq<Seq<char>>;

    open spec fn deep_view(&self) -> Seq<Seq<char>> {
        self.view()
    }
}

/// This draft's clause implication: everything implies false; false
/// implies only false; otherwise inclusion of principals.
pub open spec fn draft_implies(a: Set<Seq<char>>, b: Set<Seq<char>>) -> bool {
    if b == Set::<Seq<char>>::empty() {
        true
    } else if a == Set::<Seq<char>>::empty() {
        false
    } else {
        a.subset_of(b)
    }
}

impl Disjunction {
    /// The set of principals named by the clause.
    pub open spec fn pset(&self) -> Set<Seq<char>> {
        self@.to_set()
    }

    /// Canonical shape: names strictly sorted, hence free of duplicates.
    pub open spec fn wf(&self) -> bool {
        sorted_names(self@)
    }

    /// The empty disjunction: false.
    pub fn empty() -> (r: Self)
        ensures
            r.wf(),
            r@ == Seq::<Seq<char>>::empty(),
            r.pset() == Set::<Seq<char>>::empty(),
    {
        let v: Vec<String> = Vec::new();
        proof {
            assert(v.deep_view() =~= Seq::<Seq<char>>::empty());
            assert(v.deep_view().to_set() =~= Set::<Seq<char>>::empty());
        }
        Disjunction(v)
    }

    /// Add a principal to the disjunction; idempotent on membership.
    pub fn add(self, principal: &str) -> (r: Self)
        requires
            self.wf(),
        ensures
            r.wf(),
            r.pset() == self.pset().insert(principal@),
    {
        let mut v = self.0;
        insert_name(&mut v, principal.to_owned());
        Disjunction(v)
    }

    /// Whether this clause implies another, in this draft's reading:
    /// everything implies the false clause, the false clause implies
    /// nothing else, and otherwise the principals must be included in the
    /// other clause's.
    #[verifier::loop_isolation(false)]
    pub fn implies(&self, rhs: &Self) -> (r: bool)
        ensures
            r == draft_implies(self.pset(), rhs.pset()),
    {
        if rhs.0.len() == 0 {
            proof {
                assert(rhs.pset() =~= Set::<Seq<char>>::empty());
            }
            return true;
        }
        proof {
            assert(rhs@.len() > 0);
            assert(rhs.pset().contains(rhs@[0]));
            assert(rhs.pset() != Set::<Seq<char>>::empty());
        }
        if self.0.len() == 0 {
            proof {
                assert(self.pset() =~= Set::<Seq<char>>::empty());
            }
            return false;
        }
        proof {
            assert(self.pset().contains(self@[0]));
            assert(self.pset() != Set::<Seq<char>>::empty());
        }
        let mut i: usize = 0;
        while i < self.0.len()
            invariant
                i <= self.0.len(),
                forall|k: int| 0 <= k < i ==> rhs@.contains(self@[k]),
            decreases self.0.len() - i,
        {
            if !name_in(&rhs.0, &self.0[i]) {
                proof {
                    assert(self@.contains(self@[i as int]));
                    assert(self.pset().contains(self@[i as int]));
                    assert(!rhs.pset().contains(self@[i as int]));
                }
                return false;
            }
            assert(self.0[i as int]@ == self@[i as int]);
            i += 1;
        }
        proof {
            assert forall|e: Seq<char>| self.pset().contains(e)
                implies rhs.pset().contains(e) by {
                let k = choose|k: int| 0 <= k < self@.len() && self@[k] == e;
                assert(rhs@.contains(self@[k]));
            }
        }
        true
    }

    /// The union of two disjunctions: the OR of the two clauses.
    pub fn or(&self, rhs: &Self) -> (r: Self)
        requires
            self.wf(),
            rhs.wf(),
        ensures
            r.wf(),
            r.pset() == self.pset().union(rhs.pset()),
    {
        Disjunction(union_names(&self.0, &rhs.0))
    }

    /// The display form: the principals in canonical order, separated by
    /// the OR sign, in parentheses. The false disjunction prints as a pair
    /// of parentheses.
    pub fn display_string(&self) -> (r: String)
        ensures
            r@ == crate::order::display_names_spec(self@),
    {
        crate::order::display_names(&self.0)
    }
}

impl Clone for Disjunction {
    /// An independent copy of the clause, over the same principals.
    fn clone(&self) -> (res: Self)
        ensures
            res@ == self@,
    {
        let v = self.0.clone();
        proof {
            assert forall|k: int| 0 <= k < self.0@.len() implies v@[k] == self.0@[k] by {}
            assert(v@ =~= self.0@);
            assert(v.deep_view() =~= self.0.deep_view());
        }
        Disjunction(v)
    }
}

impl PartialEq for Disjunction {
    fn eq(&self, other: &Self) -> (r: bool) {
        if self.0.len() != other.0.len() {
            proof {
                assert(self@.len() != other@.len());
            }
            return false;
        }
        let mut i: usize = 0;
        while i < self.0.len()
            invariant
                i <= self.0.len(),
                self.0.len() == other.0.len(),
                forall|k: int| 0 <= k < i ==> self@[k] == other@[k],
            decreases self.0.len() - i,
        {
            if !(self.0[i] == other.0[i]) {
                proof {
                    assert(self@[i as int] != other@[i as int]);
                }
                return false;
            }
            proof {
                assert(self@[i as int] == other@[i as int]);
            }
            i += 1;
        }
        proof {
            assert(self@ =~= other@);
        }
        true
    }
}

impl Eq for Disjunction {

}

impl vstd::std_specs::cmp::PartialEqSpecImpl for Disjunction {
    open spec fn obeys_eq_spec() -> bool {
        true
    }

    open spec fn eq_spec(&self, other: &Self) -> bool {
        self@ == other@
    }
}

} // verus!
