use vstd::prelude::*;

use crate::order::{insert_name, lemma_clause_lt_skip, name_in, sorted_names, str_lt, union_names};

verus! {

/// The name of a principal: an arbitrary UTF-8 string. Equality is
/// character-wise; the total order used for canonicalization is the
/// lexicographic order on code points.
pub type Principal = String;

/// A disjunction of principals, interpreted as their logical OR. The empty
/// disjunction denotes false.
///
/// The names are kept sorted and free of duplicates, so that two disjunctions
/// with the same members are structurally equal.
#[derive(Debug, Hash)]
pub struct Disjunction(Vec<String>);

impl View for Disjunction {
    type V = Seq<Seq<char>>;

    closed spec fn view(&self) -> Seq<Seq<char>> {
        self.0.deep_view()
    }
}

impl DeepView for Disjunction {
    type V = Seq<Seq<char>>;

    open spec fn deep_view(&self) -> Seq<Seq<char>> {
        self.view()
    }
}

impl Disjunction {
    /// The set of principals named by the clause.
    pub open spec fn pset(&self) -> Set<Seq<char>> {
        self@.to_set()
    }

    /// Canonical shape: names strictly sorted, hence free of duplicates.
    pub open spec fn wf(&self) -> bool {
        sorted_names(self@)
    }

    /// The empty disjunction: false.
    pub fn mk_false() -> (r: Self)
        ensures
            r.wf(),
            r@ == Seq::<Seq<char>>::empty(),
            r.pset() == Set::<Seq<char>>::empty(),
    {
        let v: Vec<String> = Vec::new();
        proof {
            assert(v.deep_view() =~= Seq::<Seq<char>>::empty());
            assert(v.deep_view().to_set() =~= Set::<Seq<char>>::empty());
        }
        Disjunction(v)
    }

    /// Add a principal to the disjunction; idempotent on membership.
    pub fn add(self, principal: &str) -> (r: Self)
        requires
            self.wf(),
        ensures
            r.wf(),
            r.pset() == self.pset().insert(principal@),
    {
        let mut v = self.0;
        insert_name(&mut v, principal.to_owned());
        Disjunction(v)
    }

    /// Whether this clause implies another clause.
    ///
    /// A clause implies another exactly when its principals are a subset of
    /// the other's: every assignment satisfying some principal of `self` then
    /// satisfies `rhs` as well. In particular the false (empty) clause
    /// implies every clause, and only the false clause implies false.
    pub fn implies(&self, rhs: &Self) -> (r: bool)
        ensures
            r == self.pset().subset_of(rhs.pset()),
            r == (self.pset().subset_of(rhs.pset()) || self@.len() == 0),
    {
        let mut i: usize = 0;
        while i < self.0.len()
            invariant
                i <= self.0.len(),
                forall|k: int| 0 <= k < i ==> rhs@.contains(self@[k]),
            decreases self.0.len() - i,
        {
            if !name_in(&rhs.0, &self.0[i]) {
                proof {
                    assert(self@.contains(self@[i as int]));
                    assert(self.pset().contains(self@[i as int]));
                    assert(!rhs.pset().contains(self@[i as int]));
                }
                return false;
            }
            assert(self.0[i as int]@ == self@[i as int]);
            i += 1;
        }
        proof {
            assert forall|e: Seq<char>| self.pset().contains(e)
                implies rhs.pset().contains(e) by {
                let k = choose|k: int| 0 <= k < self@.len() && self@[k] == e;
                assert(rhs@.contains(self@[k]));
            }
        }
        true
    }

    /// The union of two disjunctions: the OR of the two clauses.
    pub fn or(&self, rhs: &Self) -> (r: Self)
        requires
            self.wf(),
            rhs.wf(),
        ensures
            r.wf(),
            r.pset() == self.pset().union(rhs.pset()),
    {
        Disjunction(union_names(&self.0, &rhs.0))
    }


    /// Whether this clause stands strictly before another in the canonical
    /// clause order.
    pub fn lt(&self, other: &Self) -> (r: bool)
        ensures
            r == crate::order::clause_lt(self@, other@),
    {
        let a_len = self.0.len();
        let b_len = other.0.len();
        let mut i: usize = 0;
        loop
            invariant
                i <= a_len,
                i <= b_len,
                a_len == self@.len(),
                b_len == other@.len(),
                self@.subrange(0, i as int) == other@.subrange(0, i as int),
            decreases a_len - i,
        {
            proof {
                lemma_clause_lt_skip(self@, other@, i as int);
            }
            if i == b_len {
                return false;
            }
            if i == a_len {
                return true;
            }
            if !(self.0[i] == other.0[i]) {
                proof {
                    assert(self@[i as int] != other@[i as int]);
                }
                return str_lt(self.0[i].as_str(), other.0[i].as_str());
            }
            proof {
                assert(self@[i as int] == other@[i as int]);
                assert(self@.subrange(0, i + 1) =~= self@.subrange(0, i as int).push(
                    self@[i as int]));
                assert(other@.subrange(0, i + 1) =~= other@.subrange(0, i as int).push(
                    other@[i as int]));
            }
            i = i + 1;
        }
    }

    /// The display form: the principals in canonical order, separated by
    /// the OR sign, in parentheses. The false disjunction prints as a pair
    /// of parentheses.
    pub fn display_string(&self) -> (r: String)
        ensures
            r@ == crate::order::display_names_spec(self@),
    {
        crate::order::display_names(&self.0)
    }

    /// The debug form: the principals in canonical order, separated by the
    /// OR sign. The false disjunction prints as the word False.
    pub fn debug_string(&self) -> (r: String)
        ensures
            r@ == crate::order::debug_names_spec(self@),
    {
        crate::order::debug_names(&self.0)
    }

    /// How many principals the clause names.
    pub fn len(&self) -> (r: usize)
        ensures
            r == self@.len(),
    {
        self.0.len()
    }
}

impl Clone for Disjunction {
    /// An independent copy of the clause, over the same principals.
    fn clone(&self) -> (res: Self)
        ensures
            res@ == self@,
    {
        let v = self.0.clone();
        proof {
            assert forall|k: int| 0 <= k < self.0@.len() implies v@[k] == self.0@[k] by {}
            assert(v@ =~= self.0@);
            assert(v.deep_view() =~= self.0.deep_view());
        }
        Disjunction(v)
    }
}

impl PartialEq for Disjunction {
    fn eq(&self, other: &Self) -> (r: bool) {
        if self.0.len() != other.0.len() {
            proof {
                assert(self@.len() != other@.len());
            }
            return false;
        }
        let mut i: usize = 0;
        while i < self.0.len()
            invariant
                i <= self.0.len(),
                self.0.len() == other.0.len(),
                forall|k: int| 0 <= k < i ==> self@[k] == other@[k],
            decreases self.0.len() - i,
        {
            if !(self.0[i] == other.0[i]) {
                proof {
                    assert(self@[i as int] != other@[i as int]);
                }
                return false;
            }
            proof {
                assert(self@[i as int] == other@[i as int]);
            }
            i += 1;
        }
        proof {
            assert(self@ =~= other@);
        }
        true
    }
}

impl Eq for Disjunction {

}

impl vstd::std_specs::cmp::PartialEqSpecImpl for Disjunction {
    open spec fn obeys_eq_spec() -> bool {
        true
    }

    open spec fn eq_spec(&self, other: &Self) -> bool {
        self@ == other@
    }
}

} // verus!
