use vstd::prelude::*;

use crate::disjunction::Disjunction;
use crate::disjunction::draft_implies;

verus! {

/// The first draft of a conjunction of disjunctions. It keeps its clauses
/// in insertion order and reads clause implication as the draft
/// disjunction does; the labels use the later, canonical form instead.
#[derive(Clone, Debug, PartialEq, Eq)]
pub struct Conjunction(Vec<Disjunction>);

impl View for Conjunction {
    type V = Seq<Seq<Seq<char>>>;

    closed spec fn view(&self) -> Seq<Seq<Seq<char>>> {
        self.0.deep_view()
    }
}

impl DeepView for Conjunction {
    type V = Seq<Seq<Seq<char>>>;

    open spec fn deep_view(&self) -> Seq<Seq<Seq<char>>> {
        self.view()
    }
}

/// The clauses that survive adding a clause: those the new one does not
/// imply, in their order.
pub open spec fn draft_retain(s: Seq<Seq<Seq<char>>>, d: Set<Seq<char>>) -> Seq<Seq<Seq<char>>>
    decreases s.len(),
{
    if s.len() == 0 {
        Seq::empty()
    } else {
        let rest = draft_retain(s.drop_last(), d);
        if draft_implies(d, s.last().to_set()) {
            rest
        } else {
            rest.push(s.last())
        }
    }
}

/// What adding a clause does: nothing when a present clause implies it;
/// otherwise the clauses it implies leave and it enters at the end.
pub open spec fn draft_add(s: Seq<Seq<Seq<char>>>, d: Seq<Seq<char>>) -> Seq<Seq<Seq<char>>> {
    if exists|k: int| 0 <= k < s.len() && draft_implies((#[trigger] s[k]).to_set(), d.to_set()) {
        s
    } else {
        draft_retain(s, d.to_set()).push(d)
    }
}

/// What folding `draft_add` over another conjunction's clauses does.
pub open spec fn draft_and(s: Seq<Seq<Seq<char>>>, r: Seq<Seq<Seq<char>>>) -> Seq<Seq<Seq<char>>>
    decreases r.len(),
{
    if r.len() == 0 {
        s
    } else {
        draft_and(draft_add(s, r[0]), r.drop_first())
    }
}

/// Whether the clause `c` implies some clause of `a`, in this draft's
/// reading.
pub open spec fn draft_some_implied(a: Seq<Seq<Seq<char>>>, c: Seq<Seq<char>>) -> bool {
    exists|l: int| 0 <= l < a.len() && draft_implies(c.to_set(), (#[trigger] a[l]).to_set())
}

/// This draft's conjunction implication: each clause of `b` implies some
/// clause of `a`.
pub open spec fn draft_conj_implies(a: Seq<Seq<Seq<char>>>, b: Seq<Seq<Seq<char>>>) -> bool {
    forall|k: int| 0 <= k < b.len() ==> draft_some_implied(a, #[trigger] b[k])
}

/// What this draft's canonicalization does: walk the clauses in order and
/// keep each one that no clause kept so far implies.
pub open spec fn draft_lnf(s: Seq<Seq<Seq<char>>>) -> Seq<Seq<Seq<char>>>
    decreases s.len(),
{
    if s.len() == 0 {
        Seq::empty()
    } else {
        let prev = draft_lnf(s.drop_last());
        if exists|j: int|
            0 <= j < prev.len() && draft_implies((#[trigger] prev[j]).to_set(), s.last().to_set()) {
            prev
        } else {
            prev.push(s.last())
        }
    }
}

impl Conjunction {
    /// The empty conjunction: true.
    pub fn empty() -> (r: Self)
        ensures
            r@ == Seq::<Seq<Seq<char>>>::empty(),
    {
        let v: Vec<Disjunction> = Vec::new();
        proof {
            assert(v.deep_view() =~= Seq::<Seq<Seq<char>>>::empty());
        }
        Conjunction(v)
    }

    /// Add a disjunction clause: only if no present clause implies it, and
    /// dropping every present clause that it implies.
    #[verifier::loop_isolation(false)]
    pub fn add(self, disj: Disjunction) -> (r: Self)
        ensures
            r@ == draft_add(self@, disj@),
    {
        let ghost sv = self@;
        let ghost dps = disj@.to_set();
        let mut k: usize = 0;
        while k < self.0.len()
            invariant
                k <= self.0.len(),
                forall|t: int|
                    0 <= t < k ==> !draft_implies((#[trigger] sv[t]).to_set(), dps),
            decreases self.0.len() - k,
        {
            proof {
                assert(self.0@[k as int]@ == sv[k as int]);
            }
            if self.0[k].implies(&disj) {
                return self;
            }
            k += 1;
        }
        let mut v: Vec<Disjunction> = Vec::new();
        let mut i: usize = 0;
        while i < self.0.len()
            invariant
                i <= self.0.len(),
                v.deep_view() == draft_retain(sv.take(i as int), dps),
            decreases self.0.len() - i,
        {
            proof {
                assert(self.0@[i as int]@ == sv[i as int]);
                assert(sv.take(i + 1).drop_last() =~= sv.take(i as int));
                assert(sv.take(i + 1).last() == sv[i as int]);
            }
            if !disj.implies(&self.0[i]) {
                let ghost pdv = v.deep_view();
                let c = self.0[i].clone();
                v.push(c);
                proof {
                    assert(v.deep_view() =~= pdv.push(sv[i as int])) by {
                        assert forall|t: int| 0 <= t < v.deep_view().len()
                            implies v.deep_view()[t] == pdv.push(sv[i as int])[t] by {
                            assert(v.deep_view()[t] == v@[t]@);
                        }
                    }
                }
            }
            i += 1;
        }
        proof {
            assert(sv.take(sv.len() as int) =~= sv);
        }
        let ghost before_push = v.deep_view();
        v.push(disj);
        proof {
            assert(v.deep_view() =~= before_push.push(disj@)) by {
                assert forall|t: int| 0 <= t < v.deep_view().len()
                    implies v.deep_view()[t] == before_push.push(disj@)[t] by {
                    assert(v.deep_view()[t] == v@[t]@);
                }
            }
        }
        Conjunction(v)
    }

    /// Whether this conjunction implies another, in this draft's reading:
    /// each clause of the other implies some clause of this one.
    #[verifier::loop_isolation(false)]
    pub fn implies(&self, rhs: &Self) -> (r: bool)
        ensures
            r == draft_conj_implies(self@, rhs@),
    {
        let ghost mut wit: Seq<int> = Seq::empty();
        let mut k: usize = 0;
        while k < rhs.0.len()
            invariant
                k <= rhs.0.len(),
                wit.len() == k,
                forall|t: int| #![trigger wit[t]]
                    0 <= t < k ==> 0 <= wit[t] < self@.len() && draft_implies(
                        rhs@[t].to_set(),
                        self@[wit[t]].to_set(),
                    ),
            decreases rhs.0.len() - k,
        {
            proof {
                assert(rhs.0@[k as int]@ == rhs@[k as int]);
            }
            let mut l: usize = 0;
            let mut found = false;
            let mut fl: usize = 0;
            while l < self.0.len() && !found
                invariant
                    l <= self.0.len(),
                    found ==> 0 <= fl < self@.len() && draft_implies(
                        rhs@[k as int].to_set(),
                        self@[fl as int].to_set(),
                    ),
                    !found ==> forall|t: int|
                        0 <= t < l ==> !draft_implies(
                            rhs@[k as int].to_set(),
                            (#[trigger] self@[t]).to_set(),
                        ),
                    k < rhs.0.len(),
                decreases self.0.len() - l,
            {
                proof {
                    assert(self.0@[l as int]@ == self@[l as int]);
                }
                if rhs.0[k].implies(&self.0[l]) {
                    found = true;
                    fl = l;
                }
                l += 1;
            }
            if !found {
                proof {
                    assert(0 <= (k as int) < rhs@.len());
                    assert(!draft_some_implied(self@, rhs@[k as int])) by {
                        if draft_some_implied(self@, rhs@[k as int]) {
                            let l2 = choose|l2: int|
                                0 <= l2 < self@.len() && draft_implies(
                                    rhs@[k as int].to_set(),
                                    (#[trigger] self@[l2]).to_set(),
                                );
                        }
                    }
                }
                return false;
            }
            proof {
                wit = wit.push(fl as int);
            }
            k += 1;
        }
        proof {
            assert(k == rhs@.len());
            assert forall|t: int| 0 <= t < rhs@.len()
                implies draft_some_implied(self@, #[trigger] rhs@[t]) by {
                assert(0 <= wit[t] < self@.len() && draft_implies(
                    rhs@[t].to_set(),
                    self@[wit[t]].to_set(),
                ));
            }
        }
        true
    }

    /// Canonicalize in this draft's way: keep each clause that no clause
    /// kept before it implies.
    #[verifier::loop_isolation(false)]
    pub fn to_lnf(&mut self)
        ensures
            final(self)@ == draft_lnf(old(self)@),
    {
        let ghost sv = self@;
        let mut v: Vec<Disjunction> = Vec::new();
        let mut i: usize = 0;
        while i < self.0.len()
            invariant
                i <= self.0.len(),
                self@ == sv,
                v.deep_view() == draft_lnf(sv.take(i as int)),
            decreases self.0.len() - i,
        {
            proof {
                assert(self.0@[i as int]@ == sv[i as int]);
                assert(sv.take(i + 1).drop_last() =~= sv.take(i as int));
                assert(sv.take(i + 1).last() == sv[i as int]);
            }
            let ghost prev = v.deep_view();
            let mut j: usize = 0;
            let mut dropped = false;
            while j < v.len() && !dropped
                invariant
                    j <= v.len(),
                    v.deep_view() == prev,
                    dropped ==> exists|t: int|
                        0 <= t < prev.len() && draft_implies(
                            (#[trigger] prev[t]).to_set(),
                            sv[i as int].to_set(),
                        ),
                    !dropped ==> forall|t: int|
                        0 <= t < j ==> !draft_implies(
                            (#[trigger] prev[t]).to_set(),
                            sv[i as int].to_set(),
                        ),
                    i < self.0.len(),
                decreases v.len() - j,
            {
                proof {
                    assert(v@[j as int]@ == prev[j as int]);
                }
                if v[j].implies(&self.0[i]) {
                    dropped = true;
                }
                j += 1;
            }
            if !dropped {
                let c = self.0[i].clone();
                v.push(c);
                proof {
                    assert(v.deep_view() =~= prev.push(sv[i as int])) by {
                        assert forall|t: int| 0 <= t < v.deep_view().len()
                            implies v.deep_view()[t] == prev.push(sv[i as int])[t] by {
                            assert(v.deep_view()[t] == v@[t]@);
                        }
                    }
                }
            }
            i += 1;
        }
        proof {
            assert(sv.take(sv.len() as int) =~= sv);
        }
        self.0 = v;
    }

    /// The conjunction of two conjunctions: fold the right one's clauses
    /// into the left one, in order.
    #[verifier::loop_isolation(false)]
    pub fn and(self, rhs: Self) -> (r: Self)
        ensures
            r@ == draft_and(self@, rhs@),
    {
        let ghost s0 = self@;
        let ghost rseq = rhs@;
        let mut acc = self;
        proof {
            assert(rseq.skip(0) =~= rseq);
        }
        let mut j: usize = 0;
        while j < rhs.0.len()
            invariant
                j <= rhs.0.len(),
                draft_and(acc@, rseq.skip(j as int)) == draft_and(s0, rseq),
            decreases rhs.0.len() - j,
        {
            proof {
                assert(rhs.0@[j as int]@ == rseq[j as int]);
                assert(rseq.skip(j as int)[0] == rseq[j as int]);
                assert(rseq.skip(j as int).drop_first() =~= rseq.skip(j + 1));
            }
            let d = rhs.0[j].clone();
            acc = acc.add(d);
            j += 1;
        }
        proof {
            assert(rseq.skip(rseq.len() as int) =~= Seq::<Seq<Seq<char>>>::empty());
        }
        acc
    }
}

} // verus!
