use label::conjunction::Conjunction as DraftConjunction;
use label::dclabel::Conjunction;
use label::dclabel::Disjunction;
use label::disjunction::Disjunction as DraftDisjunction;

#[test]
fn fail() {
    assert!(true);
}

#[test]
fn false_is_top() {
    let l1 = Conjunction::mk_true().and_principal("");
    let l2 = Conjunction::mk_false();
    assert!(l2.implies(&l1), "{:?} ==> {:?}", l2, l1);
}

#[test]
fn true_is_bottom() {
    let l1 = Conjunction::mk_true();
    let l2 = Conjunction::mk_true().and_principal("");
    assert!(l2.implies(&l1), "{:?} ==> {:?}", l2, l1);
}

#[test]
fn two_implies_one() {
    let l1 = Conjunction::mk_true().and_principal("0");
    let l2 = Conjunction::mk_true().and_principal("").and_principal("0");
    assert!(l2.implies(&l1), "{:?} ==> {:?}", l2, l1);
}

#[test]
fn conjunction_false_or_not_false_is_not_false() {
    let l1 = Conjunction::mk_true().and_principal("");
    let l2 = Conjunction::mk_false();
    assert_eq!(l1.clone().or(&l2.clone()), l1);
}

#[test]
fn false_or_multi_is_multi() {
    let l1 = Conjunction::mk_true().and_principal("").and_principal("0");
    let l2 = Conjunction::mk_false();
    assert_eq!(l2.or(&l1), l1);
}

#[test]
fn lnf_reduction_keeps_strongest_clause() {
    let a = Disjunction::mk_false().add("a");
    let ab = Disjunction::mk_false().add("a").add("b");
    let abc = Disjunction::mk_false().add("a").add("b").add("c");

    let c = Conjunction::mk_true().add(a.clone()).add(ab).add(abc);
    assert_eq!(c, Conjunction::mk_true().add(a));
}

#[test]
fn logically_equal_builds_are_structurally_equal() {
    let a = Disjunction::mk_false().add("a");
    let ab = Disjunction::mk_false().add("a").add("b");

    let one = Conjunction::mk_true().add(ab.clone()).add(a.clone());
    let other = Conjunction::mk_true().add(a.clone()).add(ab.clone());
    assert_eq!(one, other);
    assert_eq!(one, Conjunction::mk_true().add(a));
}

#[test]
fn and_collects_clauses() {
    let left = Conjunction::mk_true().and_principal("a");
    let right = Conjunction::mk_true().and_principal("b");
    let both = Conjunction::mk_true().and_principal("a").and_principal("b");

    assert_eq!(left.clone().and(right.clone()), both);
    assert_eq!(right.and(left), both);
}

#[test]
fn or_distributes_over_clauses() {
    // (a /\ b) \/ (c) == (a \/ c) /\ (b \/ c)
    let left = Conjunction::mk_true().and_principal("a").and_principal("b");
    let right = Conjunction::mk_true().and_principal("c");
    let expected = Conjunction::mk_true()
        .add(Disjunction::mk_false().add("a").add("c"))
        .add(Disjunction::mk_false().add("b").add("c"));

    assert_eq!(left.or(&right), expected);
}

#[test]
fn or_with_true_is_true() {
    let truth = Conjunction::mk_true();
    let some = Conjunction::mk_true().and_principal("a");

    assert_eq!(truth.clone().or(&some), truth);
    assert_eq!(some.or(&truth), truth);
}

#[test]
fn to_lnf_is_idempotent() {
    let mut c = Conjunction::mk_true()
        .add(Disjunction::mk_false().add("a").add("b"))
        .add(Disjunction::mk_false().add("c"));
    let once = {
        c.to_lnf();
        c.clone()
    };
    c.to_lnf();
    assert_eq!(c, once);
}

#[test]
fn conjunction_debug_forms() {
    assert_eq!(Conjunction::mk_true().debug_string(), "True");
    assert_eq!(Conjunction::mk_false().debug_string(), "False");

    let c = Conjunction::mk_true().and_principal("a").and_principal("b");
    assert_eq!(c.debug_string(), "a /\\ b");
}

#[test]
fn draft_add_drops_weaker_clauses() {
    let a = DraftDisjunction::empty().add("a");
    let ab = DraftDisjunction::empty().add("a").add("b");

    let c = DraftConjunction::empty().add(ab).add(a.clone());
    assert_eq!(c, DraftConjunction::empty().add(a));
}

#[test]
fn draft_and_respects_draft_implication() {
    let a = DraftDisjunction::empty().add("a");
    let ab = DraftDisjunction::empty().add("a").add("b");

    // the broader clause is already implied, so AND-ing it changes nothing
    let c = DraftConjunction::empty().add(a.clone());
    let combined = c.clone().and(DraftConjunction::empty().add(ab));
    assert_eq!(combined, c);
}

#[test]
fn draft_to_lnf_leaves_reduced_unchanged() {
    let a = DraftDisjunction::empty().add("a");
    let cd = DraftDisjunction::empty().add("c").add("d");

    let mut c = DraftConjunction::empty().add(a).add(cd);
    let before = c.clone();
    c.to_lnf();
    assert_eq!(c, before);
}
