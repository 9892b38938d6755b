use label::dclabel::Disjunction;
use label::disjunction::Disjunction as DraftDisjunction;

#[test]
fn display_false() {
    let d = Disjunction::mk_false();

    assert_eq!(d.display_string(), "()");
}

#[test]
fn display_one_principal() {
    let d = Disjunction::mk_false().add("foo");

    assert_eq!(d.display_string(), "(foo)");
}

#[test]
fn display_two_principals() {
    let d = Disjunction::mk_false().add("foo").add("bar");

    assert_eq!(d.display_string(), "(bar \\/ foo)");
}

#[test]
fn display_three_principals() {
    let d = Disjunction::mk_false().add("foo").add("bar").add("baz");

    assert_eq!(d.display_string(), "(bar \\/ baz \\/ foo)");
}

#[test]
fn false_implies_false() {
    let d0 = Disjunction::mk_false();
    let d1 = Disjunction::mk_false();

    assert!(d1.implies(&d0));
}

#[test]
fn non_false_doesnt_imply_false() {
    let d0 = Disjunction::mk_false();
    let d1 = Disjunction::mk_false().add("foo");

    assert!(!d1.implies(&d0));
}

#[test]
fn false_implies_non_false() {
    let d0 = Disjunction::mk_false().add("foo");
    let d1 = Disjunction::mk_false();

    assert!(d1.implies(&d0), "false should imply non-false values");
}

#[test]
fn disjunction_false_or_not_false_is_not_false() {
    let d0 = Disjunction::mk_false().add("0");
    let d1 = Disjunction::mk_false();

    assert_eq!(d1.or(&d0), d0);
}

#[test]
fn disjunction_display_false() {
    let d = DraftDisjunction::empty();

    assert_eq!(d.display_string(), "()");
}

#[test]
fn disjunction_display_one_principal() {
    let d = DraftDisjunction::empty().add("foo");

    assert_eq!(d.display_string(), "(foo)");
}

#[test]
fn disjunction_display_two_principals() {
    let d = DraftDisjunction::empty().add("foo").add("bar");

    assert_eq!(d.display_string(), "(bar \\/ foo)");
}

#[test]
fn disjunction_display_three_principals() {
    let d = DraftDisjunction::empty().add("foo").add("bar").add("baz");

    assert_eq!(d.display_string(), "(bar \\/ baz \\/ foo)");
}

#[test]
fn disjunction_false_implies_false() {
    let d0 = DraftDisjunction::empty();
    let d1 = DraftDisjunction::empty();

    assert!(d1.implies(&d0));
}

#[test]
fn non_false_implies_false() {
    let d0 = DraftDisjunction::empty();
    let d1 = DraftDisjunction::empty().add("foo");

    assert!(d1.implies(&d0));
}

#[test]
fn false_doesnt_imply_non_false() {
    let d0 = DraftDisjunction::empty().add("foo");
    let d1 = DraftDisjunction::empty();

    assert!(!d1.implies(&d0), "false should not imply non-false values");
}

#[test]
fn subset_implies_superset() {
    let d0 = Disjunction::mk_false().add("a").add("b").add("c");
    let d1 = Disjunction::mk_false().add("a").add("b");

    assert!(d1.implies(&d0));
    assert!(!d0.implies(&d1));
}

#[test]
fn or_is_union() {
    let d0 = Disjunction::mk_false().add("a").add("b");
    let d1 = Disjunction::mk_false().add("b").add("c");
    let both = Disjunction::mk_false().add("a").add("b").add("c");

    assert_eq!(d0.or(&d1), both);
    assert_eq!(d1.or(&d0), both);
}

#[test]
fn add_is_idempotent_on_membership() {
    let d0 = Disjunction::mk_false().add("a").add("a");
    let d1 = Disjunction::mk_false().add("a");

    assert_eq!(d0, d1);
    assert_eq!(d0.len(), 1);
}

#[test]
fn debug_false_and_joined() {
    let d = Disjunction::mk_false();
    assert_eq!(d.debug_string(), "False");

    let d = Disjunction::mk_false().add("foo").add("bar");
    assert_eq!(d.debug_string(), "bar \\/ foo");
}

#[test]
fn draft_or_is_union() {
    let d0 = DraftDisjunction::empty().add("a");
    let d1 = DraftDisjunction::empty().add("b");
    let both = DraftDisjunction::empty().add("a").add("b");

    assert_eq!(d0.or(&d1), both);
    assert_eq!(d1.or(&d0), both);
}
