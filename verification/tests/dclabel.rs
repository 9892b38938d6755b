use label::dclabel::Conjunction;
use label::dclabel::DCLabel;
use label::dclabel::Disjunction;

fn secrecy_of(p: &str) -> DCLabel {
    DCLabel::new(Conjunction::from_principal(p), Conjunction::from_bool(true))
}

#[test]
fn bottom_flows_to_public() {
    assert!(DCLabel::bottom().can_flow_to(&DCLabel::public()));
}

#[test]
fn bottom_flows_to_top() {
    assert!(DCLabel::bottom().can_flow_to(&DCLabel::top()));
}

#[test]
fn public_flows_to_top() {
    assert!(DCLabel::public().can_flow_to(&DCLabel::top()));
}

#[test]
fn top_no_flows_to_public() {
    assert!(!DCLabel::top().can_flow_to(&DCLabel::public()));
}

#[test]
fn top_no_flows_to_bottom() {
    assert!(!DCLabel::top().can_flow_to(&DCLabel::bottom()));
}

#[test]
fn public_no_flows_to_bottom() {
    assert!(!DCLabel::public().can_flow_to(&DCLabel::bottom()));
}

#[test]
fn foobar() {
    {
        let l1 = DCLabel::top();
        let l2 = secrecy_of("");
        let ljoin = l1.join(&l2);
        assert_eq!(ljoin, l1);
        assert_eq!(ljoin, l2.join(&l1));
        assert!(l1.can_flow_to(&ljoin), "{:?} <= {:?}", l1, ljoin);
        assert!(l2.can_flow_to(&ljoin), "{:?} <= {:?}", l2, ljoin);
    }

    {
        let l1 = DCLabel::bottom();
        let l2 = secrecy_of("");
        let ljoin = l1.join(&l2);
        assert_eq!(ljoin, l2);
        assert_eq!(ljoin, l2.join(&l1));
        assert!(l1.can_flow_to(&ljoin), "{:?} <= {:?}", l1, ljoin);
        assert!(l2.can_flow_to(&ljoin), "{:?} <= {:?}", l2, ljoin);
    }

    {
        let l1 = secrecy_of("0");
        let l2 = secrecy_of("");
        let ljoin = l1.join(&l2);
        assert_eq!(ljoin, l2.join(&l1));
        assert!(l1.can_flow_to(&ljoin), "{:?} <= {:?}", l1, ljoin);
        assert!(l2.can_flow_to(&ljoin), "{:?} <= {:?}", l2, ljoin);
    }
}

#[test]
fn barbaz() {
    {
        let l1 = DCLabel::top();
        let l2 = secrecy_of("");
        let lmeet = l1.meet(&l2);
        assert_eq!(lmeet, l2);
        assert_eq!(lmeet, l2.meet(&l1));
    }

    {
        let l1 = DCLabel::public();
        let l2 = DCLabel::new(
            Conjunction::mk_false().or_principal("test1").or_principal("test2").and_principal(
                "test3",
            ),
            Conjunction::mk_false().or_principal("test4").or_principal("test5").and_principal(
                "test6",
            ),
        );
        let lmeet = l1.meet(&l2);
        assert_eq!(lmeet, l2.meet(&l1));
        assert!(lmeet.can_flow_to(&l1));
        assert!(lmeet.can_flow_to(&l2));
    }

    {
        let l1 = DCLabel::top();
        let l2 = DCLabel::bottom();
        let lmeet = l1.meet(&l2);
        assert_eq!(lmeet, l2);
        assert_eq!(lmeet, l2.meet(&l1));
    }
}

#[test]
fn two_principal_join() {
    let a = secrecy_of("amit");
    let b = secrecy_of("bob");
    let joined = a.join(&b);

    let expected = DCLabel::new(
        Conjunction::mk_true().and_principal("amit").and_principal("bob"),
        Conjunction::from_bool(true),
    );
    assert_eq!(joined, expected);
    assert!(a.can_flow_to(&joined));
    assert!(!joined.can_flow_to(&a));
}

#[test]
fn flow_is_reflexive() {
    for l in [DCLabel::public(), DCLabel::top(), DCLabel::bottom(), secrecy_of("amit")] {
        assert!(l.can_flow_to(&l));
    }
}

#[test]
fn flow_is_antisymmetric() {
    let one = DCLabel::new(
        Conjunction::mk_true().add(Disjunction::mk_false().add("a").add("b")),
        Conjunction::from_bool(true),
    );
    let other = DCLabel::new(
        Conjunction::mk_true().add(Disjunction::mk_false().add("b").add("a")),
        Conjunction::from_bool(true),
    );
    assert!(one.can_flow_to(&other));
    assert!(other.can_flow_to(&one));
    assert_eq!(one, other);
}

#[test]
fn flow_is_transitive() {
    let l1 = DCLabel::bottom();
    let l2 = DCLabel::public();
    let l3 = secrecy_of("amit");
    assert!(l1.can_flow_to(&l2));
    assert!(l2.can_flow_to(&l3));
    assert!(l1.can_flow_to(&l3));
}

#[test]
fn join_is_commutative() {
    let a = DCLabel::new(Conjunction::from_principal("x"), Conjunction::from_principal("i"));
    let b = DCLabel::new(
        Conjunction::mk_false().or_principal("y").or_principal("z"),
        Conjunction::from_bool(true),
    );
    assert_eq!(a.join(&b), b.join(&a));
}

#[test]
fn meet_is_commutative() {
    let a = DCLabel::new(Conjunction::from_principal("x"), Conjunction::from_principal("i"));
    let b = DCLabel::new(
        Conjunction::mk_false().or_principal("y").or_principal("z"),
        Conjunction::from_bool(true),
    );
    assert_eq!(a.meet(&b), b.meet(&a));
}

#[test]
fn join_is_upper_bound_and_meet_is_lower_bound() {
    let a = DCLabel::new(Conjunction::from_principal("x"), Conjunction::from_principal("i"));
    let b = secrecy_of("y");
    let j = a.join(&b);
    let m = a.meet(&b);

    assert!(a.can_flow_to(&j));
    assert!(b.can_flow_to(&j));
    assert!(m.can_flow_to(&a));
    assert!(m.can_flow_to(&b));
}

#[test]
fn absorption_laws() {
    let a = DCLabel::new(Conjunction::from_principal("x"), Conjunction::from_principal("i"));
    let b = DCLabel::new(
        Conjunction::mk_false().or_principal("y").or_principal("z"),
        Conjunction::from_bool(false),
    );

    assert_eq!(a.join(&a.meet(&b)), a);
    assert_eq!(a.meet(&a.join(&b)), a);
}
