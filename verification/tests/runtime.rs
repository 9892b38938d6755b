use label::dclabel::Conjunction;
use label::dclabel::DCLabel;
use label::labeled::Labeled;
use label::runtime::LabeledRead;
use label::runtime::LabeledWrite;
use label::runtime::TaskState;
use label::runtime::current_label;
use label::runtime::guard_alloc;
use label::runtime::guard_write;
use label::runtime::taint;

fn secrecy_of(p: &str) -> DCLabel {
    DCLabel::new(Conjunction::from_principal(p), Conjunction::from_bool(true))
}

#[test]
fn fresh_task_is_public() {
    let task = TaskState::new();
    assert_eq!(current_label(&task), DCLabel::public());
}

#[test]
fn taint_is_monotone() {
    let mut task = TaskState::new();
    let amit = secrecy_of("amit");

    let before = current_label(&task);
    taint(&mut task, &amit);
    let after = current_label(&task);

    assert!(before.can_flow_to(&after));
    assert!(amit.can_flow_to(&after));
    assert_eq!(after, amit);
}

#[test]
fn taint_accumulation() {
    let mut task = TaskState::new();
    let amit = Labeled::labeled(1u32, secrecy_of("amit"));
    let bob = Labeled::labeled(2u32, secrecy_of("bob"));

    assert_eq!(*amit.unlabel_read(&mut task), 1);
    assert_eq!(*bob.unlabel_read(&mut task), 2);

    let expected = DCLabel::new(
        Conjunction::mk_true().and_principal("amit").and_principal("bob"),
        Conjunction::from_bool(true),
    );
    assert_eq!(current_label(&task), expected);
}

#[test]
fn unlabel_read_raises_above_the_label() {
    let mut task = TaskState::new();
    let x = Labeled::labeled("payload".to_string(), secrecy_of("amit"));

    let data = x.unlabel_read(&mut task);
    assert_eq!(data, "payload");
    assert!(x.label().can_flow_to(&current_label(&task)));
}

#[test]
fn label_read_does_not_taint() {
    let task = TaskState::new();
    let x = Labeled::labeled(7u32, secrecy_of("amit"));

    assert_eq!(*x.label(), secrecy_of("amit"));
    assert_eq!(current_label(&task), DCLabel::public());
}

#[test]
fn guard_alloc_checks_the_flow() {
    let mut task = TaskState::new();
    assert!(guard_alloc(&task, &secrecy_of("bob")).is_ok());

    taint(&mut task, &secrecy_of("amit"));
    assert!(guard_alloc(&task, &secrecy_of("bob")).is_err());
    assert!(guard_alloc(&task, &current_label(&task)).is_ok());
}

#[test]
fn guard_write_taints_on_success() {
    let mut task = TaskState::new();
    let bob = secrecy_of("bob");

    assert!(guard_write(&mut task, &bob).is_ok());
    assert_eq!(current_label(&task), bob);
}

#[test]
fn write_rejection() {
    let mut task = TaskState::new();
    taint(&mut task, &secrecy_of("amit"));

    let mut container = Labeled::labeled(0u32, secrecy_of("bob"));
    let r = container.unlabel_write(&mut task);
    assert!(r.is_err());
    assert_eq!(current_label(&task), secrecy_of("amit"));
}

#[test]
fn write_success_taints_and_grants_access() {
    let mut task = TaskState::new();
    let mut container = Labeled::labeled(0u32, secrecy_of("bob"));

    {
        let r = container.unlabel_write(&mut task);
        assert!(r.is_ok());
        *r.unwrap() = 41;
    }
    assert_eq!(current_label(&task), secrecy_of("bob"));
    assert_eq!(*container.unlabel_read(&mut task), 41);
}

#[test]
fn cross_task_isolation() {
    let mut t1 = TaskState::new();
    let t2 = TaskState::new();

    let secret = Labeled::labeled(42u32, secrecy_of("amit"));
    let shared = secret.clone();

    assert_eq!(*secret.unlabel_read(&mut t1), 42);
    assert_eq!(current_label(&t1), secrecy_of("amit"));

    // the other task holds a clone of the container, but its own current
    // label is untouched until it unlabels
    assert_eq!(*shared.label(), secrecy_of("amit"));
    assert_eq!(current_label(&t2), DCLabel::public());
}

#[test]
fn labeled_primitives_expose_data_and_label() {
    let mut x = Labeled::labeled(3u32, secrecy_of("amit"));
    {
        let (d, l) = x.unlabel();
        assert_eq!(*d, 3);
        assert_eq!(*l, secrecy_of("amit"));
    }
    {
        let (d, l) = x.unlabel_mut();
        assert_eq!(*l, secrecy_of("amit"));
        *d = 4;
    }
    let (d, _) = x.unlabel();
    assert_eq!(*d, 4);
}
