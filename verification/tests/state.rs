use concord::state::{Life, Node, Origin, Weight};

#[test]
fn weight_parse_reads_each_name() {
    assert_eq!(Weight::parse("unknown").unwrap(), Weight::Unknown);
    assert_eq!(Weight::parse("context").unwrap(), Weight::Context);
    assert_eq!(Weight::parse("sequence").unwrap(), Weight::Sequence);
    assert_eq!(Weight::parse("required").unwrap(), Weight::Required);
}

#[test]
fn weight_names_read_back() {
    for w in [Weight::Unknown, Weight::Context, Weight::Sequence, Weight::Required] {
        assert_eq!(Weight::parse(w.name()).unwrap(), w);
    }
    for o in [Origin::Declared, Origin::Legacy] {
        assert_eq!(Origin::parse(o.name()).unwrap(), o);
    }
}

#[test]
fn weight_refuses_other_text() {
    let e = Weight::parse("urgent").unwrap_err();
    assert_eq!(e.code.as_deref(), Some("concord.dependency.weight"));
    assert_eq!(e.message, "invalid dependency weight urgent");
    let e = Origin::parse("todo").unwrap_err();
    assert_eq!(e.code.as_deref(), Some("concord.dependency.origin"));
    assert_eq!(e.message, "invalid dependency origin todo");
    let e = Life::parse("dead").unwrap_err();
    assert_eq!(e.code.as_deref(), Some("concord.task.life"));
    assert_eq!(e.message, "invalid task life dead");
}

#[test]
fn weights_are_ordered() {
    assert!(Weight::Required.reaches(Weight::Sequence));
    assert!(Weight::Sequence.reaches(Weight::Context));
    assert!(Weight::Context.reaches(Weight::Unknown));
    assert!(!Weight::Unknown.reaches(Weight::Context));
    assert!(Weight::Context.reaches(Weight::Context));
    assert_eq!(Weight::Required.rank(), 3);
}

#[test]
fn life_parses_its_names() {
    assert_eq!(Life::parse("active").unwrap(), Life::Active);
    assert_eq!(Life::parse("retired").unwrap(), Life::Retired);
}

#[test]
fn identity_joins_domain_and_name() {
    let n = Node { key: 1, domain: "perish.code".to_string(), name: "ship".to_string(), life: Life::Active, revision: 0 };
    assert_eq!(n.identity(), "perish.code/ship");
}
