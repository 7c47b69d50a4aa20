use sniffer::{
    assign, AssignFailure, Atom, DerivationTree, IdentifierServer, InnerAtom, InnerRule,
    InnerTerm, LoadError, Rule, SaturationFailure, Sniffer, Term, UnknownIdentifier,
};

fn c(name: &str) -> Term {
    Term::Constant(name.to_string())
}

fn v(name: &str) -> Term {
    Term::Variable(name.to_string())
}

fn atom(predicate: &str, arguments: Vec<Term>) -> Atom {
    Atom { predicate: predicate.to_string(), arguments }
}

fn fact(conclusion: Atom) -> Rule {
    Rule { premises: vec![], conclusion }
}

fn rule(premises: Vec<Atom>, conclusion: Atom) -> Rule {
    Rule { premises, conclusion }
}

fn show(a: &Atom) -> String {
    let args: Vec<String> = a
        .arguments
        .iter()
        .map(|t| match t {
            Term::Constant(s) => s.clone(),
            Term::Variable(s) => format!("?{}", s),
        })
        .collect();
    format!("{}({})", a.predicate, args.join(","))
}

fn shape(t: &DerivationTree) -> String {
    if t.children.is_empty() {
        show(&t.atom)
    } else {
        let kids: Vec<String> = t.children.iter().map(shape).collect();
        format!("{}[{}]", show(&t.atom), kids.join(";"))
    }
}

fn birds() -> Sniffer {
    let records = vec![
        fact(atom("bird", vec![c("tweety")])),
        rule(vec![atom("bird", vec![v("X")])], atom("flies", vec![v("X")])),
    ];
    Sniffer::new(&records).ok().unwrap()
}

fn family() -> Sniffer {
    let records = vec![
        fact(atom("parent", vec![c("ann"), c("bob")])),
        fact(atom("parent", vec![c("bob"), c("cid")])),
        rule(
            vec![atom("parent", vec![v("X"), v("Y")]), atom("parent", vec![v("Y"), v("Z")])],
            atom("grandparent", vec![v("X"), v("Z")]),
        ),
    ];
    Sniffer::new(&records).ok().unwrap()
}

#[test]
fn flies_tweety_has_one_level_tree() {
    let mut s = birds();
    let t = s.find(&atom("flies", vec![c("tweety")])).ok().unwrap();
    assert_eq!(shape(&t), "flies(tweety)[bird(tweety)]");
    assert_eq!(t.children.len(), 1);
    assert!(t.children[0].children.is_empty());
}

#[test]
fn flies_polly_is_saturated() {
    let mut s = birds();
    let r = s.find(&atom("flies", vec![c("polly")]));
    assert!(matches!(r, Err(SaturationFailure::Saturated)));
}

#[test]
fn grandparent_has_two_leaf_children() {
    let mut s = family();
    let t = s.find(&atom("grandparent", vec![c("ann"), c("cid")])).ok().unwrap();
    assert_eq!(shape(&t), "grandparent(ann,cid)[parent(ann,bob);parent(bob,cid)]");
    assert!(t.children.iter().all(|k| k.children.is_empty()));
}

#[test]
fn unbound_conclusion_never_becomes_a_fact() {
    let records = vec![
        fact(atom("p", vec![c("a")])),
        rule(vec![atom("p", vec![v("X")])], atom("q", vec![v("X"), v("Y")])),
        rule(vec![atom("p", vec![v("X")])], atom("r", vec![v("X")])),
    ];
    let mut s = Sniffer::new(&records).ok().unwrap();
    let r = s.find(&atom("q", vec![c("a"), c("b")]));
    assert!(matches!(r, Err(SaturationFailure::Saturated)));
    assert!(s.derivation_tree(&atom("q", vec![c("a"), v("Y")])).is_none());
    // The search went on past the rejected application.
    assert!(s.derivation_tree(&atom("r", vec![c("a")])).is_some());
}

#[test]
fn query_twice_gives_same_tree() {
    let mut s = family();
    let goal = atom("grandparent", vec![c("ann"), c("cid")]);
    let first = shape(&s.find(&goal).ok().unwrap());
    let second = shape(&s.find(&goal).ok().unwrap());
    assert_eq!(first, second);
}

#[test]
fn round_keeps_every_fact() {
    let mut s = family();
    let before = atom("parent", vec![c("ann"), c("bob")]);
    assert!(s.derivation_tree(&before).is_some());
    assert!(s.saturate().is_ok());
    assert!(s.derivation_tree(&before).is_some());
    assert!(s.derivation_tree(&atom("grandparent", vec![c("ann"), c("cid")])).is_some());
}

#[test]
fn empty_round_reports_saturated() {
    let mut s = birds();
    assert!(s.saturate().is_ok());
    assert!(matches!(s.saturate(), Err(SaturationFailure::Saturated)));
    assert!(matches!(s.saturate(), Err(SaturationFailure::Saturated)));
    let r = s.find(&atom("bird", vec![c("polly")]));
    assert!(matches!(r, Err(SaturationFailure::Saturated)));
}

#[test]
fn chained_rules_build_deep_tree() {
    let records = vec![
        fact(atom("a", vec![c("x")])),
        rule(vec![atom("a", vec![v("X")])], atom("b", vec![v("X")])),
        rule(vec![atom("b", vec![v("X")])], atom("c", vec![v("X")])),
    ];
    let mut s = Sniffer::new(&records).ok().unwrap();
    let t = s.find(&atom("c", vec![c("x")])).ok().unwrap();
    assert_eq!(shape(&t), "c(x)[b(x)[a(x)]]");
}

#[test]
fn seed_fact_is_a_leaf() {
    let mut s = birds();
    let t = s.find(&atom("bird", vec![c("tweety")])).ok().unwrap();
    assert_eq!(shape(&t), "bird(tweety)");
}

#[test]
fn non_ground_seed_is_refused() {
    let records = vec![fact(atom("bird", vec![v("X")]))];
    assert!(matches!(Sniffer::new(&records), Err(LoadError::NonGroundAxiom)));
}

#[test]
fn unknown_names_are_not_facts() {
    let s = birds();
    assert!(s.derivation_tree(&atom("fish", vec![c("nemo")])).is_none());
    assert!(s.derivation_tree(&atom("bird", vec![c("tweety"), c("extra")])).is_none());
}

#[test]
fn added_facts_must_be_admissible() {
    let mut s = Sniffer::empty();
    let p = InnerAtom { predicate: 0, arguments: vec![] };
    // Identifier 0 has no name yet.
    assert!(!s.add_derived_axiom(p, vec![]));
    let mut s = birds();
    // bird = 0, tweety = 1, flies = 2 in order of first sight.
    let bird = InnerAtom { predicate: 0, arguments: vec![InnerTerm::Const(1)] };
    let flies = InnerAtom { predicate: 2, arguments: vec![InnerTerm::Const(1)] };
    let dup = InnerAtom { predicate: 0, arguments: vec![InnerTerm::Const(1)] };
    assert!(!s.add_derived_axiom(dup, vec![]));
    let wrong = InnerAtom { predicate: 2, arguments: vec![InnerTerm::Const(2)] };
    let prem = InnerAtom { predicate: 0, arguments: vec![InnerTerm::Const(1)] };
    assert!(!s.add_derived_axiom(wrong, vec![prem]));
    assert!(s.add_derived_axiom(flies, vec![bird]));
    let t = s.derivation_tree(&atom("flies", vec![c("tweety")])).unwrap();
    assert_eq!(shape(&t), "flies(tweety)[bird(tweety)]");
}

#[test]
fn inner_rules_must_be_well_formed() {
    let mut s = birds();
    let no_premises = InnerRule {
        premises: vec![],
        conclusion: InnerAtom { predicate: 0, arguments: vec![] },
        var_names: vec![],
    };
    assert!(!s.add_inner_rule(no_premises));
    let bad_var = InnerRule {
        premises: vec![InnerAtom { predicate: 0, arguments: vec![InnerTerm::Var(3)] }],
        conclusion: InnerAtom { predicate: 2, arguments: vec![InnerTerm::Var(3)] },
        var_names: vec!["X".to_string()],
    };
    assert!(!s.add_inner_rule(bad_var));
    // bird(X) => flies(X) is already in the rule set.
    let same = InnerRule {
        premises: vec![InnerAtom { predicate: 0, arguments: vec![InnerTerm::Var(0)] }],
        conclusion: InnerAtom { predicate: 2, arguments: vec![InnerTerm::Var(0)] },
        var_names: vec!["X".to_string()],
    };
    assert!(!s.add_inner_rule(same));
    // flies(X) => bird(X) is new.
    let back = InnerRule {
        premises: vec![InnerAtom { predicate: 2, arguments: vec![InnerTerm::Var(0)] }],
        conclusion: InnerAtom { predicate: 0, arguments: vec![InnerTerm::Var(0)] },
        var_names: vec!["X".to_string()],
    };
    assert!(s.add_inner_rule(back));
    assert_eq!(s.rules_to_string(), "\tbird(X) => flies(X)\n\tflies(X) => bird(X)\n");
    assert!(s.find(&atom("flies", vec![c("tweety")])).is_ok());
}

#[test]
fn assign_reports_each_failure() {
    let r = InnerRule {
        premises: vec![
            InnerAtom { predicate: 0, arguments: vec![InnerTerm::Var(0), InnerTerm::Var(1)] },
            InnerAtom { predicate: 0, arguments: vec![InnerTerm::Var(1), InnerTerm::Var(2)] },
        ],
        conclusion: InnerAtom { predicate: 1, arguments: vec![InnerTerm::Var(0), InnerTerm::Var(2)] },
        var_names: vec!["X".to_string(), "Y".to_string(), "Z".to_string()],
    };
    let f = |a: usize, b: usize| InnerAtom {
        predicate: 0,
        arguments: vec![InnerTerm::Const(a), InnerTerm::Const(b)],
    };
    let ok = assign(&r, &vec![f(5, 6), f(6, 7)]).ok().unwrap();
    assert_eq!(ok.predicate, 1);
    assert_eq!(ok.arguments, vec![InnerTerm::Const(5), InnerTerm::Const(7)]);
    assert!(matches!(assign(&r, &vec![f(5, 6), f(8, 7)]), Err(AssignFailure::PremiseMismatch)));
    assert!(matches!(assign(&r, &vec![f(5, 6)]), Err(AssignFailure::PremiseMismatch)));
    let loose = InnerRule {
        premises: vec![InnerAtom { predicate: 0, arguments: vec![InnerTerm::Var(0)] }],
        conclusion: InnerAtom { predicate: 1, arguments: vec![InnerTerm::Var(1)] },
        var_names: vec!["X".to_string(), "Y".to_string()],
    };
    let one = InnerAtom { predicate: 0, arguments: vec![InnerTerm::Const(4)] };
    assert!(matches!(assign(&loose, &vec![one]), Err(AssignFailure::UnboundConclusion)));
}

#[test]
fn interner_is_idempotent() {
    let mut ids = IdentifierServer::new();
    let a = ids.intern(&"alpha".to_string());
    let b = ids.intern(&"beta".to_string());
    assert_ne!(a, b);
    assert_eq!(ids.intern(&"alpha".to_string()), a);
    assert_eq!(ids.resolve(b).ok().unwrap(), "beta");
    assert!(matches!(ids.resolve(7), Err(UnknownIdentifier)));
    assert_eq!(ids.lookup(&"gamma".to_string()), None);
}

#[test]
fn rules_are_listed_as_text() {
    let s = family();
    assert_eq!(s.rules_to_string(), "\tparent(X, Y), parent(Y, Z) => grandparent(X, Z)\n");
}

#[test]
fn facts_are_listed_as_text() {
    let mut s = birds();
    assert_eq!(s.axioms_to_string(), "\tbird(tweety)\n");
    assert!(s.find(&atom("flies", vec![c("tweety")])).is_ok());
    assert_eq!(s.axioms_to_string(), "\tbird(tweety)\n\tflies(tweety)\n");
}

#[test]
fn justifications_are_listed_as_text() {
    let mut s = family();
    assert!(s.find(&atom("grandparent", vec![c("ann"), c("cid")])).is_ok());
    assert_eq!(
        s.derived_from_to_string(),
        "\tparent(ann, bob):\n\tparent(bob, cid):\n\tgrandparent(ann, cid):\n\t\tparent(ann, bob)\n\t\tparent(bob, cid)\n"
    );
}

#[test]
fn surface_listings_follow_insertion_order() {
    let s = family();
    let facts: Vec<String> = s.axioms().iter().map(show).collect();
    assert_eq!(facts, vec!["parent(ann,bob)", "parent(bob,cid)"]);
    let rules = s.generative_rules();
    assert_eq!(rules.len(), 1);
    assert_eq!(show(&rules[0].conclusion), "grandparent(?X,?Z)");
}

#[test]
fn whole_state_as_text() {
    let s = birds();
    assert_eq!(
        s.to_string(),
        "Rules:\n\tbird(X) => flies(X)\nAxioms: \n\tbird(tweety)\nDerived from: \n\tbird(tweety):\n"
    );
}

#[test]
fn duplicate_records_are_kept_once() {
    let records = vec![
        fact(atom("bird", vec![c("tweety")])),
        fact(atom("bird", vec![c("tweety")])),
        rule(vec![atom("bird", vec![v("X")])], atom("flies", vec![v("X")])),
        rule(vec![atom("bird", vec![v("X")])], atom("flies", vec![v("X")])),
    ];
    let s = Sniffer::new(&records).ok().unwrap();
    assert_eq!(s.axioms_to_string(), "\tbird(tweety)\n");
    assert_eq!(s.rules_to_string(), "\tbird(X) => flies(X)\n");
}
