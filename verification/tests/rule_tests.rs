use graph_creation::rule::{Pattern, PatternError, Rule, Variable};

#[test]
fn test_rule() {
    let find_pattern = vec![
        vec![Variable::a, Variable::b],
        vec![Variable::a, Variable::c],
        vec![Variable::b, Variable::c],
    ];

    let expected = vec![
        (Variable::a, vec![Variable::b, Variable::c]),
        (Variable::b, vec![Variable::c]),
    ];

    let requirements = Rule::get_find_pattern_requirements(&find_pattern);

    assert_eq!(requirements, expected);
}

#[test]
fn distinct_variables_first_seen_order() {
    let pattern = vec![
        vec![Variable::a, Variable::b, Variable::w],
        vec![Variable::a, Variable::c],
    ];
    let vars = Rule::get_distinct_variables_in_pattern(pattern);
    assert_eq!(vars, vec![Variable::a, Variable::b, Variable::w, Variable::c]);
}

#[test]
fn distinct_variables_of_empty_pattern() {
    let vars = Rule::get_distinct_variables_in_pattern(Vec::new());
    assert!(vars.is_empty());
}

#[test]
fn variables_to_create_are_the_new_ones() {
    let find = vec![vec![Variable::a, Variable::b]];
    let replace = vec![
        vec![Variable::a, Variable::x],
        vec![Variable::b, Variable::x],
    ];
    let created = Rule::find_variables_to_create(&find, replace);
    assert_eq!(created, vec![Variable::x]);
}

#[test]
fn variables_to_create_empty_when_all_present() {
    let find = vec![vec![Variable::a, Variable::b]];
    let replace = vec![vec![Variable::b, Variable::a]];
    let created = Rule::find_variables_to_create(&find, replace);
    assert!(created.is_empty());
}

#[test]
fn requirements_scan_every_occurrence() {
    // `a` occurs twice in one chain; both successors are recorded, and a
    // repeated pair keeps its multiplicity.
    let pattern = vec![vec![Variable::a, Variable::b, Variable::a, Variable::c]];
    let reqs = Rule::get_find_pattern_requirements(&pattern);
    assert_eq!(
        reqs,
        vec![
            (Variable::a, vec![Variable::b, Variable::c]),
            (Variable::b, vec![Variable::a]),
        ]
    );

    let doubled = vec![
        vec![Variable::a, Variable::b],
        vec![Variable::a, Variable::b],
    ];
    let reqs = Rule::get_find_pattern_requirements(&doubled);
    assert_eq!(reqs, vec![(Variable::a, vec![Variable::b, Variable::b])]);
}

#[test]
fn requirements_omit_variables_without_successor() {
    let pattern = vec![vec![Variable::a, Variable::b]];
    let reqs = Rule::get_find_pattern_requirements(&pattern);
    // `b` never has a successor: it is absent, not mapped to an empty list.
    assert_eq!(reqs, vec![(Variable::a, vec![Variable::b])]);
}

#[test]
fn pattern_new_accepts_well_formed() {
    let p = Pattern::new(vec![vec![Variable::a, Variable::b], vec![Variable::a]]).unwrap();
    assert_eq!(
        p.get_pattern(),
        vec![vec![Variable::a, Variable::b], vec![Variable::a]]
    );
    assert_eq!(
        p.get_distinct_variables_in_pattern(),
        vec![Variable::a, Variable::b]
    );
    assert_eq!(
        p.get_variable_requirements(),
        vec![(Variable::a, vec![Variable::b])]
    );
}

#[test]
fn pattern_new_rejects_no_chains() {
    let r = Pattern::new(Vec::new());
    assert_eq!(r.err(), Some(PatternError::MalformedPattern));
}

#[test]
fn pattern_new_rejects_empty_chain() {
    let r = Pattern::new(vec![vec![Variable::a, Variable::b], Vec::new()]);
    assert_eq!(r.err(), Some(PatternError::MalformedPattern));
}
