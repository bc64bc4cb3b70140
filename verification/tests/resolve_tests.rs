use graph_creation::graph::Graph;
use graph_creation::resolve::Binding;
use graph_creation::rule::Variable;

fn binding_pairs(b: &Binding, vars: &[Variable]) -> Vec<(Variable, usize)> {
    vars.iter()
        .map(|var| (*var, b.get(*var).expect("variable should be bound")))
        .collect()
}

fn sorted_sets(results: &[Binding], vars: &[Variable]) -> Vec<Vec<(Variable, usize)>> {
    let mut sets: Vec<Vec<(Variable, usize)>> =
        results.iter().map(|b| binding_pairs(b, vars)).collect();
    sets.sort();
    sets
}

#[test]
fn scenario_single_match() {
    // Points {0,1,2,3} with relations 0->1, 0->2, 0->3, 1->3 and the
    // pattern [[a,b],[a,c],[a,d],[b,d]]: exactly one binding.
    let mut g = Graph::new();
    let p: Vec<usize> = (0..4).map(|_| g.create_point()).collect();
    g.create_relation(p[0], p[1]).unwrap();
    g.create_relation(p[0], p[2]).unwrap();
    g.create_relation(p[0], p[3]).unwrap();
    g.create_relation(p[1], p[3]).unwrap();
    let pattern = vec![
        vec![Variable::a, Variable::b],
        vec![Variable::a, Variable::c],
        vec![Variable::a, Variable::d],
        vec![Variable::b, Variable::d],
    ];
    let results = g.get_possible_variable_resolutions(&pattern);
    assert_eq!(results.len(), 1);
    let b = &results[0];
    assert_eq!(b.get(Variable::a), Some(p[0]));
    assert_eq!(b.get(Variable::b), Some(p[1]));
    assert_eq!(b.get(Variable::c), Some(p[2]));
    assert_eq!(b.get(Variable::d), Some(p[3]));
    assert_eq!(b.get(Variable::e), None);
}

#[test]
fn scenario_no_relations_no_match() {
    // A single chain [a,b] against a graph with no relations: empty result.
    let mut g = Graph::new();
    g.create_point();
    g.create_point();
    let pattern = vec![vec![Variable::a, Variable::b]];
    let results = g.get_possible_variable_resolutions(&pattern);
    assert!(results.is_empty());
}

#[test]
fn empty_pattern_yields_single_empty_binding() {
    let mut g = Graph::new();
    g.create_point();
    g.create_point();
    let results = g.get_possible_variable_resolutions(&Vec::new());
    assert_eq!(results.len(), 1);
    assert_eq!(results[0].get(Variable::a), None);
}

#[test]
fn singleton_chains_yield_injective_assignments() {
    // Only singleton chains: no adjacency constraint, one binding per
    // injective assignment of points to the variables.
    let mut g = Graph::new();
    let p: Vec<usize> = (0..3).map(|_| g.create_point()).collect();
    let pattern = vec![vec![Variable::a]];
    let results = g.get_possible_variable_resolutions(&pattern);
    let sets = sorted_sets(&results, &[Variable::a]);
    assert_eq!(
        sets,
        vec![
            vec![(Variable::a, p[0])],
            vec![(Variable::a, p[1])],
            vec![(Variable::a, p[2])],
        ]
    );

    let pattern = vec![vec![Variable::a], vec![Variable::b]];
    let results = g.get_possible_variable_resolutions(&pattern);
    // 3 * 2 injective assignments of {a, b} to three points.
    assert_eq!(results.len(), 6);
    for b in &results {
        assert_ne!(b.get(Variable::a), b.get(Variable::b));
    }
}

#[test]
fn distinct_variables_bind_distinct_points() {
    // A triangle of relations among three points; the pattern [[a,b],[b,a]]
    // must never bind a and b to the same point, even where a point has a
    // relation to itself.
    let mut g = Graph::new();
    let p: Vec<usize> = (0..2).map(|_| g.create_point()).collect();
    g.create_relation(p[0], p[0]).unwrap();
    g.create_relation(p[0], p[1]).unwrap();
    g.create_relation(p[1], p[0]).unwrap();
    let pattern = vec![vec![Variable::a, Variable::b], vec![Variable::b, Variable::a]];
    let results = g.get_possible_variable_resolutions(&pattern);
    let sets = sorted_sets(&results, &[Variable::a, Variable::b]);
    assert_eq!(
        sets,
        vec![
            vec![(Variable::a, p[0]), (Variable::b, p[1])],
            vec![(Variable::a, p[1]), (Variable::b, p[0])],
        ]
    );
}

#[test]
fn self_loop_chain_needs_self_relation() {
    let mut g = Graph::new();
    let p0 = g.create_point();
    let p1 = g.create_point();
    g.create_relation(p0, p0).unwrap();
    g.create_relation(p0, p1).unwrap();
    let pattern = vec![vec![Variable::a, Variable::a]];
    let results = g.get_possible_variable_resolutions(&pattern);
    assert_eq!(results.len(), 1);
    assert_eq!(results[0].get(Variable::a), Some(p0));
}

#[test]
fn repeated_pair_demands_parallel_relations() {
    // The pattern [[a,b],[a,b]] gives `a` two obligations towards `b`, so
    // the degree pre-filter demands out-degree two of `a`'s point: a single
    // relation does not suffice, two parallel ones do.
    let pattern = vec![
        vec![Variable::a, Variable::b],
        vec![Variable::a, Variable::b],
    ];

    let mut single = Graph::new();
    let p0 = single.create_point();
    let p1 = single.create_point();
    single.create_relation(p0, p1).unwrap();
    assert!(single.get_possible_variable_resolutions(&pattern).is_empty());

    let mut double = Graph::new();
    let q0 = double.create_point();
    let q1 = double.create_point();
    double.create_relation(q0, q1).unwrap();
    double.create_relation(q0, q1).unwrap();
    let results = double.get_possible_variable_resolutions(&pattern);
    assert_eq!(results.len(), 1);
    assert_eq!(results[0].get(Variable::a), Some(q0));
    assert_eq!(results[0].get(Variable::b), Some(q1));
}

#[test]
fn chain_of_three_follows_a_path() {
    let mut g = Graph::new();
    let p: Vec<usize> = (0..4).map(|_| g.create_point()).collect();
    g.create_relation(p[0], p[1]).unwrap();
    g.create_relation(p[1], p[2]).unwrap();
    g.create_relation(p[2], p[3]).unwrap();
    let pattern = vec![vec![Variable::a, Variable::b, Variable::c]];
    let results = g.get_possible_variable_resolutions(&pattern);
    let sets = sorted_sets(&results, &[Variable::a, Variable::b, Variable::c]);
    assert_eq!(
        sets,
        vec![
            vec![(Variable::a, p[0]), (Variable::b, p[1]), (Variable::c, p[2])],
            vec![(Variable::a, p[1]), (Variable::b, p[2]), (Variable::c, p[3])],
        ]
    );
}

#[test]
fn repeated_runs_agree_as_sets() {
    let mut g = Graph::new();
    let p: Vec<usize> = (0..5).map(|_| g.create_point()).collect();
    g.create_relation(p[0], p[1]).unwrap();
    g.create_relation(p[1], p[2]).unwrap();
    g.create_relation(p[0], p[2]).unwrap();
    g.create_relation(p[2], p[3]).unwrap();
    g.create_relation(p[3], p[4]).unwrap();
    g.create_relation(p[2], p[4]).unwrap();
    let pattern = vec![
        vec![Variable::a, Variable::b],
        vec![Variable::b, Variable::c],
        vec![Variable::a, Variable::c],
    ];
    let vars = [Variable::a, Variable::b, Variable::c];
    let first = sorted_sets(&g.get_possible_variable_resolutions(&pattern), &vars);
    let second = sorted_sets(&g.get_possible_variable_resolutions(&pattern), &vars);
    assert_eq!(first, second);
    assert_eq!(
        first,
        vec![
            vec![(Variable::a, p[0]), (Variable::b, p[1]), (Variable::c, p[2])],
            vec![(Variable::a, p[2]), (Variable::b, p[3]), (Variable::c, p[4])],
        ]
    );
}
