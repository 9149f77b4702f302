use dag_extract::{CostSet, Graph, GraphError, GreedyDagExtractor, Node};

fn node(class: usize, cost: u32, children: Vec<usize>) -> Node {
    Node { class, cost, children }
}

fn run(g: &Graph) -> Vec<Option<usize>> {
    assert_eq!(g.validate(), Ok(()));
    GreedyDagExtractor.extract(g, &[])
}

fn table(g: &Graph) -> Vec<Option<CostSet>> {
    assert_eq!(g.validate(), Ok(()));
    GreedyDagExtractor.relax(g)
}

// Classes A = 0, B = 1, C = 2; nodes a1 = 0, b1 = 1, b2 = 2, c1 = 3.
fn three_classes() -> Graph {
    Graph {
        n_classes: 3,
        nodes: vec![
            node(0, 1, vec![]),
            node(1, 5, vec![0]),
            node(1, 1, vec![]),
            node(2, 1, vec![1]),
        ],
    }
}

#[test]
fn three_classes_pick_cheapest() {
    let g = three_classes();
    let choices = run(&g);
    assert_eq!(choices, vec![Some(0), Some(2), Some(3)]);
    assert_acyclic(&g, &choices);
    let t = table(&g);
    let b = t[1].as_ref().unwrap();
    assert_eq!(b.total, 1);
    assert_eq!(b.costs, vec![None, Some(1), None]);
    let c = t[2].as_ref().unwrap();
    assert_eq!(c.choice, 3);
    assert_eq!(c.total, 2);
    assert_eq!(c.costs, vec![None, Some(1), Some(1)]);
}

#[test]
fn two_class_cycle_never_resolves() {
    let g = Graph { n_classes: 2, nodes: vec![node(0, 1, vec![1]), node(1, 1, vec![0])] };
    assert_eq!(run(&g), vec![None, None]);
}

#[test]
fn leaf_charges_only_itself() {
    let g = Graph { n_classes: 3, nodes: vec![node(1, 7, vec![])] };
    let t = table(&g);
    let s = t[1].as_ref().unwrap();
    assert_eq!(s.costs, vec![None, Some(7), None]);
    assert_eq!(s.total, 7);
    assert_eq!(s.choice, 0);
    assert!(t[0].is_none() && t[2].is_none());
}

#[test]
fn dependency_on_cycle_is_omitted() {
    // Class 2's only node depends on class 0, which sits in a cycle with class 1.
    let g = Graph {
        n_classes: 4,
        nodes: vec![
            node(0, 1, vec![1]),
            node(1, 1, vec![0]),
            node(2, 1, vec![0]),
            node(3, 4, vec![]),
        ],
    };
    assert_eq!(run(&g), vec![None, None, None, Some(3)]);
}

#[test]
fn dependency_on_self_looping_class_is_omitted() {
    // Class 1's only node is its own child, so class 1 never resolves.
    let g = Graph { n_classes: 2, nodes: vec![node(0, 1, vec![1]), node(1, 1, vec![1])] };
    assert_eq!(g.validate(), Ok(()));
    assert_eq!(run(&g), vec![None, None]);
}

#[test]
fn rerun_gives_same_choices() {
    let g = three_classes();
    assert_eq!(run(&g), run(&g));
}

#[test]
fn equal_totals_keep_first_proposal() {
    let g = Graph { n_classes: 1, nodes: vec![node(0, 3, vec![]), node(0, 3, vec![])] };
    assert_eq!(run(&g), vec![Some(0)]);
}

#[test]
fn later_cheaper_node_replaces_entry() {
    let g = Graph { n_classes: 1, nodes: vec![node(0, 9, vec![]), node(0, 2, vec![])] };
    let t = table(&g);
    assert_eq!(t[0].as_ref().unwrap().choice, 1);
    assert_eq!(t[0].as_ref().unwrap().total, 2);
}

#[test]
fn shared_class_counted_once() {
    // Node 3 (class 2) has two children that both reach class 0.
    let g = Graph {
        n_classes: 3,
        nodes: vec![
            node(0, 10, vec![]),
            node(1, 1, vec![0]),
            node(1, 2, vec![0]),
            node(2, 1, vec![1, 0]),
        ],
    };
    let t = table(&g);
    let s = t[2].as_ref().unwrap();
    assert_eq!(s.costs, vec![Some(10), Some(1), Some(1)]);
    assert_eq!(s.total, 12);
}

#[test]
fn cycle_through_cheaper_option_is_avoided() {
    // Class 0 may be a leaf (cost 5) or depend on class 1, whose only node
    // depends on class 0: class 0 must keep its leaf.
    let g = Graph {
        n_classes: 2,
        nodes: vec![node(0, 5, vec![]), node(1, 1, vec![0]), node(0, 0, vec![1])],
    };
    assert_eq!(run(&g), vec![Some(0), Some(1)]);
    assert_eq!(table(&g)[1].as_ref().unwrap().total, 6);
}

#[test]
fn self_loop_is_never_chosen() {
    let g = Graph { n_classes: 1, nodes: vec![node(0, 0, vec![0]), node(0, 3, vec![])] };
    assert_eq!(run(&g), vec![Some(1)]);
}

#[test]
fn empty_graph_gives_empty_mapping() {
    let g = Graph { n_classes: 0, nodes: vec![] };
    assert_eq!(run(&g), Vec::<Option<usize>>::new());
}

#[test]
fn largest_cost_is_summed_without_overflow() {
    let g = Graph {
        n_classes: 2,
        nodes: vec![node(0, u32::MAX, vec![]), node(1, u32::MAX, vec![0])],
    };
    let t = table(&g);
    assert_eq!(t[1].as_ref().unwrap().total, 2 * (u32::MAX as u64));
}

#[test]
fn validate_rejects_bad_class() {
    let g = Graph { n_classes: 1, nodes: vec![node(0, 1, vec![]), node(1, 1, vec![])] };
    assert_eq!(g.validate(), Err(GraphError::ClassOutOfRange(1)));
}

#[test]
fn validate_rejects_dangling_child() {
    let g = Graph { n_classes: 1, nodes: vec![node(0, 1, vec![]), node(0, 1, vec![0, 2])] };
    assert_eq!(g.validate(), Err(GraphError::DanglingChild(1)));
}

#[test]
fn validate_rejects_too_many_classes() {
    let g = Graph { n_classes: usize::MAX, nodes: vec![] };
    assert_eq!(g.validate(), Err(GraphError::TooManyClasses));
}

/// Follows chosen nodes' children depth first and fails on a class that is
/// already on the current path.
fn assert_acyclic(g: &Graph, choices: &[Option<usize>]) {
    fn visit(g: &Graph, choices: &[Option<usize>], c: usize, path: &mut Vec<usize>) {
        assert!(!path.contains(&c), "class {} repeats on path {:?}", c, path);
        path.push(c);
        let n = choices[c].expect("child class has a choice");
        for &child in &g.nodes[n].children {
            visit(g, choices, g.nodes[child].class, path);
        }
        path.pop();
    }
    for c in 0..choices.len() {
        if choices[c].is_some() {
            visit(g, choices, c, &mut Vec::new());
        }
    }
}

#[test]
fn cycle_formed_mid_run_is_gone_at_fixed_point() {
    // Classes K = 0, E = 1, C = 2, X = 3. After the first pass E's entry is
    // node 6 (via X), C's is node 5 (via E) and X's is node 3 (via C): a
    // cycle. The second pass moves E back to node 1, which is cheaper now.
    let g = Graph {
        n_classes: 4,
        nodes: vec![
            node(0, 100, vec![]),
            node(1, 1, vec![0]),
            node(2, 50, vec![]),
            node(3, 0, vec![2]),
            node(0, 0, vec![]),
            node(2, 1, vec![4, 1]),
            node(1, 0, vec![3]),
        ],
    };
    let choices = run(&g);
    assert_eq!(choices, vec![Some(4), Some(1), Some(5), Some(3)]);
    assert_acyclic(&g, &choices);
    let t = table(&g);
    assert_eq!(t[3].as_ref().unwrap().costs, vec![Some(0), Some(1), Some(1), Some(0)]);
    assert_eq!(t[3].as_ref().unwrap().total, 2);
}

#[test]
fn chosen_terms_form_a_dag() {
    // A diamond: class 3 uses classes 1 and 2, which both use class 0;
    // each class also has a costlier node that points back up.
    let g = Graph {
        n_classes: 4,
        nodes: vec![
            node(0, 1, vec![]),
            node(1, 1, vec![0]),
            node(2, 1, vec![0]),
            node(3, 1, vec![1, 2]),
            node(0, 9, vec![3]),
            node(1, 9, vec![2]),
        ],
    };
    let choices = run(&g);
    assert_eq!(choices, vec![Some(0), Some(1), Some(2), Some(3)]);
    assert_acyclic(&g, &choices);
    assert_eq!(table(&g)[3].as_ref().unwrap().total, 4);
}
