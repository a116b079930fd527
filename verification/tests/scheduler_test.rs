use dag_engine::{CompletionEvent, Error, Graph, Scheduler, Step};

type TaskError = Box<dyn std::error::Error + Send>;

fn dummy_task(_: &()) -> Result<(), TaskError> {
    Ok(())
}

fn build(names: &[&str], edges: &[(&str, &str)]) -> Scheduler<fn(&()) -> Result<(), TaskError>> {
    let mut g: Graph<fn(&()) -> Result<(), TaskError>> = Graph::new();
    for name in names {
        g.add_node(name, dummy_task).unwrap();
    }
    for (from, to) in edges {
        g.add_edge(from, to).unwrap();
    }
    Scheduler::new(g.froze().unwrap())
}

/// Drives one run in which every task succeeds, completing dispatched nodes
/// in dispatch order, and returns the dispatch order.
fn run_all_success(s: &Scheduler<fn(&()) -> Result<(), TaskError>>) -> Vec<usize> {
    let mut rs = s.new_run();
    let mut queue = s.record_success(&mut rs, s.root_index());
    let mut qi = 0;
    while qi < queue.len() {
        let index = queue[qi];
        qi += 1;
        let step: Step<(), ()> = s.on_event(&mut rs, CompletionEvent::Success { index });
        match step {
            Step::Dispatch { ready } => queue.extend(ready),
            Step::Abort { .. } => panic!("no task failed"),
        }
    }
    queue
}

fn assert_valid_topo_order(order: &[usize], n: usize, edges: &[(usize, usize)]) {
    assert_eq!(order.len(), n);
    let mut position = vec![usize::MAX; n];
    for (at, index) in order.iter().enumerate() {
        assert_eq!(position[*index], usize::MAX, "node dispatched twice");
        position[*index] = at;
    }
    for (from, to) in edges {
        assert!(position[*from] < position[*to]);
    }
}

#[test]
fn linear_chain_runs_in_order() {
    let names = ["A1", "A2", "A3", "B1", "B2", "B3", "C1", "C2", "C3"];
    let edges = [
        ("A1", "A2"),
        ("A2", "A3"),
        ("A3", "B1"),
        ("B1", "B2"),
        ("B2", "B3"),
        ("B3", "C1"),
        ("C1", "C2"),
        ("C2", "C3"),
    ];
    let s = build(&names, &edges);
    let order = run_all_success(&s);
    assert_eq!(order, vec![0, 1, 2, 3, 4, 5, 6, 7, 8]);
}

#[test]
fn layers_complete_before_next_layer() {
    let names = ["A1", "A2", "A3", "B1", "B2", "B3", "C1", "C2", "C3"];
    let mut edges: Vec<(&str, &str)> = vec![];
    for a in ["A1", "A2", "A3"] {
        for b in ["B1", "B2", "B3"] {
            edges.push((a, b));
        }
    }
    for b in ["B1", "B2", "B3"] {
        for c in ["C1", "C2", "C3"] {
            edges.push((b, c));
        }
    }
    let s = build(&names, &edges);
    let order = run_all_success(&s);
    assert_eq!(order.len(), 9);
    for (i, index) in order.iter().enumerate() {
        let name = s.node_name(*index);
        let layer = match i {
            0..=2 => "A",
            3..=5 => "B",
            6..=8 => "C",
            _ => unreachable!(),
        };
        assert_eq!(&name[0..1], layer);
    }
}

#[test]
fn dag_dispatch_is_topological_and_exactly_once() {
    let names = ["A1", "A2", "A3", "B1", "B2", "B3", "C1", "C2", "C3"];
    let edges = [
        ("A1", "B1"),
        ("A1", "B2"),
        ("A1", "B3"),
        ("A2", "B1"),
        ("A2", "B3"),
        ("A3", "B3"),
        ("B1", "C2"),
        ("B1", "C3"),
        ("B2", "C2"),
        ("B3", "C1"),
        ("B3", "C2"),
        ("B3", "C3"),
    ];
    let s = build(&names, &edges);
    let order = run_all_success(&s);
    let index_edges = [
        (0, 3),
        (0, 4),
        (0, 5),
        (1, 3),
        (1, 5),
        (2, 5),
        (3, 7),
        (3, 8),
        (4, 7),
        (5, 6),
        (5, 7),
        (5, 8),
    ];
    assert_valid_topo_order(&order, 9, &index_edges);
}

#[test]
fn fan_in_dispatches_once_after_last_parent() {
    let s = build(&["A", "B", "C"], &[("A", "C"), ("B", "C")]);
    let mut rs = s.new_run();
    let initial = s.record_success(&mut rs, s.root_index());
    assert_eq!(initial, vec![0, 1]);
    let step: Step<(), ()> = s.on_event(&mut rs, CompletionEvent::Success { index: 0 });
    match step {
        Step::Dispatch { ready } => assert_eq!(ready, Vec::<usize>::new()),
        Step::Abort { .. } => panic!("no failure was reported"),
    }
    let step: Step<(), ()> = s.on_event(&mut rs, CompletionEvent::Success { index: 1 });
    match step {
        Step::Dispatch { ready } => assert_eq!(ready, vec![2]),
        Step::Abort { .. } => panic!("no failure was reported"),
    }
}

#[test]
fn independent_roots_all_start() {
    let s = build(&["A", "B", "C"], &[("A", "B")]);
    let mut rs = s.new_run();
    let initial = s.record_success(&mut rs, s.root_index());
    assert_eq!(initial, vec![0, 2]);
}

#[test]
fn failed() {
    // a linear chain A -> B -> C -> D in which C reports a failure: the run
    // aborts naming C with the exact payload, and D is never dispatched
    let s = build(&["A", "B", "C", "D"], &[("A", "B"), ("B", "C"), ("C", "D")]);
    let mut rs = s.new_run();
    let mut dispatched = s.record_success(&mut rs, s.root_index());
    assert_eq!(dispatched, vec![0]);
    for index in [0usize, 1] {
        let step: Step<String, ()> = s.on_event(&mut rs, CompletionEvent::Success { index });
        match step {
            Step::Dispatch { ready } => dispatched.extend(ready),
            Step::Abort { .. } => panic!("no failure was reported yet"),
        }
    }
    assert_eq!(dispatched, vec![0, 1, 2]);
    let step: Step<String, ()> =
        s.on_event(&mut rs, CompletionEvent::Failure { index: 2, err: "C".to_string() });
    match step {
        Step::Dispatch { .. } => panic!("the failure must abort the run"),
        Step::Abort { error } => {
            if let Error::RuntimeFailed { node, err } = error {
                assert_eq!(node, "C");
                assert_eq!(err, "C");
            } else {
                panic!("wrong error variant");
            }
        },
    }
    // exactly A, B and C were dispatched; D never was
    assert_eq!(dispatched.len(), 3);
    assert!(!dispatched.contains(&3));
}

#[test]
fn panicked() {
    // B fans out to C1 and C2; C1 terminates abnormally while C2 is still
    // running: the run aborts naming C1 verbatim, and D is never dispatched
    let s = build(
        &["A", "B", "C1", "C2", "D"],
        &[("A", "B"), ("B", "C1"), ("B", "C2"), ("C1", "D"), ("C2", "D")],
    );
    let mut rs = s.new_run();
    let mut dispatched = s.record_success(&mut rs, s.root_index());
    for index in [0usize, 1] {
        let step: Step<(), String> = s.on_event(&mut rs, CompletionEvent::Success { index });
        match step {
            Step::Dispatch { ready } => dispatched.extend(ready),
            Step::Abort { .. } => panic!("no abnormal termination was reported yet"),
        }
    }
    assert_eq!(dispatched, vec![0, 1, 2, 3]);
    let step: Step<(), String> =
        s.on_event(&mut rs, CompletionEvent::Panic { index: 2, err: "C1".to_string() });
    match step {
        Step::Dispatch { .. } => panic!("the abnormal termination must abort the run"),
        Step::Abort { error } => {
            if let Error::RuntimePanicked { node, err } = error {
                assert_eq!(node, "C1");
                assert_eq!(err, "C1");
                let e: Error<(), String> = Error::RuntimePanicked { node, err };
                assert_eq!(e.message(Some("C1")), "run C1 panic: C1");
            } else {
                panic!("wrong error variant");
            }
        },
    }
    // the already-dispatched sibling C2 and the failed C1 are the only tasks
    // beyond A and B; D was never dispatched
    assert_eq!(dispatched.len(), 4);
    assert!(!dispatched.contains(&4));
}

#[test]
fn run_state_is_reusable_per_run() {
    // a fresh RunState per run keeps the scheduler reusable after a failure
    let s = build(&["A", "B"], &[("A", "B")]);
    let mut rs = s.new_run();
    let initial = s.record_success(&mut rs, s.root_index());
    assert_eq!(initial, vec![0]);
    let step: Step<String, ()> =
        s.on_event(&mut rs, CompletionEvent::Failure { index: 0, err: "A".to_string() });
    assert!(matches!(step, Step::Abort { .. }));
    // the next run starts from scratch and can succeed
    let order = run_all_success(&s);
    assert_eq!(order, vec![0, 1]);
}

#[test]
fn empty_graph_runs_nothing() {
    let g: Graph<fn(&()) -> Result<(), TaskError>> = Graph::new();
    let s = Scheduler::new(g.froze().unwrap());
    assert_eq!(s.n_nodes(), 0);
    let order = run_all_success(&s);
    assert!(order.is_empty());
}

#[test]
fn single_node_runs_once() {
    let s = build(&["A"], &[]);
    let order = run_all_success(&s);
    assert_eq!(order, vec![0]);
}

#[test]
fn long_chain_with_forward_edges_keeps_total_order() {
    // a chain 0 -> 1 -> ... -> 127 forces a total order; extra forward edges
    // (picked by a fixed linear congruence) add fan-in without changing it
    let n: usize = 128;
    let mut g: Graph<fn(&()) -> Result<(), TaskError>> = Graph::new();
    for i in 0..n {
        g.add_node(&i.to_string(), dummy_task).unwrap();
    }
    let mut seed: u64 = 1;
    for i in 1..n {
        g.add_edge(&(i - 1).to_string(), &i.to_string()).unwrap();
        for j in 0..i.saturating_sub(1) {
            seed = seed.wrapping_mul(6364136223846793005).wrapping_add(1442695040888963407);
            if seed % 16 == 0 {
                g.add_edge(&j.to_string(), &i.to_string()).unwrap();
            }
        }
    }
    let s = Scheduler::new(g.froze().unwrap());
    let order = run_all_success(&s);
    let expected: Vec<usize> = (0..n).collect();
    assert_eq!(order, expected);
}

#[test]
fn accessors_expose_the_compiled_graph() {
    let s = build(&["A", "B"], &[("A", "B")]);
    assert_eq!(s.n_nodes(), 2);
    assert_eq!(s.root_index(), 2);
    assert_eq!(s.node_name(0), "A");
    assert_eq!(s.node_name(1), "B");
    let task = s.task(0);
    assert!(task(&()).is_ok());
}
