use simple_protection_system::graph::Graph;
use simple_protection_system::object::Object;
use simple_protection_system::right::Right;

/// The rights that `from` holds on `to`, read off the list of capabilities.
fn rights_of(graph: &Graph, from: Object, to: Object) -> Option<Right> {
    let mut found = None;
    for cap in graph.capabilities() {
        if cap.from() == from && cap.to() == to {
            assert!(found.is_none());
            found = Some(*cap.rights());
        }
    }
    found
}

fn last_object(graph: &Graph) -> Object {
    *graph.objects().last().unwrap()
}

fn assert_invariant(graph: &Graph) {
    let caps = graph.capabilities();
    for (i, cap) in caps.iter().enumerate() {
        assert!(cap.rights().is_any());
        assert!(Right::full().contains(cap.rights()));
        assert!(graph.contains_object(&cap.from()));
        assert!(graph.contains_object(&cap.to()));
        for other in caps.iter().skip(i + 1) {
            assert!(cap != other);
        }
    }
}

#[test]
fn new_graph_is_empty() {
    let graph = Graph::new();
    assert!(graph.objects().is_empty());
    assert!(graph.capabilities().is_empty());
}

#[test]
fn objects_are_issued_in_order_and_differ() {
    let mut graph = Graph::new();
    let a = graph.new_object();
    let b = graph.new_object();
    let c = graph.create(&a);
    assert_ne!(a, b);
    assert_ne!(a, c);
    assert_ne!(b, c);
    assert_eq!(graph.objects().as_slice(), &[a, b, c]);
}

#[test]
fn handle_of_a_larger_graph_is_no_object_of_a_smaller() {
    let mut large = Graph::new();
    let _first = large.new_object();
    let second = large.new_object();

    let mut small = Graph::new();
    assert!(!small.contains_object(&second));
    let _only = small.new_object();
    assert!(!small.contains_object(&second));
    assert!(large.contains_object(&second));
}

#[test]
fn new_object_has_no_capability() {
    let mut graph = Graph::new();
    let a = graph.new_object();
    let b = graph.new_object();
    assert_eq!(graph.capabilities().len(), 0);
    assert!(!graph.have_operation(&a, &b, &Right::read()));
    assert!(!graph.have_operation(&a, &a, &Right::read()));
    assert!(!graph.have_operation(&a, &b, &Right::empty()));
}

#[test]
fn create_adds_one_object_and_one_full_capability() {
    let mut graph = Graph::new();
    let root = graph.new_object();
    for _ in 0..5 {
        let objects = graph.objects().len();
        let caps = graph.capabilities().len();
        let new = graph.create(&root);
        assert_eq!(graph.objects().len(), objects + 1);
        assert_eq!(graph.capabilities().len(), caps + 1);
        assert!(graph.contains_object(&new));
        assert_eq!(rights_of(&graph, root, new), Some(Right::full()));
        assert!(graph.have_operation(&root, &new, &Right::full()));
        assert!(!graph.have_operation(&new, &root, &Right::empty()));
    }
    assert_invariant(&graph);
}

#[test]
fn have_operation_needs_every_right_asked_for() {
    let mut graph = Graph::new();
    let root = graph.new_object();
    let server = graph.create(&root);
    let data = graph.create(&root);
    graph.call(root, server, data);
    let process = last_object(&graph);

    assert!(graph.have_operation(&process, &server, &Right::read()));
    assert!(graph.have_operation(&process, &server, &Right::empty()));
    assert!(!graph.have_operation(&process, &server, &Right::write()));
    assert!(!graph.have_operation(&process, &server, &Right::execute()));
    assert!(!graph.have_operation(&process, &server, &(Right::read() | Right::write())));
    assert!(!graph.have_operation(&process, &server, &Right::full()));
    assert!(!graph.have_operation(&server, &process, &Right::read()));
    assert!(!graph.have_operation(&server, &process, &Right::empty()));
}

#[test]
fn remove_twice_is_remove_once() {
    let mut graph = Graph::new();
    let root = graph.new_object();
    let a = graph.create(&root);
    let b = graph.create(&root);

    graph.remove(&root, &a);
    assert_eq!(graph.objects().len(), 3);
    assert_eq!(graph.capabilities().len(), 1);
    assert!(!graph.have_operation(&root, &a, &Right::empty()));
    assert!(graph.have_operation(&root, &b, &Right::full()));

    graph.remove(&root, &a);
    assert_eq!(graph.objects().len(), 3);
    assert_eq!(graph.capabilities().len(), 1);
    assert!(graph.have_operation(&root, &b, &Right::full()));
}

#[test]
fn remove_goes_by_direction() {
    let mut graph = Graph::new();
    let root = graph.new_object();
    let a = graph.create(&root);

    graph.remove(&a, &root);
    assert_eq!(graph.capabilities().len(), 1);
    assert!(graph.have_operation(&root, &a, &Right::full()));
    graph.remove(&root, &a);
    assert_eq!(graph.capabilities().len(), 0);
}

#[test]
fn objects_never_leave() {
    let mut graph = Graph::new();
    let root = graph.new_object();
    let a = graph.create(&root);
    let b = graph.create(&a);
    assert_eq!(graph.objects().len(), 3);
    graph.remove(&root, &a);
    assert_eq!(graph.objects().len(), 3);
    graph.take(&root, &b);
    assert_eq!(graph.objects().len(), 3);
    graph.grant(&b, &a);
    assert_eq!(graph.objects().len(), 3);
    graph.call(root, a, b);
    assert_eq!(graph.objects().len(), 3);
    graph.call(a, root, b);
    assert_eq!(graph.objects().len(), 4);
    for object in [root, a, b] {
        assert!(graph.contains_object(&object));
    }
    assert_invariant(&graph);
}

#[test]
fn take_brings_the_rights_of_what_can_be_read() {
    let mut graph = Graph::new();
    let root = graph.new_object();
    let a = graph.create(&root);
    let b = graph.create(&a);

    graph.take(&root, &b);
    assert_eq!(rights_of(&graph, root, b), Some(Right::full()));
    assert_eq!(graph.capabilities().len(), 3);
    assert_invariant(&graph);
}

#[test]
fn take_without_a_readable_object_changes_nothing() {
    let mut graph = Graph::new();
    let root = graph.new_object();
    let a = graph.create(&root);
    let b = graph.create(&a);

    graph.take(&b, &root);
    graph.take(&a, &root);
    graph.take(&a, &a);
    graph.take(&root, &root);
    assert_eq!(graph.capabilities().len(), 2);
    assert_eq!(rights_of(&graph, root, a), Some(Right::full()));
    assert_eq!(rights_of(&graph, a, b), Some(Right::full()));
}

#[test]
fn take_merges_into_the_rights_held() {
    let mut graph = Graph::new();
    let root = graph.new_object();
    let server = graph.create(&root);
    let data = graph.create(&root);
    graph.call(root, server, data);
    let process = last_object(&graph);
    assert_eq!(rights_of(&graph, process, server), Some(Right::read()));
    assert_eq!(rights_of(&graph, process, data), Some(Right::full()));

    // `process` reads `data` and `server`, which hold nothing on `server`.
    graph.take(&process, &server);
    assert_eq!(rights_of(&graph, process, server), Some(Right::read()));
    assert_eq!(graph.capabilities().len(), 4);

    // Once `data` holds all rights on `server`, `process` takes them.
    graph.grant(&data, &server);
    assert_eq!(rights_of(&graph, data, server), Some(Right::full()));
    graph.take(&process, &server);
    assert_eq!(rights_of(&graph, process, server), Some(Right::full()));
    assert_invariant(&graph);
}

#[test]
fn take_twice_is_take_once_in_a_tree() {
    let mut graph = Graph::new();
    let root = graph.new_object();
    let a = graph.create(&root);
    let b = graph.create(&a);
    let c = graph.create(&b);

    graph.take(&root, &b);
    let caps = graph.capabilities().len();
    let held = rights_of(&graph, root, b);
    graph.take(&root, &b);
    assert_eq!(graph.capabilities().len(), caps);
    assert_eq!(rights_of(&graph, root, b), held);

    graph.take(&root, &c);
    let caps = graph.capabilities().len();
    let held = rights_of(&graph, root, c);
    graph.take(&root, &c);
    assert_eq!(graph.capabilities().len(), caps);
    assert_eq!(rights_of(&graph, root, c), held);
}

#[test]
fn second_take_brings_more_where_the_first_opens_a_loop() {
    let mut graph = Graph::new();
    let root = graph.new_object();
    let from = graph.create(&root);
    let keeper = graph.create(&root);
    let middle = graph.create(&from);
    let to = graph.create(&keeper);

    // `to` comes to hold all rights on itself.
    graph.grant(&to, &to);
    assert_eq!(rights_of(&graph, to, to), Some(Right::full()));

    // `middle` comes to hold `read`, and no more, on `to`.
    graph.call(from, to, middle);
    let process = last_object(&graph);
    assert_eq!(rights_of(&graph, process, to), Some(Right::read()));
    graph.grant(&middle, &to);
    assert_eq!(rights_of(&graph, middle, to), Some(Right::read()));

    assert_eq!(rights_of(&graph, from, to), None);
    graph.take(&from, &to);
    assert_eq!(rights_of(&graph, from, to), Some(Right::read()));
    graph.take(&from, &to);
    assert_eq!(rights_of(&graph, from, to), Some(Right::full()));
    graph.take(&from, &to);
    assert_eq!(rights_of(&graph, from, to), Some(Right::full()));
    assert_invariant(&graph);
}

#[test]
fn grant_brings_the_rights_of_who_can_write() {
    let mut graph = Graph::new();
    let root = graph.new_object();
    let a = graph.create(&root);
    let b = graph.create(&root);

    graph.grant(&a, &b);
    assert_eq!(rights_of(&graph, a, b), Some(Right::full()));
    assert_eq!(rights_of(&graph, b, a), None);
    assert_eq!(graph.capabilities().len(), 3);
    assert_invariant(&graph);
}

#[test]
fn grant_needs_write_on_the_receiver() {
    let mut graph = Graph::new();
    let root = graph.new_object();
    let server = graph.create(&root);
    let data = graph.create(&root);
    graph.remove(&root, &server);
    graph.call(root, server, data);
    let process = last_object(&graph);

    // Only `process` holds a right on `server`, and it is `read`.
    graph.grant(&server, &data);
    assert_eq!(rights_of(&graph, server, data), None);
    assert_eq!(rights_of(&graph, process, server), Some(Right::read()));
    assert_eq!(graph.capabilities().len(), 3);
}

#[test]
fn grant_twice_is_grant_once() {
    let mut graph = Graph::new();
    let root = graph.new_object();
    let a = graph.create(&root);
    let b = graph.create(&root);

    for (from, to) in [(a, b), (b, a), (a, a), (b, b), (root, a), (a, root)] {
        graph.grant(&from, &to);
        let caps = graph.capabilities().len();
        let held = rights_of(&graph, from, to);
        graph.grant(&from, &to);
        assert_eq!(graph.capabilities().len(), caps);
        assert_eq!(rights_of(&graph, from, to), held);
    }
    assert_invariant(&graph);
}

#[test]
fn call_without_a_capability_to_the_parameter_changes_nothing() {
    let mut graph = Graph::new();
    let root = graph.new_object();
    let a = graph.create(&root);
    let b = graph.create(&root);

    graph.call(a, b, root);
    graph.call(a, root, b);
    graph.call(b, a, b);
    assert_eq!(graph.objects().len(), 3);
    assert_eq!(graph.capabilities().len(), 2);
}

#[test]
fn call_adds_a_process_with_two_capabilities() {
    let mut graph = Graph::new();
    let root = graph.new_object();
    let server = graph.create(&root);
    let data = graph.create(&root);

    graph.call(root, server, data);
    assert_eq!(graph.objects().len(), 4);
    assert_eq!(graph.capabilities().len(), 4);
    let process = last_object(&graph);
    assert!(graph.contains_object(&process));
    assert_eq!(rights_of(&graph, process, data), Some(Right::full()));
    assert_eq!(rights_of(&graph, process, server), Some(Right::read()));
    assert_eq!(rights_of(&graph, root, process), None);
    assert_eq!(rights_of(&graph, process, root), None);
    assert_invariant(&graph);
}

#[test]
fn call_copies_the_rights_of_the_caller() {
    let mut graph = Graph::new();
    let root = graph.new_object();
    let server = graph.create(&root);
    let data = graph.create(&root);
    graph.call(root, server, data);
    let first = last_object(&graph);

    // `first` holds `read` on `server`, so its own call passes `read` on.
    graph.call(first, data, server);
    let second = last_object(&graph);
    assert_ne!(first, second);
    assert_eq!(rights_of(&graph, second, server), Some(Right::read()));
    assert_eq!(rights_of(&graph, second, data), Some(Right::read()));
    assert_eq!(graph.objects().len(), 5);
    assert_eq!(graph.capabilities().len(), 6);
}

#[test]
fn call_of_the_parameter_itself_stores_one_capability_with_both_rights() {
    let mut graph = Graph::new();
    let root = graph.new_object();
    let server = graph.create(&root);

    graph.call(root, server, server);
    let process = last_object(&graph);
    assert_eq!(graph.objects().len(), 3);
    assert_eq!(graph.capabilities().len(), 2);
    assert_eq!(rights_of(&graph, process, server), Some(Right::full() | Right::read()));
    assert!(graph.have_operation(&process, &server, &Right::read()));
    assert!(graph.have_operation(&process, &server, &Right::full()));
    assert_invariant(&graph);
}

#[test]
fn call_of_the_parameter_itself_by_a_reader_gives_read() {
    let mut graph = Graph::new();
    let root = graph.new_object();
    let server = graph.create(&root);
    let data = graph.create(&root);
    graph.call(root, server, data);
    let reader = last_object(&graph);
    assert_eq!(rights_of(&graph, reader, server), Some(Right::read()));

    graph.call(reader, server, server);
    let process = last_object(&graph);
    assert_ne!(process, reader);
    assert_eq!(graph.objects().len(), 5);
    assert_eq!(graph.capabilities().len(), 5);
    assert_eq!(rights_of(&graph, process, server), Some(Right::read()));
    assert!(!graph.have_operation(&process, &server, &Right::write()));
    assert_invariant(&graph);
}

#[test]
fn call_counts_objects_and_capabilities() {
    let mut graph = Graph::new();
    let root = graph.new_object();
    let server = graph.create(&root);
    let data = graph.create(&root);

    // No capability from `server` to `data`: nothing is added.
    graph.call(server, root, data);
    assert_eq!((graph.objects().len(), graph.capabilities().len()), (3, 2));
    // Callee and parameter differ: one object and two capabilities.
    graph.call(root, server, data);
    assert_eq!((graph.objects().len(), graph.capabilities().len()), (4, 4));
    // Callee and parameter are the same: one object and one capability.
    graph.call(root, data, data);
    assert_eq!((graph.objects().len(), graph.capabilities().len()), (5, 5));
    assert_invariant(&graph);
}

#[test]
fn an_object_can_operate_on_itself_when_something_holds_a_right_on_it() {
    let mut graph = Graph::new();
    let root = graph.new_object();
    let a = graph.create(&root);
    let lone = graph.new_object();

    assert!(!graph.can_operation(&root, &root));
    assert!(graph.can_operation(&a, &a));
    assert!(!graph.can_operation(&lone, &lone));

    graph.grant(&a, &a);
    graph.remove(&root, &a);
    assert_eq!(rights_of(&graph, a, a), Some(Right::full()));
    assert!(graph.can_operation(&a, &a));
    graph.remove(&a, &a);
    assert!(!graph.can_operation(&a, &a));
}

#[test]
fn can_operation_ignores_the_direction_of_capabilities() {
    let mut graph = Graph::new();
    let root = graph.new_object();
    let a = graph.create(&root);
    let b = graph.create(&a);

    assert!(graph.can_operation(&root, &b));
    assert!(graph.can_operation(&b, &a));
    // `root` is reached from `b`, but nothing holds a right on it.
    assert!(!graph.can_operation(&b, &root));
    assert!(!graph.can_operation(&a, &root));
}

#[test]
fn can_operation_needs_a_connection() {
    let mut graph = Graph::new();
    let left = graph.new_object();
    let left_a = graph.create(&left);
    let right = graph.new_object();
    let right_a = graph.create(&right);

    assert!(!graph.can_operation(&left, &right_a));
    assert!(!graph.can_operation(&left_a, &right_a));
    assert!(!graph.can_operation(&right_a, &left_a));
    assert!(graph.can_operation(&right, &right_a));

    graph.remove(&left, &left_a);
    assert!(!graph.can_operation(&left, &left_a));
}

#[test]
fn can_operation_of_a_handle_of_another_graph_is_false() {
    let mut large = Graph::new();
    let _a = large.new_object();
    let _b = large.new_object();
    let far = large.new_object();

    let mut graph = Graph::new();
    let root = graph.new_object();
    let a = graph.create(&root);
    assert!(!graph.can_operation(&far, &a));
    assert!(!graph.can_operation(&a, &far));
    assert!(!graph.can_operation(&far, &far));
}

#[test]
fn can_operation_walks_through_a_long_chain_and_a_cycle() {
    let mut graph = Graph::new();
    let root = graph.new_object();
    let mut chain = vec![root];
    for i in 0..50 {
        let next = graph.create(&chain[i]);
        chain.push(next);
    }
    // Close a cycle and add a branch.
    graph.grant(&chain[1], &chain[1]);
    graph.take(&root, &chain[2]);
    let branch = graph.create(&chain[25]);

    assert!(graph.can_operation(&root, &chain[50]));
    assert!(graph.can_operation(&chain[50], &chain[1]));
    assert!(graph.can_operation(&branch, &chain[50]));
    assert!(graph.can_operation(&chain[50], &branch));
    assert!(!graph.can_operation(&chain[50], &root));
    assert_invariant(&graph);
}
