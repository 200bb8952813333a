use lnsim::event::{EventQueue, PaymentEvent};
use lnsim::graph::{Edge, Graph};
use lnsim::io::Report;
use lnsim::payment::{split_amount, CandidatePath, Invoice, Path, Payment};
use lnsim::sim::{next_transition, AttemptOutcome, PathQuery, Simulation, Transition};
use lnsim::stats::PathDistances;
use lnsim::{PaymentParts, RoutingMetric, WeightPartsCombi, MIN_SHARD_AMT, SIM_DELAY_IN_SECS};

fn edge(id: &str, src: &str, dest: &str, balance: usize) -> Edge {
    Edge {
        channel_id: id.to_string(),
        source: src.to_string(),
        destination: dest.to_string(),
        balance,
    }
}

fn trivial_graph() -> Graph {
    let nodes = ["alice", "bob", "chan", "dina"]
        .iter()
        .map(|n| n.to_string())
        .collect();
    let edges = vec![
        edge("alice1", "alice", "bob", 70000),
        edge("bob1", "bob", "alice", 30000),
        edge("bob2", "bob", "chan", 40000),
        edge("chan1", "chan", "bob", 60000),
        edge("chan2", "chan", "dina", 50000),
        edge("dina1", "dina", "chan", 50000),
    ];
    Graph::new(nodes, edges)
}

fn direct_path(q: &PathQuery) -> CandidatePath {
    CandidatePath {
        path: Path {
            src: q.source.clone(),
            dest: q.dest.clone(),
            hops: vec![
                (q.source.clone(), q.amount, 5, "chan-a".to_string()),
                (q.dest.clone(), q.amount, 0, "chan-b".to_string()),
            ],
        },
        amount: q.amount,
        time: 5,
    }
}

fn fixed_pairs() -> Vec<(String, String)> {
    vec![
        ("alice".to_string(), "dina".to_string()),
        ("bob".to_string(), "chan".to_string()),
        ("chan".to_string(), "alice".to_string()),
    ]
}

#[test]
fn init_simulator() {
    let seed = 0;
    let amount = 100;
    let graph = trivial_graph();
    let routing_metric = RoutingMetric::MinFee;
    let payment_parts = PaymentParts::Single;
    let actual = Simulation::new(seed, graph, amount, routing_metric, payment_parts);
    assert_eq!(actual.amount, amount);
    assert_eq!(actual.run, seed);
}

#[test]
fn get_n_random_node_pairs() {
    let graph = trivial_graph();
    let n = 2;
    let mut simulator = Simulation::new(0, graph, 100, RoutingMetric::MinFee, PaymentParts::Single);
    let actual = simulator.draw_n_pairs_for_simulation(n);
    assert_eq!(actual.len(), n);
}

#[test]
fn add_invoice() {
    let seed = 1;
    let amount = 100;
    let graph = trivial_graph();
    let routing_metric = RoutingMetric::MinFee;
    let payment_parts = PaymentParts::Single;
    let mut simulator = Simulation::new(seed, graph, amount, routing_metric, payment_parts);
    let invoice = Invoice::new(
        simulator.next_payment_id(),
        1234,
        &"alice".to_string(),
        &"dina".to_string(),
    );
    simulator.add_invoice(invoice.clone());
    let invoice2 = Invoice::new(
        simulator.next_payment_id(),
        4321,
        &"alice".to_string(),
        &"dina".to_string(),
    );
    simulator.add_invoice(invoice2.clone());
    assert_eq!(simulator.outstanding_invoices.num_nodes(), 1);
    let actual = simulator
        .get_invoices_for_node(&"dina".to_owned())
        .unwrap()
        .clone();
    let expected = vec![invoice, invoice2];
    assert_eq!(actual, expected);
}

#[test]
fn get_invoices_for_node() {
    let seed = 1;
    let amount = 100;
    let graph = trivial_graph();
    let routing_metric = RoutingMetric::MinFee;
    let payment_parts = PaymentParts::Single;
    let mut simulator = Simulation::new(seed, graph, amount, routing_metric, payment_parts);
    let invoice = Invoice::new(
        simulator.next_payment_id(),
        1234,
        &"alice".to_string(),
        &"dina".to_string(),
    );
    simulator.add_invoice(invoice.clone());
    let invoice2 = Invoice::new(
        simulator.next_payment_id(),
        4321,
        &"alice".to_string(),
        &"chan".to_string(),
    );
    simulator.add_invoice(invoice2.clone());
    let actual = simulator.get_invoices_for_node(&"dina".to_string());
    assert!(actual.is_some());
    let actual = actual.unwrap().clone();
    let expected = vec![invoice];
    assert_eq!(actual, expected);
}

#[test]
fn delete_invoice() {
    let seed = 1;
    let amount = 100;
    let graph = trivial_graph();
    let routing_metric = RoutingMetric::MinFee;
    let payment_parts = PaymentParts::Single;
    let mut simulator = Simulation::new(seed, graph, amount, routing_metric, payment_parts);
    let invoice = Invoice::new(
        simulator.next_payment_id(),
        1234,
        &"alice".to_string(),
        &"dina".to_string(),
    );
    simulator.add_invoice(invoice.clone());
    simulator.remove_invoice(&invoice);
    let actual = simulator.get_invoices_for_node(&"dina".to_string());
    assert!(actual.is_none());
}

#[test]
fn removing_one_of_two_invoices_keeps_the_other() {
    let mut simulator = Simulation::new(1, trivial_graph(), 100, RoutingMetric::MinFee, PaymentParts::Single);
    let alice = "alice".to_string();
    let dina = "dina".to_string();
    let first = Invoice::new(0, 1234, &alice, &dina);
    let second = Invoice::new(1, 4321, &alice, &dina);
    simulator.add_invoice(first.clone());
    simulator.add_invoice(second.clone());
    simulator.remove_invoice(&first);
    assert_eq!(simulator.get_invoices_for_node(&dina).unwrap().clone(), vec![second.clone()]);
    assert_eq!(simulator.outstanding_invoices.num_nodes(), 1);
    simulator.remove_invoice(&second);
    assert!(simulator.get_invoices_for_node(&dina).is_none());
    assert_eq!(simulator.outstanding_invoices.num_nodes(), 0);
}

#[test]
fn removing_an_unknown_invoice_changes_nothing() {
    let mut simulator = Simulation::new(1, trivial_graph(), 100, RoutingMetric::MinFee, PaymentParts::Single);
    let alice = "alice".to_string();
    let dina = "dina".to_string();
    let first = Invoice::new(0, 1234, &alice, &dina);
    simulator.add_invoice(first.clone());
    simulator.remove_invoice(&Invoice::new(5, 1234, &alice, &dina));
    simulator.remove_invoice(&Invoice::new(0, 1234, &alice, &"bob".to_string()));
    assert_eq!(simulator.get_invoices_for_node(&dina).unwrap().clone(), vec![first]);
}

#[test]
fn adding_an_invoice_with_a_known_id_replaces_it() {
    let mut simulator = Simulation::new(1, trivial_graph(), 100, RoutingMetric::MinFee, PaymentParts::Single);
    let alice = "alice".to_string();
    let dina = "dina".to_string();
    simulator.add_invoice(Invoice::new(0, 1234, &alice, &dina));
    let newer = Invoice::new(0, 999, &alice, &dina);
    simulator.add_invoice(newer.clone());
    assert_eq!(simulator.get_invoices_for_node(&dina).unwrap().clone(), vec![newer]);
}

#[test]
fn drawing_pairs_yields_exactly_n_pairs_of_graph_nodes() {
    let mut simulator = Simulation::new(3, trivial_graph(), 100, RoutingMetric::MinFee, PaymentParts::Single);
    assert!(simulator.draw_n_pairs_for_simulation(0).is_empty());
    let pairs = simulator.draw_n_pairs_for_simulation(25);
    assert_eq!(pairs.len(), 25);
    let nodes = ["alice", "bob", "chan", "dina"];
    for (src, dest) in &pairs {
        assert!(nodes.contains(&src.as_str()));
        assert!(nodes.contains(&dest.as_str()));
    }
    let distinct: std::collections::BTreeSet<_> = pairs.iter().collect();
    assert!(distinct.len() > 1);
}

#[test]
fn same_seed_draws_same_pairs() {
    let mut a = Simulation::new(42, trivial_graph(), 100, RoutingMetric::MinFee, PaymentParts::Single);
    let mut b = Simulation::new(42, trivial_graph(), 100, RoutingMetric::MaxProb, PaymentParts::Split);
    assert_eq!(a.draw_n_pairs_for_simulation(10), b.draw_n_pairs_for_simulation(10));
}

fn scheduled(payment: PaymentEvent) -> Payment {
    match payment {
        PaymentEvent::Scheduled { payment } => payment,
        _ => panic!("expected a scheduled payment"),
    }
}

fn payment_of(event: PaymentEvent) -> Payment {
    match event {
        PaymentEvent::Scheduled { payment } => payment,
        PaymentEvent::UpdateFailed { payment } => payment,
        PaymentEvent::UpdateSuccesful { payment } => payment,
    }
}

#[test]
fn two_drawn_pairs_are_scheduled_delay_apart() {
    let mut simulator = Simulation::new(1, trivial_graph(), 100, RoutingMetric::MinFee, PaymentParts::Single);
    let pairs = simulator.draw_n_pairs_for_simulation(2);
    simulator.schedule_payments(&pairs);
    assert_eq!(simulator.event_queue.queue_length(), 2);
    assert_eq!(simulator.current_payment_id, 2);
    let first = scheduled(simulator.event_queue.next().unwrap());
    assert_eq!(simulator.event_queue.now(), 0);
    assert_eq!(first.payment_id, 0);
    assert_eq!(first.amount_msat, 100);
    assert_eq!((first.source.clone(), first.dest.clone()), pairs[0]);
    let second = scheduled(simulator.event_queue.next().unwrap());
    assert_eq!(simulator.event_queue.now(), SIM_DELAY_IN_SECS);
    assert_eq!(second.payment_id, 1);
    assert!(simulator.event_queue.next().is_none());
    let dina_or_other = &pairs[1].1;
    let invoices = simulator.get_invoices_for_node(dina_or_other).unwrap();
    assert!(invoices.iter().any(|i| i.id == 1 && i.amount == 100));
}

#[test]
fn run_with_two_drawn_pairs_counts_two_payments() {
    let mut simulator = Simulation::new(1, trivial_graph(), 100, RoutingMetric::MinFee, PaymentParts::Single);
    let pairs = simulator.draw_n_pairs_for_simulation(2);
    let result = simulator.run(
        pairs,
        |_g: &Graph, q: &PathQuery| Some(vec![direct_path(q)]),
        |_p: &CandidatePath, _amt: usize| true,
    );
    assert_eq!(result.total_num, 2);
    assert_eq!(result.num_succesful, 2);
    assert_eq!(result.num_failed, 0);
    assert_eq!(result.run, 1);
    assert_eq!(result.amount, 100);
    let mut ids: Vec<usize> = result.successful_payments.iter().map(|p| p.payment_id).collect();
    ids.sort();
    assert_eq!(ids, vec![0, 1]);
    for p in &result.successful_payments {
        assert!(p.succeeded);
        assert_eq!(p.htlc_attempts, 1);
        assert_eq!(p.num_parts, 1);
        assert_eq!(p.successful_shards, vec![100]);
    }
    assert_eq!(simulator.outstanding_invoices.num_nodes(), 0);
}

#[test]
fn run_without_routes_fails_every_payment() {
    let mut simulator = Simulation::new_batch_simulator(1, trivial_graph(), 100, WeightPartsCombi::MaxProbMulti);
    assert_eq!(simulator.routing_metric, RoutingMetric::MaxProb);
    assert_eq!(simulator.payment_parts, PaymentParts::Split);
    let result = simulator.run(
        fixed_pairs(),
        |_g: &Graph, _q: &PathQuery| None,
        |_p: &CandidatePath, _amt: usize| true,
    );
    assert_eq!(result.total_num, 3);
    assert_eq!(result.num_failed, 3);
    assert_eq!(result.num_succesful, 0);
    for p in &result.failed_payments {
        assert!(!p.succeeded);
        assert_eq!(p.htlc_attempts, 0);
    }
}

#[test]
fn single_path_failure_is_final() {
    let mut simulator = Simulation::new(1, trivial_graph(), 100, RoutingMetric::MinFee, PaymentParts::Single);
    let result = simulator.run(
        fixed_pairs(),
        |_g: &Graph, q: &PathQuery| Some(vec![direct_path(q)]),
        |_p: &CandidatePath, amt: usize| amt <= 30,
    );
    assert_eq!(result.num_succesful + result.num_failed, result.total_num);
    assert_eq!(result.num_failed, 3);
    for p in &result.failed_payments {
        assert_eq!(p.htlc_attempts, 1);
        assert_eq!(p.num_parts, 1);
        assert_eq!(p.failed_amounts, vec![100]);
    }
}

#[test]
fn split_mode_splits_until_shards_fit() {
    let mut simulator = Simulation::new(1, trivial_graph(), 100, RoutingMetric::MinFee, PaymentParts::Split);
    let result = simulator.run(
        fixed_pairs(),
        |_g: &Graph, q: &PathQuery| Some(vec![direct_path(q)]),
        |_p: &CandidatePath, amt: usize| amt <= 30,
    );
    assert_eq!(result.total_num, 3);
    assert_eq!(result.num_succesful, 3);
    for p in &result.successful_payments {
        assert!(p.succeeded);
        assert_eq!(p.successful_shards.iter().sum::<usize>(), 100);
        let mut shards = p.successful_shards.clone();
        shards.sort();
        assert_eq!(shards, vec![25, 25, 25, 25]);
        assert_eq!(p.num_parts, 4);
        assert_eq!(p.htlc_attempts, 7);
        assert_eq!(p.failed_amounts.len(), 3);
    }
}

#[test]
fn split_mode_gives_up_under_minimum_shard() {
    let mut simulator = Simulation::new(1, trivial_graph(), 100, RoutingMetric::MinFee, PaymentParts::Split);
    let result = simulator.run(
        fixed_pairs(),
        |_g: &Graph, q: &PathQuery| Some(vec![direct_path(q)]),
        |_p: &CandidatePath, amt: usize| amt <= 5,
    );
    assert_eq!(result.num_failed, 3);
    assert_eq!(result.num_succesful, 0);
    for p in &result.failed_payments {
        assert!(p.failed_amounts.iter().all(|a| *a >= MIN_SHARD_AMT));
    }
}

#[test]
fn event_queue_orders_by_time_then_schedule_order() {
    let mut queue = EventQueue::new();
    let mk = |id: usize| PaymentEvent::Scheduled {
        payment: Payment::new(id, "a".to_string(), "b".to_string(), 1),
    };
    queue.schedule(5, mk(0));
    queue.schedule(1, mk(1));
    queue.schedule(5, mk(2));
    queue.schedule(3, mk(3));
    queue.schedule(1, mk(4));
    assert_eq!(queue.queue_length(), 5);
    let mut order = Vec::new();
    let mut times = Vec::new();
    while let Some(event) = queue.next() {
        order.push(payment_of(event).payment_id);
        times.push(queue.now());
    }
    assert_eq!(order, vec![1, 4, 3, 0, 2]);
    assert_eq!(times, vec![1, 1, 3, 5, 5]);
    assert_eq!(queue.queue_length(), 0);
}

#[test]
fn split_amount_sums_to_the_whole_amount() {
    assert_eq!(split_amount(101, 10), Some((50, 51)));
    assert_eq!(split_amount(20, 10), Some((10, 10)));
    assert_eq!(split_amount(19, 10), None);
    assert_eq!(split_amount(1, 0), None);
    assert_eq!(split_amount(usize::MAX, 1), Some((usize::MAX / 2, usize::MAX - usize::MAX / 2)));
}

#[test]
fn transitions_follow_the_state_machine() {
    assert_eq!(next_transition(AttemptOutcome::Succeeded, 100, 10, PaymentParts::Split), Transition::Resolved);
    assert_eq!(next_transition(AttemptOutcome::NoRoute, 100, 10, PaymentParts::Split), Transition::GiveUp);
    assert_eq!(next_transition(AttemptOutcome::Failed, 100, 10, PaymentParts::Single), Transition::GiveUp);
    assert_eq!(next_transition(AttemptOutcome::Failed, 100, 10, PaymentParts::Split), Transition::Split(50, 50));
    assert_eq!(next_transition(AttemptOutcome::Failed, 15, 10, PaymentParts::Split), Transition::GiveUp);
}

#[test]
fn report_projects_successful_then_failed_payments() {
    let mut simulator = Simulation::new(1, trivial_graph(), 100, RoutingMetric::MinFee, PaymentParts::Single);
    let result = simulator.run(
        fixed_pairs(),
        |_g: &Graph, q: &PathQuery| Some(vec![direct_path(q)]),
        |p: &CandidatePath, _amt: usize| p.path.src != "bob",
    );
    let report = Report::from_sim_result(&result, Vec::new(), PathDistances(vec![]));
    assert_eq!(report.total_num, 3);
    assert_eq!(report.num_succesful, 2);
    assert_eq!(report.num_failed, 1);
    assert_eq!(report.payments.len(), 3);
    assert!(report.payments[0].succeeded && report.payments[1].succeeded);
    assert!(!report.payments[2].succeeded);
    assert_eq!(report.payments[2].id, 1);
    assert_eq!(report.payments[2].failed_paths.len(), 1);
    assert_eq!(report.payments[2].failed_paths[0].path_len, 2);
}

#[test]
fn run_ends_at_the_last_scheduled_time_with_payments_bound_to_pairs() {
    let mut simulator = Simulation::new(1, trivial_graph(), 100, RoutingMetric::MinFee, PaymentParts::Split);
    let pairs = fixed_pairs();
    let result = simulator.run(
        pairs.clone(),
        |_g: &Graph, q: &PathQuery| Some(vec![direct_path(q)]),
        |p: &CandidatePath, _amt: usize| p.path.src != "chan",
    );
    assert_eq!(simulator.event_queue.now(), 2 * SIM_DELAY_IN_SECS);
    for p in result.successful_payments.iter().chain(result.failed_payments.iter()) {
        assert_eq!((p.source.clone(), p.dest.clone()), pairs[p.payment_id]);
    }
    assert_eq!(result.failed_payments.len(), 1);
    assert_eq!(result.failed_payments[0].payment_id, 2);
    assert_eq!(simulator.outstanding_invoices.num_nodes(), 0);
}
