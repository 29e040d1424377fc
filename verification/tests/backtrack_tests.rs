use pcb_router::astar_check_struct::{check_path, AStarCheck};
use pcb_router::backtrack_node::BacktrackNode;
use pcb_router::bayesian_backtrack_algo::{BayesianBacktrack, BayesianStep, TraceCache};
use pcb_router::fixed_point::FixedPoint;
use pcb_router::naive_backtrack_algo::{NaiveBacktrack, NaiveBacktrackNode, NaiveStep};
use pcb_router::ordering::{connections_of, derived_ordering, sort_by_length, Estimate};
use pcb_router::pcb_problem::{ConnectionID, FixedTrace, NetName, ProbaTraceID};
use pcb_router::pcb_problem_solve::{solve_pcb_problem, SolveError};
use pcb_router::proba_model::{ProbaModel, ProbaTrace};
use pcb_router::sample_plan::{NetPlan, SamplePlan, SampleWork};
use pcb_router::search::AStarError;
use pcb_router::trace_path::{TraceAnchor, TraceAnchors, TracePath, TraceSegment};
use pcb_router::vec2::FixedVec2;

fn pt(x: i32, y: i32) -> FixedVec2 {
    FixedVec2::from_bits(x, y)
}

fn path(points: &[(i32, i32)]) -> TracePath {
    let anchors = points
        .iter()
        .map(|p| TraceAnchor { position: pt(p.0, p.1), start_layer: 0, end_layer: 0 })
        .collect();
    TracePath::from_anchors(
        TraceAnchors(anchors),
        FixedPoint::from_bits(4),
        FixedPoint::from_bits(2),
        FixedPoint::from_bits(8),
    )
}

fn net(name: &str) -> NetName {
    NetName(name.to_string())
}

fn trace(name: &str, id: usize, points: &[(i32, i32)]) -> FixedTrace {
    FixedTrace { net_name: net(name), connection_id: ConnectionID(id), trace_path: path(points) }
}

fn ids(v: &[usize]) -> Vec<ConnectionID> {
    v.iter().map(|i| ConnectionID(*i)).collect()
}

/// Two segments overlap when they share an end point.
fn share_a_point(a: &TraceSegment, b: &TraceSegment) -> bool {
    a.start == b.start || a.start == b.end || a.end == b.start || a.end == b.end
}

fn never_overlap(_a: &TraceSegment, _b: &TraceSegment) -> bool {
    false
}

/// Runs the ordered search with a rule that says which connection can be
/// routed with which connections fixed, and records the steps.
fn run_naive(order: &[usize], routable: &dyn Fn(usize, &Vec<usize>) -> bool) -> (Vec<NaiveStep>, Option<Vec<usize>>) {
    let mut search = NaiveBacktrack::new(&ids(order));
    let mut steps = Vec::new();
    for _ in 0..100 {
        let step = search.next_step();
        steps.push(step);
        match step {
            NaiveStep::Solved => {
                let fixed = search.fixed_traces().iter().map(|t| t.connection_id.0).collect();
                return (steps, Some(fixed));
            }
            NaiveStep::Unsolvable => return (steps, None),
            NaiveStep::Route(c) => {
                let fixed: Vec<usize> = search.fixed_traces().iter().map(|t| t.connection_id.0).collect();
                if routable(c.0, &fixed) {
                    search.route_found(trace("n", c.0, &[(0, 0), (4, 0)]));
                } else {
                    search.route_failed();
                }
            }
        }
    }
    panic!("the search did not end");
}

#[test]
fn no_connection_is_solved_at_once() {
    let (steps, solution) = run_naive(&[], &|_, _| true);
    assert_eq!(steps, vec![NaiveStep::Solved]);
    assert_eq!(solution, Some(vec![]));
}

#[test]
fn connections_that_all_route_are_fixed_in_order() {
    let (steps, solution) = run_naive(&[2, 0, 1], &|_, _| true);
    assert_eq!(
        steps,
        vec![
            NaiveStep::Route(ConnectionID(2)),
            NaiveStep::Route(ConnectionID(0)),
            NaiveStep::Route(ConnectionID(1)),
            NaiveStep::Solved
        ]
    );
    assert_eq!(solution, Some(vec![2, 0, 1]));
}

#[test]
fn a_bad_order_is_left_and_another_one_tried() {
    // connection 0 can only be routed before connection 1
    let rule = |c: usize, fixed: &Vec<usize>| !(c == 0 && fixed.contains(&1));
    let (steps, solution) = run_naive(&[1, 0, 2], &rule);
    assert_eq!(
        steps,
        vec![
            NaiveStep::Route(ConnectionID(1)),
            NaiveStep::Route(ConnectionID(0)),
            NaiveStep::Route(ConnectionID(0)),
            NaiveStep::Route(ConnectionID(1)),
            NaiveStep::Route(ConnectionID(2)),
            NaiveStep::Solved
        ]
    );
    assert_eq!(solution, Some(vec![0, 1, 2]));
}

#[test]
fn a_connection_that_never_routes_makes_the_problem_unsolvable() {
    let (steps, solution) = run_naive(&[0], &|_, _| false);
    assert_eq!(steps, vec![NaiveStep::Route(ConnectionID(0)), NaiveStep::Unsolvable]);
    assert_eq!(solution, None);
}

#[test]
fn two_connections_that_exclude_each_other_are_unsolvable() {
    let rule = |_c: usize, fixed: &Vec<usize>| fixed.is_empty();
    let (steps, solution) = run_naive(&[0, 1], &rule);
    assert_eq!(
        steps,
        vec![
            NaiveStep::Route(ConnectionID(0)),
            NaiveStep::Route(ConnectionID(1)),
            NaiveStep::Route(ConnectionID(1)),
            NaiveStep::Route(ConnectionID(0)),
            NaiveStep::Unsolvable
        ]
    );
    assert_eq!(solution, None);
}

#[test]
fn push_node_puts_the_connections_tried_before_in_front() {
    let mut node = NaiveBacktrackNode::new_empty(&ids(&[5, 6, 7]));
    node.failed_connections = ids(&[1, 2]);
    node.alternative_connections = ids(&[6, 7]);
    node.current_connection = Some(ConnectionID(5));
    let child = node.push_node(ConnectionID(5), trace("a", 5, &[(0, 0), (4, 0)]));
    assert_eq!(child.alternative_connections, ids(&[2, 1, 6, 7]));
    assert!(child.failed_connections.is_empty());
    assert_eq!(child.current_connection, None);
    assert_eq!(child.fixed_connections.len(), 1);
    assert_eq!(child.fixed_connections[0].connection_id, ConnectionID(5));
    assert_eq!(node.failed_connections, ids(&[1, 2, 5]));
    assert_eq!(node.current_connection, None);
    assert_eq!(node.alternative_connections, ids(&[6, 7]));
}

#[test]
fn estimates_are_sorted_by_cost_and_keep_their_order_when_equal() {
    let e = |id: usize, cost: u128| Estimate { connection_id: ConnectionID(id), cost };
    let sorted = sort_by_length(&vec![e(0, 30), e(1, 10), e(2, 30), e(3, 20), e(4, 10)]);
    assert_eq!(sorted, vec![e(1, 10), e(4, 10), e(3, 20), e(0, 30), e(2, 30)]);
    assert_eq!(connections_of(&sorted), ids(&[1, 4, 3, 0, 2]));
    assert_eq!(sort_by_length(&vec![]), vec![]);
}

#[test]
fn the_derived_order_starts_with_the_fixed_connections() {
    assert_eq!(derived_ordering(&ids(&[3, 1]), &ids(&[0, 1, 2, 3, 4])), ids(&[3, 1, 0, 2, 4]));
    assert_eq!(derived_ordering(&ids(&[]), &ids(&[2, 0])), ids(&[2, 0]));
    assert_eq!(derived_ordering(&ids(&[0, 1]), &ids(&[0, 1])), ids(&[0, 1]));
}

#[test]
fn path_cost_weighs_straight_and_diagonal_ticks() {
    assert_eq!(path(&[(0, 0), (10, 0), (14, 4)]).cost(), 10 * 65536 + 4 * 92682);
    assert_eq!(path(&[(0, 0)]).cost(), 0);
}

fn candidate(name: &str, id: usize, trace_id: usize, points: &[(i32, i32)], prior: u64, posterior: Option<u64>) -> ProbaTrace {
    ProbaTrace {
        net_name: net(name),
        connection_id: ConnectionID(id),
        proba_trace_id: ProbaTraceID(trace_id),
        trace_path: path(points),
        iteration: 1,
        prior,
        posterior,
        temp_posterior: None,
    }
}

fn node_with(candidates: Vec<ProbaTrace>, fixed: Vec<FixedTrace>) -> BacktrackNode {
    let fix_sequence = fixed.iter().map(|t| t.connection_id).collect();
    BacktrackNode {
        remaining_trace_candidates: candidates,
        fixed_traces: fixed,
        fix_sequence,
        prob_up_to_date: true,
    }
}

#[test]
fn the_posterior_ranks_a_candidate_and_the_prior_stands_in() {
    assert_eq!(candidate("a", 0, 0, &[(0, 0), (4, 0)], 7, None).get_posterior_with_fallback(), 7);
    assert_eq!(candidate("a", 0, 0, &[(0, 0), (4, 0)], 7, Some(3)).get_posterior_with_fallback(), 3);
}

#[test]
fn the_best_candidate_is_fixed_and_its_rivals_go() {
    let mut node = node_with(
        vec![
            candidate("a", 0, 0, &[(0, 0), (4, 0)], 5, None),
            candidate("b", 1, 1, &[(0, 8), (4, 8)], 9, None),
            candidate("b", 1, 2, &[(0, 16), (4, 16)], 2, None),
        ],
        vec![],
    );
    let next = node.try_fix_top_k_ranked_trace(&never_overlap, 3).unwrap();
    assert_eq!(next.fixed_traces.len(), 1);
    assert_eq!(next.fixed_traces[0].connection_id, ConnectionID(1));
    assert_eq!(next.fixed_traces[0].trace_path.anchors.0[0].position, pt(0, 8));
    assert_eq!(next.fix_sequence, ids(&[1]));
    assert!(!next.prob_up_to_date);
    let left: Vec<usize> = next.remaining_trace_candidates.iter().map(|c| c.proba_trace_id.0).collect();
    assert_eq!(left, vec![0]);
    // the node itself loses only the candidate taken out
    let own: Vec<usize> = node.remaining_trace_candidates.iter().map(|c| c.proba_trace_id.0).collect();
    assert_eq!(own, vec![0, 2]);
    assert!(node.fixed_traces.is_empty());
    assert!(node.prob_up_to_date);
}

#[test]
fn a_candidate_that_collides_with_a_fixed_trace_of_another_net_is_passed_over() {
    let fixed = vec![trace("z", 9, &[(0, 0), (4, 0)])];
    let mut node = node_with(
        vec![
            candidate("a", 0, 0, &[(4, 0), (8, 0)], 9, None),
            candidate("a", 0, 1, &[(20, 0), (24, 0)], 5, None),
        ],
        fixed,
    );
    let next = node.try_fix_top_k_ranked_trace(&share_a_point, 3).unwrap();
    assert_eq!(next.fix_sequence, ids(&[9, 0]));
    assert_eq!(next.fixed_traces[1].trace_path.anchors.0[0].position, pt(20, 0));
    assert!(node.remaining_trace_candidates.is_empty());
}

#[test]
fn a_candidate_may_touch_a_fixed_trace_of_its_own_net() {
    let fixed = vec![trace("a", 9, &[(0, 0), (4, 0)])];
    let mut node = node_with(vec![candidate("a", 0, 0, &[(4, 0), (8, 0)], 9, None)], fixed);
    let next = node.try_fix_top_k_ranked_trace(&share_a_point, 1).unwrap();
    assert_eq!(next.fix_sequence, ids(&[9, 0]));
}

#[test]
fn only_the_k_best_candidates_are_tried() {
    let fixed = vec![trace("z", 9, &[(0, 0), (4, 0)])];
    let mut node = node_with(
        vec![
            candidate("a", 0, 0, &[(4, 0), (8, 0)], 9, None),
            candidate("a", 0, 1, &[(0, 0), (0, 4)], 8, None),
            candidate("a", 0, 2, &[(20, 0), (24, 0)], 5, None),
        ],
        fixed,
    );
    assert!(node.try_fix_top_k_ranked_trace(&share_a_point, 2).is_none());
    let own: Vec<usize> = node.remaining_trace_candidates.iter().map(|c| c.proba_trace_id.0).collect();
    assert_eq!(own, vec![2]);
    assert!(node.try_fix_top_k_ranked_trace(&share_a_point, 0).is_none());
    assert_eq!(node.remaining_trace_candidates.len(), 1);
    let next = node.try_fix_any_trace(&share_a_point).unwrap();
    assert_eq!(next.fix_sequence, ids(&[9, 0]));
}

#[test]
fn a_node_is_a_solution_when_every_connection_is_fixed() {
    let node = node_with(vec![], vec![trace("a", 0, &[(0, 0), (4, 0)]), trace("b", 2, &[(0, 8), (4, 8)])]);
    assert!(node.is_solution(&ids(&[0, 2])));
    assert!(node.is_solution(&ids(&[])));
    assert!(!node.is_solution(&ids(&[0, 1, 2])));
    assert!(node.has_fixed(ConnectionID(2)));
    assert!(!node.has_fixed(ConnectionID(1)));
}

#[test]
fn the_ranked_search_fixes_until_solved() {
    let root = node_with(
        vec![
            candidate("a", 0, 0, &[(0, 0), (4, 0)], 5, None),
            candidate("b", 1, 1, &[(0, 8), (4, 8)], 9, None),
        ],
        vec![],
    );
    let mut search = BayesianBacktrack::new(root);
    let all = ids(&[0, 1]);
    // the stack is one high: with a stride of two no refresh is due
    assert!(matches!(search.next_step(&all, &never_overlap, 3, 2), BayesianStep::Continue));
    assert_eq!(search.stack.len(), 2);
    // the stack is two high: a refresh is due
    assert!(matches!(search.next_step(&all, &never_overlap, 3, 2), BayesianStep::Refresh));
    assert_eq!(search.stack.len(), 3);
    assert!(matches!(search.next_step(&all, &never_overlap, 3, 2), BayesianStep::Solved));
    let fixed: Vec<usize> = search.fixed_traces().iter().map(|t| t.connection_id.0).collect();
    assert_eq!(fixed, vec![1, 0]);
}

#[test]
fn the_ranked_search_hands_over_when_nothing_can_be_fixed() {
    let root = node_with(
        vec![candidate("a", 0, 0, &[(4, 0), (8, 0)], 5, None)],
        vec![trace("z", 2, &[(0, 0), (4, 0)])],
    );
    let mut search = BayesianBacktrack::new(root);
    match search.next_step(&ids(&[0, 1, 2]), &share_a_point, 3, 1) {
        BayesianStep::HandOver(order) => assert_eq!(order, ids(&[2, 0, 1])),
        other => panic!("unexpected step {:?}", other),
    }
    assert_eq!(search.stack.len(), 1);
}

#[test]
fn a_refreshed_node_replaces_the_top() {
    let mut search = BayesianBacktrack::new(node_with(vec![], vec![]));
    let fresh = node_with(vec![candidate("a", 0, 0, &[(0, 0), (4, 0)], 5, None)], vec![]);
    search.refresh_top(fresh);
    assert_eq!(search.stack.len(), 1);
    assert_eq!(search.stack[0].remaining_trace_candidates.len(), 1);
}

#[test]
fn a_model_numbers_its_candidates() {
    let mut model = ProbaModel::new(ids(&[0, 1]), &vec![], vec![]);
    assert_eq!(model.next_iteration, 1);
    let a = model.add_candidate(net("a"), ConnectionID(0), path(&[(0, 0), (4, 0)]), 5);
    let b = model.add_candidate(net("b"), ConnectionID(1), path(&[(4, 0), (8, 0)]), 5);
    assert_eq!((a, b), (ProbaTraceID(0), ProbaTraceID(1)));
    assert_eq!(model.candidates[1].iteration, 1);
    assert_eq!(model.candidates[1].posterior, None);
    model.finish_iteration();
    let c = model.add_candidate(net("a"), ConnectionID(0), path(&[(0, 8), (4, 8)]), 2);
    assert_eq!(c, ProbaTraceID(2));
    assert_eq!(model.candidates[2].iteration, 2);
    assert_eq!(model.candidate_count(ConnectionID(0), 1), 1);
    assert_eq!(model.candidate_count(ConnectionID(0), 2), 1);
    assert_eq!(model.candidate_count(ConnectionID(1), 2), 0);
    assert!(!model.is_fixed(ConnectionID(0)));
}

#[test]
fn quotas_of_the_sample_iterations() {
    assert_eq!(ProbaModel::quota(1, 3), 1);
    assert_eq!(ProbaModel::quota(2, 3), 3);
    assert_eq!(ProbaModel::quota(3, 3), 0);
}

#[test]
fn candidates_of_different_nets_that_collide_are_neighbours() {
    let mut model = ProbaModel::new(ids(&[0, 1, 2]), &vec![], vec![]);
    model.add_candidate(net("a"), ConnectionID(0), path(&[(0, 0), (4, 0)]), 5);
    model.add_candidate(net("b"), ConnectionID(1), path(&[(4, 0), (8, 0)]), 5);
    model.add_candidate(net("a"), ConnectionID(0), path(&[(4, 0), (4, 4)]), 5);
    model.add_candidate(net("c"), ConnectionID(2), path(&[(8, 0), (8, 4)]), 5);
    model.update_collision_adjacency(&share_a_point);
    // 0 and 2 share a point but belong to one net
    assert_eq!(model.collision_adjacency, vec![(0, 1), (1, 2), (1, 3)]);
    assert_eq!(model.neighbours(1), vec![0, 2, 3]);
    assert_eq!(model.neighbours(0), vec![1]);
    assert_eq!(model.neighbours(3), vec![1]);
    model.update_collision_adjacency(&never_overlap);
    assert!(model.collision_adjacency.is_empty());
}

#[test]
fn posteriors_change_only_when_the_round_ends() {
    let mut model = ProbaModel::new(ids(&[0, 1]), &vec![], vec![]);
    model.add_candidate(net("a"), ConnectionID(0), path(&[(0, 0), (4, 0)]), 5);
    model.add_candidate(net("b"), ConnectionID(1), path(&[(4, 0), (8, 0)]), 6);
    model.set_temp_posterior(0, 11);
    assert_eq!(model.candidates[0].posterior, None);
    assert_eq!(model.candidates[0].get_posterior_with_fallback(), 5);
    model.set_temp_posterior(1, 0);
    model.swap_posteriors();
    assert_eq!(model.candidates[0].posterior, Some(11));
    assert_eq!(model.candidates[1].posterior, Some(0));
    assert_eq!(model.candidates[0].temp_posterior, None);
    assert_eq!(model.candidates[1].get_posterior_with_fallback(), 0);
}

#[test]
fn a_node_made_from_a_model_holds_its_candidates_and_fixed_traces() {
    let fixed = vec![trace("z", 1, &[(0, 0), (4, 0)])];
    let mut model = ProbaModel::new(ids(&[0, 1]), &fixed, ids(&[1]));
    assert!(model.is_fixed(ConnectionID(1)));
    model.add_candidate(net("a"), ConnectionID(0), path(&[(0, 8), (4, 8)]), 5);
    let node = BacktrackNode::from_proba_model(&model);
    assert!(node.prob_up_to_date);
    assert_eq!(node.fix_sequence, ids(&[1]));
    assert_eq!(node.fixed_traces.len(), 1);
    assert_eq!(node.remaining_trace_candidates.len(), 1);
}

fn plan(nets: &[(&str, &[usize])], quota: usize, attempts: usize) -> SamplePlan {
    let nets = nets
        .iter()
        .map(|(name, c)| NetPlan { net_name: net(name), connections: ids(c) })
        .collect();
    SamplePlan::new(nets, quota, attempts)
}

#[test]
fn a_sample_iteration_works_net_by_net_in_rounds() {
    let mut p = plan(&[("a", &[0, 1]), ("b", &[]), ("c", &[2])], 1, 2);
    assert_eq!(p.next_work(), SampleWork::Obstacles { net: 0 });
    assert_eq!(p.next_work(), SampleWork::Generate { net: 0, connection: ConnectionID(0) });
    p.report(true);
    assert_eq!(p.next_work(), SampleWork::Generate { net: 0, connection: ConnectionID(1) });
    p.report(false);
    // second round: connection 0 has its quota
    assert_eq!(p.next_work(), SampleWork::Obstacles { net: 0 });
    assert_eq!(p.next_work(), SampleWork::Generate { net: 0, connection: ConnectionID(1) });
    p.report(false);
    // no third round; the net without connections is passed over
    assert_eq!(p.next_work(), SampleWork::Obstacles { net: 2 });
    assert_eq!(p.next_work(), SampleWork::Generate { net: 2, connection: ConnectionID(2) });
    p.report(true);
    assert_eq!(p.next_work(), SampleWork::Done);
    assert_eq!(p.next_work(), SampleWork::Done);
}

#[test]
fn a_net_with_one_pad_and_no_connection_gets_no_work() {
    let mut p = plan(&[("lonely", &[])], 3, 4);
    assert_eq!(p.next_work(), SampleWork::Done);
}

#[test]
fn a_sample_iteration_without_nets_is_done_at_once() {
    let mut p = plan(&[], 1, 4);
    assert_eq!(p.next_work(), SampleWork::Done);
}

#[test]
fn a_quota_of_zero_gives_no_work() {
    let mut p = plan(&[("a", &[0])], 0, 4);
    assert_eq!(p.next_work(), SampleWork::Done);
}

#[test]
fn a_connection_gets_candidates_up_to_its_quota() {
    let mut p = plan(&[("a", &[0])], 2, 5);
    assert_eq!(p.next_work(), SampleWork::Obstacles { net: 0 });
    assert_eq!(p.next_work(), SampleWork::Generate { net: 0, connection: ConnectionID(0) });
    p.report(true);
    assert_eq!(p.next_work(), SampleWork::Obstacles { net: 0 });
    assert_eq!(p.next_work(), SampleWork::Generate { net: 0, connection: ConnectionID(0) });
    p.report(true);
    assert_eq!(p.next_work(), SampleWork::Done);
    assert_eq!(p.generated.len(), 0);
}

fn clear_trace(_a: FixedVec2, _b: FixedVec2, _l: usize) -> bool {
    false
}

fn clear_via(_p: FixedVec2, _l: usize) -> bool {
    false
}

#[test]
fn the_cache_gives_the_first_stored_path_that_is_clear() {
    let mut cache = TraceCache::new(&ids(&[0, 1]));
    assert!(cache.lookup(ConnectionID(0), 1, &clear_trace, &clear_via).is_none());
    cache.insert(ConnectionID(0), path(&[(0, 0), (8, 0)]));
    cache.insert(ConnectionID(0), path(&[(0, 0), (0, 8), (8, 8), (8, 0)]));
    cache.insert(ConnectionID(1), path(&[(0, 16), (8, 16)]));
    let first = cache.lookup(ConnectionID(0), 1, &clear_trace, &clear_via).unwrap();
    assert_eq!(first.anchors.0.len(), 2);
    // an obstacle on the straight way: the detour is the first clear path
    let wall = |a: FixedVec2, b: FixedVec2, _l: usize| a.y.to_bits() == 0 && b.y.to_bits() == 0;
    let second = cache.lookup(ConnectionID(0), 1, &wall, &clear_via).unwrap();
    assert_eq!(second.anchors.0.len(), 4);
    let all = |_a: FixedVec2, _b: FixedVec2, _l: usize| true;
    assert!(cache.lookup(ConnectionID(0), 1, &all, &clear_via).is_none());
    assert!(cache.lookup(ConnectionID(7), 1, &clear_trace, &clear_via).is_none());
    let other = cache.lookup(ConnectionID(1), 1, &clear_trace, &clear_via).unwrap();
    assert_eq!(other.anchors.0[0].position, pt(0, 16));
}

#[test]
fn the_cache_makes_room_for_a_connection_it_does_not_know() {
    let mut cache = TraceCache::new(&ids(&[]));
    cache.insert(ConnectionID(4), path(&[(0, 0), (8, 0)]));
    assert!(cache.lookup(ConnectionID(4), 1, &clear_trace, &clear_via).is_some());
}

#[test]
fn a_path_is_checked_segment_by_segment_and_via_by_via() {
    let anchors = vec![
        TraceAnchor { position: pt(0, 0), start_layer: 0, end_layer: 0 },
        TraceAnchor { position: pt(8, 0), start_layer: 0, end_layer: 1 },
        TraceAnchor { position: pt(8, 8), start_layer: 1, end_layer: 1 },
    ];
    let p = TracePath::from_anchors(
        TraceAnchors(anchors),
        FixedPoint::from_bits(4),
        FixedPoint::from_bits(2),
        FixedPoint::from_bits(8),
    );
    assert!(check_path(&p, 2, &clear_trace, &clear_via));
    let second_layer = |_a: FixedVec2, _b: FixedVec2, l: usize| l == 1;
    assert!(!check_path(&p, 2, &second_layer, &clear_via));
    let third_layer = |_a: FixedVec2, _b: FixedVec2, l: usize| l == 2;
    assert!(check_path(&p, 2, &third_layer, &clear_via));
    let via_on_second = |_p: FixedVec2, l: usize| l == 1;
    assert!(!check_path(&p, 2, &clear_trace, &via_on_second));
    let check = AStarCheck { solution_trace: p, num_layers: 2 };
    assert!(check.check(&clear_trace, &clear_via));
    assert!(!check.check(&clear_trace, &via_on_second));
}

#[test]
fn a_solution_needs_a_trace_for_every_connection() {
    let traces = vec![trace("a", 0, &[(0, 0), (4, 0)]), trace("b", 1, &[(0, 8), (4, 8)])];
    let ok = solve_pcb_problem(traces, &ids(&[0, 1]));
    assert_eq!(ok.unwrap().determined_traces.len(), 2);
    let short = solve_pcb_problem(vec![trace("a", 0, &[(0, 0), (4, 0)])], &ids(&[0, 1]));
    assert_eq!(short.err(), Some(SolveError::NoSolution));
    let empty = solve_pcb_problem(vec![], &ids(&[]));
    assert!(empty.unwrap().determined_traces.is_empty());
}

#[test]
fn search_errors_become_job_errors() {
    assert_eq!(SolveError::from_astar(AStarError::Cancelled), SolveError::Cancelled);
    assert_eq!(SolveError::from_astar(AStarError::NoPath), SolveError::AStarNoPath);
    assert_eq!(SolveError::from_astar(AStarError::BudgetExceeded), SolveError::AStarBudgetExceeded);
    assert!(SolveError::AStarNoPath.is_recoverable());
    assert!(!SolveError::Cancelled.is_recoverable());
    assert!(!SolveError::NoSolution.is_recoverable());
    assert!(!SolveError::InputMalformed.is_recoverable());
}

#[test]
fn segments_collide_only_on_one_layer() {
    let a = TraceSegment { start: pt(0, 0), end: pt(4, 0), width: FixedPoint::from_bits(4), clearance: FixedPoint::from_bits(2), layer: 0 };
    let mut b = TraceSegment { start: pt(4, 0), end: pt(8, 0), width: FixedPoint::from_bits(4), clearance: FixedPoint::from_bits(2), layer: 0 };
    assert!(a.collides_with(&b, &share_a_point));
    // the question is asked in both orders
    let first_is_a = |x: &TraceSegment, _y: &TraceSegment| x.start == pt(0, 0);
    assert!(a.collides_with(&b, &first_is_a));
    assert!(b.collides_with(&a, &first_is_a));
    b.layer = 1;
    assert!(!a.collides_with(&b, &share_a_point));
}

#[test]
fn paths_collide_when_two_of_their_segments_do() {
    let a = path(&[(0, 0), (4, 0), (4, 4)]);
    let b = path(&[(8, 8), (4, 8), (4, 4)]);
    let c = path(&[(20, 20), (24, 20)]);
    assert!(a.collides_with(&b, &share_a_point));
    assert!(b.collides_with(&a, &share_a_point));
    assert!(!a.collides_with(&c, &share_a_point));
    assert!(!a.collides_with(&b, &never_overlap));
}
