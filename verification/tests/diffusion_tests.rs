use xa_promote::diffusion::{Aggregator, Diffusion, DiffusionResult, DiffusionStep};
use xa_promote::graph::{shortest_distances_from, Graph};

/// Runs one diffusion in which every offer is taken, user `j` acts when
/// `acts(j)` and shares when `shares(j)`; returns the offers made, in order.
fn run(
    g: &Graph,
    ip: usize,
    acts: &dyn Fn(usize) -> bool,
    shares: &dyn Fn(usize) -> bool,
    agg: &mut Aggregator<usize>,
) -> (DiffusionResult, Vec<(usize, usize)>, Vec<usize>) {
    let mut d = Diffusion::new(g, ip);
    let mut offers = Vec::new();
    let mut contacted = Vec::new();
    loop {
        match d.step(g) {
            DiffusionStep::Examine { from, to } => {
                offers.push((from, to));
                if !d.is_received(to) {
                    contacted.push(to);
                    d.deliver(g, acts(to), shares(to), &mut agg.num_share_of_users, &mut agg.num_xact_of_users);
                }
            }
            DiffusionStep::Continue => {}
            DiffusionStep::Finished => break,
        }
    }
    (d.result(), offers, contacted)
}

#[test]
fn diffusion_on_a_path_shares_round_by_round() {
    let g = Graph::from_adjacency(vec![vec![1], vec![2], vec![3], vec![]]).unwrap();
    let mut agg = Aggregator::new(4);
    let (res, offers, contacted) = run(&g, 0, &|_| true, &|_| true, &mut agg);
    assert_eq!(offers, vec![(0, 1), (1, 2), (2, 3)]);
    assert_eq!(contacted, vec![1, 2, 3]);
    assert_eq!(res.num_xact, 3);
    // Node 3 has no successors, so it cannot share.
    assert_eq!(res.num_share, 2);
    assert_eq!(res.total_step, 3);
    assert_eq!(agg.num_xact_of_users, vec![0, 1, 1, 1]);
    assert_eq!(agg.num_share_of_users, vec![0, 1, 1, 0]);
}

#[test]
fn diffusion_offers_in_frontier_order() {
    // 0 -> {1, 2}, 1 -> {3}, 2 -> {3, 0}.
    let g = Graph::from_adjacency(vec![vec![1, 2], vec![3], vec![3, 0], vec![]]).unwrap();
    let mut agg = Aggregator::new(4);
    let (res, offers, contacted) = run(&g, 0, &|j| j == 3, &|_| true, &mut agg);
    // Round 1: 0 offers to 1 and 2; round 2: the frontier [1, 2] is taken
    // from its end, so 2 offers first.
    assert_eq!(offers, vec![(0, 1), (0, 2), (2, 3), (2, 0), (1, 3)]);
    assert_eq!(contacted, vec![1, 2, 3]);
    assert_eq!(res.num_xact, 1);
    assert_eq!(res.num_share, 2);
    assert_eq!(res.total_step, 2);
    assert_eq!(agg.num_xact_of_users, vec![0, 0, 0, 1]);
}

#[test]
fn diffusion_without_takers_runs_one_round() {
    let g = Graph::from_adjacency(vec![vec![1, 2], vec![0], vec![0]]).unwrap();
    let mut d = Diffusion::new(&g, 0);
    let mut examined = 0;
    loop {
        match d.step(&g) {
            DiffusionStep::Examine { .. } => examined += 1,
            DiffusionStep::Continue => {}
            DiffusionStep::Finished => break,
        }
    }
    let res = d.result();
    assert_eq!(examined, 2);
    assert_eq!((res.num_xact, res.num_share, res.total_step), (0, 0, 1));
}

#[test]
fn diffusion_from_isolated_poster() {
    let g = Graph::from_adjacency(vec![vec![], vec![0]]).unwrap();
    let mut agg = Aggregator::new(2);
    let (res, offers, _) = run(&g, 0, &|_| true, &|_| true, &mut agg);
    assert!(offers.is_empty());
    assert_eq!((res.num_xact, res.num_share, res.total_step), (0, 0, 1));
}

#[test]
fn receivers_have_a_distance() {
    let g = Graph::from_adjacency(vec![vec![1], vec![2], vec![], vec![0]]).unwrap();
    let mut agg = Aggregator::new(4);
    let (_, _, contacted) = run(&g, 0, &|_| false, &|_| true, &mut agg);
    let dist = shortest_distances_from(&g, 0);
    for j in contacted {
        assert!(dist[j].is_some());
    }
    assert_eq!(dist[3], None);
}

#[test]
fn user_counts_grow_by_one_per_diffusion() {
    let g = Graph::from_adjacency(vec![vec![1, 2], vec![2], vec![1]]).unwrap();
    let mut agg = Aggregator::new(3);
    for _ in 0..4 {
        let (res, _, _) = run(&g, 0, &|_| true, &|_| true, &mut agg);
        agg.add_result(&res);
    }
    assert_eq!(agg.mean_num_xact, 8);
    assert_eq!(agg.num_xact_of_users, vec![0, 4, 4]);
    assert_eq!(agg.num_share_of_users, vec![0, 4, 4]);
}

#[test]
fn aggregator_starts_at_zero() {
    let agg = Aggregator::new(3);
    assert_eq!(agg.mean_num_xact, 0);
    assert_eq!(agg.mean_num_share, 0);
    assert_eq!(agg.num_share_of_users, vec![0, 0, 0]);
    assert_eq!(agg.num_xact_of_users, vec![0, 0, 0]);
}

#[test]
fn user_action_results_keep_active_users_in_order() {
    let agg = Aggregator {
        mean_num_xact: 3,
        mean_num_share: 3,
        num_share_of_users: vec![0, 2, 0, 0, 1],
        num_xact_of_users: vec![0, 1, 0, 2, 0],
    };
    let dist = vec![Some(0), Some(1), None, Some(2), Some(1)];
    let rows = xa_promote::diffusion::user_action_results(&agg, &dist, 4);
    let got: Vec<(usize, usize, usize, Option<usize>)> =
        rows.iter().map(|r| (r.user_id, r.num_share, r.num_xact, r.distance_from_ip)).collect();
    assert_eq!(got, vec![(1, 2, 1, Some(1)), (3, 0, 2, Some(2)), (4, 1, 0, Some(1))]);
}

#[test]
fn user_action_results_of_idle_users_are_empty() {
    let agg = Aggregator::new(4);
    let rows = xa_promote::diffusion::user_action_results(&agg, &vec![None; 4], 3);
    assert!(rows.is_empty());
}

#[test]
fn user_action_results_without_samples_list_every_user() {
    let agg = Aggregator::new(3);
    let dist = vec![Some(0), None, Some(1)];
    let rows = xa_promote::diffusion::user_action_results(&agg, &dist, 0);
    let got: Vec<(usize, Option<usize>)> = rows.iter().map(|r| (r.user_id, r.distance_from_ip)).collect();
    assert_eq!(got, vec![(0, Some(0)), (1, None), (2, Some(1))]);
}

#[test]
fn deliver_accepts_longer_counters() {
    let g = Graph::from_adjacency(vec![vec![1], vec![]]).unwrap();
    let mut share = vec![0usize; 5];
    let mut xact = vec![0usize; 5];
    let mut d = Diffusion::new(&g, 0);
    loop {
        match d.step(&g) {
            DiffusionStep::Examine { to, .. } => {
                if !d.is_received(to) {
                    d.deliver(&g, true, true, &mut share, &mut xact);
                }
            }
            DiffusionStep::Continue => {}
            DiffusionStep::Finished => break,
        }
    }
    assert_eq!(xact, vec![0, 1, 0, 0, 0]);
    assert_eq!(share, vec![0, 0, 0, 0, 0]);
}

#[test]
fn whole_diffusion_matches_the_step_machine() {
    let g = Graph::from_adjacency(vec![vec![1, 2], vec![3], vec![3, 0], vec![]]).unwrap();
    let mut share = vec![0usize; 4];
    let mut xact = vec![0usize; 4];
    let offer = |mut offers: Vec<(usize, bool)>, j: usize, received: bool| {
        offers.push((j, received));
        (offers, if received { None } else { Some((j == 3, true)) })
    };
    let (res, offers) = xa_promote::diffusion::diffuse(&g, 0, Vec::new(), &offer, &mut share, &mut xact);
    // one call per out-edge of the poster 0 and the sharers 1 and 2: 2 + 1 + 2
    assert_eq!(offers, vec![(1, false), (2, false), (3, false), (0, true), (3, true)]);
    assert_eq!((res.num_xact, res.num_share, res.total_step), (1, 2, 2));
    assert_eq!(xact, vec![0, 0, 0, 1]);
    assert_eq!(share, vec![0, 1, 1, 0]);
}

#[test]
fn whole_diffusion_with_no_takers() {
    let g = Graph::from_adjacency(vec![vec![1, 2], vec![0], vec![0]]).unwrap();
    let mut share = vec![7usize; 3];
    let mut xact = vec![7usize; 3];
    let offer = |calls: usize, _j: usize, _r: bool| (calls + 1, None);
    let (res, calls) = xa_promote::diffusion::diffuse(&g, 0, 0usize, &offer, &mut share, &mut xact);
    assert_eq!((res.num_xact, res.num_share, res.total_step), (0, 0, 1));
    assert_eq!(calls, 2);
    assert_eq!(xact, vec![7, 7, 7]);
}

#[test]
fn whole_diffusion_on_a_three_node_path() {
    let g = Graph::from_adjacency(vec![vec![1], vec![2], vec![]]).unwrap();
    let mut share = vec![0usize; 3];
    let mut xact = vec![0usize; 3];
    let offer = |s: (), _j: usize, received: bool| (s, if received { None } else { Some((true, true)) });
    let (res, _) = xa_promote::diffusion::diffuse(&g, 0, (), &offer, &mut share, &mut xact);
    assert_eq!((res.num_xact, res.num_share, res.total_step), (2, 1, 2));
    assert_eq!(share, vec![0, 1, 0]);
    assert_eq!(xact, vec![0, 1, 1]);
}

#[test]
fn multiple_diffusions_add_up_per_message() {
    let g = Graph::from_adjacency(vec![vec![1], vec![2], vec![]]).unwrap();
    let mut agg = Aggregator::new(3);
    let offer = |mut asked: Vec<(usize, usize, bool)>, m: usize, j: usize, received: bool| {
        asked.push((m, j, received));
        (asked, if received || (m == 1 && j == 2) { None } else { Some((true, m == 0)) })
    };
    let asked = xa_promote::diffusion::multiple_diffuse(&g, 0, 2, Vec::new(), &offer, &mut agg);
    assert_eq!(asked, vec![(0, 1, false), (0, 2, false), (1, 1, false)]);
    assert_eq!(agg.mean_num_xact, 3);
    assert_eq!(agg.mean_num_share, 1);
    assert_eq!(agg.num_xact_of_users, vec![0, 2, 1]);
    assert_eq!(agg.num_share_of_users, vec![0, 1, 0]);
}

#[test]
fn multiple_diffusions_of_no_messages_change_nothing() {
    let g = Graph::from_adjacency(vec![vec![1], vec![]]).unwrap();
    let mut agg = Aggregator::new(2);
    agg.mean_num_xact = 5;
    let offer = |s: u8, _m: usize, _j: usize, _r: bool| (s + 1, Some((true, true)));
    let s = xa_promote::diffusion::multiple_diffuse(&g, 0, 0, 7u8, &offer, &mut agg);
    assert_eq!(s, 7);
    assert_eq!(agg.mean_num_xact, 5);
    assert_eq!(agg.num_xact_of_users, vec![0, 0]);
}

#[test]
fn monte_carlo_counts_sum_over_samples() {
    let g = Graph::from_adjacency(vec![vec![1], vec![2], vec![]]).unwrap();
    // the state is (samples started, offers asked in the current sample)
    let start_sample = |s: (Vec<usize>, usize), k: usize| {
        let mut started = s.0;
        started.push(k);
        (started, 0)
    };
    let offer = |s: (Vec<usize>, usize), _m: usize, _j: usize, received: bool| {
        ((s.0, s.1 + 1), if received { None } else { Some((true, true)) })
    };
    let (agg, last) = xa_promote::diffusion::monte_carlo_counts(&g, 0, 2, 3, (Vec::new(), 9), &start_sample, &offer);
    assert_eq!(last, (vec![0, 1, 2], 4));
    assert_eq!(agg.mean_num_xact, 12);
    assert_eq!(agg.mean_num_share, 6);
    assert_eq!(agg.num_xact_of_users, vec![0, 6, 6]);
    assert_eq!(agg.num_share_of_users, vec![0, 6, 0]);
}

#[test]
fn monte_carlo_counts_without_samples_are_zero() {
    let g = Graph::from_adjacency(vec![vec![1], vec![]]).unwrap();
    let start_sample = |s: u8, _k: usize| s;
    let offer = |s: u8, _m: usize, _j: usize, _r: bool| (s, Some((true, true)));
    let (agg, last) = xa_promote::diffusion::monte_carlo_counts(&g, 0, 4, 0, 3u8, &start_sample, &offer);
    assert_eq!(last, 3);
    assert_eq!(agg.mean_num_xact, 0);
    assert_eq!(agg.mean_num_share, 0);
    assert_eq!(agg.num_xact_of_users, vec![0, 0]);
    assert_eq!(agg.num_share_of_users, vec![0, 0]);
}
