use rand::rngs::SmallRng;
use rand::Rng;
use xa_promote::config::GraphFormat;
use xa_promote::sampling::RngSampling;

#[test]
fn sample_with_draws_size_samples_reproducibly() {
    let s = RngSampling { size: 5, seed: 42 };
    let a = s.sample_with(|rng: &mut SmallRng| rng.random::<u64>());
    let b = s.sample_with(|rng: &mut SmallRng| rng.random::<u64>());
    assert_eq!(a.len(), 5);
    assert_eq!(a, b);
    let c = RngSampling { size: 5, seed: 43 }.sample_with(|rng: &mut SmallRng| rng.random::<u64>());
    assert_ne!(a, c);
}

#[test]
fn custom_passes_the_size() {
    let s = RngSampling { size: 7, seed: 1 };
    assert_eq!(s.custom(|_rng: &mut SmallRng, size| size * 2), 14);
}

#[test]
fn graph_format_defaults_to_edge_list() {
    assert!(matches!(GraphFormat::default(), GraphFormat::EdgeList));
}

#[test]
fn smaller_sample_is_a_prefix_of_a_larger_one() {
    let a = RngSampling { size: 3, seed: 9 }.sample_with(|rng: &mut SmallRng| rng.random::<u32>());
    let b = RngSampling { size: 6, seed: 9 }.sample_with(|rng: &mut SmallRng| rng.random::<u32>());
    assert_eq!(a.len(), 3);
    assert_eq!(a[..], b[..3]);
}

#[test]
fn sample_posters_draws_distinct_nodes() {
    let s = RngSampling { size: 3, seed: 7 };
    let ips = xa_promote::sampling::sample_posters(&s, 10);
    assert_eq!(ips.len(), 3);
    assert!(ips.iter().all(|&ip| ip < 10));
    let mut sorted = ips.clone();
    sorted.sort();
    sorted.dedup();
    assert_eq!(sorted.len(), 3);
    assert_eq!(ips, xa_promote::sampling::sample_posters(&s, 10));
}

#[test]
fn sample_posters_takes_every_node_when_too_few() {
    let s = RngSampling { size: 5, seed: 7 };
    let mut ips = xa_promote::sampling::sample_posters(&s, 3);
    ips.sort();
    assert_eq!(ips, vec![0, 1, 2]);
}

#[test]
fn user_generators_fork_two_generators_per_sample() {
    let s = RngSampling { size: 4, seed: 3 };
    let mut a = xa_promote::sampling::user_generators(&s);
    let mut b = xa_promote::sampling::user_generators(&s);
    assert_eq!(a.len(), 4);
    let (x, y) = (a[0].0.random::<u64>(), a[0].1.random::<u64>());
    assert_ne!(x, y);
    assert_eq!(x, b[0].0.random::<u64>());
    assert_ne!(a[1].0.random::<u64>(), b[0].1.random::<u64>());
}
