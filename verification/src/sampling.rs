//! Seeded sampling of simulation inputs.

use rand::rngs::SmallRng;
use rand::seq::IteratorRandom;
use rand::SeedableRng;
use vstd::prelude::*;

verus! {

broadcast use vstd::function::group_function_axioms;

#[verifier::external_type_specification]
#[verifier::external_body]
pub struct ExSmallRng(SmallRng);

/// The generator that `SmallRng::seed_from_u64` makes from `seed`.
pub uninterp spec fn small_rng_from_seed(seed: u64) -> SmallRng;

/// `SmallRng::seed_from_u64`: the small generator seeded with `seed`. The
/// contract claims only that the generator is a function of the seed, as
/// the crate's seed expansion is; what it then produces is not stated.
#[verifier::external_body]
fn seeded_rng(seed: u64) -> (r: SmallRng)
    ensures
        r == small_rng_from_seed(seed),
{
    SmallRng::seed_from_u64(seed)
}

/// `v` is a choice of `amount` distinct nodes of a graph of `n` nodes, or of
/// all `n` when there are fewer: `min(amount, n)` entries, each a node below
/// `n`, none twice.
pub open spec fn is_node_choice(v: Seq<usize>, amount: usize, n: usize) -> bool {
    &&& v.len() == (if amount < n { amount } else { n })
    &&& v.no_duplicates()
    &&& forall|k: int| 0 <= k < v.len() ==> #[trigger] v[k] < n
}

/// `SmallRng::from_rng`: a new small generator seeded from 32 bytes drawn
/// from `rng`. The new generator and the state `rng` is left in are both
/// functions of `rng`'s state, which is the crate's private data; the
/// contract states neither.
#[verifier::external_body]
fn fork_rng(rng: &mut SmallRng) -> (r: SmallRng) {
    SmallRng::from_rng(rng)
}

/// `IteratorRandom::choose_multiple` on the nodes `0..n`: `amount` distinct
/// nodes drawn with `rng`, or all `n` of them when there are fewer. The
/// contract claims what the crate's reservoir sampling guarantees: the result
/// has `min(amount, n)` entries, each a node below `n`, none twice. Which
/// nodes come, in what order, and where `rng` is left depend on `rng`'s
/// private state and are not stated. The reservoir is allocated for
/// `amount` nodes up front, so `amount` must leave room for that allocation.
#[verifier::external_body]
fn choose_nodes(rng: &mut SmallRng, n: usize, amount: usize) -> (v: Vec<usize>)
    requires
        amount * 8 <= isize::MAX,
    ensures
        is_node_choice(v@, amount, n),
{
    (0..n).choose_multiple(rng, amount)
}

/// How many samples to draw, and the seed of the generator they are drawn with.
pub struct RngSampling {
    pub size: usize,
    pub seed: u64,
}

impl RngSampling {
    /// Draws `size` samples, in order, by calling `f` on one generator seeded
    /// with `seed`: the first call gets the seeded generator, and each later
    /// call gets the generator as the previous call left it.
    pub fn sample_with<T, F: FnMut(&mut SmallRng) -> T>(&self, mut f: F) -> (v: Vec<T>)
        requires
            forall|r: &mut SmallRng| #[trigger] f.requires((r,)),
        ensures
            v@.len() == self.size,
            exists|states: Seq<SmallRng>|
                {
                    &&& #[trigger] states.len() == self.size + 1
                    &&& states[0] == small_rng_from_seed(self.seed)
                    &&& forall|k: int|
                        0 <= k < self.size ==> exists|r: &mut SmallRng|
                            *r == #[trigger] states[k] && *final(r) == states[k + 1] && f.ensures((r,), v@[k])
                },
    {
        let mut rng = seeded_rng(self.seed);
        let mut v: Vec<T> = Vec::new();
        let ghost mut states: Seq<SmallRng> = seq![rng];
        let ghost f0 = f;
        let mut i: usize = 0;
        while i < self.size
            invariant
                i <= self.size,
                v@.len() == i,
                forall|r: &mut SmallRng| #[trigger] f0.requires((r,)),
                f == f0,
                states.len() == i + 1,
                states[0] == small_rng_from_seed(self.seed),
                states[i as int] == rng,
                forall|k: int|
                    0 <= k < i ==> exists|r: &mut SmallRng|
                        *r == #[trigger] states[k] && *final(r) == states[k + 1] && f0.ensures((r,), v@[k]),
            decreases self.size - i,
        {
            let ghost before = states;
            let ghost old_v = v@;
            let ghost prev = rng;
            let x = f(&mut rng);
            proof {
                states = states.push(rng);
            }
            v.push(x);
            proof {
                assert(states[i as int] == prev && states[i + 1] == rng && v@[i as int] == x);
                assert(exists|r: &mut SmallRng| *r == states[i as int] && *final(r) == states[i + 1] && f0.ensures((r,), v@[i as int]));
                assert forall|k: int| 0 <= k < i + 1 implies exists|r: &mut SmallRng|
                    *r == #[trigger] states[k] && *final(r) == states[k + 1] && f0.ensures((r,), v@[k]) by {
                    if k < i {
                        assert(states[k] == before[k] && states[k + 1] == before[k + 1] && v@[k] == old_v[k]);
                        assert(exists|r: &mut SmallRng|
                            *r == before[k] && *final(r) == before[k + 1] && f0.ensures((r,), old_v[k]));
                    }
                }
            }
            i = i + 1;
        }
        v
    }

    /// Calls `f` once with a generator seeded with `seed` and the sample size,
    /// and returns what `f` returns.
    pub fn custom<T, F: FnMut(&mut SmallRng, usize) -> T>(&self, mut f: F) -> (out: T)
        requires
            forall|r: &mut SmallRng| #[trigger] f.requires((r, self.size)),
        ensures
            exists|r: &mut SmallRng|
                *r == small_rng_from_seed(self.seed) && #[trigger] f.ensures((r, self.size), out),
    {
        let mut rng = seeded_rng(self.seed);
        f(&mut rng, self.size)
    }
}

/// `out` is a generator that forking `r` with `SmallRng::from_rng` gave:
/// a call of `fork_rng` on `r`, from `*r` to `*final(r)`, returned `out`.
pub closed spec fn forked(r: &mut SmallRng, out: SmallRng) -> bool {
    call_ensures(fork_rng, (r,), out)
}

/// The generators of the samples of user states: for each of the
/// `sampling.size` samples, in order, two generators forked in turn from one
/// generator, the first for the users' internal decisions and the second for
/// their external ones. That one generator is seeded with `sampling.seed`
/// once and carried through all the samples: `states` is its chain, sample
/// `k` forks from `states[k]` and leaves `states[k + 1]`.
pub fn user_generators(sampling: &RngSampling) -> (v: Vec<(SmallRng, SmallRng)>)
    ensures
        v@.len() == sampling.size,
        exists|states: Seq<SmallRng>, firsts: Seq<&mut SmallRng>, seconds: Seq<&mut SmallRng>|
            #![trigger states.len(), firsts.len(), seconds.len()]
            {
                &&& states.len() == v@.len() + 1
                &&& firsts.len() == v@.len()
                &&& seconds.len() == v@.len()
                &&& states[0] == small_rng_from_seed(sampling.seed)
                &&& forall|k: int|
                    0 <= k < v@.len() ==> {
                        &&& *#[trigger] firsts[k] == states[k]
                        &&& forked(firsts[k], v@[k].0)
                        &&& *seconds[k] == *final(firsts[k])
                        &&& forked(seconds[k], v@[k].1)
                        &&& *final(seconds[k]) == states[k + 1]
                    }
            },
{
    let fork = |rng: &mut SmallRng| -> (p: (SmallRng, SmallRng))
        ensures
            exists|r1: &mut SmallRng, r2: &mut SmallRng|
                #![trigger call_ensures(fork_rng, (r1,), p.0), call_ensures(fork_rng, (r2,), p.1)]
                {
                    &&& *r1 == *old(rng)
                    &&& call_ensures(fork_rng, (r1,), p.0)
                    &&& *r2 == *final(r1)
                    &&& call_ensures(fork_rng, (r2,), p.1)
                    &&& *final(r2) == *final(rng)
                },
        {
            let fk = fork_rng;
            let ghost g0 = *rng;
            let internal = fk(rng);
            let ghost g1 = *rng;
            assert(exists|r1: &mut SmallRng| #![trigger call_ensures(fork_rng, (r1,), internal)]
                *r1 == g0 && call_ensures(fork_rng, (r1,), internal) && *final(r1) == g1);
            let external = fk(rng);
            let p = (internal, external);
            assert(p.0 == internal && p.1 == external);
            p
        };
    let ghost fork_g = fork;
    let v = sampling.sample_with(fork);
    proof {
        lemma_pairs_forked(fork_g, sampling.seed, sampling.size, v@);
    }
    v
}

/// How the generators of `user_generators` hang together, given the chain its
/// contract states: sample 0 forks from the generator seeded with `seed`;
/// within a sample the second fork starts where the first left the
/// generator; and sample `k + 1` forks from where sample `k` left it, never
/// from a freshly seeded generator.
pub proof fn lemma_user_generators_chain(
    seed: u64,
    v: Seq<(SmallRng, SmallRng)>,
    states: Seq<SmallRng>,
    firsts: Seq<&mut SmallRng>,
    seconds: Seq<&mut SmallRng>,
)
    requires
        states.len() == v.len() + 1,
        firsts.len() == v.len(),
        seconds.len() == v.len(),
        states[0] == small_rng_from_seed(seed),
        forall|k: int|
            0 <= k < v.len() ==> {
                &&& *#[trigger] firsts[k] == states[k]
                &&& forked(firsts[k], v[k].0)
                &&& *seconds[k] == *final(firsts[k])
                &&& forked(seconds[k], v[k].1)
                &&& *final(seconds[k]) == states[k + 1]
            },
    ensures
        v.len() > 0 ==> *firsts[0] == small_rng_from_seed(seed),
        forall|k: int| 0 <= k < v.len() ==> forked(#[trigger] firsts[k], v[k].0) && forked(seconds[k], v[k].1),
        forall|k: int| 0 <= k < v.len() ==> *#[trigger] seconds[k] == *final(firsts[k]),
        forall|k: int| 0 <= k < v.len() - 1 ==> *#[trigger] firsts[k + 1] == *final(seconds[k]),
{
    assert forall|k: int| 0 <= k < v.len() - 1 implies *#[trigger] firsts[k + 1] == *final(seconds[k]) by {
        assert(*firsts[k] == states[k]);
        assert(*firsts[k + 1] == states[k + 1]);
    }
}

/// The pairs that `sample_with` gives for a closure that forks its generator
/// twice are forked from the generator chain that starts at the seeded one.
proof fn lemma_pairs_forked<F: FnMut(&mut SmallRng) -> (SmallRng, SmallRng)>(
    f: F,
    seed: u64,
    size: usize,
    v: Seq<(SmallRng, SmallRng)>,
)
    requires
        v.len() == size,
        forall|r: &mut SmallRng, p: (SmallRng, SmallRng)|
            #[trigger] f.ensures((r,), p) ==> exists|r1: &mut SmallRng, r2: &mut SmallRng|
                #![trigger call_ensures(fork_rng, (r1,), p.0), call_ensures(fork_rng, (r2,), p.1)]
                {
                    &&& *r1 == *r
                    &&& call_ensures(fork_rng, (r1,), p.0)
                    &&& *r2 == *final(r1)
                    &&& call_ensures(fork_rng, (r2,), p.1)
                    &&& *final(r2) == *final(r)
                },
        exists|states: Seq<SmallRng>|
            {
                &&& #[trigger] states.len() == size + 1
                &&& states[0] == small_rng_from_seed(seed)
                &&& forall|k: int|
                    0 <= k < size ==> exists|r: &mut SmallRng|
                        *r == #[trigger] states[k] && *final(r) == states[k + 1] && f.ensures((r,), v[k])
            },
    ensures
        exists|states: Seq<SmallRng>, firsts: Seq<&mut SmallRng>, seconds: Seq<&mut SmallRng>|
            #![trigger states.len(), firsts.len(), seconds.len()]
            {
                &&& states.len() == v.len() + 1
                &&& firsts.len() == v.len()
                &&& seconds.len() == v.len()
                &&& states[0] == small_rng_from_seed(seed)
                &&& forall|k: int|
                    0 <= k < v.len() ==> {
                        &&& *#[trigger] firsts[k] == states[k]
                        &&& forked(firsts[k], v[k].0)
                        &&& *seconds[k] == *final(firsts[k])
                        &&& forked(seconds[k], v[k].1)
                        &&& *final(seconds[k]) == states[k + 1]
                    }
            },
{
    let states = choose|states: Seq<SmallRng>|
        {
            &&& #[trigger] states.len() == size + 1
            &&& states[0] == small_rng_from_seed(seed)
            &&& forall|k: int|
                0 <= k < size ==> exists|r: &mut SmallRng|
                    *r == #[trigger] states[k] && *final(r) == states[k + 1] && f.ensures((r,), v[k])
        };
    let pairs = Seq::new(
        size as nat,
        |k: int|
            {
                let r = choose|r: &mut SmallRng| *r == states[k] && *final(r) == states[k + 1] && f.ensures((r,), v[k]);
                choose|q: (&'static mut SmallRng, &'static mut SmallRng)|
                    {
                        &&& *q.0 == *r
                        &&& call_ensures(fork_rng, (q.0,), v[k].0)
                        &&& *q.1 == *final(q.0)
                        &&& call_ensures(fork_rng, (q.1,), v[k].1)
                        &&& *final(q.1) == *final(r)
                    }
            },
    );
    let firsts = Seq::new(size as nat, |k: int| pairs[k].0);
    let seconds = Seq::new(size as nat, |k: int| pairs[k].1);
    assert forall|k: int| 0 <= k < size implies {
        &&& *#[trigger] firsts[k] == states[k]
        &&& forked(firsts[k], v[k].0)
        &&& *seconds[k] == *final(firsts[k])
        &&& forked(seconds[k], v[k].1)
        &&& *final(seconds[k]) == states[k + 1]
    } by {
        let r = choose|r: &mut SmallRng| *r == states[k] && *final(r) == states[k + 1] && f.ensures((r,), v[k]);
        assert(exists|q: (&'static mut SmallRng, &'static mut SmallRng)|
            {
                &&& *q.0 == *r
                &&& call_ensures(fork_rng, (q.0,), v[k].0)
                &&& *q.1 == *final(q.0)
                &&& call_ensures(fork_rng, (q.1,), v[k].1)
                &&& *final(q.1) == *final(r)
            }) by {
            let (r1, r2) = choose|r1: &'static mut SmallRng, r2: &'static mut SmallRng|
                {
                    &&& *r1 == *r
                    &&& call_ensures(fork_rng, (r1,), v[k].0)
                    &&& *r2 == *final(r1)
                    &&& call_ensures(fork_rng, (r2,), v[k].1)
                    &&& *final(r2) == *final(r)
                };
            assert((r1, r2).0 == r1 && (r1, r2).1 == r2);
        }
        assert(firsts[k] == pairs[k].0 && seconds[k] == pairs[k].1);
    }
    assert(states.len() == v.len() + 1 && firsts.len() == v.len() && seconds.len() == v.len());
}

/// The initial posters of a search: `sampling.size` distinct nodes of a
/// graph of `num_nodes` nodes (all of them when there are fewer), drawn with
/// the generator that `sampling.seed` seeds.
pub fn sample_posters(sampling: &RngSampling, num_nodes: usize) -> (ips: Vec<usize>)
    requires
        sampling.size * 8 <= isize::MAX,
    ensures
        is_node_choice(ips@, sampling.size, num_nodes),
{
    let size = sampling.size;
    let pick = |rng: &mut SmallRng, amount: usize| -> (v: Vec<usize>)
        requires
            amount == size,
        ensures
            is_node_choice(v@, size, num_nodes),
        { choose_nodes(rng, num_nodes, amount) };
    sampling.custom(pick)
}

/// A sampler whose output and next generator depend only on the generator
/// it gets draws the same first samples whatever the number of samples:
/// given two outcomes of `sample_with` for `f` with one seed, as its contract
/// states them (`a_states`, `b_states` chain the generator from the seeded
/// one, and call `k` got `states[k]`, left `states[k + 1]` and gave the
/// `k`-th sample), the samples of the smaller size are the first samples of
/// the larger one, and the generator chains agree up to there.
pub proof fn lemma_sample_prefix<T, F: FnMut(&mut SmallRng) -> T>(
    f: F,
    seed: u64,
    a: Seq<T>,
    a_states: Seq<SmallRng>,
    b: Seq<T>,
    b_states: Seq<SmallRng>,
)
    requires
        a.len() <= b.len(),
        a_states.len() == a.len() + 1,
        b_states.len() == b.len() + 1,
        a_states[0] == small_rng_from_seed(seed),
        b_states[0] == small_rng_from_seed(seed),
        forall|k: int|
            0 <= k < a.len() ==> exists|r: &mut SmallRng|
                *r == #[trigger] a_states[k] && *final(r) == a_states[k + 1] && f.ensures((r,), a[k]),
        forall|k: int|
            0 <= k < b.len() ==> exists|r: &mut SmallRng|
                *r == #[trigger] b_states[k] && *final(r) == b_states[k + 1] && f.ensures((r,), b[k]),
        forall|r1: &mut SmallRng, r2: &mut SmallRng, x1: T, x2: T|
            *r1 == *r2 && #[trigger] f.ensures((r1,), x1) && #[trigger] f.ensures((r2,), x2) ==> x1 == x2
                && *final(r1) == *final(r2),
    ensures
        forall|k: int| 0 <= k < a.len() ==> #[trigger] a[k] == b[k],
        forall|k: int| 0 <= k <= a.len() ==> #[trigger] a_states[k] == b_states[k],
{
    assert forall|k: int| 0 <= k <= a.len() implies #[trigger] a_states[k] == b_states[k] by {
        lemma_sample_prefix_states(f, seed, a, a_states, b, b_states, k);
    }
    assert forall|k: int| 0 <= k < a.len() implies #[trigger] a[k] == b[k] by {
        lemma_sample_prefix_states(f, seed, a, a_states, b, b_states, k);
        assert(a_states[k] == b_states[k]);
        let r1 = choose|r: &mut SmallRng| *r == a_states[k] && *final(r) == a_states[k + 1] && f.ensures((r,), a[k]);
        let r2 = choose|r: &mut SmallRng| *r == b_states[k] && *final(r) == b_states[k + 1] && f.ensures((r,), b[k]);
    }
}

/// The generator chains of two such outcomes agree up to call `k`.
proof fn lemma_sample_prefix_states<T, F: FnMut(&mut SmallRng) -> T>(
    f: F,
    seed: u64,
    a: Seq<T>,
    a_states: Seq<SmallRng>,
    b: Seq<T>,
    b_states: Seq<SmallRng>,
    k: int,
)
    requires
        0 <= k <= a.len() <= b.len(),
        a_states.len() == a.len() + 1,
        b_states.len() == b.len() + 1,
        a_states[0] == small_rng_from_seed(seed),
        b_states[0] == small_rng_from_seed(seed),
        forall|k: int|
            0 <= k < a.len() ==> exists|r: &mut SmallRng|
                *r == #[trigger] a_states[k] && *final(r) == a_states[k + 1] && f.ensures((r,), a[k]),
        forall|k: int|
            0 <= k < b.len() ==> exists|r: &mut SmallRng|
                *r == #[trigger] b_states[k] && *final(r) == b_states[k + 1] && f.ensures((r,), b[k]),
        forall|r1: &mut SmallRng, r2: &mut SmallRng, x1: T, x2: T|
            *r1 == *r2 && #[trigger] f.ensures((r1,), x1) && #[trigger] f.ensures((r2,), x2) ==> x1 == x2
                && *final(r1) == *final(r2),
    ensures
        a_states[k] == b_states[k],
    decreases k,
{
    if k > 0 {
        lemma_sample_prefix_states(f, seed, a, a_states, b, b_states, k - 1);
        let j = k - 1;
        assert(a_states[j] == b_states[j]);
        let r1 = choose|r: &mut SmallRng| *r == a_states[j] && *final(r) == a_states[j + 1] && f.ensures((r,), a[j]);
        let r2 = choose|r: &mut SmallRng| *r == b_states[j] && *final(r) == b_states[j + 1] && f.ensures((r,), b[j]);
    }
}

} // verus!
