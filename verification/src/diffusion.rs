//! One diffusion of a message through a graph, as a state machine.
//!
//! The message starts at the initial poster `ip`. In each round every user
//! who is about to share it offers it to each of their successors in turn;
//! an offer to a user who has not received the message yet may be taken, and
//! a user who takes it is contacted, may act on it externally, and may share
//! it onward in the next round if they have successors. The chance of an
//! offer being taken and the users' reactions are decided by the caller; this
//! machine keeps the order of the offers, who has received the message, the
//! frontier of each round and all the counts.

use crate::graph::{adjacency_wf, is_edge, is_walk, lemma_walk_extend, reachable, reachable_within, Graph};
use vstd::prelude::*;
use vstd::set_lib::{lemma_int_range, lemma_len_subset, set_int_range};

verus! {

/// The totals of one diffusion.
#[derive(Clone, Copy, Debug)]
pub struct DiffusionResult {
    /// How many users acted externally on the message.
    pub num_xact: usize,
    /// How many users shared the message onward.
    pub num_share: usize,
    /// How many rounds of sharing took place.
    pub total_step: usize,
}

/// Counts gathered over many diffusions: the total numbers of external
/// actions and of shares, and for each user how often they shared and how
/// often they acted.
pub struct Aggregator<V> {
    pub mean_num_xact: V,
    pub mean_num_share: V,
    pub num_share_of_users: Vec<V>,
    pub num_xact_of_users: Vec<V>,
}

/// What one user did over many diffusions: how often they shared and how
/// often they acted, and their distance from the poster.
#[derive(Clone, Debug)]
pub struct UserActionResult<V> {
    pub num_share: V,
    pub num_xact: V,
    pub user_id: usize,
    pub distance_from_ip: Option<usize>,
}

/// What the caller is to do next.
pub enum DiffusionStep {
    /// Decide whether the offer of the message from `from` to `to` is taken;
    /// if it is and `to` has not received the message, contact `to` and call
    /// `deliver`.
    Examine { from: usize, to: usize },
    /// Nothing to decide; call `step` again.
    Continue,
    /// The diffusion is over; `result` holds its totals.
    Finished,
}

impl Aggregator<usize> {
    /// All counts zero, for a graph of `num_nodes` users.
    pub fn new(num_nodes: usize) -> (a: Self)
        ensures
            a.mean_num_xact == 0,
            a.mean_num_share == 0,
            a.num_share_of_users@ == Seq::new(num_nodes as nat, |j: int| 0usize),
            a.num_xact_of_users@ == Seq::new(num_nodes as nat, |j: int| 0usize),
    {
        let mut share: Vec<usize> = Vec::new();
        let mut xact: Vec<usize> = Vec::new();
        let mut i: usize = 0;
        while i < num_nodes
            invariant
                i <= num_nodes,
                share@ == Seq::new(i as nat, |j: int| 0usize),
                xact@ == Seq::new(i as nat, |j: int| 0usize),
            decreases num_nodes - i,
        {
            share.push(0);
            xact.push(0);
            i = i + 1;
            assert(share@ =~= Seq::new(i as nat, |j: int| 0usize));
            assert(xact@ =~= Seq::new(i as nat, |j: int| 0usize));
        }
        Aggregator { mean_num_xact: 0, mean_num_share: 0, num_share_of_users: share, num_xact_of_users: xact }
    }

    /// Adds the external actions and the shares of one diffusion to the totals.
    pub fn add_result(&mut self, res: &DiffusionResult)
        requires
            old(self).mean_num_xact + res.num_xact <= usize::MAX,
            old(self).mean_num_share + res.num_share <= usize::MAX,
        ensures
            final(self).mean_num_xact == old(self).mean_num_xact + res.num_xact,
            final(self).mean_num_share == old(self).mean_num_share + res.num_share,
            final(self).num_share_of_users == old(self).num_share_of_users,
            final(self).num_xact_of_users == old(self).num_xact_of_users,
    {
        self.mean_num_xact = self.mean_num_xact + res.num_xact;
        self.mean_num_share = self.mean_num_share + res.num_share;
    }
}

/// Whether a user with these counts over `sample_size` samples gets a row: a
/// user's averages `count / sample_size` are non-zero when a count is, and
/// with no samples every average is undefined, so every user gets one.
pub open spec fn is_active(share: usize, xact: usize, sample_size: nat) -> bool {
    sample_size == 0 || xact != 0 || share != 0
}

/// The rows of the users `0..m` whose averages over `sample_size` samples are
/// not both zero, in order of user number, each with their counts and their
/// entry of `dist`.
pub open spec fn active_rows(
    share: Seq<usize>,
    xact: Seq<usize>,
    dist: Seq<Option<usize>>,
    sample_size: nat,
    m: nat,
) -> Seq<
    UserActionResult<usize>,
>
    decreases m,
{
    if m == 0 {
        seq![]
    } else {
        let j = (m - 1) as int;
        let rest = active_rows(share, xact, dist, sample_size, (m - 1) as nat);
        if is_active(share[j], xact[j], sample_size) {
            rest.push(
                UserActionResult {
                    num_share: share[j],
                    num_xact: xact[j],
                    user_id: j as usize,
                    distance_from_ip: dist[j],
                },
            )
        } else {
            rest
        }
    }
}

/// The user numbers of `rows`, in order.
pub open spec fn row_ids(rows: Seq<UserActionResult<usize>>) -> Seq<usize> {
    rows.map_values(|r: UserActionResult<usize>| r.user_id)
}

/// The rows of the users `0..m`: every user with a non-zero count, or every
/// user when there are no samples, has a row, and no other user does; the
/// rows come in increasing order of user number, each with that user's
/// counts and distance.
pub proof fn lemma_active_rows(
    share: Seq<usize>,
    xact: Seq<usize>,
    dist: Seq<Option<usize>>,
    sample_size: nat,
    m: nat,
)
    requires
        m <= share.len(),
        m <= xact.len(),
        m <= dist.len(),
        m <= usize::MAX + 1,
    ensures
        ({
            let rows = active_rows(share, xact, dist, sample_size, m);
            &&& forall|i: int|
                0 <= i < rows.len() ==> {
                    let id = (#[trigger] rows[i]).user_id as int;
                    &&& id < m
                    &&& (sample_size == 0 || xact[id] != 0 || share[id] != 0)
                    &&& rows[i].num_share == share[id]
                    &&& rows[i].num_xact == xact[id]
                    &&& rows[i].distance_from_ip == dist[id]
                }
            &&& forall|i: int, i2: int| 0 <= i < i2 < rows.len() ==> #[trigger] rows[i].user_id < #[trigger] rows[i2].user_id
            &&& forall|j: int|
                0 <= j < m ==> (#[trigger] row_ids(rows).contains(j as usize) <==> (sample_size == 0 || xact[j] != 0
                    || share[j] != 0))
        }),
    decreases m,
{
    let rows = active_rows(share, xact, dist, sample_size, m);
    if m == 0 {
        assert forall|j: int| 0 <= j < m implies (#[trigger] row_ids(rows).contains(j as usize) <==> (sample_size == 0
            || xact[j] != 0 || share[j] != 0)) by {}
    } else {
        lemma_active_rows(share, xact, dist, sample_size, (m - 1) as nat);
        let rest = active_rows(share, xact, dist, sample_size, (m - 1) as nat);
        let j = (m - 1) as int;
        if sample_size == 0 || xact[j] != 0 || share[j] != 0 {
            let row = UserActionResult {
                num_share: share[j],
                num_xact: xact[j],
                user_id: j as usize,
                distance_from_ip: dist[j],
            };
            assert(rows == rest.push(row));
            assert(row_ids(rows) =~= row_ids(rest).push(j as usize));
            assert(rows[rest.len() as int].user_id == j);
            assert forall|i: int| 0 <= i < rows.len() implies {
                let id = (#[trigger] rows[i]).user_id as int;
                &&& id < m
                &&& (sample_size == 0 || xact[id] != 0 || share[id] != 0)
                &&& rows[i].num_share == share[id]
                &&& rows[i].num_xact == xact[id]
                &&& rows[i].distance_from_ip == dist[id]
            } by {
                if i < rest.len() {
                    assert(rows[i] == rest[i]);
                }
            }
            assert forall|i: int, i2: int| 0 <= i < i2 < rows.len() implies #[trigger] rows[i].user_id
                < #[trigger] rows[i2].user_id by {
                assert(rows[i] == rest[i]);
                if i2 < rest.len() {
                    assert(rows[i2] == rest[i2]);
                }
            }
            assert forall|jj: int| 0 <= jj < m implies (#[trigger] row_ids(rows).contains(jj as usize) <==> (sample_size
                == 0 || xact[jj] != 0 || share[jj] != 0)) by {
                vstd::seq_lib::lemma_seq_contains_after_push(row_ids(rest), j as usize, jj as usize);
                if jj < j {
                    assert(row_ids(rest).contains(jj as usize) <==> (sample_size == 0 || xact[jj] != 0 || share[jj]
                        != 0));
                } else {
                    assert(!row_ids(rest).contains(j as usize)) by {
                        if row_ids(rest).contains(j as usize) {
                            let i = choose|i: int| 0 <= i < row_ids(rest).len() && row_ids(rest)[i] == j as usize;
                            assert(rest[i].user_id == row_ids(rest)[i]);
                        }
                    }
                }
            }
        } else {
            assert(rows == rest);
            assert forall|jj: int| 0 <= jj < m implies (#[trigger] row_ids(rows).contains(jj as usize) <==> (sample_size
                == 0 || xact[jj] != 0 || share[jj] != 0)) by {
                if jj == j {
                    assert(!row_ids(rest).contains(j as usize)) by {
                        if row_ids(rest).contains(j as usize) {
                            let i = choose|i: int| 0 <= i < row_ids(rest).len() && row_ids(rest)[i] == j as usize;
                            assert(rest[i].user_id == row_ids(rest)[i]);
                        }
                    }
                } else {
                    assert(row_ids(rest).contains(jj as usize) <==> (sample_size == 0 || xact[jj] != 0 || share[jj]
                        != 0));
                }
            }
        }
    }
}

/// The users whose averages over `sample_size` samples, as `agg` counts them,
/// are not both zero (every user when there are no samples), in order of
/// user number, each with their counts and their distance from the poster as
/// `distances` gives it. Users are paired by position in the two count
/// vectors, up to the shorter one.
pub fn user_action_results(agg: &Aggregator<usize>, distances: &Vec<Option<usize>>, sample_size: usize) -> (rows: Vec<
    UserActionResult<usize>,
>)
    requires
        forall|j: int|
            0 <= j < agg.num_xact_of_users@.len() && 0 <= j < agg.num_share_of_users@.len() && is_active(
                agg.num_share_of_users@[j],
                agg.num_xact_of_users@[j],
                sample_size as nat,
            ) ==> j < distances@.len(),
    ensures
        rows@ == active_rows(
            agg.num_share_of_users@,
            agg.num_xact_of_users@,
            distances@,
            sample_size as nat,
            if agg.num_xact_of_users@.len() <= agg.num_share_of_users@.len() {
                agg.num_xact_of_users@.len()
            } else {
                agg.num_share_of_users@.len()
            },
        ),
{
    let xact = &agg.num_xact_of_users;
    let share = &agg.num_share_of_users;
    let m = if xact.len() <= share.len() {
        xact.len()
    } else {
        share.len()
    };
    let mut rows: Vec<UserActionResult<usize>> = Vec::new();
    let mut j: usize = 0;
    while j < m
        invariant
            m <= xact@.len(),
            m <= share@.len(),
            xact == &agg.num_xact_of_users,
            share == &agg.num_share_of_users,
            forall|t: int| 0 <= t < m && is_active(share@[t], xact@[t], sample_size as nat) ==> t < distances@.len(),
            j <= m,
            rows@ == active_rows(share@, xact@, distances@, sample_size as nat, j as nat),
        decreases m - j,
    {
        if sample_size == 0 || xact[j] != 0 || share[j] != 0 {
            rows.push(
                UserActionResult {
                    num_share: share[j],
                    num_xact: xact[j],
                    user_id: j,
                    distance_from_ip: distances[j],
                },
            );
        }
        j = j + 1;
    }
    rows
}

/// The abstract state of a diffusion.
pub struct DiffusionView {
    /// The graph the message travels on.
    pub adj: Seq<Seq<usize>>,
    /// The initial poster.
    pub ip: usize,
    /// Which users have received the message.
    pub received: Seq<bool>,
    /// The users still to share in the current round; the last one shares first.
    pub curr: Seq<usize>,
    /// The users who will share in the next round, in the order they took the message.
    pub next: Seq<usize>,
    /// The user who is sharing now, and the position of the successor to offer next.
    pub cursor: Option<(usize, usize)>,
    /// The user who was offered the message by the last `Examine`, if that offer is open.
    pub offered: Option<usize>,
    /// External actions and shares counted in the current round.
    pub n_curr_acting: nat,
    pub n_curr_sharing: nat,
    /// External actions, shares and rounds counted in finished rounds.
    pub num_xact: nat,
    pub num_share: nat,
    pub total_step: nat,
    /// Whether the diffusion is over.
    pub finished: bool,
    /// The users who acted externally, and those who shared, so far.
    pub acted: Set<int>,
    pub shared: Set<int>,
    /// How many sharers have been taken from a round's frontier so far.
    pub popped: nat,
}

/// The state of one diffusion.
pub struct Diffusion {
    ip: usize,
    rcvd: Vec<bool>,
    curr: Vec<usize>,
    next: Vec<usize>,
    cursor: Option<(usize, usize)>,
    offered: Option<usize>,
    n_curr_acting: usize,
    n_curr_sharing: usize,
    num_xact: usize,
    num_share: usize,
    total_step: usize,
    finished: bool,
    adj: Ghost<Seq<Seq<usize>>>,
    acted: Ghost<Set<int>>,
    shared: Ghost<Set<int>>,
    popped: Ghost<nat>,
    popped_this_round: Ghost<bool>,
}

/// The users who have received the message, as a set of node numbers.
pub open spec fn received_set(received: Seq<bool>) -> Set<int> {
    Set::new(|j: int| 0 <= j < received.len() && received[j])
}

/// The number of successors of `u`.
pub open spec fn degree(adj: Seq<Seq<usize>>, u: usize) -> nat {
    adj[u as int].len()
}

/// The move `step` makes from the state `o`: the next state and what it
/// announces. It offers the message along the next edge of the current
/// sharer, finishes a sharer, takes the next sharer (the last of the
/// frontier), or ends the round, counting it; the diffusion is over when the
/// next frontier is empty.
pub open spec fn step_fn(o: DiffusionView) -> (DiffusionView, DiffusionStep) {
    match o.cursor {
        Some((i, k)) => if k < degree(o.adj, i) {
            (
                DiffusionView { cursor: Some((i, (k + 1) as usize)), offered: Some(o.adj[i as int][k as int]), ..o },
                DiffusionStep::Examine { from: i, to: o.adj[i as int][k as int] },
            )
        } else {
            (DiffusionView { cursor: None, offered: None, ..o }, DiffusionStep::Continue)
        },
        None => if o.curr.len() > 0 {
            (
                DiffusionView {
                    curr: o.curr.drop_last(),
                    cursor: Some((o.curr.last(), 0usize)),
                    offered: None,
                    popped: o.popped + 1,
                    ..o
                },
                DiffusionStep::Continue,
            )
        } else {
            (
                DiffusionView {
                    curr: o.next,
                    next: Seq::empty(),
                    offered: None,
                    n_curr_acting: 0,
                    n_curr_sharing: 0,
                    num_xact: o.num_xact + o.n_curr_acting,
                    num_share: o.num_share + o.n_curr_sharing,
                    total_step: o.total_step + 1,
                    finished: o.next.len() == 0,
                    ..o
                },
                if o.next.len() == 0 { DiffusionStep::Finished } else { DiffusionStep::Continue },
            )
        },
    }
}

/// The move `step` makes from the state `o` to the state `f`, announcing `s`.
pub open spec fn step_spec(o: DiffusionView, f: DiffusionView, s: DiffusionStep) -> bool {
    (f, s) == step_fn(o)
}

/// The state after the offered user of `o` takes the message and reacts with
/// `external` and `internal`: the user has received the message; acting
/// externally is counted; and a user with successors who decides to share
/// joins the next frontier and is counted as sharing.
pub open spec fn deliver_fn(o: DiffusionView, external: bool, internal: bool) -> DiffusionView {
    let j = o.offered.unwrap();
    let shares = internal && degree(o.adj, j) > 0;
    DiffusionView {
        received: o.received.update(j as int, true),
        offered: None,
        n_curr_acting: if external { o.n_curr_acting + 1 } else { o.n_curr_acting },
        acted: if external { o.acted.insert(j as int) } else { o.acted },
        n_curr_sharing: if shares { o.n_curr_sharing + 1 } else { o.n_curr_sharing },
        shared: if shares { o.shared.insert(j as int) } else { o.shared },
        next: if shares { o.next.push(j) } else { o.next },
        ..o
    }
}

/// What `deliver` does: from the state `o` to the state `f`.
pub open spec fn deliver_spec(o: DiffusionView, f: DiffusionView, external: bool, internal: bool) -> bool {
    f == deliver_fn(o, external, internal)
}

/// The state in which a diffusion of a message posted by `ip` on `adj` starts:
/// only `ip` has received it, and `ip` is about to share it.
pub open spec fn init_view(adj: Seq<Seq<usize>>, ip: usize) -> DiffusionView {
    DiffusionView {
        adj,
        ip,
        received: Seq::new(adj.len(), |j: int| j == ip),
        curr: seq![ip],
        next: Seq::empty(),
        cursor: None,
        offered: None,
        n_curr_acting: 0,
        n_curr_sharing: 0,
        num_xact: 0,
        num_share: 0,
        total_step: 0,
        finished: false,
        acted: Set::empty(),
        shared: Set::empty(),
        popped: 0,
    }
}

/// One move of a whole diffusion from the state `o`, with `answer` the reply
/// to the offer that the move makes, if it makes one: a `Some` reply to an
/// offer to a user who has not received the message delivers it; any other
/// reply changes nothing.
pub open spec fn advance(o: DiffusionView, answer: Option<(bool, bool)>) -> DiffusionView {
    let (v, s) = step_fn(o);
    match s {
        DiffusionStep::Examine { from: _, to } => if !v.received[to as int] && answer is Some {
            deliver_fn(v, answer.unwrap().0, answer.unwrap().1)
        } else {
            v
        },
        _ => v,
    }
}

/// Move `t` of the run `states`, `answers` is as `advance` makes it, and an
/// offer of the message to `to`, who has `received` it or not, got an answer
/// that `allowed(to, received, answer)` admits; a move that makes no offer
/// has no answer.
pub open spec fn run_move_ok(
    allowed: spec_fn(usize, bool, Option<(bool, bool)>) -> bool,
    states: Seq<DiffusionView>,
    answers: Seq<Option<(bool, bool)>>,
    t: int,
) -> bool {
    let (v, s) = step_fn(states[t]);
    &&& states[t + 1] == advance(states[t], answers[t])
    &&& match s {
        DiffusionStep::Examine { from: _, to } => allowed(to, v.received[to as int], answers[t]),
        _ => answers[t] is None,
    }
}

/// `states` is a whole diffusion from `ip` on `adj`, move by move, whose
/// offers got the answers `answers`: it starts in `init_view(adj, ip)`, each
/// move is as `run_move_ok` says, and it ends when the diffusion is over.
pub open spec fn is_run(
    allowed: spec_fn(usize, bool, Option<(bool, bool)>) -> bool,
    adj: Seq<Seq<usize>>,
    ip: usize,
    states: Seq<DiffusionView>,
    answers: Seq<Option<(bool, bool)>>,
) -> bool {
    &&& states.len() == answers.len() + 1
    &&& states[0] == init_view(adj, ip)
    &&& forall|t: int| 0 <= t < answers.len() ==> #[trigger] run_move_ok(allowed, states, answers, t)
    &&& states.last().finished
    &&& forall|t: int| 0 <= t < answers.len() ==> !(#[trigger] states[t]).finished
}

/// The user that move `t` of the run `states` offers the message to, if the
/// move makes an offer.
pub open spec fn offered_at(states: Seq<DiffusionView>, t: int) -> Option<usize> {
    match step_fn(states[t]).1 {
        DiffusionStep::Examine { from: _, to } => Some(to),
        _ => None,
    }
}

/// Move `t` of the run delivers the message to `j`: it offers the message to
/// `j`, who has not received it yet, and the offer got a `Some` answer.
pub open spec fn delivered_at(
    states: Seq<DiffusionView>,
    answers: Seq<Option<(bool, bool)>>,
    t: int,
    j: usize,
) -> bool {
    &&& offered_at(states, t) == Some(j)
    &&& !states[t].received[j as int]
    &&& answers[t] is Some
}

/// The offer of move `t`, if it makes one, goes to a user of the graph that
/// can be reached from the poster.
pub open spec fn offer_in_reach(adj: Seq<Seq<usize>>, ip: usize, states: Seq<DiffusionView>, t: int) -> bool {
    offered_at(states, t) matches Some(j) ==> j < adj.len() && reachable(adj, ip, j)
}

/// What the first `k` moves of a run have done: the poster and the users the
/// message was delivered to have received it and nobody else has, and the
/// users who acted or shared are those whose delivery said so.
spec fn run_prefix_ok(
    adj: Seq<Seq<usize>>,
    ip: usize,
    states: Seq<DiffusionView>,
    answers: Seq<Option<(bool, bool)>>,
    k: int,
) -> bool {
    let v = states[k];
    &&& v.adj == adj
    &&& v.received.len() == adj.len()
    &&& v.received[ip as int]
    &&& forall|j: int|
        0 <= j < adj.len() ==> (#[trigger] v.received[j] <==> (j == ip || exists|t: int|
            0 <= t < k && #[trigger] delivered_at(states, answers, t, j as usize)))
    &&& forall|j: int|
        0 <= j < adj.len() ==> (#[trigger] v.acted.contains(j) <==> exists|t: int|
            0 <= t < k && #[trigger] delivered_at(states, answers, t, j as usize) && answers[t].unwrap().0)
    &&& forall|j: int|
        0 <= j < adj.len() ==> (#[trigger] v.shared.contains(j) <==> exists|t: int|
            0 <= t < k && #[trigger] delivered_at(states, answers, t, j as usize) && answers[t].unwrap().1
                && degree(adj, j as usize) > 0)
}

/// What holds of every state of a run on a graph: everybody who has received
/// the message can be reached from the poster, and the sharers, the frontiers
/// and the current sharer are users who have received it.
spec fn view_inv(v: DiffusionView) -> bool {
    let n = v.adj.len();
    &&& adjacency_wf(v.adj)
    &&& v.ip < n <= usize::MAX
    &&& v.received.len() == n
    &&& v.received[v.ip as int]
    &&& forall|j: int| 0 <= j < n && #[trigger] v.received[j] ==> reachable(v.adj, v.ip, j as usize)
    &&& forall|t: int| 0 <= t < v.curr.len() ==> (#[trigger] v.curr[t]) < n && v.received[v.curr[t] as int]
    &&& forall|t: int| 0 <= t < v.next.len() ==> (#[trigger] v.next[t]) < n && v.received[v.next[t] as int]
    &&& (v.cursor matches Some((i, k)) ==> i < n && k <= degree(v.adj, i) && v.received[i as int])
}

proof fn lemma_view_inv_init(adj: Seq<Seq<usize>>, ip: usize)
    requires
        adjacency_wf(adj),
        ip < adj.len() <= usize::MAX,
    ensures
        view_inv(init_view(adj, ip)),
{
    let v = init_view(adj, ip);
    assert(is_walk(adj, seq![ip], ip, ip));
    assert(reachable_within(adj, ip, ip, 0));
    assert forall|j: int| 0 <= j < adj.len() && #[trigger] v.received[j] implies reachable(adj, ip, j as usize) by {
        assert(j == ip);
    }
}

/// A move keeps `view_inv`, and its offer, if it makes one, goes to a user
/// that can be reached from the poster.
proof fn lemma_view_inv_advance(o: DiffusionView, a: Option<(bool, bool)>)
    requires
        view_inv(o),
    ensures
        view_inv(advance(o, a)),
        step_fn(o).1 matches DiffusionStep::Examine { from: _, to: j } ==> j < o.adj.len() && reachable(o.adj, o.ip, j),
{
    let n = o.adj.len();
    let adj = o.adj;
    let (w, s) = step_fn(o);
    match o.cursor {
        Some((i, k)) => {
            if k < degree(adj, i) {
                let j = adj[i as int][k as int];
                assert(j < n);
                assert(reachable(adj, o.ip, i));
                let d = choose|d: nat| #[trigger] reachable_within(adj, o.ip, i, d);
                let wk = choose|wk: Seq<usize>| #[trigger] is_walk(adj, wk, o.ip, i) && wk.len() <= d + 1;
                assert(adj[i as int].contains(j));
                assert(is_edge(adj, i, j));
                lemma_walk_extend(adj, wk, o.ip, i, j);
                assert(reachable_within(adj, o.ip, j, d + 1));
                assert(w.offered == Some(j));
                if !w.received[j as int] && a is Some {
                    let v = advance(o, a);
                    assert(v == deliver_fn(w, a.unwrap().0, a.unwrap().1));
                    assert forall|jj: int| 0 <= jj < n && #[trigger] v.received[jj] implies reachable(adj, o.ip, jj as usize) by {
                        if jj != j {
                            assert(o.received[jj]);
                        }
                    }
                    assert forall|t: int| 0 <= t < v.next.len() implies (#[trigger] v.next[t]) < n && v.received[v.next[t] as int] by {
                        if t < o.next.len() {
                            assert(v.next[t] == o.next[t]);
                        }
                    }
                }
            }
        },
        None => {
            if o.curr.len() > 0 {
                assert(o.curr.last() == o.curr[o.curr.len() - 1]);
                assert forall|t: int| 0 <= t < w.curr.len() implies (#[trigger] w.curr[t]) < n && w.received[w.curr[t] as int] by {
                    assert(w.curr[t] == o.curr[t]);
                }
            }
        },
    }
}

/// One move of a run changes who has received the message, who acted and who
/// shared only by a delivery.
proof fn lemma_advance(o: DiffusionView, a: Option<(bool, bool)>)
    ensures
        ({
            let v = advance(o, a);
            let s = step_fn(o).1;
            &&& v.adj == o.adj
            &&& v.ip == o.ip
            &&& match s {
                DiffusionStep::Examine { from: _, to } => if !o.received[to as int] && a is Some {
                    &&& v.received == o.received.update(to as int, true)
                    &&& v.acted == (if a.unwrap().0 { o.acted.insert(to as int) } else { o.acted })
                    &&& v.shared == (if a.unwrap().1 && degree(o.adj, to) > 0 {
                        o.shared.insert(to as int)
                    } else {
                        o.shared
                    })
                } else {
                    v.received == o.received && v.acted == o.acted && v.shared == o.shared
                },
                _ => v.received == o.received && v.acted == o.acted && v.shared == o.shared,
            }
        }),
{
}

/// `run_prefix_ok` holds after every number of moves of a run, and every
/// state of the run satisfies `view_inv`.
proof fn lemma_run_prefix(
    allowed: spec_fn(usize, bool, Option<(bool, bool)>) -> bool,
    adj: Seq<Seq<usize>>,
    ip: usize,
    states: Seq<DiffusionView>,
    answers: Seq<Option<(bool, bool)>>,
    k: int,
)
    requires
        is_run(allowed, adj, ip, states, answers),
        adjacency_wf(adj),
        ip < adj.len() <= usize::MAX,
        0 <= k <= answers.len(),
    ensures
        run_prefix_ok(adj, ip, states, answers, k),
        view_inv(states[k]),
        states[k].ip == ip,
    decreases k,
{
    if k == 0 {
        let v = states[0];
        lemma_view_inv_init(adj, ip);
        assert forall|j: int| 0 <= j < adj.len() implies (#[trigger] v.received[j] <==> (j == ip || exists|t: int|
            0 <= t < 0 && #[trigger] delivered_at(states, answers, t, j as usize))) by {}
    } else {
        lemma_run_prefix(allowed, adj, ip, states, answers, k - 1);
        let o = states[k - 1];
        let v = states[k];
        let a = answers[k - 1];
        assert(run_move_ok(allowed, states, answers, k - 1));
        lemma_advance(o, a);
        lemma_view_inv_advance(o, a);
        assert forall|j: int| 0 <= j < adj.len() implies (#[trigger] v.received[j] <==> (j == ip || exists|t: int|
            0 <= t < k && #[trigger] delivered_at(states, answers, t, j as usize))) by {
            if delivered_at(states, answers, k - 1, j as usize) {
                assert(v.received[j]);
            } else {
                assert(v.received[j] == o.received[j]);
                if o.received[j] && j != ip {
                    let t = choose|t: int| 0 <= t < k - 1 && #[trigger] delivered_at(states, answers, t, j as usize);
                    assert(0 <= t < k && delivered_at(states, answers, t, j as usize));
                }
                if exists|t: int| 0 <= t < k && #[trigger] delivered_at(states, answers, t, j as usize) {
                    let t = choose|t: int| 0 <= t < k && #[trigger] delivered_at(states, answers, t, j as usize);
                    assert(t < k - 1);
                }
            }
        }
        assert forall|j: int| 0 <= j < adj.len() implies (#[trigger] v.acted.contains(j) <==> exists|t: int|
            0 <= t < k && #[trigger] delivered_at(states, answers, t, j as usize) && answers[t].unwrap().0) by {
            if delivered_at(states, answers, k - 1, j as usize) {
                if a.unwrap().0 {
                    assert(v.acted.contains(j));
                } else {
                    assert(v.acted == o.acted);
                    assert(!o.received[j]);
                    if o.acted.contains(j) {
                        let t = choose|t: int| 0 <= t < k - 1 && #[trigger] delivered_at(states, answers, t, j as usize)
                            && answers[t].unwrap().0;
                        assert(o.received[j]);
                    }
                    if exists|t: int| 0 <= t < k && #[trigger] delivered_at(states, answers, t, j as usize) && answers[t].unwrap().0 {
                        let t = choose|t: int| 0 <= t < k && #[trigger] delivered_at(states, answers, t, j as usize)
                            && answers[t].unwrap().0;
                        assert(t < k - 1);
                        assert(o.received[j]);
                    }
                }
            } else {
                assert(v.acted.contains(j) == o.acted.contains(j));
                if o.acted.contains(j) {
                    let t = choose|t: int| 0 <= t < k - 1 && #[trigger] delivered_at(states, answers, t, j as usize)
                        && answers[t].unwrap().0;
                    assert(0 <= t < k);
                }
                if exists|t: int| 0 <= t < k && #[trigger] delivered_at(states, answers, t, j as usize) && answers[t].unwrap().0 {
                    let t = choose|t: int| 0 <= t < k && #[trigger] delivered_at(states, answers, t, j as usize)
                        && answers[t].unwrap().0;
                    assert(t < k - 1);
                }
            }
        }
        assert forall|j: int| 0 <= j < adj.len() implies (#[trigger] v.shared.contains(j) <==> exists|t: int|
            0 <= t < k && #[trigger] delivered_at(states, answers, t, j as usize) && answers[t].unwrap().1
                && degree(adj, j as usize) > 0) by {
            if delivered_at(states, answers, k - 1, j as usize) {
                if a.unwrap().1 && degree(adj, j as usize) > 0 {
                    assert(v.shared.contains(j));
                } else {
                    assert(v.shared == o.shared);
                    assert(!o.received[j]);
                    if o.shared.contains(j) {
                        let t = choose|t: int| 0 <= t < k - 1 && #[trigger] delivered_at(states, answers, t, j as usize)
                            && answers[t].unwrap().1 && degree(adj, j as usize) > 0;
                        assert(o.received[j]);
                    }
                    if exists|t: int| 0 <= t < k && #[trigger] delivered_at(states, answers, t, j as usize) && answers[t].unwrap().1
                        && degree(adj, j as usize) > 0 {
                        let t = choose|t: int| 0 <= t < k && #[trigger] delivered_at(states, answers, t, j as usize)
                            && answers[t].unwrap().1 && degree(adj, j as usize) > 0;
                        assert(t < k - 1);
                        assert(o.received[j]);
                    }
                }
            } else {
                assert(v.shared.contains(j) == o.shared.contains(j));
                if o.shared.contains(j) {
                    let t = choose|t: int| 0 <= t < k - 1 && #[trigger] delivered_at(states, answers, t, j as usize)
                        && answers[t].unwrap().1 && degree(adj, j as usize) > 0;
                    assert(0 <= t < k);
                }
                if exists|t: int| 0 <= t < k && #[trigger] delivered_at(states, answers, t, j as usize) && answers[t].unwrap().1
                    && degree(adj, j as usize) > 0 {
                    let t = choose|t: int| 0 <= t < k && #[trigger] delivered_at(states, answers, t, j as usize)
                        && answers[t].unwrap().1 && degree(adj, j as usize) > 0;
                    assert(t < k - 1);
                }
            }
        }
    }
}

/// The user that move `t` of the run `states` takes from the frontier to
/// share, if it takes one.
pub open spec fn taken_at(states: Seq<DiffusionView>, t: int) -> Option<usize> {
    if states[t].cursor is None && states[t].curr.len() > 0 {
        Some(states[t].curr.last())
    } else {
        None
    }
}

/// The users taken to share by the first `k` moves of the run, in order.
pub open spec fn taken_upto(states: Seq<DiffusionView>, k: nat) -> Seq<usize>
    decreases k,
{
    if k == 0 {
        seq![]
    } else {
        let p = taken_upto(states, (k - 1) as nat);
        match taken_at(states, k - 1) {
            Some(i) => p.push(i),
            None => p,
        }
    }
}

/// The number of offers made by the first `k` moves of the run.
pub open spec fn offers_upto(states: Seq<DiffusionView>, k: nat) -> nat
    decreases k,
{
    if k == 0 {
        0
    } else {
        offers_upto(states, (k - 1) as nat) + if offered_at(states, k - 1) is Some { 1nat } else { 0 }
    }
}

/// The sum of the out-degrees of the users in `s`.
pub open spec fn degree_sum(adj: Seq<Seq<usize>>, s: Seq<usize>) -> nat
    decreases s.len(),
{
    if s.len() == 0 {
        0
    } else {
        degree_sum(adj, s.drop_last()) + degree(adj, s.last())
    }
}

/// The users in `s`, as a set of node numbers.
pub open spec fn ids(s: Seq<usize>) -> Set<int> {
    Set::new(|j: int| exists|t: int| 0 <= t < s.len() && s[t] == j)
}

/// Appending `x` adds `x` to the users of a sequence.
proof fn lemma_ids_push(s: Seq<usize>, x: usize)
    ensures
        ids(s.push(x)) == ids(s).insert(x as int),
{
    let p = s.push(x);
    assert forall|j: int| ids(p).contains(j) <==> ids(s).insert(x as int).contains(j) by {
        if ids(p).contains(j) {
            let t = choose|t: int| 0 <= t < p.len() && p[t] == j;
            if t < s.len() {
                assert(s[t] == j);
            }
        }
        if ids(s).contains(j) {
            let t = choose|t: int| 0 <= t < s.len() && s[t] == j;
            assert(p[t] == j);
        }
        if j == x {
            assert(p[s.len() as int] == j);
        }
    }
    assert(ids(p) =~= ids(s).insert(x as int));
}

/// A non-empty sequence holds the users of its front and its last user.
proof fn lemma_ids_drop_last(s: Seq<usize>)
    requires
        s.len() > 0,
    ensures
        ids(s) == ids(s.drop_last()).insert(s.last() as int),
{
    assert(s =~= s.drop_last().push(s.last()));
    lemma_ids_push(s.drop_last(), s.last());
}

/// An empty sequence holds no users.
proof fn lemma_ids_empty(s: Seq<usize>)
    requires
        s.len() == 0,
    ensures
        ids(s) == Set::<int>::empty(),
{
    assert(ids(s) =~= Set::<int>::empty());
}

/// The offers still to be made by the current sharer of `v`.
spec fn pending(v: DiffusionView) -> nat {
    match v.cursor {
        Some((i, k)) => (degree(v.adj, i) - k) as nat,
        None => 0,
    }
}

/// What the first `k` moves of a run have done with the sharers: each offer
/// was made along an edge of a sharer taken so far; the users taken and those
/// still on the frontiers, each only once, are the poster and the sharers;
/// and a finished diffusion has no frontier left.
spec fn takes_ok(adj: Seq<Seq<usize>>, ip: usize, states: Seq<DiffusionView>, k: nat) -> bool {
    let v = states[k as int];
    let taken = taken_upto(states, k);
    &&& offers_upto(states, k) + pending(v) == degree_sum(adj, taken)
    &&& taken.no_duplicates() && v.curr.no_duplicates() && v.next.no_duplicates()
    &&& taken.disjoint(v.curr) && taken.disjoint(v.next) && v.curr.disjoint(v.next)
    &&& forall|t: int| 0 <= t < taken.len() ==> (#[trigger] taken[t]) < adj.len() && v.received[taken[t] as int]
    &&& ids(taken).union(ids(v.curr)).union(ids(v.next)) == v.shared.insert(ip as int)
    &&& (v.finished ==> v.cursor is None && v.curr.len() == 0 && v.next.len() == 0)
}

/// `takes_ok` holds after every number of moves of a run.
proof fn lemma_run_takes(
    allowed: spec_fn(usize, bool, Option<(bool, bool)>) -> bool,
    adj: Seq<Seq<usize>>,
    ip: usize,
    states: Seq<DiffusionView>,
    answers: Seq<Option<(bool, bool)>>,
    k: nat,
)
    requires
        is_run(allowed, adj, ip, states, answers),
        adjacency_wf(adj),
        forall|u: int| 0 <= u < adj.len() ==> #[trigger] adj[u].len() <= usize::MAX,
        ip < adj.len() <= usize::MAX,
        k <= answers.len(),
    ensures
        takes_ok(adj, ip, states, k),
    decreases k,
{
    lemma_run_prefix(allowed, adj, ip, states, answers, k as int);
    if k == 0 {
        let v = states[0];
        let tk = taken_upto(states, 0);
        lemma_ids_empty(tk);
        lemma_ids_empty(v.next);
        assert(v.curr =~= Seq::<usize>::empty().push(ip));
        lemma_ids_empty(Seq::<usize>::empty());
        lemma_ids_push(Seq::<usize>::empty(), ip);
        assert(ids(tk).union(ids(v.curr)).union(ids(v.next)) =~= v.shared.insert(ip as int));
    } else {
        lemma_run_takes(allowed, adj, ip, states, answers, (k - 1) as nat);
        lemma_run_prefix(allowed, adj, ip, states, answers, k - 1);
        let o = states[k - 1];
        let v = states[k as int];
        let a = answers[k - 1];
        assert(run_move_ok(allowed, states, answers, k - 1));
        assert(!o.finished);
        lemma_advance(o, a);
        lemma_view_inv_advance(o, a);
        let tp = taken_upto(states, (k - 1) as nat);
        let tk = taken_upto(states, k);
        let lhs_o = ids(tp).union(ids(o.curr)).union(ids(o.next));
        let (w, s) = step_fn(o);
        assert(offers_upto(states, k) == offers_upto(states, (k - 1) as nat) + if offered_at(states, k - 1) is Some {
            1nat
        } else {
            0
        });
        match o.cursor {
            Some((i, kk)) => {
                assert(tk == tp);
                if kk < degree(adj, i) {
                    let j = adj[i as int][kk as int];
                    assert(offered_at(states, k - 1) == Some(j));
                    assert(adj[i as int].len() <= usize::MAX);
                    assert(w.cursor == Some((i, (kk + 1) as usize)));
                    assert(v.cursor == w.cursor);
                    assert(pending(v) + 1 == pending(o));
                    if !o.received[j as int] && a is Some {
                        assert(v == deliver_fn(w, a.unwrap().0, a.unwrap().1));
                        assert(w.offered == Some(j));
                        let shares = a.unwrap().1 && degree(adj, j) > 0;
                        assert forall|t: int| 0 <= t < tp.len() implies tp[t] != j by {
                            assert(o.received[tp[t] as int]);
                        }
                        assert forall|t: int| 0 <= t < o.curr.len() implies o.curr[t] != j by {
                            assert(o.received[o.curr[t] as int]);
                        }
                        assert forall|t: int| 0 <= t < o.next.len() implies o.next[t] != j by {
                            assert(o.received[o.next[t] as int]);
                        }
                        if shares {
                            assert(v.next == o.next.push(j));
                            assert(v.shared == o.shared.insert(j as int));
                            lemma_ids_push(o.next, j);
                            assert(ids(tk).union(ids(v.curr)).union(ids(v.next)) =~= lhs_o.insert(j as int));
                            assert(v.shared.insert(ip as int) =~= o.shared.insert(ip as int).insert(j as int));
                        } else {
                            assert(v.next == o.next);
                            assert(v.shared == o.shared);
                        }
                        assert forall|t: int| 0 <= t < tk.len() implies (#[trigger] tk[t]) < adj.len()
                            && v.received[tk[t] as int] by {
                            assert(o.received[tp[t] as int]);
                        }
                    } else {
                        assert(v == w);
                    }
                } else {
                    assert(v == w);
                    assert(offered_at(states, k - 1) is None);
                    assert(pending(v) == 0 && pending(o) == 0);
                }
            },
            None => {
                assert(offered_at(states, k - 1) is None);
                if o.curr.len() > 0 {
                    let x = o.curr.last();
                    assert(v == w);
                    assert(taken_at(states, k - 1) == Some(x));
                    assert(tk == tp.push(x));
                    assert(v.curr == o.curr.drop_last());
                    assert(degree_sum(adj, tk) == degree_sum(adj, tp) + degree(adj, x)) by {
                        assert(tk.drop_last() =~= tp);
                    }
                    assert(pending(o) == 0 && pending(v) == degree(adj, x));
                    assert(o.curr[o.curr.len() - 1] == x);
                    lemma_ids_push(tp, x);
                    lemma_ids_drop_last(o.curr);
                    assert(ids(tk).union(ids(v.curr)).union(ids(v.next)) =~= lhs_o);
                    assert forall|t: int| 0 <= t < tk.len() implies (#[trigger] tk[t]) < adj.len()
                        && v.received[tk[t] as int] by {
                        if t < tp.len() {
                            assert(tk[t] == tp[t]);
                        } else {
                            assert(tk[t] == o.curr[o.curr.len() - 1]);
                        }
                    }
                    assert(tk.no_duplicates()) by {
                        assert forall|a1: int, b1: int| 0 <= a1 < tk.len() && 0 <= b1 < tk.len() && a1 != b1 implies tk[a1]
                            != tk[b1] by {
                            if a1 < tp.len() && b1 < tp.len() {
                                assert(tk[a1] == tp[a1] && tk[b1] == tp[b1]);
                            } else if a1 < tp.len() {
                                assert(tk[a1] == tp[a1]);
                                assert(tp[a1] != o.curr[o.curr.len() - 1]);
                            } else if b1 < tp.len() {
                                assert(tk[b1] == tp[b1]);
                                assert(tp[b1] != o.curr[o.curr.len() - 1]);
                            }
                        }
                    }
                    assert(tk.disjoint(v.curr)) by {
                        assert forall|a1: int, b1: int| 0 <= a1 < tk.len() && 0 <= b1 < v.curr.len() implies tk[a1]
                            != v.curr[b1] by {
                            assert(v.curr[b1] == o.curr[b1]);
                            if a1 < tp.len() {
                                assert(tk[a1] == tp[a1]);
                            } else {
                                assert(tk[a1] == o.curr[o.curr.len() - 1]);
                            }
                        }
                    }
                    assert(tk.disjoint(v.next)) by {
                        assert forall|a1: int, b1: int| 0 <= a1 < tk.len() && 0 <= b1 < v.next.len() implies tk[a1]
                            != v.next[b1] by {
                            if a1 < tp.len() {
                                assert(tk[a1] == tp[a1]);
                            } else {
                                assert(tk[a1] == o.curr[o.curr.len() - 1]);
                            }
                        }
                    }
                } else {
                    assert(v == w);
                    assert(taken_at(states, k - 1) is None);
                    assert(tk == tp);
                    assert(v.curr == o.next);
                    lemma_ids_empty(o.curr);
                    lemma_ids_empty(v.next);
                    assert(ids(tk).union(ids(v.curr)).union(ids(v.next)) =~= lhs_o);
                }
            },
        }
    }
}

/// Who shares in a whole run, and how many offers it makes: the users taken
/// from the frontiers to share, in order, are the poster and the users who
/// shared, each once; and every one of them offers the message once along
/// each of their edges, so the number of offers, and of answers asked for, is
/// the sum of their out-degrees.
pub proof fn lemma_run_offers(
    allowed: spec_fn(usize, bool, Option<(bool, bool)>) -> bool,
    adj: Seq<Seq<usize>>,
    ip: usize,
    states: Seq<DiffusionView>,
    answers: Seq<Option<(bool, bool)>>,
)
    requires
        is_run(allowed, adj, ip, states, answers),
        adjacency_wf(adj),
        forall|u: int| 0 <= u < adj.len() ==> #[trigger] adj[u].len() <= usize::MAX,
        ip < adj.len() <= usize::MAX,
    ensures
        taken_upto(states, answers.len()).no_duplicates(),
        ids(taken_upto(states, answers.len())) == states.last().shared.insert(ip as int),
        offers_upto(states, answers.len()) == degree_sum(adj, taken_upto(states, answers.len())),
{
    lemma_run_takes(allowed, adj, ip, states, answers, answers.len());
    let v = states.last();
    let taken = taken_upto(states, answers.len());
    lemma_ids_empty(v.curr);
    lemma_ids_empty(v.next);
    assert(ids(taken).union(ids(v.curr)).union(ids(v.next)) =~= ids(taken));
}

/// Move `t` of the run ends a round: no sharer is active and the frontier of
/// the round is used up.
pub open spec fn ends_round(states: Seq<DiffusionView>, t: int) -> bool {
    states[t].cursor is None && states[t].curr.len() == 0
}

/// The number of rounds ended by the first `k` moves of the run.
pub open spec fn rounds_upto(states: Seq<DiffusionView>, k: nat) -> nat
    decreases k,
{
    if k == 0 {
        0
    } else {
        rounds_upto(states, (k - 1) as nat) + if ends_round(states, k - 1) { 1nat } else { 0 }
    }
}

/// How the rounds of a whole run go: `total_step` is the number of rounds
/// ended, every round but the last hands a non-empty frontier to the next,
/// and the last one ends the run with an empty one.
pub proof fn lemma_run_rounds(
    allowed: spec_fn(usize, bool, Option<(bool, bool)>) -> bool,
    adj: Seq<Seq<usize>>,
    ip: usize,
    states: Seq<DiffusionView>,
    answers: Seq<Option<(bool, bool)>>,
)
    requires
        is_run(allowed, adj, ip, states, answers),
    ensures
        states.last().total_step == rounds_upto(states, answers.len()),
        answers.len() > 0 && ends_round(states, answers.len() - 1) && states[answers.len() - 1].next.len() == 0,
        forall|t: int|
            0 <= t < answers.len() - 1 && #[trigger] ends_round(states, t) ==> states[t].next.len() > 0,
{
    lemma_rounds_prefix(allowed, adj, ip, states, answers, answers.len());
    assert(answers.len() > 0) by {
        if answers.len() == 0 {
            assert(!states[0].finished);
        }
    }
    let l = answers.len() - 1;
    assert(run_move_ok(allowed, states, answers, l));
    assert(!states[l].finished);
    assert(ends_round(states, l) && states[l].next.len() == 0) by {
        lemma_advance(states[l], answers[l]);
    }
    assert forall|t: int| 0 <= t < answers.len() - 1 && #[trigger] ends_round(states, t) implies states[t].next.len()
        > 0 by {
        assert(run_move_ok(allowed, states, answers, t));
        assert(!states[t + 1].finished);
    }
}

/// `total_step` counts the rounds ended by the moves so far.
proof fn lemma_rounds_prefix(
    allowed: spec_fn(usize, bool, Option<(bool, bool)>) -> bool,
    adj: Seq<Seq<usize>>,
    ip: usize,
    states: Seq<DiffusionView>,
    answers: Seq<Option<(bool, bool)>>,
    k: nat,
)
    requires
        is_run(allowed, adj, ip, states, answers),
        k <= answers.len(),
    ensures
        states[k as int].total_step == rounds_upto(states, k),
    decreases k,
{
    if k > 0 {
        lemma_rounds_prefix(allowed, adj, ip, states, answers, (k - 1) as nat);
        assert(run_move_ok(allowed, states, answers, k - 1));
    }
}

/// What a whole run delivers: every offer goes to a user that can be reached
/// from the poster; the message is never delivered to the poster and at most
/// once to any user; at the end the users who have received it
/// are the poster and those it was delivered to; and a user acted, or shared,
/// exactly when the answer that delivered the message to them said so (a
/// sharer also needing successors).
pub proof fn lemma_run_deliveries(
    allowed: spec_fn(usize, bool, Option<(bool, bool)>) -> bool,
    adj: Seq<Seq<usize>>,
    ip: usize,
    states: Seq<DiffusionView>,
    answers: Seq<Option<(bool, bool)>>,
)
    requires
        is_run(allowed, adj, ip, states, answers),
        adjacency_wf(adj),
        ip < adj.len() <= usize::MAX,
    ensures
        forall|t: int| 0 <= t < answers.len() ==> #[trigger] offer_in_reach(adj, ip, states, t),
        forall|t: int| 0 <= t < answers.len() ==> !#[trigger] delivered_at(states, answers, t, ip),
        forall|t1: int, t2: int, j: usize|
            0 <= t1 < answers.len() && 0 <= t2 < answers.len() && j < adj.len()
                && #[trigger] delivered_at(states, answers, t1, j) && #[trigger] delivered_at(states, answers, t2, j)
                ==> t1 == t2,
        forall|j: int|
            0 <= j < adj.len() ==> (#[trigger] states.last().received[j] <==> (j == ip || exists|t: int|
                0 <= t < answers.len() && #[trigger] delivered_at(states, answers, t, j as usize))),
        forall|j: int|
            0 <= j < adj.len() ==> (#[trigger] states.last().acted.contains(j) <==> exists|t: int|
                0 <= t < answers.len() && #[trigger] delivered_at(states, answers, t, j as usize)
                    && answers[t].unwrap().0),
        forall|j: int|
            0 <= j < adj.len() ==> (#[trigger] states.last().shared.contains(j) <==> exists|t: int|
                0 <= t < answers.len() && #[trigger] delivered_at(states, answers, t, j as usize)
                    && answers[t].unwrap().1 && degree(adj, j as usize) > 0),
{
    lemma_run_prefix(allowed, adj, ip, states, answers, answers.len() as int);
    assert forall|t: int| 0 <= t < answers.len() implies #[trigger] offer_in_reach(adj, ip, states, t) by {
        lemma_run_prefix(allowed, adj, ip, states, answers, t);
        lemma_view_inv_advance(states[t], answers[t]);
    }
    assert forall|t: int| 0 <= t < answers.len() implies !#[trigger] delivered_at(states, answers, t, ip) by {
        lemma_run_prefix(allowed, adj, ip, states, answers, t);
    }
    assert forall|t1: int, t2: int, j: usize|
        0 <= t1 < answers.len() && 0 <= t2 < answers.len() && j < adj.len()
            && #[trigger] delivered_at(states, answers, t1, j) && #[trigger] delivered_at(states, answers, t2, j)
        implies t1 == t2 by {
        let ji = j as int;
        assert(delivered_at(states, answers, t1, ji as usize) && delivered_at(states, answers, t2, ji as usize));
        if t1 < t2 {
            lemma_run_prefix(allowed, adj, ip, states, answers, t2);
            assert(states[t2].received[ji]);
        } else if t2 < t1 {
            lemma_run_prefix(allowed, adj, ip, states, answers, t1);
            assert(states[t1].received[ji]);
        }
    }
}

/// `counts` after adding one to the entry of user `j` when `hit` holds.
pub open spec fn bump(counts: Seq<usize>, j: usize, hit: bool) -> Seq<usize> {
    if hit {
        counts.update(j as int, (counts[j as int] + 1) as usize)
    } else {
        counts
    }
}

/// How far a diffusion is from its end, ordered lexicographically: the
/// sharers that can still be taken from a frontier, the offers left to the
/// current sharer, and whether the current round has run out of sharers.
pub open spec fn progress(v: DiffusionView) -> (int, int, int) {
    (
        v.adj.len() - v.popped,
        match v.cursor {
            Some((i, k)) => degree(v.adj, i) - k + 1,
            None => 0,
        },
        if v.curr.len() == 0 { 1int } else { 0 },
    )
}

/// `a` is strictly below `b` in the lexicographic order on non-negative triples.
pub open spec fn progress_lt(a: (int, int, int), b: (int, int, int)) -> bool {
    &&& 0 <= a.0 && 0 <= a.1 && 0 <= a.2
    &&& (a.0 < b.0 || (a.0 == b.0 && (a.1 < b.1 || (a.1 == b.1 && a.2 < b.2))))
}

impl Diffusion {
    /// The abstract state.
    pub closed spec fn view(&self) -> DiffusionView {
        DiffusionView {
            adj: self.adj@,
            ip: self.ip,
            received: self.rcvd@,
            curr: self.curr@,
            next: self.next@,
            cursor: self.cursor,
            offered: self.offered,
            n_curr_acting: self.n_curr_acting as nat,
            n_curr_sharing: self.n_curr_sharing as nat,
            num_xact: self.num_xact as nat,
            num_share: self.num_share as nat,
            total_step: self.total_step as nat,
            finished: self.finished,
            acted: self.acted@,
            shared: self.shared@,
            popped: self.popped@,
        }
    }

    /// The invariant of a diffusion in progress or finished.
    pub closed spec fn wf(&self) -> bool {
        let n = self.adj@.len();
        let recv = received_set(self.rcvd@);
        let pushed = self.shared@.insert(self.ip as int);
        &&& adjacency_wf(self.adj@)
        &&& self.rcvd@.len() == n
        &&& n <= usize::MAX
        &&& self.ip < n
        &&& self.rcvd@[self.ip as int]
        &&& forall|j: int| 0 <= j < n && #[trigger] self.rcvd@[j] ==> reachable(self.adj@, self.ip, j as usize)
        &&& forall|t: int| 0 <= t < self.curr@.len() ==> (#[trigger] self.curr@[t]) < n && self.rcvd@[self.curr@[t] as int]
        &&& forall|t: int| 0 <= t < self.next@.len() ==> (#[trigger] self.next@[t]) < n && self.rcvd@[self.next@[t] as int]
        &&& (self.cursor matches Some((i, k)) ==> i < n && k <= degree(self.adj@, i) && self.rcvd@[i as int])
        &&& (self.offered matches Some(j) ==> (self.cursor matches Some((i, k)) && 1 <= k
            && self.adj@[i as int][k - 1] == j))
        &&& self.acted@.subset_of(recv.remove(self.ip as int))
        &&& self.shared@.subset_of(recv.remove(self.ip as int))
        &&& forall|j: int| #[trigger] self.shared@.contains(j) ==> degree(self.adj@, j as usize) > 0
        &&& self.acted@.finite()
        &&& self.shared@.finite()
        &&& self.num_xact + self.n_curr_acting == self.acted@.len()
        &&& self.num_share + self.n_curr_sharing == self.shared@.len()
        &&& self.popped@ + self.curr@.len() + self.next@.len() == pushed.len()
        &&& self.total_step + (if self.popped_this_round@ { 1int } else { 0 }) <= self.popped@
        &&& (!self.finished && !self.popped_this_round@ ==> self.cursor is None && self.curr@.len() > 0)
        &&& (self.finished ==> self.cursor is None && self.curr@.len() == 0 && self.next@.len() == 0
            && self.n_curr_acting == 0 && self.n_curr_sharing == 0 && self.offered is None)
        &&& self.next@.len() == self.n_curr_sharing
        &&& (self.total_step == 0 ==> self.num_share == 0)
        &&& (self.total_step >= 1 && !self.finished ==> self.num_share >= 1)
        &&& (self.finished ==> self.total_step >= 1 && (self.total_step == 1 <==> self.num_share == 0))
    }

    /// Starts the diffusion of a message posted by `ip`: only `ip` has received
    /// it, and `ip` is about to share it.
    pub fn new(graph: &Graph, ip: usize) -> (d: Self)
        requires
            ip < graph.view().len(),
        ensures
            d.wf(),
            d.view() == init_view(graph.view(), ip),
            d.view().adj == graph.view(),
            d.view().ip == ip,
            d.view().received == Seq::new(graph.view().len(), |j: int| j == ip),
            d.view().curr == seq![ip],
            d.view().next == Seq::<usize>::empty(),
            d.view().cursor is None,
            d.view().offered is None,
            d.view().n_curr_acting == 0,
            d.view().n_curr_sharing == 0,
            d.view().num_xact == 0,
            d.view().num_share == 0,
            d.view().total_step == 0,
            !d.view().finished,
            d.view().acted == Set::<int>::empty(),
            d.view().shared == Set::<int>::empty(),
            d.view().popped == 0,
    {
        let n = graph.node_count();
        let mut rcvd: Vec<bool> = Vec::new();
        let mut i: usize = 0;
        while i < n
            invariant
                i <= n,
                rcvd@.len() == i,
                forall|j: int| 0 <= j < i ==> (#[trigger] rcvd@[j]) == (j == ip),
            decreases n - i,
        {
            rcvd.push(i == ip);
            i = i + 1;
        }
        let mut curr: Vec<usize> = Vec::new();
        curr.push(ip);
        let d = Diffusion {
            ip,
            rcvd,
            curr,
            next: Vec::new(),
            cursor: None,
            offered: None,
            n_curr_acting: 0,
            n_curr_sharing: 0,
            num_xact: 0,
            num_share: 0,
            total_step: 0,
            finished: false,
            adj: Ghost(graph.view()),
            acted: Ghost(Set::empty()),
            shared: Ghost(Set::empty()),
            popped: Ghost(0),
            popped_this_round: Ghost(false),
        };
        proof {
            assert(d.rcvd@ =~= Seq::new(graph.view().len(), |j: int| j == ip));
            assert(d.curr@ =~= seq![ip]);
            assert(d.next@ =~= Seq::<usize>::empty());
            assert(d.view().received == init_view(graph.view(), ip).received);
            assert(d.view().curr == init_view(graph.view(), ip).curr);
            assert(d.view().next == init_view(graph.view(), ip).next);
            assert(d.view().acted == init_view(graph.view(), ip).acted);
            assert(d.view() == init_view(graph.view(), ip));
            assert(is_walk(graph.view(), seq![ip], ip, ip));
            assert(reachable_within(graph.view(), ip, ip, 0));
            assert forall|j: int| 0 <= j < n && #[trigger] d.rcvd@[j] implies reachable(graph.view(), ip, j as usize) by {
                assert(j == ip);
            }
            assert(Set::<int>::empty().insert(ip as int).len() == 1);
        }
        d
    }

    /// The counts of a diffusion are bounded by the number of users.
    proof fn lemma_counts_bounded(&self)
        requires
            self.wf(),
        ensures
            received_set(self.rcvd@).finite(),
            received_set(self.rcvd@).len() <= self.rcvd@.len(),
            self.shared@.insert(self.ip as int).len() <= self.rcvd@.len(),
            self.acted@.len() < self.rcvd@.len(),
            self.shared@.len() < self.rcvd@.len(),
            self.popped@ <= self.rcvd@.len(),
    {
        let n = self.rcvd@.len();
        let recv = received_set(self.rcvd@);
        lemma_int_range(0, n as int);
        assert(recv.subset_of(set_int_range(0, n as int)));
        lemma_len_subset(recv, set_int_range(0, n as int));
        assert(recv.contains(self.ip as int));
        assert(recv.remove(self.ip as int).len() == recv.len() - 1);
        lemma_len_subset(self.acted@, recv.remove(self.ip as int));
        lemma_len_subset(self.shared@, recv.remove(self.ip as int));
        assert(self.shared@.insert(self.ip as int).subset_of(recv));
        lemma_len_subset(self.shared@.insert(self.ip as int), recv);
    }

    /// Advances the diffusion by one move of the sharing loop: offers the
    /// message along the next edge of the current sharer, finishes a sharer,
    /// takes the next sharer of the round (the last of the frontier), or ends
    /// the round, counting it and making the users who took the message to
    /// share it the next frontier; the diffusion is over when that frontier
    /// is empty.
    pub fn step(&mut self, graph: &Graph) -> (s: DiffusionStep)
        requires
            old(self).wf(),
            !old(self).view().finished,
            graph.view() == old(self).view().adj,
        ensures
            final(self).wf(),
            step_spec(old(self).view(), final(self).view(), s),
            final(self).view().finished || progress_lt(progress(final(self).view()), progress(old(self).view())),
    {
        proof {
            self.lemma_counts_bounded();
        }
        match self.cursor {
            Some((i, k)) => {
                let succ = graph.successors(i);
                if k < succ.len() {
                    let j = succ[k];
                    self.cursor = Some((i, k + 1));
                    self.offered = Some(j);
                    DiffusionStep::Examine { from: i, to: j }
                } else {
                    self.cursor = None;
                    self.offered = None;
                    DiffusionStep::Continue
                }
            },
            None => {
                self.offered = None;
                if self.curr.len() > 0 {
                    let ghost old_curr = self.curr@;
                    let i = self.curr.pop().unwrap();
                    self.cursor = Some((i, 0));
                    proof {
                        self.popped@ = self.popped@ + 1;
                        self.popped_this_round@ = true;
                        assert(self.curr@ =~= old_curr.drop_last());
                        assert forall|t: int| 0 <= t < self.curr@.len() implies (#[trigger] self.curr@[t]) < self.rcvd@.len()
                            && self.rcvd@[self.curr@[t] as int] by {
                            assert(self.curr@[t] == old_curr[t]);
                        }
                    }
                    DiffusionStep::Continue
                } else {
                    self.num_share = self.num_share + self.n_curr_sharing;
                    self.num_xact = self.num_xact + self.n_curr_acting;
                    std::mem::swap(&mut self.curr, &mut self.next);
                    self.n_curr_sharing = 0;
                    self.n_curr_acting = 0;
                    self.total_step = self.total_step + 1;
                    proof {
                        self.popped_this_round@ = false;
                    }
                    if self.curr.len() == 0 {
                        self.finished = true;
                        assert(self.next@ =~= Seq::<usize>::empty());
                        DiffusionStep::Finished
                    } else {
                        assert(self.next@ =~= Seq::<usize>::empty());
                        DiffusionStep::Continue
                    }
                }
            },
        }
    }

    /// Whether user `j` has received the message.
    pub fn is_received(&self, j: usize) -> (b: bool)
        requires
            self.wf(),
            j < self.view().received.len(),
        ensures
            b == self.view().received[j as int],
    {
        self.rcvd[j]
    }

    /// The offered user `j` takes the message, after the caller has contacted
    /// them: `external` is whether they now act externally and `internal`
    /// whether they decide to share. Acting adds one to
    /// `num_xact_of_users[j]`; sharing, which needs successors, adds one to
    /// `num_share_of_users[j]` and puts `j` on the next frontier.
    pub fn deliver(
        &mut self,
        graph: &Graph,
        external: bool,
        internal: bool,
        num_share_of_users: &mut Vec<usize>,
        num_xact_of_users: &mut Vec<usize>,
    )
        requires
            old(self).wf(),
            graph.view() == old(self).view().adj,
            old(self).view().offered is Some,
            !old(self).view().received[old(self).view().offered.unwrap() as int],
            old(num_share_of_users)@.len() >= old(self).view().received.len(),
            old(num_xact_of_users)@.len() >= old(self).view().received.len(),
            external ==> old(num_xact_of_users)@[old(self).view().offered.unwrap() as int] < usize::MAX,
            internal && degree(old(self).view().adj, old(self).view().offered.unwrap()) > 0
                ==> old(num_share_of_users)@[old(self).view().offered.unwrap() as int] < usize::MAX,
        ensures
            final(self).wf(),
            deliver_spec(old(self).view(), final(self).view(), external, internal),
            final(num_xact_of_users)@ == bump(old(num_xact_of_users)@, old(self).view().offered.unwrap(), external),
            final(num_share_of_users)@ == bump(
                old(num_share_of_users)@,
                old(self).view().offered.unwrap(),
                internal && degree(old(self).view().adj, old(self).view().offered.unwrap()) > 0,
            ),
    {
        proof {
            self.lemma_counts_bounded();
        }
        let j = match self.offered {
            Some(j) => j,
            None => {
                return;
            },
        };
        let ghost old_rcvd = self.rcvd@;
        let ghost (i, k) = self.cursor.unwrap();
        proof {
            let adj = self.adj@;
            assert(reachable(adj, self.ip, i));
            let d = choose|d: nat| #[trigger] reachable_within(adj, self.ip, i, d);
            let w = choose|w: Seq<usize>| #[trigger] is_walk(adj, w, self.ip, i) && w.len() <= d + 1;
            assert(adj[i as int][k - 1] == j);
            assert(is_edge(adj, i, j));
            lemma_walk_extend(adj, w, self.ip, i, j);
            assert(reachable_within(adj, self.ip, j, d + 1));
            assert(!received_set(old_rcvd).contains(j as int));
            assert(!self.acted@.contains(j as int));
            assert(!self.shared@.contains(j as int));
        }
        self.rcvd.set(j, true);
        self.offered = None;
        if external {
            self.n_curr_acting = self.n_curr_acting + 1;
            num_xact_of_users.set(j, num_xact_of_users[j] + 1);
            proof {
                self.acted@ = self.acted@.insert(j as int);
            }
        }
        if graph.successors(j).len() > 0 && internal {
            self.n_curr_sharing = self.n_curr_sharing + 1;
            self.next.push(j);
            num_share_of_users.set(j, num_share_of_users[j] + 1);
            proof {
                assert(self.shared@.insert(self.ip as int).insert(j as int) =~= self.shared@.insert(j as int).insert(self.ip as int));
                self.shared@ = self.shared@.insert(j as int);
            }
        }
        proof {
            let recv = received_set(self.rcvd@);
            assert(recv =~= received_set(old_rcvd).insert(j as int));
            assert forall|jj: int| 0 <= jj < self.rcvd@.len() && #[trigger] self.rcvd@[jj] implies reachable(self.adj@, self.ip, jj as usize) by {
                if jj != j {
                    assert(old_rcvd[jj]);
                }
            }
        }
    }

    /// The totals of the diffusion so far: external actions and shares of
    /// the finished rounds, and the number of finished rounds.
    pub fn result(&self) -> (r: DiffusionResult)
        ensures
            r.num_xact == self.view().num_xact,
            r.num_share == self.view().num_share,
            r.total_step == self.view().total_step,
    {
        DiffusionResult { num_xact: self.num_xact, num_share: self.num_share, total_step: self.total_step }
    }
}

/// `base` with one added to the entry of every user in `hit`.
pub open spec fn counted(base: Seq<usize>, hit: Set<int>) -> Seq<usize> {
    Seq::new(base.len(), |j: int| (base[j] + if hit.contains(j) { 1int } else { 0 }) as usize)
}

/// The sum of the entries of `s`.
pub open spec fn seq_sum(s: Seq<usize>) -> int
    decreases s.len(),
{
    if s.len() == 0 {
        0
    } else {
        seq_sum(s.drop_last()) + s.last()
    }
}

/// Counting the users of `hit` once each adds the number of those users to
/// the sum of the counters.
proof fn lemma_sum_counted(base: Seq<usize>, hit: Set<int>)
    requires
        hit.finite(),
        forall|j: int| #[trigger] hit.contains(j) ==> 0 <= j < base.len() && base[j] < usize::MAX,
    ensures
        seq_sum(counted(base, hit)) == seq_sum(base) + hit.len(),
    decreases base.len(),
{
    let c = counted(base, hit);
    if base.len() == 0 {
        assert(hit =~= Set::<int>::empty());
    } else {
        let last = base.len() - 1;
        let rest = hit.remove(last);
        lemma_sum_counted(base.drop_last(), rest);
        assert(counted(base.drop_last(), rest) =~= c.drop_last());
        if hit.contains(last) {
            assert(rest.len() == hit.len() - 1);
        } else {
            assert(rest =~= hit);
        }
    }
}

/// What one whole diffusion from `ip` on `adj` did to the counters, given
/// the users who acted and those who shared, and what it returned: every
/// such user received the message from the poster along the graph's edges,
/// is not the poster and was counted exactly once; a sharer has successors;
/// at least one round ran, and no more than there were sharers plus one for
/// the poster; and a single round ran exactly when nobody shared.
pub open spec fn diffusion_outcome(
    adj: Seq<Seq<usize>>,
    ip: usize,
    acted: Set<int>,
    shared: Set<int>,
    r: DiffusionResult,
    share_before: Seq<usize>,
    share_after: Seq<usize>,
    xact_before: Seq<usize>,
    xact_after: Seq<usize>,
) -> bool {
    &&& acted.finite() && shared.finite()
    &&& r.num_xact == acted.len()
    &&& r.num_share == shared.len()
    &&& 1 <= r.total_step <= shared.len() + 1
    &&& (r.total_step == 1 <==> r.num_share == 0)
    &&& forall|j: int|
        #[trigger] acted.contains(j) ==> 0 <= j < adj.len() && j != ip && reachable(adj, ip, j as usize)
    &&& forall|j: int|
        #[trigger] shared.contains(j) ==> 0 <= j < adj.len() && j != ip && reachable(adj, ip, j as usize)
            && degree(adj, j as usize) > 0
    &&& xact_after == counted(xact_before, acted)
    &&& share_after == counted(share_before, shared)
}

/// One move of a run as the caller's state sees it: a move that makes an
/// offer takes one step of `step`, from the state before the move, asked
/// about the user offered the message and whether they have received it,
/// to the state after the move and the move's answer; any other move leaves
/// the caller's state as it is.
pub open spec fn chain_move_ok<S>(
    step: spec_fn(S, usize, bool, S, Option<(bool, bool)>) -> bool,
    states: Seq<DiffusionView>,
    answers: Seq<Option<(bool, bool)>>,
    ss: Seq<S>,
    t: int,
) -> bool {
    let (v, s) = step_fn(states[t]);
    match s {
        DiffusionStep::Examine { from: _, to } => step(ss[t], to, v.received[to as int], ss[t + 1], answers[t]),
        _ => ss[t + 1] == ss[t],
    }
}

/// `ss` threads the caller's state through the run `states`, `answers`: it
/// holds the caller's state before each move and after the last one, and
/// every move is as `chain_move_ok` says.
pub open spec fn state_chain<S>(
    step: spec_fn(S, usize, bool, S, Option<(bool, bool)>) -> bool,
    states: Seq<DiffusionView>,
    answers: Seq<Option<(bool, bool)>>,
    ss: Seq<S>,
) -> bool {
    &&& ss.len() == states.len()
    &&& forall|t: int| 0 <= t < answers.len() ==> #[trigger] chain_move_ok(step, states, answers, ss, t)
}

/// Admits every answer: which answers a run got is said by its state chain.
pub open spec fn any_answer() -> spec_fn(usize, bool, Option<(bool, bool)>) -> bool {
    |j: usize, received: bool, answer: Option<(bool, bool)>| true
}

/// One call of `offer`: from the caller's state `s`, asked about the offer of
/// the message to `j`, who has `received` it or not, to the state `s2` and
/// the answer `answer`.
pub open spec fn offer_step<S, F: Fn(S, usize, bool) -> (S, Option<(bool, bool)>)>(offer: F) -> spec_fn(
    S,
    usize,
    bool,
    S,
    Option<(bool, bool)>,
) -> bool {
    |s: S, j: usize, received: bool, s2: S, answer: Option<(bool, bool)>|
        offer.ensures((s, j, received), (s2, answer))
}

/// The states of a whole diffusion, the answers its offers got and the
/// caller's states along it.
pub type Run<S> = (Seq<DiffusionView>, Seq<Option<(bool, bool)>>, Seq<S>);

/// `run` is a whole diffusion from `ip` on `adj` whose answers came from
/// `step`, one step per offer, threading the caller's state from `s0`.
pub open spec fn threaded_run<S>(
    step: spec_fn(S, usize, bool, S, Option<(bool, bool)>) -> bool,
    adj: Seq<Seq<usize>>,
    ip: usize,
    s0: S,
    run: Run<S>,
) -> bool {
    &&& is_run(any_answer(), adj, ip, run.0, run.1)
    &&& state_chain(step, run.0, run.1, run.2)
    &&& run.2[0] == s0
}

/// Diffuses a message posted by `ip` through `graph`. Each round, every user
/// about to share offers the message to each successor `j` in turn, and
/// `offer(s, j, received)` is asked about the offer, once, with the caller's
/// state `s` and whether `j` already has the message; it returns the new
/// state and its answer. When `j` had not received the message, an answer
/// `Some((external, internal))` means that `j` took the message and reacted:
/// `j` then counts as having received it, acting externally adds one to
/// `num_xact_of_users[j]`, and deciding to share, for a `j` with successors,
/// adds one to `num_share_of_users[j]` and makes `j` share in the next round.
/// The diffusion ends after the first round in which nobody decided to share.
/// Returns the totals and the caller's last state.
///
/// The contract states the whole run: the moves are those of `is_run`, each
/// offer is one call of `offer` from the state the previous call left, no
/// other call is made, and the result and the counters are those of the
/// run's last state.
pub fn diffuse<S, F: Fn(S, usize, bool) -> (S, Option<(bool, bool)>)>(
    graph: &Graph,
    ip: usize,
    state: S,
    offer: &F,
    num_share_of_users: &mut Vec<usize>,
    num_xact_of_users: &mut Vec<usize>,
) -> (out: (DiffusionResult, S))
    requires
        ip < graph.view().len(),
        old(num_share_of_users)@.len() >= graph.view().len(),
        old(num_xact_of_users)@.len() >= graph.view().len(),
        forall|j: int| 0 <= j < graph.view().len() ==> old(num_share_of_users)@[j] < usize::MAX,
        forall|j: int| 0 <= j < graph.view().len() ==> old(num_xact_of_users)@[j] < usize::MAX,
        forall|s: S, j: usize, received: bool| #[trigger] offer.requires((s, j, received)),
    ensures
        exists|run: Run<S>|
            {
                &&& #[trigger] threaded_run(offer_step(*offer), graph.view(), ip, state, run)
                &&& out.1 == run.2.last()
                &&& out.0.num_xact == run.0.last().num_xact
                &&& out.0.num_share == run.0.last().num_share
                &&& out.0.total_step == run.0.last().total_step
                &&& final(num_xact_of_users)@ == counted(old(num_xact_of_users)@, run.0.last().acted)
                &&& final(num_share_of_users)@ == counted(old(num_share_of_users)@, run.0.last().shared)
                &&& diffusion_outcome(
                    graph.view(),
                    ip,
                    run.0.last().acted,
                    run.0.last().shared,
                    out.0,
                    old(num_share_of_users)@,
                    final(num_share_of_users)@,
                    old(num_xact_of_users)@,
                    final(num_xact_of_users)@,
                )
            },
{
    let ghost adj = graph.view();
    let ghost share0 = num_share_of_users@;
    let ghost xact0 = num_xact_of_users@;
    let ghost step = offer_step(*offer);
    let ghost s0 = state;
    let mut st = state;
    let mut d = Diffusion::new(graph, ip);
    let ghost mut states: Seq<DiffusionView> = seq![d.view()];
    let ghost mut answers: Seq<Option<(bool, bool)>> = Seq::empty();
    let ghost mut ss: Seq<S> = seq![st];
    proof {
        assert(num_share_of_users@ =~= counted(share0, Set::empty()));
        assert(num_xact_of_users@ =~= counted(xact0, Set::empty()));
    }
    loop
        invariant_except_break
            !d.view().finished,
        invariant
            d.wf(),
            d.view().adj == adj,
            adj == graph.view(),
            d.view().ip == ip,
            share0.len() >= adj.len(),
            xact0.len() >= adj.len(),
            forall|j: int| 0 <= j < adj.len() ==> share0[j] < usize::MAX,
            forall|j: int| 0 <= j < adj.len() ==> xact0[j] < usize::MAX,
            num_share_of_users@ == counted(share0, d.view().shared),
            num_xact_of_users@ == counted(xact0, d.view().acted),
            step == offer_step(*offer),
            forall|s: S, j: usize, received: bool| #[trigger] offer.requires((s, j, received)),
            states.len() == answers.len() + 1,
            states[0] == init_view(adj, ip),
            states.last() == d.view(),
            forall|t: int| 0 <= t < answers.len() ==> #[trigger] run_move_ok(any_answer(), states, answers, t),
            forall|t: int| 0 <= t < answers.len() ==> !(#[trigger] states[t]).finished,
            ss.len() == states.len(),
            ss[0] == s0,
            ss.last() == st,
            forall|t: int| 0 <= t < answers.len() ==> #[trigger] chain_move_ok(step, states, answers, ss, t),
        ensures
            d.wf(),
            d.view().finished,
            d.view().adj == adj,
            d.view().ip == ip,
            num_share_of_users@ == counted(share0, d.view().shared),
            num_xact_of_users@ == counted(xact0, d.view().acted),
            states.len() == answers.len() + 1,
            states[0] == init_view(adj, ip),
            states.last() == d.view(),
            forall|t: int| 0 <= t < answers.len() ==> #[trigger] run_move_ok(any_answer(), states, answers, t),
            forall|t: int| 0 <= t < answers.len() ==> !(#[trigger] states[t]).finished,
            ss.len() == states.len(),
            ss[0] == s0,
            ss.last() == st,
            forall|t: int| 0 <= t < answers.len() ==> #[trigger] chain_move_ok(step, states, answers, ss, t),
        decreases progress(d.view()).0, progress(d.view()).1, progress(d.view()).2,
    {
        proof {
            lemma_diffusion_invariant(d);
        }
        let ghost before = d.view();
        let ghost old_states = states;
        let ghost old_answers = answers;
        let ghost old_ss = ss;
        let ghost st_before = st;
        let s = d.step(graph);
        let ghost after_step = d.view();
        let ghost mut answer: Option<(bool, bool)> = None;
        let mut finished = false;
        match s {
            DiffusionStep::Examine { from: _, to: j } => {
                proof {
                    lemma_diffusion_invariant(d);
                }
                let received = d.is_received(j);
                let (st2, reply) = offer(st, j, received);
                st = st2;
                proof {
                    answer = reply;
                }
                if !received {
                    if let Some((external, internal)) = reply {
                        proof {
                            lemma_diffusion_invariant(d);
                        }
                        d.deliver(graph, external, internal, num_share_of_users, num_xact_of_users);
                        proof {
                            assert(num_xact_of_users@ =~= counted(xact0, d.view().acted));
                            assert(num_share_of_users@ =~= counted(share0, d.view().shared));
                        }
                    }
                }
                proof {
                    assert(step(st_before, j, after_step.received[j as int], st, answer));
                }
            },
            DiffusionStep::Continue => {},
            DiffusionStep::Finished => {
                finished = true;
            },
        }
        proof {
            assert(d.view() == advance(before, answer));
            states = old_states.push(d.view());
            answers = old_answers.push(answer);
            ss = old_ss.push(st);
            assert forall|t: int| 0 <= t < answers.len() implies #[trigger] run_move_ok(any_answer(), states, answers, t) by {
                assert(states[t] == if t < old_answers.len() { old_states[t] } else { before });
                assert(states[t + 1] == if t + 1 < old_states.len() { old_states[t + 1] } else { d.view() });
                assert(answers[t] == if t < old_answers.len() { old_answers[t] } else { answer });
                if t < old_answers.len() {
                    assert(run_move_ok(any_answer(), old_states, old_answers, t));
                }
            }
            assert forall|t: int| 0 <= t < answers.len() implies #[trigger] chain_move_ok(step, states, answers, ss, t) by {
                assert(states[t] == if t < old_answers.len() { old_states[t] } else { before });
                assert(answers[t] == if t < old_answers.len() { old_answers[t] } else { answer });
                assert(ss[t] == if t < old_answers.len() { old_ss[t] } else { st_before });
                assert(ss[t + 1] == if t + 1 < old_ss.len() { old_ss[t + 1] } else { st });
                if t < old_answers.len() {
                    assert(chain_move_ok(step, old_states, old_answers, old_ss, t));
                }
            }
            assert forall|t: int| 0 <= t < answers.len() implies !(#[trigger] states[t]).finished by {
                if t < old_answers.len() {
                    assert(states[t] == old_states[t]);
                    assert(!old_states[t].finished);
                } else {
                    assert(states[t] == before);
                }
            }
        }
        if finished {
            break;
        }
    }
    let r = d.result();
    proof {
        lemma_diffusion_invariant(d);
        let v = d.view();
        assert(is_run(any_answer(), adj, ip, states, answers));
        assert(state_chain(step, states, answers, ss));
        assert(threaded_run(step, adj, ip, s0, (states, answers, ss)));
        assert(diffusion_outcome(adj, ip, v.acted, v.shared, r, share0, num_share_of_users@, xact0, num_xact_of_users@));
    }
    (r, st)
}

/// A run that `step` threads is a run that any wider `wider` threads.
proof fn lemma_chain_weaken<S>(
    step: spec_fn(S, usize, bool, S, Option<(bool, bool)>) -> bool,
    wider: spec_fn(S, usize, bool, S, Option<(bool, bool)>) -> bool,
    adj: Seq<Seq<usize>>,
    ip: usize,
    s0: S,
    run: Run<S>,
)
    requires
        threaded_run(step, adj, ip, s0, run),
        forall|s: S, j: usize, received: bool, s2: S, answer: Option<(bool, bool)>|
            #[trigger] step(s, j, received, s2, answer) ==> wider(s, j, received, s2, answer),
    ensures
        threaded_run(wider, adj, ip, s0, run),
{
    assert forall|t: int| 0 <= t < run.1.len() implies #[trigger] chain_move_ok(wider, run.0, run.1, run.2, t) by {
        assert(chain_move_ok(step, run.0, run.1, run.2, t));
    }
}

/// One call of `offer` for message `m`: from the caller's state `s`, asked
/// about the offer of message `m` to `j`, who has `received` it or not, to
/// the state `s2` and the answer `answer`.
pub open spec fn message_step<S, F: Fn(S, usize, usize, bool) -> (S, Option<(bool, bool)>)>(
    offer: F,
    m: usize,
) -> spec_fn(S, usize, bool, S, Option<(bool, bool)>) -> bool {
    |s: S, j: usize, received: bool, s2: S, answer: Option<(bool, bool)>|
        offer.ensures((s, m, j, received), (s2, answer))
}

/// The caller's state after the first `k` diffusions of `runs`, which start
/// in `s0`.
pub open spec fn state_after<S>(s0: S, runs: Seq<Run<S>>, k: nat) -> S {
    if k == 0 {
        s0
    } else {
        runs[k - 1].2.last()
    }
}

/// `runs` are whole diffusions from `ip` on `adj`, one after another, the
/// `m`-th one of message `m`: each threads the caller's state from where the
/// previous one left it, the first from `s0`.
pub open spec fn message_runs<S, F: Fn(S, usize, usize, bool) -> (S, Option<(bool, bool)>)>(
    offer: F,
    adj: Seq<Seq<usize>>,
    ip: usize,
    s0: S,
    runs: Seq<Run<S>>,
) -> bool {
    forall|m: int|
        0 <= m < runs.len() ==> #[trigger] threaded_run(
            message_step(offer, m as usize),
            adj,
            ip,
            state_after(s0, runs, m as nat),
            runs[m],
        )
}

/// The counters `base` after the first `k` diffusions of `runs`, counting the
/// users who acted when `acting` holds, else those who shared.
pub open spec fn counted_runs<S>(base: Seq<usize>, runs: Seq<Run<S>>, k: nat, acting: bool) -> Seq<usize>
    decreases k,
{
    if k == 0 {
        base
    } else {
        let last = runs[k - 1].0.last();
        counted(counted_runs(base, runs, (k - 1) as nat, acting), if acting { last.acted } else { last.shared })
    }
}

/// The external actions of the first `k` diffusions of `runs`.
pub open spec fn runs_xact<S>(runs: Seq<Run<S>>, k: nat) -> nat
    decreases k,
{
    if k == 0 {
        0
    } else {
        runs_xact(runs, (k - 1) as nat) + runs[k - 1].0.last().num_xact
    }
}

/// The shares of the first `k` diffusions of `runs`.
pub open spec fn runs_share<S>(runs: Seq<Run<S>>, k: nat) -> nat
    decreases k,
{
    if k == 0 {
        0
    } else {
        runs_share(runs, (k - 1) as nat) + runs[k - 1].0.last().num_share
    }
}

/// A set of users of a graph of `n` users has at most `n` members.
proof fn lemma_users_bounded(s: Set<int>, n: nat)
    requires
        forall|j: int| #[trigger] s.contains(j) ==> 0 <= j < n,
    ensures
        s.finite(),
        s.len() <= n,
{
    lemma_int_range(0, n as int);
    assert(s.subset_of(set_int_range(0, n as int)));
    lemma_len_subset(s, set_int_range(0, n as int));
}

/// Diffuses the messages `0..num_messages`, one after another, from the
/// poster `ip` through `graph`, as `diffuse` does, asking `offer(s, m, j,
/// received)` about each offer of message `m` and threading the caller's
/// state `s` from `state` through all of them; adds each diffusion's external
/// actions and shares to `result.mean_num_xact` and `result.mean_num_share`
/// and counts, in `result`, who acted and who shared in each diffusion. The
/// per-user counters grow in all by the diffusions' totals of actions and of
/// shares, and the poster's stay as they were. Returns the caller's last
/// state.
pub fn multiple_diffuse<S, F: Fn(S, usize, usize, bool) -> (S, Option<(bool, bool)>)>(
    graph: &Graph,
    ip: usize,
    num_messages: usize,
    state: S,
    offer: &F,
    result: &mut Aggregator<usize>,
) -> (last: S)
    requires
        ip < graph.view().len(),
        old(result).num_share_of_users@.len() >= graph.view().len(),
        old(result).num_xact_of_users@.len() >= graph.view().len(),
        forall|j: int|
            0 <= j < graph.view().len() ==> old(result).num_share_of_users@[j] + num_messages <= usize::MAX,
        forall|j: int|
            0 <= j < graph.view().len() ==> old(result).num_xact_of_users@[j] + num_messages <= usize::MAX,
        old(result).mean_num_xact + num_messages * graph.view().len() <= usize::MAX,
        old(result).mean_num_share + num_messages * graph.view().len() <= usize::MAX,
        forall|s: S, m: usize, j: usize, received: bool| #[trigger] offer.requires((s, m, j, received)),
    ensures
        exists|runs: Seq<Run<S>>|
            {
                &&& runs.len() == num_messages
                &&& #[trigger] message_runs(*offer, graph.view(), ip, state, runs)
                &&& last == state_after(state, runs, num_messages as nat)
                &&& final(result).mean_num_xact == old(result).mean_num_xact + runs_xact(runs, num_messages as nat)
                &&& final(result).mean_num_share == old(result).mean_num_share + runs_share(runs, num_messages as nat)
                &&& final(result).num_xact_of_users@ == counted_runs(
                    old(result).num_xact_of_users@,
                    runs,
                    num_messages as nat,
                    true,
                )
                &&& final(result).num_share_of_users@ == counted_runs(
                    old(result).num_share_of_users@,
                    runs,
                    num_messages as nat,
                    false,
                )
                &&& seq_sum(final(result).num_xact_of_users@) == seq_sum(old(result).num_xact_of_users@)
                    + runs_xact(runs, num_messages as nat)
                &&& seq_sum(final(result).num_share_of_users@) == seq_sum(old(result).num_share_of_users@)
                    + runs_share(runs, num_messages as nat)
            },
        final(result).num_share_of_users@.len() == old(result).num_share_of_users@.len(),
        final(result).num_xact_of_users@.len() == old(result).num_xact_of_users@.len(),
        final(result).mean_num_xact <= old(result).mean_num_xact + num_messages * graph.view().len(),
        final(result).mean_num_share <= old(result).mean_num_share + num_messages * graph.view().len(),
        forall|j: int|
            0 <= j < graph.view().len() ==> #[trigger] final(result).num_share_of_users@[j]
                <= old(result).num_share_of_users@[j] + num_messages,
        forall|j: int|
            0 <= j < graph.view().len() ==> #[trigger] final(result).num_xact_of_users@[j]
                <= old(result).num_xact_of_users@[j] + num_messages,
        final(result).num_share_of_users@[ip as int] == old(result).num_share_of_users@[ip as int],
        final(result).num_xact_of_users@[ip as int] == old(result).num_xact_of_users@[ip as int],
{
    let ghost adj = graph.view();
    let ghost n = adj.len();
    let ghost mean0 = result.mean_num_xact;
    let ghost meanshare0 = result.mean_num_share;
    let ghost share0 = result.num_share_of_users@;
    let ghost xact0 = result.num_xact_of_users@;
    let ghost s0 = state;
    let ghost mut runs: Seq<Run<S>> = Seq::empty();
    let mut st = state;
    let mut m: usize = 0;
    while m < num_messages
        invariant
            m <= num_messages,
            adj == graph.view(),
            n == adj.len(),
            ip < n,
            runs.len() == m,
            message_runs(*offer, adj, ip, s0, runs),
            st == state_after(s0, runs, m as nat),
            result.mean_num_xact == mean0 + runs_xact(runs, m as nat),
            result.mean_num_share == meanshare0 + runs_share(runs, m as nat),
            runs_xact(runs, m as nat) <= m * n,
            runs_share(runs, m as nat) <= m * n,
            seq_sum(result.num_xact_of_users@) == seq_sum(xact0) + runs_xact(runs, m as nat),
            seq_sum(result.num_share_of_users@) == seq_sum(share0) + runs_share(runs, m as nat),
            mean0 + num_messages * n <= usize::MAX,
            meanshare0 + num_messages * n <= usize::MAX,
            result.num_xact_of_users@ == counted_runs(xact0, runs, m as nat, true),
            result.num_share_of_users@ == counted_runs(share0, runs, m as nat, false),
            result.num_xact_of_users@.len() == xact0.len(),
            result.num_share_of_users@.len() == share0.len(),
            share0.len() >= n,
            xact0.len() >= n,
            forall|j: int| 0 <= j < n ==> share0[j] + num_messages <= usize::MAX,
            forall|j: int| 0 <= j < n ==> xact0[j] + num_messages <= usize::MAX,
            forall|j: int| 0 <= j < n ==> #[trigger] result.num_share_of_users@[j] <= share0[j] + m,
            forall|j: int| 0 <= j < n ==> #[trigger] result.num_xact_of_users@[j] <= xact0[j] + m,
            result.num_share_of_users@[ip as int] == share0[ip as int],
            result.num_xact_of_users@[ip as int] == xact0[ip as int],
            forall|s: S, mm: usize, j: usize, received: bool| #[trigger] offer.requires((s, mm, j, received)),
        decreases num_messages - m,
    {
        let ghost share_before = result.num_share_of_users@;
        let ghost xact_before = result.num_xact_of_users@;
        let ghost st_before = st;
        let one = |s: S, j: usize, received: bool| -> (out: (S, Option<(bool, bool)>))
            requires
                offer.requires((s, m, j, received)),
            ensures
                offer.ensures((s, m, j, received), out),
            { offer(s, m, j, received) };
        let ghost one_g = one;
        let (res, st2) = diffuse(graph, ip, st, &one, &mut result.num_share_of_users, &mut result.num_xact_of_users);
        st = st2;
        let ghost run = choose|run: Run<S>|
            {
                &&& #[trigger] threaded_run(offer_step(one_g), adj, ip, st_before, run)
                &&& st2 == run.2.last()
                &&& res.num_xact == run.0.last().num_xact
                &&& res.num_share == run.0.last().num_share
                &&& res.total_step == run.0.last().total_step
                &&& result.num_xact_of_users@ == counted(xact_before, run.0.last().acted)
                &&& result.num_share_of_users@ == counted(share_before, run.0.last().shared)
                &&& diffusion_outcome(
                    adj,
                    ip,
                    run.0.last().acted,
                    run.0.last().shared,
                    res,
                    share_before,
                    result.num_share_of_users@,
                    xact_before,
                    result.num_xact_of_users@,
                )
            };
        proof {
            lemma_chain_weaken(offer_step(one_g), message_step(*offer, m), adj, ip, st_before, run);
            lemma_users_bounded(run.0.last().acted, n);
            lemma_users_bounded(run.0.last().shared, n);
            assert(res.num_xact <= n);
            assert(res.num_share <= n);
            assert forall|j: int| #[trigger] run.0.last().acted.contains(j) implies 0 <= j < xact_before.len()
                && xact_before[j] < usize::MAX by {
                assert(xact_before[j] <= xact0[j] + m);
            }
            assert forall|j: int| #[trigger] run.0.last().shared.contains(j) implies 0 <= j < share_before.len()
                && share_before[j] < usize::MAX by {
                assert(share_before[j] <= share0[j] + m);
            }
            lemma_sum_counted(xact_before, run.0.last().acted);
            lemma_sum_counted(share_before, run.0.last().shared);
            assert((m + 1) * n == m * n + n) by (nonlinear_arith);
            assert((m + 1) * n <= num_messages * n) by (nonlinear_arith)
                requires
                    m + 1 <= num_messages,
            ;
        }
        result.add_result(&res);
        proof {
            let old_runs = runs;
            runs = runs.push(run);
            assert(runs[m as int] == run);
            lemma_runs_prefix(xact0, share0, old_runs, runs, m as nat);
            assert(counted_runs(xact0, runs, (m + 1) as nat, true) == counted(
                counted_runs(xact0, runs, m as nat, true),
                run.0.last().acted,
            ));
            assert(counted_runs(share0, runs, (m + 1) as nat, false) == counted(
                counted_runs(share0, runs, m as nat, false),
                run.0.last().shared,
            ));
            assert(runs_xact(runs, (m + 1) as nat) == runs_xact(old_runs, m as nat) + res.num_xact);
            assert(runs_share(runs, (m + 1) as nat) == runs_share(old_runs, m as nat) + res.num_share);
            assert(state_after(s0, runs, m as nat) == state_after(s0, old_runs, m as nat));
            assert forall|mm: int| 0 <= mm < runs.len() implies #[trigger] threaded_run(
                message_step(*offer, mm as usize),
                adj,
                ip,
                state_after(s0, runs, mm as nat),
                runs[mm],
            ) by {
                if mm < m {
                    assert(runs[mm] == old_runs[mm]);
                    assert(state_after(s0, runs, mm as nat) == state_after(s0, old_runs, mm as nat));
                }
            }
            assert forall|j: int| 0 <= j < n implies #[trigger] result.num_share_of_users@[j] <= share0[j] + m + 1 by {
                assert(share_before[j] <= share0[j] + m);
            }
            assert forall|j: int| 0 <= j < n implies #[trigger] result.num_xact_of_users@[j] <= xact0[j] + m + 1 by {
                assert(xact_before[j] <= xact0[j] + m);
            }
            assert(!run.0.last().acted.contains(ip as int));
            assert(!run.0.last().shared.contains(ip as int));
        }
        m = m + 1;
    }
    st
}

/// The caller's state after the first `k` samples of `samples`, the first
/// of which starts from `s0`: each sample holds the state its reset gave and
/// its diffusions.
pub open spec fn sample_end<S>(s0: S, samples: Seq<(S, Seq<Run<S>>)>, k: nat) -> S {
    if k == 0 {
        s0
    } else {
        let last = samples[k - 1];
        state_after(last.0, last.1, last.1.len())
    }
}

/// The counters `base` after the diffusions of the first `k` samples,
/// counting the users who acted when `acting` holds, else those who shared.
pub open spec fn counted_samples<S>(base: Seq<usize>, samples: Seq<(S, Seq<Run<S>>)>, k: nat, acting: bool) -> Seq<
    usize,
>
    decreases k,
{
    if k == 0 {
        base
    } else {
        let runs = samples[k - 1].1;
        counted_runs(counted_samples(base, samples, (k - 1) as nat, acting), runs, runs.len(), acting)
    }
}

/// The external actions of the diffusions of the first `k` samples.
pub open spec fn samples_xact<S>(samples: Seq<(S, Seq<Run<S>>)>, k: nat) -> nat
    decreases k,
{
    if k == 0 {
        0
    } else {
        samples_xact(samples, (k - 1) as nat) + runs_xact(samples[k - 1].1, samples[k - 1].1.len())
    }
}

/// The shares of the diffusions of the first `k` samples.
pub open spec fn samples_share<S>(samples: Seq<(S, Seq<Run<S>>)>, k: nat) -> nat
    decreases k,
{
    if k == 0 {
        0
    } else {
        samples_share(samples, (k - 1) as nat) + runs_share(samples[k - 1].1, samples[k - 1].1.len())
    }
}

/// Counters that are all zero sum to zero.
proof fn lemma_sum_zeros(n: nat)
    ensures
        seq_sum(Seq::new(n, |j: int| 0usize)) == 0,
    decreases n,
{
    if n > 0 {
        lemma_sum_zeros((n - 1) as nat);
        assert(Seq::new(n, |j: int| 0usize).drop_last() =~= Seq::new((n - 1) as nat, |j: int| 0usize));
    }
}

/// Extending `samples` keeps the counts of its first `k` samples.
proof fn lemma_samples_prefix<S>(
    base_x: Seq<usize>,
    base_s: Seq<usize>,
    s0: S,
    samples: Seq<(S, Seq<Run<S>>)>,
    longer: Seq<(S, Seq<Run<S>>)>,
    k: nat,
)
    requires
        k <= samples.len() <= longer.len(),
        forall|i: int| 0 <= i < samples.len() ==> longer[i] == samples[i],
    ensures
        samples_xact(longer, k) == samples_xact(samples, k),
        samples_share(longer, k) == samples_share(samples, k),
        counted_samples(base_x, longer, k, true) == counted_samples(base_x, samples, k, true),
        counted_samples(base_s, longer, k, false) == counted_samples(base_s, samples, k, false),
        sample_end(s0, longer, k) == sample_end(s0, samples, k),
    decreases k,
{
    if k > 0 {
        lemma_samples_prefix(base_x, base_s, s0, samples, longer, (k - 1) as nat);
        assert(longer[k - 1] == samples[k - 1]);
    }
}

/// The counts of a Monte Carlo estimate: starting from all counts zero, runs
/// `sample_size` samples, threading the caller's state from `state`. Sample
/// `s` first calls `start_sample(state, s)`, which gives the state the sample
/// starts from (the caller resets there what each sample must start afresh),
/// and then diffuses the messages `0..num_messages` from that state as
/// `multiple_diffuse` does. The totals of external actions and of shares are
/// the sums of the users' action and share counts; no user has more counts
/// than there were diffusions, and the poster has none. Returns the counts
/// and the caller's last state.
pub fn monte_carlo_counts<
    S,
    F: Fn(S, usize, usize, bool) -> (S, Option<(bool, bool)>),
    G: Fn(S, usize) -> S,
>(
    graph: &Graph,
    ip: usize,
    num_messages: usize,
    sample_size: usize,
    state: S,
    start_sample: &G,
    offer: &F,
) -> (out: (Aggregator<usize>, S))
    requires
        ip < graph.view().len(),
        sample_size * num_messages * graph.view().len() <= usize::MAX,
        forall|s: S, k: usize| #[trigger] start_sample.requires((s, k)),
        forall|s: S, m: usize, j: usize, received: bool| #[trigger] offer.requires((s, m, j, received)),
    ensures
        exists|samples: Seq<(S, Seq<Run<S>>)>|
            {
                &&& samples.len() == sample_size
                &&& forall|k: int|
                    0 <= k < sample_size ==> {
                        &&& start_sample.ensures((sample_end(state, samples, k as nat), k as usize), (#[trigger] samples[k]).0)
                        &&& samples[k].1.len() == num_messages
                        &&& message_runs(*offer, graph.view(), ip, samples[k].0, samples[k].1)
                    }
                &&& out.1 == sample_end(state, samples, sample_size as nat)
                &&& out.0.mean_num_xact == samples_xact(samples, sample_size as nat)
                &&& out.0.mean_num_share == samples_share(samples, sample_size as nat)
                &&& out.0.num_xact_of_users@ == counted_samples(
                    Seq::new(graph.view().len(), |j: int| 0usize),
                    samples,
                    sample_size as nat,
                    true,
                )
                &&& out.0.num_share_of_users@ == counted_samples(
                    Seq::new(graph.view().len(), |j: int| 0usize),
                    samples,
                    sample_size as nat,
                    false,
                )
            },
        seq_sum(out.0.num_xact_of_users@) == out.0.mean_num_xact,
        seq_sum(out.0.num_share_of_users@) == out.0.mean_num_share,
        out.0.num_xact_of_users@.len() == graph.view().len(),
        out.0.num_share_of_users@.len() == graph.view().len(),
        forall|j: int|
            0 <= j < graph.view().len() ==> #[trigger] out.0.num_xact_of_users@[j] <= sample_size * num_messages,
        forall|j: int|
            0 <= j < graph.view().len() ==> #[trigger] out.0.num_share_of_users@[j] <= sample_size * num_messages,
        out.0.num_xact_of_users@[ip as int] == 0,
        out.0.num_share_of_users@[ip as int] == 0,
{
    let ghost adj = graph.view();
    let n = graph.node_count();
    let ghost zeros = Seq::new(n as nat, |j: int| 0usize);
    let ghost s0 = state;
    let mut st = state;
    let mut result = Aggregator::new(n);
    let ghost mut samples: Seq<(S, Seq<Run<S>>)> = Seq::empty();
    let mut s: usize = 0;
    proof {
        assert(result.num_xact_of_users@ =~= zeros);
        assert(result.num_share_of_users@ =~= zeros);
        lemma_sum_zeros(n as nat);
    }
    while s < sample_size
        invariant
            s <= sample_size,
            adj == graph.view(),
            n == adj.len(),
            ip < n,
            zeros == Seq::new(n as nat, |j: int| 0usize),
            sample_size * num_messages * n <= usize::MAX,
            samples.len() == s,
            forall|k: int|
                0 <= k < s ==> {
                    &&& start_sample.ensures((sample_end(s0, samples, k as nat), k as usize), (#[trigger] samples[k]).0)
                    &&& samples[k].1.len() == num_messages
                    &&& message_runs(*offer, adj, ip, samples[k].0, samples[k].1)
                },
            st == sample_end(s0, samples, s as nat),
            result.mean_num_xact == samples_xact(samples, s as nat),
            result.mean_num_share == samples_share(samples, s as nat),
            result.mean_num_xact <= s * num_messages * n,
            result.mean_num_share <= s * num_messages * n,
            seq_sum(result.num_xact_of_users@) == result.mean_num_xact,
            seq_sum(result.num_share_of_users@) == result.mean_num_share,
            result.num_xact_of_users@ == counted_samples(zeros, samples, s as nat, true),
            result.num_share_of_users@ == counted_samples(zeros, samples, s as nat, false),
            result.num_xact_of_users@.len() == n,
            result.num_share_of_users@.len() == n,
            forall|j: int| 0 <= j < n ==> #[trigger] result.num_share_of_users@[j] <= s * num_messages,
            forall|j: int| 0 <= j < n ==> #[trigger] result.num_xact_of_users@[j] <= s * num_messages,
            result.num_xact_of_users@[ip as int] == 0,
            result.num_share_of_users@[ip as int] == 0,
            forall|x: S, k: usize| #[trigger] start_sample.requires((x, k)),
            forall|x: S, mm: usize, j: usize, received: bool| #[trigger] offer.requires((x, mm, j, received)),
        decreases sample_size - s,
    {
        let ghost before = result;
        let ghost st_before = st;
        proof {
            assert((s + 1) * num_messages * n <= sample_size * num_messages * n) by (nonlinear_arith)
                requires
                    s + 1 <= sample_size,
            ;
            assert((s + 1) * num_messages * n == s * num_messages * n + num_messages * n) by (nonlinear_arith);
            assert((s + 1) * num_messages <= (s + 1) * num_messages * n) by (nonlinear_arith)
                requires
                    n >= 1,
            ;
            assert((s + 1) * num_messages == s * num_messages + num_messages) by (nonlinear_arith);
        }
        let started = start_sample(st, s);
        let ghost started_g = started;
        st = multiple_diffuse(graph, ip, num_messages, started, offer, &mut result);
        let ghost runs = choose|runs: Seq<Run<S>>|
            {
                &&& runs.len() == num_messages
                &&& #[trigger] message_runs(*offer, adj, ip, started_g, runs)
                &&& st == state_after(started_g, runs, num_messages as nat)
                &&& result.mean_num_xact == before.mean_num_xact + runs_xact(runs, num_messages as nat)
                &&& result.mean_num_share == before.mean_num_share + runs_share(runs, num_messages as nat)
                &&& result.num_xact_of_users@ == counted_runs(
                    before.num_xact_of_users@,
                    runs,
                    num_messages as nat,
                    true,
                )
                &&& result.num_share_of_users@ == counted_runs(
                    before.num_share_of_users@,
                    runs,
                    num_messages as nat,
                    false,
                )
                &&& seq_sum(result.num_xact_of_users@) == seq_sum(before.num_xact_of_users@) + runs_xact(
                    runs,
                    num_messages as nat,
                )
                &&& seq_sum(result.num_share_of_users@) == seq_sum(before.num_share_of_users@) + runs_share(
                    runs,
                    num_messages as nat,
                )
            };
        proof {
            let old_samples = samples;
            samples = samples.push((started_g, runs));
            lemma_samples_prefix(zeros, zeros, s0, old_samples, samples, s as nat);
            assert(samples[s as int] == (started_g, runs));
            assert(sample_end(s0, samples, (s + 1) as nat) == st);
            assert forall|k: int| 0 <= k < s + 1 implies {
                &&& start_sample.ensures((sample_end(s0, samples, k as nat), k as usize), (#[trigger] samples[k]).0)
                &&& samples[k].1.len() == num_messages
                &&& message_runs(*offer, adj, ip, samples[k].0, samples[k].1)
            } by {
                if k < s {
                    assert(samples[k] == old_samples[k]);
                    lemma_samples_prefix(zeros, zeros, s0, old_samples, samples, k as nat);
                } else {
                    assert(sample_end(s0, samples, k as nat) == st_before);
                }
            }
            assert forall|j: int| 0 <= j < n implies #[trigger] result.num_share_of_users@[j] <= (s + 1) * num_messages by {
                assert(before.num_share_of_users@[j] <= s * num_messages);
            }
            assert forall|j: int| 0 <= j < n implies #[trigger] result.num_xact_of_users@[j] <= (s + 1) * num_messages by {
                assert(before.num_xact_of_users@[j] <= s * num_messages);
            }
        }
        s = s + 1;
    }
    (result, st)
}

/// Extending `runs` keeps the counts of its first `k` diffusions.
proof fn lemma_runs_prefix<S>(
    xact0: Seq<usize>,
    share0: Seq<usize>,
    runs: Seq<Run<S>>,
    longer: Seq<Run<S>>,
    k: nat,
)
    requires
        k <= runs.len() <= longer.len(),
        forall|i: int| 0 <= i < runs.len() ==> longer[i] == runs[i],
    ensures
        runs_xact(longer, k) == runs_xact(runs, k),
        runs_share(longer, k) == runs_share(runs, k),
        counted_runs(xact0, longer, k, true) == counted_runs(xact0, runs, k, true),
        counted_runs(share0, longer, k, false) == counted_runs(share0, runs, k, false),
    decreases k,
{
    if k > 0 {
        lemma_runs_prefix(xact0, share0, runs, longer, (k - 1) as nat);
        assert(longer[k - 1] == runs[k - 1]);
    }
}

/// The counts, totals and caller's state after the first `k` diffusions of
/// `runs2`, which follow all of `runs1`.
proof fn lemma_runs_concat_prefix<S>(
    xact0: Seq<usize>,
    share0: Seq<usize>,
    s0: S,
    runs1: Seq<Run<S>>,
    runs2: Seq<Run<S>>,
    k: nat,
)
    requires
        k <= runs2.len(),
    ensures
        counted_runs(xact0, runs1 + runs2, runs1.len() + k, true) == counted_runs(
            counted_runs(xact0, runs1, runs1.len(), true),
            runs2,
            k,
            true,
        ),
        counted_runs(share0, runs1 + runs2, runs1.len() + k, false) == counted_runs(
            counted_runs(share0, runs1, runs1.len(), false),
            runs2,
            k,
            false,
        ),
        runs_xact(runs1 + runs2, runs1.len() + k) == runs_xact(runs1, runs1.len()) + runs_xact(runs2, k),
        runs_share(runs1 + runs2, runs1.len() + k) == runs_share(runs1, runs1.len()) + runs_share(runs2, k),
        state_after(s0, runs1 + runs2, runs1.len() + k) == state_after(
            state_after(s0, runs1, runs1.len()),
            runs2,
            k,
        ),
    decreases k,
{
    let all = runs1 + runs2;
    if k == 0 {
        lemma_runs_prefix(xact0, share0, runs1, all, runs1.len());
        if runs1.len() > 0 {
            assert(all[runs1.len() - 1] == runs1[runs1.len() - 1]);
        }
    } else {
        lemma_runs_concat_prefix(xact0, share0, s0, runs1, runs2, (k - 1) as nat);
        assert(all[runs1.len() + k - 1] == runs2[k - 1]);
    }
}

/// Diffusing a list of messages in one go is diffusing a first part of it
/// and then the rest: the runs of the whole list are those of the first
/// part, each of its message, followed by those of the rest, each of its
/// message counted after the first part and each starting from the caller's
/// state the first part left; and the counters, the totals of actions and of
/// shares and the caller's last state are those of the first part's runs
/// followed by the rest's.
pub proof fn lemma_runs_split<S, F: Fn(S, usize, usize, bool) -> (S, Option<(bool, bool)>)>(
    offer: F,
    adj: Seq<Seq<usize>>,
    ip: usize,
    s0: S,
    xact0: Seq<usize>,
    share0: Seq<usize>,
    runs1: Seq<Run<S>>,
    runs2: Seq<Run<S>>,
)
    ensures
        message_runs(offer, adj, ip, s0, runs1 + runs2) <==> (message_runs(offer, adj, ip, s0, runs1) && forall|m: int|
            0 <= m < runs2.len() ==> #[trigger] threaded_run(
                message_step(offer, (runs1.len() + m) as usize),
                adj,
                ip,
                state_after(state_after(s0, runs1, runs1.len()), runs2, m as nat),
                runs2[m],
            )),
        counted_runs(xact0, runs1 + runs2, runs1.len() + runs2.len(), true) == counted_runs(
            counted_runs(xact0, runs1, runs1.len(), true),
            runs2,
            runs2.len(),
            true,
        ),
        counted_runs(share0, runs1 + runs2, runs1.len() + runs2.len(), false) == counted_runs(
            counted_runs(share0, runs1, runs1.len(), false),
            runs2,
            runs2.len(),
            false,
        ),
        runs_xact(runs1 + runs2, runs1.len() + runs2.len()) == runs_xact(runs1, runs1.len()) + runs_xact(
            runs2,
            runs2.len(),
        ),
        runs_share(runs1 + runs2, runs1.len() + runs2.len()) == runs_share(runs1, runs1.len()) + runs_share(
            runs2,
            runs2.len(),
        ),
        state_after(s0, runs1 + runs2, runs1.len() + runs2.len()) == state_after(
            state_after(s0, runs1, runs1.len()),
            runs2,
            runs2.len(),
        ),
{
    let all = runs1 + runs2;
    let mid = state_after(s0, runs1, runs1.len());
    lemma_runs_concat_prefix(xact0, share0, s0, runs1, runs2, runs2.len());
    assert forall|m: int| 0 <= m < runs1.len() implies all[m] == runs1[m] && state_after(s0, all, m as nat)
        == state_after(s0, runs1, m as nat) by {
        if m > 0 {
            assert(all[m - 1] == runs1[m - 1]);
        }
    }
    assert forall|m: int| 0 <= m < runs2.len() implies all[runs1.len() + m] == runs2[m] && state_after(
        s0,
        all,
        (runs1.len() + m) as nat,
    ) == state_after(mid, runs2, m as nat) by {
        lemma_runs_concat_prefix(xact0, share0, s0, runs1, runs2, m as nat);
    }
    if message_runs(offer, adj, ip, s0, all) {
        assert forall|m: int| 0 <= m < runs1.len() implies #[trigger] threaded_run(
            message_step(offer, m as usize),
            adj,
            ip,
            state_after(s0, runs1, m as nat),
            runs1[m],
        ) by {
            assert(threaded_run(message_step(offer, m as usize), adj, ip, state_after(s0, all, m as nat), all[m]));
        }
        assert forall|m: int| 0 <= m < runs2.len() implies #[trigger] threaded_run(
            message_step(offer, (runs1.len() + m) as usize),
            adj,
            ip,
            state_after(mid, runs2, m as nat),
            runs2[m],
        ) by {
            let mm = runs1.len() + m;
            assert(threaded_run(
                message_step(offer, mm as usize),
                adj,
                ip,
                state_after(s0, all, mm as nat),
                all[mm],
            ));
        }
    }
    if message_runs(offer, adj, ip, s0, runs1) && forall|m: int|
        0 <= m < runs2.len() ==> #[trigger] threaded_run(
            message_step(offer, (runs1.len() + m) as usize),
            adj,
            ip,
            state_after(mid, runs2, m as nat),
            runs2[m],
        ) {
        assert forall|m: int| 0 <= m < all.len() implies #[trigger] threaded_run(
            message_step(offer, m as usize),
            adj,
            ip,
            state_after(s0, all, m as nat),
            all[m],
        ) by {
            if m < runs1.len() {
                assert(threaded_run(
                    message_step(offer, m as usize),
                    adj,
                    ip,
                    state_after(s0, runs1, m as nat),
                    runs1[m],
                ));
            } else {
                let m2 = m - runs1.len();
                assert(threaded_run(
                    message_step(offer, (runs1.len() + m2) as usize),
                    adj,
                    ip,
                    state_after(mid, runs2, m2 as nat),
                    runs2[m2],
                ));
            }
        }
    }
}

/// What every operation of a diffusion keeps: the poster has received the
/// message and never acts on it or shares it; only users who received the
/// message act or share, each at most once; every user who received it can
/// be reached from the poster; the counts of actions and shares are the
/// numbers of users who acted and shared; and no more rounds have run than
/// sharers have been taken from the frontiers.
pub proof fn lemma_diffusion_invariant(d: Diffusion)
    requires
        d.wf(),
    ensures
        ({
            let v = d.view();
            &&& v.ip < v.received.len()
            &&& v.received.len() == v.adj.len()
            &&& v.received[v.ip as int]
            &&& !v.acted.contains(v.ip as int)
            &&& !v.shared.contains(v.ip as int)
            &&& forall|j: int| #[trigger] v.acted.contains(j) ==> 0 <= j < v.received.len() && v.received[j]
            &&& forall|j: int| #[trigger] v.shared.contains(j) ==> 0 <= j < v.received.len() && v.received[j]
                && degree(v.adj, j as usize) > 0
            &&& forall|j: int| 0 <= j < v.received.len() && #[trigger] v.received[j] ==> reachable(v.adj, v.ip, j as usize)
            &&& v.acted.finite() && v.shared.finite()
            &&& v.num_xact + v.n_curr_acting == v.acted.len()
            &&& v.num_share + v.n_curr_sharing == v.shared.len()
            &&& v.total_step <= v.popped <= v.shared.len() + 1
            &&& (v.finished ==> v.num_xact == v.acted.len() && v.num_share == v.shared.len()
                && 1 <= v.total_step <= v.shared.len() + 1 && (v.total_step == 1 <==> v.num_share == 0))
        }),
{
    let v = d.view();
    let recv = received_set(v.received);
    assert forall|j: int| #[trigger] v.acted.contains(j) implies 0 <= j < v.received.len() && v.received[j] by {
        assert(recv.remove(v.ip as int).contains(j));
    }
    assert forall|j: int| #[trigger] v.shared.contains(j) implies 0 <= j < v.received.len() && v.received[j] by {
        assert(recv.remove(v.ip as int).contains(j));
    }
    assert(!recv.remove(v.ip as int).contains(v.ip as int));
    assert(v.shared.insert(v.ip as int).len() == v.shared.len() + 1);
}

/// Every user who has received the message in a diffusion has a finite
/// shortest distance from the poster, so `shortest_distances_from` gives a
/// distance for every user counted in a diffusion.
pub proof fn lemma_received_have_distance(d: Diffusion, dist: Seq<Option<usize>>)
    requires
        d.wf(),
        crate::graph::distances_spec(d.view().adj, d.view().ip, dist),
    ensures
        forall|j: int| 0 <= j < d.view().received.len() && #[trigger] d.view().received[j] ==> dist[j] is Some,
{
    lemma_diffusion_invariant(d);
    assert forall|j: int| 0 <= j < d.view().received.len() && #[trigger] d.view().received[j] implies dist[j] is Some by {
        assert(reachable(d.view().adj, d.view().ip, j as usize));
        if dist[j] is None {
            assert(!reachable(d.view().adj, d.view().ip, j as usize));
        }
    }
}

} // verus!
