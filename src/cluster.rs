//! Generation of a random cluster by breadth-first expansion from the origin.
//!
//! The frontier is a FIFO queue that may hold a cell more than once; a cell is
//! looked at only on its first pop, when it is marked visited. The origin
//! always joins the cluster; any other cell joins when its draw is below
//! `ACCEPT_BELOW`, and only a cell that joins puts its six neighbours on the
//! frontier. Generation stops when the frontier is empty or after a fixed
//! number of pops.

use crate::hex::{has_neighbors, neighbor_seq, origin_cell, HexCoord};
use rand::Rng;
use std::collections::VecDeque;
use vstd::prelude::*;

verus! {

/// A draw `d` stands for the fraction `d / DRAW_SCALE`.
pub const DRAW_SCALE: u32 = 1_000_000;

/// A cell other than the origin joins the cluster when its draw is below
/// this value: seven draws in ten.
pub const ACCEPT_BELOW: u32 = 700_000;

/// The number of frontier pops after which generation stops by default.
pub const DEFAULT_MAX_ITERATIONS: usize = 100;

/// The largest pop cap accepted; it keeps every reached cell, and its
/// neighbours, inside the `i32` range.
pub const MAX_ITERATIONS_LIMIT: usize = 0x7fff_fffe;

/// The state of a generation between two pops.
pub struct GenState {
    /// Cells waiting to be popped, front first.
    pub frontier: Seq<HexCoord>,
    /// Cells popped so far, each once, in order of first pop.
    pub visited: Seq<HexCoord>,
    /// Cells that joined, in order of joining.
    pub cluster: Seq<HexCoord>,
}

pub open spec fn initial_state() -> GenState {
    GenState { frontier: seq![origin_cell()], visited: seq![], cluster: seq![] }
}

/// Whether a freshly reached cell `c` joins, given its draw.
pub open spec fn accepts(c: HexCoord, draw: u32) -> bool {
    c == origin_cell() || draw < ACCEPT_BELOW
}

/// One pop of the frontier, with `draw` as the random value for that pop.
pub open spec fn step(s: GenState, draw: u32) -> GenState
    recommends
        s.frontier.len() > 0,
{
    let c = s.frontier[0];
    let rest = s.frontier.drop_first();
    if s.visited.contains(c) {
        GenState { frontier: rest, visited: s.visited, cluster: s.cluster }
    } else if accepts(c, draw) {
        GenState {
            frontier: rest + neighbor_seq(c),
            visited: s.visited.push(c),
            cluster: s.cluster.push(c),
        }
    } else {
        GenState { frontier: rest, visited: s.visited.push(c), cluster: s.cluster }
    }
}

/// The state reached from `s`, which has made `i` pops, once the frontier
/// is empty or `max` pops are made; pop number `j` uses `draws[j]`.
pub open spec fn run_from(s: GenState, draws: Seq<u32>, i: nat, max: nat) -> GenState
    decreases max - i,
{
    if i < max && s.frontier.len() > 0 {
        run_from(step(s, draws[i as int]), draws, i + 1, max)
    } else {
        s
    }
}

/// The cluster generated with at most `max` pops, pop number `j` using
/// `draws[j]`.
pub open spec fn cluster_of(draws: Seq<u32>, max: nat) -> Seq<HexCoord> {
    run_from(initial_state(), draws, 0, max).cluster
}

/// The distinct cells popped in the same generation, in order of first pop.
pub open spec fn explored_of(draws: Seq<u32>, max: nat) -> Seq<HexCoord> {
    run_from(initial_state(), draws, 0, max).visited
}

/// Both components of `c` lie within `b` of zero.
pub open spec fn within(c: HexCoord, b: int) -> bool {
    -b <= c.x <= b && -b <= c.y <= b
}

/// What holds of every state that generation passes through.
pub open spec fn well_formed(s: GenState) -> bool {
    &&& (s.visited.len() == 0 ==> s.cluster.len() == 0 && s.frontier == seq![origin_cell()])
    &&& (s.visited.len() > 0 ==> s.cluster.len() > 0 && s.cluster[0] == origin_cell())
    &&& s.cluster.no_duplicates()
    &&& forall|k: int| 0 <= k < s.cluster.len() ==> s.visited.contains(#[trigger] s.cluster[k])
    &&& s.cluster.len() <= s.visited.len()
}

proof fn lemma_step_well_formed(s: GenState, draw: u32)
    requires
        well_formed(s),
        s.frontier.len() > 0,
    ensures
        well_formed(step(s, draw)),
        step(s, draw).visited.len() >= s.visited.len(),
        s.visited.len() == 0 ==> step(s, draw).visited.len() == 1,
        step(s, draw).visited.len() <= s.visited.len() + 1,
{
    let c = s.frontier[0];
    let t = step(s, draw);
    if !s.visited.contains(c) {
        assert forall|k: int| 0 <= k < t.cluster.len() implies t.visited.contains(
            #[trigger] t.cluster[k],
        ) by {
            if k < s.cluster.len() {
                assert(s.visited.contains(s.cluster[k]));
                let w = choose|w: int| 0 <= w < s.visited.len() && s.visited[w] == s.cluster[k];
                assert(t.visited[w] == t.cluster[k]);
            } else {
                assert(t.visited[s.visited.len() as int] == c);
            }
        }
        if accepts(c, draw) {
            assert forall|a: int, b: int|
                0 <= a < t.cluster.len() && 0 <= b < t.cluster.len() && a != b implies t.cluster[a]
                != t.cluster[b] by {
                if a == s.cluster.len() as int {
                    assert(s.visited.contains(s.cluster[b]));
                } else if b == s.cluster.len() as int {
                    assert(s.visited.contains(s.cluster[a]));
                }
            }
        }
    }
}

proof fn lemma_run_well_formed(s: GenState, draws: Seq<u32>, i: nat, max: nat)
    requires
        well_formed(s),
    ensures
        well_formed(run_from(s, draws, i, max)),
        run_from(s, draws, i, max).visited.len() >= s.visited.len(),
        run_from(s, draws, i, max).visited.len() <= s.visited.len() + if i <= max {
            max - i
        } else {
            0
        },
    decreases max - i,
{
    if i < max && s.frontier.len() > 0 {
        lemma_step_well_formed(s, draws[i as int]);
        lemma_run_well_formed(step(s, draws[i as int]), draws, i + 1, max);
    }
}

/// The origin comes first in every cluster generated with at least one pop,
/// and nowhere else.
pub proof fn lemma_origin_exactly_once(draws: Seq<u32>, max: nat)
    requires
        max >= 1,
    ensures
        cluster_of(draws, max).len() >= 1,
        cluster_of(draws, max)[0] == origin_cell(),
        forall|k: int|
            1 <= k < cluster_of(draws, max).len() ==> #[trigger] cluster_of(draws, max)[k]
                != origin_cell(),
{
    let s0 = initial_state();
    let s1 = step(s0, draws[0]);
    lemma_step_well_formed(s0, draws[0]);
    lemma_run_well_formed(s1, draws, 1, max);
    assert(run_from(s0, draws, 0, max) == run_from(s1, draws, 1, max));
    let r = cluster_of(draws, max);
    assert forall|k: int| 1 <= k < r.len() implies #[trigger] r[k] != origin_cell() by {
        assert(r[0] != r[k]);
    }
}

/// No cell occurs twice in a cluster.
pub proof fn lemma_cells_unique(draws: Seq<u32>, max: nat)
    ensures
        cluster_of(draws, max).no_duplicates(),
{
    lemma_run_well_formed(initial_state(), draws, 0, max);
}

/// A cluster holds at most one cell per pop, and at least the origin once a
/// pop is allowed.
pub proof fn lemma_cluster_size(draws: Seq<u32>, max: nat)
    ensures
        cluster_of(draws, max).len() <= max,
        max >= 1 ==> cluster_of(draws, max).len() >= 1,
{
    lemma_run_well_formed(initial_state(), draws, 0, max);
    if max >= 1 {
        lemma_origin_exactly_once(draws, max);
    }
}

proof fn lemma_run_rejecting(s: GenState, draws: Seq<u32>, i: nat, max: nat)
    requires
        well_formed(s),
        s.visited.len() > 0,
        s.cluster == seq![origin_cell()],
        forall|j: int| i <= j < max ==> #[trigger] draws[j] >= ACCEPT_BELOW,
    ensures
        run_from(s, draws, i, max).cluster == seq![origin_cell()],
    decreases max - i,
{
    if i < max && s.frontier.len() > 0 {
        assert(s.visited.contains(s.cluster[0]));
        assert(draws[i as int] >= ACCEPT_BELOW);
        lemma_step_well_formed(s, draws[i as int]);
        lemma_run_rejecting(step(s, draws[i as int]), draws, i + 1, max);
    }
}

/// When no draw accepts, the cluster is the origin alone.
pub proof fn lemma_all_rejected(draws: Seq<u32>, max: nat)
    requires
        max >= 1,
        forall|j: int| 0 <= j < max ==> #[trigger] draws[j] >= ACCEPT_BELOW,
    ensures
        cluster_of(draws, max) == seq![origin_cell()],
{
    let s0 = initial_state();
    let s1 = step(s0, draws[0]);
    lemma_step_well_formed(s0, draws[0]);
    assert(s1.cluster =~= seq![origin_cell()]);
    lemma_run_rejecting(s1, draws, 1, max);
}

proof fn lemma_run_accepting(s: GenState, draws: Seq<u32>, i: nat, max: nat)
    requires
        s.cluster == s.visited,
        forall|j: int| i <= j < max ==> #[trigger] draws[j] < ACCEPT_BELOW,
    ensures
        run_from(s, draws, i, max).cluster == run_from(s, draws, i, max).visited,
    decreases max - i,
{
    if i < max && s.frontier.len() > 0 {
        assert(draws[i as int] < ACCEPT_BELOW);
        lemma_run_accepting(step(s, draws[i as int]), draws, i + 1, max);
    }
}

/// When every draw accepts, every cell explored within the pop cap joins:
/// the cluster is exactly the distinct cells popped, and there are at most
/// as many as pops.
pub proof fn lemma_all_accepted(draws: Seq<u32>, max: nat)
    requires
        forall|j: int| 0 <= j < max ==> #[trigger] draws[j] < ACCEPT_BELOW,
    ensures
        cluster_of(draws, max) == explored_of(draws, max),
        explored_of(draws, max).len() <= max,
{
    lemma_run_accepting(initial_state(), draws, 0, max);
    lemma_run_well_formed(initial_state(), draws, 0, max);
}

fn contains_coord(v: &Vec<HexCoord>, c: HexCoord) -> (r: bool)
    ensures
        r == v@.contains(c),
{
    let mut k: usize = 0;
    while k < v.len()
        invariant
            k <= v.len(),
            forall|j: int| 0 <= j < k ==> v@[j] != c,
        decreases v.len() - k,
    {
        if v[k] == c {
            assert(v@[k as int] == c);
            return true;
        }
        k += 1;
    }
    false
}

/// Generates a cluster with at most `max_iterations` pops of the frontier,
/// reading pop number `j`'s random value from `draws[j]`.
pub fn generate_cluster_with(draws: &Vec<u32>, max_iterations: usize) -> (r: Vec<HexCoord>)
    requires
        max_iterations <= draws.len(),
        max_iterations <= MAX_ITERATIONS_LIMIT,
    ensures
        r@ == cluster_of(draws@, max_iterations as nat),
{
    let ghost max = max_iterations as nat;
    let mut frontier: VecDeque<HexCoord> = VecDeque::new();
    frontier.push_back(HexCoord::origin());
    let mut visited: Vec<HexCoord> = Vec::new();
    let mut cluster: Vec<HexCoord> = Vec::new();
    let mut pops: usize = 0;
    assert(frontier@ =~= initial_state().frontier);
    while pops < max_iterations && frontier.len() > 0
        invariant
            pops <= max_iterations,
            max_iterations <= draws.len(),
            max_iterations <= MAX_ITERATIONS_LIMIT,
            max == max_iterations as nat,
            run_from(
                (GenState { frontier: frontier@, visited: visited@, cluster: cluster@ }),
                draws@,
                pops as nat,
                max,
            ) == run_from(initial_state(), draws@, 0, max),
            forall|j: int| 0 <= j < frontier@.len() ==> within(#[trigger] frontier@[j], pops as int),
        decreases max_iterations - pops,
    {
        let ghost before = GenState { frontier: frontier@, visited: visited@, cluster: cluster@ };
        let ghost draw = draws@[pops as int];
        let c = frontier.pop_front().unwrap();
        assert(frontier@ =~= before.frontier.drop_first());
        assert(within(before.frontier[0], pops as int));
        if !contains_coord(&visited, c) {
            visited.push(c);
            if c == HexCoord::origin() || draws[pops] < ACCEPT_BELOW {
                cluster.push(c);
                let nb = c.neighbors();
                let ghost rest = frontier@;
                let mut k: usize = 0;
                while k < 6
                    invariant
                        k <= 6,
                        nb@ == neighbor_seq(c),
                        within(c, pops as int),
                        pops < MAX_ITERATIONS_LIMIT,
                        frontier@ =~= rest + nb@.subrange(0, k as int),
                        forall|j: int|
                            0 <= j < rest.len() ==> within(#[trigger] rest[j], pops as int),
                    decreases 6 - k,
                {
                    frontier.push_back(nb[k]);
                    k += 1;
                }
                assert(nb@.subrange(0, 6) =~= nb@);
            }
        }
        proof {
            assert(GenState { frontier: frontier@, visited: visited@, cluster: cluster@ } == step(
                before,
                draw,
            ));
        }
        pops += 1;
    }
    cluster
}

/// Relies on rand's `thread_rng().gen_range(0..hi)`: a value drawn uniformly
/// from `0..hi`. It panics only on an empty range, which `requires` excludes.
#[verifier::external_body]
fn random_below(hi: u32) -> (r: u32)
    requires
        0 < hi,
    ensures
        r < hi,
{
    rand::thread_rng().gen_range(0..hi)
}

/// Generates a cluster with at most `max_iterations` pops of the frontier,
/// drawing one random value in `0..DRAW_SCALE` for each possible pop.
pub fn generate_cluster(max_iterations: usize) -> (r: Vec<HexCoord>)
    requires
        max_iterations <= MAX_ITERATIONS_LIMIT,
    ensures
        exists|d: Seq<u32>|
            {
                &&& d.len() == max_iterations
                &&& forall|j: int| 0 <= j < d.len() ==> #[trigger] d[j] < DRAW_SCALE
                &&& r@ == cluster_of(d, max_iterations as nat)
            },
        r@.no_duplicates(),
        r@.len() <= max_iterations,
        max_iterations >= 1 ==> r@.len() >= 1 && r@[0] == origin_cell(),
        forall|k: int| 1 <= k < r@.len() ==> #[trigger] r@[k] != origin_cell(),
{
    let mut draws: Vec<u32> = Vec::new();
    while draws.len() < max_iterations
        invariant
            draws.len() <= max_iterations,
            forall|j: int| 0 <= j < draws.len() ==> #[trigger] draws@[j] < DRAW_SCALE,
        decreases max_iterations - draws.len(),
    {
        let d = random_below(DRAW_SCALE);
        draws.push(d);
    }
    let r = generate_cluster_with(&draws, max_iterations);
    proof {
        let max = max_iterations as nat;
        lemma_cells_unique(draws@, max);
        lemma_cluster_size(draws@, max);
        if max >= 1 {
            lemma_origin_exactly_once(draws@, max);
        }
    }
    r
}

} // verus!
