//! Monte Carlo tree search over the Othello engine: an arena of nodes owned
//! by one search tree, UCT selection, random rollout, backpropagation,
//! visit-weighted move sampling, and incremental root reuse across turns.
//!
//! Scores are held in fixed-point thousandths throughout: the exploration
//! constant, the temperature, and the selection priority are integers that
//! stand for a value in thousandths, and the logarithm in the selection rule
//! is a fixed-point base-two approximation of the natural logarithm.

use vstd::prelude::*;

use vstd::arithmetic::div_mod::{lemma_div_nonincreasing, lemma_multiply_divide_lt};
use vstd::arithmetic::mul::{lemma_mul_strict_inequality, lemma_mul_upper_bound};
use vstd::arithmetic::power2::{
    lemma2_to64, lemma2_to64_rest, lemma_pow2_pos, lemma_pow2_strictly_increases,
    lemma_pow2_unfold, pow2,
};
use vstd::bits::lemma_u64_shl_is_mul;

use crate::bits::{lemma_pop_upto_le, pop64};
use crate::game::{is_move_result, is_pass_result, valid_placement, Game, Move, Player};
use crate::rng::{rng_below, rng_from_entropy, rng_from_seed};

verus! {

/// Telemetry data from a finished search: the root's visit total, the
/// empirical win rate of the most-visited child in thousandths, and the
/// per-child visit counts in child order. The win rate is a fixed-point
/// integer because this library holds no floating point, and the average
/// search depth — never meaningfully computed, by design — is not reported.
#[derive(Debug, Clone)]
pub struct Telemetry {
    pub total_simulations: u32,
    pub chosen_q_milli: u64,
    pub visit_distribution: Vec<u32>,
}

/// Result of a search: the selected move and the telemetry of the search
/// that chose it.
#[derive(Debug, Clone)]
pub struct SearchResult {
    pub best_move: Move,
    pub telemetry: Telemetry,
}

/// One node of the search arena: its visit and win counters, the board it
/// stands for, the move that produced it from its parent, and index links to
/// the parent and the children.
pub struct Node {
    pub visits: u32,
    pub wins: u32,
    pub parent: Option<usize>,
    pub children: Vec<usize>,
    pub game: Game,
    pub move_from_parent: Option<Move>,
}

/// A counter bumped by one, saturating at the largest value.
pub open spec fn sat_inc(v: u32) -> u32 {
    if v < 0xffff_ffffu32 {
        (v + 1) as u32
    } else {
        v
    }
}

/// A counter raised by `c`, saturating at the largest value.
pub open spec fn sat_add(v: u32, c: u32) -> u32 {
    if v + c <= 0xffff_ffffu32 {
        (v + c) as u32
    } else {
        0xffff_ffffu32
    }
}

/// The floor of the base-two logarithm; zero below two.
pub open spec fn log2_floor(n: int) -> int
    decreases n,
{
    if n <= 1 {
        0
    } else {
        1 + log2_floor(n / 2)
    }
}

/// The natural logarithm in fixed-point thousandths, approximated linearly
/// between powers of two: ln 2 is taken as 0.693, and the fraction past the
/// nearest lower power of two is interpolated. Zero for arguments below one.
pub open spec fn spec_ln_milli(v: int) -> int {
    if v < 1 {
        0
    } else {
        let k = log2_floor(v);
        693 * k + (v - pow2(k as nat)) * 693 / pow2(k as nat) as int
    }
}

/// The selection priority of a visited node in fixed-point thousandths: its
/// average score plus the exploration term, each rounded down.
pub open spec fn spec_uct_milli(wins: int, visits: int, parent_visits: int, c_milli: int) -> int
    recommends
        visits >= 1,
{
    (wins * 1000) / visits + (c_milli * spec_ln_milli(parent_visits)) / visits
}

/// The logarithm's argument sits between its bracketing powers of two.
proof fn lemma_log2_bounds(v: int)
    requires
        v >= 1,
    ensures
        log2_floor(v) >= 0,
        pow2(log2_floor(v) as nat) <= v,
        v < pow2((log2_floor(v) + 1) as nat),
    decreases v,
{
    if v == 1 {
        lemma2_to64();
    } else {
        lemma_log2_bounds(v / 2);
        let k = log2_floor(v / 2);
        lemma_pow2_unfold((k + 1) as nat);
        lemma_pow2_unfold((k + 2) as nat);
    }
}

/// A 64-bit argument has a logarithm of at most 63.
proof fn lemma_log2_u64_bound(n: u64)
    requires
        n >= 1,
    ensures
        0 <= log2_floor(n as int) <= 63,
{
    lemma_log2_bounds(n as int);
    let k = log2_floor(n as int);
    if k > 63 {
        lemma2_to64_rest();
        if k > 64 {
            lemma_pow2_strictly_increases(64, k as nat);
        }
        assert(pow2(k as nat) >= pow2(64));
        assert(false);
    }
}

/// Computes the floor of the base-two logarithm.
fn log2_floor_u64(n: u64) -> (r: u32)
    requires
        n >= 1,
    ensures
        r == log2_floor(n as int),
        r <= 63,
{
    let mut v: u64 = n;
    let mut k: u32 = 0;
    proof {
        lemma_log2_u64_bound(n);
    }
    while v >= 2
        invariant
            v >= 1,
            log2_floor(n as int) == k + log2_floor(v as int),
            0 <= log2_floor(n as int) <= 63,
            k <= 63,
        decreases v,
    {
        proof {
            lemma_log2_bounds(v as int);
            lemma_log2_bounds(v as int / 2);
        }
        v = v / 2;
        k = k + 1;
    }
    k
}

/// Computes the fixed-point natural logarithm in thousandths.
fn ln_milli(v: u64) -> (r: u64)
    requires
        v >= 1,
    ensures
        r == spec_ln_milli(v as int),
        r < 44352,
{
    let k = log2_floor_u64(v);
    proof {
        lemma_log2_bounds(v as int);
        lemma_pow2_pos(k as nat);
        if (k as u64) < 63 {
            lemma_pow2_strictly_increases(k as nat, 63);
        }
        lemma2_to64_rest();
        lemma_u64_shl_is_mul(1u64, k as u64);
    }
    let p = 1u64 << (k as u64);
    proof {
        assert(p == pow2(k as nat));
        lemma_pow2_unfold((k + 1) as nat);
        assert(v < 2 * p);
    }
    let diff = v - p;
    let num = (diff as u128) * 693;
    proof {
        if diff > 0 {
            lemma_mul_strict_inequality(diff as int, p as int, 693);
        }
        assert(num < (p as u128) * 693);
        lemma_multiply_divide_lt(num as int, p as int, 693);
    }
    let frac = (num / (p as u128)) as u64;
    693 * (k as u64) + frac
}

impl Node {
    /// Creates a fresh, unvisited node for `game`.
    pub fn new(game: Game, parent: Option<usize>, move_from_parent: Option<Move>) -> (r: Node)
        ensures
            r.visits == 0,
            r.wins == 0,
            r.parent == parent,
            r.children@.len() == 0,
            r.game == game,
            r.move_from_parent == move_from_parent,
    {
        Node { visits: 0, wins: 0, parent, children: Vec::new(), game, move_from_parent }
    }

    /// The selection priority of this node under a parent with
    /// `parent_visits` visits: unvisited nodes rank above every visited one.
    pub fn uct_value(&self, parent_visits: u32, exploration_milli: u64) -> (r: u128)
        ensures
            self.visits == 0 ==> r == u128::MAX,
            self.visits >= 1 ==> r == spec_uct_milli(
                self.wins as int,
                self.visits as int,
                parent_visits as int,
                exploration_milli as int,
            ),
            r == spec_priority(*self, parent_visits as int, exploration_milli as int),
    {
        if self.visits == 0 {
            u128::MAX
        } else {
            let lp = if parent_visits >= 1 {
                ln_milli(parent_visits as u64)
            } else {
                0
            };
            let v = self.visits as u128;
            let exploit = (self.wins as u128) * 1000 / v;
            proof {
                lemma_mul_upper_bound(
                    exploration_milli as int,
                    0xffff_ffff_ffff_ffffu64 as int,
                    lp as int,
                    44351,
                );
            }
            let prod = (exploration_milli as u128) * (lp as u128);
            let explore = prod / v;
            proof {
                lemma_div_nonincreasing(prod as int, v as int);
                lemma_div_nonincreasing((self.wins as u128 * 1000) as int, v as int);
                assert(exploit + explore < u128::MAX);
            }
            exploit + explore
        }
    }
}

/// Arena well-formedness of the node at index `i`: its board is well formed;
/// a non-root node records the move that produced its board from its
/// parent's, which that board admits; children point back to `i` and sit
/// later in the arena.
pub open spec fn wf_node(nodes: Seq<Node>, i: int) -> bool {
    &&& nodes[i].game.wf()
    &&& match nodes[i].parent {
        Some(p) => {
            &&& p < i
            &&& match nodes[i].move_from_parent {
                Some(Move::Place(pos)) => nodes[p as int].game.spec_valid_move(pos as u64)
                    && is_move_result(nodes[p as int].game, pos as u64, nodes[i].game),
                Some(Move::Pass) => !nodes[p as int].game.spec_has_move(
                    nodes[p as int].game.current_player,
                ) && is_pass_result(nodes[p as int].game, nodes[i].game),
                None => false,
            }
        },
        None => nodes[i].move_from_parent is None,
    }
    &&& forall|j: int|
        0 <= j < nodes[i].children@.len() ==> i < #[trigger] nodes[i].children@[j] < nodes.len()
            && nodes[nodes[i].children@[j] as int].parent == Some(i as usize)
    &&& forall|j1: int, j2: int|
        0 <= j1 < j2 < nodes[i].children@.len() ==> #[trigger] nodes[i].children@[j1]
            < #[trigger] nodes[i].children@[j2]
}

/// The sum of the visit counts of the listed nodes.
pub open spec fn sum_visits(nodes: Seq<Node>, ch: Seq<usize>) -> int
    decreases ch.len(),
{
    if ch.len() == 0 {
        0
    } else {
        sum_visits(nodes, ch.drop_last()) + nodes[ch.last() as int].visits
    }
}

/// The sum of a sequence of counters.
pub open spec fn sum_u32(s: Seq<u32>) -> int
    decreases s.len(),
{
    if s.len() == 0 {
        0
    } else {
        sum_u32(s.drop_last()) + s.last()
    }
}

/// The children of node `i` account for no more visits than the node
/// itself, except once the node's counter has saturated.
pub open spec fn counts_ok(nodes: Seq<Node>, i: int) -> bool {
    nodes[i].visits == 0xffff_ffffu32 || sum_visits(nodes, nodes[i].children@) <= nodes[i].visits
}

/// The selection priority of a node as an integer: unvisited nodes carry
/// the largest value there is, so they are tried before any visited one.
pub open spec fn spec_priority(n: Node, parent_visits: int, c_milli: int) -> int {
    if n.visits == 0 {
        u128::MAX as int
    } else {
        spec_uct_milli(n.wins as int, n.visits as int, parent_visits, c_milli)
    }
}

/// True when `t` is the index, within the child list `ch`, of the first
/// child holding the largest selection priority.
pub open spec fn is_first_max_uct(
    nodes: Seq<Node>,
    ch: Seq<usize>,
    parent_visits: int,
    c_milli: int,
    t: int,
) -> bool {
    &&& 0 <= t < ch.len()
    &&& forall|j: int|
        0 <= j < ch.len() ==> spec_priority(nodes[#[trigger] ch[j] as int], parent_visits, c_milli)
            <= spec_priority(nodes[ch[t] as int], parent_visits, c_milli)
    &&& forall|j: int|
        0 <= j < t ==> spec_priority(nodes[#[trigger] ch[j] as int], parent_visits, c_milli)
            < spec_priority(nodes[ch[t] as int], parent_visits, c_milli)
}

/// True when `x` lies at the bottom of a selection chain from `top`: `x`
/// is `top` itself, or `x` was entered from its parent as the parent's
/// first child of maximal selection priority, and the parent lies on such
/// a chain in turn.
pub open spec fn uct_chain(nodes: Seq<Node>, c_milli: int, top: int, x: int) -> bool
    decreases x,
{
    ||| x == top
    ||| (match nodes[x].parent {
        Some(p) => 0 <= p < x && uct_chain(nodes, c_milli, top, p as int) && exists|t: int|
            is_first_max_uct(
                nodes,
                nodes[p as int].children@,
                nodes[p as int].visits as int,
                c_milli,
                t,
            ) && #[trigger] nodes[p as int].children@[t] as int == x,
        None => false,
    })
}

/// True when `b` is the index, within the child list `ch`, of the first
/// child holding the largest visit count.
pub open spec fn is_first_max(nodes: Seq<Node>, ch: Seq<usize>, b: int) -> bool {
    &&& 0 <= b < ch.len()
    &&& forall|j: int| 0 <= j < ch.len() ==> nodes[#[trigger] ch[j] as int].visits <= nodes[ch[b] as int].visits
    &&& forall|j: int| 0 <= j < b ==> nodes[#[trigger] ch[j] as int].visits < nodes[ch[b] as int].visits
}

/// The position, in the child list `ch`, of the first child from `t` on
/// whose move is `mv`; -1 when there is none.
pub open spec fn find_child_at(nodes: Seq<Node>, ch: Seq<usize>, mv: Move, t: int) -> int
    decreases ch.len() - t,
{
    if t < 0 || t >= ch.len() {
        -1
    } else if nodes[ch[t] as int].move_from_parent == Some(mv) {
        t
    } else {
        find_child_at(nodes, ch, mv, t + 1)
    }
}

/// The position, in the child list `ch`, of the first child whose move is
/// `mv`; -1 when there is none.
pub open spec fn find_child(nodes: Seq<Node>, ch: Seq<usize>, mv: Move) -> int {
    find_child_at(nodes, ch, mv, 0)
}

/// A Monte Carlo search tree: the node arena, the exploration constant in
/// thousandths, the index of the current root, and the seeded generator that
/// drives rollouts and sampling.
pub struct MCTS {
    pub nodes: Vec<Node>,
    pub exploration_milli: u64,
    pub root_index: usize,
    pub rng: rand::rngs::StdRng,
}

impl MCTS {
    /// The arena is non-empty, the root is in range, and every node is well
    /// formed.
    pub open spec fn wf(self) -> bool {
        &&& self.nodes@.len() >= 1
        &&& self.root_index < self.nodes@.len()
        &&& forall|i: int| 0 <= i < self.nodes@.len() ==> #[trigger] wf_node(self.nodes@, i)
        &&& forall|i: int| 0 <= i < self.nodes@.len() ==> #[trigger] counts_ok(self.nodes@, i)
    }

    /// The board at the current root.
    pub open spec fn spec_root_game(self) -> Game {
        self.nodes@[self.root_index as int].game
    }

    /// Creates a tree rooted at `game`, with the given exploration constant
    /// in thousandths, seeded deterministically when a seed is given and
    /// from entropy otherwise.
    pub fn new(game: Game, exploration_milli: u64, seed: Option<u64>) -> (r: MCTS)
        requires
            game.wf(),
        ensures
            r.wf(),
            r.nodes@.len() == 1,
            r.root_index == 0,
            r.exploration_milli == exploration_milli,
            r.spec_root_game() == game,
            r.nodes@[0].visits == 0,
            r.nodes@[0].wins == 0,
            r.nodes@[0].parent is None,
            r.nodes@[0].move_from_parent is None,
            r.nodes@[0].children@.len() == 0,
    {
        let rng = match seed {
            Some(s) => rng_from_seed(s),
            None => rng_from_entropy(),
        };
        let root_node = Node::new(game, None, None);
        let mut nodes: Vec<Node> = Vec::new();
        nodes.push(root_node);
        let r = MCTS { nodes, exploration_milli, root_index: 0, rng };
        proof {
            assert(wf_node(r.nodes@, 0));
            assert(sum_visits(r.nodes@, r.nodes@[0].children@) == 0);
            assert(counts_ok(r.nodes@, 0));
        }
        r
    }

    /// Returns a reference to the root game state.
    pub fn root_game(&self) -> (r: &Game)
        requires
            self.wf(),
        ensures
            *r == self.spec_root_game(),
    {
        &self.nodes[self.root_index].game
    }

    /// Advances the root to the child corresponding to the given move,
    /// leaving every node of the arena — its boards and its accumulated
    /// visit and win counts — unchanged. Returns true if such a child
    /// exists, false otherwise; in the latter case the tree is unchanged.
    pub fn advance_root(&mut self, mv: Move) -> (r: bool)
        requires
            old(self).wf(),
        ensures
            final(self).wf(),
            final(self).nodes@ == old(self).nodes@,
            final(self).exploration_milli == old(self).exploration_milli,
            final(self).rng == old(self).rng,
            r == (find_child(
                old(self).nodes@,
                old(self).nodes@[old(self).root_index as int].children@,
                mv,
            ) >= 0),
            r ==> final(self).root_index == old(self).nodes@[old(self).root_index as int].children@[find_child(
                old(self).nodes@,
                old(self).nodes@[old(self).root_index as int].children@,
                mv,
            )],
            !r ==> final(self).root_index == old(self).root_index,
    {
        let ghost nodes = self.nodes@;
        let ghost ch = self.nodes@[self.root_index as int].children@;
        let root = self.root_index;
        let len = self.nodes[root].children.len();
        let mut t: usize = 0;
        while t < len
            invariant
                self.wf(),
                *self == *old(self),
                root == self.root_index,
                len == self.nodes@[root as int].children@.len(),
                nodes == self.nodes@,
                ch == self.nodes@[root as int].children@,
                t <= len,
                find_child(nodes, ch, mv) == find_child_at(nodes, ch, mv, t as int),
            decreases len - t,
        {
            proof {
                assert(wf_node(nodes, root as int));
            }
            let c = self.nodes[root].children[t];
            let matched = match self.nodes[c].move_from_parent {
                Some(m) => m == mv,
                None => false,
            };
            if matched {
                self.root_index = c;
                return true;
            }
            t = t + 1;
        }
        false
    }

    /// Reads the telemetry of the tree as it stands: the root's visit count,
    /// the per-child visit counts in child order, and the empirical win rate
    /// in thousandths of the first most-visited child (zero when the root
    /// has no children or that child is unvisited).
    pub fn compute_telemetry(&self) -> (r: Telemetry)
        requires
            self.wf(),
        ensures
            r.total_simulations == self.nodes@[self.root_index as int].visits,
            r.visit_distribution@.len() == self.nodes@[self.root_index as int].children@.len(),
            forall|j: int|
                0 <= j < r.visit_distribution@.len() ==> #[trigger] r.visit_distribution@[j]
                    == self.nodes@[self.nodes@[self.root_index as int].children@[j] as int].visits,
            self.nodes@[self.root_index as int].children@.len() == 0 ==> r.chosen_q_milli == 0,
            forall|b: int|
                is_first_max(self.nodes@, self.nodes@[self.root_index as int].children@, b)
                    ==> r.chosen_q_milli == spec_q_milli(
                    self.nodes@[self.nodes@[self.root_index as int].children@[b] as int].wins as int,
                    self.nodes@[self.nodes@[self.root_index as int].children@[b] as int].visits as int,
                ),
            // The children account for no more simulations than the root
            // ran, up to counter saturation.
            r.total_simulations == 0xffff_ffffu32 || sum_u32(r.visit_distribution@)
                <= r.total_simulations as int,
    {
        let ghost nodes = self.nodes@;
        let root = self.root_index;
        let ghost ch = self.nodes@[root as int].children@;
        let total_simulations = self.nodes[root].visits;
        let len = self.nodes[root].children.len();
        let mut visit_distribution: Vec<u32> = Vec::new();
        let mut t: usize = 0;
        proof {
            assert(ch.subrange(0, 0) =~= Seq::<usize>::empty());
            assert(sum_visits(nodes, ch.subrange(0, 0)) == 0);
        }
        while t < len
            invariant
                self.wf(),
                root == self.root_index,
                nodes == self.nodes@,
                ch == self.nodes@[root as int].children@,
                len == ch.len(),
                t <= len,
                visit_distribution@.len() == t,
                forall|j: int|
                    0 <= j < t ==> #[trigger] visit_distribution@[j] == nodes[ch[j] as int].visits,
                sum_u32(visit_distribution@) == sum_visits(nodes, ch.subrange(0, t as int)),
            decreases len - t,
        {
            proof {
                assert(wf_node(nodes, root as int));
            }
            let c = self.nodes[root].children[t];
            let ghost prev_dist = visit_distribution@;
            visit_distribution.push(self.nodes[c].visits);
            proof {
                assert(visit_distribution@.drop_last() =~= prev_dist);
                assert(ch.subrange(0, t as int + 1).drop_last() =~= ch.subrange(0, t as int));
                assert(ch.subrange(0, t as int + 1).last() == ch[t as int]);
            }
            t = t + 1;
        }
        let chosen_q_milli = if len == 0 {
            0
        } else {
            let b = self.first_max_child();
            proof {
                assert(wf_node(nodes, root as int));
            }
            let c = self.nodes[root].children[b];
            let visits = self.nodes[c].visits;
            let wins = self.nodes[c].wins;
            if visits == 0 {
                0
            } else {
                (wins as u64) * 1000 / (visits as u64)
            }
        };
        proof {
            if ch.len() > 0 {
                lemma_first_max_unique(nodes, ch);
            }
            assert(ch.subrange(0, len as int) =~= ch);
            assert(counts_ok(nodes, root as int));
        }
        Telemetry { total_simulations, chosen_q_milli, visit_distribution }
    }

    /// Finds the position, in the root's child list, of the first child with
    /// the largest visit count.
    fn first_max_child(&self) -> (b: usize)
        requires
            self.wf(),
            self.nodes@[self.root_index as int].children@.len() >= 1,
        ensures
            is_first_max(self.nodes@, self.nodes@[self.root_index as int].children@, b as int),
    {
        let ghost nodes = self.nodes@;
        let root = self.root_index;
        let ghost ch = self.nodes@[root as int].children@;
        let len = self.nodes[root].children.len();
        let mut best: usize = 0;
        proof {
            assert(wf_node(nodes, root as int));
        }
        let c0 = self.nodes[root].children[0];
        let mut best_visits = self.nodes[c0].visits;
        let mut t: usize = 1;
        while t < len
            invariant
                self.wf(),
                root == self.root_index,
                nodes == self.nodes@,
                ch == self.nodes@[root as int].children@,
                len == ch.len(),
                1 <= t <= len,
                best < t,
                best_visits == nodes[ch[best as int] as int].visits,
                forall|j: int| 0 <= j < t ==> nodes[#[trigger] ch[j] as int].visits <= best_visits,
                forall|j: int| 0 <= j < best ==> nodes[#[trigger] ch[j] as int].visits < best_visits,
            decreases len - t,
        {
            proof {
                assert(wf_node(nodes, root as int));
            }
            let c = self.nodes[root].children[t];
            let v = self.nodes[c].visits;
            if v > best_visits {
                best = t;
                best_visits = v;
            }
            t = t + 1;
        }
        best
    }
}

/// The square a node's move places a disc on, or -1 for a pass or a root.
pub open spec fn placed_square(n: Node) -> int {
    match n.move_from_parent {
        Some(Move::Place(p)) => p as int,
        _ => -1,
    }
}

/// Equality of every node field except the child list.
pub open spec fn same_but_children(a: Node, b: Node) -> bool {
    &&& a.visits == b.visits
    &&& a.wins == b.wins
    &&& a.parent == b.parent
    &&& a.game == b.game
    &&& a.move_from_parent == b.move_from_parent
}

/// Equality of every node field except the two counters.
pub open spec fn same_but_counts(a: Node, b: Node) -> bool {
    &&& a.parent == b.parent
    &&& a.children@ == b.children@
    &&& a.game == b.game
    &&& a.move_from_parent == b.move_from_parent
}

/// The counters of node `i` after one backpropagation step: one more visit
/// and `credit` more wins, each saturating.
pub open spec fn bumped(pre: Seq<Node>, post: Seq<Node>, i: int, credit: u32) -> bool {
    &&& post[i].visits == sat_inc(pre[i].visits)
    &&& post[i].wins == sat_add(pre[i].wins, credit)
}

/// True when node `i` lies on the parent chain that starts at `from`
/// (including `from` itself).
pub open spec fn on_path(nodes: Seq<Node>, from: int, i: int) -> bool
    decreases from,
{
    if from < 0 {
        false
    } else if from == i {
        true
    } else {
        match nodes[from].parent {
            Some(p) => 0 <= p < from && on_path(nodes, p as int, i),
            None => false,
        }
    }
}

/// The parent of the chain's end extends the chain.
proof fn lemma_on_path_extend(nodes: Seq<Node>, a: int, b: int, p: usize)
    requires
        on_path(nodes, a, b),
        0 <= b,
        nodes[b].parent == Some(p),
        p < b,
    ensures
        on_path(nodes, a, p as int),
    decreases a,
{
    if a == b {
        assert(on_path(nodes, p as int, p as int));
        assert(on_path(nodes, a, p as int));
    } else {
        assert(a >= 0);
        match nodes[a].parent {
            Some(q) => {
                lemma_on_path_extend(nodes, q as int, b, p);
                assert(on_path(nodes, a, p as int));
            },
            None => {},
        }
    }
}

/// Boards with the same masks offer each player the same placements.
proof fn lemma_same_masks_same_moves(a: Game, b: Game)
    requires
        a.black == b.black,
        a.white == b.white,
    ensures
        forall|pl: Player| a.spec_has_move(pl) == b.spec_has_move(pl),
        a.spec_game_over() == b.spec_game_over(),
{
    assert forall|pl: Player| a.spec_has_move(pl) == b.spec_has_move(pl) by {
        if a.spec_has_move(pl) {
            let p = choose|p: u64|
                p < 64 && #[trigger] valid_placement(a.side_own(pl), a.side_opp(pl), p);
            assert(valid_placement(b.side_own(pl), b.side_opp(pl), p));
        }
        if b.spec_has_move(pl) {
            let p = choose|p: u64|
                p < 64 && #[trigger] valid_placement(b.side_own(pl), b.side_opp(pl), p);
            assert(valid_placement(a.side_own(pl), a.side_opp(pl), p));
        }
    }
}

/// A selection chain is a parent chain: its bottom reaches its top by
/// parent links.
proof fn lemma_uct_chain_on_path(nodes: Seq<Node>, c_milli: int, top: int, x: int)
    requires
        uct_chain(nodes, c_milli, top, x),
        0 <= top,
    ensures
        on_path(nodes, x, top),
    decreases x,
{
    if x != top {
        match nodes[x].parent {
            Some(p) => {
                lemma_uct_chain_on_path(nodes, c_milli, top, p as int);
            },
            None => {},
        }
    }
}

/// Parent chains survive any change that keeps every parent link.
proof fn lemma_on_path_frame(pre: Seq<Node>, post: Seq<Node>, a: int, b: int)
    requires
        on_path(pre, a, b),
        a < pre.len(),
        forall|i: int| 0 <= i < pre.len() ==> #[trigger] post[i].parent == pre[i].parent,
    ensures
        on_path(post, a, b),
    decreases a,
{
    if a != b {
        match pre[a].parent {
            Some(p) => {
                lemma_on_path_frame(pre, post, p as int, b);
                assert(post[a].parent == pre[a].parent);
            },
            None => {},
        }
    }
}

/// A node on the chain from `from` sits at or below `from` in the arena.
proof fn lemma_on_path_le(nodes: Seq<Node>, from: int, i: int)
    requires
        on_path(nodes, from, i),
    ensures
        i <= from,
    decreases from,
{
    if from >= 0 && from != i {
        match nodes[from].parent {
            Some(p) => {
                lemma_on_path_le(nodes, p as int, i);
            },
            None => {},
        }
    }
}

/// The empirical win rate in thousandths: zero for an unvisited node.
pub open spec fn spec_q_milli(wins: int, visits: int) -> int {
    if visits == 0 {
        0
    } else {
        (wins * 1000) / visits
    }
}

/// One step of a playout: a legal placement applied to `a`, or a pass when
/// `a`'s side to move has no placement.
pub open spec fn playout_step(a: Game, b: Game) -> bool {
    ||| exists|pos: u64| a.spec_valid_move(pos) && #[trigger] is_move_result(a, pos, b)
    ||| (!a.spec_has_move(a.current_player) && is_pass_result(a, b))
}

/// `b` is reached from `a` by exactly `n` playout steps.
pub open spec fn playout_reaches_in(a: Game, b: Game, n: nat) -> bool
    decreases n,
{
    if n == 0 {
        a == b
    } else {
        exists|mid: Game| #[trigger] playout_step(a, mid) && playout_reaches_in(mid, b, (n - 1) as nat)
    }
}

/// `b` is reached from `a` by some sequence of playout steps.
pub open spec fn playout_reaches(a: Game, b: Game) -> bool {
    exists|n: nat| #[trigger] playout_reaches_in(a, b, n)
}

/// The playout score of board `g` for `pl`: one when `pl` holds more discs
/// than the opponent, zero otherwise — a draw scores zero, which preserves
/// the planner's truncating accumulation of draw outcomes.
pub open spec fn win01(pl: Player, g: Game) -> u32 {
    if pop64(g.side_own(pl)) > pop64(g.side_opp(pl)) {
        1u32
    } else {
        0u32
    }
}

/// One more step extends a playout.
proof fn lemma_playout_extend_in(a: Game, b: Game, c: Game, n: nat)
    requires
        playout_reaches_in(a, b, n),
        playout_step(b, c),
    ensures
        playout_reaches_in(a, c, (n + 1) as nat),
    decreases n,
{
    if n == 0 {
        assert(playout_reaches_in(c, c, 0));
        assert(playout_step(a, c));
    } else {
        let mid = choose|mid: Game|
            #[trigger] playout_step(a, mid) && playout_reaches_in(mid, b, (n - 1) as nat);
        lemma_playout_extend_in(mid, b, c, (n - 1) as nat);
        assert(playout_reaches_in(mid, c, n));
    }
}

/// One more step extends reachability.
proof fn lemma_playout_extend(a: Game, b: Game, c: Game)
    requires
        playout_reaches(a, b),
        playout_step(b, c),
    ensures
        playout_reaches(a, c),
{
    let n = choose|n: nat| #[trigger] playout_reaches_in(a, b, n);
    lemma_playout_extend_in(a, b, c, n);
    assert(playout_reaches_in(a, c, (n + 1) as nat));
}

/// The termination measure of a rollout: strictly decreased both by a
/// placement (which fills a square) and by a forced pass (which hands the
/// turn to a side that can place).
pub open spec fn rollout_measure(g: Game) -> int {
    2 * (64 - pop64(g.black | g.white)) + (if g.spec_has_move(g.current_player) {
        0int
    } else {
        1int
    })
}

/// The `e`-th power of `v`.
pub open spec fn spec_pow(v: nat, e: nat) -> nat
    decreases e,
{
    if e == 0 {
        1
    } else {
        v * spec_pow(v, (e - 1) as nat)
    }
}

/// The `e`-th power of `v`, capped at 2^32: the sampling weight of a child
/// with `v` visits under exponent `e`.
pub open spec fn spec_pow_capped(v: nat, e: nat) -> nat {
    if spec_pow(v, e) > 0x1_0000_0000 {
        0x1_0000_0000
    } else {
        spec_pow(v, e)
    }
}

/// Capping after every multiplication gives the same result as capping the
/// full power once.
proof fn lemma_pow_cap_step(v: nat, e: nat)
    ensures
        spec_pow_capped(v, (e + 1) as nat) == (if spec_pow_capped(v, e) * v > 0x1_0000_0000 {
            0x1_0000_0000nat
        } else {
            spec_pow_capped(v, e) * v
        }),
{
    let c: nat = 0x1_0000_0000;
    assert(spec_pow(v, (e + 1) as nat) == v * spec_pow(v, e));
    if spec_pow(v, e) > c {
        if v == 0 {
            assert(v * spec_pow(v, e) == 0) by (nonlinear_arith)
                requires
                    v == 0,
            ;
            assert(spec_pow_capped(v, e) * v == 0) by (nonlinear_arith)
                requires
                    v == 0,
            ;
        } else {
            assert(v * spec_pow(v, e) > c) by (nonlinear_arith)
                requires
                    v >= 1,
                    spec_pow(v, e) > c,
            ;
            assert(c * v > c || c * v == c) by (nonlinear_arith)
                requires
                    v >= 1,
                    c > 0,
            ;
        }
    } else {
        assert(v * spec_pow(v, e) == spec_pow(v, e) * v) by (nonlinear_arith);
    }
}

/// Raises `v` to the `e`-th power, capping the result at 2^32.
fn pow_capped(v: u32, e: u64) -> (r: u64)
    ensures
        r == spec_pow_capped(v as nat, e as nat),
        r <= 0x1_0000_0000u64,
{
    let mut r: u64 = 1;
    let mut i: u64 = 0;
    while i < e
        invariant
            i <= e,
            r <= 0x1_0000_0000u64,
            r == spec_pow_capped(v as nat, i as nat),
        decreases e - i,
    {
        proof {
            lemma_mul_upper_bound(r as int, 0x1_0000_0000, v as int, 0xffff_ffff);
            lemma_pow_cap_step(v as nat, i as nat);
        }
        let next = r * (v as u64);
        r = if next > 0x1_0000_0000u64 {
            0x1_0000_0000u64
        } else {
            next
        };
        i = i + 1;
    }
    r
}

impl MCTS {
    /// Descends from the root, at each step to the first child of maximal
    /// selection priority, until reaching a node with no children.
    #[verifier::loop_isolation(false)]
    fn select_leaf(&self) -> (r: usize)
        requires
            self.wf(),
        ensures
            r < self.nodes@.len(),
            self.nodes@[r as int].children@.len() == 0,
            uct_chain(
                self.nodes@,
                self.exploration_milli as int,
                self.root_index as int,
                r as int,
            ),
            self.nodes@[self.root_index as int].children@.len() == 0 ==> r == self.root_index,
    {
        let ghost nodes = self.nodes@;
        let ghost cm = self.exploration_milli as int;
        let mut current = self.root_index;
        proof {
            assert(uct_chain(nodes, cm, self.root_index as int, current as int));
        }
        while self.nodes[current].children.len() > 0
            invariant
                self.wf(),
                nodes == self.nodes@,
                cm == self.exploration_milli as int,
                self.root_index <= current < self.nodes@.len(),
                uct_chain(nodes, cm, self.root_index as int, current as int),
                self.nodes@[self.root_index as int].children@.len() == 0 ==> current
                    == self.root_index,
            decreases self.nodes@.len() - current,
        {
            proof {
                assert(wf_node(nodes, current as int));
            }
            let t = self.best_uct_child(current);
            let ghost prev = current;
            current = self.nodes[current].children[t];
            proof {
                assert(nodes[current as int].parent == Some(prev));
                assert(nodes[prev as int].children@[t as int] as int == current as int);
                assert(uct_chain(nodes, cm, self.root_index as int, current as int));
            }
        }
        current
    }

    /// Finds the position, in `node`'s child list, of the first child with
    /// the largest selection priority: ties go to the earlier child, and
    /// unvisited children come before every visited one.
    fn best_uct_child(&self, node: usize) -> (t: usize)
        requires
            self.wf(),
            node < self.nodes@.len(),
            self.nodes@[node as int].children@.len() >= 1,
        ensures
            is_first_max_uct(
                self.nodes@,
                self.nodes@[node as int].children@,
                self.nodes@[node as int].visits as int,
                self.exploration_milli as int,
                t as int,
            ),
    {
        let ghost nodes = self.nodes@;
        let ghost ch = self.nodes@[node as int].children@;
        let parent_visits = self.nodes[node].visits;
        let len = self.nodes[node].children.len();
        proof {
            assert(wf_node(nodes, node as int));
        }
        let c0 = self.nodes[node].children[0];
        let mut best: usize = 0;
        let mut best_val = self.nodes[c0].uct_value(parent_visits, self.exploration_milli);
        let mut t: usize = 1;
        while t < len
            invariant
                self.wf(),
                nodes == self.nodes@,
                node < self.nodes@.len(),
                ch == self.nodes@[node as int].children@,
                parent_visits == self.nodes@[node as int].visits,
                len == ch.len(),
                1 <= t <= len,
                best < t,
                best_val == spec_priority(
                    nodes[ch[best as int] as int],
                    parent_visits as int,
                    self.exploration_milli as int,
                ),
                forall|j: int|
                    0 <= j < t ==> spec_priority(
                        nodes[#[trigger] ch[j] as int],
                        parent_visits as int,
                        self.exploration_milli as int,
                    ) <= best_val,
                forall|j: int|
                    0 <= j < best ==> spec_priority(
                        nodes[#[trigger] ch[j] as int],
                        parent_visits as int,
                        self.exploration_milli as int,
                    ) < best_val,
            decreases len - t,
        {
            proof {
                assert(wf_node(nodes, node as int));
            }
            let c = self.nodes[node].children[t];
            let val = self.nodes[c].uct_value(parent_visits, self.exploration_milli);
            if val > best_val {
                best_val = val;
                best = t;
            }
            t = t + 1;
        }
        best
    }

    /// Expands a node: one child per legal move of its board, or a single
    /// forced-pass child when the position is not terminal but offers no
    /// placement; a terminal node gets no children. Returns the indices of
    /// the nodes created, which are appended to the arena in move order.
    #[verifier::loop_isolation(false)]
    fn expand_node(&mut self, node_index: usize) -> (new_children: Vec<usize>)
        requires
            old(self).wf(),
            node_index < old(self).nodes@.len(),
        ensures
            final(self).wf(),
            final(self).root_index == old(self).root_index,
            final(self).exploration_milli == old(self).exploration_milli,
            final(self).rng == old(self).rng,
            final(self).nodes@.len() == old(self).nodes@.len() + new_children@.len(),
            forall|i: int|
                0 <= i < old(self).nodes@.len() && i != node_index ==> final(self).nodes@[i] == old(
                    self,
                ).nodes@[i],
            same_but_children(
                old(self).nodes@[node_index as int],
                final(self).nodes@[node_index as int],
            ),
            final(self).nodes@[node_index as int].children@ == old(
                self,
            ).nodes@[node_index as int].children@ + new_children@,
            forall|q: int|
                0 <= q < new_children@.len() ==> #[trigger] new_children@[q] == old(
                    self,
                ).nodes@.len() + q,
            old(self).nodes@[node_index as int].game.spec_game_over() ==> new_children@.len() == 0
                && final(self).nodes@ == old(self).nodes@,
            !old(self).nodes@[node_index as int].game.spec_game_over() ==> new_children@.len()
                >= 1,
            // Each created node is fresh and points back at the expanded one.
            forall|q: int|
                0 <= q < new_children@.len() ==> {
                    let c = #[trigger] final(self).nodes@[new_children@[q] as int];
                    &&& c.visits == 0
                    &&& c.wins == 0
                    &&& c.children@.len() == 0
                    &&& c.parent == Some(node_index)
                },
            // With a placement available there is one child per legal move,
            // in ascending square order, and every legal move is among them.
            old(self).nodes@[node_index as int].game.spec_has_move(
                old(self).nodes@[node_index as int].game.current_player,
            ) ==> {
                &&& forall|q: int|
                    0 <= q < new_children@.len() ==> (#[trigger] final(self).nodes@[new_children@[q] as int].move_from_parent
                        matches Some(
                        Move::Place(p),
                    ) && old(self).nodes@[node_index as int].game.spec_valid_move(p as u64)
                        && is_move_result(
                        old(self).nodes@[node_index as int].game,
                        p as u64,
                        final(self).nodes@[new_children@[q] as int].game,
                    ))
                &&& forall|q1: int, q2: int|
                    0 <= q1 < q2 < new_children@.len() ==> placed_square(
                        #[trigger] final(self).nodes@[new_children@[q1] as int],
                    ) < placed_square(#[trigger] final(self).nodes@[new_children@[q2] as int])
                &&& forall|p: u64|
                    p < 64 && #[trigger] old(self).nodes@[node_index as int].game.spec_valid_move(
                        p,
                    ) ==> exists|q: int|
                        0 <= q < new_children@.len() && placed_square(
                            #[trigger] final(self).nodes@[new_children@[q] as int],
                        ) == p
            },
            // Without a placement on a non-terminal board, the one child is
            // the forced pass.
            !old(self).nodes@[node_index as int].game.spec_game_over() && !old(
                self,
            ).nodes@[node_index as int].game.spec_has_move(
                old(self).nodes@[node_index as int].game.current_player,
            ) ==> new_children@.len() == 1 && final(self).nodes@[new_children@[0] as int].move_from_parent
                == Some(Move::Pass) && is_pass_result(
                old(self).nodes@[node_index as int].game,
                final(self).nodes@[new_children@[0] as int].game,
            ),
    {
        let ghost pre = *self;
        proof {
            assert(wf_node(pre.nodes@, node_index as int));
        }
        let game_clone = self.nodes[node_index].game;
        if game_clone.is_game_over() {
            let new_children: Vec<usize> = Vec::new();
            proof {
                assert(self.nodes@[node_index as int].children@ =~= self.nodes@[node_index as int].children@
                    + new_children@);
            }
            return new_children;
        }
        let moves = game_clone.legal_moves();
        let mut new_children: Vec<usize> = Vec::new();
        if moves.len() == 0 {
            // Not terminal, but the side to move has no placement: a single
            // forced-pass child.
            proof {
                if game_clone.spec_has_move(game_clone.current_player) {
                    let p = choose|p: u64|
                        p < 64 && #[trigger] valid_placement(
                            game_clone.side_own(game_clone.current_player),
                            game_clone.side_opp(game_clone.current_player),
                            p,
                        );
                    assert(game_clone.spec_valid_move(p));
                    assert(moves@.contains(p as u8));
                }
            }
            let mut new_game = game_clone;
            new_game.pass();
            let idx = self.nodes.len();
            self.nodes.push(Node::new(new_game, Some(node_index), Some(Move::Pass)));
            self.nodes[node_index].children.push(idx);
            new_children.push(idx);
            proof {
                let pre_len = pre.nodes@.len() as int;
                let pre_ch = pre.nodes@[node_index as int].children@;
                assert(self.nodes@[node_index as int].children@ =~= pre_ch + new_children@);
                assert(self.nodes@[pre_len].parent == Some(node_index));
                assert(self.nodes@[pre_len].children@.len() == 0);
                assert(self.nodes@[pre_len].game.wf());
                assert(self.nodes@[pre_len].move_from_parent == Some(Move::Pass));
                assert(!self.nodes@[node_index as int].game.spec_has_move(
                    self.nodes@[node_index as int].game.current_player,
                ));
                assert(is_pass_result(self.nodes@[node_index as int].game, self.nodes@[pre_len].game));
                assert(self.nodes@[node_index as int].children@[pre_ch.len() as int] == idx);
                assert(self.nodes@[pre_len].visits == 0);
                lemma_expand_wf(pre.nodes@, self.nodes@, node_index as int);
                lemma_expand_counts(pre.nodes@, self.nodes@, node_index as int);
                assert(new_children@[0] == pre_len);
                assert(self.nodes@[new_children@[0] as int] == self.nodes@[pre_len]);
            }
            return new_children;
        }
        let ghost old_len = self.nodes@.len();
        let mut m: usize = 0;
        while m < moves.len()
            invariant
                node_index < old_len,
                old_len == pre.nodes@.len(),
                pre.wf(),
                wf_node(pre.nodes@, node_index as int),
                self.nodes@.len() == old_len + m,
                m <= moves@.len(),
                self.root_index == pre.root_index,
                self.exploration_milli == pre.exploration_milli,
                self.rng == pre.rng,
                forall|j: int| 0 <= j < moves@.len() ==> pre.nodes@[node_index as int].game.spec_valid_move(
                    #[trigger] moves@[j] as u64,
                ),
                forall|i: int|
                    0 <= i < old_len && i != node_index ==> self.nodes@[i] == pre.nodes@[i],
                same_but_children(
                    pre.nodes@[node_index as int],
                    self.nodes@[node_index as int],
                ),
                self.nodes@[node_index as int].children@ == pre.nodes@[node_index as int].children@
                    + new_children@,
                new_children@.len() == m,
                forall|q: int|
                    0 <= q < m ==> #[trigger] new_children@[q] == old_len + q,
                forall|q: int|
                    0 <= q < m ==> {
                        let c = #[trigger] self.nodes@[old_len + q];
                        &&& c.visits == 0
                        &&& c.wins == 0
                        &&& c.children@.len() == 0
                        &&& c.parent == Some(node_index)
                        &&& c.move_from_parent == Some(Move::Place(moves@[q]))
                        &&& c.game.wf()
                        &&& is_move_result(
                            pre.nodes@[node_index as int].game,
                            moves@[q] as u64,
                            c.game,
                        )
                    },
            decreases moves@.len() - m,
        {
            let mv = moves[m];
            let mut new_game = game_clone;
            let res = new_game.make_move(mv);
            proof {
                assert(res is Ok);
            }
            let idx = self.nodes.len();
            let ghost prev_nc = new_children@;
            self.nodes.push(Node::new(new_game, Some(node_index), Some(Move::Place(mv))));
            self.nodes[node_index].children.push(idx);
            new_children.push(idx);
            proof {
                assert(pre.nodes@[node_index as int].children@ + new_children@ =~= (
                pre.nodes@[node_index as int].children@ + prev_nc).push(idx));
            }
            m = m + 1;
        }
        proof {
            let pre_len = pre.nodes@.len() as int;
            let pre_ch = pre.nodes@[node_index as int].children@;
            assert forall|c: int| pre_len <= c < self.nodes@.len() implies {
                &&& self.nodes@[c].parent == Some(node_index)
                &&& self.nodes@[c].children@.len() == 0
                &&& self.nodes@[c].game.wf()
                &&& match self.nodes@[c].move_from_parent {
                    Some(Move::Place(pos)) => self.nodes@[node_index as int].game.spec_valid_move(
                        pos as u64,
                    ) && is_move_result(
                        self.nodes@[node_index as int].game,
                        pos as u64,
                        self.nodes@[c].game,
                    ),
                    Some(Move::Pass) => !self.nodes@[node_index as int].game.spec_has_move(
                        self.nodes@[node_index as int].game.current_player,
                    ) && is_pass_result(
                        self.nodes@[node_index as int].game,
                        self.nodes@[c].game,
                    ),
                    None => false,
                }
            } by {
                let q = c - pre_len;
                assert(self.nodes@[old_len + q] == self.nodes@[c]);
            }
            assert forall|j: int|
                pre_ch.len() <= j < self.nodes@[node_index as int].children@.len() implies node_index
                < #[trigger] self.nodes@[node_index as int].children@[j] < self.nodes@.len()
                && pre_len <= self.nodes@[node_index as int].children@[j] by {
                let q = j - pre_ch.len();
                assert(self.nodes@[node_index as int].children@[j] == new_children@[q]);
                assert(new_children@[q] == old_len + q);
            }
            assert forall|j1: int, j2: int|
                pre_ch.len() <= j1 < j2 < self.nodes@[node_index as int].children@.len() implies #[trigger] self.nodes@[node_index as int].children@[j1]
                < #[trigger] self.nodes@[node_index as int].children@[j2] by {
                let q1 = j1 - pre_ch.len();
                let q2 = j2 - pre_ch.len();
                assert(self.nodes@[node_index as int].children@[j1] == new_children@[q1]);
                assert(self.nodes@[node_index as int].children@[j2] == new_children@[q2]);
                assert(new_children@[q1] == old_len + q1);
                assert(new_children@[q2] == old_len + q2);
            }
            assert forall|c: int|
                pre_len <= c < self.nodes@.len() implies #[trigger] self.nodes@[c].visits == 0
                && self.nodes@[c].children@.len() == 0 by {
                let q = c - pre_len;
                assert(self.nodes@[old_len + q] == self.nodes@[c]);
            }
            lemma_expand_wf(pre.nodes@, self.nodes@, node_index as int);
            lemma_expand_counts(pre.nodes@, self.nodes@, node_index as int);
            // The board offers a placement, so the pass clause is empty and
            // the per-child clauses follow from what the loop established.
            assert(game_clone.spec_valid_move(moves@[0] as u64));
            assert(valid_placement(
                game_clone.side_own(game_clone.current_player),
                game_clone.side_opp(game_clone.current_player),
                moves@[0] as u64,
            ));
            assert(game_clone.spec_has_move(game_clone.current_player));
            assert forall|q: int| 0 <= q < new_children@.len() implies {
                let c = #[trigger] self.nodes@[new_children@[q] as int];
                &&& c.visits == 0
                &&& c.wins == 0
                &&& c.children@.len() == 0
                &&& c.parent == Some(node_index)
            } by {
                assert(new_children@[q] == old_len + q);
                assert(self.nodes@[old_len + q] == self.nodes@[new_children@[q] as int]);
            }
            assert forall|q: int| 0 <= q < new_children@.len() implies (#[trigger] self.nodes@[new_children@[q] as int].move_from_parent
                matches Some(Move::Place(p)) && game_clone.spec_valid_move(p as u64)
                && is_move_result(
                game_clone,
                p as u64,
                self.nodes@[new_children@[q] as int].game,
            )) by {
                assert(new_children@[q] == old_len + q);
                assert(self.nodes@[old_len + q] == self.nodes@[new_children@[q] as int]);
            }
            assert forall|q1: int, q2: int| 0 <= q1 < q2 < new_children@.len() implies placed_square(
                #[trigger] self.nodes@[new_children@[q1] as int],
            ) < placed_square(#[trigger] self.nodes@[new_children@[q2] as int]) by {
                assert(self.nodes@[old_len + q1] == self.nodes@[new_children@[q1] as int]);
                assert(self.nodes@[old_len + q2] == self.nodes@[new_children@[q2] as int]);
                assert(moves@[q1] < moves@[q2]);
            }
            assert forall|p: u64|
                p < 64 && #[trigger] game_clone.spec_valid_move(p) implies exists|q: int|
                0 <= q < new_children@.len() && placed_square(
                    #[trigger] self.nodes@[new_children@[q] as int],
                ) == p by {
                assert(moves@.contains(p as u8));
                let j = choose|j: int| 0 <= j < moves@.len() && moves@[j] == p as u8;
                assert(self.nodes@[old_len + j] == self.nodes@[new_children@[j] as int]);
                assert(placed_square(self.nodes@[new_children@[j] as int]) == p);
            }
        }
        new_children
    }

    /// Adds one visit, and `credit` wins, to every node on the parent chain
    /// of `node_index`, saturating the counters; nothing else changes.
    #[verifier::loop_isolation(false)]
    fn backpropagate(&mut self, node_index: usize, credit: u32)
        requires
            old(self).wf(),
            node_index < old(self).nodes@.len(),
            credit <= 1,
        ensures
            final(self).wf(),
            final(self).root_index == old(self).root_index,
            final(self).exploration_milli == old(self).exploration_milli,
            final(self).rng == old(self).rng,
            final(self).nodes@.len() == old(self).nodes@.len(),
            forall|i: int|
                0 <= i < old(self).nodes@.len() ==> same_but_counts(
                    old(self).nodes@[i],
                    #[trigger] final(self).nodes@[i],
                ),
            forall|i: int|
                0 <= i < old(self).nodes@.len() && on_path(
                    old(self).nodes@,
                    node_index as int,
                    i,
                ) ==> #[trigger] bumped(old(self).nodes@, final(self).nodes@, i, credit),
            forall|i: int|
                0 <= i < old(self).nodes@.len() && !on_path(
                    old(self).nodes@,
                    node_index as int,
                    i,
                ) ==> #[trigger] final(self).nodes@[i] == old(self).nodes@[i],
    {
        let ghost pre = *self;
        let mut cur: usize = node_index;
        let mut done = false;
        while !done
            invariant
                pre.wf(),
                self.nodes@.len() == pre.nodes@.len(),
                self.root_index == pre.root_index,
                self.exploration_milli == pre.exploration_milli,
                self.rng == pre.rng,
                node_index < pre.nodes@.len(),
                cur < pre.nodes@.len(),
                credit <= 1,
                forall|i: int|
                    0 <= i < pre.nodes@.len() ==> same_but_counts(
                        pre.nodes@[i],
                        #[trigger] self.nodes@[i],
                    ),
                !done ==> on_path(pre.nodes@, node_index as int, cur as int),
                !done ==> forall|i: int|
                    0 <= i < pre.nodes@.len() && on_path(pre.nodes@, cur as int, i)
                        ==> #[trigger] self.nodes@[i] == pre.nodes@[i],
                forall|i: int|
                    0 <= i < pre.nodes@.len() && on_path(pre.nodes@, node_index as int, i) && !(
                    !done && on_path(pre.nodes@, cur as int, i)) ==> #[trigger] bumped(
                        pre.nodes@,
                        self.nodes@,
                        i,
                        credit,
                    ),
                forall|i: int|
                    0 <= i < pre.nodes@.len() && !on_path(pre.nodes@, node_index as int, i)
                        ==> #[trigger] self.nodes@[i] == pre.nodes@[i],
            decreases (if done {
                0int
            } else {
                cur + 1
            }),
        {
            let ghost head = self.nodes@;
            proof {
                assert(on_path(pre.nodes@, cur as int, cur as int));
            }
            let v = self.nodes[cur].visits;
            let nv = if v < 0xffff_ffffu32 {
                v + 1
            } else {
                v
            };
            self.nodes[cur].visits = nv;
            let w = self.nodes[cur].wins;
            let nw = if w <= 0xffff_ffffu32 - credit {
                w + credit
            } else {
                0xffff_ffffu32
            };
            self.nodes[cur].wins = nw;
            let ghost prev_cur = cur as int;
            match self.nodes[cur].parent {
                Some(p) => {
                    proof {
                        assert(same_but_counts(pre.nodes@[prev_cur], self.nodes@[prev_cur]));
                        assert(pre.nodes@[prev_cur].parent == Some(p));
                        assert(wf_node(pre.nodes@, prev_cur));
                        assert(0 <= p < prev_cur);
                        lemma_on_path_extend(pre.nodes@, node_index as int, prev_cur, p);
                        assert forall|i: int|
                            0 <= i < pre.nodes@.len() && on_path(pre.nodes@, p as int, i) implies #[trigger] self.nodes@[i]
                            == pre.nodes@[i] by {
                            lemma_on_path_le(pre.nodes@, p as int, i);
                            assert(on_path(pre.nodes@, prev_cur, i));
                        }
                        assert forall|i: int|
                            0 <= i < pre.nodes@.len() && on_path(pre.nodes@, node_index as int, i)
                                && !on_path(pre.nodes@, p as int, i) implies #[trigger] bumped(
                            pre.nodes@,
                            self.nodes@,
                            i,
                            credit,
                        ) by {
                            if i == prev_cur {
                                assert(self.nodes@[prev_cur].visits == sat_inc(
                                    pre.nodes@[prev_cur].visits,
                                ));
                                assert(self.nodes@[prev_cur].wins == sat_add(
                                    pre.nodes@[prev_cur].wins,
                                    credit,
                                ));
                            } else {
                                assert(!on_path(pre.nodes@, prev_cur, i));
                                assert(bumped(pre.nodes@, head, i, credit));
                                assert(self.nodes@[i] == head[i]);
                            }
                        }
                    }
                    cur = p;
                },
                None => {
                    done = true;
                    proof {
                        assert(same_but_counts(pre.nodes@[prev_cur], self.nodes@[prev_cur]));
                        assert(pre.nodes@[prev_cur].parent is None);
                        assert forall|i: int|
                            0 <= i < pre.nodes@.len() && on_path(pre.nodes@, node_index as int, i) implies #[trigger] bumped(
                            pre.nodes@,
                            self.nodes@,
                            i,
                            credit,
                        ) by {
                            if i == prev_cur {
                                assert(self.nodes@[prev_cur].visits == sat_inc(
                                    pre.nodes@[prev_cur].visits,
                                ));
                                assert(self.nodes@[prev_cur].wins == sat_add(
                                    pre.nodes@[prev_cur].wins,
                                    credit,
                                ));
                            } else {
                                assert(!on_path(pre.nodes@, prev_cur, i));
                                assert(bumped(pre.nodes@, head, i, credit));
                                assert(self.nodes@[i] == head[i]);
                            }
                        }
                    }
                },
            }
        }
        let n = self.nodes.len();
        proof {
            assert(pre.nodes@.len() == n as int);
            lemma_counts_wf(pre.nodes@, self.nodes@);
            lemma_backprop_counts(pre.nodes@, self.nodes@, node_index as int, credit);
        }
    }

    /// Scores a finished board for its side to move: one for a win, zero
    /// for a loss or a draw.
    fn win_credit(g: &Game) -> (r: u32)
        ensures
            r == win01(g.current_player, *g),
            r <= 1,
    {
        let (black, white) = g.disc_count();
        match g.current_player {
            Player::Black => if black > white {
                1
            } else {
                0
            },
            Player::White => if white > black {
                1
            } else {
                0
            },
        }
    }

    /// Plays uniformly random legal moves (passing when none is available)
    /// from the node's board to the end of the game, and scores the result
    /// as seen by `perspective` — the player to move at the node whose
    /// expansion created this one — one for a win, zero for a loss or a
    /// draw: the credit is the score, for that player, of a terminal board
    /// that legal playout steps reach from the node's board. Only the
    /// generator's state changes.
    #[verifier::loop_isolation(false)]
    fn simulate(&mut self, node_index: usize, perspective: Player) -> (credit: u32)
        requires
            old(self).wf(),
            node_index < old(self).nodes@.len(),
        ensures
            final(self).wf(),
            final(self).nodes@ == old(self).nodes@,
            final(self).root_index == old(self).root_index,
            final(self).exploration_milli == old(self).exploration_milli,
            credit <= 1,
            exists|endg: Game|
                #[trigger] playout_reaches(old(self).nodes@[node_index as int].game, endg)
                    && endg.spec_game_over() && credit == win01(perspective, endg),
            old(self).nodes@[node_index as int].game.spec_game_over() ==> credit == win01(
                perspective,
                old(self).nodes@[node_index as int].game,
            ),
    {
        proof {
            assert(wf_node(self.nodes@, node_index as int));
        }
        let player = perspective;
        let mut game = self.nodes[node_index].game;
        let ghost start = game;
        proof {
            assert(playout_reaches_in(start, game, 0));
            assert(playout_reaches(start, game));
        }
        while !game.is_game_over()
            invariant
                game.wf(),
                self.wf(),
                self.nodes@ == old(self).nodes@,
                self.root_index == old(self).root_index,
                self.exploration_milli == old(self).exploration_milli,
                playout_reaches(start, game),
                start.spec_game_over() ==> game == start,
            decreases rollout_measure(game),
        {
            let ghost pre_game = game;
            let moves = game.legal_moves();
            if moves.len() == 0 {
                proof {
                    lemma_no_moves_means_no_placement(game, moves@);
                }
                game.pass();
                proof {
                    lemma_same_masks_same_moves(pre_game, game);
                    assert(!game.spec_game_over());
                    assert(game.current_player == pre_game.current_player.spec_opponent());
                    assert(game.spec_has_move(game.current_player));
                    lemma_pop_upto_le(game.black | game.white, 64);
                    assert(playout_step(pre_game, game));
                    lemma_playout_extend(start, pre_game, game);
                }
            } else {
                let idx = rng_below(&mut self.rng, moves.len() as u64) as usize;
                let mv = moves[idx];
                proof {
                    assert(pre_game.spec_valid_move(mv as u64));
                    crate::bits::lemma_bit_or(pre_game.black, pre_game.white, mv as u64);
                }
                let res = game.make_move(mv);
                proof {
                    assert(res is Ok);
                    lemma_occupancy_grows(pre_game, game, mv as u64);
                    lemma_pop_upto_le(pre_game.black | pre_game.white, 64);
                    lemma_pop_upto_le(game.black | game.white, 64);
                    assert(is_move_result(pre_game, mv as u64, game));
                    assert(playout_step(pre_game, game));
                    lemma_playout_extend(start, pre_game, game);
                }
            }
        }
        let (black, white) = game.disc_count();
        let credit: u32 = match player {
            Player::Black => if black > white {
                1
            } else {
                0
            },
            Player::White => if white > black {
                1
            } else {
                0
            },
        };
        proof {
            assert(credit == win01(player, game));
            assert(playout_reaches(start, game) && game.spec_game_over() && credit == win01(
                perspective,
                game,
            ));
            if start.spec_game_over() {
                assert(game == start);
            }
        }
        credit
    }

    /// The move of the first most-visited child of the root.
    #[verifier::loop_isolation(false)]
    fn move_of_first_max(&self) -> (r: Move)
        requires
            self.wf(),
            self.nodes@[self.root_index as int].children@.len() >= 1,
        ensures
            exists|t: int|
                0 <= t < self.nodes@[self.root_index as int].children@.len() && Some(r)
                    == self.nodes@[#[trigger] self.nodes@[self.root_index as int].children@[t] as int].move_from_parent,
            forall|b: int|
                is_first_max(self.nodes@, self.nodes@[self.root_index as int].children@, b)
                    ==> Some(r)
                    == self.nodes@[self.nodes@[self.root_index as int].children@[b] as int].move_from_parent,
    {
        let ghost nodes = self.nodes@;
        let root = self.root_index;
        let b = self.first_max_child();
        proof {
            assert(wf_node(nodes, root as int));
            lemma_first_max_unique(nodes, nodes[root as int].children@);
        }
        let c = self.nodes[root].children[b];
        proof {
            assert(wf_node(nodes, c as int));
        }
        match self.nodes[c].move_from_parent {
            Some(m) => m,
            None => {
                proof {
                    assert(false);
                }
                Move::Pass
            },
        }
    }

    /// Picks the move to play from the finished tree. With no children at
    /// the root there is nothing to report and the result is a pass. At
    /// temperature zero the first most-visited child's move is returned;
    /// otherwise a child is sampled with weight `visits^(1000/temperature)`
    /// (the exponent rounded down, the weight capped), falling back to the
    /// most-visited child when the weights give the draw nothing to pick.
    #[verifier::loop_isolation(false)]
    fn best_move(&mut self, temperature_milli: u64) -> (r: Move)
        requires
            old(self).wf(),
        ensures
            final(self).wf(),
            final(self).nodes@ == old(self).nodes@,
            final(self).root_index == old(self).root_index,
            final(self).exploration_milli == old(self).exploration_milli,
            old(self).nodes@[old(self).root_index as int].children@.len() == 0 ==> r
                == Move::Pass,
            old(self).nodes@[old(self).root_index as int].children@.len() > 0 ==> exists|t: int|
                0 <= t < old(self).nodes@[old(self).root_index as int].children@.len() && Some(r)
                    == old(self).nodes@[#[trigger] old(self).nodes@[old(self).root_index as int].children@[t] as int].move_from_parent,
            temperature_milli == 0 && old(self).nodes@[old(self).root_index as int].children@.len()
                > 0 ==> forall|b: int|
                is_first_max(old(self).nodes@, old(self).nodes@[old(self).root_index as int].children@, b)
                    ==> Some(r)
                    == old(self).nodes@[old(self).nodes@[old(self).root_index as int].children@[b] as int].move_from_parent,
    {
        let ghost nodes = self.nodes@;
        let root = self.root_index;
        let len = self.nodes[root].children.len();
        if len == 0 {
            return Move::Pass;
        }
        if temperature_milli == 0 {
            return self.move_of_first_max();
        }
        // Sample proportionally to visits^(1000/temperature), in fixed point.
        let e = 1000 / temperature_milli;
        let mut weights: Vec<u64> = Vec::new();
        let mut total: u128 = 0;
        let mut t: usize = 0;
        while t < len
            invariant
                self.wf(),
                nodes == self.nodes@,
                root == self.root_index,
                len == self.nodes@[root as int].children@.len(),
                t <= len,
                weights@.len() == t,
                forall|j: int| 0 <= j < t ==> #[trigger] weights@[j] <= 0x1_0000_0000u64,
                total <= t as u128 * 0x1_0000_0000u128,
            decreases len - t,
        {
            proof {
                assert(wf_node(nodes, root as int));
            }
            let c = self.nodes[root].children[t];
            let w = pow_capped(self.nodes[c].visits, e);
            weights.push(w);
            total = total + (w as u128);
            t = t + 1;
        }
        if total == 0 || total > 0xffff_ffff_ffff_ffffu128 {
            return self.move_of_first_max();
        }
        let mut draw = rng_below(&mut self.rng, total as u64);
        let mut t: usize = 0;
        while t < len
            invariant
                self.wf(),
                nodes == self.nodes@,
                root == self.root_index,
                len == self.nodes@[root as int].children@.len(),
                weights@.len() == len,
                t <= len,
            decreases len - t,
        {
            let w = weights[t];
            if draw < w {
                proof {
                    assert(wf_node(nodes, root as int));
                }
                let c = self.nodes[root].children[t];
                proof {
                    assert(wf_node(nodes, c as int));
                }
                match self.nodes[c].move_from_parent {
                    Some(m) => {
                        return m;
                    },
                    None => {
                        proof {
                            assert(false);
                        }
                        return Move::Pass;
                    },
                }
            }
            draw = if draw >= w {
                draw - w
            } else {
                0
            };
            t = t + 1;
        }
        // The draw exhausted the weights without picking a child.
        self.move_of_first_max()
    }

    /// Runs the search for the given iteration budget and returns the chosen
    /// move with the telemetry of the finished tree. A terminal root
    /// short-circuits to reporting a pass without running any iteration;
    /// otherwise every iteration of the budget adds a visit at the root (up
    /// to counter saturation), and a zero budget on a root without children
    /// reports a pass and builds nothing. The root and its board stay where
    /// they are; the arena only grows. The chosen move is a pass or a
    /// placement that is legal on the root board; after at least one
    /// iteration on a board with a legal placement it is such a placement.
    #[verifier::loop_isolation(false)]
    pub fn search(&mut self, iterations: u32, temperature_milli: u64) -> (r: SearchResult)
        requires
            old(self).wf(),
        ensures
            final(self).wf(),
            final(self).root_index == old(self).root_index,
            final(self).exploration_milli == old(self).exploration_milli,
            final(self).spec_root_game() == old(self).spec_root_game(),
            final(self).nodes@.len() >= old(self).nodes@.len(),
            r.telemetry.total_simulations == final(self).nodes@[final(self).root_index as int].visits,
            r.telemetry.visit_distribution@.len() == final(self).nodes@[final(self).root_index as int].children@.len(),
            forall|j: int|
                0 <= j < r.telemetry.visit_distribution@.len()
                    ==> #[trigger] r.telemetry.visit_distribution@[j]
                    == final(self).nodes@[final(self).nodes@[final(self).root_index as int].children@[j] as int].visits,
            final(self).nodes@[final(self).root_index as int].children@.len() == 0
                ==> r.telemetry.chosen_q_milli == 0,
            r.telemetry.total_simulations == 0xffff_ffffu32 || sum_u32(
                r.telemetry.visit_distribution@,
            ) <= r.telemetry.total_simulations as int,
            forall|b: int|
                is_first_max(
                    final(self).nodes@,
                    final(self).nodes@[final(self).root_index as int].children@,
                    b,
                ) ==> r.telemetry.chosen_q_milli == spec_q_milli(
                    final(self).nodes@[final(self).nodes@[final(self).root_index as int].children@[b] as int].wins as int,
                    final(self).nodes@[final(self).nodes@[final(self).root_index as int].children@[b] as int].visits as int,
                ),
            r.best_move matches Move::Place(p) ==> old(self).spec_root_game().spec_valid_move(
                p as u64,
            ),
            iterations >= 1 && old(self).spec_root_game().spec_has_move(
                old(self).spec_root_game().current_player,
            ) ==> r.best_move matches Move::Place(_),
            // A terminal root short-circuits: no move to report, no
            // iterations performed.
            old(self).spec_root_game().spec_game_over() ==> r.best_move == Move::Pass
                && final(self).nodes@ == old(self).nodes@,
            // A zero-iteration budget on a root without children reports the
            // no-data signal and builds nothing.
            iterations == 0 && old(self).nodes@[old(self).root_index as int].children@.len() == 0
                ==> r.best_move == Move::Pass && final(self).nodes@ == old(self).nodes@,
            // On a live root the search does its budget: every iteration adds
            // a visit at the root, up to counter saturation.
            !old(self).spec_root_game().spec_game_over() ==> (
            final(self).nodes@[final(self).root_index as int].visits == 0xffff_ffffu32
                || final(self).nodes@[final(self).root_index as int].visits >= old(
                self,
            ).nodes@[old(self).root_index as int].visits + iterations),
    {
        let ghost orig = *self;
        proof {
            assert(wf_node(self.nodes@, self.root_index as int));
        }
        let root_board = self.nodes[self.root_index].game;
        if root_board.is_game_over() {
            proof {
                assert(!root_board.spec_has_move(root_board.current_player));
            }
            let telemetry = self.compute_telemetry();
            return SearchResult { best_move: Move::Pass, telemetry };
        }
        let mut it: u32 = 0;
        while it < iterations
            invariant
                self.wf(),
                self.root_index == orig.root_index,
                self.exploration_milli == orig.exploration_milli,
                self.nodes@.len() >= orig.nodes@.len(),
                self.spec_root_game() == orig.spec_root_game(),
                it >= 1 && orig.spec_root_game().spec_has_move(
                    orig.spec_root_game().current_player,
                ) ==> self.nodes@[self.root_index as int].children@.len() > 0,
                it <= iterations,
                iterations == 0 ==> self.nodes@ == orig.nodes@,
                self.nodes@[orig.root_index as int].visits == 0xffff_ffffu32
                    || self.nodes@[orig.root_index as int].visits >= orig.nodes@[orig.root_index as int].visits
                    + it,
            decreases iterations - it,
        {
            let ghost before = *self;
            let leaf = self.select_leaf();
            let ghost pre_exp = self.nodes@;
            let new_children = self.expand_node(leaf);
            if new_children.len() == 0 {
                // A terminal node was reselected: count the iteration and
                // push its exact outcome back up the tree.
                proof {
                    assert(wf_node(self.nodes@, leaf as int));
                }
                let g = self.nodes[leaf].game;
                let credit = Self::win_credit(&g);
                let ghost bp_pre = self.nodes@;
                proof {
                    assert(credit == win01(g.current_player, g));
                    lemma_uct_chain_on_path(
                        pre_exp,
                        before.exploration_milli as int,
                        before.root_index as int,
                        leaf as int,
                    );
                    assert(bp_pre == pre_exp);
                    assert(on_path(bp_pre, leaf as int, orig.root_index as int));
                }
                self.backpropagate(leaf, credit);
                proof {
                    assert(bumped(bp_pre, self.nodes@, orig.root_index as int, credit));
                }
            } else {
                // The rollouts are scored for the player to move at the
                // expanded node.
                let leaf_player = self.nodes[leaf].game.current_player;
                let ghost esnap = self.nodes@;
                proof {
                    lemma_uct_chain_on_path(
                        pre_exp,
                        before.exploration_milli as int,
                        before.root_index as int,
                        leaf as int,
                    );
                    assert forall|i: int|
                        0 <= i < pre_exp.len() implies #[trigger] esnap[i].parent
                        == pre_exp[i].parent by {
                        if i != leaf {
                            assert(esnap[i] == pre_exp[i]);
                        }
                    }
                    lemma_on_path_frame(pre_exp, esnap, leaf as int, orig.root_index as int);
                }
                let mut q: usize = 0;
                while q < new_children.len()
                    invariant
                        self.wf(),
                        self.root_index == orig.root_index,
                        self.exploration_milli == orig.exploration_milli,
                        self.spec_root_game() == orig.spec_root_game(),
                        self.nodes@.len() >= orig.nodes@.len(),
                        q <= new_children@.len(),
                        forall|k: int|
                            0 <= k < new_children@.len() ==> #[trigger] new_children@[k]
                                < self.nodes@.len(),
                        self.nodes@[self.root_index as int].children@.len() >= before.nodes@[before.root_index as int].children@.len(),
                        before.spec_root_game().spec_has_move(
                            before.spec_root_game().current_player,
                        ) ==> self.nodes@[self.root_index as int].children@.len() > 0,
                        self.nodes@.len() == esnap.len(),
                        forall|i: int|
                            0 <= i < esnap.len() ==> #[trigger] self.nodes@[i].parent
                                == esnap[i].parent,
                        self.nodes@[orig.root_index as int].visits >= esnap[orig.root_index as int].visits,
                        q > 0 ==> (self.nodes@[orig.root_index as int].visits
                            == 0xffff_ffffu32 || self.nodes@[orig.root_index as int].visits
                            >= esnap[orig.root_index as int].visits + 1),
                    decreases new_children@.len() - q,
                {
                    let child = new_children[q];
                    let credit = self.simulate(child, leaf_player);
                    let ghost bp_pre = self.nodes@;
                    proof {
                        lemma_on_path_frame(esnap, bp_pre, leaf as int, orig.root_index as int);
                        assert(esnap[child as int].parent == Some(leaf));
                        assert(bp_pre[child as int].parent == Some(leaf));
                        assert(on_path(bp_pre, leaf as int, leaf as int));
                        assert(on_path(bp_pre, child as int, orig.root_index as int));
                    }
                    self.backpropagate(child, credit);
                    proof {
                        assert(bumped(bp_pre, self.nodes@, orig.root_index as int, credit));
                        assert forall|i: int|
                            0 <= i < esnap.len() implies #[trigger] self.nodes@[i].parent
                            == esnap[i].parent by {
                            assert(same_but_counts(bp_pre[i], self.nodes@[i]));
                        }
                    }
                    q = q + 1;
                }
            }
            it = it + 1;
        }
        let best_move = self.best_move(temperature_milli);
        proof {
            if best_move matches Move::Place(p) {
                let ch = self.nodes@[self.root_index as int].children@;
                let t = choose|t: int|
                    0 <= t < ch.len() && Some(best_move)
                        == self.nodes@[#[trigger] ch[t] as int].move_from_parent;
                assert(wf_node(self.nodes@, self.root_index as int));
                assert(wf_node(self.nodes@, ch[t] as int));
            }
            if iterations >= 1 && orig.spec_root_game().spec_has_move(
                orig.spec_root_game().current_player,
            ) {
                let ch = self.nodes@[self.root_index as int].children@;
                let t = choose|t: int|
                    0 <= t < ch.len() && Some(best_move)
                        == self.nodes@[#[trigger] ch[t] as int].move_from_parent;
                assert(wf_node(self.nodes@, self.root_index as int));
                assert(wf_node(self.nodes@, ch[t] as int));
                if best_move is Pass {
                    assert(false);
                }
            }
        }
        let telemetry = self.compute_telemetry();
        SearchResult { best_move, telemetry }
    }
}

/// A board whose move list is empty offers its side no placement.
pub(crate) proof fn lemma_no_moves_means_no_placement(g: Game, moves: Seq<u8>)
    requires
        moves.len() == 0,
        forall|p: u64| p < 64 && g.spec_valid_move(p) ==> moves.contains(p as u8),
    ensures
        !g.spec_has_move(g.current_player),
{
    if g.spec_has_move(g.current_player) {
        let p = choose|p: u64|
            p < 64 && #[trigger] valid_placement(
                g.side_own(g.current_player),
                g.side_opp(g.current_player),
                p,
            );
        assert(g.spec_valid_move(p));
        assert(moves.contains(p as u8));
    }
}

/// A successful placement raises the occupancy count by exactly one.
proof fn lemma_occupancy_grows(pre: Game, post: Game, pos: u64)
    requires
        pos < 64,
        !crate::bits::bit64(pre.black | pre.white, pos),
        forall|i: u64|
            i < 64 ==> (#[trigger] crate::bits::bit64(post.black | post.white, i) <==> (
            crate::bits::bit64(pre.black | pre.white, i) || i == pos)),
    ensures
        pop64(post.black | post.white) == pop64(pre.black | pre.white) + 1,
{
    crate::bits::lemma_pop_set_exact(pre.black | pre.white, post.black | post.white, pos, 64);
}

/// Summing is unchanged when every listed node keeps its visit count.
proof fn lemma_sum_same(pre: Seq<Node>, post: Seq<Node>, ch: Seq<usize>)
    requires
        forall|j: int|
            0 <= j < ch.len() ==> post[#[trigger] ch[j] as int].visits == pre[ch[j] as int].visits,
    ensures
        sum_visits(post, ch) == sum_visits(pre, ch),
    decreases ch.len(),
{
    if ch.len() > 0 {
        let rest = ch.drop_last();
        assert forall|j: int|
            0 <= j < rest.len() implies post[#[trigger] rest[j] as int].visits
            == pre[rest[j] as int].visits by {
            assert(rest[j] == ch[j]);
        }
        lemma_sum_same(pre, post, rest);
        assert(ch.last() == ch[ch.len() - 1]);
    }
}

/// Summing distributes over concatenation.
proof fn lemma_sum_append(nodes: Seq<Node>, a: Seq<usize>, b: Seq<usize>)
    ensures
        sum_visits(nodes, a + b) == sum_visits(nodes, a) + sum_visits(nodes, b),
    decreases b.len(),
{
    if b.len() == 0 {
        assert(a + b =~= a);
    } else {
        lemma_sum_append(nodes, a, b.drop_last());
        assert((a + b).drop_last() =~= a + b.drop_last());
        assert((a + b).last() == b.last());
    }
}

/// A list of unvisited nodes sums to zero.
proof fn lemma_sum_zero(nodes: Seq<Node>, ch: Seq<usize>)
    requires
        forall|j: int| 0 <= j < ch.len() ==> nodes[#[trigger] ch[j] as int].visits == 0,
    ensures
        sum_visits(nodes, ch) == 0,
    decreases ch.len(),
{
    if ch.len() > 0 {
        let rest = ch.drop_last();
        assert forall|j: int|
            0 <= j < rest.len() implies nodes[#[trigger] rest[j] as int].visits == 0 by {
            assert(rest[j] == ch[j]);
        }
        lemma_sum_zero(nodes, rest);
        assert(ch.last() == ch[ch.len() - 1]);
    }
}

/// When at most one listed node gains at most one visit and the rest keep
/// theirs, the sum grows by at most one.
proof fn lemma_sum_bump(pre: Seq<Node>, post: Seq<Node>, ch: Seq<usize>, start: int)
    requires
        forall|j: int|
            0 <= j < ch.len() ==> (if on_path(pre, start, #[trigger] ch[j] as int) {
                post[ch[j] as int].visits <= pre[ch[j] as int].visits + 1
            } else {
                post[ch[j] as int].visits == pre[ch[j] as int].visits
            }),
        forall|j1: int, j2: int|
            0 <= j1 < j2 < ch.len() ==> !(on_path(pre, start, #[trigger] ch[j1] as int) && on_path(
                pre,
                start,
                #[trigger] ch[j2] as int,
            )),
    ensures
        sum_visits(post, ch) <= sum_visits(pre, ch) + 1,
    decreases ch.len(),
{
    if ch.len() > 0 {
        let rest = ch.drop_last();
        assert(ch.last() == ch[ch.len() - 1]);
        if on_path(pre, start, ch.last() as int) {
            assert forall|j: int|
                0 <= j < rest.len() implies post[#[trigger] rest[j] as int].visits
                == pre[rest[j] as int].visits by {
                assert(rest[j] == ch[j]);
                assert(!(on_path(pre, start, ch[j] as int) && on_path(
                    pre,
                    start,
                    ch[ch.len() - 1] as int,
                )));
            }
            lemma_sum_same(pre, post, rest);
        } else {
            assert forall|j: int|
                0 <= j < rest.len() implies (if on_path(pre, start, #[trigger] rest[j] as int) {
                post[rest[j] as int].visits <= pre[rest[j] as int].visits + 1
            } else {
                post[rest[j] as int].visits == pre[rest[j] as int].visits
            }) by {
                assert(rest[j] == ch[j]);
            }
            assert forall|j1: int, j2: int|
                0 <= j1 < j2 < rest.len() implies !(on_path(
                pre,
                start,
                #[trigger] rest[j1] as int,
            ) && on_path(pre, start, #[trigger] rest[j2] as int)) by {
                assert(rest[j1] == ch[j1]);
                assert(rest[j2] == ch[j2]);
            }
            lemma_sum_bump(pre, post, rest, start);
        }
    }
}

/// Chains concatenate: what the end of a chain reaches, its start reaches.
proof fn lemma_on_path_trans(nodes: Seq<Node>, a: int, b: int, c: int)
    requires
        on_path(nodes, a, b),
        on_path(nodes, b, c),
    ensures
        on_path(nodes, a, c),
    decreases a,
{
    if a != b {
        match nodes[a].parent {
            Some(q) => {
                lemma_on_path_trans(nodes, q as int, b, c);
            },
            None => {},
        }
    }
}

/// A chain passes through at most one child of any node: two distinct nodes
/// with the same parent never lie on one chain.
proof fn lemma_path_child_unique(nodes: Seq<Node>, s: int, c1: int, c2: int, p: usize)
    requires
        forall|i: int| 0 <= i < nodes.len() ==> #[trigger] wf_node(nodes, i),
        0 <= c1 < nodes.len(),
        0 <= c2 < nodes.len(),
        c1 != c2,
        nodes[c1].parent == Some(p),
        nodes[c2].parent == Some(p),
    ensures
        !(on_path(nodes, s, c1) && on_path(nodes, s, c2)),
    decreases (if s >= 0 {
        s
    } else {
        0int
    }),
{
    if on_path(nodes, s, c1) && on_path(nodes, s, c2) {
        if s == c1 {
            assert(on_path(nodes, p as int, c2));
            lemma_on_path_le(nodes, p as int, c2);
            assert(wf_node(nodes, c2));
            assert(false);
        } else if s == c2 {
            assert(on_path(nodes, p as int, c1));
            lemma_on_path_le(nodes, p as int, c1);
            assert(wf_node(nodes, c1));
            assert(false);
        } else {
            match nodes[s].parent {
                Some(q) => {
                    lemma_path_child_unique(nodes, q as int, c1, c2, p);
                    assert(false);
                },
                None => {
                    assert(false);
                },
            }
        }
    }
}

/// Backpropagation keeps every node's visit budget: along the chain both a
/// node and at most one of its children gain one visit, and off the chain
/// nothing moves.
proof fn lemma_backprop_counts(pre: Seq<Node>, post: Seq<Node>, start: int, credit: u32)
    requires
        pre.len() <= usize::MAX,
        forall|i: int| 0 <= i < pre.len() ==> #[trigger] wf_node(pre, i),
        forall|i: int| 0 <= i < pre.len() ==> #[trigger] counts_ok(pre, i),
        post.len() == pre.len(),
        forall|i: int| 0 <= i < pre.len() ==> same_but_counts(pre[i], #[trigger] post[i]),
        forall|i: int|
            0 <= i < pre.len() && on_path(pre, start, i) ==> #[trigger] bumped(
                pre,
                post,
                i,
                credit,
            ),
        forall|i: int|
            0 <= i < pre.len() && !on_path(pre, start, i) ==> #[trigger] post[i] == pre[i],
    ensures
        forall|i: int| 0 <= i < post.len() ==> #[trigger] counts_ok(post, i),
{
    assert forall|i: int| 0 <= i < post.len() implies #[trigger] counts_ok(post, i) by {
        assert(wf_node(pre, i));
        assert(counts_ok(pre, i));
        assert(same_but_counts(pre[i], post[i]));
        let ch = pre[i].children@;
        assert(post[i].children@ == ch);
        if post[i].visits != 0xffff_ffffu32 {
            if on_path(pre, start, i) {
                assert(bumped(pre, post, i, credit));
                assert(pre[i].visits < 0xffff_ffffu32);
                assert forall|j: int|
                    0 <= j < ch.len() implies (if on_path(pre, start, #[trigger] ch[j] as int) {
                    post[ch[j] as int].visits <= pre[ch[j] as int].visits + 1
                } else {
                    post[ch[j] as int].visits == pre[ch[j] as int].visits
                }) by {
                    let c = ch[j] as int;
                    assert(i < c < pre.len());
                    if on_path(pre, start, c) {
                        assert(bumped(pre, post, c, credit));
                    } else {
                        assert(post[c] == pre[c]);
                    }
                }
                assert forall|j1: int, j2: int|
                    0 <= j1 < j2 < ch.len() implies !(on_path(
                    pre,
                    start,
                    #[trigger] ch[j1] as int,
                ) && on_path(pre, start, #[trigger] ch[j2] as int)) by {
                    if on_path(pre, start, ch[j1] as int) && on_path(pre, start, ch[j2] as int) {
                        assert(ch[j1] < ch[j2]);
                        assert(pre[ch[j1] as int].parent == Some(i as usize));
                        assert(pre[ch[j2] as int].parent == Some(i as usize));
                        lemma_path_child_unique(
                            pre,
                            start,
                            ch[j1] as int,
                            ch[j2] as int,
                            i as usize,
                        );
                    }
                }
                lemma_sum_bump(pre, post, ch, start);
            } else {
                assert(post[i] == pre[i]);
                assert forall|j: int|
                    0 <= j < ch.len() implies post[#[trigger] ch[j] as int].visits
                    == pre[ch[j] as int].visits by {
                    let c = ch[j] as int;
                    assert(i < c < pre.len());
                    if on_path(pre, start, c) {
                        assert(pre[c].parent == Some(i as usize));
                        assert(on_path(pre, i, i));
                        assert(on_path(pre, c, i));
                        lemma_on_path_trans(pre, start, c, i);
                        assert(false);
                    } else {
                        assert(post[c] == pre[c]);
                    }
                }
                lemma_sum_same(pre, post, ch);
            }
        }
    }
}

/// Appending fresh, unvisited children to one node preserves every node's
/// visit budget.
proof fn lemma_expand_counts(pre: Seq<Node>, post: Seq<Node>, parent: int)
    requires
        0 <= parent < pre.len(),
        parent <= usize::MAX,
        pre.len() <= post.len(),
        forall|i: int| 0 <= i < pre.len() ==> #[trigger] wf_node(pre, i),
        forall|i: int| 0 <= i < pre.len() ==> #[trigger] counts_ok(pre, i),
        forall|i: int| 0 <= i < pre.len() && i != parent ==> #[trigger] post[i] == pre[i],
        same_but_children(pre[parent], post[parent]),
        post[parent].children@.len() >= pre[parent].children@.len(),
        forall|j: int|
            0 <= j < pre[parent].children@.len() ==> post[parent].children@[j]
                == pre[parent].children@[j],
        forall|j: int|
            pre[parent].children@.len() <= j < post[parent].children@.len() ==> pre.len()
                <= #[trigger] post[parent].children@[j] < post.len(),
        forall|c: int|
            pre.len() <= c < post.len() ==> #[trigger] post[c].visits == 0
                && post[c].children@.len() == 0,
    ensures
        forall|i: int| 0 <= i < post.len() ==> #[trigger] counts_ok(post, i),
{
    assert forall|i: int| 0 <= i < post.len() implies #[trigger] counts_ok(post, i) by {
        if i >= pre.len() {
            assert(post[i].visits == 0);
            assert(post[i].children@.len() == 0);
            assert(sum_visits(post, post[i].children@) == 0);
        } else if i != parent {
            assert(wf_node(pre, i));
            assert(counts_ok(pre, i));
            assert(post[i] == pre[i]);
            let ch = pre[i].children@;
            assert forall|j: int|
                0 <= j < ch.len() implies post[#[trigger] ch[j] as int].visits
                == pre[ch[j] as int].visits by {
                let c = ch[j] as int;
                assert(i < c < pre.len());
                if c != parent {
                    assert(post[c] == pre[c]);
                }
            }
            lemma_sum_same(pre, post, ch);
        } else {
            assert(wf_node(pre, parent));
            assert(counts_ok(pre, parent));
            let pre_ch = pre[parent].children@;
            let post_ch = post[parent].children@;
            let added = post_ch.subrange(pre_ch.len() as int, post_ch.len() as int);
            assert(post_ch =~= pre_ch + added);
            lemma_sum_append(post, pre_ch, added);
            assert forall|j: int|
                0 <= j < added.len() implies post[#[trigger] added[j] as int].visits == 0 by {
                assert(added[j] == post_ch[pre_ch.len() + j]);
            }
            lemma_sum_zero(post, added);
            assert forall|j: int|
                0 <= j < pre_ch.len() implies post[#[trigger] pre_ch[j] as int].visits
                == pre[pre_ch[j] as int].visits by {
                let c = pre_ch[j] as int;
                assert(parent < c < pre.len());
                if c != parent {
                    assert(post[c] == pre[c]);
                }
            }
            lemma_sum_same(pre, post, pre_ch);
        }
    }
}

/// Changing only counters preserves arena well-formedness.
proof fn lemma_counts_wf(pre: Seq<Node>, post: Seq<Node>)
    requires
        pre.len() == post.len(),
        forall|i: int| 0 <= i < pre.len() ==> #[trigger] wf_node(pre, i),
        forall|i: int| 0 <= i < pre.len() ==> same_but_counts(pre[i], #[trigger] post[i]),
    ensures
        forall|i: int| 0 <= i < post.len() ==> #[trigger] wf_node(post, i),
{
    assert forall|i: int| 0 <= i < post.len() implies #[trigger] wf_node(post, i) by {
        assert(wf_node(pre, i));
        assert(same_but_counts(pre[i], post[i]));
        match post[i].parent {
            Some(p) => {
                assert(same_but_counts(pre[p as int], post[p as int]));
            },
            None => {},
        }
        assert forall|j: int| 0 <= j < post[i].children@.len() implies i
            < #[trigger] post[i].children@[j] < post.len() && post[post[i].children@[j] as int].parent
            == Some(i as usize) by {
            assert(pre[i].children@[j] == post[i].children@[j]);
            assert(same_but_counts(pre[pre[i].children@[j] as int], post[pre[i].children@[j] as int]));
        }
    }
}

/// Appending well-formed children to one node preserves arena
/// well-formedness, given each new node points at that parent correctly.
proof fn lemma_expand_wf(pre: Seq<Node>, post: Seq<Node>, parent: int)
    requires
        0 <= parent < pre.len(),
        parent <= usize::MAX,
        pre.len() <= post.len(),
        forall|i: int| 0 <= i < pre.len() ==> #[trigger] wf_node(pre, i),
        forall|i: int| 0 <= i < pre.len() && i != parent ==> #[trigger] post[i] == pre[i],
        same_but_children(pre[parent], post[parent]),
        post[parent].children@.len() >= pre[parent].children@.len(),
        forall|j: int|
            0 <= j < pre[parent].children@.len() ==> post[parent].children@[j] == pre[parent].children@[j],
        forall|j: int|
            pre[parent].children@.len() <= j < post[parent].children@.len() ==> parent
                < #[trigger] post[parent].children@[j] < post.len() && pre.len()
                <= post[parent].children@[j],
        forall|j1: int, j2: int|
            pre[parent].children@.len() <= j1 < j2 < post[parent].children@.len()
                ==> #[trigger] post[parent].children@[j1] < #[trigger] post[parent].children@[j2],
        forall|c: int|
            #![trigger post[c].parent]
            pre.len() <= c < post.len() ==> {
                &&& post[c].parent == Some(parent as usize)
                &&& post[c].children@.len() == 0
                &&& post[c].game.wf()
                &&& match post[c].move_from_parent {
                    Some(Move::Place(pos)) => post[parent].game.spec_valid_move(pos as u64)
                        && is_move_result(post[parent].game, pos as u64, post[c].game),
                    Some(Move::Pass) => !post[parent].game.spec_has_move(
                        post[parent].game.current_player,
                    ) && is_pass_result(post[parent].game, post[c].game),
                    None => false,
                }
            },
    ensures
        forall|i: int| 0 <= i < post.len() ==> #[trigger] wf_node(post, i),
{
    assert forall|i: int| 0 <= i < post.len() implies #[trigger] wf_node(post, i) by {
        if i < pre.len() {
            assert(wf_node(pre, i));
            if i != parent {
                assert forall|j: int| 0 <= j < post[i].children@.len() implies i
                    < #[trigger] post[i].children@[j] < post.len()
                    && post[post[i].children@[j] as int].parent == Some(i as usize) by {
                    let c = pre[i].children@[j];
                    assert(i < c < pre.len());
                    if c != parent {
                        assert(post[c as int] == pre[c as int]);
                    }
                }
                match post[i].parent {
                    Some(p) => {
                        assert(pre[p as int].game == post[p as int].game);
                    },
                    None => {},
                }
                assert(wf_node(post, i));
            } else {
                assert forall|j: int| 0 <= j < post[i].children@.len() implies i
                    < #[trigger] post[i].children@[j] < post.len()
                    && post[post[i].children@[j] as int].parent == Some(i as usize) by {
                    if j < pre[parent].children@.len() {
                        let c = pre[parent].children@[j];
                        assert(post[i].children@[j] == c);
                        assert(parent < c < pre.len());
                        if c != parent {
                            assert(post[c as int] == pre[c as int]);
                        }
                    } else {
                        let c = post[parent].children@[j];
                        assert(pre.len() <= c < post.len());
                        assert(post[c as int].parent == Some(parent as usize));
                    }
                }
                match post[i].parent {
                    Some(p) => {
                        assert(p < i < pre.len());
                        assert(pre[p as int].game == post[p as int].game);
                    },
                    None => {},
                }
                assert(post[i].game.wf());
                assert forall|j1: int, j2: int|
                    0 <= j1 < j2 < post[i].children@.len() implies #[trigger] post[i].children@[j1]
                    < #[trigger] post[i].children@[j2] by {
                    if j2 < pre[parent].children@.len() {
                        assert(post[i].children@[j1] == pre[parent].children@[j1]);
                        assert(post[i].children@[j2] == pre[parent].children@[j2]);
                    } else if j1 < pre[parent].children@.len() {
                        assert(post[i].children@[j1] == pre[parent].children@[j1]);
                        assert(pre[parent].children@[j1] < pre.len());
                        assert(pre.len() <= post[i].children@[j2]);
                    }
                }
                assert(wf_node(post, i));
            }
        } else {
            assert(post[i].parent == Some(parent as usize));
            assert(post[i].children@.len() == 0);
            assert(post[i].game.wf());
            assert(parent < i);
            assert(wf_node(post, i));
        }
    }
}

/// Two first-maximal positions in a child list coincide.
proof fn lemma_first_max_unique(nodes: Seq<Node>, ch: Seq<usize>)
    ensures
        forall|b1: int, b2: int|
            is_first_max(nodes, ch, b1) && is_first_max(nodes, ch, b2) ==> b1 == b2,
{
    assert forall|b1: int, b2: int|
        is_first_max(nodes, ch, b1) && is_first_max(nodes, ch, b2) implies b1 == b2 by {
        if b1 < b2 {
            assert(nodes[ch[b1] as int].visits < nodes[ch[b2] as int].visits);
            assert(nodes[ch[b1] as int].visits >= nodes[ch[b2] as int].visits);
        }
        if b2 < b1 {
            assert(nodes[ch[b2] as int].visits < nodes[ch[b1] as int].visits);
            assert(nodes[ch[b2] as int].visits >= nodes[ch[b1] as int].visits);
        }
    }
}

} // verus!
