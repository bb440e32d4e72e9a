//! The planner surface: a stateful MCTS player that reuses its search tree
//! across turns, and a one-shot convenience wrapper around it.

use vstd::prelude::*;

use crate::game::{valid_placement, Game, Move};
use crate::mcts::{find_child, lemma_no_moves_means_no_placement, MCTS};

verus! {

/// Configuration for the MCTS AI. The exploration constant and the
/// temperature are fixed-point thousandths: 1414 stands for 1.414.
#[derive(Clone, Copy, Debug)]
pub struct AiConfig {
    pub simulations: u32,
    pub exploration_milli: u64,
    pub temperature_milli: u64,
    pub rng_seed: Option<u64>,
}

impl Default for AiConfig {
    /// The default search configuration: a hundred simulations per move, an
    /// exploration constant of 1.414, greedy move choice, entropy seeding.
    fn default() -> (r: AiConfig)
        ensures
            r.simulations == 100,
            r.exploration_milli == 1414,
            r.temperature_milli == 0,
            r.rng_seed is None,
    {
        AiConfig { simulations: 100, exploration_milli: 1414, temperature_milli: 0, rng_seed: None }
    }
}

/// MCTS-based AI that maintains state for tree reuse.
pub struct MctsAi {
    pub config: AiConfig,
    pub mcts: Option<MCTS>,
}

impl MctsAi {
    /// The retained tree, when there is one, is well formed and carries the
    /// configured exploration constant.
    pub open spec fn wf(self) -> bool {
        match self.mcts {
            Some(t) => t.wf() && t.exploration_milli == self.config.exploration_milli,
            None => true,
        }
    }

    /// Creates a new MCTS AI with the given configuration and no tree yet.
    pub fn new(config: AiConfig) -> (r: MctsAi)
        ensures
            r.wf(),
            r.config == config,
            r.mcts is None,
    {
        MctsAi { config, mcts: None }
    }

    /// Notifies the AI that a move was made. When the retained tree has a
    /// child of its root for that move, the root advances there and every
    /// surviving node keeps its accumulated visit and win counts untouched;
    /// otherwise the tree is dropped and will be rebuilt on the next query.
    pub fn make_move(&mut self, mv: Move)
        requires
            old(self).wf(),
        ensures
            final(self).wf(),
            final(self).config == old(self).config,
            old(self).mcts is None ==> final(self).mcts is None,
            old(self).mcts matches Some(t) ==> {
                if find_child(t.nodes@, t.nodes@[t.root_index as int].children@, mv) >= 0 {
                    &&& final(self).mcts matches Some(t2)
                    &&& t2.nodes@ == t.nodes@
                    &&& t2.exploration_milli == t.exploration_milli
                    &&& t2.root_index == t.nodes@[t.root_index as int].children@[find_child(
                        t.nodes@,
                        t.nodes@[t.root_index as int].children@,
                        mv,
                    )]
                } else {
                    final(self).mcts is None
                }
            },
    {
        let mut reset = false;
        match &mut self.mcts {
            Some(m) => {
                if !m.advance_root(mv) {
                    reset = true;
                }
            },
            None => {},
        }
        if reset {
            self.mcts = None;
        }
    }

    /// Gets the best move for the current game state: a pass when the side
    /// to move has no placement, and otherwise a legal placement whenever at
    /// least one simulation is configured. Reuses the retained tree when it
    /// is rooted at exactly this position, and rebuilds it otherwise.
    pub fn get_move(&mut self, game: &Game) -> (r: Option<Move>)
        requires
            old(self).wf(),
            game.wf(),
        ensures
            final(self).wf(),
            final(self).config == old(self).config,
            r is Some,
            !game.spec_has_move(game.current_player) ==> r == Some(Move::Pass),
            r matches Some(Move::Place(p)) ==> game.spec_valid_move(p as u64),
            game.spec_has_move(game.current_player) && old(self).config.simulations >= 1 ==> (r
                matches Some(Move::Place(_))),
            // After a query with a placement available, a tree rooted at
            // exactly this position is retained for reuse.
            game.spec_has_move(game.current_player) ==> (final(self).mcts matches Some(t)
                && t.spec_root_game() == *game && t.exploration_milli == old(
                self,
            ).config.exploration_milli),
            !game.spec_has_move(game.current_player) ==> final(self).mcts == old(self).mcts,
            // A zero-simulation budget on a freshly built tree has no data
            // to choose from and reports a pass.
            old(self).config.simulations == 0 && game.spec_has_move(game.current_player)
                && (match old(self).mcts {
                None => true,
                Some(t) => t.spec_root_game() != *game,
            }) ==> r == Some(Move::Pass),
    {
        let moves = game.legal_moves();
        if moves.len() == 0 {
            proof {
                lemma_no_moves_means_no_placement(*game, moves@);
            }
            Some(Move::Pass)
        } else {
            proof {
                assert(game.spec_valid_move(moves@[0] as u64));
                assert(valid_placement(
                    game.side_own(game.current_player),
                    game.side_opp(game.current_player),
                    moves@[0] as u64,
                ));
                assert(game.spec_has_move(game.current_player));
            }
            let need_new = match &self.mcts {
                Some(m) => !(*m.root_game() == *game),
                None => true,
            };
            if need_new {
                self.mcts = Some(
                    MCTS::new(*game, self.config.exploration_milli, self.config.rng_seed),
                );
            }
            match &mut self.mcts {
                Some(m) => {
                    proof {
                        assert(m.spec_root_game() == *game);
                    }
                    let result = m.search(self.config.simulations, self.config.temperature_milli);
                    Some(result.best_move)
                },
                None => {
                    proof {
                        assert(false);
                    }
                    Some(Move::Pass)
                },
            }
        }
    }
}

/// One-shot planner: each query runs a fresh search with the default
/// configuration.
pub struct AI;

impl AI {
    /// Gets a move for the given board: a pass when the side to move has no
    /// placement, and a legal placement otherwise.
    pub fn get_move(game: &Game) -> (r: Option<Move>)
        requires
            game.wf(),
        ensures
            r is Some,
            !game.spec_has_move(game.current_player) ==> r == Some(Move::Pass),
            r matches Some(Move::Place(p)) ==> game.spec_valid_move(p as u64),
            game.spec_has_move(game.current_player) ==> (r matches Some(Move::Place(_))),
    {
        let mut ai = MctsAi::new(AiConfig::default());
        ai.get_move(game)
    }
}

} // verus!
