//! What the server broadcasts of its game to the players.
use vstd::prelude::*;

use crate::frame::{DynamicGameState, FixedGameState, InitialGameState, ServerFrame, ServerFrameView};
use crate::game_state::GameState;

verus! {

/// The changing part of the game, as sent to players. The paddles are sent
/// by their `x` position; coordinates are cast to the frame's integer types.
pub fn prepare_game_state(g: &GameState) -> (r: DynamicGameState)
    ensures
        r.left_paddle_y == g.left_paddle_pos.x as u32,
        r.right_paddle_y == g.right_paddle_pos.x as u32,
        r.ball_position == (g.ball_pos.x as u32, g.ball_pos.y as u32),
        r.ball_direction == (g.ball_dir.x as i8, g.ball_dir.y as i8),
        r.score_left == g.score.0,
        r.score_right == g.score.1,
{
    DynamicGameState {
        left_paddle_y: g.left_paddle_pos.x as u32,
        right_paddle_y: g.right_paddle_pos.x as u32,
        ball_position: (g.ball_pos.x as u32, g.ball_pos.y as u32),
        ball_direction: (g.ball_dir.x as i8, g.ball_dir.y as i8),
        score_left: g.score.0,
        score_right: g.score.1,
    }
}

/// The whole game, as sent to players when it starts: the paddles' lines are
/// their `y` positions.
pub fn prepare_full_state(g: &GameState) -> (r: InitialGameState)
    ensures
        r == prepare_full_state_spec(*g),
        // The changing part is the state as broadcast: where the ball and the
        // paddles are now, and the scores in order.
        r.dynamic.left_paddle_y == g.left_paddle_pos.x as u32,
        r.dynamic.right_paddle_y == g.right_paddle_pos.x as u32,
        r.dynamic.ball_position == (g.ball_pos.x as u32, g.ball_pos.y as u32),
        r.dynamic.ball_direction == (g.ball_dir.x as i8, g.ball_dir.y as i8),
        r.dynamic.score_left == g.score.0,
        r.dynamic.score_right == g.score.1,
        r.fixed.left_paddle_x == g.left_paddle_pos.y as u32,
        r.fixed.right_paddle_x == g.right_paddle_pos.y as u32,
        r.fixed.paddle_height == g.paddle_size,
        r.fixed.arena_size == (g.arena_size.x as u32, g.arena_size.y as u32),
{
    let dynamic = prepare_game_state(g);
    let fixed = FixedGameState {
        left_paddle_x: g.left_paddle_pos.y as u32,
        right_paddle_x: g.right_paddle_pos.y as u32,
        paddle_height: g.paddle_size,
        arena_size: (g.arena_size.x as u32, g.arena_size.y as u32),
    };
    InitialGameState { fixed, dynamic }
}

/// What `prepare_game_state` gives for `g`.
pub open spec fn prepare_game_state_spec(g: GameState) -> DynamicGameState {
    DynamicGameState {
        left_paddle_y: g.left_paddle_pos.x as u32,
        right_paddle_y: g.right_paddle_pos.x as u32,
        ball_position: (g.ball_pos.x as u32, g.ball_pos.y as u32),
        ball_direction: (g.ball_dir.x as i8, g.ball_dir.y as i8),
        score_left: g.score.0,
        score_right: g.score.1,
    }
}

/// What `prepare_full_state` gives for `g`.
pub open spec fn prepare_full_state_spec(g: GameState) -> InitialGameState {
    InitialGameState {
        fixed: FixedGameState {
            left_paddle_x: g.left_paddle_pos.y as u32,
            right_paddle_x: g.right_paddle_pos.y as u32,
            paddle_height: g.paddle_size,
            arena_size: (g.arena_size.x as u32, g.arena_size.y as u32),
        },
        dynamic: prepare_game_state_spec(g),
    }
}

/// The frame that tells players the game's current state.
pub fn state_update(g: &GameState) -> (r: ServerFrame)
    ensures
        r@ == ServerFrameView::StateUpdate(prepare_game_state_spec(*g)),
        r@ matches ServerFrameView::StateUpdate(d) && d.left_paddle_y == g.left_paddle_pos.x as u32
            && d.right_paddle_y == g.right_paddle_pos.x as u32 && d.ball_position == (
            g.ball_pos.x as u32,
            g.ball_pos.y as u32,
        ) && d.ball_direction == (g.ball_dir.x as i8, g.ball_dir.y as i8) && d.score_left
            == g.score.0 && d.score_right == g.score.1,
{
    ServerFrame::StateUpdate(prepare_game_state(g))
}

/// The frame that tells players the game begins, with all of its state.
pub fn game_start(g: &GameState) -> (r: ServerFrame)
    ensures
        r@ == ServerFrameView::GameStart(prepare_full_state_spec(*g)),
        r@ matches ServerFrameView::GameStart(s) && s.dynamic.ball_position == (
            g.ball_pos.x as u32,
            g.ball_pos.y as u32,
        ) && s.dynamic.score_left == g.score.0 && s.dynamic.score_right == g.score.1
            && s.dynamic.left_paddle_y == g.left_paddle_pos.x as u32 && s.dynamic.right_paddle_y
            == g.right_paddle_pos.x as u32 && s.dynamic.ball_direction == (
            g.ball_dir.x as i8,
            g.ball_dir.y as i8,
        ),
{
    ServerFrame::GameStart(prepare_full_state(g))
}

/// The start of a game and the updates after it tell players the same
/// changing state: what a game-start frame carries of it is what a state
/// update for the same game carries.
pub proof fn lemma_start_agrees_with_update(g: GameState)
    ensures
        prepare_full_state_spec(g).dynamic == prepare_game_state_spec(g),
{
}

/// A state update reports the game as it stands: the ball where it is (not
/// where it started), its direction, each paddle's position along its line,
/// and the scores in order, left then right.
pub proof fn lemma_update_reports_game(g: GameState)
    ensures
        ({
            let d = prepare_game_state_spec(g);
            &&& d.ball_position.0 == g.ball_pos.x as u32
            &&& d.ball_position.1 == g.ball_pos.y as u32
            &&& d.ball_direction.0 == g.ball_dir.x as i8
            &&& d.ball_direction.1 == g.ball_dir.y as i8
            &&& d.left_paddle_y == g.left_paddle_pos.x as u32
            &&& d.right_paddle_y == g.right_paddle_pos.x as u32
            &&& d.score_left == g.score.0
            &&& d.score_right == g.score.1
        }),
{
}

/// A goal changes the update by that score alone: after the left player
/// scores once more, the update's left score is one more and its right score
/// is the same, and the other way round.
pub proof fn lemma_update_follows_scores(g: GameState, h: GameState)
    requires
        h.score.0 == g.score.0 + 1,
        h.score.1 == g.score.1,
    ensures
        prepare_game_state_spec(h).score_left == prepare_game_state_spec(g).score_left + 1,
        prepare_game_state_spec(h).score_right == prepare_game_state_spec(g).score_right,
        prepare_full_state_spec(h).dynamic.score_left == prepare_full_state_spec(g).dynamic.score_left + 1,
{
}

} // verus!
