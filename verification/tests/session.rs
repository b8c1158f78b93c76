use pong::client_control::Controller;
use pong::client_state::{accepted_paddle, game_start, handle_server_frame, Error as ListenError, GameState as ClientGame, Listening};
use pong::connection_pool::{ConnectionPool, Error as PoolError, PeerAddr};
use pong::control::{apply_frame, Control, Error as ControlError};
use pong::frame::{ClientFrame, DynamicGameState, FixedGameState, InitialGameState, Paddle, ServerFrame};
use pong::game_state::GameState;
use pong::orchestration::{Error, GameServer, Handshake, HandshakeStep};

fn addr(port: u16) -> PeerAddr {
    PeerAddr { is_v6: false, ip: 0x7f00_0001, port, flowinfo: 0, scope_id: 0 }
}

#[test]
fn control_sets_direction_of_own_paddle() {
    let mut g = GameState::default();
    assert_eq!(apply_frame(&mut g, Paddle::Left, ClientFrame::PaddleUp), Ok(Control::Continue));
    assert_eq!((g.left_paddle_dir, g.right_paddle_dir), (1, 0));
    assert_eq!(apply_frame(&mut g, Paddle::Right, ClientFrame::PaddleDown), Ok(Control::Continue));
    assert_eq!((g.left_paddle_dir, g.right_paddle_dir), (1, -1));
    assert_eq!(apply_frame(&mut g, Paddle::Left, ClientFrame::PaddleStop), Ok(Control::Continue));
    assert_eq!((g.left_paddle_dir, g.right_paddle_dir), (0, -1));
    assert_eq!(apply_frame(&mut g, Paddle::Left, ClientFrame::Disconnect), Ok(Control::Disconnected));
    assert_eq!(
        apply_frame(&mut g, Paddle::Left, ClientFrame::Connect),
        Err(ControlError::InvalidFrame(ClientFrame::Connect))
    );
    assert_eq!(
        apply_frame(&mut g, Paddle::Right, ClientFrame::ConnectedAck),
        Err(ControlError::InvalidFrame(ClientFrame::ConnectedAck))
    );
    assert_eq!((g.left_paddle_dir, g.right_paddle_dir), (0, -1));
}

fn join(server: &mut GameServer) -> Result<Paddle, Error> {
    let (reply, state) = match server.handshake(Handshake::AwaitingConnect, ClientFrame::Connect) {
        HandshakeStep::Reply(reply, state) => (reply, state),
        HandshakeStep::Reject(_, e) | HandshakeStep::Fail(e) => return Err(e),
        HandshakeStep::Joined(_) => panic!("joined before acknowledging"),
    };
    let paddle = accepted_paddle(reply).unwrap();
    assert_eq!(state, Handshake::AwaitingAck(paddle));
    match server.handshake(state, ClientFrame::ConnectedAck) {
        HandshakeStep::Joined(p) => Ok(p),
        other => panic!("unexpected step {:?}", other),
    }
}

#[test]
fn two_players_are_seated() {
    let mut server = GameServer::new();
    assert!(!server.ready());
    assert_eq!(join(&mut server), Ok(Paddle::Left));
    assert!(!server.ready());
    assert_eq!(join(&mut server), Ok(Paddle::Right));
    assert!(server.ready());
    assert_eq!(server.free_paddle(), None);
    assert_eq!(
        server.handshake(Handshake::AwaitingConnect, ClientFrame::Connect),
        HandshakeStep::Reject(ServerFrame::RejectConnection("Server is full".to_string()), Error::ServerFull)
    );
}

#[test]
fn handshake_rejects_wrong_frames() {
    let mut server = GameServer::new();
    assert_eq!(
        server.handshake(Handshake::AwaitingConnect, ClientFrame::PaddleUp),
        HandshakeStep::Fail(Error::InvalidFrame(ClientFrame::PaddleUp))
    );
    assert_eq!(
        server.handshake(Handshake::AwaitingAck(Paddle::Left), ClientFrame::Connect),
        HandshakeStep::Fail(Error::InvalidFrame(ClientFrame::Connect))
    );
    // Nobody took a seat
    assert_eq!(server.free_paddle(), Some(Paddle::Left));
}

#[test]
fn pool_connects_and_disconnects() {
    let mut pool = ConnectionPool::new(2);
    assert_eq!(pool.try_connect(addr(1)), Ok(0));
    assert_eq!(pool.try_connect(addr(1)), Err(PoolError::PlayerAlreadyExists));
    assert_eq!(pool.try_connect(addr(2)), Ok(1));
    assert_eq!(pool.try_connect(addr(3)), Err(PoolError::MaxPlayersExceeded));
    assert_eq!(pool.try_disconnect(0), Ok(()));
    assert_eq!(pool.try_disconnect(0), Err(PoolError::PlayerDoesntExist));
    assert_eq!(pool.try_disconnect(7), Err(PoolError::PlayerDoesntExist));
    assert_eq!(pool.try_connect(addr(3)), Ok(0));
    let mut empty = ConnectionPool::new(0);
    assert_eq!(empty.try_connect(addr(1)), Err(PoolError::MaxPlayersExceeded));
}

fn dynamic(score: u32) -> DynamicGameState {
    DynamicGameState {
        left_paddle_y: 1,
        right_paddle_y: 2,
        ball_position: (3, 4),
        ball_direction: (1, 1),
        score_left: score,
        score_right: 0,
    }
}

#[test]
fn client_follows_server() {
    let fixed = FixedGameState { left_paddle_x: 100, right_paddle_x: 1400, paddle_height: 100, arena_size: (1000, 1500) };
    let start = ServerFrame::GameStart(InitialGameState { fixed, dynamic: dynamic(0) });
    let initial = game_start(start).unwrap();
    let mut game = ClientGame::from_initial_frame(initial);
    assert_eq!(game.fixed, fixed);
    assert_eq!(handle_server_frame(&mut game, ServerFrame::StateUpdate(dynamic(3))), Ok(Listening::Continue));
    assert_eq!(game.dynamic, dynamic(3));
    assert_eq!(game.fixed, fixed);
    assert_eq!(
        handle_server_frame(&mut game, ServerFrame::GamePause),
        Err(ListenError::UnexpectedFrame(ServerFrame::GamePause))
    );
    assert_eq!(handle_server_frame(&mut game, ServerFrame::GameEnd), Ok(Listening::Ended));
    assert_eq!(game.dynamic, dynamic(3));
    game.update(dynamic(9));
    assert_eq!(game.dynamic, dynamic(9));
}

#[test]
fn client_join_replies() {
    assert_eq!(accepted_paddle(ServerFrame::AcceptConnection(Paddle::Right)), Ok(Paddle::Right));
    assert_eq!(
        accepted_paddle(ServerFrame::RejectConnection("full".to_string())),
        Err(ServerFrame::RejectConnection("full".to_string()))
    );
    assert_eq!(game_start(ServerFrame::GameEnd), Err(ServerFrame::GameEnd));
}

#[test]
fn controller_sends_changes_only() {
    let mut c = Controller::new();
    assert_eq!(c.next_command(false, false), None);
    assert_eq!(c.next_command(true, false), Some(ClientFrame::PaddleUp));
    assert_eq!(c.next_command(true, false), None);
    assert_eq!(c.next_command(true, true), Some(ClientFrame::PaddleStop));
    assert_eq!(c.next_command(false, true), Some(ClientFrame::PaddleDown));
    assert_eq!(c.next_command(false, true), None);
}
