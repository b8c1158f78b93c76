//! Pong: the wire protocol between game clients and server, the server's
//! game simulation, and the decisions that clients and server take between
//! network reads and writes.
//!
//! - `wire`, `frame`: the byte encoding of frames, parsed and written back.
//! - `connection`: frames taken from the bytes a stream delivers.
//! - `vec2`, `mins_by_key`, `game_state`: the server's game and how the ball moves.
//! - `broadcast`, `control`, `orchestration`, `connection_pool`: the server's
//!   side of a game: what it sends, what players' commands do, who is seated.
//! - `client_state`, `client_control`: the client's side.
pub mod wire;
pub mod frame;
pub mod connection;
pub mod mins_by_key;
pub mod vec2;
pub mod game_state;
pub mod broadcast;
pub mod control;
pub mod orchestration;
pub mod connection_pool;
pub mod client_state;
pub mod client_control;
