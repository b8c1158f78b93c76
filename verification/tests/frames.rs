use pong::connection::{Error as ConnError, FrameBuffer};
use pong::frame::{
    ClientFrame, DynamicGameState, Error, FixedGameState, Frame, InitialGameState, Paddle,
    ServerFrame,
};

fn encode<F: Frame>(f: &F) -> Vec<u8> {
    let mut buf = Vec::new();
    f.write(&mut buf);
    buf
}

fn dynamic() -> DynamicGameState {
    DynamicGameState {
        left_paddle_y: 500,
        right_paddle_y: 0x0102_0304,
        ball_position: (7, 0xffff_ffff),
        ball_direction: (1, -1),
        score_left: 3,
        score_right: 4,
    }
}

fn fixed() -> FixedGameState {
    FixedGameState {
        left_paddle_x: 100,
        right_paddle_x: 1400,
        paddle_height: 100,
        arena_size: (1000, 1500),
    }
}

#[test]
fn client_frame_tags() {
    let cases = [
        (ClientFrame::Connect, b'y'),
        (ClientFrame::ConnectedAck, b'c'),
        (ClientFrame::PaddleUp, b'u'),
        (ClientFrame::PaddleStop, b's'),
        (ClientFrame::PaddleDown, b'd'),
        (ClientFrame::Disconnect, b'n'),
    ];
    for (frame, tag) in cases {
        assert_eq!(encode(&frame), vec![tag]);
        assert_eq!(ClientFrame::parse(&[tag, 0xAA]), Ok((frame, 1)));
    }
}

#[test]
fn client_frame_errors() {
    assert_eq!(ClientFrame::parse(&[]), Err(Error::Incomplete));
    assert_eq!(ClientFrame::parse(&[b'x']), Err(Error::Invalid));
    assert_eq!(ClientFrame::parse(&[b'S']), Err(Error::Invalid));
}

#[test]
fn dynamic_state_bytes() {
    let bytes = encode(&dynamic());
    assert_eq!(
        bytes,
        vec![
            0, 0, 1, 244, 1, 2, 3, 4, 0, 0, 0, 7, 255, 255, 255, 255, 1, 255, 0, 0, 0, 3, 0, 0, 0,
            4
        ]
    );
    assert_eq!(DynamicGameState::parse(&bytes), Ok((dynamic(), 26)));
    assert_eq!(DynamicGameState::parse(&bytes[..25]), Err(Error::Incomplete));
}

#[test]
fn fixed_state_bytes() {
    let bytes = encode(&fixed());
    assert_eq!(
        bytes,
        vec![0, 0, 0, 100, 0, 0, 5, 120, 0, 0, 0, 100, 0, 0, 3, 232, 0, 0, 5, 220]
    );
    assert_eq!(FixedGameState::parse(&bytes), Ok((fixed(), 20)));
    assert_eq!(FixedGameState::parse(&bytes[..19]), Err(Error::Incomplete));
}

#[test]
fn string_frame() {
    let s = "héllo".to_string();
    let bytes = encode(&s);
    assert_eq!(&bytes[..8], &[0, 0, 0, 0, 0, 0, 0, 6]);
    assert_eq!(&bytes[8..], "héllo".as_bytes());
    assert_eq!(String::parse(&bytes), Ok((s, 14)));
    assert_eq!(String::parse(&bytes[..5]), Err(Error::Incomplete));
    assert_eq!(String::parse(&bytes[..10]), Err(Error::Incomplete));
    // Not UTF-8
    assert_eq!(String::parse(&[0, 0, 0, 0, 0, 0, 0, 2, 0xff, 0xfe]), Err(Error::Invalid));
    // A huge length that the buffer cannot hold is incomplete, not a crash
    assert_eq!(String::parse(&[0xff; 12]), Err(Error::Incomplete));
}

#[test]
fn server_frames_roundtrip() {
    let frames = vec![
        ServerFrame::AcceptConnection(Paddle::Left),
        ServerFrame::AcceptConnection(Paddle::Right),
        ServerFrame::RejectConnection("Server is full".to_string()),
        ServerFrame::GameStart(InitialGameState { fixed: fixed(), dynamic: dynamic() }),
        ServerFrame::GamePause,
        ServerFrame::StateUpdate(dynamic()),
        ServerFrame::GameEnd,
    ];
    for frame in frames {
        let mut bytes = encode(&frame);
        let n = bytes.len();
        for cut in 0..n {
            assert_eq!(ServerFrame::parse(&bytes[..cut]), Err(Error::Incomplete));
        }
        bytes.extend_from_slice(&[9, 9, 9]);
        assert_eq!(ServerFrame::parse(&bytes), Ok((frame, n)));
    }
}

#[test]
fn server_frame_layout() {
    assert_eq!(encode(&ServerFrame::AcceptConnection(Paddle::Left)), vec![b'y', b'L']);
    assert_eq!(encode(&ServerFrame::AcceptConnection(Paddle::Right)), vec![b'y', b'R']);
    assert_eq!(encode(&ServerFrame::GamePause), vec![b'P']);
    assert_eq!(encode(&ServerFrame::GameEnd), vec![b'X']);
    assert_eq!(
        encode(&ServerFrame::RejectConnection("no".to_string())),
        vec![b'n', 0, 0, 0, 0, 0, 0, 0, 2, b'n', b'o']
    );
    let start = encode(&ServerFrame::GameStart(InitialGameState { fixed: fixed(), dynamic: dynamic() }));
    assert_eq!(start.len(), 47);
    assert_eq!(start[0], b'S');
    assert_eq!(&start[1..21], &encode(&fixed())[..]);
    assert_eq!(&start[21..], &encode(&dynamic())[..]);
    let update = encode(&ServerFrame::StateUpdate(dynamic()));
    assert_eq!(update[0], b'U');
    assert_eq!(&update[1..], &encode(&dynamic())[..]);
}

#[test]
fn server_frame_errors() {
    assert_eq!(ServerFrame::parse(&[]), Err(Error::Incomplete));
    assert_eq!(ServerFrame::parse(&[b'y']), Err(Error::Incomplete));
    assert_eq!(ServerFrame::parse(&[b'y', b'Q']), Err(Error::Invalid));
    assert_eq!(ServerFrame::parse(&[b'u']), Err(Error::Invalid));
    assert_eq!(ServerFrame::parse(&[b'U', 0, 0]), Err(Error::Incomplete));
    assert_eq!(
        ServerFrame::parse(&[b'n', 0, 0, 0, 0, 0, 0, 0, 1, 0x80]),
        Err(Error::Invalid)
    );
}

#[test]
fn buffer_reads_frames_in_order() {
    let mut stream = encode(&ClientFrame::Connect);
    stream.extend(encode(&ClientFrame::PaddleUp));
    stream.extend(encode(&ClientFrame::Disconnect));
    let mut buffer = FrameBuffer::new();
    // Nothing yet
    assert_eq!(buffer.next_frame::<ClientFrame>(), Ok(None));
    buffer.receive(&stream[..2]).unwrap();
    assert_eq!(buffer.next_frame::<ClientFrame>(), Ok(Some(ClientFrame::Connect)));
    assert_eq!(buffer.next_frame::<ClientFrame>(), Ok(Some(ClientFrame::PaddleUp)));
    assert_eq!(buffer.next_frame::<ClientFrame>(), Ok(None));
    buffer.receive(&stream[2..]).unwrap();
    assert_eq!(buffer.next_frame::<ClientFrame>(), Ok(Some(ClientFrame::Disconnect)));
    assert_eq!(buffer.len(), 0);
}

#[test]
fn buffer_waits_for_split_frames() {
    let bytes = encode(&ServerFrame::StateUpdate(dynamic()));
    let mut buffer = FrameBuffer::new();
    for chunk in bytes.chunks(5) {
        assert_eq!(buffer.next_frame::<ServerFrame>(), Ok(None));
        buffer.receive(chunk).unwrap();
    }
    assert_eq!(
        buffer.next_frame::<ServerFrame>(),
        Ok(Some(ServerFrame::StateUpdate(dynamic())))
    );
}

#[test]
fn buffer_invalid_frame_stays() {
    let mut buffer = FrameBuffer::new();
    buffer.receive(&[b'?', b'y']).unwrap();
    assert_eq!(buffer.next_frame::<ClientFrame>(), Err(Error::Invalid));
    assert_eq!(buffer.len(), 2);
}

#[test]
fn end_of_stream() {
    let mut buffer = FrameBuffer::new();
    assert_eq!(buffer.receive(&[]), Err(ConnError::ConnectionClosed));
    buffer.receive(&[b'U', 1]).unwrap();
    assert_eq!(buffer.receive(&[]), Err(ConnError::ConnectionInterrupted));
    assert_eq!(buffer.len(), 2);
}

#[test]
fn stream_of_frames_in_any_chunks_then_close() {
    let frames = vec![
        ServerFrame::AcceptConnection(Paddle::Right),
        ServerFrame::RejectConnection("Server is full".to_string()),
        ServerFrame::StateUpdate(dynamic()),
        ServerFrame::GameEnd,
    ];
    let mut stream = Vec::new();
    for f in &frames {
        stream.extend(encode(f));
    }
    for size in [1, 3, 7, 64] {
        let mut buffer = FrameBuffer::new();
        let mut chunks = stream.chunks(size);
        let mut read = Vec::new();
        let end = loop {
            match buffer.next_frame::<ServerFrame>() {
                Ok(Some(f)) => read.push(f),
                Ok(None) => {
                    let chunk: &[u8] = chunks.next().unwrap_or(&[]);
                    if let Err(e) = buffer.receive(chunk) {
                        break e;
                    }
                }
                Err(e) => panic!("invalid frame: {:?}", e),
            }
        };
        assert_eq!(read, frames);
        assert_eq!(end, ConnError::ConnectionClosed);
    }
}
