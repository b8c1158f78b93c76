//! Frames exchanged between clients and the server, and their byte encoding.
//!
//! Every frame is written as a tag byte (where it has one) followed by its
//! fields; integers are big-endian, strings are a `u64` byte length followed by
//! their UTF-8 bytes.
use vstd::prelude::*;
use vstd::slice::{slice_subrange, slice_to_vec};
use vstd::utf8::{decode_utf8, encode_utf8, valid_utf8};

use std::string::FromUtf8Error;

use crate::wire::{
    be_u64_at, get_i8, get_u32, get_u64, get_u8, lemma_u32_bytes, lemma_u32_roundtrip,
    lemma_u64_bytes, lemma_u64_roundtrip, put_slice, put_u32, put_u64, put_u8, u32_be, u64_be,
    be_u32_at,
};

verus! {

/// `std::string::FromUtf8Error`: the bytes handed to `String::from_utf8` were not UTF-8.
#[verifier::external_type_specification]
#[verifier::external_body]
pub struct ExFromUtf8Error(FromUtf8Error);

/// `String::from_utf8`: the string whose UTF-8 encoding is `bytes`, or an
/// error exactly when `bytes` is not valid UTF-8.
#[verifier::external_body]
fn string_from_utf8(bytes: Vec<u8>) -> (r: Result<String, FromUtf8Error>)
    ensures
        r is Ok <==> valid_utf8(bytes@),
        r matches Ok(s) ==> s@ == decode_utf8(bytes@),
{
    String::from_utf8(bytes)
}

/// Why a buffer does not hold a frame.
#[derive(Debug, Clone, Copy, PartialEq, Eq)]
pub enum Error {
    /// The buffer ends before the frame does: more bytes may complete it.
    Incomplete,
    /// The bytes can never start a frame of this kind.
    Invalid,
}

/// A value with a byte encoding that can be parsed back from the front of a buffer.
pub trait Frame: Sized + View {
    /// What parsing the front of `buf` gives: the value and the number of
    /// bytes it takes, or why there is none.
    spec fn spec_parse(buf: Seq<u8>) -> Result<(Self::V, nat), Error>;

    /// The bytes that `write` appends for a value.
    spec fn spec_encode(v: Self::V) -> Seq<u8>;

    /// A written frame is read back whole, whatever follows it.
    proof fn lemma_encode_parse(v: Self::V, rest: Seq<u8>)
        requires
            Self::spec_encode(v).len() <= isize::MAX,
        ensures
            Self::spec_parse(Self::spec_encode(v) + rest) == Ok::<_, Error>((v, Self::spec_encode(v).len())),
    ;

    /// A frame cut short is incomplete, never invalid: waiting for more bytes is right.
    proof fn lemma_prefix_incomplete(v: Self::V, n: nat)
        requires
            Self::spec_encode(v).len() <= isize::MAX,
            n < Self::spec_encode(v).len(),
        ensures
            Self::spec_parse(Self::spec_encode(v).take(n as int)) == Err::<(Self::V, nat), Error>(Error::Incomplete),
    ;

    /// No bytes at all are an incomplete frame.
    proof fn lemma_empty_incomplete()
        ensures
            Self::spec_parse(Seq::<u8>::empty()) == Err::<(Self::V, nat), Error>(Error::Incomplete),
    ;

    /// The bytes a parse takes are exactly the encoding of what it gives.
    proof fn lemma_parse_encode(buf: Seq<u8>)
        ensures
            Self::spec_parse(buf) matches Ok((v, n)) ==> n <= buf.len() && buf.take(n as int)
                == Self::spec_encode(v),
    ;

    /// Parses a frame from the front of `buf`, giving it and the number of bytes it took.
    fn parse(buf: &[u8]) -> (r: Result<(Self, usize), Error>)
        ensures
            match r {
                Ok((f, n)) => Self::spec_parse(buf@) == Ok::<_, Error>((f@, n as nat)),
                Err(e) => Self::spec_parse(buf@) == Err::<(Self::V, nat), Error>(e),
            },
    ;

    /// Appends the encoding of this frame to `buf`.
    fn write(&self, buf: &mut Vec<u8>)
        requires
            old(buf)@.len() + Self::spec_encode(self@).len() <= isize::MAX,
        ensures
            final(buf)@ == old(buf)@ + Self::spec_encode(self@),
            // What was written is read back whole, whatever follows it ...
            forall|rest: Seq<u8>|
                Self::spec_parse(#[trigger] (Self::spec_encode(self@) + rest)) == Ok::<_, Error>(
                    (self@, Self::spec_encode(self@).len()),
                ),
            // ... and any part of it short of the whole is incomplete.
            forall|n: nat|
                n < Self::spec_encode(self@).len() ==> Self::spec_parse(
                    #[trigger] Self::spec_encode(self@).take(n as int),
                ) == Err::<(Self::V, nat), Error>(Error::Incomplete),
    ;
}

// ---------------------------------------------------------------------------
// Reading integers, with a missing byte reported as an incomplete frame.
fn read_u8(buf: &[u8], pos: usize) -> (r: Result<u8, Error>)
    requires
        pos <= buf@.len(),
    ensures
        r is Ok <==> pos + 1 <= buf@.len(),
        r matches Ok(v) ==> v == buf@[pos as int],
        r matches Err(e) ==> e == Error::Incomplete,
{
    match get_u8(buf, pos) {
        Ok(v) => Ok(v),
        Err(_) => Err(Error::Incomplete),
    }
}

fn read_i8(buf: &[u8], pos: usize) -> (r: Result<i8, Error>)
    requires
        pos <= buf@.len(),
    ensures
        r is Ok <==> pos + 1 <= buf@.len(),
        r matches Ok(v) ==> v == buf@[pos as int] as i8,
        r matches Err(e) ==> e == Error::Incomplete,
{
    match get_i8(buf, pos) {
        Ok(v) => Ok(v),
        Err(_) => Err(Error::Incomplete),
    }
}

fn read_u32(buf: &[u8], pos: usize) -> (r: Result<u32, Error>)
    requires
        pos <= buf@.len(),
    ensures
        r is Ok <==> pos + 4 <= buf@.len(),
        r matches Ok(v) ==> v == be_u32_at(buf@, pos as int),
        r matches Err(e) ==> e == Error::Incomplete,
{
    match get_u32(buf, pos) {
        Ok(v) => Ok(v),
        Err(_) => Err(Error::Incomplete),
    }
}

fn read_u64(buf: &[u8], pos: usize) -> (r: Result<u64, Error>)
    requires
        pos <= buf@.len(),
    ensures
        r is Ok <==> pos + 8 <= buf@.len(),
        r matches Ok(v) ==> v == be_u64_at(buf@, pos as int),
        r matches Err(e) ==> e == Error::Incomplete,
{
    match get_u64(buf, pos) {
        Ok(v) => Ok(v),
        Err(_) => Err(Error::Incomplete),
    }
}

/// The result of a parse that started at `start`, counted from there.
pub open spec fn from_start<V>(r: Result<(V, int), Error>, start: int) -> Result<(V, nat), Error> {
    match r {
        Ok((v, end)) => Ok((v, (end - start) as nat)),
        Err(e) => Err(e),
    }
}

// ---------------------------------------------------------------------------
// Strings
/// The encoding of a string: its UTF-8 byte length as a `u64`, then those bytes.
pub open spec fn encode_string(s: Seq<char>) -> Seq<u8> {
    u64_be(encode_utf8(s).len() as u64) + encode_utf8(s)
}

/// Parsing a string that starts at byte `i` of `s`: the string and the
/// position after it.
pub open spec fn string_at(s: Seq<u8>, i: int) -> Result<(Seq<char>, int), Error> {
    if s.len() < i + 8 {
        Err(Error::Incomplete)
    } else {
        let n = be_u64_at(s, i);
        if s.len() - (i + 8) < n {
            Err(Error::Incomplete)
        } else {
            let bytes = s.subrange(i + 8, i + 8 + n);
            if valid_utf8(bytes) {
                Ok((decode_utf8(bytes), i + 8 + n))
            } else {
                Err(Error::Invalid)
            }
        }
    }
}

fn parse_string_at(buf: &[u8], pos: usize) -> (r: Result<(String, usize), Error>)
    requires
        pos <= buf@.len(),
    ensures
        match r {
            Ok((v, end)) => string_at(buf@, pos as int) == Ok::<_, Error>((v@, end as int)),
            Err(e) => string_at(buf@, pos as int) == Err::<(Seq<char>, int), Error>(e),
        },
{
    let len = buf.len();
    let length = read_u64(buf, pos)?;
    let start = pos + 8;
    if ((len - start) as u64) < length {
        return Err(Error::Incomplete);
    }
    let end = start + length as usize;
    let bytes = slice_to_vec(slice_subrange(buf, start, end));
    match string_from_utf8(bytes) {
        Ok(string) => Ok((string, end)),
        Err(_) => Err(Error::Invalid),
    }
}

proof fn lemma_string_roundtrip(v: Seq<char>, s: Seq<u8>, i: int)
    requires
        0 <= i,
        encode_string(v).len() <= isize::MAX,
        i + encode_string(v).len() <= s.len(),
        s.subrange(i, i + encode_string(v).len()) == encode_string(v),
    ensures
        string_at(s, i) == Ok::<_, Error>((v, i + encode_string(v).len())),
{
    let bytes = encode_utf8(v);
    let n = bytes.len();
    assert(s.subrange(i, i + 8) =~= u64_be(n as u64)) by {
        assert forall|k: int| 0 <= k < 8 implies #[trigger] s.subrange(i, i + 8)[k] == u64_be(n as u64)[k] by {
            assert(s.subrange(i, i + encode_string(v).len())[k] == encode_string(v)[k]);
        }
    }
    lemma_u64_roundtrip(n as u64, s, i);
    assert(s.subrange(i + 8, i + 8 + n) =~= bytes) by {
        assert forall|k: int| 0 <= k < n implies #[trigger] s.subrange(i + 8, i + 8 + n)[k] == bytes[k] by {
            assert(s.subrange(i, i + encode_string(v).len())[k + 8] == encode_string(v)[k + 8]);
        }
    }
    vstd::utf8::encode_utf8_valid_utf8(v);
    vstd::utf8::encode_utf8_decode_utf8(v);
}

proof fn lemma_string_prefix(v: Seq<char>, s: Seq<u8>, i: int)
    requires
        0 <= i <= s.len(),
        encode_string(v).len() <= isize::MAX,
        s.len() < i + encode_string(v).len(),
        s.subrange(i, s.len() as int) == encode_string(v).take(s.len() - i),
    ensures
        string_at(s, i) == Err::<(Seq<char>, int), Error>(Error::Incomplete),
{
    let n = encode_utf8(v).len();
    if s.len() >= i + 8 {
        assert(s.subrange(i, i + 8) =~= u64_be(n as u64)) by {
            assert forall|k: int| 0 <= k < 8 implies #[trigger] s.subrange(i, i + 8)[k] == u64_be(
                n as u64,
            )[k] by {
                assert(s.subrange(i, s.len() as int)[k] == encode_string(v).take(s.len() - i)[k]);
            }
        }
        lemma_u64_roundtrip(n as u64, s, i);
    }
}

proof fn lemma_string_parse_encode(s: Seq<u8>, i: int)
    requires
        0 <= i,
    ensures
        string_at(s, i) matches Ok((v, end)) ==> end <= s.len() && s.subrange(i, end)
            == encode_string(v),
{
    if let Ok((v, end)) = string_at(s, i) {
        let n = be_u64_at(s, i);
        let bytes = s.subrange(i + 8, i + 8 + n);
        vstd::utf8::decode_utf8_encode_utf8(bytes);
        lemma_u64_bytes(s, i);
        assert(encode_utf8(v) == bytes);
        assert(s.subrange(i, end) =~= encode_string(v));
    }
}

impl Frame for String {
    open spec fn spec_parse(buf: Seq<u8>) -> Result<(Seq<char>, nat), Error> {
        from_start(string_at(buf, 0), 0)
    }

    open spec fn spec_encode(v: Seq<char>) -> Seq<u8> {
        encode_string(v)
    }

    proof fn lemma_encode_parse(v: Seq<char>, rest: Seq<u8>) {
        let s = encode_string(v) + rest;
        assert(s.subrange(0, encode_string(v).len() as int) =~= encode_string(v));
        lemma_string_roundtrip(v, s, 0);
    }

    proof fn lemma_empty_incomplete() {
    }

    proof fn lemma_prefix_incomplete(v: Seq<char>, n: nat) {
        let s = encode_string(v).take(n as int);
        assert(s.subrange(0, s.len() as int) =~= encode_string(v).take(s.len() - 0));
        lemma_string_prefix(v, s, 0);
    }

    proof fn lemma_parse_encode(buf: Seq<u8>) {
        lemma_string_parse_encode(buf, 0);
        if let Ok((v, end)) = string_at(buf, 0) {
            assert(buf.take(end) =~= buf.subrange(0, end));
        }
    }

    fn parse(buf: &[u8]) -> (r: Result<(String, usize), Error>) {
        parse_string_at(buf, 0)
    }

    fn write(&self, buf: &mut Vec<u8>) {
        let bytes = self.as_str().as_bytes();
        put_u64(buf, bytes.len() as u64);
        put_slice(buf, bytes);
        assert(buf@ =~= old(buf)@ + encode_string(self@));
        proof {
            let v = self@;
            assert forall|rest: Seq<u8>|
                Self::spec_parse(#[trigger] (Self::spec_encode(v) + rest)) == Ok::<_, Error>(
                    (v, Self::spec_encode(v).len()),
                ) by {
                Self::lemma_encode_parse(v, rest);
            }
            assert forall|n: nat| n < Self::spec_encode(v).len() implies Self::spec_parse(
                #[trigger] Self::spec_encode(v).take(n as int),
            ) == Err::<(Self::V, nat), Error>(Error::Incomplete) by {
                Self::lemma_prefix_incomplete(v, n);
            }
        }
    }
}


// ---------------------------------------------------------------------------
// Fields at fixed offsets
proof fn lemma_u32_field(s: Seq<u8>, i: int, enc: Seq<u8>, j: int, v: u32)
    requires
        0 <= i,
        0 <= j,
        j + 4 <= enc.len(),
        i + enc.len() <= s.len(),
        s.subrange(i, i + enc.len()) == enc,
        enc.subrange(j, j + 4) == u32_be(v),
    ensures
        be_u32_at(s, i + j) == v,
{
    assert(s.subrange(i + j, i + j + 4) =~= u32_be(v)) by {
        assert forall|k: int| 0 <= k < 4 implies #[trigger] s.subrange(i + j, i + j + 4)[k]
            == u32_be(v)[k] by {
            assert(s.subrange(i, i + enc.len())[j + k] == enc[j + k]);
            assert(enc.subrange(j, j + 4)[k] == enc[j + k]);
        }
    }
    lemma_u32_roundtrip(v, s, i + j);
}

proof fn lemma_byte_field(s: Seq<u8>, i: int, enc: Seq<u8>, j: int)
    requires
        0 <= i,
        0 <= j < enc.len(),
        i + enc.len() <= s.len(),
        s.subrange(i, i + enc.len()) == enc,
    ensures
        s[i + j] == enc[j],
{
    assert(s.subrange(i, i + enc.len())[j] == enc[j]);
}

proof fn lemma_i8_byte(d: i8)
    ensures
        (d as u8) as i8 == d,
{
    assert((d as u8) as i8 == d) by (bit_vector);
}

proof fn lemma_byte_i8(b: u8)
    ensures
        (b as i8) as u8 == b,
{
    assert((b as i8) as u8 == b) by (bit_vector);
}

/// Which paddle a player controls.
#[derive(Debug, Clone, Copy, PartialEq, Eq, Structural)]
pub enum Paddle {
    Left,
    Right,
}

/// The state of the game that changes as it is played.
#[derive(Debug, Clone, Copy, PartialEq, Eq)]
pub struct DynamicGameState {
    pub left_paddle_y: u32,
    pub right_paddle_y: u32,
    pub ball_position: (u32, u32),
    pub ball_direction: (i8, i8),
    pub score_left: u32,
    pub score_right: u32,
}

impl View for DynamicGameState {
    type V = DynamicGameState;

    open spec fn view(&self) -> DynamicGameState {
        *self
    }
}

/// The encoding of the changing state: its fields in order, with no tag.
pub open spec fn encode_dynamic(d: DynamicGameState) -> Seq<u8> {
    u32_be(d.left_paddle_y) + u32_be(d.right_paddle_y) + u32_be(d.ball_position.0) + u32_be(
        d.ball_position.1,
    ) + seq![d.ball_direction.0 as u8, d.ball_direction.1 as u8] + u32_be(d.score_left) + u32_be(
        d.score_right,
    )
}

/// Parsing the changing state that starts at byte `i` of `s`.
pub open spec fn dynamic_at(s: Seq<u8>, i: int) -> Result<(DynamicGameState, int), Error> {
    if s.len() < i + 26 {
        Err(Error::Incomplete)
    } else {
        Ok(
            (
                DynamicGameState {
                    left_paddle_y: be_u32_at(s, i),
                    right_paddle_y: be_u32_at(s, i + 4),
                    ball_position: (be_u32_at(s, i + 8), be_u32_at(s, i + 12)),
                    ball_direction: (s[i + 16] as i8, s[i + 17] as i8),
                    score_left: be_u32_at(s, i + 18),
                    score_right: be_u32_at(s, i + 22),
                },
                i + 26,
            ),
        )
    }
}

fn parse_dynamic_at(buf: &[u8], pos: usize) -> (r: Result<(DynamicGameState, usize), Error>)
    requires
        pos <= buf@.len(),
    ensures
        match r {
            Ok((v, end)) => dynamic_at(buf@, pos as int) == Ok::<_, Error>((v, end as int)),
            Err(e) => dynamic_at(buf@, pos as int) == Err::<(DynamicGameState, int), Error>(e),
        },
{
    let _len = buf.len();
    let left_paddle_y = read_u32(buf, pos)?;
    let right_paddle_y = read_u32(buf, pos + 4)?;
    let ball_x = read_u32(buf, pos + 8)?;
    let ball_y = read_u32(buf, pos + 12)?;
    let dir_x = read_i8(buf, pos + 16)?;
    let dir_y = read_i8(buf, pos + 17)?;
    let score_left = read_u32(buf, pos + 18)?;
    let score_right = read_u32(buf, pos + 22)?;
    Ok(
        (
            DynamicGameState {
                left_paddle_y,
                right_paddle_y,
                ball_position: (ball_x, ball_y),
                ball_direction: (dir_x, dir_y),
                score_left,
                score_right,
            },
            pos + 26,
        ),
    )
}

fn write_dynamic(d: &DynamicGameState, buf: &mut Vec<u8>)
    requires
        old(buf)@.len() + 26 <= isize::MAX,
    ensures
        final(buf)@ == old(buf)@ + encode_dynamic(*d),
{
    put_u32(buf, d.left_paddle_y);
    put_u32(buf, d.right_paddle_y);
    put_u32(buf, d.ball_position.0);
    put_u32(buf, d.ball_position.1);
    put_u8(buf, d.ball_direction.0 as u8);
    put_u8(buf, d.ball_direction.1 as u8);
    put_u32(buf, d.score_left);
    put_u32(buf, d.score_right);
    assert(buf@ =~= old(buf)@ + encode_dynamic(*d));
}

proof fn lemma_dynamic_roundtrip(v: DynamicGameState, s: Seq<u8>, i: int)
    requires
        0 <= i,
        i + 26 <= s.len(),
        s.subrange(i, i + 26) == encode_dynamic(v),
    ensures
        dynamic_at(s, i) == Ok::<_, Error>((v, i + 26)),
{
    let enc = encode_dynamic(v);
    assert(enc.len() == 26);
    assert(enc.subrange(0, 4) =~= u32_be(v.left_paddle_y));
    assert(enc.subrange(4, 8) =~= u32_be(v.right_paddle_y));
    assert(enc.subrange(8, 12) =~= u32_be(v.ball_position.0));
    assert(enc.subrange(12, 16) =~= u32_be(v.ball_position.1));
    assert(enc.subrange(18, 22) =~= u32_be(v.score_left));
    assert(enc.subrange(22, 26) =~= u32_be(v.score_right));
    lemma_u32_field(s, i, enc, 0, v.left_paddle_y);
    lemma_u32_field(s, i, enc, 4, v.right_paddle_y);
    lemma_u32_field(s, i, enc, 8, v.ball_position.0);
    lemma_u32_field(s, i, enc, 12, v.ball_position.1);
    lemma_u32_field(s, i, enc, 18, v.score_left);
    lemma_u32_field(s, i, enc, 22, v.score_right);
    lemma_byte_field(s, i, enc, 16);
    lemma_byte_field(s, i, enc, 17);
    lemma_i8_byte(v.ball_direction.0);
    lemma_i8_byte(v.ball_direction.1);
}

proof fn lemma_dynamic_parse_encode(s: Seq<u8>, i: int)
    requires
        0 <= i,
    ensures
        dynamic_at(s, i) matches Ok((v, end)) ==> end == i + 26 && end <= s.len() && s.subrange(
            i,
            end,
        ) == encode_dynamic(v),
{
    if let Ok((v, end)) = dynamic_at(s, i) {
        lemma_u32_bytes(s, i);
        lemma_u32_bytes(s, i + 4);
        lemma_u32_bytes(s, i + 8);
        lemma_u32_bytes(s, i + 12);
        lemma_u32_bytes(s, i + 18);
        lemma_u32_bytes(s, i + 22);
        lemma_byte_i8(s[i + 16]);
        lemma_byte_i8(s[i + 17]);
        assert(s.subrange(i, end) =~= encode_dynamic(v));
    }
}

impl Frame for DynamicGameState {
    open spec fn spec_parse(buf: Seq<u8>) -> Result<(DynamicGameState, nat), Error> {
        from_start(dynamic_at(buf, 0), 0)
    }

    open spec fn spec_encode(v: DynamicGameState) -> Seq<u8> {
        encode_dynamic(v)
    }

    proof fn lemma_encode_parse(v: DynamicGameState, rest: Seq<u8>) {
        let s = encode_dynamic(v) + rest;
        assert(s.subrange(0, 26) =~= encode_dynamic(v));
        lemma_dynamic_roundtrip(v, s, 0);
    }

    proof fn lemma_empty_incomplete() {
    }

    proof fn lemma_prefix_incomplete(v: DynamicGameState, n: nat) {
    }

    proof fn lemma_parse_encode(buf: Seq<u8>) {
        lemma_dynamic_parse_encode(buf, 0);
        if let Ok((v, end)) = dynamic_at(buf, 0) {
            assert(buf.take(end) =~= buf.subrange(0, end));
        }
    }

    fn parse(buf: &[u8]) -> (r: Result<(DynamicGameState, usize), Error>) {
        parse_dynamic_at(buf, 0)
    }

    fn write(&self, buf: &mut Vec<u8>) {
        write_dynamic(self, buf);
        proof {
            let v = self@;
            assert forall|rest: Seq<u8>|
                Self::spec_parse(#[trigger] (Self::spec_encode(v) + rest)) == Ok::<_, Error>(
                    (v, Self::spec_encode(v).len()),
                ) by {
                Self::lemma_encode_parse(v, rest);
            }
            assert forall|n: nat| n < Self::spec_encode(v).len() implies Self::spec_parse(
                #[trigger] Self::spec_encode(v).take(n as int),
            ) == Err::<(Self::V, nat), Error>(Error::Incomplete) by {
                Self::lemma_prefix_incomplete(v, n);
            }
        }
    }
}

/// The state of the game that stays the same while it is played.
#[derive(Debug, Clone, Copy, PartialEq, Eq)]
pub struct FixedGameState {
    pub left_paddle_x: u32,
    pub right_paddle_x: u32,
    pub paddle_height: u32,
    pub arena_size: (u32, u32),
}

impl View for FixedGameState {
    type V = FixedGameState;

    open spec fn view(&self) -> FixedGameState {
        *self
    }
}

/// The encoding of the unchanging state: its fields in order, with no tag.
pub open spec fn encode_fixed(f: FixedGameState) -> Seq<u8> {
    u32_be(f.left_paddle_x) + u32_be(f.right_paddle_x) + u32_be(f.paddle_height) + u32_be(
        f.arena_size.0,
    ) + u32_be(f.arena_size.1)
}

/// Parsing the unchanging state that starts at byte `i` of `s`.
pub open spec fn fixed_at(s: Seq<u8>, i: int) -> Result<(FixedGameState, int), Error> {
    if s.len() < i + 20 {
        Err(Error::Incomplete)
    } else {
        Ok(
            (
                FixedGameState {
                    left_paddle_x: be_u32_at(s, i),
                    right_paddle_x: be_u32_at(s, i + 4),
                    paddle_height: be_u32_at(s, i + 8),
                    arena_size: (be_u32_at(s, i + 12), be_u32_at(s, i + 16)),
                },
                i + 20,
            ),
        )
    }
}

fn parse_fixed_at(buf: &[u8], pos: usize) -> (r: Result<(FixedGameState, usize), Error>)
    requires
        pos <= buf@.len(),
    ensures
        match r {
            Ok((v, end)) => fixed_at(buf@, pos as int) == Ok::<_, Error>((v, end as int)),
            Err(e) => fixed_at(buf@, pos as int) == Err::<(FixedGameState, int), Error>(e),
        },
{
    let _len = buf.len();
    let left_paddle_x = read_u32(buf, pos)?;
    let right_paddle_x = read_u32(buf, pos + 4)?;
    let paddle_height = read_u32(buf, pos + 8)?;
    let width = read_u32(buf, pos + 12)?;
    let height = read_u32(buf, pos + 16)?;
    Ok(
        (
            FixedGameState { left_paddle_x, right_paddle_x, paddle_height, arena_size: (width, height) },
            pos + 20,
        ),
    )
}

fn write_fixed(f: &FixedGameState, buf: &mut Vec<u8>)
    requires
        old(buf)@.len() + 20 <= isize::MAX,
    ensures
        final(buf)@ == old(buf)@ + encode_fixed(*f),
{
    put_u32(buf, f.left_paddle_x);
    put_u32(buf, f.right_paddle_x);
    put_u32(buf, f.paddle_height);
    put_u32(buf, f.arena_size.0);
    put_u32(buf, f.arena_size.1);
    assert(buf@ =~= old(buf)@ + encode_fixed(*f));
}

proof fn lemma_fixed_roundtrip(v: FixedGameState, s: Seq<u8>, i: int)
    requires
        0 <= i,
        i + 20 <= s.len(),
        s.subrange(i, i + 20) == encode_fixed(v),
    ensures
        fixed_at(s, i) == Ok::<_, Error>((v, i + 20)),
{
    let enc = encode_fixed(v);
    assert(enc.len() == 20);
    assert(enc.subrange(0, 4) =~= u32_be(v.left_paddle_x));
    assert(enc.subrange(4, 8) =~= u32_be(v.right_paddle_x));
    assert(enc.subrange(8, 12) =~= u32_be(v.paddle_height));
    assert(enc.subrange(12, 16) =~= u32_be(v.arena_size.0));
    assert(enc.subrange(16, 20) =~= u32_be(v.arena_size.1));
    lemma_u32_field(s, i, enc, 0, v.left_paddle_x);
    lemma_u32_field(s, i, enc, 4, v.right_paddle_x);
    lemma_u32_field(s, i, enc, 8, v.paddle_height);
    lemma_u32_field(s, i, enc, 12, v.arena_size.0);
    lemma_u32_field(s, i, enc, 16, v.arena_size.1);
}

proof fn lemma_fixed_parse_encode(s: Seq<u8>, i: int)
    requires
        0 <= i,
    ensures
        fixed_at(s, i) matches Ok((v, end)) ==> end == i + 20 && end <= s.len() && s.subrange(
            i,
            end,
        ) == encode_fixed(v),
{
    if let Ok((v, end)) = fixed_at(s, i) {
        lemma_u32_bytes(s, i);
        lemma_u32_bytes(s, i + 4);
        lemma_u32_bytes(s, i + 8);
        lemma_u32_bytes(s, i + 12);
        lemma_u32_bytes(s, i + 16);
        assert(s.subrange(i, end) =~= encode_fixed(v));
    }
}

impl Frame for FixedGameState {
    open spec fn spec_parse(buf: Seq<u8>) -> Result<(FixedGameState, nat), Error> {
        from_start(fixed_at(buf, 0), 0)
    }

    open spec fn spec_encode(v: FixedGameState) -> Seq<u8> {
        encode_fixed(v)
    }

    proof fn lemma_encode_parse(v: FixedGameState, rest: Seq<u8>) {
        let s = encode_fixed(v) + rest;
        assert(s.subrange(0, 20) =~= encode_fixed(v));
        lemma_fixed_roundtrip(v, s, 0);
    }

    proof fn lemma_empty_incomplete() {
    }

    proof fn lemma_prefix_incomplete(v: FixedGameState, n: nat) {
    }

    proof fn lemma_parse_encode(buf: Seq<u8>) {
        lemma_fixed_parse_encode(buf, 0);
        if let Ok((v, end)) = fixed_at(buf, 0) {
            assert(buf.take(end) =~= buf.subrange(0, end));
        }
    }

    fn parse(buf: &[u8]) -> (r: Result<(FixedGameState, usize), Error>) {
        parse_fixed_at(buf, 0)
    }

    fn write(&self, buf: &mut Vec<u8>) {
        write_fixed(self, buf);
        proof {
            let v = self@;
            assert forall|rest: Seq<u8>|
                Self::spec_parse(#[trigger] (Self::spec_encode(v) + rest)) == Ok::<_, Error>(
                    (v, Self::spec_encode(v).len()),
                ) by {
                Self::lemma_encode_parse(v, rest);
            }
            assert forall|n: nat| n < Self::spec_encode(v).len() implies Self::spec_parse(
                #[trigger] Self::spec_encode(v).take(n as int),
            ) == Err::<(Self::V, nat), Error>(Error::Incomplete) by {
                Self::lemma_prefix_incomplete(v, n);
            }
        }
    }
}

/// Everything a client needs to start showing a game.
#[derive(Debug, Clone, Copy, PartialEq, Eq)]
pub struct InitialGameState {
    pub fixed: FixedGameState,
    pub dynamic: DynamicGameState,
}



/// Tag bytes of client frames.
pub const TAG_CONNECT: u8 = 0x79; // 'y'
pub const TAG_CONNECTED_ACK: u8 = 0x63; // 'c'
pub const TAG_PADDLE_UP: u8 = 0x75; // 'u'
pub const TAG_PADDLE_STOP: u8 = 0x73; // 's'
pub const TAG_PADDLE_DOWN: u8 = 0x64; // 'd'
pub const TAG_DISCONNECT: u8 = 0x6e; // 'n'

/// Tag bytes of server frames, and of the paddle in an accepted connection.
pub const TAG_ACCEPT: u8 = 0x79; // 'y'
pub const TAG_REJECT: u8 = 0x6e; // 'n'
pub const TAG_GAME_START: u8 = 0x53; // 'S'
pub const TAG_STATE_UPDATE: u8 = 0x55; // 'U'
pub const TAG_GAME_PAUSE: u8 = 0x50; // 'P'
pub const TAG_GAME_END: u8 = 0x58; // 'X'
pub const TAG_LEFT: u8 = 0x4c; // 'L'
pub const TAG_RIGHT: u8 = 0x52; // 'R'

// ---------------------------------------------------------------------------
// Client frames
/// Sent by a client.
#[derive(Debug, Clone, Copy, PartialEq, Eq, Structural)]
pub enum ClientFrame {
    Connect,
    ConnectedAck,
    PaddleUp,
    PaddleStop,
    PaddleDown,
    Disconnect,
}

impl View for ClientFrame {
    type V = ClientFrame;

    open spec fn view(&self) -> ClientFrame {
        *self
    }
}

/// The byte that a client frame is sent as.
pub open spec fn client_tag(f: ClientFrame) -> u8 {
    match f {
        ClientFrame::Connect => TAG_CONNECT,
        ClientFrame::ConnectedAck => TAG_CONNECTED_ACK,
        ClientFrame::PaddleUp => TAG_PADDLE_UP,
        ClientFrame::PaddleStop => TAG_PADDLE_STOP,
        ClientFrame::PaddleDown => TAG_PADDLE_DOWN,
        ClientFrame::Disconnect => TAG_DISCONNECT,
    }
}

/// The client frame that a byte stands for, if any.
pub open spec fn client_frame_of(b: u8) -> Option<ClientFrame> {
    if b == TAG_CONNECT {
        Some(ClientFrame::Connect)
    } else if b == TAG_CONNECTED_ACK {
        Some(ClientFrame::ConnectedAck)
    } else if b == TAG_PADDLE_UP {
        Some(ClientFrame::PaddleUp)
    } else if b == TAG_PADDLE_STOP {
        Some(ClientFrame::PaddleStop)
    } else if b == TAG_PADDLE_DOWN {
        Some(ClientFrame::PaddleDown)
    } else if b == TAG_DISCONNECT {
        Some(ClientFrame::Disconnect)
    } else {
        None
    }
}

/// Parsing the client frame whose byte is at `i` in `s`.
pub open spec fn client_frame_at(s: Seq<u8>, i: int) -> Result<(ClientFrame, int), Error> {
    if s.len() < i + 1 {
        Err(Error::Incomplete)
    } else {
        match client_frame_of(s[i]) {
            Some(f) => Ok((f, i + 1)),
            None => Err(Error::Invalid),
        }
    }
}

impl Frame for ClientFrame {
    open spec fn spec_parse(buf: Seq<u8>) -> Result<(ClientFrame, nat), Error> {
        from_start(client_frame_at(buf, 0), 0)
    }

    open spec fn spec_encode(v: ClientFrame) -> Seq<u8> {
        seq![client_tag(v)]
    }

    proof fn lemma_encode_parse(v: ClientFrame, rest: Seq<u8>) {
        assert((seq![client_tag(v)] + rest)[0] == client_tag(v));
    }

    proof fn lemma_empty_incomplete() {
    }

    proof fn lemma_prefix_incomplete(v: ClientFrame, n: nat) {
    }

    proof fn lemma_parse_encode(buf: Seq<u8>) {
        if let Ok((v, end)) = client_frame_at(buf, 0) {
            assert(buf.take(end) =~= seq![client_tag(v)]);
        }
    }

    /// Attempt to parse this frame from a buffer
    fn parse(buf: &[u8]) -> (r: Result<(ClientFrame, usize), Error>) {
        let kind = read_u8(buf, 0)?;
        let frame = if kind == TAG_CONNECT {
            ClientFrame::Connect
        } else if kind == TAG_CONNECTED_ACK {
            ClientFrame::ConnectedAck
        } else if kind == TAG_PADDLE_UP {
            ClientFrame::PaddleUp
        } else if kind == TAG_PADDLE_STOP {
            ClientFrame::PaddleStop
        } else if kind == TAG_PADDLE_DOWN {
            ClientFrame::PaddleDown
        } else if kind == TAG_DISCONNECT {
            ClientFrame::Disconnect
        } else {
            return Err(Error::Invalid);
        };
        Ok((frame, 1))
    }

    /// Write this frame to a buffer
    fn write(&self, buf: &mut Vec<u8>) {
        let tag = match self {
            ClientFrame::Connect => TAG_CONNECT,
            ClientFrame::ConnectedAck => TAG_CONNECTED_ACK,
            ClientFrame::PaddleUp => TAG_PADDLE_UP,
            ClientFrame::PaddleStop => TAG_PADDLE_STOP,
            ClientFrame::PaddleDown => TAG_PADDLE_DOWN,
            ClientFrame::Disconnect => TAG_DISCONNECT,
        };
        put_u8(buf, tag);
        assert(buf@ =~= old(buf)@ + seq![client_tag(self@)]);
        proof {
            let v = self@;
            assert forall|rest: Seq<u8>|
                Self::spec_parse(#[trigger] (Self::spec_encode(v) + rest)) == Ok::<_, Error>(
                    (v, Self::spec_encode(v).len()),
                ) by {
                Self::lemma_encode_parse(v, rest);
            }
            assert forall|n: nat| n < Self::spec_encode(v).len() implies Self::spec_parse(
                #[trigger] Self::spec_encode(v).take(n as int),
            ) == Err::<(Self::V, nat), Error>(Error::Incomplete) by {
                Self::lemma_prefix_incomplete(v, n);
            }
        }
    }
}

// ---------------------------------------------------------------------------
// Server frames
/// Sent by the server.
#[derive(Debug, PartialEq, Eq)]
pub enum ServerFrame {
    AcceptConnection(Paddle),
    RejectConnection(String),
    /// Used for both a fresh start and resume
    GameStart(InitialGameState),
    GamePause,
    StateUpdate(DynamicGameState),
    GameEnd,
}

/// A server frame as a value: the rejection message is its characters.
pub enum ServerFrameView {
    AcceptConnection(Paddle),
    RejectConnection(Seq<char>),
    GameStart(InitialGameState),
    GamePause,
    StateUpdate(DynamicGameState),
    GameEnd,
}

impl View for ServerFrame {
    type V = ServerFrameView;

    open spec fn view(&self) -> ServerFrameView {
        match self {
            ServerFrame::AcceptConnection(p) => ServerFrameView::AcceptConnection(*p),
            ServerFrame::RejectConnection(m) => ServerFrameView::RejectConnection(m@),
            ServerFrame::GameStart(s) => ServerFrameView::GameStart(*s),
            ServerFrame::GamePause => ServerFrameView::GamePause,
            ServerFrame::StateUpdate(d) => ServerFrameView::StateUpdate(*d),
            ServerFrame::GameEnd => ServerFrameView::GameEnd,
        }
    }
}

/// The byte that names a paddle.
pub open spec fn paddle_tag(p: Paddle) -> u8 {
    match p {
        Paddle::Left => TAG_LEFT,
        Paddle::Right => TAG_RIGHT,
    }
}

/// The encoding of a server frame: a tag byte, then what the frame carries.
pub open spec fn encode_server(f: ServerFrameView) -> Seq<u8> {
    match f {
        ServerFrameView::AcceptConnection(p) => seq![TAG_ACCEPT, paddle_tag(p)],
        ServerFrameView::RejectConnection(m) => seq![TAG_REJECT] + encode_string(m),
        ServerFrameView::GameStart(s) => seq![TAG_GAME_START] + encode_fixed(s.fixed) + encode_dynamic(
            s.dynamic,
        ),
        ServerFrameView::GamePause => seq![TAG_GAME_PAUSE],
        ServerFrameView::StateUpdate(d) => seq![TAG_STATE_UPDATE] + encode_dynamic(d),
        ServerFrameView::GameEnd => seq![TAG_GAME_END],
    }
}

/// Parsing the server frame whose tag is at `i` in `s`.
pub open spec fn server_frame_at(s: Seq<u8>, i: int) -> Result<(ServerFrameView, int), Error> {
    if s.len() < i + 1 {
        Err(Error::Incomplete)
    } else {
        let kind = s[i];
        if kind == TAG_ACCEPT {
            if s.len() < i + 2 {
                Err(Error::Incomplete)
            } else if s[i + 1] == TAG_LEFT {
                Ok((ServerFrameView::AcceptConnection(Paddle::Left), i + 2))
            } else if s[i + 1] == TAG_RIGHT {
                Ok((ServerFrameView::AcceptConnection(Paddle::Right), i + 2))
            } else {
                Err(Error::Invalid)
            }
        } else if kind == TAG_REJECT {
            match string_at(s, i + 1) {
                Ok((m, end)) => Ok((ServerFrameView::RejectConnection(m), end)),
                Err(e) => Err(e),
            }
        } else if kind == TAG_GAME_START {
            match fixed_at(s, i + 1) {
                Ok((fixed, mid)) => match dynamic_at(s, mid) {
                    Ok((dynamic, end)) => Ok(
                        (
                            ServerFrameView::GameStart(InitialGameState { fixed, dynamic }),
                            end,
                        ),
                    ),
                    Err(e) => Err(e),
                },
                Err(e) => Err(e),
            }
        } else if kind == TAG_STATE_UPDATE {
            match dynamic_at(s, i + 1) {
                Ok((d, end)) => Ok((ServerFrameView::StateUpdate(d), end)),
                Err(e) => Err(e),
            }
        } else if kind == TAG_GAME_PAUSE {
            Ok((ServerFrameView::GamePause, i + 1))
        } else if kind == TAG_GAME_END {
            Ok((ServerFrameView::GameEnd, i + 1))
        } else {
            Err(Error::Invalid)
        }
    }
}

proof fn lemma_reject_encode_parse(m: Seq<char>, rest: Seq<u8>)
    requires
        encode_server(ServerFrameView::RejectConnection(m)).len() <= isize::MAX,
    ensures
        server_frame_at(encode_server(ServerFrameView::RejectConnection(m)) + rest, 0)
            == Ok::<_, Error>(
            (
                ServerFrameView::RejectConnection(m),
                encode_server(ServerFrameView::RejectConnection(m)).len() as int,
            ),
        ),
{
    let enc = encode_server(ServerFrameView::RejectConnection(m));
    let s = enc + rest;
    let body = encode_string(m);
    assert(s[0] == TAG_REJECT);
    assert(s.subrange(1, 1 + body.len() as int) =~= body);
    lemma_string_roundtrip(m, s, 1);
}

proof fn lemma_start_encode_parse(st: InitialGameState, rest: Seq<u8>)
    ensures
        server_frame_at(encode_server(ServerFrameView::GameStart(st)) + rest, 0) == Ok::<
            _,
            Error,
        >((ServerFrameView::GameStart(st), 47int)),
{
    let enc = encode_server(ServerFrameView::GameStart(st));
    let s = enc + rest;
    assert(s[0] == TAG_GAME_START);
    assert(s.subrange(1, 21) =~= encode_fixed(st.fixed));
    assert(s.subrange(21, 47) =~= encode_dynamic(st.dynamic));
    lemma_fixed_roundtrip(st.fixed, s, 1);
    lemma_dynamic_roundtrip(st.dynamic, s, 21);
}

proof fn lemma_update_encode_parse(d: DynamicGameState, rest: Seq<u8>)
    ensures
        server_frame_at(encode_server(ServerFrameView::StateUpdate(d)) + rest, 0) == Ok::<
            _,
            Error,
        >((ServerFrameView::StateUpdate(d), 27int)),
{
    let enc = encode_server(ServerFrameView::StateUpdate(d));
    let s = enc + rest;
    assert(s[0] == TAG_STATE_UPDATE);
    assert(s.subrange(1, 27) =~= encode_dynamic(d));
    lemma_dynamic_roundtrip(d, s, 1);
}

proof fn lemma_server_encode_parse(v: ServerFrameView, rest: Seq<u8>)
    requires
        encode_server(v).len() <= isize::MAX,
    ensures
        server_frame_at(encode_server(v) + rest, 0) == Ok::<_, Error>(
            (v, encode_server(v).len() as int),
        ),
{
    match v {
        ServerFrameView::RejectConnection(m) => lemma_reject_encode_parse(m, rest),
        ServerFrameView::GameStart(st) => lemma_start_encode_parse(st, rest),
        ServerFrameView::StateUpdate(d) => lemma_update_encode_parse(d, rest),
        ServerFrameView::AcceptConnection(p) => {
            let s = encode_server(v) + rest;
            assert(s[0] == TAG_ACCEPT);
            assert(s[1] == paddle_tag(p));
        },
        ServerFrameView::GamePause => {
            assert((encode_server(v) + rest)[0] == TAG_GAME_PAUSE);
        },
        ServerFrameView::GameEnd => {
            assert((encode_server(v) + rest)[0] == TAG_GAME_END);
        },
    }
}

proof fn lemma_server_prefix(v: ServerFrameView, n: nat)
    requires
        encode_server(v).len() <= isize::MAX,
        n < encode_server(v).len(),
    ensures
        server_frame_at(encode_server(v).take(n as int), 0) == Err::<(ServerFrameView, int), Error>(
            Error::Incomplete,
        ),
{
    let enc = encode_server(v);
    let s = enc.take(n as int);
    if n > 0 {
        assert(s[0] == enc[0]);
        match v {
            ServerFrameView::RejectConnection(m) => {
                let body = encode_string(m);
                assert(s.subrange(1, s.len() as int) =~= body.take(s.len() - 1));
                lemma_string_prefix(m, s, 1);
            },
            ServerFrameView::GameStart(st) => {
                if n >= 21 {
                    assert(s.subrange(1, 21) =~= encode_fixed(st.fixed));
                    lemma_fixed_roundtrip(st.fixed, s, 1);
                }
            },
            _ => {},
        }
    }
}

proof fn lemma_server_parse_encode(s: Seq<u8>)
    ensures
        server_frame_at(s, 0) matches Ok((v, end)) ==> end <= s.len() && s.take(end)
            == encode_server(v),
{
    if let Ok((v, end)) = server_frame_at(s, 0) {
        let kind = s[0];
        if kind == TAG_ACCEPT {
            assert(s.take(end) =~= encode_server(v));
        } else if kind == TAG_REJECT {
            lemma_string_parse_encode(s, 1);
            assert(s.take(end) =~= seq![kind] + s.subrange(1, end));
        } else if kind == TAG_GAME_START {
            lemma_fixed_parse_encode(s, 1);
            lemma_dynamic_parse_encode(s, 21);
            assert(s.take(end) =~= seq![kind] + s.subrange(1, 21) + s.subrange(21, end));
        } else if kind == TAG_STATE_UPDATE {
            lemma_dynamic_parse_encode(s, 1);
            assert(s.take(end) =~= seq![kind] + s.subrange(1, end));
        } else {
            assert(s.take(end) =~= encode_server(v));
        }
    }
}

impl Frame for ServerFrame {
    open spec fn spec_parse(buf: Seq<u8>) -> Result<(ServerFrameView, nat), Error> {
        from_start(server_frame_at(buf, 0), 0)
    }

    open spec fn spec_encode(v: ServerFrameView) -> Seq<u8> {
        encode_server(v)
    }

    proof fn lemma_encode_parse(v: ServerFrameView, rest: Seq<u8>) {
        lemma_server_encode_parse(v, rest);
    }

    proof fn lemma_empty_incomplete() {
    }

    proof fn lemma_prefix_incomplete(v: ServerFrameView, n: nat) {
        lemma_server_prefix(v, n);
    }

    proof fn lemma_parse_encode(buf: Seq<u8>) {
        lemma_server_parse_encode(buf);
    }

    /// Attempt to parse this frame from a buffer
    fn parse(buf: &[u8]) -> (r: Result<(ServerFrame, usize), Error>) {
        let kind = read_u8(buf, 0)?;
        if kind == TAG_ACCEPT {
            let byte = read_u8(buf, 1)?;
            let paddle = if byte == TAG_LEFT {
                Paddle::Left
            } else if byte == TAG_RIGHT {
                Paddle::Right
            } else {
                return Err(Error::Invalid);
            };
            Ok((ServerFrame::AcceptConnection(paddle), 2))
        } else if kind == TAG_REJECT {
            // Parse rejection message
            let (message, end) = parse_string_at(buf, 1)?;
            Ok((ServerFrame::RejectConnection(message), end))
        } else if kind == TAG_GAME_START {
            let (fixed, mid) = parse_fixed_at(buf, 1)?;
            let (dynamic, end) = parse_dynamic_at(buf, mid)?;
            Ok((ServerFrame::GameStart(InitialGameState { fixed, dynamic }), end))
        } else if kind == TAG_STATE_UPDATE {
            let (dynamic, end) = parse_dynamic_at(buf, 1)?;
            Ok((ServerFrame::StateUpdate(dynamic), end))
        } else if kind == TAG_GAME_PAUSE {
            Ok((ServerFrame::GamePause, 1))
        } else if kind == TAG_GAME_END {
            Ok((ServerFrame::GameEnd, 1))
        } else {
            Err(Error::Invalid)
        }
    }

    /// Write this frame to a buffer
    fn write(&self, buf: &mut Vec<u8>) {
        match self {
            ServerFrame::AcceptConnection(paddle) => {
                put_u8(buf, TAG_ACCEPT);
                let paddle = match paddle {
                    Paddle::Left => TAG_LEFT,
                    Paddle::Right => TAG_RIGHT,
                };
                put_u8(buf, paddle);
            },
            ServerFrame::RejectConnection(message) => {
                put_u8(buf, TAG_REJECT);
                message.write(buf);
            },
            ServerFrame::GameStart(initial_game_state) => {
                put_u8(buf, TAG_GAME_START);
                write_fixed(&initial_game_state.fixed, buf);
                write_dynamic(&initial_game_state.dynamic, buf);
            },
            ServerFrame::StateUpdate(dynamic_game_state) => {
                put_u8(buf, TAG_STATE_UPDATE);
                write_dynamic(dynamic_game_state, buf);
            },
            ServerFrame::GameEnd => {
                put_u8(buf, TAG_GAME_END);
            },
            ServerFrame::GamePause => {
                put_u8(buf, TAG_GAME_PAUSE);
            },
        }
        assert(buf@ =~= old(buf)@ + encode_server(self@));
        proof {
            let v = self@;
            assert forall|rest: Seq<u8>|
                Self::spec_parse(#[trigger] (Self::spec_encode(v) + rest)) == Ok::<_, Error>(
                    (v, Self::spec_encode(v).len()),
                ) by {
                Self::lemma_encode_parse(v, rest);
            }
            assert forall|n: nat| n < Self::spec_encode(v).len() implies Self::spec_parse(
                #[trigger] Self::spec_encode(v).take(n as int),
            ) == Err::<(Self::V, nat), Error>(Error::Incomplete) by {
                Self::lemma_prefix_incomplete(v, n);
            }
        }
    }
}

} // verus!
