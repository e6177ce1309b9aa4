use crate::wire::component::{
    Appearance, Camera, ComponentValue, Heading, Isometry, Looking, NetComponent, Quaternion,
    SimplePosition, Timestamp, UpdatePosition, Vector3,
};
use crate::wire::message::{MessageValue, NetMessage};
use vstd::bytes::*;
use vstd::prelude::*;
use vstd::slice::{slice_subrange, slice_to_vec};
use vstd::utf8::*;

verus! {

/// Why a frame is not a message.
#[derive(Clone, Copy, Debug, PartialEq, Eq, Structural)]
pub enum DecodeError {
    /// The frame ends before the value that it announces is complete.
    Truncated,
    /// A tag byte names no variant.
    UnknownTag(u8),
    /// Bytes follow the end of the message.
    TrailingBytes,
    /// A text is not UTF-8.
    InvalidUtf8,
}

pub const TAG_NEW_ENT: u8 = 0;

pub const TAG_INSERT_COMP: u8 = 1;

pub const TAG_APPEARANCE: u8 = 0;

pub const TAG_SIMPLE_POSITION: u8 = 1;

pub const TAG_UPDATE_POSITION: u8 = 2;

pub const TAG_LOOKING: u8 = 3;

pub const TAG_HEADING: u8 = 4;

pub const TAG_CAMERA: u8 = 5;

// ---------------------------------------------------------------------------------------------
// The format: every integer little-endian and of fixed width, every float as the integer of
// its bit pattern, every variant behind a one-byte tag, a text behind its length in bytes.
// ---------------------------------------------------------------------------------------------

pub open spec fn vector3_bytes(v: Vector3) -> Seq<u8> {
    spec_u32_to_le_bytes(v.x) + spec_u32_to_le_bytes(v.y) + spec_u32_to_le_bytes(v.z)
}

pub open spec fn quaternion_bytes(q: Quaternion) -> Seq<u8> {
    spec_u32_to_le_bytes(q.i) + spec_u32_to_le_bytes(q.j) + spec_u32_to_le_bytes(q.k)
        + spec_u32_to_le_bytes(q.w)
}

pub open spec fn isometry_bytes(iso: Isometry) -> Seq<u8> {
    quaternion_bytes(iso.rotation) + vector3_bytes(iso.translation)
}

pub open spec fn timestamp_bytes(t: Timestamp) -> Seq<u8> {
    spec_u64_to_le_bytes(t.secs) + spec_u32_to_le_bytes(t.nanos)
}

pub open spec fn text_bytes(text: Seq<char>) -> Seq<u8> {
    spec_u64_to_le_bytes(encode_utf8(text).len() as u64) + encode_utf8(text)
}

pub open spec fn component_bytes(c: ComponentValue) -> Seq<u8> {
    match c {
        ComponentValue::Appearance(path) => seq![TAG_APPEARANCE] + text_bytes(path),
        ComponentValue::SimplePosition(p) => seq![TAG_SIMPLE_POSITION] + isometry_bytes(p.iso),
        ComponentValue::UpdatePosition(u) => seq![TAG_UPDATE_POSITION] + (isometry_bytes(u.iso)
            + timestamp_bytes(u.time_stamp)),
        ComponentValue::Looking(l) => seq![TAG_LOOKING] + vector3_bytes(l.dir),
        ComponentValue::Heading(h) => seq![TAG_HEADING] + vector3_bytes(h.dir),
        ComponentValue::Camera => seq![TAG_CAMERA],
    }
}

/// The frame that carries `m`.
pub open spec fn message_bytes(m: MessageValue) -> Seq<u8> {
    match m {
        MessageValue::NewEnt(id) => seq![TAG_NEW_ENT] + spec_u32_to_le_bytes(id),
        MessageValue::InsertComp(id, c) => seq![TAG_INSERT_COMP] + (spec_u32_to_le_bytes(id)
            + component_bytes(c)),
    }
}

/// Whether the texts of `m` are short enough for their lengths to be written down.
pub open spec fn representable(m: MessageValue) -> bool {
    match m {
        MessageValue::InsertComp(_, ComponentValue::Appearance(path)) => encode_utf8(path).len()
            <= u64::MAX,
        _ => true,
    }
}

pub open spec fn vector3_at(b: Seq<u8>, at: int) -> Vector3 {
    Vector3 {
        x: spec_u32_from_le_bytes(b.subrange(at, at + 4)),
        y: spec_u32_from_le_bytes(b.subrange(at + 4, at + 8)),
        z: spec_u32_from_le_bytes(b.subrange(at + 8, at + 12)),
    }
}

pub open spec fn quaternion_at(b: Seq<u8>, at: int) -> Quaternion {
    Quaternion {
        i: spec_u32_from_le_bytes(b.subrange(at, at + 4)),
        j: spec_u32_from_le_bytes(b.subrange(at + 4, at + 8)),
        k: spec_u32_from_le_bytes(b.subrange(at + 8, at + 12)),
        w: spec_u32_from_le_bytes(b.subrange(at + 12, at + 16)),
    }
}

pub open spec fn isometry_at(b: Seq<u8>, at: int) -> Isometry {
    Isometry { rotation: quaternion_at(b, at), translation: vector3_at(b, at + 16) }
}

pub open spec fn timestamp_at(b: Seq<u8>, at: int) -> Timestamp {
    Timestamp {
        secs: spec_u64_from_le_bytes(b.subrange(at, at + 8)),
        nanos: spec_u32_from_le_bytes(b.subrange(at + 8, at + 12)),
    }
}

/// How many bytes follow the tag of a component whose size does not depend on its value.
pub open spec fn fixed_body_len(tag: u8) -> int {
    if tag == TAG_SIMPLE_POSITION {
        28
    } else if tag == TAG_UPDATE_POSITION {
        40
    } else if tag == TAG_LOOKING || tag == TAG_HEADING {
        12
    } else {
        0
    }
}

/// The component that starts at `at` and ends with `b`.
pub open spec fn parse_component(b: Seq<u8>, at: int) -> Result<ComponentValue, DecodeError> {
    if b.len() < at + 1 {
        Err(DecodeError::Truncated)
    } else if b[at] > TAG_CAMERA {
        Err(DecodeError::UnknownTag(b[at]))
    } else if b[at] == TAG_APPEARANCE {
        if b.len() < at + 9 {
            Err(DecodeError::Truncated)
        } else {
            let n = spec_u64_from_le_bytes(b.subrange(at + 1, at + 9));
            if b.len() - (at + 9) < n {
                Err(DecodeError::Truncated)
            } else if b.len() - (at + 9) > n {
                Err(DecodeError::TrailingBytes)
            } else if !valid_utf8(b.subrange(at + 9, b.len() as int)) {
                Err(DecodeError::InvalidUtf8)
            } else {
                Ok(ComponentValue::Appearance(decode_utf8(b.subrange(at + 9, b.len() as int))))
            }
        }
    } else if b.len() < at + 1 + fixed_body_len(b[at]) {
        Err(DecodeError::Truncated)
    } else if b.len() > at + 1 + fixed_body_len(b[at]) {
        Err(DecodeError::TrailingBytes)
    } else if b[at] == TAG_SIMPLE_POSITION {
        Ok(ComponentValue::SimplePosition(SimplePosition { iso: isometry_at(b, at + 1) }))
    } else if b[at] == TAG_UPDATE_POSITION {
        Ok(
            ComponentValue::UpdatePosition(
                UpdatePosition {
                    iso: isometry_at(b, at + 1),
                    time_stamp: timestamp_at(b, at + 29),
                },
            ),
        )
    } else if b[at] == TAG_LOOKING {
        Ok(ComponentValue::Looking(Looking { dir: vector3_at(b, at + 1) }))
    } else if b[at] == TAG_HEADING {
        Ok(ComponentValue::Heading(Heading { dir: vector3_at(b, at + 1) }))
    } else {
        Ok(ComponentValue::Camera)
    }
}

/// The message that the frame `b` carries, or why it carries none.
pub open spec fn parse_message(b: Seq<u8>) -> Result<MessageValue, DecodeError> {
    if b.len() < 1 {
        Err(DecodeError::Truncated)
    } else if b[0] > TAG_INSERT_COMP {
        Err(DecodeError::UnknownTag(b[0]))
    } else if b.len() < 5 {
        Err(DecodeError::Truncated)
    } else if b[0] == TAG_NEW_ENT {
        if b.len() > 5 {
            Err(DecodeError::TrailingBytes)
        } else {
            Ok(MessageValue::NewEnt(spec_u32_from_le_bytes(b.subrange(1, 5))))
        }
    } else {
        match parse_component(b, 5) {
            Ok(c) => Ok(MessageValue::InsertComp(spec_u32_from_le_bytes(b.subrange(1, 5)), c)),
            Err(e) => Err(e),
        }
    }
}

// ---------------------------------------------------------------------------------------------
// Writing
// ---------------------------------------------------------------------------------------------

fn put_u32(out: &mut Vec<u8>, v: u32)
    ensures
        final(out)@ == old(out)@ + spec_u32_to_le_bytes(v),
{
    let mut b = u32_to_le_bytes(v);
    out.append(&mut b);
}

fn put_u64(out: &mut Vec<u8>, v: u64)
    ensures
        final(out)@ == old(out)@ + spec_u64_to_le_bytes(v),
{
    let mut b = u64_to_le_bytes(v);
    out.append(&mut b);
}

fn put_vector3(out: &mut Vec<u8>, v: Vector3)
    ensures
        final(out)@ == old(out)@ + vector3_bytes(v),
{
    put_u32(out, v.x);
    put_u32(out, v.y);
    put_u32(out, v.z);
    assert(out@ =~= old(out)@ + vector3_bytes(v));
}

fn put_quaternion(out: &mut Vec<u8>, q: Quaternion)
    ensures
        final(out)@ == old(out)@ + quaternion_bytes(q),
{
    put_u32(out, q.i);
    put_u32(out, q.j);
    put_u32(out, q.k);
    put_u32(out, q.w);
    assert(out@ =~= old(out)@ + quaternion_bytes(q));
}

fn put_isometry(out: &mut Vec<u8>, iso: Isometry)
    ensures
        final(out)@ == old(out)@ + isometry_bytes(iso),
{
    put_quaternion(out, iso.rotation);
    put_vector3(out, iso.translation);
    assert(out@ =~= old(out)@ + isometry_bytes(iso));
}

fn put_timestamp(out: &mut Vec<u8>, t: Timestamp)
    ensures
        final(out)@ == old(out)@ + timestamp_bytes(t),
{
    put_u64(out, t.secs);
    put_u32(out, t.nanos);
    assert(out@ =~= old(out)@ + timestamp_bytes(t));
}

fn put_text(out: &mut Vec<u8>, text: &String)
    ensures
        final(out)@ == old(out)@ + text_bytes(text@),
        encode_utf8(text@).len() <= u64::MAX,
{
    let mut utf8 = slice_to_vec(text.as_str().as_bytes());
    put_u64(out, utf8.len() as u64);
    out.append(&mut utf8);
    assert(out@ =~= old(out)@ + text_bytes(text@));
}

fn put_component(out: &mut Vec<u8>, component: &NetComponent)
    ensures
        final(out)@ == old(out)@ + component_bytes(component@),
        representable(MessageValue::InsertComp(0, component@)),
{
    match component {
        NetComponent::Appearance(a) => {
            out.push(TAG_APPEARANCE);
            put_text(out, &a.filepath);
        },
        NetComponent::SimplePosition(p) => {
            out.push(TAG_SIMPLE_POSITION);
            put_isometry(out, p.iso);
        },
        NetComponent::UpdatePosition(u) => {
            out.push(TAG_UPDATE_POSITION);
            put_isometry(out, u.iso);
            put_timestamp(out, u.time_stamp);
        },
        NetComponent::Looking(l) => {
            out.push(TAG_LOOKING);
            put_vector3(out, l.dir);
        },
        NetComponent::Heading(h) => {
            out.push(TAG_HEADING);
            put_vector3(out, h.dir);
        },
        NetComponent::Camera(_) => {
            out.push(TAG_CAMERA);
        },
    }
    assert(out@ =~= old(out)@ + component_bytes(component@));
}

/// The frame that announces the entity `id`. It reads back as that announcement.
pub fn encode_new_ent(id: u32) -> (frame: Vec<u8>)
    ensures
        frame@ == message_bytes(MessageValue::NewEnt(id)),
        parse_message(frame@) == Ok::<MessageValue, DecodeError>(MessageValue::NewEnt(id)),
{
    let mut out: Vec<u8> = Vec::new();
    out.push(TAG_NEW_ENT);
    put_u32(&mut out, id);
    proof {
        assert(out@ =~= message_bytes(MessageValue::NewEnt(id)));
        law_round_trip(MessageValue::NewEnt(id));
    }
    out
}

/// The frame that sets `component` on the entity `id`. It reads back as that message.
pub fn encode_insert_comp(id: u32, component: &NetComponent) -> (frame: Vec<u8>)
    ensures
        frame@ == message_bytes(MessageValue::InsertComp(id, component@)),
        parse_message(frame@) == Ok::<MessageValue, DecodeError>(
            MessageValue::InsertComp(id, component@),
        ),
{
    let mut out: Vec<u8> = Vec::new();
    out.push(TAG_INSERT_COMP);
    put_u32(&mut out, id);
    put_component(&mut out, component);
    proof {
        assert(out@ =~= message_bytes(MessageValue::InsertComp(id, component@)));
        law_round_trip(MessageValue::InsertComp(id, component@));
    }
    out
}

/// The frame that carries `msg`. It reads back as `msg`.
pub fn encode(msg: &NetMessage) -> (frame: Vec<u8>)
    ensures
        frame@ == message_bytes(msg@),
        parse_message(frame@) == Ok::<MessageValue, DecodeError>(msg@),
{
    match msg {
        NetMessage::NewEnt(id) => encode_new_ent(*id),
        NetMessage::InsertComp(id, component) => encode_insert_comp(*id, component),
    }
}

// ---------------------------------------------------------------------------------------------
// Reading
// ---------------------------------------------------------------------------------------------

/// Calls `String::from_utf8`, which gives the text that `bytes` spell in UTF-8, and nothing
/// where they are not UTF-8.
#[verifier::external_body]
fn text_from_utf8(bytes: Vec<u8>) -> (text: Option<String>)
    ensures
        match text {
            Some(t) => valid_utf8(bytes@) && t@ == decode_utf8(bytes@),
            None => !valid_utf8(bytes@),
        },
{
    String::from_utf8(bytes).ok()
}

fn get_u32(b: &[u8], at: usize) -> (v: u32)
    requires
        at + 4 <= b@.len(),
    ensures
        v == spec_u32_from_le_bytes(b@.subrange(at as int, at + 4)),
{
    let _len: usize = b.len();
    u32_from_le_bytes(slice_subrange(b, at, at + 4))
}

fn get_u64(b: &[u8], at: usize) -> (v: u64)
    requires
        at + 8 <= b@.len(),
    ensures
        v == spec_u64_from_le_bytes(b@.subrange(at as int, at + 8)),
{
    let _len: usize = b.len();
    u64_from_le_bytes(slice_subrange(b, at, at + 8))
}

fn get_vector3(b: &[u8], at: usize) -> (v: Vector3)
    requires
        at + 12 <= b@.len(),
    ensures
        v == vector3_at(b@, at as int),
{
    let _len: usize = b.len();
    Vector3 { x: get_u32(b, at), y: get_u32(b, at + 4), z: get_u32(b, at + 8) }
}

fn get_quaternion(b: &[u8], at: usize) -> (q: Quaternion)
    requires
        at + 16 <= b@.len(),
    ensures
        q == quaternion_at(b@, at as int),
{
    let _len: usize = b.len();
    Quaternion {
        i: get_u32(b, at),
        j: get_u32(b, at + 4),
        k: get_u32(b, at + 8),
        w: get_u32(b, at + 12),
    }
}

fn get_isometry(b: &[u8], at: usize) -> (iso: Isometry)
    requires
        at + 28 <= b@.len(),
    ensures
        iso == isometry_at(b@, at as int),
{
    let _len: usize = b.len();
    Isometry { rotation: get_quaternion(b, at), translation: get_vector3(b, at + 16) }
}

fn get_timestamp(b: &[u8], at: usize) -> (t: Timestamp)
    requires
        at + 12 <= b@.len(),
    ensures
        t == timestamp_at(b@, at as int),
{
    let _len: usize = b.len();
    Timestamp { secs: get_u64(b, at), nanos: get_u32(b, at + 8) }
}

/// What a decoder returns, as a mathematical value.
pub open spec fn component_result(r: Result<NetComponent, DecodeError>) -> Result<
    ComponentValue,
    DecodeError,
> {
    match r {
        Ok(c) => Ok(c@),
        Err(e) => Err(e),
    }
}

/// What a decoder returns, as a mathematical value.
pub open spec fn message_result(r: Result<NetMessage, DecodeError>) -> Result<
    MessageValue,
    DecodeError,
> {
    match r {
        Ok(m) => Ok(m@),
        Err(e) => Err(e),
    }
}

fn fixed_len(tag: u8) -> (n: usize)
    ensures
        n == fixed_body_len(tag),
{
    if tag == TAG_SIMPLE_POSITION {
        28
    } else if tag == TAG_UPDATE_POSITION {
        40
    } else if tag == TAG_LOOKING || tag == TAG_HEADING {
        12
    } else {
        0
    }
}

fn decode_component(b: &[u8], at: usize) -> (r: Result<NetComponent, DecodeError>)
    requires
        at <= b@.len(),
        at <= 5,
    ensures
        component_result(r) == parse_component(b@, at as int),
{
    let len: usize = b.len();
    if len - at < 1 {
        return Err(DecodeError::Truncated);
    }
    let tag: u8 = b[at];
    if tag > TAG_CAMERA {
        return Err(DecodeError::UnknownTag(tag));
    }
    if tag == TAG_APPEARANCE {
        if len - at < 9 {
            return Err(DecodeError::Truncated);
        }
        let n: u64 = get_u64(b, at + 1);
        let rest: usize = len - (at + 9);
        if (rest as u64) < n {
            return Err(DecodeError::Truncated);
        }
        if (rest as u64) > n {
            return Err(DecodeError::TrailingBytes);
        }
        let utf8 = slice_to_vec(slice_subrange(b, at + 9, len));
        return match text_from_utf8(utf8) {
            Some(filepath) => Ok(NetComponent::Appearance(Appearance { filepath })),
            None => Err(DecodeError::InvalidUtf8),
        };
    }
    let need: usize = fixed_len(tag);
    if len - (at + 1) < need {
        return Err(DecodeError::Truncated);
    }
    if len - (at + 1) > need {
        return Err(DecodeError::TrailingBytes);
    }
    if tag == TAG_SIMPLE_POSITION {
        Ok(NetComponent::SimplePosition(SimplePosition { iso: get_isometry(b, at + 1) }))
    } else if tag == TAG_UPDATE_POSITION {
        Ok(
            NetComponent::UpdatePosition(
                UpdatePosition {
                    iso: get_isometry(b, at + 1),
                    time_stamp: get_timestamp(b, at + 29),
                },
            ),
        )
    } else if tag == TAG_LOOKING {
        Ok(NetComponent::Looking(Looking { dir: get_vector3(b, at + 1) }))
    } else if tag == TAG_HEADING {
        Ok(NetComponent::Heading(Heading { dir: get_vector3(b, at + 1) }))
    } else {
        Ok(NetComponent::Camera(Camera))
    }
}

/// Reads the message that `frame` carries. A frame is accepted only if it is, byte for byte,
/// what `encode` writes for some message.
pub fn decode(frame: &[u8]) -> (r: Result<NetMessage, DecodeError>)
    ensures
        message_result(r) == parse_message(frame@),
{
    let len: usize = frame.len();
    if len < 1 {
        return Err(DecodeError::Truncated);
    }
    let tag: u8 = frame[0];
    if tag > TAG_INSERT_COMP {
        return Err(DecodeError::UnknownTag(tag));
    }
    if len < 5 {
        return Err(DecodeError::Truncated);
    }
    let id: u32 = get_u32(frame, 1);
    if tag == TAG_NEW_ENT {
        if len > 5 {
            return Err(DecodeError::TrailingBytes);
        }
        return Ok(NetMessage::NewEnt(id));
    }
    match decode_component(frame, 5) {
        Ok(component) => Ok(NetMessage::InsertComp(id, component)),
        Err(e) => Err(e),
    }
}

// ---------------------------------------------------------------------------------------------
// Laws
// ---------------------------------------------------------------------------------------------

proof fn lemma_vector3_at(b: Seq<u8>, at: int, v: Vector3)
    requires
        0 <= at,
        at + 12 <= b.len(),
        b.subrange(at, at + 12) == vector3_bytes(v),
    ensures
        vector3_at(b, at) == v,
{
    lemma_auto_spec_u32_to_from_le_bytes();
    let part = b.subrange(at, at + 12);
    assert(b.subrange(at, at + 4) =~= part.subrange(0, 4));
    assert(b.subrange(at + 4, at + 8) =~= part.subrange(4, 8));
    assert(b.subrange(at + 8, at + 12) =~= part.subrange(8, 12));
    assert(part.subrange(0, 4) =~= spec_u32_to_le_bytes(v.x));
    assert(part.subrange(4, 8) =~= spec_u32_to_le_bytes(v.y));
    assert(part.subrange(8, 12) =~= spec_u32_to_le_bytes(v.z));
}

proof fn lemma_quaternion_at(b: Seq<u8>, at: int, q: Quaternion)
    requires
        0 <= at,
        at + 16 <= b.len(),
        b.subrange(at, at + 16) == quaternion_bytes(q),
    ensures
        quaternion_at(b, at) == q,
{
    lemma_auto_spec_u32_to_from_le_bytes();
    let part = b.subrange(at, at + 16);
    assert(b.subrange(at, at + 4) =~= part.subrange(0, 4));
    assert(b.subrange(at + 4, at + 8) =~= part.subrange(4, 8));
    assert(b.subrange(at + 8, at + 12) =~= part.subrange(8, 12));
    assert(b.subrange(at + 12, at + 16) =~= part.subrange(12, 16));
    assert(part.subrange(0, 4) =~= spec_u32_to_le_bytes(q.i));
    assert(part.subrange(4, 8) =~= spec_u32_to_le_bytes(q.j));
    assert(part.subrange(8, 12) =~= spec_u32_to_le_bytes(q.k));
    assert(part.subrange(12, 16) =~= spec_u32_to_le_bytes(q.w));
}

proof fn lemma_isometry_len(iso: Isometry)
    ensures
        quaternion_bytes(iso.rotation).len() == 16,
        vector3_bytes(iso.translation).len() == 12,
        isometry_bytes(iso).len() == 28,
{
    lemma_auto_spec_u32_to_from_le_bytes();
}

proof fn lemma_isometry_at(b: Seq<u8>, at: int, iso: Isometry)
    requires
        0 <= at,
        at + 28 <= b.len(),
        b.subrange(at, at + 28) == isometry_bytes(iso),
    ensures
        isometry_at(b, at) == iso,
{
    lemma_isometry_len(iso);
    let part = b.subrange(at, at + 28);
    assert(b.subrange(at, at + 16) =~= part.subrange(0, 16));
    assert(b.subrange(at + 16, at + 28) =~= part.subrange(16, 28));
    assert(part.subrange(0, 16) =~= quaternion_bytes(iso.rotation));
    assert(part.subrange(16, 28) =~= vector3_bytes(iso.translation));
    lemma_quaternion_at(b, at, iso.rotation);
    lemma_vector3_at(b, at + 16, iso.translation);
}

proof fn lemma_timestamp_at(b: Seq<u8>, at: int, t: Timestamp)
    requires
        0 <= at,
        at + 12 <= b.len(),
        b.subrange(at, at + 12) == timestamp_bytes(t),
    ensures
        timestamp_at(b, at) == t,
{
    lemma_auto_spec_u32_to_from_le_bytes();
    lemma_auto_spec_u64_to_from_le_bytes();
    let part = b.subrange(at, at + 12);
    assert(b.subrange(at, at + 8) =~= part.subrange(0, 8));
    assert(b.subrange(at + 8, at + 12) =~= part.subrange(8, 12));
    assert(part.subrange(0, 8) =~= spec_u64_to_le_bytes(t.secs));
    assert(part.subrange(8, 12) =~= spec_u32_to_le_bytes(t.nanos));
}

proof fn lemma_component_round_trip(b: Seq<u8>, at: int, c: ComponentValue)
    requires
        0 <= at <= b.len(),
        b.subrange(at, b.len() as int) == component_bytes(c),
        representable(MessageValue::InsertComp(0, c)),
    ensures
        parse_component(b, at) == Ok::<ComponentValue, DecodeError>(c),
{
    lemma_auto_spec_u32_to_from_le_bytes();
    lemma_auto_spec_u64_to_from_le_bytes();
    let body = component_bytes(c);
    let end = b.len() as int;
    assert(b.subrange(at, end).len() == end - at);
    match c {
        ComponentValue::Appearance(path) => {
            let utf8 = encode_utf8(path);
            let n = utf8.len() as u64;
            assert(body.len() == 9 + utf8.len());
            assert(b[at] == b.subrange(at, end)[0]);
            assert(b.subrange(at + 1, at + 9) =~= body.subrange(1, 9));
            assert(body.subrange(1, 9) =~= spec_u64_to_le_bytes(n));
            assert(b.subrange(at + 9, end) =~= body.subrange(9, body.len() as int));
            assert(body.subrange(9, body.len() as int) =~= utf8);
            encode_utf8_valid_utf8(path);
            encode_utf8_decode_utf8(path);
        },
        ComponentValue::SimplePosition(p) => {
            lemma_isometry_len(p.iso);
            assert(body.len() == 29);
            assert(b[at] == b.subrange(at, end)[0]);
            assert(b.subrange(at + 1, at + 29) =~= body.subrange(1, 29));
            assert(body.subrange(1, 29) =~= isometry_bytes(p.iso));
            lemma_isometry_at(b, at + 1, p.iso);
        },
        ComponentValue::UpdatePosition(u) => {
            lemma_isometry_len(u.iso);
            assert(timestamp_bytes(u.time_stamp).len() == 12);
            assert(body.len() == 41);
            assert(b[at] == b.subrange(at, end)[0]);
            assert(b.subrange(at + 1, at + 29) =~= body.subrange(1, 29));
            assert(body.subrange(1, 29) =~= isometry_bytes(u.iso));
            assert(b.subrange(at + 29, at + 41) =~= body.subrange(29, 41));
            assert(body.subrange(29, 41) =~= timestamp_bytes(u.time_stamp));
            lemma_isometry_at(b, at + 1, u.iso);
            lemma_timestamp_at(b, at + 29, u.time_stamp);
        },
        ComponentValue::Looking(l) => {
            assert(body.len() == 13);
            assert(b[at] == b.subrange(at, end)[0]);
            assert(b.subrange(at + 1, at + 13) =~= body.subrange(1, 13));
            assert(body.subrange(1, 13) =~= vector3_bytes(l.dir));
            lemma_vector3_at(b, at + 1, l.dir);
        },
        ComponentValue::Heading(h) => {
            assert(body.len() == 13);
            assert(b[at] == b.subrange(at, end)[0]);
            assert(b.subrange(at + 1, at + 13) =~= body.subrange(1, 13));
            assert(body.subrange(1, 13) =~= vector3_bytes(h.dir));
            lemma_vector3_at(b, at + 1, h.dir);
        },
        ComponentValue::Camera => {
            assert(body.len() == 1);
            assert(b[at] == b.subrange(at, end)[0]);
        },
    }
}

/// Reading what was written gives back what was written: for every message, of either variant
/// and with a component of any kind, the frame that carries it is read as that message.
pub proof fn law_round_trip(m: MessageValue)
    requires
        representable(m),
    ensures
        parse_message(message_bytes(m)) == Ok::<MessageValue, DecodeError>(m),
{
    lemma_auto_spec_u32_to_from_le_bytes();
    let b = message_bytes(m);
    match m {
        MessageValue::NewEnt(id) => {
            assert(b.subrange(1, 5) =~= spec_u32_to_le_bytes(id));
        },
        MessageValue::InsertComp(id, c) => {
            assert(b.subrange(1, 5) =~= spec_u32_to_le_bytes(id));
            assert(b.subrange(5, b.len() as int) =~= component_bytes(c));
            lemma_component_round_trip(b, 5, c);
        },
    }
}

/// Every component value of every kind survives the wire, whatever entity it is sent for.
pub proof fn law_component_round_trip(id: u32, c: ComponentValue)
    requires
        representable(MessageValue::InsertComp(id, c)),
    ensures
        parse_message(message_bytes(MessageValue::InsertComp(id, c))) == Ok::<
            MessageValue,
            DecodeError,
        >(MessageValue::InsertComp(id, c)),
{
    law_round_trip(MessageValue::InsertComp(id, c));
}

proof fn lemma_vector3_bytes_at(b: Seq<u8>, at: int)
    requires
        0 <= at,
        at + 12 <= b.len(),
    ensures
        vector3_bytes(vector3_at(b, at)) == b.subrange(at, at + 12),
{
    lemma_auto_spec_u32_to_from_le_bytes();
    let v = vector3_at(b, at);
    assert(spec_u32_to_le_bytes(v.x) == b.subrange(at, at + 4));
    assert(spec_u32_to_le_bytes(v.y) == b.subrange(at + 4, at + 8));
    assert(spec_u32_to_le_bytes(v.z) == b.subrange(at + 8, at + 12));
    assert(vector3_bytes(v) =~= b.subrange(at, at + 12));
}

proof fn lemma_quaternion_bytes_at(b: Seq<u8>, at: int)
    requires
        0 <= at,
        at + 16 <= b.len(),
    ensures
        quaternion_bytes(quaternion_at(b, at)) == b.subrange(at, at + 16),
{
    lemma_auto_spec_u32_to_from_le_bytes();
    let q = quaternion_at(b, at);
    assert(spec_u32_to_le_bytes(q.i) == b.subrange(at, at + 4));
    assert(spec_u32_to_le_bytes(q.j) == b.subrange(at + 4, at + 8));
    assert(spec_u32_to_le_bytes(q.k) == b.subrange(at + 8, at + 12));
    assert(spec_u32_to_le_bytes(q.w) == b.subrange(at + 12, at + 16));
    assert(quaternion_bytes(q) =~= b.subrange(at, at + 16));
}

proof fn lemma_isometry_bytes_at(b: Seq<u8>, at: int)
    requires
        0 <= at,
        at + 28 <= b.len(),
    ensures
        isometry_bytes(isometry_at(b, at)) == b.subrange(at, at + 28),
{
    lemma_quaternion_bytes_at(b, at);
    lemma_vector3_bytes_at(b, at + 16);
    assert(isometry_bytes(isometry_at(b, at)) =~= b.subrange(at, at + 28));
}

proof fn lemma_timestamp_bytes_at(b: Seq<u8>, at: int)
    requires
        0 <= at,
        at + 12 <= b.len(),
    ensures
        timestamp_bytes(timestamp_at(b, at)) == b.subrange(at, at + 12),
{
    lemma_auto_spec_u32_to_from_le_bytes();
    lemma_auto_spec_u64_to_from_le_bytes();
    let t = timestamp_at(b, at);
    assert(spec_u64_to_le_bytes(t.secs) == b.subrange(at, at + 8));
    assert(spec_u32_to_le_bytes(t.nanos) == b.subrange(at + 8, at + 12));
    assert(timestamp_bytes(t) =~= b.subrange(at, at + 12));
}

proof fn lemma_component_canonical(b: Seq<u8>, at: int, c: ComponentValue)
    requires
        0 <= at,
        parse_component(b, at) == Ok::<ComponentValue, DecodeError>(c),
    ensures
        at < b.len(),
        component_bytes(c) == b.subrange(at, b.len() as int),
        representable(MessageValue::InsertComp(0, c)),
{
    lemma_auto_spec_u64_to_from_le_bytes();
    let end = b.len() as int;
    let tag: u8 = b[at];
    if tag == TAG_APPEARANCE {
        let utf8 = b.subrange(at + 9, end);
        let n = spec_u64_from_le_bytes(b.subrange(at + 1, at + 9));
        decode_utf8_encode_utf8(utf8);
        assert(utf8.len() as u64 == n);
        assert(spec_u64_to_le_bytes(n) == b.subrange(at + 1, at + 9));
        assert(component_bytes(c) =~= b.subrange(at, end));
    } else if tag == TAG_SIMPLE_POSITION {
        lemma_isometry_bytes_at(b, at + 1);
        assert(component_bytes(c) =~= b.subrange(at, end));
    } else if tag == TAG_UPDATE_POSITION {
        lemma_isometry_bytes_at(b, at + 1);
        lemma_timestamp_bytes_at(b, at + 29);
        assert(component_bytes(c) =~= b.subrange(at, end));
    } else if tag == TAG_LOOKING {
        lemma_vector3_bytes_at(b, at + 1);
        assert(component_bytes(c) =~= b.subrange(at, end));
    } else if tag == TAG_HEADING {
        lemma_vector3_bytes_at(b, at + 1);
        assert(component_bytes(c) =~= b.subrange(at, end));
    } else {
        assert(component_bytes(c) =~= b.subrange(at, end));
    }
}

/// The only frame that is read as a message is the one that carries it: no two frames stand
/// for the same message, and no frame is accepted that `encode` would not have written.
pub proof fn law_accepted_frames_are_canonical(frame: Seq<u8>, m: MessageValue)
    requires
        parse_message(frame) == Ok::<MessageValue, DecodeError>(m),
    ensures
        representable(m),
        message_bytes(m) == frame,
{
    lemma_auto_spec_u32_to_from_le_bytes();
    let id = spec_u32_from_le_bytes(frame.subrange(1, 5));
    assert(spec_u32_to_le_bytes(id) == frame.subrange(1, 5));
    match m {
        MessageValue::NewEnt(_) => {
            assert(message_bytes(m) =~= frame);
        },
        MessageValue::InsertComp(_, c) => {
            lemma_component_canonical(frame, 5, c);
            assert(message_bytes(m) =~= frame);
        },
    }
}

} // verus!
