//! The benchmark messages.
//!
//! A floating-point field is held as its IEEE 754 bit pattern (what
//! `f32::to_bits` gives): every format here stores a `float` as those four
//! bytes, so the codecs need nothing else of it. Two messages are equal when
//! their fields are, floats compared as `f32` values: a NaN equals nothing,
//! and +0 equals -0.

use vstd::prelude::*;

verus! {

/// A player's input for one tick.
#[derive(Clone, Copy, Debug, Default, PartialEq, Eq, Structural)]
pub struct Input {
    pub sequence: u32,
    /// Bit pattern of an `f32`.
    pub move_x: u32,
    /// Bit pattern of an `f32`.
    pub move_z: u32,
    pub jump: bool,
    /// Bit pattern of an `f32`.
    pub look_yaw: u32,
    /// Bit pattern of an `f32`.
    pub look_pitch: u32,
}

/// The position, rotation and look of one entity.
#[derive(Clone, Copy, Debug, Default, PartialEq, Eq, Structural)]
pub struct Transform {
    pub entity_id: u32,
    pub kind: u8,
    pub color: u32,
    /// Bit pattern of an `f32`.
    pub position_x: u32,
    /// Bit pattern of an `f32`.
    pub position_y: u32,
    /// Bit pattern of an `f32`.
    pub position_z: u32,
    /// Bit pattern of an `f32`.
    pub yaw: u32,
    /// Bit pattern of an `f32`.
    pub pitch: u32,
}

/// A numbered batch of transforms.
#[derive(Clone, Debug, Default)]
pub struct TransformBatch {
    pub sequence: u32,
    pub transforms: Vec<Transform>,
}

/// A chat line.
#[derive(Clone, Debug, Default)]
pub struct Chat {
    pub sender_id: u32,
    pub channel: u16,
    pub sent_at_millis: u64,
    pub text: String,
}

/// A player's counters.
#[derive(Clone, Copy, Debug, Default, PartialEq, Eq, Structural)]
pub struct Stats {
    pub player_id: u64,
    pub level: u16,
    pub health: u32,
    pub mana: u32,
    pub gold: u32,
    pub experience: u64,
    pub kills: u32,
    pub deaths: u32,
}

/// What a `TransformBatch` holds.
pub struct TransformBatchView {
    pub sequence: u32,
    pub transforms: Seq<Transform>,
}

/// What a `Chat` holds.
pub struct ChatView {
    pub sender_id: u32,
    pub channel: u16,
    pub sent_at_millis: u64,
    pub text: Seq<char>,
}

/// The bit pattern of an `f32` NaN: every exponent bit set, and a non-zero
/// fraction.
pub open spec fn is_nan_bits(b: u32) -> bool {
    b & 0x7fff_ffff > 0x7f80_0000
}

/// Whether the `f32` values with bit patterns `a` and `b` are equal, as
/// `==` on `f32` (IEEE 754) compares them: a NaN equals nothing, +0 equals
/// -0, and other values are equal when their bits are.
pub open spec fn f32_eq(a: u32, b: u32) -> bool {
    !is_nan_bits(a) && !is_nan_bits(b) && (a == b || (a | b) & 0x7fff_ffff == 0)
}

/// `==` on the `f32` values with bit patterns `a` and `b`.
pub fn f32_bits_eq(a: u32, b: u32) -> (r: bool)
    ensures
        r == f32_eq(a, b),
{
    (a & 0x7fff_ffff) <= 0x7f80_0000 && (b & 0x7fff_ffff) <= 0x7f80_0000 && (a == b || (a | b)
        & 0x7fff_ffff == 0)
}

pub open spec fn input_eq(a: Input, b: Input) -> bool {
    &&& a.sequence == b.sequence
    &&& f32_eq(a.move_x, b.move_x)
    &&& f32_eq(a.move_z, b.move_z)
    &&& a.jump == b.jump
    &&& f32_eq(a.look_yaw, b.look_yaw)
    &&& f32_eq(a.look_pitch, b.look_pitch)
}

pub open spec fn transform_eq(a: Transform, b: Transform) -> bool {
    &&& a.entity_id == b.entity_id
    &&& a.kind == b.kind
    &&& a.color == b.color
    &&& f32_eq(a.position_x, b.position_x)
    &&& f32_eq(a.position_y, b.position_y)
    &&& f32_eq(a.position_z, b.position_z)
    &&& f32_eq(a.yaw, b.yaw)
    &&& f32_eq(a.pitch, b.pitch)
}

pub open spec fn batch_eq(a: TransformBatchView, b: TransformBatchView) -> bool {
    &&& a.sequence == b.sequence
    &&& a.transforms.len() == b.transforms.len()
    &&& forall|i: int|
        0 <= i < a.transforms.len() ==> transform_eq(#[trigger] a.transforms[i], b.transforms[i])
}

/// `==` on two inputs.
pub fn input_same(a: &Input, b: &Input) -> (r: bool)
    ensures
        r == input_eq(*a, *b),
{
    a.sequence == b.sequence && f32_bits_eq(a.move_x, b.move_x) && f32_bits_eq(a.move_z, b.move_z)
        && a.jump == b.jump && f32_bits_eq(a.look_yaw, b.look_yaw) && f32_bits_eq(
        a.look_pitch,
        b.look_pitch,
    )
}

/// `==` on two transforms.
pub fn transform_same(a: &Transform, b: &Transform) -> (r: bool)
    ensures
        r == transform_eq(*a, *b),
{
    a.entity_id == b.entity_id && a.kind == b.kind && a.color == b.color && f32_bits_eq(
        a.position_x,
        b.position_x,
    ) && f32_bits_eq(a.position_y, b.position_y) && f32_bits_eq(a.position_z, b.position_z)
        && f32_bits_eq(a.yaw, b.yaw) && f32_bits_eq(a.pitch, b.pitch)
}

impl View for Input {
    type V = Input;

    open spec fn view(&self) -> Input {
        *self
    }
}

impl View for Transform {
    type V = Transform;

    open spec fn view(&self) -> Transform {
        *self
    }
}

impl View for Stats {
    type V = Stats;

    open spec fn view(&self) -> Stats {
        *self
    }
}

impl View for TransformBatch {
    type V = TransformBatchView;

    open spec fn view(&self) -> TransformBatchView {
        TransformBatchView { sequence: self.sequence, transforms: self.transforms@ }
    }
}

impl View for Chat {
    type V = ChatView;

    open spec fn view(&self) -> ChatView {
        ChatView {
            sender_id: self.sender_id,
            channel: self.channel,
            sent_at_millis: self.sent_at_millis,
            text: self.text@,
        }
    }
}

// ---------------------------------------------------------------- laws of equality

/// `f32` equality on bit patterns: a NaN (every exponent bit set and a
/// non-zero fraction) equals nothing, every other value equals itself, +0
/// and -0 are equal, and no two other different patterns are; it is
/// symmetric.
pub proof fn lemma_f32_eq(a: u32, b: u32)
    ensures
        is_nan_bits(a) <==> ((a >> 23) & 0xff == 0xff && a & 0x7f_ffff != 0),
        is_nan_bits(a) ==> !f32_eq(a, b),
        !is_nan_bits(a) ==> f32_eq(a, a),
        f32_eq(a, b) == f32_eq(b, a),
        f32_eq(0, 0x8000_0000),
        f32_eq(a, b) && a != b ==> (a == 0 && b == 0x8000_0000) || (a == 0x8000_0000 && b == 0),
{
    assert((((a & 0x7fff_ffff) > 0x7f80_0000) <==> ((a >> 23) & 0xff == 0xff && a & 0x7f_ffff
        != 0)) && ((a | b) & 0x7fff_ffff == 0 && a != b ==> (a == 0 && b == 0x8000_0000) || (a
        == 0x8000_0000 && b == 0)) && (a | b) == (b | a) && (0u32 | 0x8000_0000u32) & 0x7fff_ffff
        == 0 && (0u32 & 0x7fff_ffff) <= 0x7f80_0000 && (0x8000_0000u32 & 0x7fff_ffff)
        <= 0x7f80_0000) by (bit_vector);
}

/// Two inputs are equal only where sequence and jump are equal and each
/// float field is equal as an `f32`; where all that holds, they are equal.
/// So inputs that differ in sequence are never equal.
pub proof fn lemma_input_eq(a: Input, b: Input)
    ensures
        input_eq(a, b) ==> a.sequence == b.sequence && a.jump == b.jump,
        input_eq(a, b) ==> f32_eq(a.move_x, b.move_x) && f32_eq(a.move_z, b.move_z) && f32_eq(
            a.look_yaw,
            b.look_yaw,
        ) && f32_eq(a.look_pitch, b.look_pitch),
        a.sequence == b.sequence && a.jump == b.jump && f32_eq(a.move_x, b.move_x) && f32_eq(
            a.move_z,
            b.move_z,
        ) && f32_eq(a.look_yaw, b.look_yaw) && f32_eq(a.look_pitch, b.look_pitch) ==> input_eq(
            a,
            b,
        ),
{
}

/// Two transforms are equal only where entity_id, kind and color are equal
/// and each float field is equal as an `f32`; where all that holds, they
/// are equal.
pub proof fn lemma_transform_eq(a: Transform, b: Transform)
    ensures
        transform_eq(a, b) ==> a.entity_id == b.entity_id && a.kind == b.kind && a.color
            == b.color,
        transform_eq(a, b) ==> f32_eq(a.position_x, b.position_x) && f32_eq(
            a.position_y,
            b.position_y,
        ) && f32_eq(a.position_z, b.position_z) && f32_eq(a.yaw, b.yaw) && f32_eq(a.pitch, b.pitch),
        a.entity_id == b.entity_id && a.kind == b.kind && a.color == b.color && f32_eq(
            a.position_x,
            b.position_x,
        ) && f32_eq(a.position_y, b.position_y) && f32_eq(a.position_z, b.position_z) && f32_eq(
            a.yaw,
            b.yaw,
        ) && f32_eq(a.pitch, b.pitch) ==> transform_eq(a, b),
{
}

/// Two batches are equal only where their sequences and lengths are equal
/// and their transforms are equal pairwise; where all that holds, they are
/// equal.
pub proof fn lemma_batch_eq(a: TransformBatchView, b: TransformBatchView)
    ensures
        batch_eq(a, b) ==> a.sequence == b.sequence && a.transforms.len() == b.transforms.len(),
        batch_eq(a, b) ==> forall|i: int|
            0 <= i < a.transforms.len() ==> transform_eq(
                #[trigger] a.transforms[i],
                b.transforms[i],
            ),
        a.sequence == b.sequence && a.transforms.len() == b.transforms.len() && (forall|i: int|
            0 <= i < a.transforms.len() ==> transform_eq(#[trigger] a.transforms[i], b.transforms[i]))
            ==> batch_eq(a, b),
{
}

} // verus!

