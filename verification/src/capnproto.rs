//! The Cap'n Proto encoding of the benchmark messages, as this project's
//! schema lays them out: each message is one root struct; fields sit at
//! their natural width inside 64-bit little-endian words, in the slots that
//! the schema compiler assigns them; a struct list is an inline-composite
//! list with a tag word; text is a byte list that ends in a NUL and is
//! padded to a whole word.
//!
//! The library writes the segments of a message as a builder whose first
//! segment holds `SEGMENT_WORDS` words lays them out: a batch list or a chat
//! text that no longer fits there goes to a second segment, reached by a far
//! pointer. Its reader follows single and double far pointers across
//! segments, takes a struct list sent as a list of primitives or of
//! pointers, as Cap'n Proto allows, reads structs of other sizes (missing
//! fields read as zero), and charges what it reads to the traversal limit
//! of `capnp`'s default reader options. The segment table, and
//! canonicalization with the canonical-form check, are left to the `capnp`
//! crate.

use vstd::prelude::*;
use vstd::utf8::*;
use crate::bytes::{get32, get64, le32, le64, push64, read32, read64};
use crate::bytes::{lemma_read32_le32, lemma_read64_le64};
use crate::messages::{Chat, ChatView, Input, Stats, Transform, TransformBatch, TransformBatchView};
use crate::text::utf8_str;

verus! {

broadcast use {vstd::utf8::encode_utf8_valid_utf8, vstd::utf8::encode_utf8_decode_utf8};

/// The words of the first segment that each builder writes into; a message
/// that outgrows it continues in a second segment.
pub const SEGMENT_WORDS: usize = 8192;

/// The largest segment, in words, that a reader accepts (the default
/// traversal limit of `capnp::message::ReaderOptions`).
pub const TRAVERSAL_LIMIT_WORDS: u64 = 8388608;

/// Element size code of a byte list.
pub const BYTE_ELEMENTS: u32 = 2;

/// Element size code of an inline-composite (struct) list.
pub const COMPOSITE_ELEMENTS: u32 = 7;

// ---------------------------------------------------------------- words

pub open spec fn lo32(w: u64) -> u32 {
    (w & 0xffff_ffff) as u32
}

pub open spec fn hi32(w: u64) -> u32 {
    (w >> 32) as u32
}

/// The word whose low half is `lo` and whose high half is `hi`.
pub open spec fn pack(lo: u32, hi: u32) -> u64 {
    (lo as u64) | ((hi as u64) << 32)
}

pub proof fn lemma_pack(lo: u32, hi: u32)
    ensures
        lo32(pack(lo, hi)) == lo,
        hi32(pack(lo, hi)) == hi,
        (pack(lo, hi) == 0) == (lo == 0 && hi == 0),
{
    assert(((((lo as u64) | ((hi as u64) << 32)) & 0xffff_ffff) as u32) == lo && ((((lo as u64)
        | ((hi as u64) << 32)) >> 32) as u32) == hi && ((((lo as u64) | ((hi as u64) << 32)) == 0)
        == (lo == 0 && hi == 0))) by (bit_vector);
}

pub open spec fn bool32(b: bool) -> u32 {
    if b {
        1
    } else {
        0
    }
}

/// A struct pointer to the object right after it.
pub open spec fn struct_pointer(data: u16, ptrs: u16) -> u64 {
    pack(0, (data as u32) | ((ptrs as u32) << 16))
}

/// A list pointer to the object right after it.
pub open spec fn list_pointer(elements: u32, count: u32) -> u64 {
    pack(1, elements | (count << 3))
}

/// The tag word of an inline-composite list of `count` elements.
pub open spec fn composite_tag(count: u32, data: u16, ptrs: u16) -> u64 {
    pack(count << 2, (data as u32) | ((ptrs as u32) << 16))
}

pub open spec fn ptr_kind(w: u64) -> u32 {
    lo32(w) & 3
}

/// The signed 30-bit word offset of a pointer.
pub open spec fn ptr_offset(w: u64) -> int {
    let raw = (lo32(w) >> 2) as int;
    if raw >= 0x2000_0000 {
        raw - 0x4000_0000
    } else {
        raw
    }
}

pub open spec fn struct_data_words(w: u64) -> u32 {
    hi32(w) & 0xffff
}

pub open spec fn struct_ptr_count(w: u64) -> u32 {
    hi32(w) >> 16
}

pub open spec fn list_elements(w: u64) -> u32 {
    hi32(w) & 7
}

pub open spec fn list_count(w: u64) -> u32 {
    hi32(w) >> 3
}

pub open spec fn tag_count(w: u64) -> u32 {
    lo32(w) >> 2
}

pub proof fn lemma_struct_pointer(data: u16, ptrs: u16)
    ensures
        ptr_kind(struct_pointer(data, ptrs)) == 0,
        ptr_offset(struct_pointer(data, ptrs)) == 0,
        struct_data_words(struct_pointer(data, ptrs)) == data,
        struct_ptr_count(struct_pointer(data, ptrs)) == ptrs,
        (struct_pointer(data, ptrs) == 0) == (data == 0 && ptrs == 0),
{
    let h = (data as u32) | ((ptrs as u32) << 16);
    lemma_pack(0, h);
    assert(h & 0xffff == data as u32 && h >> 16 == ptrs as u32 && (h == 0) == (data == 0 && ptrs
        == 0)) by (bit_vector)
        requires
            h == (data as u32) | ((ptrs as u32) << 16),
    ;
    assert((0u32 & 3) == 0 && (0u32 >> 2) == 0) by (bit_vector);
}

pub proof fn lemma_list_pointer(elements: u32, count: u32)
    requires
        elements < 8,
        count < 0x2000_0000,
    ensures
        ptr_kind(list_pointer(elements, count)) == 1,
        ptr_offset(list_pointer(elements, count)) == 0,
        list_elements(list_pointer(elements, count)) == elements,
        list_count(list_pointer(elements, count)) == count,
        list_pointer(elements, count) != 0,
{
    let h = elements | (count << 3);
    lemma_pack(1, h);
    assert(h & 7 == elements && h >> 3 == count) by (bit_vector)
        requires
            h == elements | (count << 3),
            elements < 8,
            count < 0x2000_0000,
    ;
    assert((1u32 & 3) == 1 && (1u32 >> 2) == 0) by (bit_vector);
}

pub proof fn lemma_composite_tag(count: u32, data: u16, ptrs: u16)
    requires
        count < 0x4000_0000,
    ensures
        ptr_kind(composite_tag(count, data, ptrs)) == 0,
        tag_count(composite_tag(count, data, ptrs)) == count,
        struct_data_words(composite_tag(count, data, ptrs)) == data,
        struct_ptr_count(composite_tag(count, data, ptrs)) == ptrs,
{
    let l = count << 2;
    let h = (data as u32) | ((ptrs as u32) << 16);
    lemma_pack(l, h);
    assert(l & 3 == 0 && l >> 2 == count) by (bit_vector)
        requires
            l == count << 2,
            count < 0x4000_0000,
    ;
    assert(h & 0xffff == data as u32 && h >> 16 == ptrs as u32) by (bit_vector)
        requires
            h == (data as u32) | ((ptrs as u32) << 16),
    ;
}

// ---------------------------------------------------------------- segments

/// The `i`-th word of a segment.
pub open spec fn word(s: Seq<u8>, i: int) -> u64 {
    read64(s, 8 * i)
}

pub open spec fn nwords(s: Seq<u8>) -> int {
    s.len() as int / 8
}

/// Where a struct sits in a message: its segment, its first word there, and
/// the sizes of its data and pointer sections. A null pointer reads as an
/// empty struct.
pub struct StructAt {
    pub seg: usize,
    pub start: usize,
    pub data: usize,
    pub ptrs: usize,
}

pub open spec fn empty_struct() -> StructAt {
    StructAt { seg: 0, start: 0, data: 0, ptrs: 0 }
}

/// The word a pointer at word `p`, holding `w`, points at.
pub open spec fn target(p: int, w: u64) -> int {
    p + 1 + ptr_offset(w)
}

/// A far pointer's landing pad is two words (a far pointer to the object,
/// then a tag that describes it) rather than one.
pub open spec fn far_double(w: u64) -> bool {
    (lo32(w) >> 2) & 1 == 1
}

/// The word of a far pointer's landing pad in its segment.
pub open spec fn far_position(w: u64) -> int {
    (lo32(w) >> 3) as int
}

/// The segment of a far pointer's landing pad.
pub open spec fn far_segment(w: u64) -> int {
    hi32(w) as int
}

/// What a pointer leads to once a far pointer is followed: the object's
/// segment, the word that describes the object (the pointer itself, its
/// landing pad, or the tag after a double landing pad), and the object's
/// first word.
pub struct Link {
    pub seg: int,
    pub w: u64,
    pub start: int,
}

/// The pointer at word `p` of segment `g` is not far, or is a far pointer
/// whose landing pad lies within a segment of the message (and, when the
/// pad is double, names a segment of the message).
pub open spec fn far_ok(m: Seq<Seq<u8>>, g: int, p: int) -> bool {
    let w = word(m[g], p);
    ptr_kind(w) != 2 || {
        let id = far_segment(w);
        let pos = far_position(w);
        &&& id < m.len()
        &&& pos + (if far_double(w) {
            2int
        } else {
            1int
        }) <= nwords(m[id])
        &&& far_double(w) ==> far_segment(word(m[id], pos)) < m.len()
    }
}

/// Where the pointer at word `p` of segment `g` leads.
pub open spec fn link(m: Seq<Seq<u8>>, g: int, p: int) -> Link {
    let w = word(m[g], p);
    if ptr_kind(w) != 2 {
        Link { seg: g, w: w, start: target(p, w) }
    } else {
        let id = far_segment(w);
        let pos = far_position(w);
        let pad = word(m[id], pos);
        if !far_double(w) {
            Link { seg: id, w: pad, start: target(pos, pad) }
        } else {
            Link { seg: far_segment(pad), w: word(m[id], pos + 1), start: far_position(pad) }
        }
    }
}

/// The word at `p` of segment `g` is null, or a struct pointer (perhaps
/// through a far pointer) whose struct lies within its segment.
pub open spec fn struct_pointer_ok(m: Seq<Seq<u8>>, g: int, p: int) -> bool {
    word(m[g], p) == 0 || (far_ok(m, g, p) && {
        let x = link(m, g, p);
        &&& ptr_kind(x.w) == 0
        &&& 0 <= x.start
        &&& x.start + struct_data_words(x.w) + struct_ptr_count(x.w) <= nwords(m[x.seg])
    })
}

pub open spec fn struct_at(m: Seq<Seq<u8>>, g: int, p: int) -> StructAt {
    if word(m[g], p) == 0 {
        empty_struct()
    } else {
        let x = link(m, g, p);
        StructAt {
            seg: x.seg as usize,
            start: x.start as usize,
            data: struct_data_words(x.w) as usize,
            ptrs: struct_ptr_count(x.w) as usize,
        }
    }
}

/// The `i`-th data word of a struct; a word past its data section reads as 0.
pub open spec fn data_word(m: Seq<Seq<u8>>, r: StructAt, i: int) -> u64 {
    if i < r.data {
        word(m[r.seg as int], r.start + i)
    } else {
        0
    }
}

/// The struct's first pointer is missing or null.
pub open spec fn first_pointer_null(m: Seq<Seq<u8>>, r: StructAt) -> bool {
    r.ptrs == 0 || word(m[r.seg as int], r.start + r.data) == 0
}

/// Where the struct's first pointer leads.
pub open spec fn first_link(m: Seq<Seq<u8>>, r: StructAt) -> Link {
    link(m, r.seg as int, r.start + r.data)
}

pub open spec fn first_far_ok(m: Seq<Seq<u8>>, r: StructAt) -> bool {
    far_ok(m, r.seg as int, r.start + r.data)
}

/// The message's first segment holds the root pointer, which is null or
/// leads to a struct within its segment.
pub open spec fn root_ok(m: Seq<Seq<u8>>) -> bool {
    m.len() >= 1 && nwords(m[0]) >= 1 && struct_pointer_ok(m, 0, 0)
}

pub open spec fn root(m: Seq<Seq<u8>>) -> StructAt {
    struct_at(m, 0, 0)
}

/// The struct's first pointer is null, or leads to NUL-terminated text
/// within its segment.
pub open spec fn text_ok(m: Seq<Seq<u8>>, r: StructAt) -> bool {
    first_pointer_null(m, r) || (first_far_ok(m, r) && {
        let x = first_link(m, r);
        let s = m[x.seg];
        let n = list_count(x.w) as int;
        &&& ptr_kind(x.w) == 1
        &&& list_elements(x.w) == BYTE_ELEMENTS
        &&& 0 <= x.start
        &&& x.start + (n + 7) / 8 <= nwords(s)
        &&& n >= 1
        &&& s[8 * x.start + n - 1] == 0
    })
}

/// The bytes of that text, without the NUL.
pub open spec fn text_bytes(m: Seq<Seq<u8>>, r: StructAt) -> Seq<u8> {
    if first_pointer_null(m, r) {
        Seq::empty()
    } else {
        let x = first_link(m, r);
        m[x.seg].subrange(8 * x.start, 8 * x.start + list_count(x.w) - 1)
    }
}

/// The struct's first pointer is null, or leads to an inline-composite
/// list whose tag and elements lie within its segment, of no more elements
/// than the reader's traversal limit (which bounds lists of empty structs).
pub open spec fn composite_list_ok(m: Seq<Seq<u8>>, r: StructAt) -> bool {
    first_pointer_null(m, r) || (first_far_ok(m, r) && {
        let x = first_link(m, r);
        let s = m[x.seg];
        let tag = word(s, x.start);
        &&& ptr_kind(x.w) == 1
        &&& list_elements(x.w) == COMPOSITE_ELEMENTS
        &&& 0 <= x.start
        &&& x.start + 1 + list_count(x.w) <= nwords(s)
        &&& ptr_kind(tag) == 0
        &&& tag_count(tag) * (struct_data_words(tag) + struct_ptr_count(tag)) <= list_count(x.w)
        &&& tag_count(tag) <= TRAVERSAL_LIMIT_WORDS
    })
}

/// The data bytes of each element of a list that is not inline-composite,
/// read as a struct: one, two, four or eight for a list of bytes, halves,
/// words or double words; none for a list of voids or of pointers.
pub open spec fn element_data_bytes(elements: u32) -> int {
    if elements == 2 {
        1
    } else if elements == 3 {
        2
    } else if elements == 4 {
        4
    } else if elements == 5 {
        8
    } else {
        0
    }
}

/// The bytes from one element of such a list to the next.
pub open spec fn element_step_bytes(elements: u32) -> int {
    if elements == 6 {
        8
    } else {
        element_data_bytes(elements)
    }
}

/// The struct's first pointer leads to a list that is neither a bit list
/// nor inline-composite (a struct list may be read from any such list),
/// whose elements lie within its segment; a list of voids holds no more
/// elements than the reader's traversal limit.
pub open spec fn plain_list_ok(m: Seq<Seq<u8>>, r: StructAt) -> bool {
    !first_pointer_null(m, r) && first_far_ok(m, r) && {
        let x = first_link(m, r);
        let n = list_count(x.w) as int;
        &&& ptr_kind(x.w) == 1
        &&& list_elements(x.w) != 1
        &&& list_elements(x.w) != COMPOSITE_ELEMENTS
        &&& 0 <= x.start
        &&& x.start + (n * element_step_bytes(list_elements(x.w)) + 7) / 8 <= nwords(m[x.seg])
        &&& (list_elements(x.w) == 0 ==> n <= TRAVERSAL_LIMIT_WORDS)
    }
}

/// The struct's first pointer is null or leads to a list that can be read
/// as a list of structs.
pub open spec fn list_ok(m: Seq<Seq<u8>>, r: StructAt) -> bool {
    composite_list_ok(m, r) || plain_list_ok(m, r)
}

/// The struct's first pointer is null or leads to an inline-composite list.
pub open spec fn composite_or_null(m: Seq<Seq<u8>>, r: StructAt) -> bool {
    first_pointer_null(m, r) || list_elements(first_link(m, r).w) == COMPOSITE_ELEMENTS
}

/// The tag word of that list.
pub open spec fn list_tag(m: Seq<Seq<u8>>, r: StructAt) -> u64 {
    let x = first_link(m, r);
    word(m[x.seg], x.start)
}

pub open spec fn list_len(m: Seq<Seq<u8>>, r: StructAt) -> nat {
    if first_pointer_null(m, r) {
        0
    } else if composite_or_null(m, r) {
        tag_count(list_tag(m, r)) as nat
    } else {
        list_count(first_link(m, r).w) as nat
    }
}

/// The `i`-th element of an inline-composite list.
pub open spec fn element(m: Seq<Seq<u8>>, r: StructAt, i: int) -> StructAt {
    let x = first_link(m, r);
    let tag = list_tag(m, r);
    let size = struct_data_words(tag) + struct_ptr_count(tag);
    StructAt {
        seg: x.seg as usize,
        start: (x.start + 1 + i * size) as usize,
        data: struct_data_words(tag) as usize,
        ptrs: struct_ptr_count(tag) as usize,
    }
}

/// The first data word of a struct whose data section is the `k` bytes at
/// `s[at]` (`k` is 0, 1, 2, 4 or 8). A field reads as zero unless the data
/// section holds all of it, so a transform reads its entity id from four
/// bytes or more, its kind from eight, and nothing from fewer than four.
pub open spec fn narrow_word(s: Seq<u8>, at: int, k: int) -> u64 {
    if k == 8 {
        read64(s, at)
    } else if k == 4 {
        read32(s, at) as u64
    } else {
        0
    }
}

/// A transform whose data section is the single word `w0`, or less of it:
/// its other fields read as zero.
pub open spec fn transform_of_word(w0: u64) -> Transform {
    Transform {
        entity_id: lo32(w0),
        kind: (hi32(w0) & 0xff) as u8,
        color: 0,
        position_x: 0,
        position_y: 0,
        position_z: 0,
        yaw: 0,
        pitch: 0,
    }
}

/// The `i`-th transform of the list that a struct's first pointer leads to.
pub open spec fn transform_element(m: Seq<Seq<u8>>, r: StructAt, i: int) -> Transform {
    if composite_or_null(m, r) {
        transform_of(m, element(m, r, i))
    } else {
        let x = first_link(m, r);
        let e = list_elements(x.w);
        transform_of_word(
            narrow_word(m[x.seg], 8 * x.start + i * element_step_bytes(e), element_data_bytes(e)),
        )
    }
}

// ---------------------------------------------------------------- the reader's traversal limit

/// The words that following the pointer at word `p` of segment `g` charges
/// to the reader's traversal limit before its object: a far pointer's
/// landing pad, of one or two words.
pub open spec fn pad_charge(m: Seq<Seq<u8>>, g: int, p: int) -> int {
    let w = word(m[g], p);
    if ptr_kind(w) != 2 {
        0
    } else if far_double(w) {
        2
    } else {
        1
    }
}

/// The words that reading the root struct charges: the root pointer, a
/// landing pad, and the struct.
pub open spec fn root_charge(m: Seq<Seq<u8>>) -> int {
    if word(m[0], 0) == 0 {
        1
    } else {
        let w = link(m, 0, 0).w;
        1 + pad_charge(m, 0, 0) + struct_data_words(w) + struct_ptr_count(w)
    }
}

/// The words that reading text through a struct's first pointer charges: a
/// landing pad, and the text's words.
pub open spec fn text_charge(m: Seq<Seq<u8>>, r: StructAt) -> int {
    if first_pointer_null(m, r) {
        0
    } else {
        pad_charge(m, r.seg as int, r.start + r.data) + (list_count(first_link(m, r).w) + 7) / 8
    }
}

/// The words that reading a list through a struct's first pointer charges:
/// a landing pad, the list's words (with the tag of an inline-composite
/// list), and, for a list of empty structs or of voids, one per element.
pub open spec fn list_charge(m: Seq<Seq<u8>>, r: StructAt) -> int {
    if first_pointer_null(m, r) {
        0
    } else {
        let x = first_link(m, r);
        let pad = pad_charge(m, r.seg as int, r.start + r.data);
        let n = list_count(x.w) as int;
        let e = list_elements(x.w);
        if e == COMPOSITE_ELEMENTS {
            let tag = word(m[x.seg], x.start);
            pad + n + 1 + if struct_data_words(tag) + struct_ptr_count(tag) == 0 {
                tag_count(tag) as int
            } else {
                0
            }
        } else {
            pad + (n * element_step_bytes(e) + 7) / 8 + if e == 0 {
                n
            } else {
                0
            }
        }
    }
}

// ---------------------------------------------------------------- messages read from segments

pub open spec fn input_of(m: Seq<Seq<u8>>, r: StructAt) -> Input {
    Input {
        sequence: lo32(data_word(m, r, 0)),
        move_x: hi32(data_word(m, r, 0)),
        move_z: lo32(data_word(m, r, 1)),
        jump: hi32(data_word(m, r, 1)) & 1 == 1,
        look_yaw: lo32(data_word(m, r, 2)),
        look_pitch: hi32(data_word(m, r, 2)),
    }
}

pub open spec fn transform_of(m: Seq<Seq<u8>>, r: StructAt) -> Transform {
    Transform {
        entity_id: lo32(data_word(m, r, 0)),
        kind: (hi32(data_word(m, r, 0)) & 0xff) as u8,
        color: lo32(data_word(m, r, 1)),
        position_x: hi32(data_word(m, r, 1)),
        position_y: lo32(data_word(m, r, 2)),
        position_z: hi32(data_word(m, r, 2)),
        yaw: lo32(data_word(m, r, 3)),
        pitch: hi32(data_word(m, r, 3)),
    }
}

pub open spec fn stats_of(m: Seq<Seq<u8>>, r: StructAt) -> Stats {
    Stats {
        player_id: data_word(m, r, 0),
        level: (lo32(data_word(m, r, 1)) & 0xffff) as u16,
        health: hi32(data_word(m, r, 1)),
        mana: lo32(data_word(m, r, 2)),
        gold: hi32(data_word(m, r, 2)),
        experience: data_word(m, r, 3),
        kills: lo32(data_word(m, r, 4)),
        deaths: hi32(data_word(m, r, 4)),
    }
}

/// What reading an `Input` from a message's segments gives.
pub open spec fn input_from_segments(m: Seq<Seq<u8>>) -> Option<Input> {
    if root_ok(m) && root_charge(m) <= TRAVERSAL_LIMIT_WORDS {
        Some(input_of(m, root(m)))
    } else {
        None
    }
}

pub open spec fn transform_from_segments(m: Seq<Seq<u8>>) -> Option<Transform> {
    if root_ok(m) && root_charge(m) <= TRAVERSAL_LIMIT_WORDS {
        Some(transform_of(m, root(m)))
    } else {
        None
    }
}

pub open spec fn stats_from_segments(m: Seq<Seq<u8>>) -> Option<Stats> {
    if root_ok(m) && root_charge(m) <= TRAVERSAL_LIMIT_WORDS {
        Some(stats_of(m, root(m)))
    } else {
        None
    }
}

pub open spec fn batch_from_segments(m: Seq<Seq<u8>>) -> Option<TransformBatchView> {
    if root_ok(m) && list_ok(m, root(m)) && root_charge(m) + list_charge(m, root(m))
        <= TRAVERSAL_LIMIT_WORDS {
        let r = root(m);
        Some(
            TransformBatchView {
                sequence: lo32(data_word(m, r, 0)),
                transforms: Seq::new(list_len(m, r), |i: int| transform_element(m, r, i)),
            },
        )
    } else {
        None
    }
}

pub open spec fn chat_from_segments(m: Seq<Seq<u8>>) -> Option<ChatView> {
    if root_ok(m) && text_ok(m, root(m)) && root_charge(m) + text_charge(m, root(m))
        <= TRAVERSAL_LIMIT_WORDS && valid_utf8(text_bytes(m, root(m))) {
        let r = root(m);
        Some(
            ChatView {
                sender_id: lo32(data_word(m, r, 0)),
                channel: (hi32(data_word(m, r, 0)) & 0xffff) as u16,
                sent_at_millis: data_word(m, r, 1),
                text: decode_utf8(text_bytes(m, r)),
            },
        )
    } else {
        None
    }
}

/// Whatever the library's readers read from the one-segment message `a`,
/// they read the same from the one-segment message `b`.
pub open spec fn reads_alike(a: Seq<u8>, b: Seq<u8>) -> bool {
    let ma = seq![a];
    let mb = seq![b];
    &&& input_from_segments(ma) is Some ==> input_from_segments(mb) == input_from_segments(ma)
    &&& transform_from_segments(ma) is Some ==> transform_from_segments(mb)
        == transform_from_segments(ma)
    &&& stats_from_segments(ma) is Some ==> stats_from_segments(mb) == stats_from_segments(ma)
    &&& batch_from_segments(ma) is Some ==> batch_from_segments(mb) == batch_from_segments(ma)
    &&& chat_from_segments(ma) is Some ==> chat_from_segments(mb) == chat_from_segments(ma)
}

// ---------------------------------------------------------------- framing

/// The segment sizes of a message, in words, as little-endian `u32`s.
pub open spec fn size_table(m: Seq<Seq<u8>>) -> Seq<u8>
    decreases m.len(),
{
    if m.len() == 0 {
        Seq::empty()
    } else {
        size_table(m.drop_last()) + le32((m.last().len() / 8) as u32)
    }
}

/// The segments of a message, one after the other.
pub open spec fn joined(m: Seq<Seq<u8>>) -> Seq<u8>
    decreases m.len(),
{
    if m.len() == 0 {
        Seq::empty()
    } else {
        joined(m.drop_last()) + m.last()
    }
}

/// The standard serialization of a message: the segment count less one,
/// each segment's size in words, four zero bytes when that table would end
/// mid-word, then the segments.
pub open spec fn frame_of(m: Seq<Seq<u8>>) -> Seq<u8> {
    le32((m.len() - 1) as u32) + size_table(m) + (if m.len() % 2 == 0 {
        le32(0)
    } else {
        Seq::empty()
    }) + joined(m)
}

/// The bytes of a segment table of `c` segments.
pub open spec fn table_bytes(c: int) -> int {
    4 * (c + 1) + if c % 2 == 0 {
        4int
    } else {
        0int
    }
}

/// The words of the segments before the `i`-th, as the table gives them.
pub open spec fn words_before(s: Seq<u8>, i: int) -> int
    decreases i,
{
    if i <= 0 {
        0
    } else {
        words_before(s, i - 1) + read32(s, 4 * i)
    }
}

/// The segments of a serialized message, as `capnp` reads them from a flat
/// slice: fewer than 512 segments, no more words in all than the reader's
/// traversal limit, and all of them present. Bytes after the message are
/// not read.
pub open spec fn framed_segments(s: Seq<u8>) -> Option<Seq<Seq<u8>>> {
    if s.len() < 4 || read32(s, 0) >= 511 {
        None
    } else {
        let c = read32(s, 0) + 1;
        let h = table_bytes(c);
        if s.len() < h || words_before(s, c) > TRAVERSAL_LIMIT_WORDS || s.len() < h + 8
            * words_before(s, c) {
            None
        } else {
            Some(
                Seq::new(
                    c as nat,
                    |i: int| s.subrange(h + 8 * words_before(s, i), h + 8 * words_before(s, i + 1)),
                ),
            )
        }
    }
}

// ---------------------------------------------------------------- the segments the library writes

pub open spec fn input_segment(m: Input) -> Seq<u8> {
    le64(struct_pointer(3, 0)) + le64(pack(m.sequence, m.move_x)) + le64(
        pack(m.move_z, bool32(m.jump)),
    ) + le64(pack(m.look_yaw, m.look_pitch))
}

/// The data section of a transform.
pub open spec fn transform_data(t: Transform) -> Seq<u8> {
    le64(pack(t.entity_id, t.kind as u32)) + le64(pack(t.color, t.position_x)) + le64(
        pack(t.position_y, t.position_z),
    ) + le64(pack(t.yaw, t.pitch))
}

pub open spec fn transform_segment(t: Transform) -> Seq<u8> {
    le64(struct_pointer(4, 0)) + transform_data(t)
}

/// The elements of a transform list, one after the other.
pub open spec fn elements_bytes(ts: Seq<Transform>) -> Seq<u8>
    decreases ts.len(),
{
    if ts.len() == 0 {
        Seq::empty()
    } else {
        elements_bytes(ts.drop_last()) + transform_data(ts.last())
    }
}

pub open spec fn batch_segment(b: TransformBatchView) -> Seq<u8> {
    let n = b.transforms.len();
    le64(struct_pointer(1, 1)) + le64(pack(b.sequence, 0)) + le64(
        list_pointer(COMPOSITE_ELEMENTS, (4 * n) as u32),
    ) + le64(composite_tag(n as u32, 4, 0)) + elements_bytes(b.transforms)
}

/// The zero bytes that pad `n` bytes to a whole word.
pub open spec fn padding(n: int) -> Seq<u8> {
    Seq::new(((8 - n % 8) % 8) as nat, |i: int| 0u8)
}

pub open spec fn chat_segment(c: ChatView) -> Seq<u8> {
    let t = encode_utf8(c.text);
    le64(struct_pointer(2, 1)) + le64(pack(c.sender_id, c.channel as u32)) + le64(c.sent_at_millis)
        + le64(list_pointer(BYTE_ELEMENTS, (t.len() + 1) as u32)) + t + seq![0u8] + padding(
        t.len() as int + 1,
    )
}

pub open spec fn stats_segment(m: Stats) -> Seq<u8> {
    le64(struct_pointer(5, 0)) + le64(m.player_id) + le64(pack(m.level as u32, m.health)) + le64(
        pack(m.mana, m.gold),
    ) + le64(m.experience) + le64(pack(m.kills, m.deaths))
}

/// A far pointer to a one-word landing pad at the start of segment `seg`.
pub open spec fn far_pointer(seg: u32) -> u64 {
    pack(2, seg)
}

/// A message moved into two segments at byte `at` of its single segment:
/// the pointer that stood at `at` (whose object follows it) becomes the
/// landing pad that starts the second segment, and the first segment ends
/// with a far pointer to it.
pub open spec fn split_segments(s: Seq<u8>, at: int) -> Seq<Seq<u8>> {
    seq![s.subrange(0, at) + le64(far_pointer(1)), s.subrange(at, s.len() as int)]
}

/// The segments of a batch as a builder lays them out whose first segment
/// holds `SEGMENT_WORDS` words: the root pointer and the root struct (three
/// words) come first, and a list that no longer fits after them goes to a
/// second segment.
pub open spec fn batch_segments(b: TransformBatchView) -> Seq<Seq<u8>> {
    if 4 + 4 * b.transforms.len() <= SEGMENT_WORDS {
        seq![batch_segment(b)]
    } else {
        split_segments(batch_segment(b), 16)
    }
}

/// The segments of a chat, laid out in the same way: the root pointer and
/// the root struct take four words, and text that no longer fits after them
/// goes to a second segment.
pub open spec fn chat_segments(c: ChatView) -> Seq<Seq<u8>> {
    if 4 + (encode_utf8(c.text).len() + 8) / 8 <= SEGMENT_WORDS {
        seq![chat_segment(c)]
    } else {
        split_segments(chat_segment(c), 24)
    }
}

pub proof fn lemma_elements_bytes_take(ts: Seq<Transform>, i: int)
    requires
        0 <= i < ts.len(),
    ensures
        elements_bytes(ts.take(i + 1)) == elements_bytes(ts.take(i)) + transform_data(ts[i]),
{
    assert(ts.take(i + 1).drop_last() =~= ts.take(i));
    assert(ts.take(i + 1).last() == ts[i]);
}

// ---------------------------------------------------------------- writers

fn push_pair(out: &mut Vec<u8>, lo: u32, hi: u32)
    ensures
        final(out)@ == old(out)@ + le64(pack(lo, hi)),
{
    push64(out, (lo as u64) | ((hi as u64) << 32));
}

pub fn write_input(m: &Input) -> (r: Vec<u8>)
    ensures
        r@ == input_segment(*m),
{
    let mut out: Vec<u8> = Vec::new();
    push64(&mut out, 3u64 << 32);
    proof {
        assert(struct_pointer(3, 0) == 3u64 << 32) by (bit_vector);
    }
    push_pair(&mut out, m.sequence, m.move_x);
    push_pair(&mut out, m.move_z, if m.jump {
        1u32
    } else {
        0u32
    });
    push_pair(&mut out, m.look_yaw, m.look_pitch);
    assert(out@ =~= input_segment(*m));
    out
}

fn push_transform_data(out: &mut Vec<u8>, t: &Transform)
    ensures
        final(out)@ == old(out)@ + transform_data(*t),
{
    push_pair(out, t.entity_id, t.kind as u32);
    push_pair(out, t.color, t.position_x);
    push_pair(out, t.position_y, t.position_z);
    push_pair(out, t.yaw, t.pitch);
    assert(out@ =~= old(out)@ + transform_data(*t));
}

pub fn write_transform(t: &Transform) -> (r: Vec<u8>)
    ensures
        r@ == transform_segment(*t),
{
    let mut out: Vec<u8> = Vec::new();
    push64(&mut out, 4u64 << 32);
    proof {
        assert(struct_pointer(4, 0) == 4u64 << 32) by (bit_vector);
    }
    push_transform_data(&mut out, t);
    assert(out@ =~= transform_segment(*t));
    out
}

pub fn write_batch(b: &TransformBatch) -> (r: Vec<u8>)
    requires
        b.transforms@.len() < 0x0800_0000,
    ensures
        r@ == batch_segment(b@),
{
    let n = b.transforms.len();
    let mut out: Vec<u8> = Vec::new();
    push_pair(&mut out, 0, 1u32 | (1u32 << 16));
    push_pair(&mut out, b.sequence, 0);
    push_pair(&mut out, 1, 7u32 | (((4 * n) as u32) << 3));
    push_pair(&mut out, (n as u32) << 2, 4u32);
    proof {
        assert(4u32 == (4u16 as u32) | ((0u16 as u32) << 16)) by (bit_vector);
        assert(1u32 | (1u32 << 16) == (1u16 as u32) | ((1u16 as u32) << 16)) by (bit_vector);
    }
    let ghost start = out@;
    let mut i: usize = 0;
    while i < n
        invariant
            n == b.transforms@.len(),
            i <= n,
            out@ == start + elements_bytes(b.transforms@.take(i as int)),
        decreases n - i,
    {
        proof {
            lemma_elements_bytes_take(b.transforms@, i as int);
        }
        push_transform_data(&mut out, &b.transforms[i]);
        i = i + 1;
    }
    assert(b.transforms@.take(n as int) =~= b.transforms@);
    assert(out@ =~= batch_segment(b@));
    out
}

pub fn write_chat(c: &Chat) -> (r: Vec<u8>)
    requires
        encode_utf8(c.text@).len() + 1 < 0x2000_0000,
    ensures
        r@ == chat_segment(c@),
{
    let text = c.text.as_str().as_bytes();
    let n = text.len();
    let mut out: Vec<u8> = Vec::new();
    push_pair(&mut out, 0, 2u32 | (1u32 << 16));
    push_pair(&mut out, c.sender_id, c.channel as u32);
    push64(&mut out, c.sent_at_millis);
    push_pair(&mut out, 1, 2u32 | (((n + 1) as u32) << 3));
    proof {
        assert(2u32 | (1u32 << 16) == (2u16 as u32) | ((1u16 as u32) << 16)) by (bit_vector);
    }
    let ghost start = out@;
    let mut i: usize = 0;
    while i < n
        invariant
            n == text@.len(),
            i <= n,
            out@ == start + text@.take(i as int),
        decreases n - i,
    {
        out.push(text[i]);
        i = i + 1;
        assert(out@ =~= start + text@.take(i as int));
    }
    out.push(0u8);
    let pad = (8 - (n + 1) % 8) % 8;
    let ghost before_pad = out@;
    let mut k: usize = 0;
    while k < pad
        invariant
            k <= pad,
            out@ == before_pad + Seq::new(k as nat, |j: int| 0u8),
        decreases pad - k,
    {
        out.push(0u8);
        k = k + 1;
        assert(out@ =~= before_pad + Seq::new(k as nat, |j: int| 0u8));
    }
    assert(text@.take(n as int) =~= text@);
    assert(out@ =~= chat_segment(c@));
    out
}

pub fn write_stats(m: &Stats) -> (r: Vec<u8>)
    ensures
        r@ == stats_segment(*m),
{
    let mut out: Vec<u8> = Vec::new();
    push64(&mut out, 5u64 << 32);
    proof {
        assert(struct_pointer(5, 0) == 5u64 << 32) by (bit_vector);
    }
    push64(&mut out, m.player_id);
    push_pair(&mut out, m.level as u32, m.health);
    push_pair(&mut out, m.mana, m.gold);
    push64(&mut out, m.experience);
    push_pair(&mut out, m.kills, m.deaths);
    assert(out@ =~= stats_segment(*m));
    out
}

/// The serialization of a one-segment message.
pub proof fn lemma_frame_of_one(a: Seq<u8>)
    ensures
        frame_of(seq![a]) == le32(0) + le32((a.len() / 8) as u32) + a,
        joined(seq![a]) == a,
{
    let e = Seq::<Seq<u8>>::empty();
    assert(seq![a].drop_last() =~= e);
    assert(size_table(e) == Seq::<u8>::empty());
    assert(joined(e) == Seq::<u8>::empty());
    assert(size_table(seq![a]) =~= le32((a.len() / 8) as u32));
    assert(joined(seq![a]) =~= a);
    assert(frame_of(seq![a]) =~= le32(0) + le32((a.len() / 8) as u32) + a);
}

/// The serialization of a two-segment message.
pub proof fn lemma_frame_of_two(a: Seq<u8>, b: Seq<u8>)
    ensures
        frame_of(seq![a, b]) == le32(1) + le32((a.len() / 8) as u32) + le32((b.len() / 8) as u32)
            + le32(0) + a + b,
        joined(seq![a, b]) == a + b,
{
    let e = Seq::<Seq<u8>>::empty();
    assert(seq![a].drop_last() =~= e);
    assert(seq![a, b].drop_last() =~= seq![a]);
    assert(size_table(e) == Seq::<u8>::empty());
    assert(joined(e) == Seq::<u8>::empty());
    assert(size_table(seq![a]) =~= le32((a.len() / 8) as u32));
    assert(joined(seq![a]) =~= a);
    assert(size_table(seq![a, b]) =~= le32((a.len() / 8) as u32) + le32((b.len() / 8) as u32));
    assert(joined(seq![a, b]) =~= a + b);
    assert(frame_of(seq![a, b]) =~= le32(1) + le32((a.len() / 8) as u32) + le32(
        (b.len() / 8) as u32,
    ) + le32(0) + a + b);
}

/// Appends `bytes` to `out`.
fn append(out: &mut Vec<u8>, bytes: &[u8])
    ensures
        final(out)@ == old(out)@ + bytes@,
{
    let ghost start = out@;
    let mut i: usize = 0;
    while i < bytes.len()
        invariant
            i <= bytes@.len(),
            out@ == start + bytes@.take(i as int),
        decreases bytes@.len() - i,
    {
        out.push(bytes[i]);
        i = i + 1;
        assert(out@ =~= start + bytes@.take(i as int));
    }
    assert(bytes@.take(i as int) =~= bytes@);
}

/// Appends the serialization of a one-segment message: the segment table,
/// then the segment.
pub fn frame_plain(segment: &[u8], out: &mut Vec<u8>)
    requires
        segment@.len() / 8 <= u32::MAX,
    ensures
        final(out)@ == old(out)@ + frame_of(seq![segment@]),
{
    let mut segments: Vec<&[u8]> = Vec::new();
    segments.push(segment);
    assert(views(segments@) =~= seq![segment@]);
    write_message_segments(&segments, out);
}

/// Appends the serialization of a message laid out in one segment, or in
/// two split at byte `at` when `split` says so.
fn frame_split(segment: &[u8], at: usize, split: bool, out: &mut Vec<u8>)
    requires
        at % 8 == 0,
        8 <= at <= segment@.len(),
        segment@.len() / 8 < u32::MAX,
    ensures
        final(out)@ == old(out)@ + frame_of(
            if split {
                split_segments(segment@, at as int)
            } else {
                seq![segment@]
            },
        ),
{
    if !split {
        frame_plain(segment, out);
    } else {
        let mut first: Vec<u8> = Vec::new();
        append(&mut first, &segment[0..at]);
        push64(&mut first, (1u64 << 32) | 2);
        proof {
            assert(far_pointer(1) == (1u64 << 32) | 2) by (bit_vector);
        }
        let mut segments: Vec<&[u8]> = Vec::new();
        segments.push(first.as_slice());
        segments.push(&segment[at..segment.len()]);
        assert(views(segments@) =~= split_segments(segment@, at as int));
        write_message_segments(&segments, out);
    }
}

/// Appends the plain message of a batch, in one segment or two.
pub fn write_batch_frame(b: &TransformBatch, out: &mut Vec<u8>)
    requires
        b.transforms@.len() < 0x0800_0000,
    ensures
        final(out)@ == old(out)@ + frame_of(batch_segments(b@)),
{
    let segment = write_batch(b);
    proof {
        lemma_elements_bytes(b.transforms@);
    }
    let split = b.transforms.len() > 2047;
    frame_split(segment.as_slice(), 16, split, out);
}

/// Appends the plain message of a chat, in one segment or two.
pub fn write_chat_frame(c: &Chat, out: &mut Vec<u8>)
    requires
        encode_utf8(c.text@).len() + 1 < 0x2000_0000,
    ensures
        final(out)@ == old(out)@ + frame_of(chat_segments(c@)),
{
    let segment = write_chat(c);
    let n = c.text.as_str().as_bytes().len();
    proof {
        lemma_segment_lengths_chat(c@);
    }
    let split = 4 + (n + 8) / 8 > 8192;
    frame_split(segment.as_slice(), 24, split, out);
}

// ---------------------------------------------------------------- readers

/// The bytes of each segment.
pub open spec fn views(m: Seq<&[u8]>) -> Seq<Seq<u8>> {
    Seq::new(m.len(), |i: int| m[i]@)
}

/// The struct lies within its segment.
pub open spec fn struct_in(m: Seq<Seq<u8>>, r: StructAt) -> bool {
    r.seg < m.len() && r.start + r.data + r.ptrs <= nwords(m[r.seg as int])
}

/// The `i`-th word of a segment.
pub fn word_at(s: &[u8], i: usize) -> (r: u64)
    requires
        i < nwords(s@),
    ensures
        r == word(s@, i as int),
{
    let len = s.len();
    assert(8 * i + 8 <= len) by (nonlinear_arith)
        requires
            i < len as int / 8,
    ;
    get64(s, 8 * i)
}

/// The signed offset of a pointer, from its low half.
fn offset_of(lo: u32) -> (r: i64)
    ensures
        r == ({
            let raw = (lo >> 2) as int;
            if raw >= 0x2000_0000 {
                raw - 0x4000_0000
            } else {
                raw
            }
        }),
        -0x2000_0000 <= r < 0x2000_0000,
{
    let raw = (lo >> 2) as i64;
    assert(lo >> 2 < 0x4000_0000) by (bit_vector);
    if raw >= 0x2000_0000 {
        raw - 0x4000_0000
    } else {
        raw
    }
}

/// Where a pointer leads: the object's segment, the word that describes it,
/// and its first word.
pub struct LinkAt {
    pub seg: usize,
    pub w: u64,
    pub start: i64,
}

/// Follows the pointer at word `p` of segment `g`, through a far pointer if
/// it is one.
pub fn link_at(m: &[&[u8]], g: usize, p: usize) -> (r: Option<LinkAt>)
    requires
        g < m@.len(),
        p < nwords(m@[g as int]@),
    ensures
        r is Some == far_ok(views(m@), g as int, p as int),
        r matches Some(x) ==> x.seg < m@.len() && x.seg == link(views(m@), g as int, p as int).seg
            && x.w == link(views(m@), g as int, p as int).w && x.start == link(
            views(m@),
            g as int,
            p as int,
        ).start,
{
    let ghost v = views(m@);
    assert(v[g as int] == m@[g as int]@);
    let len = m[g].len();
    let w = word_at(m[g], p);
    let lo = (w & 0xffff_ffff) as u32;
    let hi = (w >> 32) as u32;
    if lo & 3 != 2 {
        let off = offset_of(lo);
        assert(p < 0x2000_0000_0000_0000) by (nonlinear_arith)
            requires
                p < len as int / 8,
                len <= u64::MAX,
        ;
        return Some(LinkAt { seg: g, w, start: p as i64 + 1 + off });
    }
    let id = hi as usize;
    let pos = (lo >> 3) as usize;
    let double = (lo >> 2) & 1 == 1;
    if id >= m.len() {
        return None;
    }
    assert(v[id as int] == m@[id as int]@);
    let nw = m[id].len() / 8;
    let pad_words: usize = if double {
        2
    } else {
        1
    };
    assert(lo >> 3 < 0x2000_0000) by (bit_vector);
    if pos + pad_words > nw {
        return None;
    }
    let pad = word_at(m[id], pos);
    let plo = (pad & 0xffff_ffff) as u32;
    if !double {
        let off = offset_of(plo);
        return Some(LinkAt { seg: id, w: pad, start: pos as i64 + 1 + off });
    }
    let id2 = ((pad >> 32) as u32) as usize;
    if id2 >= m.len() {
        return None;
    }
    let tag = word_at(m[id], pos + 1);
    assert(plo >> 3 < 0x2000_0000) by (bit_vector);
    Some(LinkAt { seg: id2, w: tag, start: (plo >> 3) as i64 })
}

/// Follows the struct pointer at word `p` of segment `g`.
pub fn struct_pointer_at(m: &[&[u8]], g: usize, p: usize) -> (r: Option<StructAt>)
    requires
        g < m@.len(),
        p < nwords(m@[g as int]@),
    ensures
        r is Some == struct_pointer_ok(views(m@), g as int, p as int),
        r matches Some(x) ==> x == struct_at(views(m@), g as int, p as int) && struct_in(
            views(m@),
            x,
        ),
{
    let ghost v = views(m@);
    assert(v[g as int] == m@[g as int]@);
    let w = word_at(m[g], p);
    if w == 0 {
        return Some(StructAt { seg: 0, start: 0, data: 0, ptrs: 0 });
    }
    let x = match link_at(m, g, p) {
        Some(x) => x,
        None => return None,
    };
    assert(v[x.seg as int] == m@[x.seg as int]@);
    let lo = (x.w & 0xffff_ffff) as u32;
    let hi = (x.w >> 32) as u32;
    if lo & 3 != 0 || x.start < 0 {
        return None;
    }
    let data = (hi & 0xffff) as u64;
    let ptrs = (hi >> 16) as u64;
    assert(hi >> 16 <= 0xffff) by (bit_vector);
    let nw = (m[x.seg].len() / 8) as u64;
    if x.start as u64 + data + ptrs > nw {
        return None;
    }
    Some(StructAt { seg: x.seg, start: x.start as usize, data: data as usize, ptrs: ptrs as usize })
}

/// The `i`-th data word of a struct that lies within its segment.
pub fn data_word_at(m: &[&[u8]], r: &StructAt, i: usize) -> (w: u64)
    requires
        struct_in(views(m@), *r),
    ensures
        w == data_word(views(m@), *r, i as int),
{
    let ghost v = views(m@);
    assert(v[r.seg as int] == m@[r.seg as int]@);
    let _len = m[r.seg].len();
    if i < r.data {
        word_at(m[r.seg], r.start + i)
    } else {
        0
    }
}

/// Follows a struct's first pointer, when it is there and not null.
fn first_link_at(m: &[&[u8]], r: &StructAt) -> (x: Option<LinkAt>)
    requires
        struct_in(views(m@), *r),
    ensures
        x is Some == (!first_pointer_null(views(m@), *r) && first_far_ok(views(m@), *r)),
        x matches Some(y) ==> y.seg < m@.len() && y.seg == first_link(views(m@), *r).seg && y.w
            == first_link(views(m@), *r).w && y.start == first_link(views(m@), *r).start,
{
    let ghost v = views(m@);
    assert(v[r.seg as int] == m@[r.seg as int]@);
    let _len = m[r.seg].len();
    if r.ptrs == 0 {
        return None;
    }
    let q = r.start + r.data;
    if word_at(m[r.seg], q) == 0 {
        return None;
    }
    link_at(m, r.seg, q)
}

/// Whether a struct's first pointer is missing or null.
fn first_null_at(m: &[&[u8]], r: &StructAt) -> (b: bool)
    requires
        struct_in(views(m@), *r),
    ensures
        b == first_pointer_null(views(m@), *r),
{
    let ghost v = views(m@);
    assert(v[r.seg as int] == m@[r.seg as int]@);
    let _len = m[r.seg].len();
    r.ptrs == 0 || word_at(m[r.seg], r.start + r.data) == 0
}

/// What following the pointer at word `p` of segment `g` charges for a
/// landing pad.
fn pad_charge_at(m: &[&[u8]], g: usize, p: usize) -> (c: u64)
    requires
        g < m@.len(),
        p < nwords(m@[g as int]@),
    ensures
        c == pad_charge(views(m@), g as int, p as int),
        c <= 2,
{
    let ghost v = views(m@);
    assert(v[g as int] == m@[g as int]@);
    let w = word_at(m[g], p);
    let lo = (w & 0xffff_ffff) as u32;
    if lo & 3 != 2 {
        0
    } else if (lo >> 2) & 1 == 1 {
        2
    } else {
        1
    }
}

/// What reading the root struct charges.
fn root_charge_at(m: &[&[u8]]) -> (c: u64)
    requires
        root_ok(views(m@)),
    ensures
        c == root_charge(views(m@)),
{
    let ghost v = views(m@);
    assert(v[0] == m@[0]@);
    let w = word_at(m[0], 0);
    if w == 0 {
        return 1;
    }
    match link_at(m, 0, 0) {
        Some(x) => {
            let hi = (x.w >> 32) as u32;
            assert(hi >> 16 <= 0xffff) by (bit_vector);
            1 + pad_charge_at(m, 0, 0) + (hi & 0xffff) as u64 + (hi >> 16) as u64
        },
        None => vstd::pervasive::unreached(),
    }
}

/// What reading text through a struct's first pointer charges.
fn text_charge_at(m: &[&[u8]], r: &StructAt) -> (c: u64)
    requires
        struct_in(views(m@), *r),
        text_ok(views(m@), *r),
    ensures
        c == text_charge(views(m@), *r),
        c < 0x8000_0000,
{
    let ghost v = views(m@);
    assert(v[r.seg as int] == m@[r.seg as int]@);
    let _len = m[r.seg].len();
    if first_null_at(m, r) {
        return 0;
    }
    let pad = pad_charge_at(m, r.seg, r.start + r.data);
    match first_link_at(m, r) {
        Some(x) => {
            let hi = (x.w >> 32) as u32;
            assert(hi >> 3 < 0x2000_0000) by (bit_vector);
            pad + ((hi >> 3) as u64 + 7) / 8
        },
        None => vstd::pervasive::unreached(),
    }
}

/// What reading a list through a struct's first pointer charges.
fn list_charge_at(m: &[&[u8]], r: &StructAt) -> (c: u64)
    requires
        struct_in(views(m@), *r),
        list_ok(views(m@), *r),
    ensures
        c == list_charge(views(m@), *r),
        c < 0x8000_0000,
{
    let ghost v = views(m@);
    assert(v[r.seg as int] == m@[r.seg as int]@);
    let _len = m[r.seg].len();
    if first_null_at(m, r) {
        return 0;
    }
    let pad = pad_charge_at(m, r.seg, r.start + r.data);
    match first_link_at(m, r) {
        Some(x) => {
            let hi = (x.w >> 32) as u32;
            let n = (hi >> 3) as u64;
            let e = hi & 7;
            assert(hi >> 3 < 0x2000_0000) by (bit_vector);
            if e == 7 {
                assert(v[x.seg as int] == m@[x.seg as int]@);
                assert(composite_list_ok(v, *r));
                let _seg_len = m[x.seg].len();
                let tag = word_at(m[x.seg], x.start as usize);
                assert(tag == word(v[x.seg as int], first_link(v, *r).start));
                let tlo = (tag & 0xffff_ffff) as u32;
                let thi = (tag >> 32) as u32;
                assert(thi >> 16 <= 0xffff && tlo >> 2 < 0x4000_0000) by (bit_vector);
                let size = (thi & 0xffff) as u64 + (thi >> 16) as u64;
                pad + n + 1 + if size == 0 {
                    (tlo >> 2) as u64
                } else {
                    0
                }
            } else {
                let step: u64 = if e == 6 {
                    8
                } else if e == 2 {
                    1
                } else if e == 3 {
                    2
                } else if e == 4 {
                    4
                } else if e == 5 {
                    8
                } else {
                    0
                };
                pad + (n * step + 7) / 8 + if e == 0 {
                    n
                } else {
                    0
                }
            }
        },
        None => vstd::pervasive::unreached(),
    }
}

/// The text that a struct's first pointer leads to, without its NUL.
pub fn text_at<'a>(m: &[&'a [u8]], r: &StructAt) -> (t: Option<&'a [u8]>)
    requires
        struct_in(views(m@), *r),
    ensures
        t is Some == text_ok(views(m@), *r),
        t matches Some(b) ==> b@ == text_bytes(views(m@), *r),
{
    let ghost v = views(m@);
    if first_null_at(m, r) {
        let e: &'a [u8] = m[r.seg];
        return Some(&e[0..0]);
    }
    let x = match first_link_at(m, r) {
        Some(x) => x,
        None => return None,
    };
    let s: &'a [u8] = m[x.seg];
    assert(v[x.seg as int] == s@);
    let len = s.len();
    let lo = (x.w & 0xffff_ffff) as u32;
    let hi = (x.w >> 32) as u32;
    if lo & 3 != 1 || hi & 7 != 2 || x.start < 0 {
        return None;
    }
    let n = (hi >> 3) as u64;
    assert(hi >> 3 < 0x2000_0000) by (bit_vector);
    let t = x.start;
    let nw = (len / 8) as u64;
    if t as u64 + (n + 7) / 8 > nw {
        return None;
    }
    if n < 1 {
        return None;
    }
    let begin = 8 * (t as usize);
    assert(begin + n <= len) by (nonlinear_arith)
        requires
            begin == 8 * t,
            t + (n + 7) / 8 <= len as int / 8,
            n >= 0,
    ;
    let end = begin + (n as usize) - 1;
    if s[end] != 0 {
        return None;
    }
    Some(&s[begin..end])
}

/// Where an inline-composite list lies: its segment, its first element, its
/// length, and the sizes of each element's sections.
pub struct ListAt {
    pub seg: usize,
    pub first: usize,
    pub len: usize,
    pub data: usize,
    pub ptrs: usize,
}

/// The inline-composite list that a struct's first pointer leads to.
pub fn list_at(m: &[&[u8]], r: &StructAt) -> (l: Option<ListAt>)
    requires
        struct_in(views(m@), *r),
    ensures
        l is Some == composite_list_ok(views(m@), *r),
        l matches Some(x) ==> {
            &&& x.seg < m@.len()
            &&& x.len == list_len(views(m@), *r)
            &&& x.data <= 0xffff
            &&& x.ptrs <= 0xffff
            &&& x.first + x.len * (x.data + x.ptrs) <= nwords(views(m@)[x.seg as int])
            &&& forall|i: int|
                0 <= i < x.len ==> #[trigger] element(views(m@), *r, i) == (StructAt {
                    seg: x.seg,
                    start: (x.first + i * (x.data + x.ptrs)) as usize,
                    data: x.data,
                    ptrs: x.ptrs,
                })
        },
{
    let ghost v = views(m@);
    if first_null_at(m, r) {
        let x = ListAt { seg: 0, first: 0, len: 0, data: 0, ptrs: 0 };
        assert(x.first + x.len * (x.data + x.ptrs) == 0);
        return Some(x);
    }
    let y = match first_link_at(m, r) {
        Some(y) => y,
        None => return None,
    };
    let s = m[y.seg];
    assert(v[y.seg as int] == s@);
    let len = s.len();
    let lo = (y.w & 0xffff_ffff) as u32;
    let hi = (y.w >> 32) as u32;
    if lo & 3 != 1 || hi & 7 != 7 || y.start < 0 {
        return None;
    }
    let wc = (hi >> 3) as u64;
    assert(hi >> 3 < 0x2000_0000) by (bit_vector);
    let t = y.start;
    let nw = (len / 8) as u64;
    if t as u64 + 1 + wc > nw {
        return None;
    }
    let tag = word_at(s, t as usize);
    let tlo = (tag & 0xffff_ffff) as u32;
    let thi = (tag >> 32) as u32;
    if tlo & 3 != 0 {
        return None;
    }
    let count = (tlo >> 2) as u64;
    let data = (thi & 0xffff) as u64;
    let ptrs = (thi >> 16) as u64;
    assert(thi >> 16 <= 0xffff && thi & 0xffff <= 0xffff && tlo >> 2 < 0x4000_0000) by (bit_vector);
    assert(count * (data + ptrs) < 0x1_0000_0000_0000_0000) by (nonlinear_arith)
        requires
            count < 0x4000_0000,
            data <= 0xffff,
            ptrs <= 0xffff,
    ;
    if count * (data + ptrs) > wc || count > TRAVERSAL_LIMIT_WORDS {
        return None;
    }
    let first = t as usize + 1;
    assert(tag == list_tag(v, *r));
    assert(count == tag_count(tag));
    let x = ListAt {
        seg: y.seg,
        first,
        len: count as usize,
        data: data as usize,
        ptrs: ptrs as usize,
    };
    assert forall|i: int| 0 <= i < x.len implies #[trigger] element(v, *r, i) == (StructAt {
        seg: x.seg,
        start: (x.first + i * (x.data + x.ptrs)) as usize,
        data: x.data,
        ptrs: x.ptrs,
    }) by {}
    Some(x)
}

/// Where a list that is not inline-composite lies, read as a list of
/// structs: its segment, the byte of its first element, its length, the
/// bytes from one element to the next, and each element's data bytes.
pub struct PlainListAt {
    pub seg: usize,
    pub first: usize,
    pub len: usize,
    pub step: usize,
    pub data: usize,
}

/// The list that is not inline-composite that a struct's first pointer
/// leads to.
pub fn plain_list_at(m: &[&[u8]], r: &StructAt) -> (l: Option<PlainListAt>)
    requires
        struct_in(views(m@), *r),
    ensures
        l is Some == plain_list_ok(views(m@), *r),
        l matches Some(x) ==> {
            let y = first_link(views(m@), *r);
            let e = list_elements(y.w);
            &&& x.seg == y.seg
            &&& x.seg < m@.len()
            &&& x.first == 8 * y.start
            &&& x.len == list_len(views(m@), *r)
            &&& x.step == element_step_bytes(e)
            &&& x.data == element_data_bytes(e)
            &&& x.data <= x.step <= 8
            &&& x.first + x.len * x.step <= views(m@)[x.seg as int].len()
        },
{
    let ghost v = views(m@);
    if first_null_at(m, r) {
        return None;
    }
    let y = match first_link_at(m, r) {
        Some(y) => y,
        None => return None,
    };
    let s = m[y.seg];
    assert(v[y.seg as int] == s@);
    let len = s.len();
    let lo = (y.w & 0xffff_ffff) as u32;
    let hi = (y.w >> 32) as u32;
    let e = hi & 7;
    if lo & 3 != 1 || e == 1 || e == 7 || y.start < 0 {
        return None;
    }
    let n = (hi >> 3) as u64;
    assert(hi >> 3 < 0x2000_0000) by (bit_vector);
    let t = y.start;
    let data: u64 = if e == 2 {
        1
    } else if e == 3 {
        2
    } else if e == 4 {
        4
    } else if e == 5 {
        8
    } else {
        0
    };
    let step: u64 = if e == 6 {
        8
    } else {
        data
    };
    assert(n * step <= 8 * 0x2000_0000) by (nonlinear_arith)
        requires
            n < 0x2000_0000,
            step <= 8,
    ;
    let nw = (len / 8) as u64;
    if t as u64 + (n * step + 7) / 8 > nw {
        return None;
    }
    if e == 0 && n > TRAVERSAL_LIMIT_WORDS {
        return None;
    }
    assert(8 * t + n * step <= len) by (nonlinear_arith)
        requires
            t + (n * step + 7) / 8 <= len as int / 8,
            t >= 0,
            n * step >= 0,
    ;
    let first = 8 * (t as usize);
    assert(!composite_or_null(v, *r));
    Some(PlainListAt { seg: y.seg, first, len: n as usize, step: step as usize, data: data as usize })
}

/// The first data word of a struct whose data section is the `k` bytes at
/// `s[at]`, as far as a transform's fields can be read from it.
fn narrow_word_at(s: &[u8], at: usize, k: usize) -> (w: u64)
    requires
        at + k <= s@.len(),
        k == 0 || k == 1 || k == 2 || k == 4 || k == 8,
    ensures
        w == narrow_word(s@, at as int, k as int),
{
    if k == 8 {
        get64(s, at)
    } else if k == 4 {
        get32(s, at) as u64
    } else {
        0
    }
}

fn transform_in(m: &[&[u8]], r: &StructAt) -> (t: Transform)
    requires
        struct_in(views(m@), *r),
    ensures
        t == transform_of(views(m@), *r),
{
    let w0 = data_word_at(m, r, 0);
    let w1 = data_word_at(m, r, 1);
    let w2 = data_word_at(m, r, 2);
    let w3 = data_word_at(m, r, 3);
    Transform {
        entity_id: (w0 & 0xffff_ffff) as u32,
        kind: (((w0 >> 32) as u32) & 0xff) as u8,
        color: (w1 & 0xffff_ffff) as u32,
        position_x: (w1 >> 32) as u32,
        position_y: (w2 & 0xffff_ffff) as u32,
        position_z: (w2 >> 32) as u32,
        yaw: (w3 & 0xffff_ffff) as u32,
        pitch: (w3 >> 32) as u32,
    }
}

/// The root struct of a message, when reading it stays within the
/// traversal limit.
fn root_at(m: &[&[u8]]) -> (r: Option<StructAt>)
    ensures
        r is Some == (root_ok(views(m@)) && root_charge(views(m@)) <= TRAVERSAL_LIMIT_WORDS),
        r matches Some(x) ==> x == root(views(m@)) && struct_in(views(m@), x),
{
    let ghost v = views(m@);
    if m.len() < 1 {
        return None;
    }
    assert(v[0] == m@[0]@);
    if m[0].len() < 8 {
        return None;
    }
    let r = struct_pointer_at(m, 0, 0);
    if r.is_some() && root_charge_at(m) > TRAVERSAL_LIMIT_WORDS {
        return None;
    }
    r
}

/// Reads an `Input` from a message's segments.
pub fn read_input(m: &[&[u8]]) -> (r: Option<Input>)
    ensures
        r == input_from_segments(views(m@)),
{
    let root = match root_at(m) {
        Some(x) => x,
        None => return None,
    };
    let w0 = data_word_at(m, &root, 0);
    let w1 = data_word_at(m, &root, 1);
    let w2 = data_word_at(m, &root, 2);
    Some(
        Input {
            sequence: (w0 & 0xffff_ffff) as u32,
            move_x: (w0 >> 32) as u32,
            move_z: (w1 & 0xffff_ffff) as u32,
            jump: ((w1 >> 32) as u32) & 1 == 1,
            look_yaw: (w2 & 0xffff_ffff) as u32,
            look_pitch: (w2 >> 32) as u32,
        },
    )
}

/// Reads a `Transform` from a message's segments.
pub fn read_transform(m: &[&[u8]]) -> (r: Option<Transform>)
    ensures
        r == transform_from_segments(views(m@)),
{
    match root_at(m) {
        Some(root) => Some(transform_in(m, &root)),
        None => None,
    }
}

/// Reads `Stats` from a message's segments.
pub fn read_stats(m: &[&[u8]]) -> (r: Option<Stats>)
    ensures
        r == stats_from_segments(views(m@)),
{
    let root = match root_at(m) {
        Some(x) => x,
        None => return None,
    };
    let w1 = data_word_at(m, &root, 1);
    let w2 = data_word_at(m, &root, 2);
    let w4 = data_word_at(m, &root, 4);
    Some(
        Stats {
            player_id: data_word_at(m, &root, 0),
            level: ((w1 & 0xffff_ffff) as u32 & 0xffff) as u16,
            health: (w1 >> 32) as u32,
            mana: (w2 & 0xffff_ffff) as u32,
            gold: (w2 >> 32) as u32,
            experience: data_word_at(m, &root, 3),
            kills: (w4 & 0xffff_ffff) as u32,
            deaths: (w4 >> 32) as u32,
        },
    )
}

/// Reads a `TransformBatch` from a message's segments.
pub fn read_batch(m: &[&[u8]]) -> (r: Option<TransformBatch>)
    ensures
        match r {
            Some(b) => batch_from_segments(views(m@)) == Some(b@),
            None => batch_from_segments(views(m@)) is None,
        },
{
    let ghost v = views(m@);
    let root = match root_at(m) {
        Some(x) => x,
        None => return None,
    };
    let mut transforms: Vec<Transform> = Vec::new();
    match list_at(m, &root) {
        Some(list) => {
            if root_charge_at(m) + list_charge_at(m, &root) > TRAVERSAL_LIMIT_WORDS {
                return None;
            }
            let _seg_len = m[list.seg].len();
            assert(v[list.seg as int] == m@[list.seg as int]@);
            let size = list.data + list.ptrs;
            let mut i: usize = 0;
            while i < list.len
                invariant
                    v == views(m@),
                    struct_in(v, root),
                    composite_list_ok(v, root),
                    list.seg < m@.len(),
                    v[list.seg as int].len() <= usize::MAX,
                    list.first + list.len * size <= nwords(v[list.seg as int]),
                    size == list.data + list.ptrs,
                    i <= list.len,
                    list.len == list_len(v, root),
                    forall|k: int|
                        0 <= k < list.len ==> #[trigger] element(v, root, k) == (StructAt {
                            seg: list.seg,
                            start: (list.first + k * size) as usize,
                            data: list.data,
                            ptrs: list.ptrs,
                        }),
                    transforms@.len() == i,
                    forall|k: int| 0 <= k < i ==> transforms@[k] == transform_element(v, root, k),
                decreases list.len - i,
            {
                assert(list.first + i * size + size <= list.first + list.len * size)
                    by (nonlinear_arith)
                    requires
                        i < list.len,
                        size >= 0,
                ;
                let e = StructAt {
                    seg: list.seg,
                    start: list.first + i * size,
                    data: list.data,
                    ptrs: list.ptrs,
                };
                assert(element(v, root, i as int) == e);
                assert(composite_or_null(v, root));
                transforms.push(transform_in(m, &e));
                i = i + 1;
            }
        },
        None => {
            let list = match plain_list_at(m, &root) {
                Some(l) => l,
                None => return None,
            };
            if root_charge_at(m) + list_charge_at(m, &root) > TRAVERSAL_LIMIT_WORDS {
                return None;
            }
            let s = m[list.seg];
            assert(v[list.seg as int] == s@);
            let _s_len = s.len();
            let mut i: usize = 0;
            while i < list.len
                invariant
                    v == views(m@),
                    s@ == v[list.seg as int],
                    s@.len() <= usize::MAX,
                    struct_in(v, root),
                    plain_list_ok(v, root),
                    list.seg == first_link(v, root).seg,
                    list.first == 8 * first_link(v, root).start,
                    list.step == element_step_bytes(list_elements(first_link(v, root).w)),
                    list.data == element_data_bytes(list_elements(first_link(v, root).w)),
                    list.data <= list.step <= 8,
                    list.first + list.len * list.step <= s@.len(),
                    i <= list.len,
                    list.len == list_len(v, root),
                    transforms@.len() == i,
                    forall|k: int| 0 <= k < i ==> transforms@[k] == transform_element(v, root, k),
                decreases list.len - i,
            {
                assert(list.first + i * list.step + list.step <= list.first + list.len * list.step)
                    by (nonlinear_arith)
                    requires
                        i < list.len,
                        list.step >= 0,
                ;
                let at = list.first + i * list.step;
                let w0 = narrow_word_at(s, at, list.data);
                assert(!composite_or_null(v, root));
                transforms.push(
                    Transform {
                        entity_id: (w0 & 0xffff_ffff) as u32,
                        kind: (((w0 >> 32) as u32) & 0xff) as u8,
                        color: 0,
                        position_x: 0,
                        position_y: 0,
                        position_z: 0,
                        yaw: 0,
                        pitch: 0,
                    },
                );
                i = i + 1;
            }
        },
    }
    let b = TransformBatch { sequence: (data_word_at(m, &root, 0) & 0xffff_ffff) as u32, transforms };
    assert(b@.transforms =~= Seq::new(list_len(v, root), |k: int| transform_element(v, root, k)));
    Some(b)
}

/// Reads a `Chat` from a message's segments; its text must be UTF-8.
pub fn read_chat(m: &[&[u8]]) -> (r: Option<Chat>)
    ensures
        match r {
            Some(c) => chat_from_segments(views(m@)) == Some(c@),
            None => chat_from_segments(views(m@)) is None,
        },
{
    let root = match root_at(m) {
        Some(x) => x,
        None => return None,
    };
    let raw = match text_at(m, &root) {
        Some(b) => b,
        None => return None,
    };
    if root_charge_at(m) + text_charge_at(m, &root) > TRAVERSAL_LIMIT_WORDS {
        return None;
    }
    let text = match utf8_str(raw) {
        Some(t) => t,
        None => return None,
    };
    let w0 = data_word_at(m, &root, 0);
    Some(
        Chat {
            sender_id: (w0 & 0xffff_ffff) as u32,
            channel: (((w0 >> 32) as u32) & 0xffff) as u16,
            sent_at_millis: data_word_at(m, &root, 1),
            text: text.to_owned(),
        },
    )
}

// ---------------------------------------------------------------- the capnp crate

#[verifier::external_type_specification]
#[verifier::external_body]
#[verifier::reject_recursive_types(T)]
pub struct ExNoAllocBufferSegments<T>(capnp::serialize::NoAllocBufferSegments<T>);

/// The segments that a `capnp::serialize::NoAllocBufferSegments` holds, in
/// order, as bytes.
pub uninterp spec fn held_segments(s: capnp::serialize::NoAllocBufferSegments<&[u8]>) -> Seq<
    Seq<u8>,
>;

/// Calls `capnp::serialize::write_message_segments` with a `Vec` as the
/// writer. Claimed, as the crate's `write_segment_table_internal` and
/// `write_segments` show: it appends the segment count less one, each
/// segment's size in words (its length divided by 8), four zero bytes when
/// the table would end mid-word, and then the segments, which is
/// `frame_of`. It fails only where the writer fails, and writing to a
/// `Vec` does not. It unwraps the first segment and converts the segment
/// count and each size in words to `u32`, so at least one segment and those
/// bounds are required.
#[verifier::external_body]
fn write_message_segments(segments: &Vec<&[u8]>, out: &mut Vec<u8>)
    requires
        1 <= segments@.len() <= u32::MAX,
        forall|i: int| 0 <= i < segments@.len() ==> #[trigger] segments@[i]@.len() / 8 <= u32::MAX,
    ensures
        final(out)@ == old(out)@ + frame_of(views(segments@)),
{
    let _ = capnp::serialize::write_message_segments(&mut *out, segments);
}

/// Calls `capnp::serialize::read_message_from_flat_slice_no_alloc` with
/// the default `ReaderOptions` and takes the segments out of the message
/// (`Reader::into_segments`). Claimed, as the crate's `read_segment_table`
/// and `NoAllocBufferSegments::get_segment` show: it succeeds exactly where
/// `framed_segments` finds a message (fewer than 512 segments, no more words
/// than the default traversal limit, all of them present; with the
/// `unaligned` feature the slice's address plays no part), and the segments
/// it then holds are those.
#[verifier::external_body]
pub(crate) fn read_message_from_flat_slice_no_alloc<'a>(bytes: &'a [u8]) -> (r: Option<
    capnp::serialize::NoAllocSliceSegments<'a>,
>)
    ensures
        r is Some == framed_segments(bytes@) is Some,
        r matches Some(held) ==> framed_segments(bytes@) == Some(held_segments(held)),
{
    let mut rest = bytes;
    let options = capnp::message::ReaderOptions::new();
    match capnp::serialize::read_message_from_flat_slice_no_alloc(&mut rest, options) {
        Ok(message) => Some(message.into_segments()),
        Err(_) => None,
    }
}

/// Calls `capnp::message::ReaderSegments::get_segment` with 0, 1, ... until
/// it returns `None`, and collects the segments. Claimed: these are the
/// segments held, in order.
#[verifier::external_body]
pub(crate) fn segments_held<'b>(held: &'b capnp::serialize::NoAllocSliceSegments<'_>) -> (r: Vec<&'b [u8]>)
    ensures
        views(r@) == held_segments(*held),
{
    (0u32..).map_while(|i| capnp::message::ReaderSegments::get_segment(held, i)).collect()
}

/// What `capnp::message::Reader::is_canonical` answers for a message made of
/// this one segment: `None` where it returns an error.
pub uninterp spec fn capnp_is_canonical(segment: Seq<u8>) -> Option<bool>;

/// What `capnp::message::Reader::canonicalize` gives for a message made of
/// this one segment, as bytes: `None` where it returns an error.
pub uninterp spec fn capnp_canonical_form(segment: Seq<u8>) -> Option<Seq<u8>>;

/// Calls `capnp::message::Reader::is_canonical` on a message of one segment.
/// Claimed: the answer depends on the segment's bytes alone (with the crate's
/// `unaligned` feature, which this crate turns on, the segment's address plays
/// no part). Nothing more is stated of it; which segments are canonical is
/// capnp's definition. The reader unwraps the segment's word count as a
/// `u32`, so a segment of 2^32 words or more is left out.
#[verifier::external_body]
pub(crate) fn is_canonical(segment: &[u8]) -> (r: Option<bool>)
    requires
        segment@.len() / 8 <= u32::MAX,
    ensures
        r == capnp_is_canonical(segment@),
{
    let segments = [segment];
    let options = capnp::message::ReaderOptions::new();
    capnp::message::Reader::new(capnp::message::SegmentArray::new(&segments), options)
        .is_canonical()
        .ok()
}

/// Calls `capnp::message::Reader::canonicalize` on a message of one segment
/// and returns the canonical segment's bytes. Claimed: the result depends on
/// the segment's bytes alone (as for `is_canonical`, the address plays no
/// part), and is made of whole 8-byte words (the crate returns a
/// `Vec<Word>`). A segment of 2^32 words or more is left out, as there.
/// Further claimed, as the crate documents canonicalization: the result is
/// a canonical message, which `is_canonical` accepts; and it holds the same
/// values, since `set_root_canonical` copies every struct's data (cutting
/// only trailing zero words, which read as zero) and every pointer's target,
/// so that the library's readers read from it what they read from the
/// segment.
#[verifier::external_body]
pub(crate) fn canonicalize(segment: &[u8]) -> (r: Option<Vec<u8>>)
    requires
        segment@.len() / 8 <= u32::MAX,
    ensures
        r is Some == capnp_canonical_form(segment@) is Some,
        r matches Some(v) ==> capnp_canonical_form(segment@) == Some(v@) && v@.len() % 8 == 0,
        r matches Some(v) ==> capnp_is_canonical(v@) == Some(true),
        r matches Some(v) ==> reads_alike(segment@, v@),
{
    let segments = [segment];
    let options = capnp::message::ReaderOptions::new();
    let message = capnp::message::Reader::new(capnp::message::SegmentArray::new(&segments), options);
    message.canonicalize().ok().map(|words| capnp::Word::words_to_bytes(&words).to_vec())
}

// ---------------------------------------------------------------- round trips

proof fn lemma_word(s: Seq<u8>, i: int, x: u64)
    requires
        0 <= i,
        8 * i + 8 <= s.len(),
        s.subrange(8 * i, 8 * i + 8) == le64(x),
    ensures
        word(s, i) == x,
{
    lemma_read64_le64(x, s, 8 * i);
}

proof fn lemma_bool32(b: bool)
    ensures
        (bool32(b) & 1 == 1) == b,
{
    assert((1u32 & 1) == 1 && (0u32 & 1) == 0) by (bit_vector);
}

proof fn lemma_byte_of(k: u8)
    ensures
        ((k as u32) & 0xff) as u8 == k,
{
    assert(((k as u32) & 0xff) as u8 == k) by (bit_vector);
}

proof fn lemma_half_of(k: u16)
    ensures
        ((k as u32) & 0xffff) as u16 == k,
{
    assert(((k as u32) & 0xffff) as u16 == k) by (bit_vector);
}

/// A serialized one-segment message gives its segment back.
pub proof fn lemma_frame_round_trip(segment: Seq<u8>, rest: Seq<u8>)
    requires
        segment.len() % 8 == 0,
        segment.len() / 8 <= TRAVERSAL_LIMIT_WORDS,
    ensures
        frame_of(seq![segment]).len() == 8 + segment.len(),
        framed_segments(frame_of(seq![segment]) + rest) == Some(seq![segment]),
{
    lemma_frame_of_one(segment);
    let f = frame_of(seq![segment]) + rest;
    let n = (segment.len() / 8) as u32;
    assert(f.subrange(0, 4) =~= le32(0));
    assert(f.subrange(4, 8) =~= le32(n));
    lemma_read32_le32(0, f, 0);
    lemma_read32_le32(n, f, 4);
    assert(words_before(f, 0) == 0);
    assert(words_before(f, 1) == n);
    assert(f.subrange(8, 8 + 8 * n) =~= segment);
    assert(framed_segments(f)->0 =~= seq![segment]);
}

/// Reading the segment written for an `Input` gives the input back.
pub proof fn lemma_input_segment(m: Input)
    ensures
        input_segment(m).len() == 32,
        input_from_segments(seq![input_segment(m)]) == Some(m),
{
    let s = input_segment(m);
    assert(s.len() == 32);
    assert(s.subrange(0, 8) =~= le64(struct_pointer(3, 0)));
    assert(s.subrange(8, 16) =~= le64(pack(m.sequence, m.move_x)));
    assert(s.subrange(16, 24) =~= le64(pack(m.move_z, bool32(m.jump))));
    assert(s.subrange(24, 32) =~= le64(pack(m.look_yaw, m.look_pitch)));
    lemma_word(s, 0, struct_pointer(3, 0));
    lemma_word(s, 1, pack(m.sequence, m.move_x));
    lemma_word(s, 2, pack(m.move_z, bool32(m.jump)));
    lemma_word(s, 3, pack(m.look_yaw, m.look_pitch));
    lemma_struct_pointer(3, 0);
    lemma_pack(m.sequence, m.move_x);
    lemma_pack(m.move_z, bool32(m.jump));
    lemma_pack(m.look_yaw, m.look_pitch);
    lemma_bool32(m.jump);
    let ms = seq![s];
    assert(ms[0] == s);
    assert(root(ms) == StructAt { seg: 0, start: 1, data: 3, ptrs: 0 });
}

/// Reading the segment written for a `Transform` gives it back.
pub proof fn lemma_transform_segment(t: Transform)
    ensures
        transform_segment(t).len() == 40,
        transform_from_segments(seq![transform_segment(t)]) == Some(t),
{
    let s = transform_segment(t);
    assert(s.len() == 40);
    assert(s.subrange(0, 8) =~= le64(struct_pointer(4, 0)));
    lemma_word(s, 0, struct_pointer(4, 0));
    lemma_struct_pointer(4, 0);
    let ms = seq![s];
    assert(ms[0] == s);
    assert(root(ms) == StructAt { seg: 0, start: 1, data: 4, ptrs: 0 });
    assert(s.subrange(8, 40) =~= transform_data(t));
    lemma_transform_data_words(t, ms, 0, 1);
}

/// The data words of a transform whose data section is at word `at`.
proof fn lemma_transform_data_words(t: Transform, m: Seq<Seq<u8>>, g: usize, at: usize)
    requires
        g < m.len(),
        8 * at + 32 <= m[g as int].len(),
        m[g as int].subrange(8 * at, 8 * at + 32) == transform_data(t),
    ensures
        transform_of(m, StructAt { seg: g, start: at, data: 4, ptrs: 0 }) == t,
{
    let s = m[g as int];
    let d = transform_data(t);
    assert(d.len() == 32);
    assert(s.subrange(8 * at, 8 * at + 8) =~= d.subrange(0, 8));
    assert(s.subrange(8 * at + 8, 8 * at + 16) =~= d.subrange(8, 16));
    assert(s.subrange(8 * at + 16, 8 * at + 24) =~= d.subrange(16, 24));
    assert(s.subrange(8 * at + 24, 8 * at + 32) =~= d.subrange(24, 32));
    assert(d.subrange(0, 8) =~= le64(pack(t.entity_id, t.kind as u32)));
    assert(d.subrange(8, 16) =~= le64(pack(t.color, t.position_x)));
    assert(d.subrange(16, 24) =~= le64(pack(t.position_y, t.position_z)));
    assert(d.subrange(24, 32) =~= le64(pack(t.yaw, t.pitch)));
    lemma_word(s, at as int, pack(t.entity_id, t.kind as u32));
    lemma_word(s, at + 1, pack(t.color, t.position_x));
    lemma_word(s, at + 2, pack(t.position_y, t.position_z));
    lemma_word(s, at + 3, pack(t.yaw, t.pitch));
    lemma_pack(t.entity_id, t.kind as u32);
    lemma_pack(t.color, t.position_x);
    lemma_pack(t.position_y, t.position_z);
    lemma_pack(t.yaw, t.pitch);
    lemma_byte_of(t.kind);
}

/// Reading the segment written for `Stats` gives them back.
pub proof fn lemma_stats_segment(m: Stats)
    ensures
        stats_segment(m).len() == 48,
        stats_from_segments(seq![stats_segment(m)]) == Some(m),
{
    let s = stats_segment(m);
    assert(s.len() == 48);
    assert(s.subrange(0, 8) =~= le64(struct_pointer(5, 0)));
    assert(s.subrange(8, 16) =~= le64(m.player_id));
    assert(s.subrange(16, 24) =~= le64(pack(m.level as u32, m.health)));
    assert(s.subrange(24, 32) =~= le64(pack(m.mana, m.gold)));
    assert(s.subrange(32, 40) =~= le64(m.experience));
    assert(s.subrange(40, 48) =~= le64(pack(m.kills, m.deaths)));
    lemma_word(s, 0, struct_pointer(5, 0));
    lemma_word(s, 1, m.player_id);
    lemma_word(s, 2, pack(m.level as u32, m.health));
    lemma_word(s, 3, pack(m.mana, m.gold));
    lemma_word(s, 4, m.experience);
    lemma_word(s, 5, pack(m.kills, m.deaths));
    lemma_struct_pointer(5, 0);
    lemma_pack(m.level as u32, m.health);
    lemma_pack(m.mana, m.gold);
    lemma_pack(m.kills, m.deaths);
    lemma_half_of(m.level);
    let ms = seq![s];
    assert(ms[0] == s);
    assert(root(ms) == StructAt { seg: 0, start: 1, data: 5, ptrs: 0 });
}

/// A serialized two-segment message gives its segments back.
#[verifier::spinoff_prover]
pub proof fn lemma_frame_two_round_trip(a: Seq<u8>, b: Seq<u8>, rest: Seq<u8>)
    requires
        a.len() % 8 == 0,
        b.len() % 8 == 0,
        (a.len() + b.len()) / 8 <= TRAVERSAL_LIMIT_WORDS,
    ensures
        framed_segments(frame_of(seq![a, b]) + rest) == Some(seq![a, b]),
{
    lemma_frame_of_two(a, b);
    let la = a.len() as int;
    let lb = b.len() as int;
    let na = (a.len() / 8) as u32;
    let nb = (b.len() / 8) as u32;
    assert(8 * na == la && 8 * nb == lb);
    let hdr = le32(1) + le32(na) + le32(nb) + le32(0);
    let f = hdr + a + b + rest;
    assert(frame_of(seq![a, b]) + rest =~= f);
    assert(hdr.len() == 16);
    assert(read32(f, 0) == 1 && read32(f, 4) == na && read32(f, 8) == nb) by {
        assert(f.subrange(0, 4) =~= le32(1));
        assert(f.subrange(4, 8) =~= le32(na));
        assert(f.subrange(8, 12) =~= le32(nb));
        lemma_read32_le32(1, f, 0);
        lemma_read32_le32(na, f, 4);
        lemma_read32_le32(nb, f, 8);
    }
    assert(words_before(f, 2) == na + nb) by {
        assert(words_before(f, 0) == 0);
        assert(words_before(f, 1) == na);
    }
    assert(words_before(f, 1) == na) by {
        assert(words_before(f, 0) == 0);
    }
    assert(table_bytes(2) == 16);
    assert(f.subrange(16, 16 + la) =~= a);
    assert(f.subrange(16 + la, 16 + la + lb) =~= b);
    let got = Seq::new(
        2,
        |i: int| f.subrange(16 + 8 * words_before(f, i), 16 + 8 * words_before(f, i + 1)),
    );
    assert(framed_segments(f) == Some(got));
    assert(got[0] == a);
    assert(got[1] == b);
    assert(got =~= seq![a, b]);
}

/// The bits of a far pointer to the start of segment 1.
proof fn lemma_far_pointer()
    ensures
        ptr_kind(far_pointer(1)) == 2,
        !far_double(far_pointer(1)),
        far_position(far_pointer(1)) == 0,
        far_segment(far_pointer(1)) == 1,
        far_pointer(1) != 0,
{
    lemma_pack(2, 1);
    assert((2u32 & 3) == 2 && ((2u32 >> 2) & 1) == 0 && (2u32 >> 3) == 0) by (bit_vector);
}

/// Reading a batch moved into two segments gives the batch back, when it
/// holds no more transforms than the reader's traversal limit.
#[verifier::rlimit(60)]
pub proof fn lemma_batch_split(b: TransformBatchView)
    requires
        b.transforms.len() < 0x0800_0000,
        5 + 4 * b.transforms.len() <= TRAVERSAL_LIMIT_WORDS,
    ensures
        batch_from_segments(split_segments(batch_segment(b), 16)) == Some(b),
{
    let n = b.transforms.len();
    let s = batch_segment(b);
    lemma_elements_bytes(b.transforms);
    let m = split_segments(s, 16);
    let s0 = m[0];
    let s1 = m[1];
    assert(s0.len() == 24);
    assert(s0.subrange(0, 8) =~= le64(struct_pointer(1, 1)));
    assert(s0.subrange(8, 16) =~= le64(pack(b.sequence, 0)));
    assert(s0.subrange(16, 24) =~= le64(far_pointer(1)));
    assert(s1.subrange(0, 8) =~= le64(list_pointer(COMPOSITE_ELEMENTS, (4 * n) as u32)));
    assert(s1.subrange(8, 16) =~= le64(composite_tag(n as u32, 4, 0)));
    lemma_word(s0, 0, struct_pointer(1, 1));
    lemma_word(s0, 1, pack(b.sequence, 0));
    lemma_word(s0, 2, far_pointer(1));
    lemma_word(s1, 0, list_pointer(COMPOSITE_ELEMENTS, (4 * n) as u32));
    lemma_word(s1, 1, composite_tag(n as u32, 4, 0));
    lemma_far_pointer();
    lemma_struct_pointer(1, 1);
    lemma_pack(b.sequence, 0);
    lemma_list_pointer(COMPOSITE_ELEMENTS, (4 * n) as u32);
    lemma_composite_tag(n as u32, 4, 0);
    let r = root(m);
    assert(r == StructAt { seg: 0, start: 1, data: 1, ptrs: 1 });
    assert(first_link(m, r) == Link {
        seg: 1,
        w: list_pointer(COMPOSITE_ELEMENTS, (4 * n) as u32),
        start: 1,
    });
    assert(root_charge(m) == 3);
    assert(pad_charge(m, 0, 2) == 1);
    assert(list_charge(m, r) == 4 * n + 2);
    assert(composite_or_null(m, r));
    assert(list_tag(m, r) == composite_tag(n as u32, 4, 0));
    assert(list_ok(m, r));
    assert(list_len(m, r) == n);
    let decoded = Seq::new(list_len(m, r), |i: int| transform_element(m, r, i));
    assert forall|i: int| 0 <= i < n implies #[trigger] decoded[i] == b.transforms[i] by {
        assert(element(m, r, i) == StructAt {
            seg: 1,
            start: (2 + 4 * i) as usize,
            data: 4,
            ptrs: 0,
        });
        let body = elements_bytes(b.transforms);
        assert(s1.subrange(16, s1.len() as int) =~= body);
        assert(32 * i + 32 <= 32 * n) by (nonlinear_arith)
            requires
                0 <= i < n,
        ;
        assert(s1.subrange(8 * (2 + 4 * i), 8 * (2 + 4 * i) + 32) =~= body.subrange(
            32 * i,
            32 * i + 32,
        ));
        lemma_transform_data_words(b.transforms[i], m, 1, (2 + 4 * i) as usize);
    }
    assert(decoded =~= b.transforms);
}

/// Reading a chat moved into two segments gives the chat back.
pub proof fn lemma_chat_split(c: ChatView)
    requires
        encode_utf8(c.text).len() + 1 < 0x2000_0000,
        5 + (encode_utf8(c.text).len() + 8) / 8 <= TRAVERSAL_LIMIT_WORDS,
    ensures
        chat_from_segments(split_segments(chat_segment(c), 24)) == Some(c),
{
    let t = encode_utf8(c.text);
    let l = t.len() as int;
    let s = chat_segment(c);
    lemma_segment_lengths_chat(c);
    let m = split_segments(s, 24);
    let s0 = m[0];
    let s1 = m[1];
    assert(s0.len() == 32);
    assert(s0.subrange(0, 8) =~= le64(struct_pointer(2, 1)));
    assert(s0.subrange(8, 16) =~= le64(pack(c.sender_id, c.channel as u32)));
    assert(s0.subrange(16, 24) =~= le64(c.sent_at_millis));
    assert(s0.subrange(24, 32) =~= le64(far_pointer(1)));
    assert(s1.subrange(0, 8) =~= le64(list_pointer(BYTE_ELEMENTS, (l + 1) as u32)));
    lemma_word(s0, 0, struct_pointer(2, 1));
    lemma_word(s0, 1, pack(c.sender_id, c.channel as u32));
    lemma_word(s0, 2, c.sent_at_millis);
    lemma_word(s0, 3, far_pointer(1));
    lemma_word(s1, 0, list_pointer(BYTE_ELEMENTS, (l + 1) as u32));
    lemma_far_pointer();
    lemma_struct_pointer(2, 1);
    lemma_pack(c.sender_id, c.channel as u32);
    lemma_list_pointer(BYTE_ELEMENTS, (l + 1) as u32);
    lemma_half_of(c.channel);
    let r = root(m);
    assert(r == StructAt { seg: 0, start: 1, data: 2, ptrs: 1 });
    assert(first_link(m, r) == Link {
        seg: 1,
        w: list_pointer(BYTE_ELEMENTS, (l + 1) as u32),
        start: 1,
    });
    assert(root_charge(m) == 4);
    assert(pad_charge(m, 0, 3) == 1);
    assert(text_charge(m, r) == 1 + (l + 8) / 8);
    assert(nwords(s1) == 1 + (l + 8) / 8);
    assert(s1[8 + l] == 0);
    assert(s1.subrange(8, 8 + l) =~= t);
    assert(text_ok(m, r));
    assert(text_bytes(m, r) == s1.subrange(8, 8 + l));
    assert(text_bytes(m, r) =~= t);
}

/// The length of a chat's segment.
pub proof fn lemma_segment_lengths_chat(c: ChatView)
    ensures
        chat_segment(c).len() == 32 + 8 * ((encode_utf8(c.text).len() + 8) / 8),
{
    let l = encode_utf8(c.text).len() as int;
    let pad = (8 - (l + 1) % 8) % 8;
    assert(l + 1 + pad == 8 * ((l + 8) / 8)) by (nonlinear_arith)
        requires
            pad == (8 - (l + 1) % 8) % 8,
            l >= 0,
    ;
}

/// The length of each message's segment, which its field values do not
/// change.
#[verifier::rlimit(40)]
pub proof fn lemma_segment_lengths(
    i: Input,
    t: Transform,
    b: TransformBatchView,
    c: ChatView,
    st: Stats,
)
    ensures
        input_segment(i).len() == 32,
        transform_segment(t).len() == 40,
        batch_segment(b).len() == 32 + 32 * b.transforms.len(),
        chat_segment(c).len() == 32 + 8 * ((encode_utf8(c.text).len() + 8) / 8),
        stats_segment(st).len() == 48,
{
    lemma_elements_bytes(b.transforms);
    let l = encode_utf8(c.text).len() as int;
    let pad = (8 - (l + 1) % 8) % 8;
    assert(l + 1 + pad == 8 * ((l + 8) / 8)) by (nonlinear_arith)
        requires
            pad == (8 - (l + 1) % 8) % 8,
            l >= 0,
    ;
}

/// The elements of a transform list take 32 bytes each, and the `i`-th sits
/// at `32 * i`.
pub proof fn lemma_elements_bytes(ts: Seq<Transform>)
    ensures
        elements_bytes(ts).len() == 32 * ts.len(),
        forall|i: int|
            0 <= i < ts.len() ==> elements_bytes(ts).subrange(32 * i, 32 * i + 32)
                == transform_data(#[trigger] ts[i]),
    decreases ts.len(),
{
    if ts.len() > 0 {
        let init = ts.drop_last();
        lemma_elements_bytes(init);
        let whole = elements_bytes(ts);
        assert forall|i: int| 0 <= i < ts.len() implies whole.subrange(32 * i, 32 * i + 32)
            == transform_data(#[trigger] ts[i]) by {
            if i < ts.len() - 1 {
                assert(init[i] == ts[i]);
                assert(whole.subrange(32 * i, 32 * i + 32) =~= elements_bytes(init).subrange(
                    32 * i,
                    32 * i + 32,
                ));
            } else {
                assert(whole.subrange(32 * i, 32 * i + 32) =~= transform_data(ts.last()));
            }
        }
    }
}

/// Reading the segment written for a batch gives the batch back, when it
/// holds no more transforms than the reader's traversal limit.
#[verifier::rlimit(60)]
pub proof fn lemma_batch_segment(b: TransformBatchView)
    requires
        b.transforms.len() < 0x0800_0000,
        4 + 4 * b.transforms.len() <= TRAVERSAL_LIMIT_WORDS,
    ensures
        batch_segment(b).len() == 32 + 32 * b.transforms.len(),
        batch_from_segments(seq![batch_segment(b)]) == Some(b),
{
    let n = b.transforms.len();
    let s = batch_segment(b);
    lemma_elements_bytes(b.transforms);
    assert(s.len() == 32 + 32 * n);
    assert(s.subrange(0, 8) =~= le64(struct_pointer(1, 1)));
    assert(s.subrange(8, 16) =~= le64(pack(b.sequence, 0)));
    assert(s.subrange(16, 24) =~= le64(list_pointer(COMPOSITE_ELEMENTS, (4 * n) as u32)));
    assert(s.subrange(24, 32) =~= le64(composite_tag(n as u32, 4, 0)));
    lemma_word(s, 0, struct_pointer(1, 1));
    lemma_word(s, 1, pack(b.sequence, 0));
    lemma_word(s, 2, list_pointer(COMPOSITE_ELEMENTS, (4 * n) as u32));
    lemma_word(s, 3, composite_tag(n as u32, 4, 0));
    lemma_struct_pointer(1, 1);
    lemma_pack(b.sequence, 0);
    lemma_list_pointer(COMPOSITE_ELEMENTS, (4 * n) as u32);
    lemma_composite_tag(n as u32, 4, 0);
    let ms = seq![s];
    assert(ms[0] == s);
    let r = root(ms);
    assert(r == StructAt { seg: 0, start: 1, data: 1, ptrs: 1 });
    assert(first_link(ms, r) == Link { seg: 0, w: list_pointer(COMPOSITE_ELEMENTS, (4 * n) as u32), start: 3 });
    assert(root_charge(ms) == 3);
    assert(list_charge(ms, r) == 4 * n + 1);
    assert(list_ok(ms, r));
    assert(list_len(ms, r) == n);
    assert(composite_or_null(ms, r));
    let decoded = Seq::new(list_len(ms, r), |i: int| transform_element(ms, r, i));
    assert forall|i: int| 0 <= i < n implies #[trigger] decoded[i] == b.transforms[i] by {
        assert(element(ms, r, i) == StructAt { seg: 0, start: (4 + 4 * i) as usize, data: 4, ptrs: 0 });
        let body = elements_bytes(b.transforms);
        assert(s.subrange(32, s.len() as int) =~= body);
        assert(32 * i + 32 <= 32 * n) by (nonlinear_arith)
            requires
                0 <= i < n,
        ;
        assert(s.subrange(8 * (4 + 4 * i), 8 * (4 + 4 * i) + 32) =~= body.subrange(
            32 * i,
            32 * i + 32,
        ));
        lemma_transform_data_words(b.transforms[i], ms, 0, (4 + 4 * i) as usize);
    }
    assert(decoded =~= b.transforms);
}

/// Reading the segment written for a chat line gives it back.
pub proof fn lemma_chat_segment(c: ChatView)
    requires
        encode_utf8(c.text).len() + 1 < 0x2000_0000,
        4 + (encode_utf8(c.text).len() + 8) / 8 <= TRAVERSAL_LIMIT_WORDS,
    ensures
        chat_segment(c).len() == 32 + 8 * ((encode_utf8(c.text).len() + 8) / 8),
        chat_from_segments(seq![chat_segment(c)]) == Some(c),
{
    let t = encode_utf8(c.text);
    let l = t.len() as int;
    let s = chat_segment(c);
    let pad = (8 - (l + 1) % 8) % 8;
    assert(l + 1 + pad == 8 * ((l + 8) / 8)) by (nonlinear_arith)
        requires
            pad == (8 - (l + 1) % 8) % 8,
            l >= 0,
    ;
    assert(s.len() == 32 + l + 1 + pad);
    assert(s.subrange(0, 8) =~= le64(struct_pointer(2, 1)));
    assert(s.subrange(8, 16) =~= le64(pack(c.sender_id, c.channel as u32)));
    assert(s.subrange(16, 24) =~= le64(c.sent_at_millis));
    assert(s.subrange(24, 32) =~= le64(list_pointer(BYTE_ELEMENTS, (l + 1) as u32)));
    lemma_word(s, 0, struct_pointer(2, 1));
    lemma_word(s, 1, pack(c.sender_id, c.channel as u32));
    lemma_word(s, 2, c.sent_at_millis);
    lemma_word(s, 3, list_pointer(BYTE_ELEMENTS, (l + 1) as u32));
    lemma_struct_pointer(2, 1);
    lemma_pack(c.sender_id, c.channel as u32);
    lemma_list_pointer(BYTE_ELEMENTS, (l + 1) as u32);
    lemma_half_of(c.channel);
    let ms = seq![s];
    assert(ms[0] == s);
    let r = root(ms);
    assert(nwords(s) == 4 + (l + 8) / 8);
    assert(r == StructAt { seg: 0, start: 1, data: 2, ptrs: 1 });
    assert(first_link(ms, r) == Link { seg: 0, w: list_pointer(BYTE_ELEMENTS, (l + 1) as u32), start: 4 });
    assert(root_charge(ms) == 4);
    assert(text_charge(ms, r) == (l + 8) / 8);
    assert(s[32 + l] == 0);
    assert(text_ok(ms, r));
    assert(text_bytes(ms, r) =~= t);
}

// ---------------------------------------------------------------- layout laws

/// A word made of two halves is the low half's four bytes, then the high
/// half's.
pub proof fn lemma_le64_pack(lo: u32, hi: u32)
    ensures
        le64(pack(lo, hi)) == le32(lo) + le32(hi),
{
    lemma_pack(lo, hi);
}

/// The data section of a transform, in the slots the schema compiler
/// assigns in declaration order: entity_id at byte 0, kind at 4 (its word's
/// bytes 5 to 7 zero), color at 8, position_x at 12, position_y at 16,
/// position_z at 20, yaw at 24, pitch at 28; four words.
pub proof fn lemma_transform_data_layout(t: Transform)
    ensures
        transform_data(t).len() == 32,
        transform_data(t).subrange(0, 4) == le32(t.entity_id),
        transform_data(t).subrange(4, 8) == le32(t.kind as u32),
        transform_data(t).subrange(8, 12) == le32(t.color),
        transform_data(t).subrange(12, 16) == le32(t.position_x),
        transform_data(t).subrange(16, 20) == le32(t.position_y),
        transform_data(t).subrange(20, 24) == le32(t.position_z),
        transform_data(t).subrange(24, 28) == le32(t.yaw),
        transform_data(t).subrange(28, 32) == le32(t.pitch),
{
    lemma_le64_pack(t.entity_id, t.kind as u32);
    lemma_le64_pack(t.color, t.position_x);
    lemma_le64_pack(t.position_y, t.position_z);
    lemma_le64_pack(t.yaw, t.pitch);
    let w = transform_data(t);
    assert(w.subrange(0, 4) =~= le32(t.entity_id));
    assert(w.subrange(4, 8) =~= le32(t.kind as u32));
    assert(w.subrange(8, 12) =~= le32(t.color));
    assert(w.subrange(12, 16) =~= le32(t.position_x));
    assert(w.subrange(16, 20) =~= le32(t.position_y));
    assert(w.subrange(20, 24) =~= le32(t.position_z));
    assert(w.subrange(24, 28) =~= le32(t.yaw));
    assert(w.subrange(28, 32) =~= le32(t.pitch));
}

/// A transform's segment: the root struct pointer (four data words, no
/// pointers), then its data section.
pub proof fn lemma_transform_segment_layout(t: Transform)
    ensures
        transform_segment(t).len() == 40,
        transform_segment(t).subrange(0, 8) == le64(struct_pointer(4, 0)),
        transform_segment(t).subrange(8, 40) == transform_data(t),
        transform_segment(t).subrange(16, 20) == le32(t.color),
        transform_segment(t).subrange(20, 24) == le32(t.position_x),
{
    lemma_transform_data_layout(t);
    let w = transform_segment(t);
    assert(w.subrange(0, 8) =~= le64(struct_pointer(4, 0)));
    assert(w.subrange(8, 40) =~= transform_data(t));
    assert(w.subrange(16, 20) =~= transform_data(t).subrange(8, 12));
    assert(w.subrange(20, 24) =~= transform_data(t).subrange(12, 16));
}

/// An input's segment: the root struct pointer (three data words, no
/// pointers), then sequence at 8, move_x at 12, move_z at 16, jump as bit 0
/// of byte 20 (the word's other bits zero), look_yaw at 24, look_pitch at
/// 28.
pub proof fn lemma_input_segment_layout(m: Input)
    ensures
        input_segment(m).len() == 32,
        input_segment(m).subrange(0, 8) == le64(struct_pointer(3, 0)),
        input_segment(m).subrange(8, 12) == le32(m.sequence),
        input_segment(m).subrange(12, 16) == le32(m.move_x),
        input_segment(m).subrange(16, 20) == le32(m.move_z),
        input_segment(m).subrange(20, 24) == le32(
            if m.jump {
                1u32
            } else {
                0u32
            },
        ),
        input_segment(m).subrange(24, 28) == le32(m.look_yaw),
        input_segment(m).subrange(28, 32) == le32(m.look_pitch),
{
    lemma_le64_pack(m.sequence, m.move_x);
    lemma_le64_pack(m.move_z, bool32(m.jump));
    lemma_le64_pack(m.look_yaw, m.look_pitch);
    let w = input_segment(m);
    assert(w.subrange(0, 8) =~= le64(struct_pointer(3, 0)));
    assert(w.subrange(8, 12) =~= le32(m.sequence));
    assert(w.subrange(12, 16) =~= le32(m.move_x));
    assert(w.subrange(16, 20) =~= le32(m.move_z));
    assert(w.subrange(20, 24) =~= le32(bool32(m.jump)));
    assert(w.subrange(24, 28) =~= le32(m.look_yaw));
    assert(w.subrange(28, 32) =~= le32(m.look_pitch));
}

/// Stats' segment: the root struct pointer (five data words, no pointers),
/// then player_id at 8, level at 16 (two bytes, then two zero bytes),
/// health at 20, mana at 24, gold at 28, experience at 32, kills at 40,
/// deaths at 44.
pub proof fn lemma_stats_segment_layout(m: Stats)
    ensures
        stats_segment(m).len() == 48,
        stats_segment(m).subrange(0, 8) == le64(struct_pointer(5, 0)),
        stats_segment(m).subrange(8, 16) == le64(m.player_id),
        stats_segment(m).subrange(16, 20) == le32(m.level as u32),
        stats_segment(m).subrange(20, 24) == le32(m.health),
        stats_segment(m).subrange(24, 28) == le32(m.mana),
        stats_segment(m).subrange(28, 32) == le32(m.gold),
        stats_segment(m).subrange(32, 40) == le64(m.experience),
        stats_segment(m).subrange(40, 44) == le32(m.kills),
        stats_segment(m).subrange(44, 48) == le32(m.deaths),
{
    lemma_le64_pack(m.level as u32, m.health);
    lemma_le64_pack(m.mana, m.gold);
    lemma_le64_pack(m.kills, m.deaths);
    let w = stats_segment(m);
    assert(w.subrange(0, 8) =~= le64(struct_pointer(5, 0)));
    assert(w.subrange(8, 16) =~= le64(m.player_id));
    assert(w.subrange(16, 20) =~= le32(m.level as u32));
    assert(w.subrange(20, 24) =~= le32(m.health));
    assert(w.subrange(24, 28) =~= le32(m.mana));
    assert(w.subrange(28, 32) =~= le32(m.gold));
    assert(w.subrange(32, 40) =~= le64(m.experience));
    assert(w.subrange(40, 44) =~= le32(m.kills));
    assert(w.subrange(44, 48) =~= le32(m.deaths));
}

/// A batch's segment: the root struct pointer (one data word, one
/// pointer), sequence at 8 (then four zero bytes), the list pointer at 16,
/// the list's tag at 24, then each transform's data section in order, the
/// `i`-th at `32 + 32 i`.
pub proof fn lemma_batch_segment_layout(b: TransformBatchView)
    ensures
        batch_segment(b).len() == 32 + 32 * b.transforms.len(),
        batch_segment(b).subrange(0, 8) == le64(struct_pointer(1, 1)),
        batch_segment(b).subrange(8, 12) == le32(b.sequence),
        batch_segment(b).subrange(12, 16) == le32(0),
        batch_segment(b).subrange(16, 24) == le64(
            list_pointer(COMPOSITE_ELEMENTS, (4 * b.transforms.len()) as u32),
        ),
        batch_segment(b).subrange(24, 32) == le64(composite_tag(b.transforms.len() as u32, 4, 0)),
        forall|i: int|
            0 <= i < b.transforms.len() ==> batch_segment(b).subrange(32 + 32 * i, 64 + 32 * i)
                == transform_data(#[trigger] b.transforms[i]),
{
    let ts = b.transforms;
    lemma_elements_bytes(ts);
    lemma_le64_pack(b.sequence, 0);
    let w = batch_segment(b);
    assert(w.subrange(0, 8) =~= le64(struct_pointer(1, 1)));
    assert(w.subrange(8, 12) =~= le32(b.sequence));
    assert(w.subrange(12, 16) =~= le32(0));
    assert(w.subrange(16, 24) =~= le64(list_pointer(COMPOSITE_ELEMENTS, (4 * ts.len()) as u32)));
    assert(w.subrange(24, 32) =~= le64(composite_tag(ts.len() as u32, 4, 0)));
    assert forall|i: int| 0 <= i < ts.len() implies w.subrange(32 + 32 * i, 64 + 32 * i)
        == transform_data(#[trigger] ts[i]) by {
        assert(w.subrange(32 + 32 * i, 64 + 32 * i) =~= elements_bytes(ts).subrange(
            32 * i,
            32 * i + 32,
        ));
    }
}

/// A chat's segment: the root struct pointer (two data words, one
/// pointer), sender_id at 8, channel at 12 (two bytes, then two zero
/// bytes), sent_at_millis at 16, the text's byte-list pointer at 24, then
/// the text's UTF-8 bytes, a NUL, and zero bytes to the end of the word.
pub proof fn lemma_chat_segment_layout(c: ChatView)
    ensures
        chat_segment(c).subrange(0, 8) == le64(struct_pointer(2, 1)),
        chat_segment(c).subrange(8, 12) == le32(c.sender_id),
        chat_segment(c).subrange(12, 16) == le32(c.channel as u32),
        chat_segment(c).subrange(16, 24) == le64(c.sent_at_millis),
        chat_segment(c).subrange(24, 32) == le64(
            list_pointer(BYTE_ELEMENTS, (encode_utf8(c.text).len() + 1) as u32),
        ),
        chat_segment(c).subrange(32, 32 + encode_utf8(c.text).len() as int) == encode_utf8(c.text),
        chat_segment(c)[32 + encode_utf8(c.text).len() as int] == 0,
        chat_segment(c).len() % 8 == 0,
        chat_segment(c).len() - 8 < 32 + encode_utf8(c.text).len() + 1 <= chat_segment(c).len(),
        forall|k: int|
            32 + encode_utf8(c.text).len() < k < chat_segment(c).len() ==> #[trigger] chat_segment(
                c,
            )[k] == 0,
{
    let t = encode_utf8(c.text);
    let l = t.len() as int;
    lemma_le64_pack(c.sender_id, c.channel as u32);
    let w = chat_segment(c);
    let p = padding(l + 1);
    assert(p.len() == (8 - (l + 1) % 8) % 8);
    assert(w.subrange(0, 8) =~= le64(struct_pointer(2, 1)));
    assert(w.subrange(8, 12) =~= le32(c.sender_id));
    assert(w.subrange(12, 16) =~= le32(c.channel as u32));
    assert(w.subrange(16, 24) =~= le64(c.sent_at_millis));
    assert(w.subrange(24, 32) =~= le64(list_pointer(BYTE_ELEMENTS, (l + 1) as u32)));
    assert(w.subrange(32, 32 + l) =~= t);
    assert(w[32 + l] == 0);
    assert forall|k: int| 32 + l < k < w.len() implies #[trigger] w[k] == 0 by {
        assert(w[k] == p[k - 33 - l]);
    }
}

} // verus!

