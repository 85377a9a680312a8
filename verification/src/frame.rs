//! Length-prefixed frames: a 4-byte little-endian length, then that many
//! bytes of payload. The write-ahead log and the record cursor of the
//! append storage share the format.

use vstd::prelude::*;
use vstd::bytes::{
    lemma_auto_spec_u32_to_from_le_bytes, spec_u32_from_le_bytes, spec_u32_to_le_bytes,
    u32_from_le_bytes, u32_to_le_bytes,
};
use vstd::slice::{slice_subrange, slice_to_vec};

verus! {

/// Bytes of the length prefix.
pub const PREFIX_BYTES: usize = 4;

/// Longest payload that a frame can hold.
pub const MAX_PAYLOAD: usize = 0xffff_ffff;

/// The frame of `payload`.
pub open spec fn frame(payload: Seq<u8>) -> Seq<u8>
    recommends
        payload.len() <= MAX_PAYLOAD,
{
    spec_u32_to_le_bytes(payload.len() as u32) + payload
}

/// The frames of `payloads`, one after the other.
pub open spec fn frames(payloads: Seq<Seq<u8>>) -> Seq<u8>
    decreases payloads.len(),
{
    if payloads.len() == 0 {
        Seq::empty()
    } else {
        frame(payloads.first()) + frames(payloads.drop_first())
    }
}

/// Length that the prefix at the head of `bytes` announces.
pub open spec fn announced(bytes: Seq<u8>) -> int
    recommends
        bytes.len() >= PREFIX_BYTES,
{
    spec_u32_from_le_bytes(bytes.subrange(0, PREFIX_BYTES as int)) as int
}

/// Whether `bytes` begins with a whole frame.
pub open spec fn has_frame(bytes: Seq<u8>) -> bool {
    bytes.len() >= PREFIX_BYTES && PREFIX_BYTES + announced(bytes) <= bytes.len()
}

/// The payloads of the whole frames at the head of `bytes`, in order.
/// Reading stops where fewer bytes are left than a prefix or than the
/// prefix announces: a torn tail is dropped.
pub open spec fn parse_frames(bytes: Seq<u8>) -> Seq<Seq<u8>>
    decreases bytes.len(),
{
    if has_frame(bytes) {
        let end = PREFIX_BYTES + announced(bytes);
        seq![bytes.subrange(PREFIX_BYTES as int, end)] + parse_frames(
            bytes.subrange(end, bytes.len() as int),
        )
    } else {
        Seq::empty()
    }
}

/// Views of a list of payloads.
pub open spec fn payload_views(payloads: Seq<Vec<u8>>) -> Seq<Seq<u8>> {
    payloads.map_values(|p: Vec<u8>| p@)
}

/// Every payload fits a frame.
pub open spec fn all_fit(payloads: Seq<Seq<u8>>) -> bool {
    forall|i: int| 0 <= i < payloads.len() ==> (#[trigger] payloads[i]).len() <= MAX_PAYLOAD
}

/// Frames `payload`.
pub fn encode_frame(payload: &[u8]) -> (framed: Vec<u8>)
    requires
        payload@.len() <= MAX_PAYLOAD,
    ensures
        framed@ == frame(payload@),
{
    let mut framed = u32_to_le_bytes(payload.len() as u32);
    let ghost prefix = framed@;
    let mut i: usize = 0;
    while i < payload.len()
        invariant
            i <= payload@.len(),
            framed@ == prefix + payload@.take(i as int),
        decreases payload@.len() - i,
    {
        framed.push(payload[i]);
        assert(payload@.take(i + 1) =~= payload@.take(i as int).push(payload@[i as int]));
        assert(framed@ =~= prefix + payload@.take(i + 1));
        i += 1;
    }
    assert(payload@.take(payload@.len() as int) =~= payload@);
    framed
}

/// The payload of the frame that begins at `cursor`, as its start and
/// length, if a whole frame lies between `cursor` and `end`.
pub fn next_frame(bytes: &[u8], cursor: usize, end: usize) -> (found: Option<(usize, usize)>)
    requires
        cursor <= end <= bytes@.len(),
    ensures
        match found {
            Some((start, length)) => has_frame(bytes@.subrange(cursor as int, end as int))
                && start == cursor + PREFIX_BYTES && length == announced(
                bytes@.subrange(cursor as int, end as int),
            ) && start + length <= end,
            None => !has_frame(bytes@.subrange(cursor as int, end as int)),
        },
{
    if end - cursor < PREFIX_BYTES {
        return None;
    }
    let prefix = slice_subrange(bytes, cursor, cursor + PREFIX_BYTES);
    assert(prefix@ =~= bytes@.subrange(cursor as int, end as int).subrange(
        0,
        PREFIX_BYTES as int,
    ));
    let length = u32_from_le_bytes(prefix) as usize;
    if length > end - cursor - PREFIX_BYTES {
        return None;
    }
    Some((cursor + PREFIX_BYTES, length))
}

/// The payloads of the whole frames in `bytes`.
pub fn decode_frames(bytes: &[u8]) -> (payloads: Vec<Vec<u8>>)
    ensures
        payload_views(payloads@) == parse_frames(bytes@),
{
    let mut payloads: Vec<Vec<u8>> = Vec::new();
    let mut cursor: usize = 0;
    let end = bytes.len();
    assert(bytes@.subrange(0, end as int) =~= bytes@);
    assert(payload_views(payloads@) =~= Seq::<Seq<u8>>::empty());
    loop
        invariant
            cursor <= end,
            end == bytes@.len(),
            parse_frames(bytes@) == payload_views(payloads@) + parse_frames(
                bytes@.subrange(cursor as int, end as int),
            ),
        ensures
            payload_views(payloads@) == parse_frames(bytes@),
        decreases end - cursor,
    {
        match next_frame(bytes, cursor, end) {
            None => {
                assert(payload_views(payloads@) + Seq::<Seq<u8>>::empty() =~= payload_views(
                    payloads@,
                ));
                break;
            },
            Some((start, length)) => {
                let payload = slice_to_vec(slice_subrange(bytes, start, start + length));
                let ghost rest = bytes@.subrange(cursor as int, end as int);
                let ghost before = payload_views(payloads@);
                payloads.push(payload);
                proof {
                    assert(payload@ =~= rest.subrange(
                        PREFIX_BYTES as int,
                        PREFIX_BYTES + announced(rest),
                    ));
                    assert(rest.subrange(PREFIX_BYTES + announced(rest), rest.len() as int)
                        =~= bytes@.subrange(start + length, end as int));
                    assert(payload_views(payloads@) =~= before.push(payload@));
                    assert(before + (seq![payload@] + parse_frames(
                        bytes@.subrange(start + length, end as int),
                    )) =~= before.push(payload@) + parse_frames(
                        bytes@.subrange(start + length, end as int),
                    ));
                }
                cursor = start + length;
            },
        }
    }
    payloads
}

/// A frame, followed by anything, parses to its payload, followed by what
/// the rest parses to.
pub proof fn lemma_parse_frame_head(payload: Seq<u8>, rest: Seq<u8>)
    requires
        payload.len() <= MAX_PAYLOAD,
    ensures
        parse_frames(frame(payload) + rest) == seq![payload] + parse_frames(rest),
        frame(payload).len() == PREFIX_BYTES + payload.len(),
{
    lemma_auto_spec_u32_to_from_le_bytes();
    let bytes = frame(payload) + rest;
    let prefix = spec_u32_to_le_bytes(payload.len() as u32);
    assert(bytes.subrange(0, PREFIX_BYTES as int) =~= prefix);
    assert(announced(bytes) == payload.len());
    assert(bytes.subrange(PREFIX_BYTES as int, PREFIX_BYTES + payload.len()) =~= payload);
    assert(bytes.subrange(PREFIX_BYTES + payload.len(), bytes.len() as int) =~= rest);
}

/// Round trip: what was framed is read back, frame by frame, in order.
pub proof fn lemma_frames_roundtrip(payloads: Seq<Seq<u8>>)
    requires
        all_fit(payloads),
    ensures
        parse_frames(frames(payloads)) == payloads,
    decreases payloads.len(),
{
    if payloads.len() == 0 {
        assert(parse_frames(frames(payloads)) =~= payloads);
    } else {
        let tail = payloads.drop_first();
        assert(all_fit(tail)) by {
            assert forall|i: int| 0 <= i < tail.len() implies (#[trigger] tail[i]).len()
                <= MAX_PAYLOAD by {
                assert(tail[i] == payloads[i + 1]);
            }
        }
        lemma_frames_roundtrip(tail);
        lemma_parse_frame_head(payloads.first(), frames(tail));
        assert(seq![payloads.first()] + tail =~= payloads);
    }
}

/// Torn tail: frames followed by the beginning of one more frame, cut
/// anywhere before its end, are read back as the whole frames alone.
pub proof fn lemma_torn_tail_is_dropped(payloads: Seq<Seq<u8>>, last: Seq<u8>, cut: int)
    requires
        all_fit(payloads),
        last.len() <= MAX_PAYLOAD,
        0 <= cut < PREFIX_BYTES + last.len(),
    ensures
        parse_frames(frames(payloads) + frame(last).take(cut)) == payloads,
    decreases payloads.len(),
{
    lemma_auto_spec_u32_to_from_le_bytes();
    let torn = frame(last).take(cut);
    if payloads.len() == 0 {
        assert(frames(payloads) + torn =~= torn);
        if cut >= PREFIX_BYTES {
            assert(torn.subrange(0, PREFIX_BYTES as int) =~= spec_u32_to_le_bytes(
                last.len() as u32,
            ));
            assert(announced(torn) == last.len());
        }
        assert(!has_frame(torn));
        assert(parse_frames(torn) =~= payloads);
    } else {
        let tail = payloads.drop_first();
        assert(all_fit(tail)) by {
            assert forall|i: int| 0 <= i < tail.len() implies (#[trigger] tail[i]).len()
                <= MAX_PAYLOAD by {
                assert(tail[i] == payloads[i + 1]);
            }
        }
        lemma_torn_tail_is_dropped(tail, last, cut);
        lemma_parse_frame_head(payloads.first(), frames(tail) + torn);
        assert(frames(payloads) + torn =~= frame(payloads.first()) + (frames(tail) + torn));
        assert(seq![payloads.first()] + tail =~= payloads);
    }
}

/// Framing one more payload appends its frame.
pub proof fn lemma_frames_push(payloads: Seq<Seq<u8>>, payload: Seq<u8>)
    requires
        payload.len() <= MAX_PAYLOAD,
    ensures
        frames(payloads.push(payload)) == frames(payloads) + frame(payload),
    decreases payloads.len(),
{
    let grown = payloads.push(payload);
    if payloads.len() == 0 {
        assert(grown.first() == payload);
        assert(grown.drop_first() =~= Seq::<Seq<u8>>::empty());
        assert(frames(grown.drop_first()) =~= Seq::<u8>::empty());
        assert(frames(payloads) =~= Seq::<u8>::empty());
        assert(frames(grown) =~= frames(payloads) + frame(payload));
    } else {
        lemma_frames_push(payloads.drop_first(), payload);
        assert(grown.first() == payloads.first());
        assert(grown.drop_first() =~= payloads.drop_first().push(payload));
        assert(frames(grown) =~= frames(payloads) + frame(payload));
    }
}

} // verus!
