use vstd::prelude::*;

use crate::codec::{
    encode_all, encode_tag, frames_back, le_bytes_of, lemma_le_bytes_round_trip,
    lemma_tags_of_encoded, looks_like_name, name_at_is, parse_tag, parse_tags, stream_frames_back,
    tag_frame, tags_of, Tag, TagView,
};
use crate::errors::ParseError;
use crate::header::{
    group_header_of, header_from_tags, header_of, nil_guid, parse_group_header, qvrs_name, Guid,
};
use crate::quest3d::flat_of;
use crate::transform::{decompress, decompress_of, unprotect, unprotect_of};

verus! {

/// `ACTF`: the entry tag of a wrapped container.
pub open spec fn actf_name() -> Seq<u8> {
    seq![0x41u8, 0x43u8, 0x54u8, 0x46u8]
}

/// The engine version of a plain container whose header cannot be read.
pub const PLAIN_ENGINE_VERSION: u32 = 60;

/// The container variants, told apart by the entry tag.
#[derive(Debug, Clone, Copy, PartialEq, Eq, Structural)]
pub enum ContainerKind {
    /// `QVRS`: the tag stream is stored as it is.
    Plain,
    /// `ACTF`: the tag stream is compressed, and possibly obfuscated.
    Wrapped,
}

/// The variant that an entry tag name selects, if any.
pub open spec fn container_kind_of(name: Seq<u8>) -> Option<ContainerKind> {
    if name == qvrs_name() {
        Some(ContainerKind::Plain)
    } else if name == actf_name() {
        Some(ContainerKind::Wrapped)
    } else {
        None
    }
}

/// The variant selected by the name at the start of `input`.
pub fn container_kind(input: &[u8]) -> (r: Option<ContainerKind>)
    requires
        input@.len() >= 4,
    ensures
        r == container_kind_of(input@.take(4)),
{
    let qvrs = [0x51u8, 0x56u8, 0x52u8, 0x53u8];
    let actf = [0x41u8, 0x43u8, 0x54u8, 0x46u8];
    assert(qvrs@ =~= qvrs_name());
    assert(actf@ =~= actf_name());
    assert(input@.subrange(0, 4) =~= input@.take(4));
    if name_at_is(input, 0, qvrs) {
        Some(ContainerKind::Plain)
    } else if name_at_is(input, 0, actf) {
        Some(ContainerKind::Wrapped)
    } else {
        None
    }
}

/// A channel group as the structured read path gives it.
///
/// `name` and `channels` stay empty: the channel bodies are not decoded.
#[derive(Debug)]
pub struct ChannelGroup {
    pub engine_version: u32,
    pub guid: Guid,
    pub name: String,
    pub channels: Vec<Tag>,
}

/// The stream that follows the entry tag of `b`. The entry tag is read
/// like any other tag, except that an entry name filling the whole buffer
/// leaves an empty stream behind it.
pub open spec fn after_entry(b: Seq<u8>) -> Result<Seq<u8>, ParseError> {
    if b.len() == 4 {
        Ok(Seq::empty())
    } else {
        match tag_frame(b) {
            Err(e) => Err(e),
            Ok((_, _, k)) => Ok(b.skip(k as int)),
        }
    }
}

/// Engine version and identifier of the group in the buffer `b`.
///
/// In a plain container the stream after the entry tag must be a complete
/// tag stream; where a header can be read from it, it gives both values,
/// else they are `60` and the nil identifier. In a wrapped one that stream
/// goes through the compression and obfuscation layers and must then hold
/// a header.
pub open spec fn decode_of(b: Seq<u8>) -> Result<(u32, Seq<u8>), ParseError> {
    if b.len() < 4 {
        Err(ParseError::TruncatedInput)
    } else {
        match container_kind_of(b.take(4)) {
            None => Err(ParseError::InvalidFileType),
            Some(ContainerKind::Plain) => match after_entry(b) {
                Err(e) => Err(e),
                Ok(rest) => match tags_of(rest) {
                    Err(e) => Err(e),
                    Ok(ts) => match header_of(ts) {
                        Ok(h) => Ok((h.0, h.1)),
                        Err(_) => Ok((PLAIN_ENGINE_VERSION, nil_guid())),
                    },
                },
            },
            Some(ContainerKind::Wrapped) => match after_entry(b) {
                Err(e) => Err(e),
                Ok(rest) => match decompress_of(rest) {
                    Err(e) => Err(e),
                    Ok(d) => match unprotect_of(d) {
                        Err(e) => Err(e),
                        Ok(u) => match group_header_of(u) {
                            Err(e) => Err(e),
                            Ok(h) => Ok((h.0, h.1)),
                        },
                    },
                },
            },
        }
    }
}

/// The bytes of `input` after its entry tag.
pub fn skip_entry(input: &[u8]) -> (r: Result<&[u8], ParseError>)
    requires
        input@.len() >= 4,
    ensures
        match r {
            Ok(rest) => after_entry(input@) == Ok::<Seq<u8>, ParseError>(rest@),
            Err(e) => after_entry(input@) == Err::<Seq<u8>, ParseError>(e),
        },
{
    if input.len() == 4 {
        let rest = vstd::slice::slice_subrange(input, 4, 4);
        assert(rest@ =~= Seq::<u8>::empty());
        return Ok(rest);
    }
    assert(input@.skip(0) =~= input@);
    let next = match parse_tag(input, 0) {
        Ok((_, next)) => next,
        Err(e) => return Err(e),
    };
    let rest = vstd::slice::slice_subrange(input, next, input.len());
    assert(rest@ =~= input@.skip(next as int));
    Ok(rest)
}

/// Decodes a channel-group file held in `input`.
pub fn parse_file(input: &[u8]) -> (r: Result<ChannelGroup, ParseError>)
    ensures
        match r {
            Ok(g) => {
                &&& decode_of(input@) == Ok::<(u32, Seq<u8>), ParseError>(
                    (g.engine_version, g.guid@),
                )
                &&& g.name@.len() == 0
                &&& g.channels@.len() == 0
            },
            Err(e) => decode_of(input@) == Err::<(u32, Seq<u8>), ParseError>(e),
        },
{
    if input.len() < 4 {
        return Err(ParseError::TruncatedInput);
    }
    let kind = match container_kind(input) {
        Some(kind) => kind,
        None => return Err(ParseError::InvalidFileType),
    };
    let rest = match skip_entry(input) {
        Ok(rest) => rest,
        Err(e) => return Err(e),
    };
    let (engine_version, guid) = match kind {
        ContainerKind::Plain => {
            let tags = match parse_tags(rest) {
                Ok(tags) => tags,
                Err(e) => return Err(e),
            };
            match header_from_tags(tags.as_slice()) {
                Ok(h) => (h.engine_version, h.guid),
                Err(_) => (PLAIN_ENGINE_VERSION, Guid::nil()),
            }
        },
        ContainerKind::Wrapped => {
            let decompressed = match decompress(rest) {
                Ok(d) => d,
                Err(e) => return Err(e),
            };
            let unprotected = match unprotect(decompressed.as_slice()) {
                Ok(u) => u,
                Err(e) => return Err(e),
            };
            let h = match parse_group_header(unprotected.as_slice()) {
                Ok(h) => h,
                Err(e) => return Err(e),
            };
            (h.engine_version, h.guid)
        },
    };
    Ok(ChannelGroup { engine_version, guid, name: String::new(), channels: Vec::new() })
}

/// A buffer of four bytes or more whose entry tag is neither `QVRS` nor
/// `ACTF` is rejected as `InvalidFileType`, whatever follows the name.
pub proof fn lemma_unknown_entry_rejected(b: Seq<u8>)
    requires
        b.len() >= 4,
        b.take(4) != qvrs_name(),
        b.take(4) != actf_name(),
    ensures
        decode_of(b) == Err::<(u32, Seq<u8>), ParseError>(ParseError::InvalidFileType),
{
}

/// Any well-framed tag stream cut off inside the payload of its last tag `t`
/// is rejected as truncated: by the tag reader and, where the buffer starts
/// with an entry tag, by both read paths.
pub proof fn lemma_truncated_payload_rejected(ts: Seq<TagView>, t: TagView, cut: int)
    requires
        stream_frames_back(ts, t.0),
        frames_back(t, Seq::empty()),
        t.1.len() > 0,
        8 <= cut < 8 + t.1.len(),
    ensures
        tags_of(encode_all(ts) + encode_tag(t).take(cut)) == Err::<Seq<TagView>, ParseError>(
            ParseError::TruncatedInput,
        ),
        container_kind_of((encode_all(ts) + encode_tag(t).take(cut)).take(4)) is Some ==> {
            &&& flat_of(encode_all(ts) + encode_tag(t).take(cut)) == Err::<Seq<TagView>, ParseError>(
                ParseError::TruncatedInput,
            )
            &&& decode_of(encode_all(ts) + encode_tag(t).take(cut)) == Err::<
                (u32, Seq<u8>),
                ParseError,
            >(ParseError::TruncatedInput)
        },
{
    let c = encode_tag(t).take(cut);
    let b = encode_all(ts) + c;
    let n = t.1.len();
    let le = le_bytes_of(n);
    lemma_le_bytes_round_trip(n);
    assert(encode_tag(t) == t.0 + le + t.1);
    assert(c.take(4) =~= t.0);
    assert(c.skip(4)[0] == le[0] && c.skip(4)[1] == le[1]);
    assert(c.skip(4)[2] == le[2] && c.skip(4)[3] == le[3]);
    assert(tag_frame(c) == Err::<(Seq<u8>, Seq<u8>, nat), ParseError>(ParseError::TruncatedInput));
    assert(tags_of(c) == Err::<Seq<TagView>, ParseError>(ParseError::TruncatedInput));
    assert(looks_like_name(c) == looks_like_name(t.0)) by {
        assert(c[0] == t.0[0] && c[1] == t.0[1] && c[2] == t.0[2] && c[3] == t.0[3]);
    }
    assert forall|i: int| 0 <= i < ts.len() implies frames_back(
        #[trigger] ts[i],
        if i + 1 < ts.len() {
            ts[i + 1].0
        } else {
            c
        },
    ) by {
        assert(frames_back(
            ts[i],
            if i + 1 < ts.len() {
                ts[i + 1].0
            } else {
                t.0
            },
        ));
    }
    lemma_tags_of_encoded(ts, c);
    assert(tags_of(b) == Err::<Seq<TagView>, ParseError>(ParseError::TruncatedInput));
}

} // verus!
