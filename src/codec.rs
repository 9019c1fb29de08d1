use vstd::prelude::*;
use vstd::utf8::*;

use crate::errors::ParseError;

verus! {

broadcast use vstd::utf8::decode_utf8_encode_utf8, vstd::utf8::encode_utf8_decode_utf8;

/// A tag as the format sees it: the bytes of its name and its payload.
pub type TagView = (Seq<u8>, Seq<u8>);

/// A named chunk of the container: a four-byte name and a payload,
/// which is empty for a marker tag.
#[derive(Debug)]
pub struct Tag {
    pub name: String,
    pub data: Vec<u8>,
}

impl View for Tag {
    type V = TagView;

    open spec fn view(&self) -> TagView {
        (encode_utf8(self.name@), self.data@)
    }
}

impl Tag {
    /// A tag with the given name and payload.
    pub fn new(name: String, data: Vec<u8>) -> (r: Self)
        ensures
            r.name == name,
            r.data == data,
    {
        Self { name, data }
    }

    /// Whether the bytes of the name are `name`.
    pub fn name_is(&self, name: [u8; 4]) -> (r: bool)
        ensures
            r == (self@.0 == name@),
    {
        let b = self.name.as_str().as_bytes();
        if b.len() != 4 {
            return false;
        }
        let r = name_at_is(b, 0, name);
        assert(b@.subrange(0, 4) =~= b@);
        r
    }
}

/// The views of a sequence of tags.
pub open spec fn tags_view(v: Seq<Tag>) -> Seq<TagView> {
    v.map_values(|t: Tag| t@)
}

/// `A3DG`: the magic marker, which never carries a length field.
pub open spec fn magic_name() -> Seq<u8> {
    seq![0x41u8, 0x33u8, 0x44u8, 0x47u8]
}

pub open spec fn is_upper(b: u8) -> bool {
    0x41 <= b <= 0x5a
}

/// The next four bytes are upper-case ASCII letters: they read as a tag name,
/// not as a length.
pub open spec fn looks_like_name(s: Seq<u8>) -> bool {
    s.len() >= 4 && is_upper(s[0]) && is_upper(s[1]) && is_upper(s[2]) && is_upper(s[3])
}

/// The little-endian unsigned integer in the first four bytes of `b`.
pub open spec fn le_u32_of(b: Seq<u8>) -> nat {
    b[0] as nat + 256 * (b[1] as nat) + 65536 * (b[2] as nat) + 16777216 * (b[3] as nat)
}

/// The four little-endian bytes of `n`.
pub open spec fn le_bytes_of(n: nat) -> Seq<u8> {
    seq![
        (n % 256) as u8,
        ((n / 256) % 256) as u8,
        ((n / 65536) % 256) as u8,
        ((n / 16777216) % 256) as u8,
    ]
}

/// The tag at the start of `s`: its name, its payload and the number of
/// bytes it takes up.
pub open spec fn tag_frame(s: Seq<u8>) -> Result<(Seq<u8>, Seq<u8>, nat), ParseError> {
    if s.len() < 4 {
        Err(ParseError::TruncatedInput)
    } else if !valid_utf8(s.take(4)) {
        Err(ParseError::NomError)
    } else if s.take(4) == magic_name() || looks_like_name(s.skip(4)) {
        Ok((s.take(4), Seq::empty(), 4))
    } else if s.len() < 8 || s.len() - 8 < le_u32_of(s.skip(4)) {
        Err(ParseError::TruncatedInput)
    } else {
        let n = le_u32_of(s.skip(4));
        Ok((s.take(4), s.subrange(8, 8 + n as int), 8 + n))
    }
}

/// Puts `t` in front of the tags of a successful parse.
pub open spec fn cons_tag(t: TagView, r: Result<Seq<TagView>, ParseError>) -> Result<
    Seq<TagView>,
    ParseError,
> {
    match r {
        Ok(ts) => Ok(seq![t] + ts),
        Err(e) => Err(e),
    }
}

/// Puts `p` in front of the tags of a successful parse.
pub open spec fn prefix_tags(p: Seq<TagView>, r: Result<Seq<TagView>, ParseError>) -> Result<
    Seq<TagView>,
    ParseError,
> {
    match r {
        Ok(ts) => Ok(p + ts),
        Err(e) => Err(e),
    }
}

/// The tag stream that fills `s` exactly, or the first error met in it.
pub open spec fn tags_of(s: Seq<u8>) -> Result<Seq<TagView>, ParseError>
    decreases s.len(),
{
    if s.len() == 0 {
        Ok(Seq::empty())
    } else {
        match tag_frame(s) {
            Err(e) => Err(e),
            Ok((name, data, k)) => cons_tag((name, data), tags_of(s.skip(k as int))),
        }
    }
}

/// Relies on `String::from_utf8`: it accepts exactly the valid UTF-8 byte
/// sequences and keeps the characters they encode.
#[verifier::external_body]
fn string_from_utf8(b: Vec<u8>) -> (r: Option<String>)
    ensures
        r is Some <==> valid_utf8(b@),
        r matches Some(text) ==> text@ == decode_utf8(b@),
{
    String::from_utf8(b).ok()
}

/// The bytes `s[from..to]` as a new vector.
fn copy_range(s: &[u8], from: usize, to: usize) -> (r: Vec<u8>)
    requires
        from <= to <= s@.len(),
    ensures
        r@ == s@.subrange(from as int, to as int),
{
    let mut r: Vec<u8> = Vec::new();
    let mut i: usize = from;
    while i < to
        invariant
            from <= i <= to <= s@.len(),
            r@ == s@.subrange(from as int, i as int),
        decreases to - i,
    {
        r.push(s[i]);
        i = i + 1;
        assert(r@ =~= s@.subrange(from as int, i as int));
    }
    r
}

/// The little-endian `u32` stored at `s[at..at + 4]`.
pub fn read_le_u32(s: &[u8], at: usize) -> (r: u32)
    requires
        at + 4 <= s@.len(),
    ensures
        r as nat == le_u32_of(s@.skip(at as int)),
{
    let b0 = s[at] as u32;
    let b1 = s[at + 1] as u32;
    let b2 = s[at + 2] as u32;
    let b3 = s[at + 3] as u32;
    b0 + b1 * 256 + b2 * 65536 + b3 * 16777216
}

/// Whether the four bytes at `at` are upper-case ASCII letters.
fn looks_like_name_at(s: &[u8], at: usize) -> (r: bool)
    requires
        at <= s@.len(),
    ensures
        r == looks_like_name(s@.skip(at as int)),
{
    if s.len() - at < 4 {
        return false;
    }
    let end = at + 4;
    let mut i: usize = at;
    while i < end
        invariant
            end == at + 4,
            at <= i <= at + 4 <= s@.len(),
            forall|j: int| at <= j < i ==> is_upper(#[trigger] s@[j]),
        decreases end - i,
    {
        if !(0x41 <= s[i] && s[i] <= 0x5a) {
            assert(s@.skip(at as int)[i - at] == s@[i as int]);
            return false;
        }
        i = i + 1;
    }
    assert(s@.skip(at as int)[0] == s@[at as int]);
    assert(s@.skip(at as int)[1] == s@[at + 1]);
    assert(s@.skip(at as int)[2] == s@[at + 2]);
    assert(s@.skip(at as int)[3] == s@[at + 3]);
    true
}

/// Whether the four bytes `s[at..at + 4]` spell `name`.
pub fn name_at_is(s: &[u8], at: usize, name: [u8; 4]) -> (r: bool)
    requires
        at + 4 <= s@.len(),
    ensures
        r == (s@.subrange(at as int, at + 4) == name@),
{
    let len = s.len();
    let mut i: usize = 0;
    while i < 4
        invariant
            i <= 4,
            len == s@.len(),
            at + 4 <= s@.len(),
            forall|j: int| 0 <= j < i ==> s@[at + j] == name@[j],
        decreases 4 - i,
    {
        if s[at + i] != name[i] {
            assert(s@.subrange(at as int, at + 4)[i as int] != name@[i as int]);
            return false;
        }
        i = i + 1;
    }
    assert(s@.subrange(at as int, at + 4) =~= name@);
    true
}

/// Reads the tag that starts at `pos`, and the position just after it.
///
/// `A3DG`, and a name followed by four upper-case letters, are marker tags:
/// no length field, empty payload. Any other name needs a complete length
/// field and payload.
pub fn parse_tag(s: &[u8], pos: usize) -> (r: Result<(Tag, usize), ParseError>)
    requires
        pos <= s@.len(),
    ensures
        match (r, tag_frame(s@.skip(pos as int))) {
            (Ok((t, next)), Ok((name, data, k))) => t@ == (name, data) && next == pos + k,
            (Err(e), Err(f)) => e == f,
            _ => false,
        },
{
    let ghost rest = s@.skip(pos as int);
    let rem = s.len() - pos;
    if rem < 4 {
        return Err(ParseError::TruncatedInput);
    }
    let name_bytes = copy_range(s, pos, pos + 4);
    assert(name_bytes@ =~= rest.take(4));
    let name = match string_from_utf8(name_bytes) {
        Some(name) => name,
        None => return Err(ParseError::NomError),
    };
    assert(encode_utf8(name@) == rest.take(4));
    let magic = name_at_is(s, pos, [0x41u8, 0x33u8, 0x44u8, 0x47u8]);
    assert(s@.subrange(pos as int, pos + 4) =~= rest.take(4));
    assert([0x41u8, 0x33u8, 0x44u8, 0x47u8]@ =~= magic_name());
    if magic || looks_like_name_at(s, pos + 4) {
        assert(rest.skip(4) =~= s@.skip(pos + 4));
        let t = Tag { name, data: Vec::new() };
        assert(t@.1 =~= Seq::<u8>::empty());
        return Ok((t, pos + 4));
    }
    assert(rest.skip(4) =~= s@.skip(pos + 4));
    if rem < 8 {
        return Err(ParseError::TruncatedInput);
    }
    let len = read_le_u32(s, pos + 4) as usize;
    if rem - 8 < len {
        return Err(ParseError::TruncatedInput);
    }
    let data = copy_range(s, pos + 8, pos + 8 + len);
    assert(data@ =~= rest.subrange(8, 8 + len));
    Ok((Tag { name, data }, pos + 8 + len))
}

/// Reads the whole of `s` as a tag stream.
pub fn parse_tags(s: &[u8]) -> (r: Result<Vec<Tag>, ParseError>)
    ensures
        match r {
            Ok(v) => tags_of(s@) == Ok::<Seq<TagView>, ParseError>(tags_view(v@)),
            Err(e) => tags_of(s@) == Err::<Seq<TagView>, ParseError>(e),
        },
{
    let mut out: Vec<Tag> = Vec::new();
    let mut pos: usize = 0;
    assert(s@.skip(0) =~= s@);
    assert(tags_view(out@) + Seq::<TagView>::empty() =~= Seq::<TagView>::empty());
    while pos < s.len()
        invariant
            pos <= s@.len(),
            tags_of(s@) == prefix_tags(tags_view(out@), tags_of(s@.skip(pos as int))),
        decreases s@.len() - pos,
    {
        match parse_tag(s, pos) {
            Err(e) => {
                return Err(e);
            },
            Ok((t, next)) => {
                proof {
                    let rest = s@.skip(pos as int);
                    let k = (next - pos) as int;
                    assert(rest.skip(k) =~= s@.skip(next as int));
                    let old_view = tags_view(out@);
                    assert(tags_view(out@.push(t)) =~= old_view.push(t@));
                    match tags_of(s@.skip(next as int)) {
                        Ok(ts) => {
                            assert(old_view + (seq![t@] + ts) =~= old_view.push(t@) + ts);
                        },
                        Err(_) => {},
                    }
                }
                out.push(t);
                pos = next;
            },
        }
    }
    assert(s@.skip(pos as int) =~= Seq::<u8>::empty());
    assert(tags_view(out@) + Seq::<TagView>::empty() =~= tags_view(out@));
    Ok(out)
}

/// The bytes of one tag: the name, then the length and the payload unless
/// the payload is empty.
pub open spec fn encode_tag(t: TagView) -> Seq<u8> {
    if t.1.len() == 0 {
        t.0
    } else {
        t.0 + le_bytes_of(t.1.len()) + t.1
    }
}

/// The bytes of a tag stream, tag after tag.
pub open spec fn encode_all(ts: Seq<TagView>) -> Seq<u8>
    decreases ts.len(),
{
    if ts.len() == 0 {
        Seq::empty()
    } else {
        encode_tag(ts[0]) + encode_all(ts.drop_first())
    }
}

/// Tag `t`, written in front of bytes that start with `next`, is read back
/// as itself: a four-byte UTF-8 name, a length that fits the field, and an
/// empty payload only where the reader takes the tag for a marker (the name
/// is `A3DG`, or an upper-case name follows), a non-empty
/// one only where it does not.
pub open spec fn frames_back(t: TagView, next: Seq<u8>) -> bool {
    &&& t.0.len() == 4
    &&& valid_utf8(t.0)
    &&& t.1.len() <= u32::MAX
    &&& if t.1.len() == 0 {
        t.0 == magic_name() || looks_like_name(next)
    } else {
        t.0 != magic_name() && !looks_like_name(le_bytes_of(t.1.len()))
    }
}

/// Every tag of `ts` frames back, given the name of the tag after it, or,
/// for the last one, the bytes `tail` that follow the stream.
pub open spec fn stream_frames_back(ts: Seq<TagView>, tail: Seq<u8>) -> bool {
    forall|i: int|
        0 <= i < ts.len() ==> frames_back(
            #[trigger] ts[i],
            if i + 1 < ts.len() {
                ts[i + 1].0
            } else {
                tail
            },
        )
}

/// Reading back the four bytes written for `n` gives `n`.
pub proof fn lemma_le_bytes_round_trip(n: nat)
    requires
        n <= u32::MAX,
    ensures
        le_u32_of(le_bytes_of(n)) == n,
{
    let b = le_bytes_of(n);
    assert(b[0] as nat == n % 256);
    assert(b[1] as nat == (n / 256) % 256);
    assert(b[2] as nat == (n / 65536) % 256);
    assert(b[3] as nat == (n / 16777216) % 256);
    assert(n % 256 + 256 * ((n / 256) % 256) + 65536 * ((n / 65536) % 256) + 16777216 * ((
    n / 16777216) % 256) == n) by (nonlinear_arith)
        requires
            n <= u32::MAX,
    {
        assert(n / 16777216 < 256);
        assert(n == 256 * (n / 256) + n % 256);
        assert(n / 256 == 256 * (n / 65536) + (n / 256) % 256);
        assert(n / 65536 == 256 * (n / 16777216) + (n / 65536) % 256);
    };
}

/// The encoding of a non-empty stream starts with the first tag's name.
pub proof fn lemma_encode_all_starts_with_name(ts: Seq<TagView>)
    requires
        ts.len() > 0,
        ts[0].0.len() == 4,
    ensures
        encode_all(ts).len() >= 4,
        forall|j: int| 0 <= j < 4 ==> encode_all(ts)[j] == ts[0].0[j],
{
    let e = encode_all(ts);
    assert(e == encode_tag(ts[0]) + encode_all(ts.drop_first()));
    if ts[0].1.len() != 0 {
        assert(encode_tag(ts[0]) == ts[0].0 + le_bytes_of(ts[0].1.len()) + ts[0].1);
    }
}

/// One tag that frames back before `after` is read back from its encoding.
proof fn lemma_frame_encoded(t: TagView, after: Seq<u8>)
    requires
        frames_back(t, after),
    ensures
        tag_frame(encode_tag(t) + after) == Ok::<(Seq<u8>, Seq<u8>, nat), ParseError>(
            (t.0, t.1, encode_tag(t).len()),
        ),
{
    let s = encode_tag(t) + after;
    assert(s.take(4) =~= t.0);
    if t.1.len() == 0 {
        assert(s.skip(4) =~= after);
        assert(t.1 =~= Seq::<u8>::empty());
    } else {
        let n = t.1.len();
        lemma_le_bytes_round_trip(n);
        let le = le_bytes_of(n);
        assert(s.skip(4)[0] == le[0]);
        assert(s.skip(4)[1] == le[1]);
        assert(s.skip(4)[2] == le[2]);
        assert(s.skip(4)[3] == le[3]);
        assert(le_u32_of(s.skip(4)) == n);
        assert(s.subrange(8, 8 + n as int) =~= t.1);
    }
}

proof fn lemma_rest_frames_back(ts: Seq<TagView>, tail: Seq<u8>)
    requires
        ts.len() > 0,
        stream_frames_back(ts, tail),
    ensures
        stream_frames_back(ts.drop_first(), tail),
{
    let rest = ts.drop_first();
    assert forall|i: int| 0 <= i < rest.len() implies frames_back(
        #[trigger] rest[i],
        if i + 1 < rest.len() {
            rest[i + 1].0
        } else {
            tail
        },
    ) by {
        assert(rest[i] == ts[i + 1]);
        assert(frames_back(
            ts[i + 1],
            if i + 2 < ts.len() {
                ts[i + 2].0
            } else {
                tail
            },
        ));
    }
}

/// The first tag frames back before the encoding of the rest of the stream.
proof fn lemma_first_frames_back(ts: Seq<TagView>, tail: Seq<u8>)
    requires
        ts.len() > 0,
        stream_frames_back(ts, tail),
    ensures
        frames_back(ts[0], encode_all(ts.drop_first()) + tail),
{
    let rest = ts.drop_first();
    let after = encode_all(rest) + tail;
    let next = if 1 < ts.len() {
        ts[1].0
    } else {
        tail
    };
    assert(frames_back(ts[0], next));
    if rest.len() > 0 {
        lemma_encode_all_starts_with_name(rest);
        assert(rest[0] == ts[1]);
        assert(after[0] == next[0]);
        assert(after[1] == next[1]);
        assert(after[2] == next[2]);
        assert(after[3] == next[3]);
    } else {
        assert(after =~= tail);
    }
}

/// Reading back the encoding of a stream that frames back, followed by
/// `tail`, gives the stream and then whatever `tail` reads as.
pub proof fn lemma_tags_of_encoded(ts: Seq<TagView>, tail: Seq<u8>)
    requires
        stream_frames_back(ts, tail),
    ensures
        tags_of(encode_all(ts) + tail) == prefix_tags(ts, tags_of(tail)),
    decreases ts.len(),
{
    if ts.len() == 0 {
        assert(encode_all(ts) + tail =~= tail);
        match tags_of(tail) {
            Ok(r) => assert(ts + r =~= r),
            Err(_) => {},
        }
    } else {
        let t = ts[0];
        let rest = ts.drop_first();
        lemma_rest_frames_back(ts, tail);
        lemma_tags_of_encoded(rest, tail);
        lemma_first_frames_back(ts, tail);
        let after = encode_all(rest) + tail;
        let s = encode_all(ts) + tail;
        assert(s =~= encode_tag(t) + after);
        lemma_frame_encoded(t, after);
        assert(s.skip(encode_tag(t).len() as int) =~= after);
        match tags_of(tail) {
            Ok(r) => assert(seq![t] + (rest + r) =~= ts + r),
            Err(_) => {},
        }
    }
}

/// Appends `src` to `out`.
fn append_bytes(out: &mut Vec<u8>, src: &[u8])
    ensures
        final(out)@ == old(out)@ + src@,
{
    let mut i: usize = 0;
    while i < src.len()
        invariant
            i <= src@.len(),
            out@ == old(out)@ + src@.take(i as int),
        decreases src@.len() - i,
    {
        out.push(src[i]);
        i = i + 1;
        assert(out@ =~= old(out)@ + src@.take(i as int));
    }
    assert(src@.take(i as int) =~= src@);
}

/// Appends the four little-endian bytes of `n` to `out`.
fn append_le_u32(out: &mut Vec<u8>, n: u32)
    ensures
        final(out)@ == old(out)@ + le_bytes_of(n as nat),
{
    out.push((n % 256) as u8);
    out.push(((n / 256) % 256) as u8);
    out.push(((n / 65536) % 256) as u8);
    out.push(((n / 16777216) % 256) as u8);
    assert(out@ =~= old(out)@ + le_bytes_of(n as nat));
}

proof fn lemma_encode_all_push(ts: Seq<TagView>, t: TagView)
    ensures
        encode_all(ts.push(t)) == encode_all(ts) + encode_tag(t),
    decreases ts.len(),
{
    if ts.len() == 0 {
        assert(ts.push(t).drop_first() =~= Seq::<TagView>::empty());
        assert(ts.push(t)[0] == t);
        assert(encode_all(Seq::<TagView>::empty()) == Seq::<u8>::empty());
        assert(encode_all(ts) == Seq::<u8>::empty());
        assert(encode_all(ts.push(t)) =~= encode_all(ts) + encode_tag(t));
    } else {
        assert(ts.push(t).drop_first() =~= ts.drop_first().push(t));
        lemma_encode_all_push(ts.drop_first(), t);
        assert(encode_all(ts.push(t)) =~= encode_all(ts) + encode_tag(t));
    }
}

/// Writes tags back to bytes: each name, then, for a non-empty payload, its
/// length as a little-endian `u32` and the payload itself.
pub fn encode_tags(tags: &[Tag]) -> (r: Vec<u8>)
    requires
        forall|i: int| 0 <= i < tags@.len() ==> (#[trigger] tags@[i]).data@.len() <= u32::MAX,
    ensures
        r@ == encode_all(tags_view(tags@)),
{
    let mut out: Vec<u8> = Vec::new();
    let mut i: usize = 0;
    assert(tags_view(tags@).take(0) =~= Seq::<TagView>::empty());
    while i < tags.len()
        invariant
            i <= tags@.len(),
            forall|j: int| 0 <= j < tags@.len() ==> (#[trigger] tags@[j]).data@.len() <= u32::MAX,
            out@ == encode_all(tags_view(tags@).take(i as int)),
        decreases tags@.len() - i,
    {
        let t = &tags[i];
        append_bytes(&mut out, t.name.as_str().as_bytes());
        if t.data.len() != 0 {
            append_le_u32(&mut out, t.data.len() as u32);
            append_bytes(&mut out, t.data.as_slice());
        }
        proof {
            let v = tags_view(tags@);
            assert(v.take(i + 1) =~= v.take(i as int).push(t@));
            lemma_encode_all_push(v.take(i as int), t@);
        }
        i = i + 1;
    }
    assert(tags_view(tags@).take(i as int) =~= tags_view(tags@));
    out
}

/// `A3DG` is a valid UTF-8 name.
proof fn lemma_magic_name_is_utf8()
    ensures
        valid_utf8(magic_name()),
{
    let chars = seq!['A', '3', 'D', 'G'];
    assert(is_ascii_chars(chars));
    is_ascii_chars_encode_utf8(chars);
    encode_utf8_valid_utf8(chars);
    assert(encode_utf8(chars) =~= magic_name());
}

/// A tag named `A3DG`, whatever follows it, and a tag whose name is followed
/// by four upper-case letters are read as markers: an empty payload, no
/// length field, and the stream goes on right after the name.
pub proof fn lemma_marker_tags(s: Seq<u8>)
    requires
        s.len() >= 4,
        s.take(4) == magic_name() || (valid_utf8(s.take(4)) && looks_like_name(s.skip(4))),
    ensures
        tags_of(s) == cons_tag((s.take(4), Seq::<u8>::empty()), tags_of(s.skip(4))),
{
    lemma_magic_name_is_utf8();
    assert(tag_frame(s) == Ok::<(Seq<u8>, Seq<u8>, nat), ParseError>(
        (s.take(4), Seq::<u8>::empty(), 4),
    ));
}

} // verus!
