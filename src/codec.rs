use vstd::prelude::*;
use vstd::utf8::{decode_utf8, encode_utf8, valid_utf8};
use bytes::{BufMut, BytesMut};
use crate::card::{card_from_bytes, code_byte_seq, code_bytes, is_rank_char, Card};
use crate::frame::{
    cards_bytes, frame_bytes, frame_ok, is_frame_encoding, joined, lemma_cards_bytes_shape,
    lemma_joined_shape, magic_bytes, move_bytes, no_comma, Frame, FrameView,
};
use crate::hand::Hand;
use crate::run::all_wf;

verus! {

/// Why a record is not a frame.
#[derive(Clone, Copy, Debug, PartialEq, Eq, Structural)]
pub enum FrameError {
    /// The first byte is no frame's tag.
    UnknownTag(u8),
    /// The tag is known, but what follows it is no frame's payload.
    Malformed,
}

/// The byte that ends each record on the wire.
pub const NEWLINE: u8 = 0x0A;

/// The growable byte buffer of the `bytes` crate, in which a record is assembled.
#[verifier::external_type_specification]
#[verifier::external_body]
pub struct ExBytesMut(BytesMut);

/// The bytes that a buffer holds.
pub uninterp spec fn buffer_bytes(b: BytesMut) -> Seq<u8>;

/// Relies on `BytesMut::with_capacity`: the new buffer holds no bytes.
#[verifier::external_body]
fn new_buffer(capacity: usize) -> (r: BytesMut)
    ensures
        buffer_bytes(r) == Seq::<u8>::empty(),
{
    BytesMut::with_capacity(capacity)
}

/// Relies on `BufMut::put_slice` for `BytesMut`: it appends the bytes, and panics
/// only when the length would pass `isize::MAX`.
#[verifier::external_body]
fn put_bytes(b: &mut BytesMut, s: &[u8])
    requires
        buffer_bytes(*old(b)).len() + s@.len() <= isize::MAX,
    ensures
        buffer_bytes(*final(b)) == buffer_bytes(*old(b)) + s@,
{
    b.put_slice(s);
}

/// Relies on `BufMut::put_u8` for `BytesMut`: it appends the byte.
#[verifier::external_body]
fn put_byte(b: &mut BytesMut, n: u8)
    requires
        buffer_bytes(*old(b)).len() < isize::MAX,
    ensures
        buffer_bytes(*final(b)) == buffer_bytes(*old(b)).push(n),
{
    b.put_u8(n);
}

/// Relies on `From<BytesMut> for Vec<u8>`: the vector holds the buffer's bytes.
#[verifier::external_body]
fn buffer_into_vec(b: BytesMut) -> (r: Vec<u8>)
    ensures
        r@ == buffer_bytes(b),
{
    Vec::from(b)
}

/// Relies on `String::from_utf8`: it succeeds exactly on valid UTF-8, and the
/// string then holds the characters that the bytes encode.
#[verifier::external_body]
pub(crate) fn utf8_string(b: Vec<u8>) -> (r: Option<String>)
    ensures
        r is Some <==> valid_utf8(b@),
        r matches Some(s) ==> s@ == decode_utf8(b@),
{
    String::from_utf8(b).ok()
}

/// Appends `s` when the buffer stays shorter than `isize::MAX` bytes, so that a
/// newline still fits; tells whether it did.
fn put_checked(buf: &mut BytesMut, used: &mut usize, s: &[u8]) -> (ok: bool)
    requires
        *old(used) == buffer_bytes(*old(buf)).len(),
        *old(used) < isize::MAX,
    ensures
        ok <==> *old(used) + s@.len() < isize::MAX,
        ok ==> buffer_bytes(*final(buf)) == buffer_bytes(*old(buf)) + s@,
        *final(used) == buffer_bytes(*final(buf)).len(),
        *final(used) < isize::MAX,
{
    let max = isize::MAX as usize;
    if s.len() >= max - *used {
        return false;
    }
    put_bytes(buf, s);
    *used = *used + s.len();
    true
}

/// The text holds no comma.
fn text_without_comma(t: &String) -> (r: bool)
    ensures
        r == no_comma(t@),
{
    let n = t.as_str().unicode_len();
    let mut i: usize = 0;
    while i < n
        invariant
            n == t@.len(),
            i <= n,
            forall|k: int| 0 <= k < i ==> t@[k] != ',',
        decreases n - i,
    {
        if t.as_str().get_char(i) == ',' {
            return false;
        }
        i += 1;
    }
    true
}

fn cards_wf(cards: &[Card]) -> (r: bool)
    ensures
        r == all_wf(cards@),
{
    let mut i: usize = 0;
    while i < cards.len()
        invariant
            i <= cards@.len(),
            forall|k: int| 0 <= k < i ==> (#[trigger] cards@[k]).wf(),
        decreases cards@.len() - i,
    {
        if !is_rank_char(cards[i].value) {
            return false;
        }
        i += 1;
    }
    true
}

/// The frame is one that the wire carries unchanged.
fn carries_unchanged(frame: &Frame) -> (r: bool)
    ensures
        r == frame_ok(frame@),
{
    match frame {
        Frame::Start(names) => {
            let ghost view = frame@;
            assert(view == FrameView::Start(names@.map_values(|s: String| s@)));
            let mut i: usize = 0;
            while i < names.len()
                invariant
                    view == frame@,
                    view == FrameView::Start(names@.map_values(|s: String| s@)),
                    i <= names@.len(),
                    forall|k: int| 0 <= k < i ==> no_comma(#[trigger] names@[k]@),
                decreases names@.len() - i,
            {
                if !text_without_comma(&names[i]) {
                    proof {
                        let ns = names@.map_values(|s: String| s@);
                        assert(ns[i as int] == names@[i as int]@);
                        assert(!no_comma(ns[i as int]));
                        assert(frame@ == FrameView::Start(ns));
                        if frame_ok(view) {
                            assert(view->Start_0 == ns);
                            assert(no_comma(view->Start_0[i as int]));
                        }
                    }
                    return false;
                }
                i += 1;
            }
            proof {
                let ns = names@.map_values(|s: String| s@);
                assert forall|k: int| 0 <= k < ns.len() implies no_comma(#[trigger] ns[k]) by {
                    assert(ns[k] == names@[k]@);
                }
            }
            true
        },
        Frame::Hand(h) => {
            let magic_ok = match h.magic() {
                Some(m) => is_rank_char(m.value),
                None => true,
            };
            magic_ok && cards_wf(h.cards())
        },
        Frame::Card(c) => is_rank_char(c.value),
        Frame::Play(Some(c), _) => is_rank_char(c.value),
        _ => true,
    }
}

/// The bytes hold a newline.
fn holds_newline(v: &Vec<u8>) -> (r: bool)
    ensures
        r == v@.contains(NEWLINE),
{
    let mut i: usize = 0;
    while i < v.len()
        invariant
            i <= v@.len(),
            forall|k: int| 0 <= k < i ==> v@[k] != NEWLINE,
        decreases v@.len() - i,
    {
        if v[i] == NEWLINE {
            return true;
        }
        i += 1;
    }
    false
}

/// The wire record of a frame: its bytes and a newline. `None` when the wire would
/// not carry the frame unchanged: a card of no rank, a name with a comma in a list
/// of names, a newline inside the frame's bytes, or a record longer than
/// `isize::MAX` bytes.
pub fn encode_frame(frame: &Frame) -> (r: Option<Vec<u8>>)
    ensures
        r is Some <==> frame_ok(frame@) && !frame_bytes(frame@).contains(NEWLINE)
            && frame_bytes(frame@).len() < isize::MAX,
        r matches Some(v) ==> v@ == frame_bytes(frame@).push(NEWLINE),
{
    if !carries_unchanged(frame) {
        return None;
    }
    let mut buf = new_buffer(256);
    let mut used: usize = 0;
    let tag: u8 = match frame {
        Frame::Name(_) => 1,
        Frame::Start(_) => 2,
        Frame::Hand(_) => 3,
        Frame::Card(_) => 4,
        Frame::Play(_, _) => 5,
        Frame::RoundDone => 6,
        Frame::Seed(_) => 7,
    };
    put_byte(&mut buf, tag);
    used = 1;
    let ok = match frame {
        Frame::Name(s) | Frame::Seed(s) => put_checked(&mut buf, &mut used, s.as_str().as_bytes()),
        Frame::Start(names) => {
            let text = join_names(names);
            put_checked(&mut buf, &mut used, text.as_str().as_bytes())
        },
        Frame::Hand(h) => {
            let head = match h.magic() {
                Some(m) => {
                    let mut v = vec![1u8];
                    let mut c = code_bytes(m);
                    v.append(&mut c);
                    v
                },
                None => vec![0u8, 0x30u8, 0x30u8],
            };
            let list = encode_cards(h.cards());
            put_checked(&mut buf, &mut used, head.as_slice()) && put_checked(
                &mut buf,
                &mut used,
                list.as_slice(),
            )
        },
        Frame::Card(c) => {
            let v = code_bytes(c);
            put_checked(&mut buf, &mut used, v.as_slice())
        },
        Frame::Play(card, out) => {
            let mut v = vec![if *out { 1u8 } else { 0u8 }];
            match card {
                Some(c) => {
                    let mut cb = code_bytes(c);
                    v.append(&mut cb);
                },
                None => {
                    v.push(0x67u8);
                    v.push(0x6Fu8);
                },
            }
            put_checked(&mut buf, &mut used, v.as_slice())
        },
        Frame::RoundDone => true,
    };
    proof {
        crate::frame::lemma_frame_bytes_tag(frame@);
    }
    if !ok {
        return None;
    }
    let mut v = buffer_into_vec(buf);
    assert(v@ =~= frame_bytes(frame@));
    if holds_newline(&v) {
        return None;
    }
    v.push(NEWLINE);
    Some(v)
}

/// Each name followed by a comma.
fn join_names(names: &Vec<String>) -> (r: String)
    ensures
        r@ == joined(names@.map_values(|s: String| s@)),
{
    let ghost ns = names@.map_values(|s: String| s@);
    let mut text = String::new();
    let mut i: usize = 0;
    let comma = ",";
    proof {
        reveal_strlit(",");
    }
    while i < names.len()
        invariant
            i <= names@.len(),
            ns == names@.map_values(|s: String| s@),
            comma@ == seq![','],
            text@ == joined(ns.take(i as int)),
        decreases names@.len() - i,
    {
        text.append(names[i].as_str());
        text.append(comma);
        proof {
            assert(ns.take(i + 1).drop_last() =~= ns.take(i as int));
        }
        i += 1;
    }
    proof {
        assert(ns.take(names@.len() as int) =~= ns);
    }
    text
}

/// The code of each card, each followed by a comma.
fn encode_cards(cards: &[Card]) -> (r: Vec<u8>)
    requires
        all_wf(cards@),
    ensures
        r@ == cards_bytes(cards@),
{
    let mut out: Vec<u8> = Vec::new();
    let mut i: usize = 0;
    while i < cards.len()
        invariant
            i <= cards@.len(),
            all_wf(cards@),
            out@ == cards_bytes(cards@.take(i as int)),
        decreases cards@.len() - i,
    {
        let mut c = code_bytes(&cards[i]);
        out.append(&mut c);
        out.push(0x2Cu8);
        proof {
            assert(cards@.take(i + 1).drop_last() =~= cards@.take(i as int));
        }
        i += 1;
    }
    proof {
        assert(cards@.take(cards@.len() as int) =~= cards@);
    }
    out
}

/// The bytes of `b` from `from` up to `to`.
fn byte_range(b: &[u8], from: usize, to: usize) -> (r: Vec<u8>)
    requires
        from <= to <= b@.len(),
    ensures
        r@ == b@.subrange(from as int, to as int),
{
    let mut r: Vec<u8> = Vec::new();
    let mut i = from;
    while i < to
        invariant
            from <= i <= to <= b@.len(),
            r@ == b@.subrange(from as int, i as int),
        decreases to - i,
    {
        r.push(b[i]);
        i += 1;
        proof {
            assert(r@ =~= b@.subrange(from as int, i as int));
        }
    }
    r
}

/// The text after the tag byte, if it is valid UTF-8.
fn parse_text(b: &[u8]) -> (r: Option<String>)
    requires
        b@.len() >= 1,
    ensures
        r is Some <==> valid_utf8(b@.skip(1)),
        r matches Some(s) ==> encode_utf8(s@) == b@.skip(1),
{
    let payload = byte_range(b, 1, b.len());
    proof {
        assert(payload@ =~= b@.skip(1));
    }
    let r = utf8_string(payload);
    proof {
        if r is Some {
            vstd::utf8::decode_utf8_encode_utf8(b@.skip(1));
        }
    }
    r
}

/// Cuts text into the items that each end with a comma.
fn split_names(t: &str) -> (r: Option<Vec<String>>)
    ensures
        r matches Some(v) ==> joined(v@.map_values(|s: String| s@)) == t@ && forall|i: int|
            0 <= i < v@.len() ==> no_comma(#[trigger] v@[i]@),
        r is None ==> forall|ns: Seq<Seq<char>>| joined(ns) != t@,
{
    let n = t.unicode_len();
    if n > 0 && t.get_char(n - 1) != ',' {
        proof {
            assert forall|ns: Seq<Seq<char>>| joined(ns) != t@ by {
                lemma_joined_shape(ns);
            }
        }
        return None;
    }
    let mut items: Vec<String> = Vec::new();
    let mut start: usize = 0;
    let mut i: usize = 0;
    while i < n
        invariant
            n == t@.len(),
            start <= i <= n,
            n > 0 ==> t@[n - 1] == ',',
            joined(items@.map_values(|s: String| s@)) == t@.subrange(0, start as int),
            forall|k: int| 0 <= k < items@.len() ==> no_comma(#[trigger] items@[k]@),
            forall|k: int| start <= k < i ==> t@[k] != ',',
        decreases n - i,
    {
        if t.get_char(i) == ',' {
            let item = t.substring_char(start, i).to_owned();
            let ghost before = items@;
            items.push(item);
            proof {
                let vs = items@.map_values(|s: String| s@);
                assert(vs.drop_last() =~= before.map_values(|s: String| s@));
                assert(vs.last() == t@.subrange(start as int, i as int));
                assert(t@.subrange(0, i + 1) =~= t@.subrange(0, start as int) + t@.subrange(
                    start as int,
                    i as int,
                ) + seq![',']);
                assert(no_comma(items@[items@.len() - 1]@));
            }
            start = i + 1;
        }
        i += 1;
    }
    proof {
        if start < n {
            assert(t@[n - 1] != ',');
        }
        assert(t@.subrange(0, n as int) =~= t@);
    }
    Some(items)
}

/// Reads the cards of a list that starts at `start`: each a two-byte code and a comma.
fn parse_cards(b: &[u8], start: usize) -> (r: Option<Vec<Card>>)
    requires
        start <= b@.len(),
    ensures
        r matches Some(v) ==> all_wf(v@) && cards_bytes(v@) == b@.skip(start as int),
        r is None ==> forall|cs: Seq<Card>| all_wf(cs) ==> cards_bytes(cs) != b@.skip(start as int),
{
    let ghost rest = b@.skip(start as int);
    let blen = b.len();
    let len = blen - start;
    if len % 3 != 0 {
        proof {
            assert forall|cs: Seq<Card>| all_wf(cs) implies cards_bytes(cs) != rest by {
                lemma_cards_bytes_shape(cs);
            }
        }
        return None;
    }
    let mut cards: Vec<Card> = Vec::new();
    let mut k: usize = 0;
    while k < len / 3
        invariant
            len == rest.len(),
            len == b@.len() - start,
            blen == b@.len(),
            start <= b@.len(),
            rest == b@.skip(start as int),
            len % 3 == 0,
            k <= len / 3,
            cards@.len() == k,
            all_wf(cards@),
            cards_bytes(cards@) == rest.subrange(0, 3 * k as int),
        decreases len / 3 - k,
    {
        assert(3 * k + 3 <= len) by (nonlinear_arith)
            requires
                k < len / 3,
                len % 3 == 0,
        ;
        let p = start + 3 * k;
        let sep = b[p + 2];
        let card = card_from_bytes(b[p], b[p + 1]);
        if card.is_none() || sep != 0x2C {
            proof {
                assert forall|cs: Seq<Card>| all_wf(cs) implies cards_bytes(cs) != rest by {
                    lemma_cards_bytes_shape(cs);
                    if cards_bytes(cs) == rest {
                        assert(cs.len() == len / 3);
                        let c = cs[k as int];
                        assert(c.wf());
                        assert(cards_bytes(cs)[3 * k] == rest[3 * k]);
                        assert(cards_bytes(cs)[3 * k + 1] == rest[3 * k + 1]);
                        assert(code_byte_seq(c) =~= seq![b@[p as int], b@[p + 1]]);
                    }
                }
            }
            return None;
        }
        let c = card.unwrap();
        let ghost before = cards@;
        cards.push(c);
        proof {
            assert(cards@.drop_last() =~= before);
            assert(rest.subrange(0, 3 * (k + 1)) =~= rest.subrange(0, 3 * k as int) + code_byte_seq(c)
                + seq![0x2Cu8]);
        }
        k += 1;
    }
    proof {
        assert(rest.subrange(0, len as int) =~= rest);
    }
    Some(cards)
}

/// A decoding result, with the frame as its view.
pub open spec fn result_view(r: Result<Option<Frame>, FrameError>) -> Result<Option<FrameView>, FrameError> {
    match r {
        Ok(Some(f)) => Ok(Some(f@)),
        Ok(None) => Ok(None),
        Err(e) => Err(e),
    }
}

/// What decoding gives for the record `b`: `None` exactly for an empty record; a
/// frame only when its bytes are `b`; `UnknownTag` when the first byte is no tag;
/// `Malformed` when the tag is known but no frame has the bytes `b`.
pub open spec fn decodes_to(b: Seq<u8>, r: Result<Option<FrameView>, FrameError>) -> bool {
    match r {
        Ok(None) => b.len() == 0,
        Ok(Some(f)) => frame_ok(f) && frame_bytes(f) == b,
        Err(FrameError::UnknownTag(t)) => b.len() > 0 && t == b[0] && !(1 <= t <= 7),
        Err(FrameError::Malformed) => b.len() > 0 && 1 <= b[0] <= 7 && !is_frame_encoding(b),
    }
}

/// Reads one record, without its newline. An empty record means that the peer has
/// gone: `Ok(None)`.
pub fn parse_frame(buffer: &[u8]) -> (r: Result<Option<Frame>, FrameError>)
    ensures
        decodes_to(buffer@, result_view(r)),
{
    let ghost b = buffer@;
    let n = buffer.len();
    if n == 0 {
        return Ok(None);
    }
    let tag = buffer[0];
    if tag == 1 || tag == 7 {
        match parse_text(buffer) {
            Some(s) => {
                let f = if tag == 1 {
                    Frame::Name(s)
                } else {
                    Frame::Seed(s)
                };
                proof {
                    assert(b =~= seq![tag] + b.skip(1));
                }
                Ok(Some(f))
            },
            None => {
                proof {
                    assert forall|f: FrameView| frame_ok(f) && frame_bytes(f) == b implies false by {
                        crate::frame::lemma_frame_bytes_tag(f);
                        let s = if tag == 1 { f->Name_0 } else { f->Seed_0 };
                        assert(b.skip(1) =~= encode_utf8(s));
                        vstd::utf8::encode_utf8_valid_utf8(s);
                    }
                }
                Err(FrameError::Malformed)
            },
        }
    } else if tag == 2 {
        match parse_text(buffer) {
            Some(t) => {
                match split_names(t.as_str()) {
                    Some(names) => {
                        proof {
                            assert(b =~= seq![2u8] + b.skip(1));
                        }
                        Ok(Some(Frame::Start(names)))
                    },
                    None => {
                        proof {
                            assert forall|f: FrameView| frame_ok(f) && frame_bytes(f) == b implies false by {
                                crate::frame::lemma_frame_bytes_tag(f);
                                let ns = f->Start_0;
                                assert(b.skip(1) =~= encode_utf8(joined(ns)));
                                vstd::utf8::encode_utf8_decode_utf8(joined(ns));
                                vstd::utf8::encode_utf8_decode_utf8(t@);
                            }
                        }
                        Err(FrameError::Malformed)
                    },
                }
            },
            None => {
                proof {
                    assert forall|f: FrameView| frame_ok(f) && frame_bytes(f) == b implies false by {
                        crate::frame::lemma_frame_bytes_tag(f);
                        let ns = f->Start_0;
                        assert(b.skip(1) =~= encode_utf8(joined(ns)));
                        vstd::utf8::encode_utf8_valid_utf8(joined(ns));
                    }
                }
                Err(FrameError::Malformed)
            },
        }
    } else if tag == 3 {
        parse_hand_frame(buffer)
    } else if tag == 4 || tag == 5 || tag == 6 {
        parse_short_frame(buffer)
    } else {
        Err(FrameError::UnknownTag(tag))
    }
}

/// Reads a record whose tag is that of a hand.
fn parse_hand_frame(buffer: &[u8]) -> (r: Result<Option<Frame>, FrameError>)
    requires
        buffer@.len() > 0,
        buffer@[0] == 3,
    ensures
        r matches Ok(Some(f)) ==> frame_ok(f@) && frame_bytes(f@) == buffer@,
        r matches Err(e) ==> e == FrameError::Malformed && !is_frame_encoding(buffer@),
        !(r matches Ok(None)),
{
    let ghost b = buffer@;
    let n = buffer.len();
    if n < 4 {
        proof {
            assert forall|f: FrameView| frame_ok(f) && frame_bytes(f) == b implies false by {
                crate::frame::lemma_frame_bytes_tag(f);
                lemma_cards_bytes_shape(f->Hand_0);
            }
        }
        return Err(FrameError::Malformed);
    }
    let flag = buffer[1];
    let magic: Option<Card> = if flag == 1 {
        match card_from_bytes(buffer[2], buffer[3]) {
            Some(c) => Some(c),
            None => {
                proof {
                    assert forall|f: FrameView| frame_ok(f) && frame_bytes(f) == b implies false by {
                        crate::frame::lemma_frame_bytes_tag(f);
                        let m = f->Hand_1;
                        assert(b[1] == magic_bytes(m)[0]);
                        assert(b[2] == magic_bytes(m)[1]);
                        assert(b[3] == magic_bytes(m)[2]);
                        assert(code_byte_seq(m->Some_0) =~= seq![b[2], b[3]]);
                    }
                }
                return Err(FrameError::Malformed);
            },
        }
    } else if flag == 0 && buffer[2] == 0x30 && buffer[3] == 0x30 {
        None
    } else {
        proof {
            assert forall|f: FrameView| frame_ok(f) && frame_bytes(f) == b implies false by {
                crate::frame::lemma_frame_bytes_tag(f);
                let m = f->Hand_1;
                assert(b[1] == magic_bytes(m)[0]);
                assert(b[2] == magic_bytes(m)[1]);
                assert(b[3] == magic_bytes(m)[2]);
            }
        }
        return Err(FrameError::Malformed);
    };
    proof {
        assert(b.subrange(1, 4) =~= magic_bytes(magic));
    }
    match parse_cards(buffer, 4) {
        Some(cards) => {
            let ghost cs = cards@;
            let h = Hand::from(cards, magic);
            proof {
                assert(b =~= seq![3u8] + magic_bytes(magic) + cards_bytes(cs));
            }
            Ok(Some(Frame::Hand(h)))
        },
        None => {
            proof {
                assert forall|f: FrameView| frame_ok(f) && frame_bytes(f) == b implies false by {
                    crate::frame::lemma_frame_bytes_tag(f);
                    let (cs, m) = (f->Hand_0, f->Hand_1);
                    assert(b.skip(4) =~= cards_bytes(cs));
                }
            }
            Err(FrameError::Malformed)
        },
    }
}

/// Reads a record whose tag is that of a card, a move or the end of a segment.
fn parse_short_frame(buffer: &[u8]) -> (r: Result<Option<Frame>, FrameError>)
    requires
        buffer@.len() > 0,
        buffer@[0] == 4 || buffer@[0] == 5 || buffer@[0] == 6,
    ensures
        r matches Ok(Some(f)) ==> frame_ok(f@) && frame_bytes(f@) == buffer@,
        r matches Err(e) ==> e == FrameError::Malformed && !is_frame_encoding(buffer@),
        !(r matches Ok(None)),
{
    let ghost b = buffer@;
    let n = buffer.len();
    let tag = buffer[0];
    if tag == 6 {
        if n == 1 {
            proof {
                assert(b =~= seq![6u8]);
            }
            return Ok(Some(Frame::RoundDone));
        }
    } else if tag == 4 {
        if n == 3 {
            if let Some(c) = card_from_bytes(buffer[1], buffer[2]) {
                proof {
                    assert(b =~= seq![4u8] + code_byte_seq(c));
                }
                return Ok(Some(Frame::Card(c)));
            }
        }
    } else if n == 4 && (buffer[1] == 0 || buffer[1] == 1) {
        let out = buffer[1] == 1;
        if buffer[2] == 0x67 && buffer[3] == 0x6F {
            proof {
                assert(b =~= seq![5u8, if out { 1u8 } else { 0u8 }] + move_bytes(None));
            }
            return Ok(Some(Frame::Play(None, out)));
        }
        if let Some(c) = card_from_bytes(buffer[2], buffer[3]) {
            proof {
                assert(b =~= seq![5u8, if out { 1u8 } else { 0u8 }] + move_bytes(Some(c)));
            }
            return Ok(Some(Frame::Play(Some(c), out)));
        }
    }
    proof {
        assert forall|f: FrameView| frame_ok(f) && frame_bytes(f) == b implies false by {
            crate::frame::lemma_frame_bytes_tag(f);
            if tag == 4 {
                let c = f->Card_0;
                assert(code_byte_seq(c) =~= seq![b[1], b[2]]);
            } else if tag == 5 {
                let (c, out) = (f->Play_0, f->Play_1);
                assert(b[1] == if out { 1u8 } else { 0u8 });
                if c is Some {
                    assert(code_byte_seq(c->Some_0) =~= seq![b[2], b[3]]);
                }
            }
        }
    }
    Err(FrameError::Malformed)
}

/// Decoding the bytes of a frame that the wire carries unchanged gives back that
/// frame, and nothing else.
pub proof fn lemma_decode_encode(f: FrameView, r: Result<Option<FrameView>, FrameError>)
    requires
        frame_ok(f),
        decodes_to(frame_bytes(f), r),
    ensures
        r == Ok::<Option<FrameView>, FrameError>(Some(f)),
{
    crate::frame::lemma_frame_bytes_tag(f);
    match r {
        Ok(Some(g)) => {
            crate::frame::lemma_frame_bytes_injective(f, g);
        },
        Ok(None) => {},
        Err(FrameError::UnknownTag(t)) => {},
        Err(FrameError::Malformed) => {
            assert(is_frame_encoding(frame_bytes(f)));
        },
    }
}

/// Splits the first newline-terminated record off the front of `buf` and returns
/// it without its newline; `None`, leaving `buf` as it is, while no newline has come.
pub fn take_record(buf: &mut Vec<u8>) -> (r: Option<Vec<u8>>)
    ensures
        r is None <==> !old(buf)@.contains(NEWLINE),
        r is None ==> final(buf)@ == old(buf)@,
        r matches Some(rec) ==> !rec@.contains(NEWLINE) && old(buf)@ == rec@ + seq![NEWLINE]
            + final(buf)@,
{
    let ghost start = buf@;
    let mut i: usize = 0;
    while i < buf.len() && buf[i] != NEWLINE
        invariant
            buf@ == start,
            i <= start.len(),
            forall|k: int| 0 <= k < i ==> start[k] != NEWLINE,
        decreases start.len() - i,
    {
        i += 1;
    }
    if i == buf.len() {
        return None;
    }
    let mut rest = buf.split_off(i + 1);
    buf.pop();
    std::mem::swap(buf, &mut rest);
    proof {
        assert(!rest@.contains(NEWLINE)) by {
            assert forall|k: int| 0 <= k < rest@.len() implies rest@[k] != NEWLINE by {
                assert(rest@[k] == start[k]);
            }
        }
        assert(start =~= rest@ + seq![NEWLINE] + buf@);
    }
    Some(rest)
}

/// On a stream that starts with the record of a frame without a newline inside,
/// the record that `take_record` splits off is exactly the frame's bytes, and what
/// stays is what followed the record.
pub proof fn lemma_record_split(f: FrameView, rest: Seq<u8>, rec: Seq<u8>, after: Seq<u8>)
    requires
        !frame_bytes(f).contains(NEWLINE),
        !rec.contains(NEWLINE),
        frame_bytes(f).push(NEWLINE) + rest == rec + seq![NEWLINE] + after,
    ensures
        rec == frame_bytes(f),
        after == rest,
{
    let fb = frame_bytes(f);
    let whole = fb.push(NEWLINE) + rest;
    assert(whole == rec + seq![NEWLINE] + after);
    if rec.len() < fb.len() {
        assert(whole[rec.len() as int] == NEWLINE);
        assert(whole[rec.len() as int] == fb[rec.len() as int]);
    } else if rec.len() > fb.len() {
        assert(whole[fb.len() as int] == NEWLINE);
        assert(whole[fb.len() as int] == rec[fb.len() as int]);
    }
    assert(rec =~= whole.subrange(0, rec.len() as int));
    assert(fb =~= whole.subrange(0, fb.len() as int));
    assert(after =~= whole.subrange(rec.len() + 1int, whole.len() as int));
    assert(rest =~= whole.subrange(fb.len() + 1int, whole.len() as int));
}

} // verus!
