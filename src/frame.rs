use vstd::prelude::*;
use vstd::utf8::encode_utf8;
use crate::card::{code_byte_seq, Card};
use crate::hand::Hand;
use crate::run::all_wf;

verus! {

/// One protocol message.
#[derive(Clone, Debug, PartialEq, Eq)]
pub enum Frame {
    /// A participant's display name, sent on connecting.
    Name(String),
    /// The names of all participants in play order: the game starts.
    Start(Vec<String>),
    /// A dealt hand, a discard, or a hand shown with its magic card.
    Hand(Hand),
    /// The magic card.
    Card(Card),
    /// One move of the play: the card played, if any, and whether the player is out of cards.
    Play(Option<Card>, bool),
    /// A participant's play segment is done.
    RoundDone,
    /// Shuffle entropy from the dealer.
    Seed(String),
}

/// What a frame carries, as mathematical values.
pub enum FrameView {
    Name(Seq<char>),
    Start(Seq<Seq<char>>),
    Hand(Seq<Card>, Option<Card>),
    Card(Card),
    Play(Option<Card>, bool),
    RoundDone,
    Seed(Seq<char>),
}

impl View for Frame {
    type V = FrameView;

    open spec fn view(&self) -> FrameView {
        match self {
            Frame::Name(s) => FrameView::Name(s@),
            Frame::Start(v) => FrameView::Start(v@.map_values(|s: String| s@)),
            Frame::Hand(h) => FrameView::Hand(h@.cards, h@.magic),
            Frame::Card(c) => FrameView::Card(*c),
            Frame::Play(c, out) => FrameView::Play(*c, *out),
            Frame::RoundDone => FrameView::RoundDone,
            Frame::Seed(s) => FrameView::Seed(s@),
        }
    }
}

pub open spec fn no_comma(s: Seq<char>) -> bool {
    forall|i: int| 0 <= i < s.len() ==> s[i] != ','
}

/// Each name followed by a comma, all run together.
pub open spec fn joined(ns: Seq<Seq<char>>) -> Seq<char>
    decreases ns.len(),
{
    if ns.len() == 0 {
        Seq::empty()
    } else {
        joined(ns.drop_last()) + ns.last() + seq![',']
    }
}

/// Each card's two-byte code followed by a comma byte, all run together.
pub open spec fn cards_bytes(cs: Seq<Card>) -> Seq<u8>
    decreases cs.len(),
{
    if cs.len() == 0 {
        Seq::empty()
    } else {
        cards_bytes(cs.drop_last()) + code_byte_seq(cs.last()) + seq![0x2Cu8]
    }
}

pub open spec fn opt_wf(c: Option<Card>) -> bool {
    c matches Some(m) ==> m.wf()
}

/// The frame's cards are well formed.
pub open spec fn frame_cards_wf(f: FrameView) -> bool {
    match f {
        FrameView::Hand(cs, m) => all_wf(cs) && opt_wf(m),
        FrameView::Card(c) => c.wf(),
        FrameView::Play(c, _) => opt_wf(c),
        _ => true,
    }
}

/// A frame that the wire carries unchanged: its cards are well formed and its list
/// of names holds no comma.
pub open spec fn frame_ok(f: FrameView) -> bool {
    &&& frame_cards_wf(f)
    &&& f matches FrameView::Start(ns) ==> forall|i: int| 0 <= i < ns.len() ==> no_comma(#[trigger] ns[i])
}

/// The bytes of a frame on the wire, without the newline that ends its record: a
/// tag byte from 1 to 7, then the payload. Text is UTF-8; a card is its rank symbol
/// and suit letter; an optional card has a presence byte, 0 or 1, before it (and
/// `00` in its place when absent); a list ends each item with a comma.
pub open spec fn frame_bytes(f: FrameView) -> Seq<u8> {
    match f {
        FrameView::Name(s) => seq![1u8] + encode_utf8(s),
        FrameView::Start(ns) => seq![2u8] + encode_utf8(joined(ns)),
        FrameView::Hand(cs, m) => seq![3u8] + magic_bytes(m) + cards_bytes(cs),
        FrameView::Card(c) => seq![4u8] + code_byte_seq(c),
        FrameView::Play(c, out) => seq![5u8, if out { 1u8 } else { 0u8 }] + move_bytes(c),
        FrameView::RoundDone => seq![6u8],
        FrameView::Seed(s) => seq![7u8] + encode_utf8(s),
    }
}

/// Some frame that the wire can carry has exactly these bytes.
pub open spec fn is_frame_encoding(b: Seq<u8>) -> bool {
    exists|f: FrameView| frame_ok(f) && frame_bytes(f) == b
}

pub proof fn lemma_joined_shape(ns: Seq<Seq<char>>)
    ensures
        ns.len() == 0 <==> joined(ns).len() == 0,
        joined(ns).len() > 0 ==> joined(ns).last() == ',',
    decreases ns.len(),
{
    if ns.len() > 0 {
        lemma_joined_shape(ns.drop_last());
    }
}

proof fn lemma_joined_injective(a: Seq<Seq<char>>, b: Seq<Seq<char>>)
    requires
        forall|i: int| 0 <= i < a.len() ==> no_comma(#[trigger] a[i]),
        forall|i: int| 0 <= i < b.len() ==> no_comma(#[trigger] b[i]),
        joined(a) == joined(b),
    ensures
        a == b,
    decreases a.len(),
{
    lemma_joined_shape(a);
    lemma_joined_shape(b);
    if a.len() > 0 {
        let ja = joined(a.drop_last());
        let jb = joined(b.drop_last());
        let xa = a.last();
        let xb = b.last();
        let whole = joined(a);
        assert(whole == ja + xa + seq![',']);
        assert(whole == jb + xb + seq![',']);
        lemma_joined_shape(a.drop_last());
        lemma_joined_shape(b.drop_last());
        assert(no_comma(xa) && no_comma(xb)) by {
            assert(a[a.len() - 1] == xa);
            assert(b[b.len() - 1] == xb);
        }
        if ja.len() < jb.len() {
            let p = jb.len() - 1;
            assert(whole[p] == jb[p]);
            assert(whole[p] == xa[p - ja.len()]);
        } else if jb.len() < ja.len() {
            let p = ja.len() - 1;
            assert(whole[p] == ja[p]);
            assert(whole[p] == xb[p - jb.len()]);
        }
        assert(ja =~= whole.subrange(0, ja.len() as int));
        assert(jb =~= whole.subrange(0, jb.len() as int));
        assert(xa =~= whole.subrange(ja.len() as int, whole.len() - 1));
        assert(xb =~= whole.subrange(jb.len() as int, whole.len() - 1));
        assert forall|i: int| 0 <= i < a.drop_last().len() implies no_comma(#[trigger] a.drop_last()[i]) by {
            assert(a.drop_last()[i] == a[i]);
        }
        assert forall|i: int| 0 <= i < b.drop_last().len() implies no_comma(#[trigger] b.drop_last()[i]) by {
            assert(b.drop_last()[i] == b[i]);
        }
        lemma_joined_injective(a.drop_last(), b.drop_last());
        assert(a =~= a.drop_last().push(xa));
        assert(b =~= b.drop_last().push(xb));
    }
}

pub proof fn lemma_cards_bytes_shape(cs: Seq<Card>)
    ensures
        cards_bytes(cs).len() == 3 * cs.len(),
        forall|k: int|
            0 <= k < cs.len() ==> cards_bytes(cs)[3 * k] == code_byte_seq(#[trigger] cs[k])[0]
                && cards_bytes(cs)[3 * k + 1] == code_byte_seq(cs[k])[1] && cards_bytes(cs)[3 * k + 2]
                == 0x2Cu8,
    decreases cs.len(),
{
    if cs.len() > 0 {
        let init = cs.drop_last();
        lemma_cards_bytes_shape(init);
        assert forall|k: int| 0 <= k < cs.len() implies cards_bytes(cs)[3 * k] == code_byte_seq(
            #[trigger] cs[k],
        )[0] && cards_bytes(cs)[3 * k + 1] == code_byte_seq(cs[k])[1] && cards_bytes(cs)[3 * k + 2]
            == 0x2Cu8 by {
            if k < init.len() {
                assert(cs[k] == init[k]);
            }
        }
    }
}

proof fn lemma_cards_bytes_injective(a: Seq<Card>, b: Seq<Card>)
    requires
        cards_bytes(a) == cards_bytes(b),
        all_wf(a),
        all_wf(b),
    ensures
        a == b,
{
    lemma_cards_bytes_shape(a);
    lemma_cards_bytes_shape(b);
    assert forall|k: int| 0 <= k < a.len() implies a[k] == b[k] by {
        crate::card::lemma_code_byte_seq_injective(a[k], b[k]);
    }
    assert(a =~= b);
}

/// The tag byte of each kind of frame.
pub open spec fn tag_of(f: FrameView) -> u8 {
    match f {
        FrameView::Name(_) => 1,
        FrameView::Start(_) => 2,
        FrameView::Hand(_, _) => 3,
        FrameView::Card(_) => 4,
        FrameView::Play(_, _) => 5,
        FrameView::RoundDone => 6,
        FrameView::Seed(_) => 7,
    }
}

pub proof fn lemma_frame_bytes_tag(f: FrameView)
    ensures
        frame_bytes(f).len() >= 1,
        frame_bytes(f)[0] == tag_of(f),
{
}

proof fn lemma_text_injective(s: Seq<char>, t: Seq<char>)
    requires
        encode_utf8(s) == encode_utf8(t),
    ensures
        s == t,
{
    vstd::utf8::encode_utf8_decode_utf8(s);
    vstd::utf8::encode_utf8_decode_utf8(t);
}

pub open spec fn magic_bytes(m: Option<Card>) -> Seq<u8> {
    match m {
        Some(c) => seq![1u8] + code_byte_seq(c),
        None => seq![0u8, 0x30u8, 0x30u8],
    }
}

proof fn lemma_hand_injective(cs: Seq<Card>, m: Option<Card>, ds: Seq<Card>, n: Option<Card>)
    requires
        all_wf(cs) && opt_wf(m),
        all_wf(ds) && opt_wf(n),
        magic_bytes(m) + cards_bytes(cs) == magic_bytes(n) + cards_bytes(ds),
    ensures
        cs == ds,
        m == n,
{
    let b = magic_bytes(m) + cards_bytes(cs);
    assert(b[0] == magic_bytes(m)[0] && b[0] == magic_bytes(n)[0]);
    assert(cards_bytes(cs) =~= b.skip(3));
    assert(cards_bytes(ds) =~= b.skip(3));
    lemma_cards_bytes_injective(cs, ds);
    if m is Some {
        assert(code_byte_seq(m->Some_0) =~= b.subrange(1, 3));
        assert(code_byte_seq(n->Some_0) =~= b.subrange(1, 3));
        crate::card::lemma_code_byte_seq_injective(m->Some_0, n->Some_0);
    }
}

pub open spec fn move_bytes(c: Option<Card>) -> Seq<u8> {
    match c {
        Some(c) => code_byte_seq(c),
        None => seq![0x67u8, 0x6Fu8],
    }
}

proof fn lemma_move_injective(c: Option<Card>, d: Option<Card>)
    requires
        opt_wf(c),
        opt_wf(d),
        move_bytes(c) == move_bytes(d),
    ensures
        c == d,
{
    if c is Some {
        crate::card::lemma_code_byte_seq_not_go(c->Some_0);
    }
    if d is Some {
        crate::card::lemma_code_byte_seq_not_go(d->Some_0);
    }
    if c is Some && d is Some {
        crate::card::lemma_code_byte_seq_injective(c->Some_0, d->Some_0);
    }
}

/// Two frames that the wire carries unchanged and that have the same bytes are the
/// same frame: so decoding the bytes of a frame can only give that frame back.
pub proof fn lemma_frame_bytes_injective(f: FrameView, g: FrameView)
    requires
        frame_ok(f),
        frame_ok(g),
        frame_bytes(f) == frame_bytes(g),
    ensures
        f == g,
{
    let b = frame_bytes(f);
    lemma_frame_bytes_tag(f);
    lemma_frame_bytes_tag(g);
    match f {
        FrameView::Name(s) => {
            let t = g->Name_0;
            assert(encode_utf8(s) =~= b.skip(1));
            assert(encode_utf8(t) =~= b.skip(1));
            lemma_text_injective(s, t);
        },
        FrameView::Start(ns) => {
            let ms = g->Start_0;
            assert(encode_utf8(joined(ns)) =~= b.skip(1));
            assert(encode_utf8(joined(ms)) =~= b.skip(1));
            lemma_text_injective(joined(ns), joined(ms));
            lemma_joined_injective(ns, ms);
        },
        FrameView::Hand(cs, m) => {
            let (ds, n) = (g->Hand_0, g->Hand_1);
            assert(magic_bytes(m) + cards_bytes(cs) =~= b.skip(1));
            assert(magic_bytes(n) + cards_bytes(ds) =~= b.skip(1));
            lemma_hand_injective(cs, m, ds, n);
        },
        FrameView::Card(c) => {
            let d = g->Card_0;
            assert(code_byte_seq(c) =~= b.skip(1));
            assert(code_byte_seq(d) =~= b.skip(1));
            crate::card::lemma_code_byte_seq_injective(c, d);
        },
        FrameView::Play(c, out) => {
            let (d, out2) = (g->Play_0, g->Play_1);
            assert(b[1] == frame_bytes(g)[1]);
            assert(move_bytes(c) =~= b.skip(2));
            assert(move_bytes(d) =~= b.skip(2));
            lemma_move_injective(c, d);
        },
        FrameView::RoundDone => {},
        FrameView::Seed(s) => {
            let t = g->Seed_0;
            assert(encode_utf8(s) =~= b.skip(1));
            assert(encode_utf8(t) =~= b.skip(1));
            lemma_text_injective(s, t);
        },
    }
}

} // verus!
