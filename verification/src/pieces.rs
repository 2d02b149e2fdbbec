//! An object text in pieces: what stands between the commas of its own level,
//! whatever commas stand deeper in it or in quotes.

use vstd::prelude::*;
use crate::dict::views;

verus! {

/// Where a reader of a JSON text stands: how deep in brackets, whether in quotes,
/// and whether behind a backslash there.
pub struct Place {
    pub depth: usize,
    pub quoted: bool,
    pub escaped: bool,
}

/// What a [`Place`] holds.
#[verifier::ext_equal]
pub ghost struct PlaceView {
    pub depth: nat,
    pub quoted: bool,
    pub escaped: bool,
}

impl View for Place {
    type V = PlaceView;

    open spec fn view(&self) -> PlaceView {
        PlaceView { depth: self.depth as nat, quoted: self.quoted, escaped: self.escaped }
    }
}

/// In no bracket and no quotes.
pub open spec fn outside() -> PlaceView {
    PlaceView { depth: 0, quoted: false, escaped: false }
}

pub open spec fn opens(b: u8) -> bool {
    b == 0x7b || b == 0x5b
}

pub open spec fn closes(b: u8) -> bool {
    b == 0x7d || b == 0x5d
}

impl PlaceView {
    /// The place behind `b`.
    pub open spec fn past(self, b: u8) -> PlaceView {
        if self.quoted {
            PlaceView {
                quoted: self.escaped || b != 0x22,
                escaped: !self.escaped && b == 0x5c,
                ..self
            }
        } else if b == 0x22 {
            PlaceView { quoted: true, ..self }
        } else if opens(b) {
            PlaceView { depth: self.depth + 1, ..self }
        } else if closes(b) && self.depth > 0 {
            PlaceView { depth: (self.depth - 1) as nat, ..self }
        } else {
            self
        }
    }
}

impl Place {
    fn step(&mut self, b: u8)
        requires
            old(self).depth < usize::MAX,
        ensures
            final(self)@ == old(self)@.past(b),
            final(self).depth <= old(self).depth + 1,
    {
        if self.quoted {
            if self.escaped {
                self.escaped = false;
            } else if b == 0x5c {
                self.escaped = true;
            } else if b == 0x22 {
                self.quoted = false;
            }
        } else if b == 0x22 {
            self.quoted = true;
        } else if b == 0x7b || b == 0x5b {
            self.depth = self.depth + 1;
        } else if (b == 0x7d || b == 0x5d) && self.depth > 0 {
            self.depth = self.depth - 1;
        }
    }
}

/// `text`, read from `place` on, in the pieces between its outermost commas.
/// `held` is the front of the first piece.
pub open spec fn pieces_from(text: Seq<u8>, place: PlaceView, held: Seq<u8>) -> Seq<Seq<u8>>
    decreases text.len(),
{
    if text.len() == 0 {
        seq![held]
    } else if place == outside() && text[0] == 0x2c {
        seq![held] + pieces_from(text.drop_first(), place, Seq::empty())
    } else {
        pieces_from(text.drop_first(), place.past(text[0]), held.push(text[0]))
    }
}

/// `text` in the pieces between its outermost commas.
pub open spec fn pieces_of(text: Seq<u8>) -> Seq<Seq<u8>> {
    pieces_from(text, outside(), Seq::empty())
}

/// The pieces of `text` between its outermost commas.
pub(crate) fn pieces(text: &[u8]) -> (r: Vec<Vec<u8>>)
    ensures
        views(r@) == pieces_of(text@),
{
    let mut done: Vec<Vec<u8>> = Vec::new();
    let mut held: Vec<u8> = Vec::new();
    let mut place = Place { depth: 0, quoted: false, escaped: false };
    let mut i: usize = 0;
    let len: usize = text.len();
    proof {
        assert(text@.skip(0) =~= text@);
        assert(views(done@) =~= Seq::empty());
        assert(held@ =~= Seq::empty());
        assert(views(done@) + pieces_from(text@, outside(), Seq::empty()) =~= pieces_of(text@));
    }
    while i < len
        invariant
            i <= len,
            len == text@.len(),
            place.depth <= i,
            views(done@) + pieces_from(text@.skip(i as int), place@, held@) == pieces_of(text@),
        decreases len - i,
    {
        let b: u8 = text[i];
        let ghost rest = text@.skip(i as int);
        let ghost was = views(done@);
        let ghost front = held@;
        assert(rest.drop_first() =~= text@.skip(i + 1));
        if b == 0x2c && place.depth == 0 && !place.quoted && !place.escaped {
            done.push(held);
            held = Vec::new();
            proof {
                assert(views(done@) =~= was.push(front));
                assert(held@ =~= Seq::empty());
                assert(was + pieces_from(rest, place@, front) =~= views(done@) + pieces_from(
                    rest.drop_first(),
                    place@,
                    held@,
                ));
            }
        } else {
            place.step(b);
            held.push(b);
        }
        i = i + 1;
    }
    proof {
        assert(text@.skip(i as int) =~= Seq::empty());
    }
    let ghost was = views(done@);
    let ghost front = held@;
    done.push(held);
    assert(views(done@) =~= was + seq![front]);
    done
}

// ── closed texts ────────────────────────────────────────────────────────

/// Whether `text`, read from `place` on, ends outside of brackets and quotes,
/// with no comma outside of them, and no bracket closed that it did not open.
pub open spec fn closed_from(text: Seq<u8>, place: PlaceView) -> bool
    decreases text.len(),
{
    if text.len() == 0 {
        place == outside()
    } else {
        &&& !(place == outside() && text[0] == 0x2c)
        &&& !(place.depth == 0 && !place.quoted && closes(text[0]))
        &&& closed_from(text.drop_first(), place.past(text[0]))
    }
}

/// Whether `text` is closed: it stands between two commas as one piece.
pub open spec fn closed(text: Seq<u8>) -> bool {
    closed_from(text, outside())
}

/// A closed text goes into the piece that it stands in, whole.
pub proof fn lemma_closed_is_held(text: Seq<u8>, rest: Seq<u8>, place: PlaceView, held: Seq<u8>)
    requires
        closed_from(text, place),
    ensures
        pieces_from(text + rest, place, held) == pieces_from(rest, outside(), held + text),
    decreases text.len(),
{
    let all = text + rest;
    if text.len() == 0 {
        assert(all =~= rest);
        assert(held + text =~= held);
    } else {
        assert(all[0] == text[0]);
        assert(all.drop_first() =~= text.drop_first() + rest);
        lemma_closed_is_held(text.drop_first(), rest, place.past(text[0]), held.push(text[0]));
        assert(held.push(text[0]) + text.drop_first() =~= held + text);
    }
}

/// Two closed texts in a row are closed.
pub proof fn lemma_closed_concat(a: Seq<u8>, b: Seq<u8>, place: PlaceView)
    requires
        closed_from(a, place),
        closed(b),
    ensures
        closed_from(a + b, place),
    decreases a.len(),
{
    if a.len() == 0 {
        assert(a + b =~= b);
    } else {
        assert((a + b).drop_first() =~= a.drop_first() + b);
        lemma_closed_concat(a.drop_first(), b, place.past(a[0]));
    }
}

/// A byte that is no comma, quote or bracket is closed.
pub proof fn lemma_plain_byte_is_closed(b: u8)
    requires
        b != 0x2c,
        b != 0x22,
        !opens(b),
        !closes(b),
    ensures
        closed(seq![b]),
{
    assert(seq![b].drop_first() =~= Seq::empty());
    reveal_with_fuel(closed_from, 2);
}

proof fn lemma_to_the_quote(inner: Seq<u8>)
    requires
        forall|i: int| 0 <= i < inner.len() ==> #[trigger] inner[i] != 0x22 && inner[i] != 0x5c,
    ensures
        closed_from(inner + seq![0x22u8], PlaceView { quoted: true, ..outside() }),
    decreases inner.len(),
{
    let all = inner + seq![0x22u8];
    let place = PlaceView { quoted: true, ..outside() };
    if inner.len() == 0 {
        assert(all[0] == 0x22);
        assert(all.drop_first() =~= Seq::empty());
        reveal_with_fuel(closed_from, 2);
    } else {
        let rest = inner.drop_first();
        assert(inner[0] != 0x22 && inner[0] != 0x5c);
        assert forall|i: int| 0 <= i < rest.len() implies #[trigger] rest[i] != 0x22 && rest[i] != 0x5c by {
            assert(inner[i + 1] != 0x22);
        }
        lemma_to_the_quote(rest);
        assert(all.drop_first() =~= rest + seq![0x22u8]);
        assert(place.past(all[0]) == place);
    }
}

/// A text in quotes is closed, where no quote and no backslash stand in it.
pub proof fn lemma_quoted_is_closed(inner: Seq<u8>)
    requires
        forall|i: int| 0 <= i < inner.len() ==> #[trigger] inner[i] != 0x22 && inner[i] != 0x5c,
    ensures
        closed(seq![0x22u8] + inner + seq![0x22u8]),
{
    let all = seq![0x22u8] + inner + seq![0x22u8];
    lemma_to_the_quote(inner);
    assert(all[0] == 0x22);
    assert(all.drop_first() =~= inner + seq![0x22u8]);
}

/// Closed texts with commas between them.
pub open spec fn comma_separated(texts: Seq<Seq<u8>>) -> Seq<u8>
    decreases texts.len(),
{
    if texts.len() == 0 {
        Seq::empty()
    } else if texts.len() == 1 {
        texts[0]
    } else {
        comma_separated(texts.drop_last()) + seq![0x2cu8] + texts.last()
    }
}

proof fn lemma_pieces_before(texts: Seq<Seq<u8>>, rest: Seq<u8>)
    requires
        texts.len() > 0,
        forall|i: int| 0 <= i < texts.len() ==> closed(#[trigger] texts[i]),
    ensures
        pieces_of(comma_separated(texts) + rest) == texts.drop_last() + pieces_from(rest, outside(), texts.last()),
    decreases texts.len(),
{
    let last = texts.last();
    assert(closed(texts[texts.len() - 1]));
    if texts.len() == 1 {
        lemma_closed_is_held(last, rest, outside(), Seq::empty());
        assert(Seq::<u8>::empty() + last =~= last);
        assert(texts.drop_last() =~= Seq::empty());
        assert(texts.drop_last() + pieces_from(rest, outside(), last) =~= pieces_from(rest, outside(), last));
    } else {
        let short = texts.drop_last();
        assert forall|i: int| 0 <= i < short.len() implies closed(#[trigger] short[i]) by {
            assert(closed(texts[i]));
        }
        let tail = seq![0x2cu8] + (last + rest);
        assert(comma_separated(texts) + rest =~= comma_separated(short) + tail);
        lemma_pieces_before(short, tail);
        assert(tail[0] == 0x2c);
        assert(tail.drop_first() =~= last + rest);
        lemma_closed_is_held(last, rest, outside(), Seq::empty());
        assert(Seq::<u8>::empty() + last =~= last);
        assert(short.drop_last() + (seq![short.last()] + pieces_from(rest, outside(), last)) =~= short + pieces_from(
            rest,
            outside(),
            last,
        ));
    }
}

/// Closed texts with commas between them are in the pieces that they were made
/// of.
pub proof fn lemma_pieces_read_back(texts: Seq<Seq<u8>>)
    requires
        texts.len() > 0,
        forall|i: int| 0 <= i < texts.len() ==> closed(#[trigger] texts[i]),
    ensures
        pieces_of(comma_separated(texts)) == texts,
{
    let none = Seq::<u8>::empty();
    lemma_pieces_before(texts, none);
    assert(comma_separated(texts) + none =~= comma_separated(texts));
    assert(texts.drop_last() + seq![texts.last()] =~= texts);
}

} // verus!
