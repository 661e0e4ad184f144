//! Streaming envelope extractor.
//!
//! The extractor consumes a text stream delivered in chunks of arbitrary
//! size and emits exactly the text that stands strictly between the first
//! open marker `<_out>` and the first close marker `</_out>` that follows
//! it, in original order and character for character.  Chunk boundaries
//! carry no meaning: the extractor may be fed the stream in any split,
//! including splits inside a marker literal.
//!
//! Between the markers, text is released as soon as it can no longer be the
//! beginning of the close marker: what is withheld is always a prefix of
//! the close marker, so the retained tail never reaches the length of the
//! marker literal, and the retained/emitted split never falls inside a
//! multi-byte character (the machine works character by character).
//!
//! The behaviour is defined by a character-at-a-time machine ([`step`],
//! [`run`]) over a [`Model`]; the executable [`StreamingParser`] is proved
//! to implement that machine exactly.

use vstd::prelude::*;
use vstd::string::StrSliceExecFns;

use crate::push_char;

verus! {

/// State of the extractor with respect to the marker pair.
#[derive(Clone, Copy, Debug, PartialEq, Eq, Structural)]
pub enum ParserState {
    /// Before the open marker: nothing is emitted.
    Seeking,
    /// Before the open marker, inside a token that is already not the open
    /// marker: dropped up to and including its closing `>`.
    Skipping,
    /// Between the markers: content is emitted.
    Inside,
    /// After the close marker: terminal, everything is dropped.
    Closed,
}

/// Mathematical model of the extractor: its state together with the pending
/// characters.  The pending characters are the retained tail: while seeking,
/// the fragment that may still become the open marker; between the markers,
/// the suffix of the input that may still be the beginning of the close
/// marker.  It is always a prefix of the marker being matched, so it stays
/// shorter than the marker literal.
pub struct Model {
    pub state: ParserState,
    pub pending: Seq<char>,
}

/// The pending characters that an open marker token holds just before its
/// final `>` arrives.
pub open spec fn open_pending() -> Seq<char> {
    seq!['<', '_', 'o', 'u', 't']
}

/// The pending characters that a close marker holds just before its final
/// `>` arrives.
pub open spec fn close_pending() -> Seq<char> {
    seq!['<', '/', '_', 'o', 'u', 't']
}

/// The open marker literal.
pub open spec fn open_marker() -> Seq<char> {
    seq!['<', '_', 'o', 'u', 't', '>']
}

/// The close marker literal.
pub open spec fn close_marker() -> Seq<char> {
    seq!['<', '/', '_', 'o', 'u', 't', '>']
}

/// The model of a freshly created extractor.
pub open spec fn init_model() -> Model {
    Model { state: ParserState::Seeking, pending: Seq::empty() }
}

/// The model of an extractor standing between the markers with nothing
/// withheld.
pub open spec fn inside_model() -> Model {
    Model { state: ParserState::Inside, pending: Seq::empty() }
}

/// The model of a closed extractor.
pub open spec fn closed_model() -> Model {
    Model { state: ParserState::Closed, pending: Seq::empty() }
}

/// The retained tail is a prefix of the marker being matched — nothing in
/// a skipped token or after the close is retained at all.
pub open spec fn bounded_model(m: Model) -> bool {
    match m.state {
        ParserState::Seeking => m.pending.is_prefix_of(open_pending()),
        ParserState::Skipping => m.pending.len() == 0,
        ParserState::Inside => m.pending.is_prefix_of(close_pending()),
        ParserState::Closed => m.pending.len() == 0,
    }
}

/// One character of input: the next model and the characters emitted.
///
/// While `Seeking`, text outside a token is dropped; a token is followed
/// only while it can still become the open marker — one that no longer can
/// is skipped up to its closing `>`; the complete open marker moves the
/// machine `Inside`.  While `Inside`, everything is payload and is emitted
/// except the close marker itself: the machine withholds exactly the suffix
/// that is still a prefix of the close marker, releases it the moment it no
/// longer is, and moves to `Closed` when the marker completes.  `Closed` is
/// terminal: everything is dropped.
pub open spec fn step(m: Model, c: char) -> (Model, Seq<char>) {
    match m.state {
        ParserState::Closed => (closed_model(), Seq::empty()),
        ParserState::Seeking => {
            if m.pending == open_pending() && c == '>' {
                (inside_model(), Seq::empty())
            } else if m.pending.push(c).is_prefix_of(open_pending()) {
                (
                    Model { state: ParserState::Seeking, pending: m.pending.push(c) },
                    Seq::empty(),
                )
            } else if m.pending.len() == 0 {
                (m, Seq::empty())
            } else if c == '>' {
                (init_model(), Seq::empty())
            } else {
                (Model { state: ParserState::Skipping, pending: Seq::empty() }, Seq::empty())
            }
        },
        ParserState::Skipping => {
            if c == '>' {
                (init_model(), Seq::empty())
            } else {
                (Model { state: ParserState::Skipping, pending: Seq::empty() }, Seq::empty())
            }
        },
        ParserState::Inside => {
            if m.pending == close_pending() && c == '>' {
                (closed_model(), Seq::empty())
            } else if m.pending.push(c).is_prefix_of(close_pending()) {
                (
                    Model { state: ParserState::Inside, pending: m.pending.push(c) },
                    Seq::empty(),
                )
            } else if c == '<' {
                (Model { state: ParserState::Inside, pending: seq!['<'] }, m.pending)
            } else {
                (inside_model(), m.pending.push(c))
            }
        },
    }
}

/// The machine over a whole input: the final model and everything emitted,
/// in order.
pub open spec fn run(m: Model, input: Seq<char>) -> (Model, Seq<char>)
    decreases input.len(),
{
    if input.len() == 0 {
        (m, Seq::empty())
    } else {
        let prev = run(m, input.drop_last());
        let last = step(prev.0, input.last());
        (last.0, prev.1 + last.1)
    }
}

/// Streaming envelope extractor over `<_out>` ... `</_out>`.
pub struct StreamingParser {
    state: ParserState,
    pending: Vec<char>,
}

impl StreamingParser {
    /// The model that this extractor currently stands at.
    pub closed spec fn model(&self) -> Model {
        Model { state: self.state, pending: self.pending@ }
    }

    /// A fresh extractor: `Seeking`, nothing withheld, nothing emitted yet.
    pub fn new() -> (p: StreamingParser)
        ensures
            p.model() == init_model(),
    {
        StreamingParser { state: ParserState::Seeking, pending: Vec::new() }
    }

    /// Feed one chunk of the stream; the returned text is exactly what the
    /// machine emits for these characters from the current model.  The
    /// retained tail stays bounded: see [`lemma_pending_bounded`].
    pub fn feed(&mut self, chunk: &str) -> (out: String)
        ensures
            ({
                let r = run(old(self).model(), chunk@);
                final(self).model() == r.0 && out@ == r.1
            }),
            bounded_model(old(self).model()) ==> bounded_model(final(self).model()),
    {
        proof {
            if bounded_model(old(self).model()) {
                lemma_pending_bounded(old(self).model(), chunk@);
            }
        }
        let n = chunk.unicode_len();
        let mut out = String::new();
        let mut i: usize = 0;
        while i < n
            invariant
                i <= n,
                n == chunk@.len(),
                ({
                    let r = run(old(self).model(), chunk@.take(i as int));
                    self.model() == r.0 && out@ == r.1
                }),
            decreases n - i,
        {
            let c = chunk.get_char(i);
            proof {
                assert(chunk@.take(i + 1).drop_last() =~= chunk@.take(i as int));
                assert(chunk@.take(i + 1).last() == chunk@[i as int]);
            }
            self.step_exec(c, &mut out);
            i += 1;
        }
        proof {
            assert(chunk@.take(n as int) =~= chunk@);
        }
        out
    }

    /// Apply one character of input, appending whatever it emits to `out`.
    fn step_exec(&mut self, c: char, out: &mut String)
        ensures
            ({
                let r = step(old(self).model(), c);
                final(self).model() == r.0 && final(out)@ == old(out)@ + r.1
            }),
    {
        match self.state {
            ParserState::Closed => {
                self.pending.clear();
                proof {
                    assert(old(out)@ + Seq::<char>::empty() =~= old(out)@);
                }
            },
            ParserState::Skipping => {
                if c == '>' {
                    self.state = ParserState::Seeking;
                }
                self.pending.clear();
                proof {
                    assert(old(out)@ + Seq::<char>::empty() =~= old(out)@);
                }
            },
            ParserState::Seeking => {
                if is_open_pending(&self.pending) && c == '>' {
                    self.state = ParserState::Inside;
                    self.pending.clear();
                } else if extends_open(&self.pending, c) {
                    self.pending.push(c);
                } else if self.pending.len() == 0 {
                    // Plain text outside any token: dropped.
                } else if c == '>' {
                    self.pending.clear();
                } else {
                    self.state = ParserState::Skipping;
                    self.pending.clear();
                }
                proof {
                    assert(old(out)@ + Seq::<char>::empty() =~= old(out)@);
                }
            },
            ParserState::Inside => {
                if is_close_pending(&self.pending) && c == '>' {
                    self.state = ParserState::Closed;
                    self.pending.clear();
                    proof {
                        assert(old(out)@ + Seq::<char>::empty() =~= old(out)@);
                    }
                } else if extends_close(&self.pending, c) {
                    self.pending.push(c);
                    proof {
                        assert(old(out)@ + Seq::<char>::empty() =~= old(out)@);
                    }
                } else if c == '<' {
                    append_chars(out, &self.pending);
                    self.pending.clear();
                    self.pending.push('<');
                    proof {
                        assert(self.pending@ =~= seq!['<']);
                    }
                } else {
                    self.pending.push(c);
                    append_chars(out, &self.pending);
                    self.pending.clear();
                }
            },
        }
    }
}

/// Running the machine over `a + b` is running it over `a` and then, from
/// the model reached, over `b`; the emitted text is the two emissions in
/// order.  Feeding a stream in chunks therefore emits exactly what feeding
/// it whole would.
pub proof fn lemma_run_append(m: Model, a: Seq<char>, b: Seq<char>)
    ensures
        run(m, a + b).0 == run(run(m, a).0, b).0,
        run(m, a + b).1 == run(m, a).1 + run(run(m, a).0, b).1,
    decreases b.len(),
{
    if b.len() == 0 {
        assert(a + b =~= a);
        assert(run(m, a).1 + run(run(m, a).0, b).1 =~= run(m, a).1);
    } else {
        lemma_run_append(m, a, b.drop_last());
        assert((a + b).drop_last() =~= a + b.drop_last());
        assert((a + b).last() == b.last());
        assert(run(m, a).1 + (run(run(m, a).0, b.drop_last()).1 + step(
            run(run(m, a).0, b.drop_last()).0,
            b.last(),
        ).1) =~= (run(m, a).1 + run(run(m, a).0, b.drop_last()).1) + step(
            run(run(m, a).0, b.drop_last()).0,
            b.last(),
        ).1);
    }
}

/// The machine fed one chunk after another: the final model and everything
/// emitted over all the chunks, in order.
pub open spec fn run_chunks(m: Model, chunks: Seq<Seq<char>>) -> (Model, Seq<char>)
    decreases chunks.len(),
{
    if chunks.len() == 0 {
        (m, Seq::empty())
    } else {
        let prev = run_chunks(m, chunks.drop_last());
        let last = run(prev.0, chunks.last());
        (last.0, prev.1 + last.1)
    }
}

/// Chunking invariance: however an input is split into chunks, feeding the
/// chunks one at a time reaches the same model and emits the same text as
/// feeding the whole input at once.
pub proof fn lemma_chunking_invariance(m: Model, chunks: Seq<Seq<char>>)
    ensures
        run_chunks(m, chunks) == run(m, chunks.flatten()),
    decreases chunks.len(),
{
    chunks.lemma_flatten_and_flatten_alt_are_equivalent();
    if chunks.len() == 0 {
        assert(chunks.flatten() =~= Seq::<char>::empty());
    } else {
        lemma_chunking_invariance(m, chunks.drop_last());
        chunks.drop_last().lemma_flatten_and_flatten_alt_are_equivalent();
        lemma_run_append(m, chunks.drop_last().flatten(), chunks.last());
        assert(chunks.flatten() =~= chunks.drop_last().flatten() + chunks.last());
        let prev = run_chunks(m, chunks.drop_last());
        let last = run(prev.0, chunks.last());
        assert(run(m, chunks.flatten()).1 == prev.1 + last.1);
        assert(run_chunks(m, chunks).1 == prev.1 + last.1);
    }
}

/// The retained tail is bounded: from any bounded model — a fresh extractor
/// is one — the machine only ever withholds a prefix of a marker, so fewer
/// characters than the close marker literal holds.
pub proof fn lemma_pending_bounded(m: Model, input: Seq<char>)
    requires
        bounded_model(m),
    ensures
        bounded_model(run(m, input).0),
        run(m, input).0.pending.len() < close_marker().len(),
    decreases input.len(),
{
    assert(seq!['<'].is_prefix_of(close_pending())) by {
        assert(seq!['<'] =~= close_pending().subrange(0, 1));
    }
    if input.len() > 0 {
        lemma_pending_bounded(m, input.drop_last());
    }
}

/// `Closed` is terminal: from a closed model, no input ever produces output
/// or leaves the closed state.
pub proof fn lemma_closed_silent(m: Model, input: Seq<char>)
    requires
        m.state == ParserState::Closed,
    ensures
        run(m, input).0.state == ParserState::Closed,
        run(m, input).1 == Seq::<char>::empty(),
    decreases input.len(),
{
    if input.len() > 0 {
        lemma_closed_silent(m, input.drop_last());
        assert(run(m, input).1 =~= Seq::<char>::empty());
    }
}

/// Text free of `<` is dropped without a trace while the machine seeks the
/// open marker.
pub proof fn lemma_seeking_plain(s: Seq<char>)
    requires
        forall|i: int| 0 <= i < s.len() ==> s[i] != '<',
    ensures
        run(init_model(), s) == (init_model(), Seq::<char>::empty()),
    decreases s.len(),
{
    if s.len() > 0 {
        lemma_seeking_plain(s.drop_last());
        let c = s.last();
        assert(s[s.len() - 1] != '<');
        assert(!seq![c].is_prefix_of(open_pending())) by {
            if seq![c].is_prefix_of(open_pending()) {
                assert(seq![c] == open_pending().subrange(0, 1));
                assert(seq![c][0] == open_pending().subrange(0, 1)[0]);
                assert(open_pending().subrange(0, 1)[0] == open_pending()[0]);
                assert(c == '<');
            }
        }
        assert(Seq::<char>::empty().push(c) =~= seq![c]);
        assert(run(init_model(), s).1 =~= Seq::<char>::empty());
    }
}

/// Text free of `<` is emitted unchanged while the machine stands between
/// the markers.
pub proof fn lemma_inside_plain(s: Seq<char>)
    requires
        forall|i: int| 0 <= i < s.len() ==> s[i] != '<',
    ensures
        run(inside_model(), s) == (inside_model(), s),
    decreases s.len(),
{
    if s.len() == 0 {
        assert(run(inside_model(), s).1 =~= s);
    } else {
        lemma_inside_plain(s.drop_last());
        let c = s.last();
        assert(s[s.len() - 1] != '<');
        assert(Seq::<char>::empty().push(c) =~= seq![c]);
        assert(!seq![c].is_prefix_of(close_pending())) by {
            if seq![c].is_prefix_of(close_pending()) {
                assert(seq![c] == close_pending().subrange(0, 1));
                assert(seq![c][0] == close_pending().subrange(0, 1)[0]);
                assert(close_pending().subrange(0, 1)[0] == close_pending()[0]);
                assert(c == '<');
            }
        }
        assert(run(inside_model(), s).1 =~= s.drop_last() + seq![c]);
        assert(s.drop_last() + seq![c] =~= s);
    }
}

/// The open marker, fed to a fresh machine, moves it between the markers
/// and emits nothing.
pub proof fn lemma_open_marker_run()
    ensures
        run(init_model(), open_marker()) == (inside_model(), Seq::<char>::empty()),
{
    let p0 = Seq::<char>::empty();
    let p1 = seq!['<'];
    let p2 = seq!['<', '_'];
    let p3 = seq!['<', '_', 'o'];
    let p4 = seq!['<', '_', 'o', 'u'];
    let p5 = seq!['<', '_', 'o', 'u', 't'];
    let p6 = open_marker();
    assert(p1.drop_last() =~= p0 && p2.drop_last() =~= p1 && p3.drop_last() =~= p2
        && p4.drop_last() =~= p3 && p5.drop_last() =~= p4 && p6.drop_last() =~= p5);
    assert(p0.push('<') =~= p1 && p1.push('_') =~= p2 && p2.push('o') =~= p3 && p3.push('u')
        =~= p4 && p4.push('t') =~= p5);
    assert(p1.is_prefix_of(open_pending())) by {
        assert(p1 =~= open_pending().subrange(0, 1));
    }
    assert(p2.is_prefix_of(open_pending())) by {
        assert(p2 =~= open_pending().subrange(0, 2));
    }
    assert(p3.is_prefix_of(open_pending())) by {
        assert(p3 =~= open_pending().subrange(0, 3));
    }
    assert(p4.is_prefix_of(open_pending())) by {
        assert(p4 =~= open_pending().subrange(0, 4));
    }
    assert(p5.is_prefix_of(open_pending())) by {
        assert(p5 =~= open_pending().subrange(0, 5));
    }
    assert(run(init_model(), p0) == (init_model(), Seq::<char>::empty()));
    assert(run(init_model(), p1).0 == Model { state: ParserState::Seeking, pending: p1 });
    assert(run(init_model(), p2).0 == Model { state: ParserState::Seeking, pending: p2 });
    assert(run(init_model(), p3).0 == Model { state: ParserState::Seeking, pending: p3 });
    assert(run(init_model(), p4).0 == Model { state: ParserState::Seeking, pending: p4 });
    assert(run(init_model(), p5).0 == Model { state: ParserState::Seeking, pending: p5 });
    assert(p5 == open_pending());
    assert(run(init_model(), p6).0 == inside_model());
    assert(run(init_model(), p6).1 =~= Seq::<char>::empty());
}

/// The close marker, fed to a machine standing between the markers, closes
/// it and emits nothing.
pub proof fn lemma_close_marker_run()
    ensures
        run(inside_model(), close_marker()) == (closed_model(), Seq::<char>::empty()),
{
    let p0 = Seq::<char>::empty();
    let p1 = seq!['<'];
    let p2 = seq!['<', '/'];
    let p3 = seq!['<', '/', '_'];
    let p4 = seq!['<', '/', '_', 'o'];
    let p5 = seq!['<', '/', '_', 'o', 'u'];
    let p6 = seq!['<', '/', '_', 'o', 'u', 't'];
    let p7 = close_marker();
    assert(p1.drop_last() =~= p0 && p2.drop_last() =~= p1 && p3.drop_last() =~= p2
        && p4.drop_last() =~= p3 && p5.drop_last() =~= p4 && p6.drop_last() =~= p5
        && p7.drop_last() =~= p6);
    assert(p0.push('<') =~= p1 && p1.push('/') =~= p2 && p2.push('_') =~= p3 && p3.push('o')
        =~= p4 && p4.push('u') =~= p5 && p5.push('t') =~= p6);
    assert(p1.is_prefix_of(close_pending())) by {
        assert(p1 =~= close_pending().subrange(0, 1));
    }
    assert(p2.is_prefix_of(close_pending())) by {
        assert(p2 =~= close_pending().subrange(0, 2));
    }
    assert(p3.is_prefix_of(close_pending())) by {
        assert(p3 =~= close_pending().subrange(0, 3));
    }
    assert(p4.is_prefix_of(close_pending())) by {
        assert(p4 =~= close_pending().subrange(0, 4));
    }
    assert(p5.is_prefix_of(close_pending())) by {
        assert(p5 =~= close_pending().subrange(0, 5));
    }
    assert(p6.is_prefix_of(close_pending())) by {
        assert(p6 =~= close_pending().subrange(0, 6));
    }
    assert(run(inside_model(), p0) == (inside_model(), Seq::<char>::empty()));
    assert(run(inside_model(), p1).0 == Model { state: ParserState::Inside, pending: p1 });
    assert(run(inside_model(), p1).1 =~= Seq::<char>::empty());
    assert(run(inside_model(), p2).0 == Model { state: ParserState::Inside, pending: p2 });
    assert(run(inside_model(), p3).0 == Model { state: ParserState::Inside, pending: p3 });
    assert(run(inside_model(), p4).0 == Model { state: ParserState::Inside, pending: p4 });
    assert(run(inside_model(), p5).0 == Model { state: ParserState::Inside, pending: p5 });
    assert(run(inside_model(), p6).0 == Model { state: ParserState::Inside, pending: p6 });
    assert(p6 == close_pending());
    assert(run(inside_model(), p7).0 == closed_model());
    assert(run(inside_model(), p7).1 =~= Seq::<char>::empty());
}

/// An unterminated token fragment between the markers: what is withheld is
/// the fragment itself while it can still be the beginning of the close
/// marker, and nothing once it no longer can — either way, withheld and
/// emitted together are exactly the fragment.
pub proof fn lemma_inside_fragment(body: Seq<char>)
    requires
        forall|i: int| 0 <= i < body.len() ==> body[i] != '<',
        forall|i: int| 0 <= i < body.len() ==> body[i] != '>',
    ensures
        ({
            let t = seq!['<'] + body;
            let r = run(inside_model(), t);
            &&& r.0.state == ParserState::Inside
            &&& r.1 + r.0.pending == t
            &&& (if t.is_prefix_of(close_pending()) {
                r.0.pending == t && r.1 == Seq::<char>::empty()
            } else {
                r.0.pending == Seq::<char>::empty() && r.1 == t
            })
        }),
    decreases body.len(),
{
    let t = seq!['<'] + body;
    if body.len() == 0 {
        assert(t =~= seq!['<']);
        assert(t.drop_last() =~= Seq::<char>::empty());
        assert(run(inside_model(), Seq::<char>::empty()) == (
            inside_model(),
            Seq::<char>::empty(),
        ));
        assert(run(inside_model(), t.drop_last()) == (inside_model(), Seq::<char>::empty()));
        assert(t.last() == '<');
        assert(Seq::<char>::empty().push('<') =~= t);
        assert(t.is_prefix_of(close_pending())) by {
            assert(t =~= close_pending().subrange(0, 1));
        }
        assert(run(inside_model(), t).0.pending == t);
        assert(run(inside_model(), t).1 =~= Seq::<char>::empty());
        assert(run(inside_model(), t).1 + run(inside_model(), t).0.pending =~= t);
    } else {
        let b = body.drop_last();
        let c = body.last();
        lemma_inside_fragment(b);
        let tb = seq!['<'] + b;
        assert(t.drop_last() =~= tb);
        assert(t.last() == c);
        assert(tb.push(c) =~= t);
        let rb = run(inside_model(), tb);
        if tb.is_prefix_of(close_pending()) {
            // The fragment so far is withheld; this character either keeps
            // it a marker prefix or releases the whole fragment.
            assert(rb.0 == Model { state: ParserState::Inside, pending: tb });
            assert(tb != close_pending() || c != '>');
            if t.is_prefix_of(close_pending()) {
                assert(run(inside_model(), t).0.pending == t);
                assert(run(inside_model(), t).1 =~= Seq::<char>::empty());
                assert(run(inside_model(), t).1 + t =~= t);
            } else {
                assert(c != '<');
                assert(run(inside_model(), t).0 == inside_model());
                assert(run(inside_model(), t).1 =~= Seq::<char>::empty() + tb.push(c));
                assert(run(inside_model(), t).1 =~= t);
                assert(run(inside_model(), t).1 + Seq::<char>::empty() =~= t);
            }
        } else {
            // The fragment was already released whole; this character is
            // plain payload and follows it out.
            assert(rb.0 == inside_model());
            assert(rb.1 == tb);
            assert(!Seq::<char>::empty().push(c).is_prefix_of(close_pending())) by {
                assert(close_pending().subrange(0, 1) =~= seq!['<']);
                assert(Seq::<char>::empty().push(c) =~= seq![c]);
            }
            assert(c != '<');
            assert(run(inside_model(), t).0 == inside_model());
            assert(run(inside_model(), t).1 =~= tb + Seq::<char>::empty().push(c));
            assert(run(inside_model(), t).1 =~= t);
            assert(!t.is_prefix_of(close_pending())) by {
                if t.is_prefix_of(close_pending()) {
                    assert(tb =~= close_pending().subrange(0, tb.len() as int));
                }
            }
            assert(run(inside_model(), t).1 + Seq::<char>::empty() =~= t);
        }
    }
}

/// A complete token other than the close marker is payload: between the
/// markers it is emitted exactly as it stands, angle brackets included.
pub proof fn lemma_inside_token(body: Seq<char>)
    requires
        forall|i: int| 0 <= i < body.len() ==> body[i] != '<',
        forall|i: int| 0 <= i < body.len() ==> body[i] != '>',
        body != seq!['/', '_', 'o', 'u', 't'],
    ensures
        run(inside_model(), seq!['<'] + body + seq!['>']) == (
            inside_model(),
            seq!['<'] + body + seq!['>'],
        ),
{
    lemma_inside_fragment(body);
    let t = seq!['<'] + body;
    let tok = seq!['<'] + body + seq!['>'];
    assert(tok.drop_last() =~= t);
    assert(tok.last() == '>');
    let rt = run(inside_model(), t);
    assert(t != close_pending()) by {
        if t == close_pending() {
            assert(body =~= seq!['/', '_', 'o', 'u', 't']);
        }
    }
    assert(!t.push('>').is_prefix_of(close_pending())) by {
        if t.push('>').is_prefix_of(close_pending()) {
            let k = t.len() as int;
            assert(t.push('>')[k] == close_pending().subrange(0, k + 1)[k]);
            assert(close_pending()[k] == '>');
        }
    }
    if t.is_prefix_of(close_pending()) {
        assert(rt.0 == Model { state: ParserState::Inside, pending: t });
        assert(run(inside_model(), tok).0 == inside_model());
        assert(run(inside_model(), tok).1 =~= Seq::<char>::empty() + t.push('>'));
        assert(run(inside_model(), tok).1 =~= tok);
    } else {
        assert(rt.0 == inside_model());
        assert(!Seq::<char>::empty().push('>').is_prefix_of(close_pending())) by {
            assert(close_pending().subrange(0, 1) =~= seq!['<']);
            assert(Seq::<char>::empty().push('>') =~= seq!['>']);
        }
        assert(run(inside_model(), tok).0 == inside_model());
        assert(run(inside_model(), tok).1 =~= t + Seq::<char>::empty().push('>'));
        assert(run(inside_model(), tok).1 =~= tok);
    }
}

/// Exact extraction for a payload that itself holds markup: plain text, one
/// complete non-marker token, plain text again — all of it, and nothing
/// else, is emitted.
pub proof fn lemma_extraction_with_markup(
    pre: Seq<char>,
    m1: Seq<char>,
    body: Seq<char>,
    m2: Seq<char>,
    post: Seq<char>,
)
    requires
        forall|i: int| 0 <= i < pre.len() ==> pre[i] != '<',
        forall|i: int| 0 <= i < m1.len() ==> m1[i] != '<',
        forall|i: int| 0 <= i < body.len() ==> body[i] != '<',
        forall|i: int| 0 <= i < body.len() ==> body[i] != '>',
        body != seq!['/', '_', 'o', 'u', 't'],
        forall|i: int| 0 <= i < m2.len() ==> m2[i] != '<',
    ensures
        ({
            let mid = m1 + (seq!['<'] + body + seq!['>']) + m2;
            let input = pre + open_marker() + mid + close_marker() + post;
            &&& run(init_model(), input).1 == mid
            &&& run(init_model(), input).0.state == ParserState::Closed
        }),
{
    let token = seq!['<'] + body + seq!['>'];
    let mid = m1 + token + m2;
    lemma_seeking_plain(pre);
    lemma_open_marker_run();
    lemma_inside_plain(m1);
    lemma_inside_token(body);
    lemma_inside_plain(m2);
    lemma_close_marker_run();
    lemma_closed_silent(closed_model(), post);
    let a = pre + open_marker();
    lemma_run_append(init_model(), pre, open_marker());
    assert(run(init_model(), a).0 == inside_model());
    assert(run(init_model(), a).1 =~= Seq::<char>::empty());
    let b = a + m1;
    lemma_run_append(init_model(), a, m1);
    assert(run(init_model(), b).0 == inside_model());
    assert(run(init_model(), b).1 =~= m1);
    let c = b + token;
    lemma_run_append(init_model(), b, token);
    assert(run(init_model(), c).0 == inside_model());
    assert(run(init_model(), c).1 =~= m1 + token);
    let d = c + m2;
    lemma_run_append(init_model(), c, m2);
    assert(run(init_model(), d).0 == inside_model());
    assert(run(init_model(), d).1 =~= mid);
    let e = d + close_marker();
    lemma_run_append(init_model(), d, close_marker());
    assert(run(init_model(), e).0 == closed_model());
    assert(run(init_model(), e).1 =~= mid);
    let f = e + post;
    lemma_run_append(init_model(), e, post);
    assert(run(init_model(), f).0.state == ParserState::Closed);
    assert(run(init_model(), f).1 =~= mid);
    assert(pre + open_marker() + mid + close_marker() + post =~= f);
}

/// Exact extraction.  For an input made of plain text, the open marker, a
/// plain payload, the close marker and an arbitrary tail, the machine emits
/// exactly the payload: nothing outside the marker pair ever appears, and
/// everything strictly inside appears, in order and character for
/// character.  (Plain here means free of `<`; for a payload holding
/// markup of its own see [`lemma_extraction_with_markup`].)
pub proof fn lemma_extraction_exact(pre: Seq<char>, mid: Seq<char>, post: Seq<char>)
    requires
        forall|i: int| 0 <= i < pre.len() ==> pre[i] != '<',
        forall|i: int| 0 <= i < mid.len() ==> mid[i] != '<',
    ensures
        ({
            let input = pre + open_marker() + mid + close_marker() + post;
            &&& run(init_model(), input).1 == mid
            &&& run(init_model(), input).0.state == ParserState::Closed
        }),
{
    lemma_seeking_plain(pre);
    lemma_open_marker_run();
    lemma_inside_plain(mid);
    lemma_close_marker_run();
    lemma_closed_silent(closed_model(), post);
    let a = pre + open_marker();
    lemma_run_append(init_model(), pre, open_marker());
    assert(run(init_model(), a).0 == inside_model());
    assert(run(init_model(), a).1 =~= Seq::<char>::empty());
    let b = a + mid;
    lemma_run_append(init_model(), a, mid);
    assert(run(init_model(), b).0 == inside_model());
    assert(run(init_model(), b).1 =~= mid);
    let c = b + close_marker();
    lemma_run_append(init_model(), b, close_marker());
    assert(run(init_model(), c).0 == closed_model());
    assert(run(init_model(), c).1 =~= mid);
    let d = c + post;
    lemma_run_append(init_model(), c, post);
    assert(run(init_model(), d).0.state == ParserState::Closed);
    assert(run(init_model(), d).1 =~= mid);
    assert(pre + open_marker() + mid + close_marker() + post =~= d);
}

/// True exactly when the withheld fragment is the open marker awaiting its
/// final `>`.
fn is_open_pending(v: &Vec<char>) -> (b: bool)
    ensures
        b == (v@ == open_pending()),
{
    let b = v.len() == 5 && v[0] == '<' && v[1] == '_' && v[2] == 'o' && v[3] == 'u' && v[4]
        == 't';
    proof {
        if b {
            assert(v@ =~= open_pending());
        }
    }
    b
}

/// True exactly when the withheld fragment is the close marker awaiting its
/// final `>`.
fn is_close_pending(v: &Vec<char>) -> (b: bool)
    ensures
        b == (v@ == close_pending()),
{
    let b = v.len() == 6 && v[0] == '<' && v[1] == '/' && v[2] == '_' && v[3] == 'o' && v[4]
        == 'u' && v[5] == 't';
    proof {
        if b {
            assert(v@ =~= close_pending());
        }
    }
    b
}

/// The character at position `i` of the open marker fragment.
fn open_pending_char(i: usize) -> (c: char)
    requires
        i < 5,
    ensures
        c == open_pending()[i as int],
{
    if i == 0 {
        '<'
    } else if i == 1 {
        '_'
    } else if i == 2 {
        'o'
    } else if i == 3 {
        'u'
    } else {
        't'
    }
}

/// The character at position `i` of the close marker fragment.
fn close_pending_char(i: usize) -> (c: char)
    requires
        i < 6,
    ensures
        c == close_pending()[i as int],
{
    if i == 0 {
        '<'
    } else if i == 1 {
        '/'
    } else if i == 2 {
        '_'
    } else if i == 3 {
        'o'
    } else if i == 4 {
        'u'
    } else {
        't'
    }
}

/// Whether the fragment, extended by `c`, is still a prefix of the open
/// marker.
fn extends_open(p: &Vec<char>, c: char) -> (b: bool)
    ensures
        b == p@.push(c).is_prefix_of(open_pending()),
{
    let q = Ghost(p@.push(c));
    if p.len() >= 5 {
        return false;
    }
    let mut i: usize = 0;
    while i < p.len()
        invariant
            i <= p@.len(),
            p@.len() < 5,
            q@ == p@.push(c),
            forall|j: int| 0 <= j < i ==> p@[j] == open_pending()[j],
        decreases p@.len() - i,
    {
        if p[i] != open_pending_char(i) {
            proof {
                assert(q@[i as int] != open_pending().subrange(0, q@.len() as int)[i as int]);
            }
            return false;
        }
        i += 1;
    }
    let r = c == open_pending_char(p.len());
    proof {
        if r {
            assert(q@ =~= open_pending().subrange(0, q@.len() as int));
        } else {
            assert(q@[p@.len() as int] != open_pending().subrange(0, q@.len() as int)[p@.len() as int]);
        }
    }
    r
}

/// Whether the fragment, extended by `c`, is still a prefix of the close
/// marker.
fn extends_close(p: &Vec<char>, c: char) -> (b: bool)
    ensures
        b == p@.push(c).is_prefix_of(close_pending()),
{
    let q = Ghost(p@.push(c));
    if p.len() >= 6 {
        return false;
    }
    let mut i: usize = 0;
    while i < p.len()
        invariant
            i <= p@.len(),
            p@.len() < 6,
            q@ == p@.push(c),
            forall|j: int| 0 <= j < i ==> p@[j] == close_pending()[j],
        decreases p@.len() - i,
    {
        if p[i] != close_pending_char(i) {
            proof {
                assert(q@[i as int] != close_pending().subrange(0, q@.len() as int)[i as int]);
            }
            return false;
        }
        i += 1;
    }
    let r = c == close_pending_char(p.len());
    proof {
        if r {
            assert(q@ =~= close_pending().subrange(0, q@.len() as int));
        } else {
            assert(q@[p@.len() as int] != close_pending().subrange(0, q@.len() as int)[p@.len() as int]);
        }
    }
    r
}

/// Append every character of `v` to `s`, in order.
fn append_chars(s: &mut String, v: &Vec<char>)
    ensures
        final(s)@ == old(s)@ + v@,
{
    let mut j: usize = 0;
    while j < v.len()
        invariant
            j <= v.len(),
            s@ == old(s)@ + v@.take(j as int),
        decreases v.len() - j,
    {
        push_char(s, v[j]);
        proof {
            assert(old(s)@ + v@.take(j + 1) =~= (old(s)@ + v@.take(j as int)).push(v@[j as int]));
        }
        j += 1;
    }
    proof {
        assert(v@.take(v@.len() as int) =~= v@);
    }
}

} // verus!
