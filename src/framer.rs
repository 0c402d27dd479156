use vstd::prelude::*;
use vstd::string::StrSliceExecFns;
use vstd::utf8::{decode_utf8, valid_utf8};
use crate::event::{event_views, EventView, OscEvent};
use crate::interpret::{interpret, interpret_spec};

verus! {

/// The escape byte, which starts every control sequence.
pub const ESC: u8 = 0x1b;

/// The bell byte, a one-byte sequence terminator.
pub const BEL: u8 = 0x07;

/// The byte `]`, which after `ESC` opens an operating-system command.
pub const OPEN: u8 = 0x5d;

/// The byte `\`, which after `ESC` ends a sequence (the string terminator).
pub const BACKSLASH: u8 = 0x5c;

/// Where the framer stands between two bytes.
#[derive(Debug, Clone, Copy, PartialEq, Eq)]
pub enum ParserState {
    /// Outside any sequence.
    Normal,
    /// Just after an `ESC`.
    EscapeSeen,
    /// Just after `ESC ]`.
    SequenceOpened,
    /// Collecting the payload until a terminator.
    CollectingPayload,
}

/// The mathematical value of a parser.
pub struct ParserView {
    pub state: ParserState,
    pub buffer: Seq<u8>,
    pub nonce: Seq<char>,
}

impl ParserView {
    /// The buffer holds bytes only while a payload is being collected.
    pub open spec fn wf(self) -> bool {
        self.state != ParserState::CollectingPayload ==> self.buffer.len() == 0
    }
}

/// What the framer does with one byte: the next state and buffer, and the
/// payload of a sequence that this byte ends.
pub open spec fn frame_step(state: ParserState, buf: Seq<u8>, b: u8) -> (ParserState, Seq<u8>, Option<Seq<u8>>) {
    match state {
        ParserState::Normal => if b == ESC {
            (ParserState::EscapeSeen, buf, None)
        } else {
            (ParserState::Normal, buf, None)
        },
        ParserState::EscapeSeen => if b == OPEN {
            (ParserState::SequenceOpened, Seq::empty(), None)
        } else {
            (ParserState::Normal, buf, None)
        },
        ParserState::SequenceOpened => (ParserState::CollectingPayload, buf.push(b), None),
        ParserState::CollectingPayload => if b == BEL {
            (ParserState::Normal, Seq::empty(), Some(buf))
        } else if b == BACKSLASH && buf.len() > 0 && buf.last() == ESC {
            (ParserState::Normal, Seq::empty(), Some(buf.drop_last()))
        } else {
            (ParserState::CollectingPayload, buf.push(b), None)
        },
    }
}

/// The text that `String::from_utf8_lossy` reads from bytes that are not
/// valid UTF-8, each invalid run replaced by U+FFFD.
pub uninterp spec fn lossy_of(b: Seq<u8>) -> Seq<char>;

/// The text that a payload is read as: its characters where it is valid
/// UTF-8, else the text with replacements.
pub open spec fn payload_text(p: Seq<u8>) -> Seq<char> {
    if valid_utf8(p) {
        decode_utf8(p)
    } else {
        lossy_of(p)
    }
}

/// The event that a completed payload yields for a parser holding `nonce`.
pub open spec fn payload_event(p: Seq<u8>, nonce: Seq<char>) -> Option<EventView> {
    interpret_spec(payload_text(p), nonce)
}

/// Events appended after one byte: the event of the payload that it ends, if any.
pub open spec fn step_events(done: Option<Seq<u8>>, nonce: Seq<char>) -> Seq<EventView> {
    match done {
        Some(p) => match payload_event(p, nonce) {
            Some(e) => seq![e],
            None => Seq::empty(),
        },
        None => Seq::empty(),
    }
}

/// Feeding `data` from `state` and `buf`: the final state and buffer, and the
/// events in the order their sequences ended.
pub open spec fn run(state: ParserState, buf: Seq<u8>, data: Seq<u8>, nonce: Seq<char>) -> (ParserState, Seq<u8>, Seq<EventView>)
    decreases data.len(),
{
    if data.len() == 0 {
        (state, buf, Seq::empty())
    } else {
        let (s1, b1, ev) = run(state, buf, data.drop_last(), nonce);
        let (s2, b2, done) = frame_step(s1, b1, data.last());
        (s2, b2, ev + step_events(done, nonce))
    }
}

/// Relies on `String::from_utf8_lossy`: the text depends on the bytes alone,
/// and valid UTF-8 comes back decoded unchanged.
#[verifier::external_body]
fn decode_lossy(b: &[u8]) -> (r: Vec<char>)
    ensures
        valid_utf8(b@) ==> r@ == decode_utf8(b@),
        !valid_utf8(b@) ==> r@ == lossy_of(b@),
{
    String::from_utf8_lossy(b).chars().collect()
}

/// The characters of a string, in order.
fn chars_of(s: &String) -> (r: Vec<char>)
    ensures
        r@ == s@,
{
    let t = s.as_str();
    let n = t.unicode_len();
    let mut r: Vec<char> = Vec::new();
    let mut i: usize = 0;
    while i < n
        invariant
            i <= n,
            n == t@.len(),
            t@ == s@,
            r@ == t@.take(i as int),
        decreases n - i,
    {
        r.push(t.get_char(i));
        assert(t@.take(i + 1) =~= t@.take(i as int).push(t@[i as int]));
        i += 1;
    }
    assert(t@.take(n as int) =~= t@);
    r
}

/// An incremental parser for one terminal session.
///
/// No bound is set on the payload of a sequence that is never terminated.
pub struct OscParser {
    state: ParserState,
    buffer: Vec<u8>,
    nonce: String,
}

impl View for OscParser {
    type V = ParserView;

    closed spec fn view(&self) -> ParserView {
        ParserView { state: self.state, buffer: self.buffer@, nonce: self.nonce@ }
    }
}

impl OscParser {
    /// A parser in the normal state with an empty buffer, accepting only
    /// sequences tagged with `nonce`.
    pub fn new(nonce: String) -> (r: Self)
        ensures
            r@.state == ParserState::Normal,
            r@.buffer == Seq::<u8>::empty(),
            r@.nonce == nonce@,
            r@.wf(),
    {
        OscParser { state: ParserState::Normal, buffer: Vec::new(), nonce }
    }

    /// Consumes `data` and returns the events of the sequences that it
    /// completes, in order; a sequence may span several calls.
    pub fn feed(&mut self, data: &[u8]) -> (r: Vec<OscEvent>)
        requires
            old(self)@.wf(),
        ensures
            final(self)@.wf(),
            final(self)@.nonce == old(self)@.nonce,
            (final(self)@.state, final(self)@.buffer, event_views(r@)) == run(
                old(self)@.state,
                old(self)@.buffer,
                data@,
                old(self)@.nonce,
            ),
    {
        let ghost s0 = self@;
        let nonce = chars_of(&self.nonce);
        let mut events: Vec<OscEvent> = Vec::new();
        let mut i: usize = 0;
        assert(data@.take(0) =~= Seq::<u8>::empty());
        assert(event_views(events@) =~= Seq::<EventView>::empty());
        while i < data.len()
            invariant
                i <= data.len(),
                self@.wf(),
                self@.nonce == s0.nonce,
                nonce@ == s0.nonce,
                (self@.state, self@.buffer, event_views(events@)) == run(
                    s0.state,
                    s0.buffer,
                    data@.take(i as int),
                    s0.nonce,
                ),
            decreases data.len() - i,
        {
            let byte = data[i];
            let ghost before = events@;
            let ghost (s2, b2, done) = frame_step(self.state, self.buffer@, byte);
            assert(data@.take(i + 1).drop_last() =~= data@.take(i as int));
            assert(data@.take(i + 1).last() == byte);
            match self.state {
                ParserState::Normal => {
                    if byte == ESC {
                        self.state = ParserState::EscapeSeen;
                    }
                },
                ParserState::EscapeSeen => {
                    if byte == OPEN {
                        self.state = ParserState::SequenceOpened;
                        self.buffer = Vec::new();
                    } else {
                        self.state = ParserState::Normal;
                    }
                },
                ParserState::SequenceOpened => {
                    self.buffer.push(byte);
                    self.state = ParserState::CollectingPayload;
                },
                ParserState::CollectingPayload => {
                    let n = self.buffer.len();
                    if byte == BEL || (byte == BACKSLASH && n > 0 && self.buffer[n - 1] == ESC) {
                        if byte == BACKSLASH {
                            self.buffer.pop();
                        }
                        let text = decode_lossy(self.buffer.as_slice());
                        let ev = interpret(text.as_slice(), nonce.as_slice());
                        match ev {
                            Some(e) => {
                                events.push(e);
                            },
                            None => {},
                        }
                        self.buffer = Vec::new();
                        self.state = ParserState::Normal;
                    } else {
                        self.buffer.push(byte);
                    }
                },
            }
            assert(event_views(events@) =~= event_views(before) + step_events(done, s0.nonce));
            i += 1;
        }
        assert(data@.take(data.len() as int) =~= data@);
        events
    }
}

} // verus!
