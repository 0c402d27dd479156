use vstd::prelude::*;
use vstd::utf8::{decode_utf8, valid_utf8};
use base64::Engine;
use crate::event::{opt_event_view, EventView, OscEvent};
use crate::text::{
    contains_exec, contains_seq, parse_i32, parse_i32_spec, split_fields,
    split_fields_exec,
};

verus! {

/// What base64's standard engine (standard alphabet, padding required)
/// decodes from the given characters: `None` where it reports an error.
pub uninterp spec fn base64_decoded(s: Seq<char>) -> Option<Seq<u8>>;

/// Relies on `base64::engine::general_purpose::STANDARD.decode`: its result
/// depends on the input characters alone.
#[verifier::external_body]
fn decode_base64(s: &[char]) -> (r: Option<Vec<u8>>)
    ensures
        match r {
            Some(v) => base64_decoded(s@) == Some(v@),
            None => base64_decoded(s@) is None,
        },
{
    let text: String = s.iter().collect();
    base64::engine::general_purpose::STANDARD.decode(text).ok()
}

/// Relies on `String::from_utf8`: it succeeds exactly on valid UTF-8, and the
/// string then holds the decoded characters.
#[verifier::external_body]
fn text_from_utf8(b: Vec<u8>) -> (r: Option<String>)
    ensures
        match r {
            Some(s) => valid_utf8(b@) && s@ == decode_utf8(b@),
            None => !valid_utf8(b@),
        },
{
    String::from_utf8(b).ok()
}

/// The authentication tag that a payload must carry: `vibe=<nonce>`.
pub open spec fn tag_of(nonce: Seq<char>) -> Seq<char> {
    seq!['v', 'i', 'b', 'e', '='] + nonce
}

/// The event carried by the decoded bytes of a command-text field: the text,
/// where the bytes are valid UTF-8.
pub open spec fn text_event_spec(decoded: Option<Seq<u8>>) -> Option<EventView> {
    match decoded {
        Some(b) => if valid_utf8(b) {
            Some(EventView::CommandText(decode_utf8(b)))
        } else {
            None
        },
        None => None,
    }
}

/// The field starts with `vibe=`: it is the tag, no argument.
pub open spec fn is_tag_field(f: Seq<char>) -> bool {
    f.len() >= 5 && f.take(5) == seq!['v', 'i', 'b', 'e', '=']
}

/// The event that the text of a payload stands for, if any.
///
/// The text must hold the tag `vibe=<nonce>`; its `;`-separated fields must
/// start with `133` and a sub-command: `A`, `C`, one starting with `D` (an
/// exit code from the next field, which must then be a valid `i32`; 0 where
/// there is no next field or it is the tag field, starting with `vibe=`),
/// or `VIBE` followed by `CMD` and a base64 field holding UTF-8 text. A field
/// never holds `;`, so cutting one at its first `;` leaves it as it is, and a
/// sub-command field never carries its exit code inside it.
pub open spec fn interpret_spec(text: Seq<char>, nonce: Seq<char>) -> Option<EventView> {
    let f = split_fields(text);
    if !contains_seq(text, tag_of(nonce)) || f.len() < 2 || f[0] != seq!['1', '3', '3'] {
        None
    } else if f[1] == seq!['A'] {
        Some(EventView::PromptStart)
    } else if f[1] == seq!['C'] {
        Some(EventView::CommandStart)
    } else if f[1].len() > 0 && f[1][0] == 'D' {
        if f.len() > 2 && !is_tag_field(f[2]) {
            match parse_i32_spec(f[2]) {
                Some(code) => Some(EventView::CommandEnd(code)),
                None => None,
            }
        } else {
            Some(EventView::CommandEnd(0))
        }
    } else if f[1] == seq!['V', 'I', 'B', 'E'] && f.len() > 3 && f[2] == seq!['C', 'M', 'D'] {
        text_event_spec(base64_decoded(f[3]))
    } else {
        None
    }
}

/// Whether the field `f` is the word `w`.
fn is_word(f: &Vec<char>, w: &Vec<char>) -> (r: bool)
    ensures
        r == (f@ == w@),
{
    if f.len() != w.len() {
        return false;
    }
    let mut i: usize = 0;
    while i < f.len()
        invariant
            i <= f.len(),
            f.len() == w.len(),
            forall|k: int| 0 <= k < i ==> f@[k] == w@[k],
        decreases f.len() - i,
    {
        if f[i] != w[i] {
            return false;
        }
        i += 1;
    }
    assert(f@ =~= w@);
    true
}

/// Whether the field is the tag field, starting with `vibe=`.
fn is_tag_key(f: &Vec<char>) -> (r: bool)
    ensures
        r == is_tag_field(f@),
{
    if f.len() < 5 {
        return false;
    }
    let r = f[0] == 'v' && f[1] == 'i' && f[2] == 'b' && f[3] == 'e' && f[4] == '=';
    proof {
        if r {
            assert(f@.take(5) =~= seq!['v', 'i', 'b', 'e', '=']);
        } else if f@.take(5) == seq!['v', 'i', 'b', 'e', '='] {
            assert(f@.take(5)[0] == f@[0]);
            assert(f@.take(5)[1] == f@[1]);
            assert(f@.take(5)[2] == f@[2]);
            assert(f@.take(5)[3] == f@[3]);
            assert(f@.take(5)[4] == f@[4]);
        }
    }
    r
}

/// The command-text event for the bytes that a base64 field decoded to.
pub fn text_event(decoded: Option<Vec<u8>>) -> (r: Option<OscEvent>)
    ensures
        opt_event_view(r) == text_event_spec(
            match decoded {
                Some(v) => Some(v@),
                None => None,
            },
        ),
{
    match decoded {
        Some(bytes) => match text_from_utf8(bytes) {
            Some(s) => Some(OscEvent::CommandText(s)),
            None => None,
        },
        None => None,
    }
}

/// Interprets the text of one payload for a parser holding `nonce`.
pub fn interpret(text: &[char], nonce: &[char]) -> (r: Option<OscEvent>)
    ensures
        opt_event_view(r) == interpret_spec(text@, nonce@),
{
    let mut tag: Vec<char> = vec!['v', 'i', 'b', 'e', '='];
    let mut i: usize = 0;
    while i < nonce.len()
        invariant
            i <= nonce.len(),
            tag@ == seq!['v', 'i', 'b', 'e', '='] + nonce@.take(i as int),
        decreases nonce.len() - i,
    {
        tag.push(nonce[i]);
        assert(nonce@.take(i + 1) =~= nonce@.take(i as int).push(nonce@[i as int]));
        i += 1;
    }
    assert(nonce@.take(nonce.len() as int) =~= nonce@);
    if !contains_exec(text, tag.as_slice()) {
        return None;
    }
    let f = split_fields_exec(text);
    assert(f.len() == split_fields(text@).len());
    if f.len() < 2 || !is_word(&f[0], &vec!['1', '3', '3']) {
        proof {
            if f.len() >= 2 {
                assert(f@[0]@ == split_fields(text@)[0]);
            }
        }
        return None;
    }
    assert(f@[0]@ == split_fields(text@)[0]);
    assert(f@[1]@ == split_fields(text@)[1]);
    let ghost g = split_fields(text@);
    let word_a = vec!['A'];
    let word_c = vec!['C'];
    let word_vibe = vec!['V', 'I', 'B', 'E'];
    let word_cmd = vec!['C', 'M', 'D'];
    assert(word_a@ =~= seq!['A']);
    assert(word_c@ =~= seq!['C']);
    assert(word_vibe@ =~= seq!['V', 'I', 'B', 'E']);
    assert(word_cmd@ =~= seq!['C', 'M', 'D']);
    if is_word(&f[1], &word_a) {
        assert(g[1] == seq!['A']);
        Some(OscEvent::PromptStart)
    } else if is_word(&f[1], &word_c) {
        assert(g[1] == seq!['C']);
        assert(g[1] != seq!['A']);
        Some(OscEvent::CommandStart)
    } else if f[1].len() > 0 && f[1][0] == 'D' {
        assert(g[1] != seq!['A']);
        assert(g[1] != seq!['C']);
        if f.len() > 2 && !is_tag_key(&f[2]) {
            assert(f@[2]@ == g[2]);
            match parse_i32(f[2].as_slice()) {
                Some(code) => Some(OscEvent::CommandEnd(code)),
                None => None,
            }
        } else {
            proof {
                if f.len() > 2 {
                    assert(f@[2]@ == g[2]);
                }
            }
            Some(OscEvent::CommandEnd(0))
        }
    } else if is_word(&f[1], &word_vibe) && f.len() > 3 && is_word(
        &f[2],
        &word_cmd,
    ) {
        assert(f@[2]@ == g[2]);
        assert(f@[3]@ == g[3]);
        assert(g[1] == seq!['V', 'I', 'B', 'E']);
        assert(g[2] == seq!['C', 'M', 'D']);
        text_event(decode_base64(f[3].as_slice()))
    } else {
        assert(g[1] != seq!['A']);
        assert(g[1] != seq!['C']);
        assert(!(g[1].len() > 0 && g[1][0] == 'D'));
        assert(!(g[1] == seq!['V', 'I', 'B', 'E'] && g.len() > 3 && g[2] == seq!['C', 'M', 'D']));
        None
    }
}

} // verus!
