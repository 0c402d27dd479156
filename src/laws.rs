use vstd::prelude::*;
use vstd::utf8::{encode_utf8, encode_utf8_decode_utf8, encode_utf8_valid_utf8, valid_utf8};
use crate::event::EventView;
use crate::framer::{
    frame_step, payload_event, payload_text, run, step_events, ParserState, BACKSLASH, BEL, ESC, OPEN,
};
use crate::interpret::{base64_decoded, interpret_spec, is_tag_field, tag_of};
use crate::text::{
    all_digits, contains_seq, digits_value, lemma_contains_suffix, lemma_split_join, lemma_split_lead,
    lemma_split_single, parse_i32_spec, split_fields,
};

verus! {

/// The payload `p` can be framed as one sequence: it is not empty, and no
/// byte after the first would end the sequence early (a `BEL`, or a `\` right
/// after an `ESC`).
pub open spec fn frameable(p: Seq<u8>) -> bool {
    &&& p.len() >= 1
    &&& forall|i: int| 1 <= i < p.len() ==> #[trigger] p[i] != BEL
    &&& forall|i: int| 1 <= i < p.len() ==> !(#[trigger] p[i] == BACKSLASH && p[i - 1] == ESC)
}

/// `ESC ] p BEL`: the payload framed with the bell terminator.
pub open spec fn bel_sequence(p: Seq<u8>) -> Seq<u8> {
    seq![ESC, OPEN] + p + seq![BEL]
}

/// `ESC ] p ESC \`: the payload framed with the string terminator.
pub open spec fn st_sequence(p: Seq<u8>) -> Seq<u8> {
    seq![ESC, OPEN] + p + seq![ESC, BACKSLASH]
}

/// Zero or one event as a sequence.
pub open spec fn opt_to_seq(e: Option<EventView>) -> Seq<EventView> {
    match e {
        Some(ev) => seq![ev],
        None => Seq::empty(),
    }
}

/// Feeding two pieces one after the other ends where feeding them joined
/// ends, with the events of the first piece followed by those of the second:
/// how input is cut into calls never changes what comes out.
pub proof fn lemma_chunking(state: ParserState, buf: Seq<u8>, d1: Seq<u8>, d2: Seq<u8>, nonce: Seq<char>)
    ensures
        ({
            let (s1, b1, e1) = run(state, buf, d1, nonce);
            let (s2, b2, e2) = run(s1, b1, d2, nonce);
            run(state, buf, d1 + d2, nonce) == (s2, b2, e1 + e2)
        }),
    decreases d2.len(),
{
    let (s1, b1, e1) = run(state, buf, d1, nonce);
    if d2.len() == 0 {
        assert(d1 + d2 =~= d1);
        assert(e1 + Seq::<EventView>::empty() =~= e1);
    } else {
        lemma_chunking(state, buf, d1, d2.drop_last(), nonce);
        assert((d1 + d2).drop_last() =~= d1 + d2.drop_last());
        assert((d1 + d2).last() == d2.last());
        let (s2, b2, e2) = run(s1, b1, d2.drop_last(), nonce);
        let (s3, b3, done) = frame_step(s2, b2, d2.last());
        assert(e1 + e2 + step_events(done, nonce) =~= e1 + (e2 + step_events(done, nonce)));
    }
}

/// Bytes without `ESC` fed in the normal state yield no event and leave the
/// parser as it was.
pub proof fn lemma_no_escape(buf: Seq<u8>, data: Seq<u8>, nonce: Seq<char>)
    requires
        forall|i: int| 0 <= i < data.len() ==> #[trigger] data[i] != ESC,
    ensures
        run(ParserState::Normal, buf, data, nonce) == (ParserState::Normal, buf, Seq::<EventView>::empty()),
    decreases data.len(),
{
    if data.len() > 0 {
        let p = data.drop_last();
        assert forall|i: int| 0 <= i < p.len() implies #[trigger] p[i] != ESC by {
            assert(p[i] == data[i]);
        }
        lemma_no_escape(buf, p, nonce);
        assert(data.last() == data[data.len() - 1]);
        assert(Seq::<EventView>::empty() + Seq::<EventView>::empty() =~= Seq::<EventView>::empty());
    }
}

/// Collecting bytes that end no sequence only appends them to the buffer.
proof fn lemma_collect(q: Seq<u8>, d: Seq<u8>, nonce: Seq<char>)
    requires
        q.len() >= 1,
        forall|i: int| 0 <= i < d.len() ==> #[trigger] d[i] != BEL,
        forall|i: int| 0 <= i < d.len() ==> !(#[trigger] d[i] == BACKSLASH && (q + d)[q.len() + i - 1] == ESC),
    ensures
        run(ParserState::CollectingPayload, q, d, nonce) == (ParserState::CollectingPayload, q + d, Seq::<EventView>::empty()),
    decreases d.len(),
{
    if d.len() == 0 {
        assert(q + d =~= q);
    } else {
        let p = d.drop_last();
        assert forall|i: int| 0 <= i < p.len() implies #[trigger] p[i] != BEL by {
            assert(p[i] == d[i]);
        }
        assert forall|i: int| 0 <= i < p.len() implies !(#[trigger] p[i] == BACKSLASH && (q + p)[q.len() + i - 1] == ESC) by {
            assert(p[i] == d[i]);
            assert((q + p)[q.len() + i - 1] == (q + d)[q.len() + i - 1]);
        }
        lemma_collect(q, p, nonce);
        let k = d.len() - 1;
        assert(d.last() == d[k]);
        assert((q + p).last() == (q + d)[q.len() + k - 1]);
        assert((q + p).push(d.last()) =~= q + d);
        assert(Seq::<EventView>::empty() + Seq::<EventView>::empty() =~= Seq::<EventView>::empty());
    }
}

/// Opening a sequence and collecting a frameable payload.
proof fn lemma_open_payload(buf: Seq<u8>, p: Seq<u8>, nonce: Seq<char>)
    requires
        frameable(p),
    ensures
        run(ParserState::Normal, buf, seq![ESC, OPEN] + p, nonce) == (ParserState::CollectingPayload, p, Seq::<EventView>::empty()),
{
    let e = Seq::<EventView>::empty();
    let head = seq![ESC, OPEN, p[0]];
    let rest = p.drop_first();
    assert(seq![ESC, OPEN] + p =~= head + rest);
    assert(head.drop_last().drop_last() =~= seq![ESC]);
    assert(head.drop_last() =~= seq![ESC, OPEN]);
    assert(seq![ESC].drop_last() =~= Seq::<u8>::empty());
    assert(e + e =~= e);
    assert(run(ParserState::Normal, buf, Seq::<u8>::empty(), nonce) == (ParserState::Normal, buf, e));
    assert(seq![ESC].last() == ESC);
    assert(frame_step(ParserState::Normal, buf, ESC) == (ParserState::EscapeSeen, buf, None::<Seq<u8>>));
    assert(step_events(None, nonce) =~= e);
    assert(run(ParserState::Normal, buf, seq![ESC], nonce) == (ParserState::EscapeSeen, buf, e));
    assert(run(ParserState::Normal, buf, seq![ESC, OPEN], nonce) == (ParserState::SequenceOpened, Seq::<u8>::empty(), e));
    assert(Seq::<u8>::empty().push(p[0]) =~= seq![p[0]]);
    assert(run(ParserState::Normal, buf, head, nonce) == (ParserState::CollectingPayload, seq![p[0]], e));
    assert forall|i: int| 0 <= i < rest.len() implies #[trigger] rest[i] != BEL by {
        assert(rest[i] == p[i + 1]);
    }
    assert forall|i: int| 0 <= i < rest.len() implies !(#[trigger] rest[i] == BACKSLASH && (seq![p[0]] + rest)[1 + i - 1] == ESC) by {
        assert(rest[i] == p[i + 1]);
        assert((seq![p[0]] + rest)[i] == p[i]);
    }
    lemma_collect(seq![p[0]], rest, nonce);
    assert(seq![p[0]] + rest =~= p);
    lemma_chunking(ParserState::Normal, buf, head, rest, nonce);
}

/// A frameable payload closed by `BEL` yields exactly the event of the
/// payload, and leaves the parser in the normal state with an empty buffer.
pub proof fn lemma_bel_sequence(buf: Seq<u8>, p: Seq<u8>, nonce: Seq<char>)
    requires
        frameable(p),
    ensures
        run(ParserState::Normal, buf, bel_sequence(p), nonce) == (ParserState::Normal, Seq::<u8>::empty(), opt_to_seq(payload_event(p, nonce))),
{
    lemma_open_payload(buf, p, nonce);
    let x = seq![ESC, OPEN] + p;
    assert(bel_sequence(p).drop_last() =~= x);
    assert(Seq::<EventView>::empty() + step_events(Some(p), nonce) =~= opt_to_seq(payload_event(p, nonce)));
}

/// A frameable payload closed by `ESC \` yields exactly the event of the
/// payload, and leaves the parser in the normal state with an empty buffer.
pub proof fn lemma_st_sequence(buf: Seq<u8>, p: Seq<u8>, nonce: Seq<char>)
    requires
        frameable(p),
    ensures
        run(ParserState::Normal, buf, st_sequence(p), nonce) == (ParserState::Normal, Seq::<u8>::empty(), opt_to_seq(payload_event(p, nonce))),
{
    lemma_open_payload(buf, p, nonce);
    let x = seq![ESC, OPEN] + p;
    let y = x.push(ESC);
    assert(st_sequence(p).drop_last() =~= y);
    assert(y.drop_last() =~= x);
    let e = Seq::<EventView>::empty();
    assert(e + e =~= e);
    assert(run(ParserState::Normal, buf, y, nonce) == (ParserState::CollectingPayload, p.push(ESC), e));
    assert(p.push(ESC).drop_last() =~= p);
    assert(e + step_events(Some(p), nonce) =~= opt_to_seq(payload_event(p, nonce)));
}

/// Ending a sequence with `ESC \` instead of `BEL` changes nothing: the same
/// events, the same final state and buffer.
pub proof fn lemma_terminator_equivalence(buf: Seq<u8>, p: Seq<u8>, nonce: Seq<char>)
    requires
        frameable(p),
    ensures
        run(ParserState::Normal, buf, st_sequence(p), nonce) == run(ParserState::Normal, buf, bel_sequence(p), nonce),
{
    lemma_bel_sequence(buf, p, nonce);
    lemma_st_sequence(buf, p, nonce);
}

/// A payload whose text does not hold `vibe=<nonce>` yields no event.
pub proof fn lemma_unauthenticated(buf: Seq<u8>, p: Seq<u8>, nonce: Seq<char>)
    requires
        frameable(p),
        !contains_seq(payload_text(p), tag_of(nonce)),
    ensures
        run(ParserState::Normal, buf, bel_sequence(p), nonce).2 == Seq::<EventView>::empty(),
{
    lemma_bel_sequence(buf, p, nonce);
}

/// A command-text sequence whose base64 field does not decode, or decodes to
/// bytes that are not UTF-8, yields no event.
pub proof fn lemma_malformed_command_text(buf: Seq<u8>, p: Seq<u8>, nonce: Seq<char>)
    requires
        frameable(p),
        ({
            let f = split_fields(payload_text(p));
            &&& f.len() > 3
            &&& f[0] == seq!['1', '3', '3']
            &&& f[1] == seq!['V', 'I', 'B', 'E']
            &&& f[2] == seq!['C', 'M', 'D']
            &&& match base64_decoded(f[3]) {
                Some(b) => !valid_utf8(b),
                None => true,
            }
        }),
    ensures
        run(ParserState::Normal, buf, bel_sequence(p), nonce).2 == Seq::<EventView>::empty(),
{
    lemma_bel_sequence(buf, p, nonce);
}

/// `a;b`: two texts joined by a field separator.
pub open spec fn join(a: Seq<char>, b: Seq<char>) -> Seq<char> {
    a + seq![';'] + b
}

/// `133;A;vibe=<nonce>`
pub open spec fn prompt_start_text(nonce: Seq<char>) -> Seq<char> {
    join(seq!['1', '3', '3'], join(seq!['A'], tag_of(nonce)))
}

/// `133;C;vibe=<nonce>`
pub open spec fn command_start_text(nonce: Seq<char>) -> Seq<char> {
    join(seq!['1', '3', '3'], join(seq!['C'], tag_of(nonce)))
}

/// `133;D;0;vibe=<nonce>`
pub open spec fn command_end_text(nonce: Seq<char>) -> Seq<char> {
    join(seq!['1', '3', '3'], join(seq!['D'], join(seq!['0'], tag_of(nonce))))
}

/// `133;VIBE;CMD;<b64>;vibe=<nonce>`
pub open spec fn command_text_text(b64: Seq<char>, nonce: Seq<char>) -> Seq<char> {
    join(
        seq!['1', '3', '3'],
        join(seq!['V', 'I', 'B', 'E'], join(seq!['C', 'M', 'D'], join(b64, tag_of(nonce)))),
    )
}

/// A field followed by more text: the field comes first among the fields.
proof fn lemma_lead_field(f: Seq<char>, rest: Seq<char>)
    requires
        forall|i: int| 0 <= i < f.len() ==> #[trigger] f[i] != ';',
    ensures
        split_fields(join(f, rest)) == seq![f] + split_fields(rest),
{
    lemma_split_join(f, rest);
    lemma_split_single(f);
}

/// A text that ends with the tag is authenticated.
proof fn lemma_tagged(pre: Seq<char>, nonce: Seq<char>)
    ensures
        contains_seq(join(pre, tag_of(nonce)), tag_of(nonce)),
{
    lemma_contains_suffix(pre + seq![';'], tag_of(nonce));
}

/// The sequence carrying `text` as UTF-8 yields the event of `text`.
proof fn lemma_text_sequence(buf: Seq<u8>, text: Seq<char>, nonce: Seq<char>)
    requires
        frameable(encode_utf8(text)),
    ensures
        run(ParserState::Normal, buf, bel_sequence(encode_utf8(text)), nonce) == (
            ParserState::Normal,
            Seq::<u8>::empty(),
            opt_to_seq(interpret_spec(text, nonce)),
        ),
{
    encode_utf8_valid_utf8(text);
    encode_utf8_decode_utf8(text);
    lemma_bel_sequence(buf, encode_utf8(text), nonce);
}

/// The text `133;A;vibe=<nonce>` stands for a prompt start.
#[verifier::rlimit(60)]
proof fn lemma_prompt_start_text(nonce: Seq<char>)
    ensures
        interpret_spec(prompt_start_text(nonce), nonce) == Some(EventView::PromptStart),
{
    let t = prompt_start_text(nonce);
    lemma_lead_field(seq!['1', '3', '3'], join(seq!['A'], tag_of(nonce)));
    lemma_lead_field(seq!['A'], tag_of(nonce));
    assert(t =~= join(seq!['1', '3', '3', ';', 'A'], tag_of(nonce)));
    lemma_tagged(seq!['1', '3', '3', ';', 'A'], nonce);
}

/// `ESC ] 133;A;vibe=<nonce> BEL` yields exactly a prompt start.
pub proof fn lemma_prompt_start(buf: Seq<u8>, nonce: Seq<char>)
    requires
        frameable(encode_utf8(prompt_start_text(nonce))),
    ensures
        run(ParserState::Normal, buf, bel_sequence(encode_utf8(prompt_start_text(nonce))), nonce).2
            == seq![EventView::PromptStart],
{
    lemma_text_sequence(buf, prompt_start_text(nonce), nonce);
    lemma_prompt_start_text(nonce);
}

/// The text `133;C;vibe=<nonce>` stands for a command start.
#[verifier::rlimit(60)]
proof fn lemma_command_start_text(nonce: Seq<char>)
    ensures
        interpret_spec(command_start_text(nonce), nonce) == Some(EventView::CommandStart),
{
    let t = command_start_text(nonce);
    lemma_lead_field(seq!['1', '3', '3'], join(seq!['C'], tag_of(nonce)));
    lemma_lead_field(seq!['C'], tag_of(nonce));
    assert(t =~= join(seq!['1', '3', '3', ';', 'C'], tag_of(nonce)));
    lemma_tagged(seq!['1', '3', '3', ';', 'C'], nonce);
    assert(seq!['C'] != seq!['A']) by {
        assert(seq!['C'][0] != seq!['A'][0]);
    }
}

/// `ESC ] 133;C;vibe=<nonce> BEL` yields exactly a command start.
pub proof fn lemma_command_start(buf: Seq<u8>, nonce: Seq<char>)
    requires
        frameable(encode_utf8(command_start_text(nonce))),
    ensures
        run(ParserState::Normal, buf, bel_sequence(encode_utf8(command_start_text(nonce))), nonce).2
            == seq![EventView::CommandStart],
{
    lemma_text_sequence(buf, command_start_text(nonce), nonce);
    lemma_command_start_text(nonce);
}

/// The text `133;D;0;vibe=<nonce>` stands for a command end with code 0.
#[verifier::rlimit(60)]
proof fn lemma_command_end_zero_text(nonce: Seq<char>)
    ensures
        interpret_spec(command_end_text(nonce), nonce) == Some(EventView::CommandEnd(0)),
{
    let t = command_end_text(nonce);
    lemma_lead_field(seq!['1', '3', '3'], join(seq!['D'], join(seq!['0'], tag_of(nonce))));
    lemma_lead_field(seq!['D'], join(seq!['0'], tag_of(nonce)));
    lemma_lead_field(seq!['0'], tag_of(nonce));
    assert(t =~= join(seq!['1', '3', '3', ';', 'D', ';', '0'], tag_of(nonce)));
    lemma_tagged(seq!['1', '3', '3', ';', 'D', ';', '0'], nonce);
    assert(seq!['D'] != seq!['A']) by {
        assert(seq!['D'][0] != seq!['A'][0]);
    }
    assert(seq!['D'] != seq!['C']) by {
        assert(seq!['D'][0] != seq!['C'][0]);
    }
    let st = split_fields(tag_of(nonce));
    let f = split_fields(t);
    assert(f == seq![seq!['1', '3', '3']] + (seq![seq!['D']] + (seq![seq!['0']] + st)));
    assert(f[0] == seq!['1', '3', '3']);
    assert(f[1] == seq!['D']);
    assert(f[2] == seq!['0']);
    assert(f.len() > 2);
    lemma_parse_zero();
}

proof fn lemma_parse_zero()
    ensures
        parse_i32_spec(seq!['0']) == Some(0i32),
{
    let z = seq!['0'];
    assert(z.drop_last() =~= Seq::<char>::empty());
    assert(digits_value(Seq::<char>::empty()) == 0);
    assert(z.last() == '0');
    assert(digits_value(z) == 0);
    assert(all_digits(z));
}

/// `ESC ] 133;D;0;vibe=<nonce> BEL` yields exactly a command end with code 0.
pub proof fn lemma_command_end_zero(buf: Seq<u8>, nonce: Seq<char>)
    requires
        frameable(encode_utf8(command_end_text(nonce))),
    ensures
        run(ParserState::Normal, buf, bel_sequence(encode_utf8(command_end_text(nonce))), nonce).2
            == seq![EventView::CommandEnd(0)],
{
    lemma_text_sequence(buf, command_end_text(nonce), nonce);
    lemma_command_end_zero_text(nonce);
}

/// `133;D;vibe=<nonce>`
pub open spec fn command_end_no_code_text(nonce: Seq<char>) -> Seq<char> {
    join(seq!['1', '3', '3'], join(seq!['D'], tag_of(nonce)))
}

/// The fields of `133;D;vibe=<nonce>`: `133`, `D`, then the tag field.
proof fn lemma_command_end_no_code_fields(nonce: Seq<char>)
    ensures
        ({
            let f = split_fields(command_end_no_code_text(nonce));
            &&& f.len() > 2
            &&& f[0] == seq!['1', '3', '3']
            &&& f[1] == seq!['D']
            &&& is_tag_field(f[2])
        }),
{
    let t = command_end_no_code_text(nonce);
    lemma_lead_field(seq!['1', '3', '3'], join(seq!['D'], tag_of(nonce)));
    lemma_lead_field(seq!['D'], tag_of(nonce));
    let st = split_fields(tag_of(nonce));
    let f = split_fields(t);
    lemma_split_lead(seq!['v', 'i', 'b', 'e', '='], nonce);
    assert(f == seq![seq!['1', '3', '3']] + (seq![seq!['D']] + st));
    assert(f[2] == st[0]);
}

/// The text `133;D;vibe=<nonce>` stands for a command end with code 0.
#[verifier::rlimit(60)]
proof fn lemma_command_end_no_code_text(nonce: Seq<char>)
    ensures
        interpret_spec(command_end_no_code_text(nonce), nonce) == Some(EventView::CommandEnd(0)),
{
    let t = command_end_no_code_text(nonce);
    lemma_command_end_no_code_fields(nonce);
    assert(t =~= join(seq!['1', '3', '3', ';', 'D'], tag_of(nonce)));
    lemma_tagged(seq!['1', '3', '3', ';', 'D'], nonce);
    assert(seq!['D'] != seq!['A']) by {
        assert(seq!['D'][0] != seq!['A'][0]);
    }
    assert(seq!['D'] != seq!['C']) by {
        assert(seq!['D'][0] != seq!['C'][0]);
    }
}

/// `ESC ] 133;D;vibe=<nonce> BEL`, with no exit code field, yields exactly a
/// command end with code 0.
pub proof fn lemma_command_end_no_code(buf: Seq<u8>, nonce: Seq<char>)
    requires
        frameable(encode_utf8(command_end_no_code_text(nonce))),
    ensures
        run(ParserState::Normal, buf, bel_sequence(encode_utf8(command_end_no_code_text(nonce))), nonce).2
            == seq![EventView::CommandEnd(0)],
{
    lemma_text_sequence(buf, command_end_no_code_text(nonce), nonce);
    lemma_command_end_no_code_text(nonce);
}

/// The text `133;VIBE;CMD;<b64>;vibe=<nonce>`, where `b64` decodes to the
/// UTF-8 bytes of `s`, stands for the command text `s`.
#[verifier::rlimit(60)]
proof fn lemma_command_text_text(b64: Seq<char>, s: Seq<char>, nonce: Seq<char>)
    requires
        forall|i: int| 0 <= i < b64.len() ==> #[trigger] b64[i] != ';',
        base64_decoded(b64) == Some(encode_utf8(s)),
    ensures
        interpret_spec(command_text_text(b64, nonce), nonce) == Some(EventView::CommandText(s)),
{
    let t = command_text_text(b64, nonce);
    let vibe = seq!['V', 'I', 'B', 'E'];
    let cmd = seq!['C', 'M', 'D'];
    lemma_lead_field(seq!['1', '3', '3'], join(vibe, join(cmd, join(b64, tag_of(nonce)))));
    lemma_lead_field(vibe, join(cmd, join(b64, tag_of(nonce))));
    lemma_lead_field(cmd, join(b64, tag_of(nonce)));
    lemma_lead_field(b64, tag_of(nonce));
    let pre = join(seq!['1', '3', '3'], join(vibe, join(cmd, b64)));
    assert(t =~= join(pre, tag_of(nonce)));
    lemma_tagged(pre, nonce);
    assert(vibe != seq!['A']) by {
        assert(vibe.len() != 1);
    }
    assert(vibe != seq!['C']) by {
        assert(vibe.len() != 1);
    }
    assert(vibe[0] != 'D');
    let st = split_fields(tag_of(nonce));
    let f = split_fields(t);
    assert(f == seq![seq!['1', '3', '3']] + (seq![vibe] + (seq![cmd] + (seq![b64] + st))));
    assert(f[0] == seq!['1', '3', '3']);
    assert(f[1] == vibe);
    assert(f[2] == cmd);
    assert(f[3] == b64);
    encode_utf8_valid_utf8(s);
    encode_utf8_decode_utf8(s);
}

/// `ESC ] 133;VIBE;CMD;<b64>;vibe=<nonce> BEL`, where `b64` decodes to the
/// UTF-8 bytes of `s`, yields exactly the command text `s`.
pub proof fn lemma_command_text(buf: Seq<u8>, b64: Seq<char>, s: Seq<char>, nonce: Seq<char>)
    requires
        forall|i: int| 0 <= i < b64.len() ==> #[trigger] b64[i] != ';',
        base64_decoded(b64) == Some(encode_utf8(s)),
        frameable(encode_utf8(command_text_text(b64, nonce))),
    ensures
        run(ParserState::Normal, buf, bel_sequence(encode_utf8(command_text_text(b64, nonce))), nonce).2
            == seq![EventView::CommandText(s)],
{
    lemma_text_sequence(buf, command_text_text(b64, nonce), nonce);
    lemma_command_text_text(b64, s, nonce);
}

} // verus!
