//! Incremental decoder for a server-push event stream: frames separated by a
//! blank line, data frames prefixed by `data: ` and holding a JSON document.
use crate::reader::{opt_view, trim_end_of, trim_start_of};
use serde_json::Value;
use vstd::prelude::*;
use vstd::string::StringExecFns;
use vstd::utf8::{decode_utf8, valid_utf8};

verus! {

/// Whether `serde_json` parses the text as a JSON document.
pub uninterp spec fn json_valid(s: Seq<char>) -> bool;

/// What `serde_json::Value::get` finds in the document `doc` under `key`,
/// written back as JSON text; `None` where `doc` is no JSON document or holds
/// no such member.
pub uninterp spec fn json_member_of(doc: Seq<char>, key: Seq<char>) -> Option<Seq<char>>;

/// What `serde_json::Value::as_str` gives for the document `doc`: the text of
/// a JSON string; `None` where `doc` is no JSON string.
pub uninterp spec fn json_string_of(doc: Seq<char>) -> Option<Seq<char>>;

/// The text without leading and trailing whitespace.
pub open spec fn trim_of(s: Seq<char>) -> Seq<char> {
    trim_start_of(trim_end_of(s))
}

/// Relies on `serde_json::from_str::<Value>`: it succeeds exactly on a JSON document.
#[verifier::external_body]
pub(crate) fn is_json(text: &str) -> (r: bool)
    ensures
        r == json_valid(text@),
{
    serde_json::from_str::<Value>(text).is_ok()
}

/// Relies on `serde_json::Value::get`: the member of the document under `key`,
/// with the document parsed from text and the member written back as text.
#[verifier::external_body]
pub(crate) fn json_member_text(doc: &str, key: &str) -> (r: Option<String>)
    ensures
        opt_view(r) == json_member_of(doc@, key@),
{
    serde_json::from_str::<Value>(doc).ok()?.get(key).map(|v| v.to_string())
}

/// Relies on `serde_json::Value::as_str`: the text of a JSON string, with the
/// document parsed from text.
#[verifier::external_body]
pub(crate) fn json_string_text(doc: &str) -> (r: Option<String>)
    ensures
        opt_view(r) == json_string_of(doc@),
{
    serde_json::from_str::<Value>(doc).ok()?.as_str().map(|s| s.to_string())
}

/// Relies on `str::trim`: the text without surrounding whitespace.
#[verifier::external_body]
fn trim_text(s: &str) -> (r: &str)
    ensures
        r@ == trim_of(s@),
{
    s.trim()
}

/// Relies on `std::str::from_utf8`: succeeds exactly on valid UTF-8, with the decoded text.
#[verifier::external_body]
fn utf8_text(b: &[u8]) -> (r: Option<&str>)
    ensures
        r is Some <==> valid_utf8(b@),
        r matches Some(s) ==> s@ == decode_utf8(b@),
{
    std::str::from_utf8(b).ok()
}

/// Two texts are equal.
pub(crate) fn same_text(a: &str, b: &str) -> (r: bool)
    ensures
        r == (a@ == b@),
{
    String::from_str(a) == String::from_str(b)
}

/// The frame delimiter, two newline bytes, starts at `i`.
pub open spec fn is_delim_at(b: Seq<u8>, i: int) -> bool {
    0 <= i && i + 1 < b.len() && b[i] == 10u8 && b[i + 1] == 10u8
}

/// The first delimiter at or after `i`.
pub open spec fn delim_from(b: Seq<u8>, i: nat) -> Option<nat>
    decreases b.len() - i,
{
    if i + 1 >= b.len() {
        None
    } else if is_delim_at(b, i as int) {
        Some(i)
    } else {
        delim_from(b, i + 1)
    }
}

pub open spec fn first_delim(b: Seq<u8>) -> Option<nat> {
    delim_from(b, 0)
}

/// The complete frames of a byte sequence, in order, without their delimiters.
pub open spec fn frames_of(b: Seq<u8>) -> Seq<Seq<u8>>
    decreases b.len(),
{
    match first_delim(b) {
        Some(p) => if p + 2 <= b.len() {
            seq![b.take(p as int)] + frames_of(b.skip(p + 2int))
        } else {
            Seq::empty()
        },
        None => Seq::empty(),
    }
}

/// What remains of a byte sequence after its complete frames.
pub open spec fn rest_of(b: Seq<u8>) -> Seq<u8>
    decreases b.len(),
{
    match first_delim(b) {
        Some(p) => if p + 2 <= b.len() {
            rest_of(b.skip(p + 2int))
        } else {
            b
        },
        None => b,
    }
}

/// The bytes of `data: `.
pub open spec fn data_prefix() -> Seq<u8> {
    seq![100u8, 97u8, 116u8, 97u8, 58u8, 32u8]
}

pub open spec fn is_data_frame(f: Seq<u8>) -> bool {
    f.len() >= 6 && f.take(6) == data_prefix()
}

/// The text of a data frame after its prefix, trimmed; meaningful when it is valid UTF-8.
pub open spec fn frame_payload(f: Seq<u8>) -> Seq<char> {
    trim_of(decode_utf8(f.skip(6)))
}

pub open spec fn event_key() -> Seq<char> {
    seq!['e', 'v', 'e', 'n', 't']
}

pub open spec fn data_key() -> Seq<char> {
    seq!['d', 'a', 't', 'a']
}

pub open spec fn outputs_key() -> Seq<char> {
    seq!['o', 'u', 't', 'p', 'u', 't', 's']
}

/// The event name of the terminal event.
pub open spec fn finished_event() -> Seq<char> {
    seq!['w', 'o', 'r', 'k', 'f', 'l', 'o', 'w', '_', 'f', 'i', 'n', 'i', 's', 'h', 'e', 'd']
}

/// The outputs of a payload that is the terminal event: its `event` is the
/// string `workflow_finished` and it has `data.outputs`.
pub open spec fn terminal_outputs(payload: Seq<char>) -> Option<Seq<char>> {
    match json_member_of(payload, event_key()) {
        Some(e) => if json_string_of(e) == Some(finished_event()) {
            match json_member_of(payload, data_key()) {
                Some(d) => json_member_of(d, outputs_key()),
                None => None,
            }
        } else {
            None
        },
        None => None,
    }
}

/// Why a frame could not be decoded.
#[derive(Debug, Clone, Copy, PartialEq, Eq, Structural)]
pub enum DecodeError {
    /// The payload is not valid UTF-8.
    InvalidText,
    /// The payload is not a JSON document.
    InvalidJson,
}

/// What one frame decides: nothing (`None`), the outputs of the terminal
/// event, or an error for a malformed data frame.
pub open spec fn frame_result(f: Seq<u8>) -> Option<Result<Seq<char>, DecodeError>> {
    if !is_data_frame(f) {
        None
    } else if !valid_utf8(f.skip(6)) {
        Some(Err(DecodeError::InvalidText))
    } else if !json_valid(frame_payload(f)) {
        Some(Err(DecodeError::InvalidJson))
    } else {
        match terminal_outputs(frame_payload(f)) {
            Some(o) => Some(Ok(o)),
            None => None,
        }
    }
}

/// What a sequence of frames decides: the decision of its first deciding frame.
pub open spec fn frames_result(fs: Seq<Seq<u8>>) -> Option<Result<Seq<char>, DecodeError>>
    decreases fs.len(),
{
    if fs.len() == 0 {
        None
    } else {
        match frame_result(fs[0]) {
            Some(d) => Some(d),
            None => frames_result(fs.skip(1)),
        }
    }
}

/// What a frame, or the frames fed so far, decided.
#[derive(Debug)]
pub enum Decoded {
    /// Nothing decisive yet.
    Nothing,
    /// The terminal event arrived; its outputs as JSON text.
    Finished(String),
    /// A data frame was malformed.
    Malformed(DecodeError),
}

pub open spec fn decoded_view(d: Decoded) -> Option<Result<Seq<char>, DecodeError>> {
    match d {
        Decoded::Nothing => None,
        Decoded::Finished(o) => Some(Ok(o@)),
        Decoded::Malformed(e) => Some(Err(e)),
    }
}

/// The position of the first frame delimiter in `buffer`.
pub fn find_event_data_position(buffer: &[u8]) -> (r: Option<usize>)
    ensures
        match r {
            Some(p) => first_delim(buffer@) == Some(p as nat),
            None => first_delim(buffer@) is None,
        },
{
    let mut i: usize = 0;
    while i + 1 < buffer.len()
        invariant
            i == 0 || i < buffer.len(),
            delim_from(buffer@, 0) == delim_from(buffer@, i as nat),
        decreases buffer.len() - i,
    {
        if buffer[i] == 10u8 && buffer[i + 1] == 10u8 {
            return Some(i);
        }
        i = i + 1;
    }
    None
}

/// The first `pos` bytes of `buffer` as text.
pub fn extract_data(buffer: &[u8], pos: usize) -> (r: Result<&str, DecodeError>)
    requires
        pos <= buffer.len(),
    ensures
        r is Ok <==> valid_utf8(buffer@.take(pos as int)),
        r matches Ok(s) ==> s@ == decode_utf8(buffer@.take(pos as int)),
        r matches Err(e) ==> e == DecodeError::InvalidText,
{
    let head = &buffer[0..pos];
    assert(head@ =~= buffer@.take(pos as int));
    match utf8_text(head) {
        Some(s) => Ok(s),
        None => Err(DecodeError::InvalidText),
    }
}

/// Decides one frame: frames other than data frames are ignored, a data frame
/// must hold a JSON document, and the terminal event yields its outputs.
pub fn process_event_data(frame: &[u8]) -> (r: Decoded)
    ensures
        decoded_view(r) == frame_result(frame@),
{
    if frame.len() < 6 || frame[0] != 100u8 || frame[1] != 97u8 || frame[2] != 116u8
        || frame[3] != 97u8 || frame[4] != 58u8 || frame[5] != 32u8 {
        assert(!is_data_frame(frame@)) by {
            if frame@.len() >= 6 {
                assert(frame@.take(6)[0] == frame@[0]);
                assert(frame@.take(6)[1] == frame@[1]);
                assert(frame@.take(6)[2] == frame@[2]);
                assert(frame@.take(6)[3] == frame@[3]);
                assert(frame@.take(6)[4] == frame@[4]);
                assert(frame@.take(6)[5] == frame@[5]);
            }
        }
        return Decoded::Nothing;
    }
    assert(frame@.take(6) =~= data_prefix());
    let body = &frame[6..frame.len()];
    assert(body@ =~= frame@.skip(6));
    assert(body@.take(body@.len() as int) =~= body@);
    let text = match extract_data(body, body.len()) {
        Ok(s) => s,
        Err(e) => return Decoded::Malformed(e),
    };
    let payload = trim_text(text);
    if !is_json(payload) {
        return Decoded::Malformed(DecodeError::InvalidJson);
    }
    proof {
        reveal_strlit("event");
        reveal_strlit("data");
        reveal_strlit("outputs");
        reveal_strlit("workflow_finished");
        assert("event"@ =~= event_key());
        assert("data"@ =~= data_key());
        assert("outputs"@ =~= outputs_key());
        assert("workflow_finished"@ =~= finished_event());
    }
    if let Some(event) = json_member_text(payload, "event") {
        if let Some(name) = json_string_text(event.as_str()) {
            if same_text(name.as_str(), "workflow_finished") {
                if let Some(data) = json_member_text(payload, "data") {
                    if let Some(outputs) = json_member_text(data.as_str(), "outputs") {
                        return Decoded::Finished(outputs);
                    }
                }
            }
        }
    }
    Decoded::Nothing
}

/// A delimiter found in a prefix is found, at the same place, in any extension.
proof fn lemma_delim_extends(a: Seq<u8>, c: Seq<u8>, i: nat)
    requires
        delim_from(a, i) is Some,
    ensures
        delim_from(a + c, i) == delim_from(a, i),
        delim_from(a, i).unwrap() + 2 <= a.len(),
        i <= delim_from(a, i).unwrap(),
    decreases a.len() - i,
{
    let ac = a + c;
    if i + 1 < a.len() {
        assert(ac[i as int] == a[i as int]);
        assert(ac[i + 1int] == a[i + 1int]);
        if !is_delim_at(a, i as int) {
            lemma_delim_extends(a, c, i + 1);
        }
    }
}

/// Splitting the bytes in two splits the frames in the same way: the frames
/// of `a + c` are those of `a`, then those of what `a` left over followed by `c`.
pub proof fn lemma_frames_concat(a: Seq<u8>, c: Seq<u8>)
    ensures
        frames_of(a + c) == frames_of(a) + frames_of(rest_of(a) + c),
        rest_of(a + c) == rest_of(rest_of(a) + c),
    decreases a.len(),
{
    match first_delim(a) {
        Some(p) => {
            lemma_delim_extends(a, c, 0);
            let ac = a + c;
            assert(ac.take(p as int) =~= a.take(p as int));
            assert(ac.skip(p + 2int) =~= a.skip(p + 2int) + c);
            lemma_frames_concat(a.skip(p + 2int), c);
            assert(frames_of(ac) =~= frames_of(a) + frames_of(rest_of(a) + c));
        },
        None => {
            assert(frames_of(a) =~= Seq::<Seq<u8>>::empty());
            assert(frames_of(a + c) =~= frames_of(a) + frames_of(rest_of(a) + c));
        },
    }
}

/// All the bytes of a sequence of blocks, in order.
pub open spec fn concat_blocks(blocks: Seq<Seq<u8>>) -> Seq<u8>
    decreases blocks.len(),
{
    if blocks.len() == 0 {
        Seq::empty()
    } else {
        concat_blocks(blocks.drop_last()) + blocks.last()
    }
}

/// Feeding blocks one at a time: the frames examined, in order, and the bytes
/// left buffered.
pub open spec fn feed_blocks(blocks: Seq<Seq<u8>>) -> (Seq<Seq<u8>>, Seq<u8>)
    decreases blocks.len(),
{
    if blocks.len() == 0 {
        (Seq::empty(), Seq::empty())
    } else {
        let (fs, b) = feed_blocks(blocks.drop_last());
        let joined = b + blocks.last();
        (fs + frames_of(joined), rest_of(joined))
    }
}

/// However a byte stream is split into blocks, feeding the blocks one after
/// another examines exactly the frames of the whole stream, in order, and
/// leaves exactly its incomplete tail buffered.
pub proof fn lemma_split_invariance(blocks: Seq<Seq<u8>>)
    ensures
        feed_blocks(blocks) == (frames_of(concat_blocks(blocks)), rest_of(concat_blocks(blocks))),
    decreases blocks.len(),
{
    if blocks.len() == 0 {
        assert(first_delim(Seq::<u8>::empty()) is None);
        assert(frames_of(Seq::<u8>::empty()) =~= Seq::<Seq<u8>>::empty());
    } else {
        let init = blocks.drop_last();
        lemma_split_invariance(init);
        let a = concat_blocks(init);
        lemma_frames_concat(a, blocks.last());
    }
}

/// The frames of two sequences decide what the first decides, and where it
/// decides nothing, what the second decides.
pub proof fn lemma_result_concat(x: Seq<Seq<u8>>, y: Seq<Seq<u8>>)
    ensures
        frames_result(x + y) == match frames_result(x) {
            Some(d) => Some(d),
            None => frames_result(y),
        },
    decreases x.len(),
{
    if x.len() == 0 {
        assert(x + y =~= y);
    } else {
        assert((x + y)[0] == x[0]);
        assert((x + y).skip(1) =~= x.skip(1) + y);
        lemma_result_concat(x.skip(1), y);
    }
}

/// Feeding blocks one at a time until one decides: the decision reached.
pub open spec fn feed_result(blocks: Seq<Seq<u8>>) -> Option<Result<Seq<char>, DecodeError>>
    decreases blocks.len(),
{
    if blocks.len() == 0 {
        None
    } else {
        match feed_result(blocks.drop_last()) {
            Some(d) => Some(d),
            None => frames_result(frames_of(feed_blocks(blocks.drop_last()).1 + blocks.last())),
        }
    }
}

/// However a byte stream is split into blocks, feeding the blocks one after
/// another to the decoder reaches the same decision, with the same terminal
/// outputs, as the frames of the whole stream.
pub proof fn lemma_decision_split_invariance(blocks: Seq<Seq<u8>>)
    ensures
        feed_result(blocks) == frames_result(frames_of(concat_blocks(blocks))),
    decreases blocks.len(),
{
    if blocks.len() == 0 {
        assert(first_delim(Seq::<u8>::empty()) is None);
    } else {
        let init = blocks.drop_last();
        lemma_decision_split_invariance(init);
        lemma_split_invariance(init);
        let a = concat_blocks(init);
        lemma_frames_concat(a, blocks.last());
        lemma_result_concat(frames_of(a), frames_of(rest_of(a) + blocks.last()));
    }
}

/// Decodes an event stream fed in blocks of any size, keeping only the bytes
/// of the frame that is not complete yet.
pub struct EventStreamDecoder {
    buffer: Vec<u8>,
}

impl EventStreamDecoder {
    /// The bytes received and not yet part of a complete frame.
    pub closed spec fn pending(&self) -> Seq<u8> {
        self.buffer@
    }

    pub fn new() -> (r: Self)
        ensures
            r.pending() == Seq::<u8>::empty(),
    {
        EventStreamDecoder { buffer: Vec::new() }
    }

    /// Appends `block` to the buffered bytes and decides the complete frames in
    /// order: it stops at the first malformed data frame or at the terminal
    /// event, and otherwise keeps what follows the last complete frame.
    pub fn feed(&mut self, block: &[u8]) -> (r: Decoded)
        ensures
            decoded_view(r) == frames_result(frames_of(old(self).pending() + block@)),
            r is Nothing ==> final(self).pending() == rest_of(old(self).pending() + block@),
    {
        let mut k: usize = 0;
        while k < block.len()
            invariant
                k <= block.len(),
                self.buffer@ == old(self).buffer@ + block@.take(k as int),
            decreases block.len() - k,
        {
            self.buffer.push(block[k]);
            assert(self.buffer@ =~= old(self).buffer@ + block@.take(k + 1));
            k = k + 1;
        }
        assert(block@.take(block.len() as int) =~= block@);
        let ghost joined = self.buffer@;
        loop
            invariant
                joined == old(self).pending() + block@,
                frames_result(frames_of(joined)) == frames_result(frames_of(self.buffer@)),
                rest_of(joined) == rest_of(self.buffer@),
            decreases self.buffer.len(),
        {
            let found = find_event_data_position(self.buffer.as_slice());
            match found {
                None => {
                    assert(frames_of(self.buffer@) =~= Seq::<Seq<u8>>::empty());
                    return Decoded::Nothing;
                },
                Some(pos) => {
                    let ghost b = self.buffer@;
                    proof {
                        lemma_delim_extends(b, Seq::empty(), 0);
                    }
                    let frame = &self.buffer.as_slice()[0..pos];
                    assert(frame@ =~= b.take(pos as int));
                    let ghost fs = frames_of(b);
                    assert(fs == seq![frame@] + frames_of(b.skip(pos + 2)));
                    assert(fs[0] == frame@);
                    assert(fs.skip(1) =~= frames_of(b.skip(pos + 2)));
                    let outcome = process_event_data(frame);
                    match outcome {
                        Decoded::Nothing => {},
                        _ => return outcome,
                    }
                    let rest = self.buffer.split_off(pos + 2);
                    self.buffer = rest;
                    assert(self.buffer@ =~= b.skip(pos + 2));
                },
            }
        }
    }
}

} // verus!
