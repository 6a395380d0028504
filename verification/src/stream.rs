//! Streaming response transform: classify each upstream protocol line,
//! redact delta content, and re-emit outbound frames one per upstream
//! item, with a single-item lookahead so an immediate upstream failure
//! becomes one clean error frame. The buffered (non-streamed) response
//! transform lives here too.

use vstd::prelude::*;
use vstd::string::*;

verus! {

use crate::provider::{
    ChatMessage,
    OpenAIChoice,
    OpenAIDelta,
    OpenAIStreamChunk,
    OpenAIChatCompletionResponse,
    OpenAIChatCompletionChoice,
};
use crate::redact::{redact_text, spec_redact, RedactionStats};
use crate::text::{chars_vec, chars_string, spec_trim, trim_window, vec_range, vecs_eq};

/// What one upstream line is.
pub enum LineClass {
    /// The completion sentinel, possibly padded with whitespace.
    Sentinel,
    /// A `data: ` line; holds the payload after the prefix.
    Data(String),
    /// Anything else; passed through to the client verbatim.
    Other,
}

/// Classify one line of the upstream event protocol.
pub fn classify_line(line: &str) -> (r: LineClass)
    ensures
        spec_trim(line@) == "data: [DONE]"@ ==> r is Sentinel,
        spec_trim(line@) != "data: [DONE]"@ ==> {
            if line@.len() >= 6 && line@.subrange(0, 6) == "data: "@ {
                r matches LineClass::Data(p) && p@ == line@.skip(6)
            } else {
                r is Other
            }
        },
{
    let cs = chars_vec(line);
    let n = cs.len();
    let (a, b) = trim_window(&cs, 0, n);
    proof {
        assert(cs@.subrange(0, n as int) =~= cs@);
    }
    let trimmed = vec_range(&cs, a, b);
    let sentinel = chars_vec("data: [DONE]");
    if vecs_eq(&trimmed, &sentinel) {
        return LineClass::Sentinel;
    }
    let prefix = chars_vec("data: ");
    if n >= 6 {
        let head = vec_range(&cs, 0, 6);
        if vecs_eq(&head, &prefix) {
            let payload_chars = vec_range(&cs, 6, n);
            let payload = chars_string(&payload_chars);
            proof {
                assert(payload@ == line@.skip(6)) by {
                    assert(cs@.subrange(6, n as int) =~= line@.skip(6));
                }
            }
            return LineClass::Data(payload);
        }
    }
    LineClass::Other
}

/// The terminal frame that closes a completed stream.
pub fn done_frame() -> (f: String)
    ensures
        f@ == "data: [DONE]"@,
{
    String::from_str("data: [DONE]")
}

/// An outbound data frame carrying a payload.
pub fn data_frame(payload: &str) -> (f: String)
    ensures
        f@ == "data: "@ + payload@,
{
    let mut f = String::from_str("data: ");
    f.append(payload);
    f
}

/// The frame for a transformed payload, falling back to the payload
/// itself when no transformed text came out of re-encoding.
pub fn payload_frame(transformed: Option<&String>, original: &str) -> (f: String)
    ensures
        transformed matches Some(t) ==> f@ == "data: "@ + t@,
        transformed is None ==> f@ == "data: "@ + original@,
{
    match transformed {
        Some(t) => data_frame(t.as_str()),
        None => data_frame(original),
    }
}

/// The single error frame emitted when an established stream fails
/// mid-read.
pub fn stream_error_frame(msg: &str) -> (f: String)
    ensures
        f@ == "{\"error\":\"stream error: "@ + msg@ + "\"}"@,
{
    let mut f = String::from_str("{\"error\":\"stream error: ");
    f.append(msg);
    f.append("\"}");
    f
}

/// The single error body returned when the upstream call itself fails
/// before any stream is open.
pub fn init_error_frame(msg: &str) -> (f: String)
    ensures
        f@ == "{\"error\":\""@ + msg@ + "\"}"@,
{
    let mut f = String::from_str("{\"error\":\"");
    f.append(msg);
    f.append("\"}");
    f
}

/// Whether a request asks for a streamed response: streaming is the
/// default when the flag is absent.
pub fn stream_requested(flag: Option<bool>) -> (r: bool)
    ensures
        r == (flag is None || flag->0),
{
    match flag {
        Some(b) => b,
        None => true,
    }
}

/// One pulled upstream item, as the transform sees it.
pub enum UpstreamEvent {
    /// The upstream sequence ended without a sentinel.
    End,
    /// A read failed after the stream was established.
    ReadError(String),
    /// One protocol line arrived.
    Line(String),
}

/// What the transform asks its caller to do with one upstream item.
pub enum StepEmit {
    /// Emit nothing and, unless the machine is done, keep pulling.
    Silent,
    /// Emit exactly this frame.
    Emit(String),
    /// Redact and re-encode this data payload, then emit it as a frame.
    Transform(String),
}

/// The per-item state machine of the streaming transform: pulls are
/// classified one at a time, frames preserve upstream order, and the
/// first sentinel or read error is terminal — nothing may be pulled
/// after it.
pub struct StreamMachine {
    pub done: bool,
}

impl StreamMachine {
    pub fn new() -> (m: Self)
        ensures
            !m.done,
    {
        StreamMachine { done: false }
    }

    /// Consume one upstream item. The caller must stop pulling once
    /// `done` is set: the end of the sequence, a read error and the
    /// completion sentinel are all terminal. A read error yields exactly
    /// one tagged error frame; a data line is handed back for redaction;
    /// any other line passes through verbatim as one frame without
    /// closing the stream.
    pub fn step(&mut self, ev: &UpstreamEvent) -> (out: StepEmit)
        requires
            !old(self).done,
        ensures
            ev is End ==> final(self).done && out is Silent,
            ev matches UpstreamEvent::ReadError(m) ==> final(self).done && (out
                matches StepEmit::Emit(f) && f@ == "{\"error\":\"stream error: "@ + m@ + "\"}"@),
            ev matches UpstreamEvent::Line(l) ==> {
                if spec_trim(l@) == "data: [DONE]"@ {
                    final(self).done && (out matches StepEmit::Emit(f) && f@ == "data: [DONE]"@)
                } else if l@.len() >= 6 && l@.subrange(0, 6) == "data: "@ {
                    !final(self).done && (out matches StepEmit::Transform(p) && p@ == l@.skip(6))
                } else {
                    !final(self).done && (out matches StepEmit::Emit(f) && f@ == l@)
                }
            },
    {
        match ev {
            UpstreamEvent::End => {
                self.done = true;
                StepEmit::Silent
            },
            UpstreamEvent::ReadError(m) => {
                self.done = true;
                StepEmit::Emit(stream_error_frame(m.as_str()))
            },
            UpstreamEvent::Line(l) => {
                match classify_line(l.as_str()) {
                    LineClass::Sentinel => {
                        self.done = true;
                        StepEmit::Emit(done_frame())
                    },
                    LineClass::Data(p) => StepEmit::Transform(p),
                    LineClass::Other => StepEmit::Emit(l.clone()),
                }
            },
        }
    }
}

/// Redact the content of the first choice's delta in a streamed chunk,
/// leaving every other part of the chunk as it was.
pub fn redact_chunk(chunk: &mut OpenAIStreamChunk)
    ensures
        final(chunk).id == old(chunk).id,
        final(chunk).choices@.len() == old(chunk).choices@.len(),
        forall|i: int|
            1 <= i < old(chunk).choices@.len() ==> final(chunk).choices@[i] == old(
                chunk,
            ).choices@[i],
        old(chunk).choices@.len() > 0 ==> {
            let oc = old(chunk).choices@[0];
            let nc = final(chunk).choices@[0];
            &&& nc.index == oc.index
            &&& nc.finish_reason == oc.finish_reason
            &&& (nc.delta is Some) == (oc.delta is Some)
            &&& oc.delta is Some ==> {
                &&& nc.delta->0.role == oc.delta->0.role
                &&& (nc.delta->0.content is Some) == (oc.delta->0.content is Some)
                &&& oc.delta->0.content is Some ==> nc.delta->0.content->0@ == spec_redact(
                    oc.delta->0.content->0@,
                ).0
            }
        },
{
    if chunk.choices.len() > 0 {
        let c0 = chunk.choices.remove(0);
        let new_delta = match c0.delta {
            Some(d) => {
                let new_content = match d.content {
                    Some(c) => {
                        let (red, _) = redact_text(c.as_str());
                        Some(red)
                    },
                    None => None,
                };
                Some(OpenAIDelta { role: d.role, content: new_content })
            },
            None => None,
        };
        let new0 = OpenAIChoice { index: c0.index, delta: new_delta, finish_reason: c0.finish_reason };
        chunk.choices.insert(0, new0);
        proof {
            assert(forall|i: int|
                1 <= i < old(chunk).choices@.len() ==> chunk.choices@[i] == old(
                    chunk,
                ).choices@[i]);
        }
    }
}

/// Redact the content of every choice's message in a buffered
/// completion, leaving all other fields as they were.
pub fn redact_completion(resp: &mut OpenAIChatCompletionResponse)
    ensures
        final(resp).id == old(resp).id,
        final(resp).object == old(resp).object,
        final(resp).created == old(resp).created,
        final(resp).model == old(resp).model,
        final(resp).usage == old(resp).usage,
        final(resp).choices@.len() == old(resp).choices@.len(),
        forall|i: int|
            0 <= i < old(resp).choices@.len() ==> {
                let oc = old(resp).choices@[i];
                let nc = #[trigger] final(resp).choices@[i];
                &&& nc.index == oc.index
                &&& nc.finish_reason == oc.finish_reason
                &&& (nc.message is Some) == (oc.message is Some)
                &&& oc.message is Some ==> nc.message->0.role == oc.message->0.role
                    && nc.message->0.content@ == spec_redact(oc.message->0.content@).0
            },
{
    let n = resp.choices.len();
    let mut newc: Vec<OpenAIChatCompletionChoice> = Vec::new();
    let mut i: usize = 0;
    while i < n
        invariant
            0 <= i <= n,
            n == resp.choices@.len(),
            resp == old(resp),
            newc@.len() == i,
            forall|q: int|
                0 <= q < i ==> {
                    let oc = resp.choices@[q];
                    let nc = #[trigger] newc@[q];
                    &&& nc.index == oc.index
                    &&& nc.finish_reason == oc.finish_reason
                    &&& (nc.message is Some) == (oc.message is Some)
                    &&& oc.message is Some ==> nc.message->0.role == oc.message->0.role
                        && nc.message->0.content@ == spec_redact(oc.message->0.content@).0
                },
        decreases n - i,
    {
        let ch = &resp.choices[i];
        let msg = match &ch.message {
            Some(m) => {
                let (red, _) = redact_text(m.content.as_str());
                Some(ChatMessage { role: m.role.clone(), content: red })
            },
            None => None,
        };
        let fr = match &ch.finish_reason {
            Some(s) => Some(s.clone()),
            None => None,
        };
        newc.push(OpenAIChatCompletionChoice { index: ch.index, message: msg, finish_reason: fr });
        i = i + 1;
    }
    resp.choices = newc;
}

/// Redact every message's content in place, accumulating the match
/// count; the count saturates at the machine's limit.
pub fn redact_messages(messages: &mut Vec<ChatMessage>) -> (stats: RedactionStats)
    ensures
        final(messages)@.len() == old(messages)@.len(),
        forall|i: int|
            0 <= i < old(messages)@.len() ==> {
                let om = old(messages)@[i];
                let nm = #[trigger] final(messages)@[i];
                &&& nm.role == om.role
                &&& nm.content@ == spec_redact(om.content@).0
            },
        stats.matches == if total_matches(old(messages)@) <= usize::MAX {
            total_matches(old(messages)@)
        } else {
            usize::MAX as int
        },
{
    let n = messages.len();
    let mut out: Vec<ChatMessage> = Vec::new();
    let mut acc: usize = 0;
    let mut i: usize = 0;
    proof {
        assert(old(messages)@.take(0) =~= Seq::<ChatMessage>::empty());
    }
    while i < n
        invariant
            0 <= i <= n,
            n == messages@.len(),
            messages == old(messages),
            out@.len() == i,
            forall|q: int|
                0 <= q < i ==> {
                    let om = messages@[q];
                    let nm = #[trigger] out@[q];
                    &&& nm.role == om.role
                    &&& nm.content@ == spec_redact(om.content@).0
                },
            acc == if total_matches(messages@.take(i as int)) <= usize::MAX {
                total_matches(messages@.take(i as int))
            } else {
                usize::MAX as int
            },
        decreases n - i,
    {
        let m = &messages[i];
        let (red, st) = redact_text(m.content.as_str());
        proof {
            assert(messages@.take(i as int + 1).drop_last() =~= messages@.take(i as int));
            assert(messages@.take(i as int + 1).last() == messages@[i as int]);
            lemma_total_matches_nonneg(messages@.take(i as int));
        }
        acc = if acc <= usize::MAX - st.matches {
            acc + st.matches
        } else {
            usize::MAX
        };
        out.push(ChatMessage { role: m.role.clone(), content: red });
        i = i + 1;
    }
    proof {
        assert(messages@.take(n as int) =~= messages@);
    }
    *messages = out;
    RedactionStats { matches: acc }
}

/// The total match count across a sequence of messages.
pub open spec fn total_matches(ms: Seq<ChatMessage>) -> int
    decreases ms.len(),
{
    if ms.len() == 0 {
        0
    } else {
        total_matches(ms.drop_last()) + spec_redact(ms.last().content@).1
    }
}

proof fn lemma_total_matches_nonneg(ms: Seq<ChatMessage>)
    ensures
        total_matches(ms) >= 0,
    decreases ms.len(),
{
    if ms.len() > 0 {
        lemma_total_matches_nonneg(ms.drop_last());
    }
}

} // verus!
