//! The request sent for each chunk, and what a worker makes of the reply.
use crate::sequencer::Outcome;
use vstd::prelude::*;
use vstd::string::StringExecFns;

verus! {

/// The workflow's inputs for one chunk.
#[derive(Debug)]
pub struct Input<'a> {
    pub target_lang: &'a str,
    pub source_text: String,
    pub source_lang: &'a str,
    pub term: &'a str,
}

impl<'a> Input<'a> {
    pub fn new(target_lang: &'a str, source_text: String, source_lang: &'a str, term: &'a str) -> (r: Self)
        ensures
            r.target_lang == target_lang,
            r.source_text == source_text,
            r.source_lang == source_lang,
            r.term == term,
    {
        Input { target_lang, source_text, source_lang, term }
    }
}

/// The body of one workflow run request.
#[derive(Debug)]
pub struct RequestData<'a> {
    pub inputs: Input<'a>,
    pub user: &'a str,
    pub response_mode: &'a str,
}

impl<'a> RequestData<'a> {
    pub fn new(inputs: Input<'a>, response_mode: &'a str, user: &'a str) -> (r: Self)
        ensures
            r.inputs == inputs,
            r.user == user,
            r.response_mode == response_mode,
    {
        RequestData { inputs, user, response_mode }
    }
}

/// The user id sent with every request.
pub const USER_ID: &'static str = "fww";

/// The response mode of every request: the reply is an event stream.
pub const RESPONSE_MODE: &'static str = "streaming";

/// The request for one chunk.
pub fn chunk_request<'a>(
    target_lang: &'a str,
    source_lang: &'a str,
    term: &'a str,
    text: String,
) -> (r: RequestData<'a>)
    ensures
        r.inputs.target_lang == target_lang,
        r.inputs.source_lang == source_lang,
        r.inputs.term == term,
        r.inputs.source_text == text,
        r.user@ == seq!['f', 'w', 'w'],
        r.response_mode@ == seq!['s', 't', 'r', 'e', 'a', 'm', 'i', 'n', 'g'],
{
    proof {
        reveal_strlit("fww");
        reveal_strlit("streaming");
    }
    RequestData::new(Input::new(target_lang, text, source_lang, term), RESPONSE_MODE, USER_ID)
}

/// The reason given when the stream ended without the terminal event.
pub open spec fn no_result_reason() -> Seq<char> {
    seq!['n', 'o', ' ', 'r', 'e', 's', 'u', 'l', 't']
}

/// The reason given when the request failed: `request failed: ` and the error.
pub open spec fn request_failed_reason(err: Seq<char>) -> Seq<char> {
    seq!['r', 'e', 'q', 'u', 'e', 's', 't', ' ', 'f', 'a', 'i', 'l', 'e', 'd', ':', ' '] + err
}

/// What a worker forwards for a chunk, given what the remote call returned:
/// the outputs of the terminal event, or a failure where the stream ended
/// without one or the request failed.
pub fn process_task(result: Result<Option<String>, String>) -> (r: Outcome)
    ensures
        match result {
            Ok(Some(v)) => r == Outcome::Success(v),
            Ok(None) => r matches Outcome::Failure(s) && s@ == no_result_reason(),
            Err(e) => r matches Outcome::Failure(s) && s@ == request_failed_reason(e@),
        },
{
    proof {
        reveal_strlit("no result");
        reveal_strlit("request failed: ");
    }
    match result {
        Ok(Some(v)) => Outcome::Success(v),
        Ok(None) => Outcome::Failure(String::from_str("no result")),
        Err(e) => {
            let mut s = String::from_str("request failed: ");
            s.append(e.as_str());
            Outcome::Failure(s)
        },
    }
}

} // verus!
