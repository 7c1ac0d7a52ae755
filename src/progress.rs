//! The resumable cursor and what is written for each chunk handed on in order.
use crate::sequencer::{Outcome, PendingMessage};
use crate::stream::{json_member_of, json_member_text, json_string_of, json_string_text};
use vstd::prelude::*;
use vstd::string::StringExecFns;

verus! {

/// The resumable cursor of one input file: its languages and how many of its
/// lines earlier runs have consumed.
#[derive(Debug, Clone)]
pub struct ConfigData {
    pub target_lang: String,
    pub source_lang: String,
    pub history_lines: usize,
}

/// The credentials of the remote workflow service.
#[derive(Debug, Clone)]
pub struct APIConfig {
    pub api_key: String,
    pub base_url: String,
}

impl ConfigData {
    /// A cursor for a file that no run has touched yet.
    pub fn new(target_lang: String, source_lang: String) -> (r: Self)
        ensures
            r.target_lang == target_lang,
            r.source_lang == source_lang,
            r.history_lines == 0,
    {
        ConfigData { target_lang, source_lang, history_lines: 0 }
    }

    /// The same languages with `history_lines` consumed.
    pub fn with_history(&self, history_lines: usize) -> (r: Self)
        ensures
            r.target_lang@ == self.target_lang@,
            r.source_lang@ == self.source_lang@,
            r.history_lines == history_lines,
    {
        ConfigData {
            target_lang: self.target_lang.clone(),
            source_lang: self.source_lang.clone(),
            history_lines,
        }
    }
}

/// The lines consumed once the reader has made `read_count` read attempts of
/// `chunk_size` lines each, after `prior` lines consumed by earlier runs.
pub open spec fn lines_consumed(prior: nat, read_count: nat, chunk_size: nat) -> nat {
    prior + read_count * chunk_size
}

/// The cursor position after a chunk: blank chunks that were skipped still
/// count, as every read attempt does. `None` where it does not fit in `usize`.
pub fn resume_lines(prior: usize, read_count: usize, chunk_size: usize) -> (r: Option<usize>)
    ensures
        r is Some <==> lines_consumed(prior as nat, read_count as nat, chunk_size as nat)
            <= usize::MAX,
        r matches Some(n) ==> n == lines_consumed(prior as nat, read_count as nat, chunk_size as nat),
{
    match read_count.checked_mul(chunk_size) {
        Some(m) => prior.checked_add(m),
        None => {
            assert(read_count * chunk_size > usize::MAX);
            assert(prior + read_count * chunk_size > usize::MAX) by (nonlinear_arith)
                requires read_count * chunk_size > usize::MAX, prior >= 0;
            None
        },
    }
}

/// Why a chunk handed on in order could not be persisted.
#[derive(Debug, Clone, Copy, PartialEq, Eq, Structural)]
pub enum PersistError {
    /// The outputs hold no text under the output key.
    MissingOutput,
    /// The cursor position does not fit in `usize`.
    CursorOverflow,
}

/// What to write for one chunk handed on in order.
#[derive(Debug)]
pub struct WritePlan {
    /// The line to append to the translation file.
    pub translation: String,
    /// Whether the terminology snapshot is rewritten (it is not when empty).
    pub write_term: bool,
    /// The cursor to store.
    pub cursor: ConfigData,
}

/// The text under `key` in the outputs: the member must be a JSON string.
pub open spec fn output_of(outputs: Seq<char>, key: Seq<char>) -> Option<Seq<char>> {
    match json_member_of(outputs, key) {
        Some(m) => json_string_of(m),
        None => None,
    }
}

/// Decides what to write for a message that the sequencer handed on: nothing
/// for a failed chunk; for a successful one, the text under `output_key`, the
/// terminology snapshot unless it is empty, and the cursor advanced past all
/// the read attempts made so far.
pub fn process_normal_result(
    msg: &PendingMessage,
    output_key: &str,
    config: &ConfigData,
    term: &str,
    chunk_size: usize,
) -> (r: Result<Option<WritePlan>, PersistError>)
    ensures
        match msg.outcome {
            Outcome::Success(o) => match output_of(o@, output_key@) {
                None => r == Err::<Option<WritePlan>, PersistError>(PersistError::MissingOutput),
                Some(t) => if lines_consumed(
                    config.history_lines as nat,
                    msg.read_count as nat,
                    chunk_size as nat,
                ) > usize::MAX {
                    r == Err::<Option<WritePlan>, PersistError>(PersistError::CursorOverflow)
                } else {
                    r matches Ok(Some(p)) && {
                        &&& p.translation@ == t
                        &&& p.write_term == (term@.len() > 0)
                        &&& p.cursor.target_lang@ == config.target_lang@
                        &&& p.cursor.source_lang@ == config.source_lang@
                        &&& p.cursor.history_lines == lines_consumed(
                            config.history_lines as nat,
                            msg.read_count as nat,
                            chunk_size as nat,
                        )
                    }
                },
            },
            _ => r matches Ok(None),
        },
{
    let outputs = match &msg.outcome {
        Outcome::Success(o) => o,
        _ => return Ok(None),
    };
    let translation = match json_member_text(outputs.as_str(), output_key) {
        Some(m) => match json_string_text(m.as_str()) {
            Some(t) => t,
            None => return Err(PersistError::MissingOutput),
        },
        None => return Err(PersistError::MissingOutput),
    };
    let lines = match resume_lines(config.history_lines, msg.read_count, chunk_size) {
        Some(n) => n,
        None => return Err(PersistError::CursorOverflow),
    };
    Ok(Some(WritePlan { translation, write_term: !term.is_empty(), cursor: config.with_history(lines) }))
}

/// `{base}_{source}2{target}.txt`: the translation file of an input file.
pub fn translation_file_name(base: &str, source_lang: &str, target_lang: &str) -> (r: String)
    ensures
        r@ == base@ + seq!['_'] + source_lang@ + seq!['2'] + target_lang@ + seq!['.', 't', 'x', 't'],
{
    proof {
        reveal_strlit("_");
        reveal_strlit("2");
        reveal_strlit(".txt");
    }
    let mut r = String::from_str(base);
    r.append("_");
    r.append(source_lang);
    r.append("2");
    r.append(target_lang);
    r.append(".txt");
    r
}

/// `{base}_term.txt`: the terminology snapshot of an input file.
pub fn term_file_name(base: &str) -> (r: String)
    ensures
        r@ == base@ + seq!['_', 't', 'e', 'r', 'm', '.', 't', 'x', 't'],
{
    proof {
        reveal_strlit("_term.txt");
    }
    let mut r = String::from_str(base);
    r.append("_term.txt");
    r
}

/// `{base}.json`: the cursor file of an input file.
pub fn config_file_name(base: &str) -> (r: String)
    ensures
        r@ == base@ + seq!['.', 'j', 's', 'o', 'n'],
{
    proof {
        reveal_strlit(".json");
    }
    let mut r = String::from_str(base);
    r.append(".json");
    r
}

/// The terminology path used when none is given: `term\{base}_term.txt`.
pub fn default_term_path(base: &str) -> (r: String)
    ensures
        r@ == seq!['t', 'e', 'r', 'm', '\\'] + base@ + seq!['_', 't', 'e', 'r', 'm', '.', 't', 'x', 't'],
{
    proof {
        reveal_strlit("term\\");
        reveal_strlit("_term.txt");
    }
    let mut r = String::from_str("term\\");
    r.append(base);
    r.append("_term.txt");
    r
}

/// The output key given, or `output` where none was.
pub fn output_key_or_default(given: &str) -> (r: String)
    ensures
        given@.len() == 0 ==> r@ == seq!['o', 'u', 't', 'p', 'u', 't'],
        given@.len() > 0 ==> r@ == given@,
{
    proof {
        reveal_strlit("output");
    }
    if given.is_empty() {
        String::from_str("output")
    } else {
        String::from_str(given)
    }
}

} // verus!
