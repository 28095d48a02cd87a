//! Which log records belong to the commands that the window invokes.

use vstd::prelude::*;

verus! {

/// Whether `needle` occurs in `haystack` as a run of consecutive characters.
pub open spec fn occurs_in(needle: Seq<char>, haystack: Seq<char>) -> bool {
    exists|at: int|
        0 <= at && at + needle.len() <= haystack.len() && #[trigger] haystack.subrange(
            at,
            at + needle.len(),
        ) == needle
}

/// Calls `str::contains` with a string for its pattern. Claimed: the result says whether the
/// pattern occurs in the text.
#[verifier::external_body]
fn has(haystack: &str, needle: &str) -> (r: bool)
    ensures
        r == occurs_in(needle@, haystack@),
{
    haystack.contains(needle)
}

/// Whether a record with this target comes from one of the modules that serve the window.
pub open spec fn interaction_target(target: Seq<char>) -> bool {
    occurs_in("json"@, target) || occurs_in("kafka"@, target) || occurs_in("storage"@, target)
}

/// Whether a message names an invocation or one of the commands.
pub open spec fn interaction_message(message: Seq<char>) -> bool {
    ||| occurs_in("invoke"@, message)
    ||| occurs_in("command"@, message)
    ||| occurs_in("topics"@, message)
    ||| occurs_in("send_message"@, message)
    ||| occurs_in("fetch_message"@, message)
    ||| occurs_in("format"@, message)
    ||| occurs_in("compress"@, message)
    ||| occurs_in("stringify"@, message)
    ||| occurs_in("parse"@, message)
    ||| occurs_in("sort_format"@, message)
    ||| occurs_in("recur_format"@, message)
    ||| occurs_in("get_log_file_path"@, message)
    ||| occurs_in("read_log_file"@, message)
}

/// Decides whether a log record, given by its target and its message, records an
/// interaction between the window and the commands.
pub fn is_interaction_event(target: &str, message: &str) -> (r: bool)
    ensures
        r == (interaction_target(target@) || interaction_message(message@)),
{
    has(target, "json") || has(target, "kafka") || has(target, "storage") || has(message, "invoke")
        || has(message, "command") || has(message, "topics") || has(message, "send_message")
        || has(message, "fetch_message") || has(message, "format") || has(message, "compress")
        || has(message, "stringify") || has(message, "parse") || has(message, "sort_format")
        || has(message, "recur_format") || has(message, "get_log_file_path") || has(
        message,
        "read_log_file",
    )
}

} // verus!
