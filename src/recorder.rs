use vstd::prelude::*;

use crate::entry::{EntryView, RegretEntry};
use crate::tags::{normalize_tags, normalized_tags};

verus! {

/// How many mood choices are offered: the five levels, then "skip".
pub const MOOD_CHOICES: usize = 6;

/// The position of the "skip" choice among the mood choices.
pub const SKIP_CHOICE: usize = 5;

/// The mood that a choice stands for: choice `k` below five is level `k + 1`,
/// any other choice is "skip", an absent mood.
pub open spec fn mood_of_choice(choice: int) -> Option<u8> {
    if 0 <= choice < 5 {
        Some((choice + 1) as u8)
    } else {
        None
    }
}

/// Maps a position in the list of mood choices to the recorded mood.
pub fn mood_from_choice(choice: usize) -> (r: Option<u8>)
    ensures
        r == mood_of_choice(choice as int),
{
    if choice < SKIP_CHOICE {
        Some((choice + 1) as u8)
    } else {
        None
    }
}

/// The entry that the recorder builds from its inputs.
pub open spec fn entry_of(
    timestamp: Seq<char>,
    text: Seq<char>,
    tags_input: Seq<char>,
    mood_choice: int,
) -> EntryView {
    EntryView {
        timestamp,
        text,
        tags: normalized_tags(tags_input),
        mood: mood_of_choice(mood_choice),
    }
}

/// Builds an entry: the text as given, the tags normalised from a
/// comma-separated input, the mood from a position among the mood choices.
pub fn new_entry(timestamp: String, text: String, tags_input: &str, mood_choice: usize) -> (r:
    RegretEntry)
    ensures
        r@ == entry_of(timestamp@, text@, tags_input@, mood_choice as int),
{
    let tags = normalize_tags(tags_input);
    let mood = mood_from_choice(mood_choice);
    RegretEntry { timestamp, text, tags, mood }
}

/// Relies on `chrono::Local::now` and `DateTime::to_rfc3339`: the local time
/// now in RFC 3339 form, which always holds at least a date (10 characters),
/// `T`, a time (8) and an offset (6).
#[verifier::external_body]
fn local_timestamp() -> (r: String)
    ensures
        r@.len() >= 25,
{
    chrono::Local::now().to_rfc3339()
}

/// Adds one entry, stamped with the local time now, at the end of the log.
/// The entries already there stay as they were.
pub fn record(log: &mut Vec<RegretEntry>, text: String, tags_input: &str, mood_choice: usize)
    ensures
        final(log)@.len() == old(log)@.len() + 1,
        final(log)@.subrange(0, old(log)@.len() as int) == old(log)@,
        final(log)@.last()@ == entry_of(
            final(log)@.last()@.timestamp,
            text@,
            tags_input@,
            mood_choice as int,
        ),
        final(log)@.last()@.text == text@,
        final(log)@.last()@.tags == normalized_tags(tags_input@),
        final(log)@.last()@.mood == mood_of_choice(mood_choice as int),
        final(log)@.last()@.timestamp.len() >= 25,
{
    let timestamp = local_timestamp();
    let entry = new_entry(timestamp, text, tags_input, mood_choice);
    log.push(entry);
    assert(final(log)@.subrange(0, old(log)@.len() as int) =~= old(log)@);
}

} // verus!
