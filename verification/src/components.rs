//! Readings shared by the panes' controls.

use vstd::prelude::*;
use vstd::string::*;

use crate::text::{decimal, push_decimal, push_two_digits, two_digits};

verus! {

/// A playback position of `total` whole seconds: `h:mm:ss` from an hour on,
/// `m:ss` below it.
pub open spec fn time_text(total: nat) -> Seq<char> {
    let (hours, minutes, seconds) = (total / 3600, (total % 3600) / 60, total % 60);
    if hours > 0 {
        decimal(hours) + seq![':'] + two_digits(minutes) + seq![':'] + two_digits(seconds)
    } else {
        decimal(minutes) + seq![':'] + two_digits(seconds)
    }
}

/// A playback position of `total` whole seconds, such as `3:07` or `1:02:03`.
pub fn format_time(total: u64) -> (text: String)
    ensures
        text@ == time_text(total as nat),
{
    let hours = total / 3600;
    let minutes = (total % 3600) / 60;
    let seconds = total % 60;
    let mut text = String::new();
    proof {
        reveal_strlit(":");
    }
    if hours > 0 {
        push_decimal(&mut text, hours);
        text.append(":");
        push_two_digits(&mut text, minutes);
        text.append(":");
        push_two_digits(&mut text, seconds);
    } else {
        push_decimal(&mut text, minutes);
        text.append(":");
        push_two_digits(&mut text, seconds);
    }
    proof {
        assert(text@ =~= time_text(total as nat));
    }
    text
}

/// `text` cut to at most `max` characters: whole where it fits, else its
/// first `max - 3` characters (none, where `max` is under three) followed by
/// an ellipsis of three dots.
pub open spec fn truncated(text: Seq<char>, max: nat) -> Seq<char> {
    if text.len() <= max {
        text
    } else {
        text.take(if max >= 3 { max - 3 } else { 0 }) + "..."@
    }
}

/// `text` cut to fit `max` characters, marked with an ellipsis where cut.
pub fn truncate_text(text: &str, max_chars: usize) -> (out: String)
    ensures
        out@ == truncated(text@, max_chars as nat),
{
    let count = text.unicode_len();
    if count <= max_chars {
        return String::from_str(text);
    }
    let keep = if max_chars >= 3 { max_chars - 3 } else { 0 };
    let head = text.substring_char(0, keep);
    let mut out = String::from_str(head);
    out.append("...");
    proof {
        assert(text@.subrange(0, keep as int) =~= text@.take(keep as int));
    }
    out
}

} // verus!
