//! How the track info pane words what it shows.

use vstd::prelude::*;

use crate::text::{decimal, minutes_seconds, minutes_seconds_text, push_decimal, trim, trimmed};

verus! {

/// What stands between the parts of a joined line.
pub open spec fn separator() -> Seq<char> {
    " \u{2022} "@
}

/// A channel count, named where it has a common name.
pub open spec fn channels_text(count: u8) -> Seq<char> {
    if count == 1 {
        "Mono"@
    } else if count == 2 {
        "Stereo"@
    } else {
        decimal(count as nat) + " channels"@
    }
}

/// A channel count, or nothing where none is known.
pub fn channels(layout: Option<u8>) -> (text: Option<String>)
    ensures
        match layout {
            Some(count) => text matches Some(t) && t@ == channels_text(count),
            None => text is None,
        },
{
    match layout {
        Some(1) => Some(String::from_str("Mono")),
        Some(2) => Some(String::from_str("Stereo")),
        Some(count) => {
            let mut text = String::new();
            push_decimal(&mut text, count as u64);
            text.append(" channels");
            proof {
                assert(text@ =~= channels_text(count));
            }
            Some(text)
        },
        None => None,
    }
}

/// The parts that are there and not blank, each trimmed, joined by the
/// separator; nothing where no part is left.
pub open spec fn joined_text(parts: Seq<Option<Seq<char>>>) -> Option<Seq<char>>
    decreases parts.len(),
{
    if parts.len() == 0 {
        None
    } else {
        let before = joined_text(parts.drop_last());
        match parts.last() {
            Some(part) if trimmed(part).len() > 0 => match before {
                Some(line) => Some(line + separator() + trimmed(part)),
                None => Some(trimmed(part)),
            },
            _ => before,
        }
    }
}

/// The parts of a line that are there, trimmed, with blank ones left out,
/// joined by a separator; nothing rather than an empty line when no part is
/// left.
pub fn joined(parts: &Vec<Option<&str>>) -> (line: Option<String>)
    ensures
        line.deep_view() == joined_text(parts@.map_values(|part: Option<&str>| match part {
            Some(text) => Some(text@),
            None => None,
        })),
{
    let ghost wanted = parts@.map_values(|part: Option<&str>| match part {
        Some(text) => Some(text@),
        None => None,
    });
    let mut line: Option<String> = None;
    let mut i: usize = 0;
    while i < parts.len()
        invariant
            i <= parts@.len(),
            wanted.len() == parts@.len(),
            wanted == parts@.map_values(|part: Option<&str>| match part {
                Some(text) => Some(text@),
                None => None,
            }),
            line.deep_view() == joined_text(wanted.take(i as int)),
        decreases parts@.len() - i,
    {
        proof {
            assert(wanted.take(i + 1).drop_last() =~= wanted.take(i as int));
        }
        if let Some(part) = parts[i] {
            let part = trim(part);
            if part.unicode_len() > 0 {
                line = match line {
                    Some(mut text) => {
                        text.append(" \u{2022} ");
                        text.append(part);
                        Some(text)
                    },
                    None => Some(String::from_str(part)),
                };
            }
        }
        i += 1;
    }
    proof {
        assert(wanted.take(i as int) =~= wanted);
    }
    line
}

/// What stands for a running time that cannot be read.
pub open spec fn no_duration() -> Seq<char> {
    "\u{2014}"@
}

/// A running time of whole seconds as minutes and seconds, or a dash where
/// the time could not be read.
pub fn clock(total: Option<u64>) -> (text: String)
    ensures
        text@ == match total {
            Some(t) => minutes_seconds_text(t as nat),
            None => no_duration(),
        },
{
    match total {
        Some(t) => minutes_seconds(t),
        None => String::from_str("\u{2014}"),
    }
}

} // verus!
