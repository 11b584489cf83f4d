//! Plain readings of optional numbers, for labels.

use vstd::prelude::*;
use vstd::string::*;

use crate::text::{decimal, push_decimal, push_two_digits, two_digits};

verus! {

/// A value and its unit, such as `320 kbps`, or a dash where there is none.
pub open spec fn optional_text(value: Option<nat>, unit: Seq<char>) -> Seq<char> {
    match value {
        Some(v) => decimal(v) + " "@ + unit,
        None => "-"@,
    }
}

fn with_unit(value: u64, unit: &str) -> (text: String)
    ensures
        text@ == decimal(value as nat) + " "@ + unit@,
{
    let mut text = String::new();
    push_decimal(&mut text, value);
    text.append(" ");
    text.append(unit);
    proof {
        assert(text@ =~= decimal(value as nat) + " "@ + unit@);
    }
    text
}

/// A value and its unit, or a dash where there is none.
pub fn format_optional_u32(value: Option<u32>, unit: &str) -> (text: String)
    ensures
        text@ == optional_text(
            match value {
                Some(v) => Some(v as nat),
                None => None,
            },
            unit@,
        ),
{
    match value {
        Some(v) => with_unit(v as u64, unit),
        None => String::from_str("-"),
    }
}

/// A value and its unit, or a dash where there is none.
pub fn format_optional_u8(value: Option<u8>, unit: &str) -> (text: String)
    ensures
        text@ == optional_text(
            match value {
                Some(v) => Some(v as nat),
                None => None,
            },
            unit@,
        ),
{
    match value {
        Some(v) => with_unit(v as u64, unit),
        None => String::from_str("-"),
    }
}

/// A channel count, named where it has a common name, or a dash where none
/// is known.
pub open spec fn channels_text(channels: Option<u8>) -> Seq<char> {
    match channels {
        Some(n) => if n == 1 {
            "Mono"@
        } else if n == 2 {
            "Stereo"@
        } else {
            decimal(n as nat) + " channels"@
        },
        None => "-"@,
    }
}

pub fn format_channels(channels: Option<u8>) -> (text: String)
    ensures
        text@ == channels_text(channels),
{
    match channels {
        Some(1) => String::from_str("Mono"),
        Some(2) => String::from_str("Stereo"),
        Some(n) => {
            let mut text = String::new();
            push_decimal(&mut text, n as u64);
            text.append(" channels");
            text
        },
        None => String::from_str("-"),
    }
}

/// A whole number of seconds as two-digit minutes and seconds, such as
/// `03:07`.
pub open spec fn duration_text(total: nat) -> Seq<char> {
    two_digits(total / 60) + seq![':'] + two_digits(total % 60)
}

/// A whole number of seconds as two-digit minutes and seconds.
pub fn format_seconds(total: u32) -> (text: String)
    ensures
        text@ == duration_text(total as nat),
{
    let mut text = String::new();
    push_two_digits(&mut text, (total / 60) as u64);
    text.append(":");
    push_two_digits(&mut text, (total % 60) as u64);
    proof {
        reveal_strlit(":");
        assert(text@ =~= duration_text(total as nat));
    }
    text
}

} // verus!
