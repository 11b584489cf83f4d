//! What the library pane's menu offers for the rows selected.

use vstd::prelude::*;
use vstd::string::*;

use crate::text::{decimal, push_decimal};

verus! {

/// What follows a playback action's name: nothing for one track or none, and
/// the count for several.
pub open spec fn count_suffix(selected: nat) -> Seq<char> {
    if selected <= 1 {
        Seq::empty()
    } else {
        " ("@ + decimal(selected) + " tracks)"@
    }
}

/// The labels of the menu's buttons, in order: the three playback actions,
/// counted when they act on several tracks, then the two selection actions.
pub open spec fn menu_text(selected: nat) -> Seq<Seq<char>> {
    seq![
        "Play"@ + count_suffix(selected),
        "Play next"@ + count_suffix(selected),
        "Add to queue"@ + count_suffix(selected),
        "Select all"@,
        "Clear selection"@,
    ]
}

fn labelled(name: &str, selected: usize) -> (label: String)
    ensures
        label@ == name@ + count_suffix(selected as nat),
{
    let mut label = String::from_str(name);
    if selected > 1 {
        label.append(" (");
        push_decimal(&mut label, selected as u64);
        label.append(" tracks)");
    }
    proof {
        assert(label@ =~= name@ + count_suffix(selected as nat));
    }
    label
}

/// The labels of the menu's buttons for `selected` rows.
pub fn menu_labels(selected: usize) -> (labels: Vec<String>)
    ensures
        labels@.len() == 5,
        forall|i: int| 0 <= i < 5 ==> #[trigger] labels@[i]@ == menu_text(selected as nat)[i],
{
    let mut labels = Vec::new();
    labels.push(labelled("Play", selected));
    labels.push(labelled("Play next", selected));
    labels.push(labelled("Add to queue", selected));
    labels.push(String::from_str("Select all"));
    labels.push(String::from_str("Clear selection"));
    labels
}

} // verus!
