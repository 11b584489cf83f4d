//! What a saved configuration is read back as.
//!
//! A short list of layouts is padded back up from the defaults at the same
//! places, and a long one cut to the slots there are keys for, so a
//! configuration written before the slots were fixed, or edited by hand,
//! still answers every key bound to a slot.

use vstd::prelude::*;

use crate::layout::PRESET_SLOTS;
use crate::text::same_text;

verus! {

/// The saved layouts, cut to the slots there are, then padded with the
/// defaults at the places the saved list does not reach; the defaults alone
/// where nothing was saved.
pub open spec fn filled<T>(saved: Seq<T>, defaults: Seq<T>) -> Seq<T> {
    if saved.len() == 0 {
        defaults
    } else {
        let kept = if saved.len() < PRESET_SLOTS { saved.len() as int } else { PRESET_SLOTS as int };
        saved.take(kept) + if kept < defaults.len() { defaults.skip(kept) } else { Seq::empty() }
    }
}

/// The layouts a configuration holds once read back.
pub fn fill_slots<T>(layouts: Vec<T>, defaults: Vec<T>) -> (slots: Vec<T>)
    ensures
        slots@ == filled(layouts@, defaults@),
{
    if layouts.len() == 0 {
        return defaults;
    }
    let mut slots = layouts;
    let ghost saved = slots@;
    slots.truncate(PRESET_SLOTS);
    let kept = slots.len();
    let mut rest = defaults;
    let ghost given = rest@;
    let total = rest.len();
    let mut taken: usize = 0;
    proof {
        assert(given.skip(0) =~= given);
        assert(slots@ =~= saved.take(kept as int));
    }
    while rest.len() > 0
        invariant
            taken <= given.len() == total,
            rest@ == given.skip(taken as int),
            kept == if saved.len() < PRESET_SLOTS { saved.len() } else { PRESET_SLOTS as nat },
            slots@ == saved.take(kept as int) + if kept < taken { given.subrange(kept as int, taken as int) } else {
                Seq::empty()
            },
        decreases rest@.len(),
    {
        let item = rest.remove(0);
        proof {
            assert(rest@ =~= given.skip(taken + 1));
        }
        if taken >= kept {
            let ghost before = slots@;
            slots.push(item);
            proof {
                if kept < taken {
                    assert(given.subrange(kept as int, taken + 1) =~= given.subrange(kept as int, taken as int).push(
                        item,
                    ));
                } else {
                    assert(given.subrange(kept as int, taken + 1) =~= seq![item]);
                }
                assert(slots@ =~= saved.take(kept as int) + given.subrange(kept as int, taken + 1));
            }
        }
        taken += 1;
    }
    proof {
        if kept < given.len() {
            assert(given.subrange(kept as int, taken as int) =~= given.skip(kept as int));
        } else {
            assert(slots@ =~= saved.take(kept as int) + Seq::<T>::empty());
        }
    }
    slots
}

/// The layout to start on: the one saved, or the last there is where the
/// saved one is past the end.
pub fn active_slot(saved: usize, count: usize) -> (active: usize)
    requires
        count > 0,
    ensures
        active == if saved < count { saved } else { (count - 1) as usize },
{
    if saved < count {
        saved
    } else {
        count - 1
    }
}

/// What a missing switch reads as.
pub fn default_true() -> (on: bool)
    ensures
        on,
{
    true
}

/// The place of the theme a configuration names among the themes offered, by
/// their names: the first whose name is exactly what was saved, or none where
/// no theme is called that.
pub fn theme_from_str(names: &Vec<String>, saved: &str) -> (found: Option<usize>)
    ensures
        match found {
            Some(i) => {
                &&& i < names@.len()
                &&& names@[i as int]@ == saved@
                &&& forall|j: int| 0 <= j < i ==> names@[j]@ != saved@
            },
            None => forall|j: int| 0 <= j < names@.len() ==> names@[j]@ != saved@,
        },
{
    let mut i: usize = 0;
    while i < names.len()
        invariant
            i <= names@.len(),
            forall|j: int| 0 <= j < i ==> names@[j]@ != saved@,
        decreases names@.len() - i,
    {
        if same_text(names[i].as_str(), saved) {
            return Some(i);
        }
        i += 1;
    }
    None
}

} // verus!
