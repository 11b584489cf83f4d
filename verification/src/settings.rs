//! Per-pane settings: the choices about a pane that are taste rather than
//! consequence. Settings are filed by the kind they belong to within one pane,
//! so looking at another kind in the picker and coming back finds the pane as
//! it was left; a pane left at its defaults stores nothing.

use vstd::prelude::*;

use crate::pane::PaneKind;

verus! {

/// How densely a visualizer's bars are packed.
#[derive(Debug, Clone, Copy, PartialEq, Eq, Structural)]
pub enum Density {
    Fine,
    Normal,
    Coarse,
}

impl Density {
    pub const ALL: [Density; 3] = [Density::Fine, Density::Normal, Density::Coarse];

    pub open spec fn label_spec(self) -> Seq<char> {
        match self {
            Density::Fine => "Fine"@,
            Density::Normal => "Normal"@,
            Density::Coarse => "Coarse"@,
        }
    }

    pub fn label(self) -> (label: &'static str)
        ensures
            label@ == self.label_spec(),
    {
        match self {
            Density::Fine => "Fine",
            Density::Normal => "Normal",
            Density::Coarse => "Coarse",
        }
    }
}

impl Default for Density {
    fn default() -> (density: Self)
        ensures
            density == Density::Normal,
    {
        Density::Normal
    }
}

/// How the tops of a visualizer's bars are rounded.
#[derive(Debug, Clone, Copy, PartialEq, Eq, Structural)]
pub enum Caps {
    Square,
    Soft,
    Round,
}

impl Caps {
    pub const ALL: [Caps; 3] = [Caps::Square, Caps::Soft, Caps::Round];

    pub open spec fn label_spec(self) -> Seq<char> {
        match self {
            Caps::Square => "Square"@,
            Caps::Soft => "Soft"@,
            Caps::Round => "Round"@,
        }
    }

    pub fn label(self) -> (label: &'static str)
        ensures
            label@ == self.label_spec(),
    {
        match self {
            Caps::Square => "Square",
            Caps::Soft => "Soft",
            Caps::Round => "Round",
        }
    }
}

impl Default for Caps {
    fn default() -> (caps: Self)
        ensures
            caps == Caps::Soft,
    {
        Caps::Soft
    }
}

/// What colors a visualizer's bars.
#[derive(Debug, Clone, Copy, PartialEq, Eq, Structural)]
pub enum Tint {
    Flat,
    Amplitude,
    Spectrum,
    Artwork,
}

impl Tint {
    pub const ALL: [Tint; 4] = [Tint::Flat, Tint::Amplitude, Tint::Spectrum, Tint::Artwork];

    pub open spec fn label_spec(self) -> Seq<char> {
        match self {
            Tint::Flat => "Flat"@,
            Tint::Amplitude => "By level"@,
            Tint::Spectrum => "By frequency"@,
            Tint::Artwork => "From artwork"@,
        }
    }

    pub fn label(self) -> (label: &'static str)
        ensures
            label@ == self.label_spec(),
    {
        match self {
            Tint::Flat => "Flat",
            Tint::Amplitude => "By level",
            Tint::Spectrum => "By frequency",
            Tint::Artwork => "From artwork",
        }
    }

    /// Only a tint taken from the artwork needs a cover looked up.
    pub fn needs_artwork(self) -> (needs: bool)
        ensures
            needs == (self == Tint::Artwork),
    {
        self == Tint::Artwork
    }
}

impl Default for Tint {
    fn default() -> (tint: Self)
        ensures
            tint == Tint::Amplitude,
    {
        Tint::Amplitude
    }
}

/// Every label is words, never empty.
pub proof fn lemma_every_choice_is_labeled(density: Density, caps: Caps, tint: Tint)
    ensures
        density.label_spec().len() > 0,
        caps.label_spec().len() > 0,
        tint.label_spec().len() > 0,
{
    reveal_strlit("Fine");
    reveal_strlit("Normal");
    reveal_strlit("Coarse");
    reveal_strlit("Square");
    reveal_strlit("Soft");
    reveal_strlit("Round");
    reveal_strlit("Flat");
    reveal_strlit("By level");
    reveal_strlit("By frequency");
    reveal_strlit("From artwork");
}

/// How a visualizer pane draws.
#[derive(Debug, Clone, Copy, PartialEq, Eq, Structural)]
pub struct Visualizer {
    pub density: Density,
    pub caps: Caps,
    pub tint: Tint,
    pub peak_hold: bool,
}

impl Visualizer {
    pub open spec fn defaults() -> Visualizer {
        Visualizer { density: Density::Normal, caps: Caps::Soft, tint: Tint::Amplitude, peak_hold: false }
    }
}

impl Default for Visualizer {
    fn default() -> (settings: Self)
        ensures
            settings == Visualizer::defaults(),
    {
        Visualizer { density: Density::Normal, caps: Caps::Soft, tint: Tint::Amplitude, peak_hold: false }
    }
}

/// The settings of one kind of pane.
#[derive(Debug, Clone, Copy, PartialEq, Eq, Structural)]
pub enum Settings {
    Visualizer(Visualizer),
}

impl Settings {
    pub open spec fn default_spec(kind: PaneKind) -> Option<Settings> {
        match kind {
            PaneKind::Visualizer => Some(Settings::Visualizer(Visualizer::defaults())),
            _ => None,
        }
    }

    pub open spec fn kind_spec(self) -> PaneKind {
        match self {
            Settings::Visualizer(_) => PaneKind::Visualizer,
        }
    }

    /// The settings a kind starts with; a kind with nothing to configure has
    /// none.
    pub fn default_for(kind: PaneKind) -> (settings: Option<Self>)
        ensures
            settings == Self::default_spec(kind),
    {
        match kind {
            PaneKind::Visualizer => Some(Settings::Visualizer(Visualizer::default())),
            _ => None,
        }
    }

    pub fn kind(self) -> (kind: PaneKind)
        ensures
            kind == self.kind_spec(),
    {
        match self {
            Settings::Visualizer(_) => PaneKind::Visualizer,
        }
    }

    pub fn as_visualizer(self) -> (settings: Option<Visualizer>)
        ensures
            settings == match self {
                Settings::Visualizer(v) => Some(v),
            },
    {
        match self {
            Settings::Visualizer(settings) => Some(settings),
        }
    }
}

/// One pane's settings, filed by the kind they belong to; only kinds the user
/// has touched are filed.
#[derive(Debug)]
pub struct PaneSettings {
    by_kind: Vec<Settings>,
}

impl PaneSettings {
    #[verifier::type_invariant]
    closed spec fn inv(self) -> bool {
        forall|i: int, j: int| 0 <= i < j < self.by_kind@.len() ==> self.by_kind@[i].kind_spec() != self.by_kind@[j].kind_spec()
    }

    /// What is filed for `kind`.
    pub closed spec fn filed(&self, kind: PaneKind) -> Option<Settings> {
        if exists|i: int| 0 <= i < self.by_kind@.len() && self.by_kind@[i].kind_spec() == kind {
            Some(self.by_kind@[choose|i: int| 0 <= i < self.by_kind@.len() && self.by_kind@[i].kind_spec() == kind])
        } else {
            None
        }
    }

    /// How many kinds are filed.
    pub closed spec fn count(&self) -> nat {
        self.by_kind@.len()
    }

    /// The settings in force for `kind`: what is filed, else its defaults.
    pub open spec fn get_spec(&self, kind: PaneKind) -> Option<Settings> {
        match self.filed(kind) {
            Some(s) => Some(s),
            None => Settings::default_spec(kind),
        }
    }

    proof fn lemma_filed_at(&self, i: int)
        requires
            0 <= i < self.by_kind@.len(),
            self.inv(),
        ensures
            self.filed(self.by_kind@[i].kind_spec()) == Some(self.by_kind@[i]),
    {
        let kind = self.by_kind@[i].kind_spec();
        let j = choose|j: int| 0 <= j < self.by_kind@.len() && self.by_kind@[j].kind_spec() == kind;
        if j != i {
            if j < i {
                assert(self.by_kind@[j].kind_spec() != self.by_kind@[i].kind_spec());
            } else {
                assert(self.by_kind@[i].kind_spec() != self.by_kind@[j].kind_spec());
            }
        }
    }

    pub fn is_empty(&self) -> (empty: bool)
        ensures
            empty == (self.count() == 0),
            empty ==> forall|kind: PaneKind| #[trigger] self.filed(kind) is None,
    {
        self.by_kind.len() == 0
    }

    fn slot(&self, kind: PaneKind) -> (found: Option<usize>)
        ensures
            match found {
                Some(i) => i < self.by_kind@.len() && self.by_kind@[i as int].kind_spec() == kind,
                None => self.filed(kind) is None,
            },
    {
        let mut i: usize = 0;
        while i < self.by_kind.len()
            invariant
                i <= self.by_kind@.len(),
                forall|j: int| 0 <= j < i ==> self.by_kind@[j].kind_spec() != kind,
            decreases self.by_kind@.len() - i,
        {
            if self.by_kind[i].kind() == kind {
                return Some(i);
            }
            i += 1;
        }
        None
    }

    /// The settings in force for `kind`.
    pub fn get(&self, kind: PaneKind) -> (settings: Option<Settings>)
        ensures
            settings == self.get_spec(kind),
    {
        proof { use_type_invariant(self); }
        match self.slot(kind) {
            Some(i) => {
                proof { self.lemma_filed_at(i as int); }
                Some(self.by_kind[i])
            },
            None => Settings::default_for(kind),
        }
    }

    /// The visualizer settings in force.
    pub fn visualizer(&self) -> (settings: Visualizer)
        ensures
            settings == match self.get_spec(PaneKind::Visualizer) {
                Some(Settings::Visualizer(v)) => v,
                None => Visualizer::defaults(),
            },
    {
        match self.get(PaneKind::Visualizer) {
            Some(settings) => match settings.as_visualizer() {
                Some(visualizer) => visualizer,
                None => Visualizer::default(),
            },
            None => Visualizer::default(),
        }
    }

    /// Files `settings` under the kind they belong to, replacing what was
    /// there and leaving other kinds alone.
    pub fn set(&mut self, settings: Settings)
        ensures
            forall|kind: PaneKind| #[trigger] final(self).filed(kind)
                == if kind == settings.kind_spec() { Some(settings) } else { old(self).filed(kind) },
    {
        proof { use_type_invariant(&*self); }
        let kind = settings.kind();
        let found = self.slot(kind);
        let mut by_kind = Vec::new();
        std::mem::swap(&mut by_kind, &mut self.by_kind);
        let ghost before = by_kind@;
        match found {
            Some(i) => {
                by_kind.set(i, settings);
            },
            None => {
                by_kind.push(settings);
            },
        }
        let ghost after = by_kind@;
        proof {
            assert forall|a: int, b: int| 0 <= a < b < after.len() implies after[a].kind_spec() != after[b].kind_spec() by {
                if found is None && b == before.len() {
                    assert(before[a].kind_spec() != kind) by {
                        if before[a].kind_spec() == kind {
                            assert(exists|i: int| 0 <= i < before.len() && before[i].kind_spec() == kind);
                        }
                    }
                }
            }
        }
        self.by_kind = by_kind;
        proof {
            assert forall|k: PaneKind| #[trigger] self.filed(k)
                == if k == kind { Some(settings) } else { old(self).filed(k) } by {
                let at = match found { Some(i) => i as int, None => before.len() as int };
                self.lemma_filed_at(at);
                if k != kind {
                    if exists|i: int| 0 <= i < before.len() && before[i].kind_spec() == k {
                        let i = choose|i: int| 0 <= i < before.len() && before[i].kind_spec() == k;
                        old(self).lemma_filed_at(i);
                        assert(i != at);
                        assert(after[i] == before[i]);
                        self.lemma_filed_at(i);
                    } else {
                        assert(!exists|i: int| 0 <= i < after.len() && after[i].kind_spec() == k) by {
                            if exists|i: int| 0 <= i < after.len() && after[i].kind_spec() == k {
                                let i = choose|i: int| 0 <= i < after.len() && after[i].kind_spec() == k;
                                if i != at {
                                    assert(after[i] == before[i]);
                                }
                            }
                        }
                    }
                }
            }
        }
    }

    /// Everything filed, for writing the settings out.
    pub fn entries(&self) -> (filed: &[Settings])
        ensures
            filed@.len() == self.count(),
            forall|i: int| 0 <= i < filed@.len() ==> self.filed(#[trigger] filed@[i].kind_spec()) == Some(filed@[i]),
    {
        proof {
            use_type_invariant(self);
            assert forall|i: int| 0 <= i < self.by_kind@.len() implies self.filed(#[trigger] self.by_kind@[i].kind_spec()) == Some(self.by_kind@[i]) by {
                self.lemma_filed_at(i);
            }
        }
        self.by_kind.as_slice()
    }
}

impl Default for PaneSettings {
    fn default() -> (settings: Self)
        ensures
            settings.count() == 0,
            forall|kind: PaneKind| #[trigger] settings.filed(kind) is None,
    {
        PaneSettings { by_kind: Vec::new() }
    }
}

impl Clone for PaneSettings {
    fn clone(&self) -> (copy: Self)
        ensures
            forall|kind: PaneKind| #[trigger] copy.filed(kind) == self.filed(kind),
            copy.count() == self.count(),
    {
        proof { use_type_invariant(self); }
        let mut by_kind = Vec::new();
        let mut i: usize = 0;
        while i < self.by_kind.len()
            invariant
                i <= self.by_kind@.len(),
                by_kind@ == self.by_kind@.take(i as int),
            decreases self.by_kind@.len() - i,
        {
            by_kind.push(self.by_kind[i]);
            proof { assert(self.by_kind@.take(i + 1) == self.by_kind@.take(i as int).push(self.by_kind@[i as int])); }
            i += 1;
        }
        proof { assert(self.by_kind@.take(i as int) == self.by_kind@); }
        PaneSettings { by_kind }
    }
}

} // verus!
