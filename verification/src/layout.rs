//! The pane layout as plain data: a binary tree of splits whose leaves are
//! panes, and one entry per pane saying what it shows and which of its
//! dimensions are held.
//!
//! The tree is generic over what a split carries (its proportion) and over the
//! measure a lock holds, because neither is read by the rules here: they only
//! ride along while panes are split, closed, moved and swapped.

use vstd::prelude::*;
use vstd::seq_lib::*;
use vstd::multiset::*;

use crate::pane::PaneKind;

verus! {

broadcast use vstd::seq_lib::group_seq_properties, vstd::multiset::group_multiset_axioms;

/// How many layout presets the app keeps.
pub const PRESET_SLOTS: usize = 10;

#[derive(Debug, Clone, Copy, PartialEq, Eq, Structural, Hash, PartialOrd, Ord)]
pub struct PaneId(pub u32);

#[derive(Debug, Clone, Copy, PartialEq, Eq, Structural)]
pub enum Axis {
    Horizontal,
    Vertical,
}

#[derive(Debug, Clone, Copy, PartialEq, Eq, Structural)]
pub enum Side {
    A,
    B,
}

/// The way from the root to a split: which child to enter at each step.
#[derive(Debug, Clone)]
pub struct SplitPath(pub Vec<Side>);

#[derive(Debug, Clone, Copy, PartialEq, Eq, Structural)]
pub enum DropZone {
    Left,
    Right,
    Top,
    Bottom,
    Center,
}

/// A node of the layout tree. `S` is what a split carries.
#[derive(Debug)]
pub enum Node<S> {
    Leaf { id: PaneId },
    Split { axis: Axis, split: S, a: Box<Node<S>>, b: Box<Node<S>> },
}

impl<S> Node<S> {
    /// The panes of this subtree, left to right.
    pub open spec fn ids(self) -> Seq<PaneId>
        decreases self,
    {
        match self {
            Node::Leaf { id } => seq![id],
            Node::Split { a, b, .. } => a.ids() + b.ids(),
        }
    }

    pub open spec fn holds(self, target: PaneId) -> bool {
        self.ids().contains(target)
    }

    pub fn leaf(id: PaneId) -> (node: Self)
        ensures
            node == (Node::<S>::Leaf { id }),
    {
        Node::Leaf { id }
    }

    pub fn pane_ids(&self) -> (ids: Vec<PaneId>)
        ensures
            ids@ == self.ids(),
    {
        let mut ids = Vec::new();
        self.collect_ids(&mut ids);
        ids
    }

    fn collect_ids(&self, out: &mut Vec<PaneId>)
        ensures
            final(out)@ == old(out)@ + self.ids(),
        decreases self,
    {
        match self {
            Node::Leaf { id } => out.push(*id),
            Node::Split { a, b, .. } => {
                a.collect_ids(out);
                b.collect_ids(out);
                assert(old(out)@ + a.ids() + b.ids() == old(out)@ + (a.ids() + b.ids()));
            },
        }
    }

    pub fn contains(&self, target: PaneId) -> (found: bool)
        ensures
            found == self.holds(target),
        decreases self,
    {
        match self {
            Node::Leaf { id } => *id == target,
            Node::Split { a, b, .. } => a.contains(target) || b.contains(target),
        }
    }
}


/// `s` with the first `target` replaced by the pair of `target` and `other`,
/// `other` first when `other_first`.
pub open spec fn splice(s: Seq<PaneId>, target: PaneId, other: PaneId, other_first: bool) -> Seq<PaneId>
    decreases s.len(),
{
    if s.len() == 0 {
        s
    } else if s[0] == target {
        (if other_first { seq![other, target] } else { seq![target, other] }) + s.drop_first()
    } else {
        seq![s[0]] + splice(s.drop_first(), target, other, other_first)
    }
}

pub proof fn lemma_splice_absent(s: Seq<PaneId>, target: PaneId, other: PaneId, other_first: bool)
    requires
        !s.contains(target),
    ensures
        splice(s, target, other, other_first) == s,
    decreases s.len(),
{
    if s.len() > 0 {
        assert(s[0] != target) by { assert(s.contains(s[0])); }
        assert(!s.drop_first().contains(target)) by {
            if s.drop_first().contains(target) {
                let i = choose|i: int| 0 <= i < s.drop_first().len() && s.drop_first()[i] == target;
                assert(s[i + 1] == target);
            }
        }
        lemma_splice_absent(s.drop_first(), target, other, other_first);
        assert(seq![s[0]] + s.drop_first() == s);
    }
}

pub proof fn lemma_splice_concat(x: Seq<PaneId>, y: Seq<PaneId>, target: PaneId, other: PaneId, other_first: bool)
    ensures
        splice(x + y, target, other, other_first) == (if x.contains(target) {
            splice(x, target, other, other_first) + y
        } else {
            x + splice(y, target, other, other_first)
        }),
    decreases x.len(),
{
    if x.len() == 0 {
        assert(x + y == y);
        assert(!x.contains(target));
    } else {
        let t = x.drop_first();
        assert((x + y).drop_first() == t + y);
        assert((x + y)[0] == x[0]);
        lemma_splice_concat(t, y, target, other, other_first);
        if x[0] == target {
            assert(x.contains(target));
        } else {
            assert(x.contains(target) == t.contains(target)) by {
                if x.contains(target) {
                    let i = choose|i: int| 0 <= i < x.len() && x[i] == target;
                    assert(t[i - 1] == target);
                }
                if t.contains(target) {
                    let i = choose|i: int| 0 <= i < t.len() && t[i] == target;
                    assert(x[i + 1] == target);
                }
            }
        }
    }
}

pub proof fn lemma_splice_multiset(s: Seq<PaneId>, target: PaneId, other: PaneId, other_first: bool)
    requires
        s.contains(target),
    ensures
        splice(s, target, other, other_first).to_multiset() == s.to_multiset().insert(other),
    decreases s.len(),
{
    let t = s.drop_first();
    assert(s == seq![s[0]] + t);
    lemma_multiset_commutative(seq![s[0]], t);
    if s[0] == target {
        let pair = if other_first { seq![other, target] } else { seq![target, other] };
        lemma_multiset_commutative(pair, t);
        assert(pair == seq![s[0]].push(other) || pair == seq![other].push(s[0]));
        assert(seq![s[0]].to_multiset() =~= Multiset::empty().insert(s[0]));
        assert(seq![other].to_multiset() =~= Multiset::empty().insert(other));
        assert(pair.to_multiset() =~= seq![s[0]].to_multiset().insert(other));
        assert(splice(s, target, other, other_first).to_multiset() =~= s.to_multiset().insert(other));
    } else {
        assert(t.contains(target)) by {
            let i = choose|i: int| 0 <= i < s.len() && s[i] == target;
            assert(t[i - 1] == target);
        }
        lemma_splice_multiset(t, target, other, other_first);
        lemma_multiset_commutative(seq![s[0]], splice(t, target, other, other_first));
        assert(splice(s, target, other, other_first).to_multiset() =~= s.to_multiset().insert(other));
    }
}

impl<S: Copy> Node<S> {
    /// This subtree with the first leaf `target` replaced by a split of `axis`
    /// carrying `split`, holding `target` and `other` (`other` first when
    /// `other_first`).
    pub open spec fn with_split(self, target: PaneId, axis: Axis, split: S, other: PaneId, other_first: bool) -> Node<S>
        decreases self,
    {
        match self {
            Node::Leaf { id } => if id == target {
                let (a, b) = if other_first { (other, target) } else { (target, other) };
                Node::Split { axis, split, a: Box::new(Node::Leaf { id: a }), b: Box::new(Node::Leaf { id: b }) }
            } else {
                self
            },
            Node::Split { axis: inner, split: held, a, b } => if a.holds(target) {
                Node::Split { axis: inner, split: held, a: Box::new(a.with_split(target, axis, split, other, other_first)), b }
            } else {
                Node::Split { axis: inner, split: held, a, b: Box::new(b.with_split(target, axis, split, other, other_first)) }
            },
        }
    }

    pub proof fn lemma_with_split_ids(self, target: PaneId, axis: Axis, split: S, other: PaneId, other_first: bool)
        ensures
            self.with_split(target, axis, split, other, other_first).ids() == splice(self.ids(), target, other, other_first),
            !self.holds(target) ==> self.with_split(target, axis, split, other, other_first) == self,
        decreases self,
    {
        match self {
            Node::Leaf { id } => {
                assert(self.ids() == seq![id]);
                assert(seq![id].drop_first() =~= Seq::<PaneId>::empty());
                assert(seq![id].contains(id));
                if id == target {
                    let pair = if other_first { seq![other, target] } else { seq![target, other] };
                    assert(pair + Seq::<PaneId>::empty() =~= pair);
                    assert(seq![other] + seq![target] =~= seq![other, target]);
                    assert(seq![target] + seq![other] =~= seq![target, other]);
                    let (x, y) = if other_first { (other, target) } else { (target, other) };
                    let n = Node::<S>::Split { axis, split, a: Box::new(Node::Leaf { id: x }), b: Box::new(Node::Leaf { id: y }) };
                    assert(n == self.with_split(target, axis, split, other, other_first));
                    assert(Node::<S>::Leaf { id: x }.ids() == seq![x]);
                    assert(Node::<S>::Leaf { id: y }.ids() == seq![y]);
                    assert(n.ids() == seq![x] + seq![y]);
                } else {
                    assert(splice(Seq::<PaneId>::empty(), target, other, other_first) == Seq::<PaneId>::empty());
                    assert(seq![id] + Seq::<PaneId>::empty() =~= seq![id]);
                }
            },
            Node::Split { a, b, .. } => {
                a.lemma_with_split_ids(target, axis, split, other, other_first);
                b.lemma_with_split_ids(target, axis, split, other, other_first);
                lemma_splice_concat(a.ids(), b.ids(), target, other, other_first);
                if !self.holds(target) {
                    assert(!a.holds(target)) by {
                        if a.holds(target) {
                            let i = choose|i: int| 0 <= i < a.ids().len() && a.ids()[i] == target;
                            assert(self.ids()[i] == target);
                        }
                    }
                    assert(!b.holds(target)) by {
                        if b.holds(target) {
                            let i = choose|i: int| 0 <= i < b.ids().len() && b.ids()[i] == target;
                            assert(self.ids()[a.ids().len() + i] == target);
                        }
                    }
                }
            },
        }
    }


    /// Whether `target` is a leaf below a split of this subtree, which is
    /// what closing or moving a pane needs: a lone leaf has nowhere to go.
    pub open spec fn removable(self, target: PaneId) -> bool {
        self is Split && self.holds(target)
    }

    /// This subtree with the leaf `target` taken out and its sibling moved up
    /// into the split that held both.
    pub open spec fn without(self, target: PaneId) -> Node<S>
        decreases self,
    {
        match self {
            Node::Leaf { .. } => self,
            Node::Split { axis, split, a, b } => if *a matches Node::Leaf { id } && id == target {
                *b
            } else if *b matches Node::Leaf { id } && id == target {
                *a
            } else if a.removable(target) {
                Node::Split { axis, split, a: Box::new(a.without(target)), b }
            } else {
                Node::Split { axis, split, a, b: Box::new(b.without(target)) }
            },
        }
    }

    pub proof fn lemma_without_ids(self, target: PaneId)
        ensures
            self.removable(target) ==> self.without(target).ids().to_multiset() == self.ids().to_multiset().remove(target),
            !self.removable(target) ==> self.without(target) == self,
        decreases self,
    {
        match self {
            Node::Leaf { .. } => {},
            Node::Split { axis, split, a, b } => {
                lemma_multiset_commutative(a.ids(), b.ids());
                a.lemma_without_ids(target);
                b.lemma_without_ids(target);
                if *a matches Node::Leaf { id } && id == target {
                    assert(a.ids() == seq![target]);
                    assert(a.ids().to_multiset() =~= Multiset::empty().insert(target));
                    assert(self.ids().to_multiset() =~= b.ids().to_multiset().insert(target));
                    assert(b.ids().to_multiset().insert(target).remove(target) =~= b.ids().to_multiset());
                } else if *b matches Node::Leaf { id } && id == target {
                    assert(b.ids() == seq![target]);
                    assert(b.ids().to_multiset() =~= Multiset::empty().insert(target));
                    assert(self.ids().to_multiset() =~= a.ids().to_multiset().insert(target));
                    assert(a.ids().to_multiset().insert(target).remove(target) =~= a.ids().to_multiset());
                } else if a.removable(target) {
                    let n = Node::Split { axis, split, a: Box::new(a.without(target)), b };
                    assert(n.ids() == a.without(target).ids() + b.ids());
                    lemma_multiset_commutative(a.without(target).ids(), b.ids());
                    assert(a.ids().to_multiset().count(target) > 0);
                    assert(n.ids().to_multiset() =~= self.ids().to_multiset().remove(target));
                } else {
                    let n = Node::Split { axis, split, a, b: Box::new(b.without(target)) };
                    assert(n.ids() == a.ids() + b.without(target).ids());
                    lemma_multiset_commutative(a.ids(), b.without(target).ids());
                    if b.removable(target) {
                        assert(b.ids().to_multiset().count(target) > 0);
                        assert(n.ids().to_multiset() =~= self.ids().to_multiset().remove(target));
                    } else {
                        let na: Node<S> = *a;
                        let nb: Node<S> = *b;
                        assert(na is Leaf ==> !na.holds(target)) by {
                            if na is Leaf && na.holds(target) {
                                assert(na.ids() == seq![na->id]);
                            }
                        }
                        assert(nb is Leaf ==> !nb.holds(target)) by {
                            if nb is Leaf && nb.holds(target) {
                                assert(nb.ids() == seq![nb->id]);
                            }
                        }
                        assert(!self.holds(target)) by {
                            if self.holds(target) {
                                let i = choose|i: int| 0 <= i < self.ids().len() && self.ids()[i] == target;
                                if i < a.ids().len() {
                                    assert(a.ids()[i] == target);
                                } else {
                                    assert(b.ids()[i - a.ids().len()] == target);
                                }
                            }
                        }
                    }
                }
            },
        }
    }

    fn remove_leaf(self, target: PaneId) -> (res: (Node<S>, bool))
        ensures
            res.0 == self.without(target),
            res.1 == self.removable(target),
        decreases self,
    {
        proof {
            self.lemma_without_ids(target);
        }
        match self {
            Node::Leaf { id } => (Node::Leaf { id }, false),
            Node::Split { axis, split, a, b } => {
                let a = *a;
                let b = *b;
                let ghost ga = a;
                let ghost gb = b;
                proof {
                    assert(self.ids() == a.ids() + b.ids());
                    ga.lemma_without_ids(target);
                    gb.lemma_without_ids(target);
                }
                let a_is = match &a {
                    Node::Leaf { id } => *id == target,
                    _ => false,
                };
                if a_is {
                    proof { assert(a.ids() == seq![target]); assert(self.ids()[0] == target); }
                    return (b, true);
                }
                let b_is = match &b {
                    Node::Leaf { id } => *id == target,
                    _ => false,
                };
                if b_is {
                    proof { assert(b.ids() == seq![target]); assert(self.ids()[a.ids().len() as int] == target); }
                    return (a, true);
                }
                let (a2, found) = a.remove_leaf(target);
                if found {
                    proof {
                        let i = choose|i: int| 0 <= i < ga.ids().len() && ga.ids()[i] == target;
                        assert(self.ids()[i] == target);
                    }
                    (Node::Split { axis, split, a: Box::new(a2), b: Box::new(b) }, true)
                } else {
                    let (b2, found) = b.remove_leaf(target);
                    proof {
                        if found {
                            let i = choose|i: int| 0 <= i < gb.ids().len() && gb.ids()[i] == target;
                            assert(self.ids()[ga.ids().len() + i] == target);
                        }
                    }
                    (Node::Split { axis, split, a: Box::new(a2), b: Box::new(b2) }, found)
                }
            },
        }
    }

    fn replace_leaf(self, target: PaneId, axis: Axis, split: S, other: PaneId, other_first: bool) -> (res: (Node<S>, bool))
        ensures
            res.0 == self.with_split(target, axis, split, other, other_first),
            res.1 == self.holds(target),
        decreases self,
    {
        match self {
            Node::Leaf { id } => {
                if id == target {
                    let (a, b) = if other_first { (other, target) } else { (target, other) };
                    (Node::Split { axis, split, a: Box::new(Node::Leaf { id: a }), b: Box::new(Node::Leaf { id: b }) }, true)
                } else {
                    (Node::Leaf { id }, false)
                }
            },
            Node::Split { axis: inner, split: held, a, b } => {
                let a = *a;
                let b = *b;
                proof {
                    assert(self.ids() == a.ids() + b.ids());
                }
                let ghost ga = a;
                let ghost gb = b;
                let (a2, found) = a.replace_leaf(target, axis, split, other, other_first);
                proof {
                    ga.lemma_with_split_ids(target, axis, split, other, other_first);
                }
                if found {
                    proof { assert(self.ids().contains(target)) by {
                        let i = choose|i: int| 0 <= i < ga.ids().len() && ga.ids()[i] == target;
                        assert(self.ids()[i] == target);
                    } }
                    (Node::Split { axis: inner, split: held, a: Box::new(a2), b: Box::new(b) }, true)
                } else {
                    let (b2, found) = b.replace_leaf(target, axis, split, other, other_first);
                    proof {
                        if found {
                            let i = choose|i: int| 0 <= i < gb.ids().len() && gb.ids()[i] == target;
                            assert(self.ids()[ga.ids().len() + i] == target);
                        } else if self.holds(target) {
                            let i = choose|i: int| 0 <= i < self.ids().len() && self.ids()[i] == target;
                            if i < ga.ids().len() {
                                assert(ga.ids()[i] == target);
                            } else {
                                assert(gb.ids()[i - ga.ids().len()] == target);
                            }
                        }
                    }
                    (Node::Split { axis: inner, split: held, a: Box::new(a2), b: Box::new(b2) }, found)
                }
            },
        }
    }
}


impl<S> Node<S> {
    /// The split nearest `target` on its way up to this subtree's root whose
    /// axis is `axis`: the path to it, and on which side of it `target` lies.
    pub open spec fn governing(self, target: PaneId, axis: Axis) -> Option<(Seq<Side>, Side)>
        decreases self,
    {
        match self {
            Node::Leaf { .. } => None,
            Node::Split { axis: inner, a, b, .. } => if a.holds(target) {
                match a.governing(target, axis) {
                    Some(g) => Some((seq![Side::A] + g.0, g.1)),
                    None => if inner == axis { Some((Seq::empty(), Side::A)) } else { None },
                }
            } else if b.holds(target) {
                match b.governing(target, axis) {
                    Some(g) => Some((seq![Side::B] + g.0, g.1)),
                    None => if inner == axis { Some((Seq::empty(), Side::B)) } else { None },
                }
            } else {
                None
            },
        }
    }

    /// The node reached by following `path` from this one.
    pub open spec fn at(self, path: Seq<Side>) -> Option<Node<S>>
        decreases path.len(),
    {
        if path.len() == 0 {
            Some(self)
        } else {
            match self {
                Node::Leaf { .. } => None,
                Node::Split { a, b, .. } => (if path[0] == Side::A { *a } else { *b }).at(path.drop_first()),
            }
        }
    }

    /// This subtree with the split at `path`, if there is one there, carrying
    /// `split` instead.
    pub open spec fn with_payload(self, path: Seq<Side>, split: S) -> Node<S>
        decreases path.len(),
    {
        match self {
            Node::Leaf { .. } => self,
            Node::Split { axis, split: held, a, b } => if path.len() == 0 {
                Node::Split { axis, split, a, b }
            } else if path[0] == Side::A {
                Node::Split { axis, split: held, a: Box::new(a.with_payload(path.drop_first(), split)), b }
            } else {
                Node::Split { axis, split: held, a, b: Box::new(b.with_payload(path.drop_first(), split)) }
            },
        }
    }

    /// The axis of the split at `path`.
    pub open spec fn axis_at(self, path: Seq<Side>) -> Option<Axis> {
        match self.at(path) {
            Some(Node::Split { axis, .. }) => Some(axis),
            _ => None,
        }
    }

    /// What the split at `path` carries.
    pub open spec fn payload_at(self, path: Seq<Side>) -> Option<S> {
        match self.at(path) {
            Some(Node::Split { split, .. }) => Some(split),
            _ => None,
        }
    }
}

impl<S: Copy> Node<S> {
    pub fn governing_split(&self, target: PaneId, axis: Axis) -> (found: Option<(SplitPath, Side)>)
        ensures
            match found {
                Some((path, side)) => self.governing(target, axis) == Some((path.0@, side)),
                None => self.governing(target, axis) is None,
            },
        decreases self,
    {
        match self {
            Node::Leaf { .. } => None,
            Node::Split { axis: inner, a, b, .. } => {
                if a.contains(target) {
                    match a.governing_split(target, axis) {
                        Some((path, side)) => {
                            let mut steps = path.0;
                            let ghost rest = steps@;
                            steps.insert(0, Side::A);
                            proof { assert(steps@ == seq![Side::A] + rest); }
                            Some((SplitPath(steps), side))
                        },
                        None => if *inner == axis {
                            let steps: Vec<Side> = Vec::new();
                            proof { assert(steps@ == Seq::<Side>::empty()); }
                            Some((SplitPath(steps), Side::A))
                        } else {
                            None
                        },
                    }
                } else if b.contains(target) {
                    match b.governing_split(target, axis) {
                        Some((path, side)) => {
                            let mut steps = path.0;
                            let ghost rest = steps@;
                            steps.insert(0, Side::B);
                            proof { assert(steps@ == seq![Side::B] + rest); }
                            Some((SplitPath(steps), side))
                        },
                        None => if *inner == axis {
                            let steps: Vec<Side> = Vec::new();
                            proof { assert(steps@ == Seq::<Side>::empty()); }
                            Some((SplitPath(steps), Side::B))
                        } else {
                            None
                        },
                    }
                } else {
                    None
                }
            },
        }
    }

    fn node_from(&self, path: &Vec<Side>, from: usize) -> (node: Option<&Node<S>>)
        requires
            from <= path.len(),
        ensures
            match node {
                Some(n) => self.at(path@.skip(from as int)) == Some(*n),
                None => self.at(path@.skip(from as int)) is None,
            },
        decreases path.len() - from,
    {
        if from == path.len() {
            proof { assert(path@.skip(from as int).len() == 0); }
            return Some(self);
        }
        proof {
            assert(path@.skip(from as int)[0] == path@[from as int]);
            assert(path@.skip(from as int).drop_first() == path@.skip(from + 1));
        }
        match self {
            Node::Leaf { .. } => None,
            Node::Split { a, b, .. } => match path[from] {
                Side::A => a.node_from(path, from + 1),
                Side::B => b.node_from(path, from + 1),
            },
        }
    }

    fn set_payload_from(self, path: &Vec<Side>, from: usize, split: S) -> (node: Node<S>)
        requires
            from <= path.len(),
        ensures
            node == self.with_payload(path@.skip(from as int), split),
        decreases path.len() - from,
    {
        proof {
            if from < path.len() {
                assert(path@.skip(from as int)[0] == path@[from as int]);
                assert(path@.skip(from as int).drop_first() == path@.skip(from + 1));
            }
        }
        match self {
            Node::Leaf { id } => Node::Leaf { id },
            Node::Split { axis, split: held, a, b } => {
                if from == path.len() {
                    Node::Split { axis, split, a, b }
                } else {
                    match path[from] {
                        Side::A => {
                            let a2 = (*a).set_payload_from(path, from + 1, split);
                            Node::Split { axis, split: held, a: Box::new(a2), b }
                        },
                        Side::B => {
                            let b2 = (*b).set_payload_from(path, from + 1, split);
                            Node::Split { axis, split: held, a, b: Box::new(b2) }
                        },
                    }
                }
            },
        }
    }
}

impl<S: Copy> Clone for Node<S> {
    fn clone(&self) -> (copy: Self)
        ensures
            copy == *self,
        decreases self,
    {
        match self {
            Node::Leaf { id } => Node::Leaf { id: *id },
            Node::Split { axis, split, a, b } => {
                let a = (**a).clone();
                let b = (**b).clone();
                Node::Split { axis: *axis, split: *split, a: Box::new(a), b: Box::new(b) }
            },
        }
    }
}

} // verus!

verus! {

/// Which dimensions of a pane are held at a size rather than following the
/// proportions of the splits above it. `width` is held along a vertical
/// split's axis, `height` along a horizontal one's.
#[derive(Debug, Clone, Copy)]
pub struct Locks<L> {
    pub width: Option<L>,
    pub height: Option<L>,
}

impl<L> Default for Locks<L> {
    fn default() -> (locks: Self)
        ensures
            locks.width is None,
            locks.height is None,
    {
        Locks { width: None, height: None }
    }
}

impl<L> Locks<L> {
    pub open spec fn held(self, axis: Axis) -> Option<L> {
        match axis {
            Axis::Vertical => self.width,
            Axis::Horizontal => self.height,
        }
    }

    pub open spec fn free() -> Self {
        Locks { width: None, height: None }
    }

    /// The lock state `cycle_lock` moves to from this one: unlocked, width,
    /// height, both, and back. `width` and `height` are what a newly held
    /// dimension is held at; a height already held stays at its size.
    pub open spec fn next(self, width: L, height: L) -> Self {
        match (self.width, self.height) {
            (None, None) => Locks { width: Some(width), height: None },
            (Some(_), None) => Locks { width: None, height: Some(height) },
            (None, Some(held)) => Locks { width: Some(width), height: Some(held) },
            (Some(_), Some(_)) => Locks::free(),
        }
    }
}

impl<L: Copy> Locks<L> {
    pub fn along(self, axis: Axis) -> (held: Option<L>)
        ensures
            held == self.held(axis),
    {
        match axis {
            Axis::Vertical => self.width,
            Axis::Horizontal => self.height,
        }
    }

    pub fn set_along(&mut self, axis: Axis, pixels: Option<L>)
        ensures
            final(self).held(axis) == pixels,
            final(self).held(cross(axis)) == old(self).held(cross(axis)),
    {
        match axis {
            Axis::Vertical => self.width = pixels,
            Axis::Horizontal => self.height = pixels,
        }
    }

    pub fn any(self) -> (locked: bool)
        ensures
            locked == (self.width is Some || self.height is Some),
    {
        self.width.is_some() || self.height.is_some()
    }

    pub fn cycled(self, width: L, height: L) -> (next: Self)
        ensures
            next == self.next(width, height),
    {
        match (self.width, self.height) {
            (None, None) => Locks { width: Some(width), height: None },
            (Some(_), None) => Locks { width: None, height: Some(height) },
            (None, Some(held)) => Locks { width: Some(width), height: Some(held) },
            (Some(_), Some(_)) => Locks { width: None, height: None },
        }
    }
}

/// The other axis.
pub open spec fn cross(axis: Axis) -> Axis {
    match axis {
        Axis::Vertical => Axis::Horizontal,
        Axis::Horizontal => Axis::Vertical,
    }
}

/// Four turns of the lock cycle bring an unlocked pane back to unlocked,
/// whatever sizes each turn offers.
pub proof fn lemma_lock_cycle_has_period_four<L>(w1: L, h1: L, w2: L, h2: L, w3: L, h3: L, w4: L, h4: L)
    ensures
        Locks::<L>::free().next(w1, h1).next(w2, h2).next(w3, h3).next(w4, h4) == Locks::<L>::free(),
        Locks::<L>::free().next(w1, h1) == (Locks { width: Some(w1), height: None }),
        Locks::<L>::free().next(w1, h1).next(w2, h2) == (Locks { width: None, height: Some(h2) }),
        Locks::<L>::free().next(w1, h1).next(w2, h2).next(w3, h3) == (Locks { width: Some(w3), height: Some(h2) }),
{
}

/// One pane: its id, what it shows, and what it holds.
#[derive(Debug, Clone, Copy)]
pub struct PaneEntry<L> {
    pub id: PaneId,
    pub kind: PaneKind,
    pub locks: Locks<L>,
}

pub open spec fn entry_ids<L>(panes: Seq<PaneEntry<L>>) -> Seq<PaneId> {
    panes.map_values(|entry: PaneEntry<L>| entry.id)
}

/// Whether `i` is the first place `id` is filed at.
pub open spec fn first_at<L>(panes: Seq<PaneEntry<L>>, id: PaneId, i: int) -> bool {
    &&& 0 <= i < panes.len()
    &&& panes[i].id == id
    &&& forall|j: int| 0 <= j < i ==> panes[j].id != id
}

/// Where the entry for `id` is, the first if there are several.
pub open spec fn slot_of<L>(panes: Seq<PaneEntry<L>>, id: PaneId) -> Option<int> {
    if exists|i: int| first_at(panes, id, i) {
        Some(choose|i: int| first_at(panes, id, i))
    } else {
        None
    }
}

pub open spec fn entry_of<L>(panes: Seq<PaneEntry<L>>, id: PaneId) -> Option<PaneEntry<L>> {
    match slot_of(panes, id) {
        Some(i) => Some(panes[i]),
        None => None,
    }
}

pub proof fn lemma_first_unique<L>(panes: Seq<PaneEntry<L>>, id: PaneId, i: int)
    requires
        first_at(panes, id, i),
    ensures
        slot_of(panes, id) == Some(i),
{
    let k = choose|k: int| first_at(panes, id, k);
    if k < i {
        assert(panes[k].id != id);
    } else if i < k {
        assert(panes[i].id != id);
    }
}

/// A value at two places of a sequence is counted at least twice.
pub proof fn lemma_two_places_count<A>(s: Seq<A>, i: int, j: int)
    requires
        0 <= i < j < s.len(),
        s[i] == s[j],
    ensures
        s.to_multiset().count(s[i]) >= 2,
{
    let left = s.take(j);
    let right = s.skip(j);
    assert(s == left + right);
    lemma_multiset_commutative(left, right);
    assert(left.contains(s[i])) by { assert(left[i] == s[i]); }
    assert(right.contains(s[i])) by { assert(right[0] == s[j]); }
}

/// Whether no value is counted more than once.
pub open spec fn unique<A>(m: Multiset<A>) -> bool {
    forall|x: A| m.count(x) <= 1
}

} // verus!

verus! {

/// A named arrangement of panes.
#[derive(Debug)]
pub struct Layout<S, L> {
    pub name: String,
    pub root: Node<S>,
    pub panes: Vec<PaneEntry<L>>,
}

/// One more than the largest id filed, or zero when nothing is.
pub open spec fn fresh_id(ids: Seq<PaneId>) -> nat
    decreases ids.len(),
{
    if ids.len() == 0 {
        0
    } else {
        let rest = fresh_id(ids.drop_last());
        if ids.last().0 + 1 > rest { (ids.last().0 + 1) as nat } else { rest }
    }
}

pub proof fn lemma_fresh_id_above(ids: Seq<PaneId>)
    ensures
        forall|i: int| 0 <= i < ids.len() ==> ids[i].0 < fresh_id(ids),
    decreases ids.len(),
{
    if ids.len() > 0 {
        lemma_fresh_id_above(ids.drop_last());
        assert forall|i: int| 0 <= i < ids.len() implies ids[i].0 < fresh_id(ids) by {
            if i < ids.len() - 1 {
                assert(ids.drop_last()[i] == ids[i]);
            }
        }
    }
}

pub proof fn lemma_fresh_id_bounded(ids: Seq<PaneId>)
    requires
        forall|i: int| 0 <= i < ids.len() ==> ids[i].0 < u32::MAX,
    ensures
        fresh_id(ids) <= u32::MAX,
    decreases ids.len(),
{
    if ids.len() > 0 {
        lemma_fresh_id_bounded(ids.drop_last());
    }
}

/// The entries with the one for `id` (the first, if several) showing `kind`.
pub open spec fn with_kind<L>(panes: Seq<PaneEntry<L>>, id: PaneId, kind: PaneKind) -> Seq<PaneEntry<L>> {
    match slot_of(panes, id) {
        Some(i) => panes.update(i, PaneEntry { kind, ..panes[i] }),
        None => panes,
    }
}

/// The entries with the one for `id` (the first, if several) holding `locks`.
pub open spec fn with_locks<L>(panes: Seq<PaneEntry<L>>, id: PaneId, locks: Locks<L>) -> Seq<PaneEntry<L>> {
    match slot_of(panes, id) {
        Some(i) => panes.update(i, PaneEntry { locks, ..panes[i] }),
        None => panes,
    }
}

/// Entries filed under the same ids in the same order are found at the same
/// places, whatever else they hold.
pub proof fn lemma_same_ids_same_slots<L>(p: Seq<PaneEntry<L>>, q: Seq<PaneEntry<L>>, id: PaneId)
    requires
        p.len() == q.len(),
        forall|i: int| 0 <= i < p.len() ==> p[i].id == q[i].id,
    ensures
        slot_of(p, id) == slot_of(q, id),
        entry_ids(p) == entry_ids(q),
{
    assert forall|i: int| first_at(p, id, i) == first_at(q, id, i) by {}
    if exists|i: int| first_at(p, id, i) {
        let i = choose|i: int| first_at(p, id, i);
        lemma_first_unique(p, id, i);
        lemma_first_unique(q, id, i);
    }
    assert(entry_ids(p) =~= entry_ids(q));
}


/// The axis a pane dropped on an edge is split along.
pub open spec fn zone_axis(zone: DropZone) -> Axis {
    match zone {
        DropZone::Left | DropZone::Right | DropZone::Center => Axis::Vertical,
        DropZone::Top | DropZone::Bottom => Axis::Horizontal,
    }
}

/// Whether a pane dropped on an edge goes before what it was dropped on.
pub open spec fn zone_first(zone: DropZone) -> bool {
    zone == DropZone::Left || zone == DropZone::Top
}

fn placement(zone: DropZone) -> (placed: Option<(Axis, bool)>)
    ensures
        zone == DropZone::Center ==> placed is None,
        zone != DropZone::Center ==> placed == Some((zone_axis(zone), zone_first(zone))),
{
    match zone {
        DropZone::Left => Some((Axis::Vertical, true)),
        DropZone::Right => Some((Axis::Vertical, false)),
        DropZone::Top => Some((Axis::Horizontal, true)),
        DropZone::Bottom => Some((Axis::Horizontal, false)),
        DropZone::Center => None,
    }
}

/// The root that results from putting `source` at one edge of the whole
/// layout, the rest of the tree `rest` filling the other side.
pub open spec fn edge_root<S>(source: PaneId, rest: Node<S>, axis: Axis, first: bool, split: S) -> Node<S> {
    if first {
        Node::Split { axis, split, a: Box::new(Node::Leaf { id: source }), b: Box::new(rest) }
    } else {
        Node::Split { axis, split, a: Box::new(rest), b: Box::new(Node::Leaf { id: source }) }
    }
}

/// A filed entry's id is among the entries' ids.
pub proof fn lemma_entry_filed<L>(panes: Seq<PaneEntry<L>>, id: PaneId)
    requires
        entry_of(panes, id) is Some,
    ensures
        entry_ids(panes).contains(id),
{
    let i = slot_of(panes, id)->0;
    assert(entry_ids(panes)[i] == id);
}


/// The axes a move from `before` to `after` lets go of, width first.
pub open spec fn released_axes<L>(before: Locks<L>, after: Locks<L>) -> Seq<Axis> {
    let v = if before.width is Some && after.width is None { seq![Axis::Vertical] } else { Seq::empty() };
    let h = if before.height is Some && after.height is None { seq![Axis::Horizontal] } else { Seq::empty() };
    v + h
}

impl<S> Node<S> {
    pub proof fn lemma_with_payload_ids(self, path: Seq<Side>, split: S)
        ensures
            self.with_payload(path, split).ids() == self.ids(),
        decreases path.len(),
    {
        match self {
            Node::Leaf { .. } => {},
            Node::Split { a, b, .. } => {
                if path.len() > 0 {
                    a.lemma_with_payload_ids(path.drop_first(), split);
                    b.lemma_with_payload_ids(path.drop_first(), split);
                }
            },
        }
    }
}

/// Two tallies in which nothing is counted twice, and which hold the same
/// things, are the same tally.
pub proof fn lemma_unique_same_support<A>(m1: Multiset<A>, m2: Multiset<A>)
    requires
        unique(m1),
        unique(m2),
        forall|x: A| m1.count(x) > 0 <==> m2.count(x) > 0,
    ensures
        m1 == m2,
{
    assert forall|x: A| m1.count(x) == m2.count(x) by {
        assert(m1.count(x) <= 1);
        assert(m2.count(x) <= 1);
    }
    assert(m1 =~= m2);
}


/// Some place holds `id`, so a first place does.
pub proof fn lemma_some_first<L>(panes: Seq<PaneEntry<L>>, id: PaneId, k: int)
    requires
        0 <= k < panes.len(),
        panes[k].id == id,
    ensures
        exists|f: int| first_at(panes, id, f),
    decreases k,
{
    if forall|j: int| 0 <= j < k ==> panes[j].id != id {
        assert(first_at(panes, id, k));
    } else {
        let j = choose|j: int| 0 <= j < k && panes[j].id != id == false;
        lemma_some_first(panes, id, j);
    }
}

fn vec_holds(ids: &Vec<PaneId>, id: PaneId) -> (found: bool)
    ensures
        found == ids@.contains(id),
{
    let mut i: usize = 0;
    while i < ids.len()
        invariant
            i <= ids.len(),
            forall|j: int| 0 <= j < i ==> ids@[j] != id,
        decreases ids.len() - i,
    {
        if ids[i] == id {
            return true;
        }
        i += 1;
    }
    false
}

impl<S, L> Layout<S, L> {
    /// The tree's panes and the entries are the same panes, each once.
    pub open spec fn wf(self) -> bool {
        &&& unique(self.root.ids().to_multiset())
        &&& self.root.ids().to_multiset() == entry_ids(self.panes@).to_multiset()
    }

    pub open spec fn entry_spec(self, id: PaneId) -> Option<PaneEntry<L>> {
        entry_of(self.panes@, id)
    }

    pub open spec fn kind_spec(self, id: PaneId) -> Option<PaneKind> {
        match self.entry_spec(id) {
            Some(entry) => Some(entry.kind),
            None => None,
        }
    }

    pub open spec fn locks_spec(self, id: PaneId) -> Locks<L> {
        match self.entry_spec(id) {
            Some(entry) => entry.locks,
            None => Locks::free(),
        }
    }

    /// The id a new pane is given.
    pub open spec fn next_id_spec(self) -> PaneId {
        PaneId(fresh_id(entry_ids(self.panes@)) as u32)
    }

    /// Every id filed leaves room for one more after it.
    pub open spec fn ids_below_max(self) -> bool {
        forall|i: int| 0 <= i < self.panes.len() ==> self.panes[i].id.0 < u32::MAX
    }
}

impl<S: Copy, L: Copy> Layout<S, L> {
    fn position(&self, id: PaneId) -> (found: Option<usize>)
        ensures
            match found {
                Some(i) => slot_of(self.panes@, id) == Some(i as int),
                None => slot_of(self.panes@, id) is None,
            },
    {
        let mut i: usize = 0;
        while i < self.panes.len()
            invariant
                i <= self.panes.len(),
                forall|j: int| 0 <= j < i ==> self.panes[j].id != id,
            decreases self.panes.len() - i,
        {
            if self.panes[i].id == id {
                proof { lemma_first_unique(self.panes@, id, i as int); }
                return Some(i);
            }
            i += 1;
        }
        None
    }

    /// A layout of one pane showing `kind`.
    pub fn single(name: &str, kind: PaneKind) -> (layout: Self)
        ensures
            layout.name@ == name@,
            layout.root == (Node::<S>::Leaf { id: PaneId(0) }),
            layout.panes@ == seq![PaneEntry { id: PaneId(0), kind, locks: Locks::<L>::free() }],
            layout.wf(),
    {
        let id = PaneId(0);
        let mut panes = Vec::new();
        panes.push(PaneEntry { id, kind, locks: Locks { width: None, height: None } });
        let layout = Layout { name: name.to_owned(), root: Node::Leaf { id }, panes };
        proof {
            assert(layout.root.ids() == seq![id]);
            assert(entry_ids(layout.panes@) =~= seq![id]);
        }
        layout
    }

    pub fn kind(&self, id: PaneId) -> (kind: Option<PaneKind>)
        ensures
            kind == self.kind_spec(id),
    {
        match self.position(id) {
            Some(i) => Some(self.panes[i].kind),
            None => None,
        }
    }

    pub fn entry(&self, id: PaneId) -> (entry: Option<&PaneEntry<L>>)
        ensures
            match entry {
                Some(e) => self.entry_spec(id) == Some(*e),
                None => self.entry_spec(id) is None,
            },
    {
        match self.position(id) {
            Some(i) => Some(&self.panes[i]),
            None => None,
        }
    }

    pub fn set_kind(&mut self, id: PaneId, kind: PaneKind)
        ensures
            final(self).panes@ == with_kind(old(self).panes@, id, kind),
            final(self).root == old(self).root,
            final(self).name == old(self).name,
            old(self).wf() ==> final(self).wf(),
    {
        if let Some(i) = self.position(id) {
            let entry = self.panes[i];
            self.panes.set(i, PaneEntry { kind, ..entry });
            proof {
                lemma_same_ids_same_slots(old(self).panes@, self.panes@, id);
            }
        }
    }

    /// Sets what the pane `id` holds, if there is such a pane.
    pub fn set_locks(&mut self, id: PaneId, locks: Locks<L>)
        ensures
            final(self).panes@ == with_locks(old(self).panes@, id, locks),
            final(self).root == old(self).root,
            final(self).name == old(self).name,
            old(self).wf() ==> final(self).wf(),
    {
        if let Some(i) = self.position(id) {
            let entry = self.panes[i];
            self.panes.set(i, PaneEntry { locks, ..entry });
            proof {
                lemma_same_ids_same_slots(old(self).panes@, self.panes@, id);
            }
        }
    }

    pub fn locks(&self, id: PaneId) -> (locks: Locks<L>)
        ensures
            locks == self.locks_spec(id),
    {
        match self.position(id) {
            Some(i) => self.panes[i].locks,
            None => Locks { width: None, height: None },
        }
    }

    pub fn is_locked(&self, id: PaneId, axis: Axis) -> (locked: bool)
        ensures
            locked == self.locks_spec(id).held(axis) is Some,
    {
        self.locks(id).along(axis).is_some()
    }


    /// Splits the pane `target` along `axis`, giving the new half to a new pane
    /// showing `kind`; the new pane's id is returned. Nothing changes when
    /// there is no such pane.
    pub fn split(&mut self, target: PaneId, axis: Axis, kind: PaneKind) -> (created: Option<PaneId>)
        where S: Default,
        requires
            old(self).ids_below_max(),
        ensures
            old(self).root.holds(target) ==> {
                &&& created == Some(old(self).next_id_spec())
                &&& exists|fresh: S| call_ensures(S::default, (), fresh) && final(self).root == old(self).root.with_split(target, axis, fresh, old(self).next_id_spec(), false)
                &&& final(self).root.ids() == splice(old(self).root.ids(), target, old(self).next_id_spec(), false)
                &&& final(self).panes@ == old(self).panes@.push(PaneEntry { id: old(self).next_id_spec(), kind, locks: Locks::free() })
            },
            !old(self).root.holds(target) ==> {
                &&& created is None
                &&& final(self).root == old(self).root
                &&& final(self).panes@ == old(self).panes@
            },
            final(self).name == old(self).name,
            old(self).wf() ==> final(self).wf(),
    {
        let new_id = self.next_id();
        let mut root = Node::Leaf { id: PaneId(0) };
        std::mem::swap(&mut root, &mut self.root);
        let ghost before = root;
        let fresh = S::default();
        let (root, found) = root.replace_leaf(target, axis, fresh, new_id, false);
        self.root = root;
        proof {
            before.lemma_with_split_ids(target, axis, fresh, new_id, false);
        }
        if !found {
            return None;
        }
        self.panes.push(PaneEntry { id: new_id, kind, locks: Locks { width: None, height: None } });
        proof {
            let old_ids = entry_ids(old(self).panes@);
            assert(entry_ids(self.panes@) =~= old_ids.push(new_id));
            assert(!old_ids.contains(new_id)) by {
                if old_ids.contains(new_id) {
                    let j = choose|j: int| 0 <= j < old_ids.len() && old_ids[j] == new_id;
                    assert(old(self).panes[j].id == new_id);
                }
            }
            lemma_splice_multiset(before.ids(), target, new_id, false);
            if old(self).wf() {
                assert(self.root.ids().to_multiset() =~= entry_ids(self.panes@).to_multiset());
                assert forall|x: PaneId| self.root.ids().to_multiset().count(x) <= 1 by {
                    if x != new_id {
                        assert(self.root.ids().to_multiset().count(x) == before.ids().to_multiset().count(x));
                    }
                }
            }
        }
        Some(new_id)
    }

    /// Closes the pane `target`, handing its room to its sibling. The last
    /// pane cannot be closed, and a pane that is not in the tree is left.
    pub fn close(&mut self, target: PaneId) -> (closed: bool)
        ensures
            closed == (old(self).panes.len() > 1 && old(self).root.removable(target)),
            closed ==> {
                &&& final(self).root == old(self).root.without(target)
                &&& final(self).panes@ == old(self).panes@.filter(|entry: PaneEntry<L>| entry.id != target)
            },
            !closed ==> final(self).root == old(self).root && final(self).panes@ == old(self).panes@,
            final(self).name == old(self).name,
            old(self).wf() ==> final(self).wf(),
    {
        if self.panes.len() <= 1 {
            return false;
        }
        let mut root = Node::Leaf { id: PaneId(0) };
        std::mem::swap(&mut root, &mut self.root);
        let ghost before = root;
        let (root, found) = root.remove_leaf(target);
        self.root = root;
        proof {
            before.lemma_without_ids(target);
        }
        if !found {
            return false;
        }
                let ghost all = old(self).panes@;
        let mut kept: Vec<PaneEntry<L>> = Vec::new();
        let mut i: usize = 0;
        while i < self.panes.len()
            invariant
                i <= self.panes.len(),
                self.panes@ == all,
                kept@ == all.take(i as int).filter(|e: PaneEntry<L>| e.id != target),
                forall|x: PaneId| #[trigger] entry_ids(kept@).to_multiset().count(x)
                    == if x == target { 0 } else { entry_ids(all.take(i as int)).to_multiset().count(x) },
            decreases self.panes.len() - i,
        {
            reveal_with_fuel(Seq::<_>::filter, 1);
            let entry = self.panes[i];
            proof {
                assert(all.take(i + 1).drop_last() =~= all.take(i as int));
                assert(all.take(i + 1).last() == entry);
                assert(entry_ids(all.take(i + 1)) =~= entry_ids(all.take(i as int)).push(entry.id));
                assert(all.take(i + 1).filter(|e: PaneEntry<L>| e.id != target) == if (entry.id != target) {
                    all.take(i as int).filter(|e: PaneEntry<L>| e.id != target).push(entry)
                } else {
                    all.take(i as int).filter(|e: PaneEntry<L>| e.id != target)
                });
            }
            if entry.id != target {
                let ghost before_kept = kept@;
                kept.push(entry);
                proof {
                    assert(entry_ids(kept@) =~= entry_ids(before_kept).push(entry.id));
                    assert((entry.id != target));
                    assert(kept@ == all.take(i + 1).filter(|e: PaneEntry<L>| e.id != target));
                }
            } else {
                proof {
                    assert(!(entry.id != target));
                    assert(kept@ == all.take(i + 1).filter(|e: PaneEntry<L>| e.id != target));
                }
            }
            i += 1;
        }
        proof {
            assert(all.take(i as int) == all);
        }
        self.panes = kept;
        proof {
            if old(self).wf() {
                let m = before.ids().to_multiset();
                assert(m.count(target) > 0);
                assert(self.root.ids().to_multiset() =~= entry_ids(self.panes@).to_multiset());
            }
        }
        true
    }


    /// Moves the pane `source` onto `target`: dropped on the middle the two
    /// exchange what they show; dropped on an edge, `source` leaves its place
    /// and shares `target`'s, on that side of it.
    pub fn move_pane(&mut self, source: PaneId, target: PaneId, zone: DropZone) -> (moved: bool)
        where S: Default,
        ensures
            zone == DropZone::Center ==> {
                &&& moved == (source != target && old(self).entry_spec(source) is Some && old(self).entry_spec(target) is Some)
                &&& final(self).root == old(self).root
                &&& moved ==> final(self).panes@ == with_kind(
                    with_kind(old(self).panes@, source, old(self).kind_spec(target)->0),
                    target,
                    old(self).kind_spec(source)->0,
                )
                &&& moved ==> final(self).kind_spec(source) == old(self).kind_spec(target)
                &&& moved ==> final(self).kind_spec(target) == old(self).kind_spec(source)
                &&& !moved ==> final(self).panes@ == old(self).panes@
            },
            zone != DropZone::Center ==> {
                &&& moved == (source != target && old(self).entry_spec(source) is Some
                    && old(self).entry_spec(target) is Some && old(self).root.removable(source))
                &&& moved ==> exists|fresh: S| call_ensures(S::default, (), fresh) && final(self).root == old(self).root.without(source).with_split(
                    target, zone_axis(zone), fresh, source, zone_first(zone))
                &&& !moved ==> final(self).root == old(self).root
                &&& final(self).panes@ == old(self).panes@
            },
            final(self).name == old(self).name,
            old(self).wf() ==> final(self).wf(),
    {
        if source == target {
            return false;
        }
        let kind_source = self.kind(source);
        let kind_target = self.kind(target);
        if kind_source.is_none() || kind_target.is_none() {
            return false;
        }
        let (axis, source_first) = match placement(zone) {
            Some(placed) => placed,
            None => {
                return self.swap_panes(source, target);
            },
        };
        let mut root = Node::Leaf { id: PaneId(0) };
        std::mem::swap(&mut root, &mut self.root);
        let ghost before = root;
        let (rest, found) = root.remove_leaf(source);
        if !found {
            proof { before.lemma_without_ids(source); }
            self.root = rest;
            return false;
        }
        let ghost middle = rest;
        let fresh = S::default();
        let (root, _) = rest.replace_leaf(target, axis, fresh, source, source_first);
        self.root = root;
        proof {
            before.lemma_without_ids(source);
            middle.lemma_with_split_ids(target, axis, fresh, source, source_first);
            if old(self).wf() {
                lemma_entry_filed(old(self).panes@, target);
                let m = before.ids().to_multiset();
                assert(m.count(target) > 0);
                assert(m.count(source) > 0);
                assert(middle.ids().to_multiset().count(target) == m.count(target));
                assert(middle.holds(target));
                lemma_splice_multiset(middle.ids(), target, source, source_first);
                assert(self.root.ids().to_multiset() =~= m);
            }
        }
        true
    }

    fn swap_panes(&mut self, a: PaneId, b: PaneId) -> (swapped: bool)
        requires
            a != b,
        ensures
            swapped == (old(self).entry_spec(a) is Some && old(self).entry_spec(b) is Some),
            swapped ==> final(self).panes@ == with_kind(
                with_kind(old(self).panes@, a, old(self).kind_spec(b)->0),
                b,
                old(self).kind_spec(a)->0,
            ),
            swapped ==> final(self).kind_spec(a) == old(self).kind_spec(b),
            swapped ==> final(self).kind_spec(b) == old(self).kind_spec(a),
            !swapped ==> final(self).panes@ == old(self).panes@,
            final(self).root == old(self).root,
            final(self).name == old(self).name,
            old(self).wf() ==> final(self).wf(),
    {
        let kind_a = self.kind(a);
        let kind_b = self.kind(b);
        match (kind_a, kind_b) {
            (Some(ka), Some(kb)) => {
                let ghost p0 = self.panes@;
                self.set_kind(a, kb);
                let ghost p1 = self.panes@;
                self.set_kind(b, ka);
                proof {
                    let ia = slot_of(p0, a)->0;
                    let ib = slot_of(p0, b)->0;
                    lemma_same_ids_same_slots(p0, p1, a);
                    lemma_same_ids_same_slots(p0, p1, b);
                    lemma_same_ids_same_slots(p1, self.panes@, a);
                    lemma_same_ids_same_slots(p1, self.panes@, b);
                    assert(ia != ib);
                }
                true
            },
            _ => false,
        }
    }

    /// Moves the pane `source` to one edge of the whole layout, the rest of
    /// the tree keeping the other side. There must be another pane to share
    /// the window with, and the middle is not an edge.
    pub fn move_pane_to_root_edge(&mut self, source: PaneId, edge: DropZone) -> (moved: bool)
        where S: Default,
        ensures
            moved == (edge != DropZone::Center && old(self).panes.len() >= 2
                && old(self).entry_spec(source) is Some && old(self).root.removable(source)),
            moved ==> exists|fresh: S| call_ensures(S::default, (), fresh) && final(self).root == edge_root(
                source, old(self).root.without(source), zone_axis(edge), zone_first(edge), fresh),
            !moved ==> final(self).root == old(self).root,
            final(self).panes@ == old(self).panes@,
            final(self).name == old(self).name,
            old(self).wf() ==> final(self).wf(),
    {
        let (axis, source_first) = match placement(edge) {
            Some(placed) => placed,
            None => {
                return false;
            },
        };
        if self.panes.len() < 2 || self.entry(source).is_none() {
            return false;
        }
        let mut root = Node::Leaf { id: PaneId(0) };
        std::mem::swap(&mut root, &mut self.root);
        let ghost before = root;
        let (rest, found) = root.remove_leaf(source);
        proof { before.lemma_without_ids(source); }
        if !found {
            self.root = rest;
            return false;
        }
        let ghost middle = rest;
        let moved = Box::new(Node::Leaf { id: source });
        let rest = Box::new(rest);
        let fresh = S::default();
        self.root = if source_first {
            Node::Split { axis, split: fresh, a: moved, b: rest }
        } else {
            Node::Split { axis, split: fresh, a: rest, b: moved }
        };
        proof {
            assert(self.root == edge_root(source, middle, axis, source_first, fresh));
            let leaf = Node::<S>::Leaf { id: source };
            assert(leaf.ids() == seq![source]);
            lemma_multiset_commutative(seq![source], middle.ids());
            lemma_multiset_commutative(middle.ids(), seq![source]);
            if old(self).wf() {
                let m = before.ids().to_multiset();
                assert(m.count(source) > 0);
                assert(seq![source].to_multiset() =~= Multiset::empty().insert(source));
                assert(self.root.ids().to_multiset() =~= m);
            }
        }
        true
    }


    /// The axis of the split at `path`, if a split is there.
    pub fn split_axis(&self, path: &SplitPath) -> (axis: Option<Axis>)
        ensures
            axis == self.root.axis_at(path.0@),
    {
        match self.root.node_from(&path.0, 0) {
            Some(Node::Split { axis, .. }) => {
                proof { assert(path.0@.skip(0) == path.0@); }
                Some(*axis)
            },
            _ => {
                proof { assert(path.0@.skip(0) == path.0@); }
                None
            },
        }
    }

    /// The node reached by following `path` from the root.
    pub fn node_at(&self, path: &SplitPath) -> (node: Option<&Node<S>>)
        ensures
            match node {
                Some(n) => self.root.at(path.0@) == Some(*n),
                None => self.root.at(path.0@) is None,
            },
    {
        proof { assert(path.0@.skip(0) == path.0@); }
        self.root.node_from(&path.0, 0)
    }

    /// What the split at `path` carries.
    pub fn split_payload(&self, path: &SplitPath) -> (split: Option<S>)
        ensures
            split == self.root.payload_at(path.0@),
    {
        proof { assert(path.0@.skip(0) == path.0@); }
        match self.root.node_from(&path.0, 0) {
            Some(Node::Split { split, .. }) => Some(*split),
            _ => None,
        }
    }

    /// Has the split at `path`, if there is one, carry `split`.
    pub fn set_split_payload(&mut self, path: &SplitPath, split: S)
        ensures
            final(self).root == old(self).root.with_payload(path.0@, split),
            final(self).root.ids() == old(self).root.ids(),
            final(self).panes@ == old(self).panes@,
            final(self).name == old(self).name,
            old(self).wf() ==> final(self).wf(),
    {
        let mut root = Node::Leaf { id: PaneId(0) };
        std::mem::swap(&mut root, &mut self.root);
        proof {
            assert(path.0@.skip(0) == path.0@);
            root.lemma_with_payload_ids(path.0@, split);
        }
        self.root = root.set_payload_from(&path.0, 0, split);
    }

    /// The pane on `side` of the split at `path`, when that side is a single
    /// pane holding its size along `axis`: a divider next to it resizes it
    /// rather than moving the split's proportion.
    pub fn pinned_pane(&self, path: &SplitPath, side: Side, axis: Axis) -> (pinned: Option<PaneId>)
        ensures
            pinned == match self.root.at(path.0@) {
                Some(Node::Split { a, b, .. }) => match (if side == Side::A { *a } else { *b }) {
                    Node::Leaf { id } => if self.locks_spec(id).held(axis) is Some { Some(id) } else { None },
                    _ => None,
                },
                _ => None,
            },
    {
        let node = match self.node_at(path) {
            Some(node) => node,
            None => return None,
        };
        match node {
            Node::Split { a, b, .. } => {
                let child: &Node<S> = match side {
                    Side::A => a,
                    Side::B => b,
                };
                match child {
                    Node::Leaf { id } => if self.is_locked(*id, axis) { Some(*id) } else { None },
                    _ => None,
                }
            },
            _ => None,
        }
    }

    /// The split nearest the pane `id` that divides along `axis`, with the
    /// side of it the pane is on.
    pub fn governing_split(&self, id: PaneId, axis: Axis) -> (found: Option<(SplitPath, Side)>)
        ensures
            match found {
                Some((path, side)) => self.root.governing(id, axis) == Some((path.0@, side)),
                None => self.root.governing(id, axis) is None,
            },
    {
        self.root.governing_split(id, axis)
    }

    /// Moves the pane `id` one step round unlocked, width, height, both. A
    /// newly held width is held at `width`, a newly held height at `height`.
    /// Answers the axes let go of, whose proportions the caller then records.
    pub fn cycle_lock(&mut self, id: PaneId, width: L, height: L) -> (released: Vec<Axis>)
        ensures
            final(self).panes@ == with_locks(old(self).panes@, id, old(self).locks_spec(id).next(width, height)),
            released@ == released_axes(old(self).locks_spec(id), old(self).locks_spec(id).next(width, height)),
            final(self).root == old(self).root,
            final(self).name == old(self).name,
            old(self).wf() ==> final(self).wf(),
    {
        let locks = self.locks(id);
        let next = locks.cycled(width, height);
        let mut released = Vec::new();
        if locks.width.is_some() && next.width.is_none() {
            released.push(Axis::Vertical);
        }
        if locks.height.is_some() && next.height.is_none() {
            released.push(Axis::Horizontal);
        }
        proof {
            let v: Seq<Axis> = if locks.width is Some && next.width is None { seq![Axis::Vertical] } else { Seq::empty() };
            let h: Seq<Axis> = if locks.height is Some && next.height is None { seq![Axis::Horizontal] } else { Seq::empty() };
            assert(released@ =~= v + h);
        }
        self.set_locks(id, next);
        released
    }

    /// Brings the entries in line with the tree: entries for panes the tree
    /// no longer holds are dropped, and a pane the tree holds without an entry
    /// gets an empty one.
    pub fn reconcile(&mut self)
        ensures
            final(self).root == old(self).root,
            final(self).name == old(self).name,
            forall|x: PaneId| entry_ids(final(self).panes@).contains(x) <==> old(self).root.holds(x),
            ({
                let kept = old(self).panes@.filter(|e: PaneEntry<L>| old(self).root.holds(e.id));
                &&& final(self).panes@.len() >= kept.len()
                &&& final(self).panes@.take(kept.len() as int) == kept
                &&& forall|i: int| kept.len() <= i < final(self).panes@.len() ==> {
                    &&& #[trigger] final(self).panes@[i].kind == PaneKind::Empty
                    &&& final(self).panes@[i].locks == Locks::<L>::free()
                }
            }),
            unique(old(self).root.ids().to_multiset()) && unique(entry_ids(old(self).panes@).to_multiset())
                ==> final(self).wf(),
    {
        let live = self.root.pane_ids();
        let ghost all = old(self).panes@;
        let ghost root = old(self).root;
        let mut kept: Vec<PaneEntry<L>> = Vec::new();
        let mut i: usize = 0;
        while i < self.panes.len()
            invariant
                i <= self.panes.len(),
                self.panes@ == all,
                self.root == root,
                self.name == old(self).name,
                live@ == root.ids(),
                kept@ == all.take(i as int).filter(|e: PaneEntry<L>| root.holds(e.id)),
                forall|x: PaneId| #[trigger] entry_ids(kept@).to_multiset().count(x)
                    <= entry_ids(all.take(i as int)).to_multiset().count(x),
                forall|x: PaneId| entry_ids(kept@).contains(x) ==> root.holds(x),
            decreases self.panes.len() - i,
        {
            reveal_with_fuel(Seq::<_>::filter, 1);
            let entry = self.panes[i];
            proof {
                assert(all.take(i + 1).drop_last() =~= all.take(i as int));
                assert(all.take(i + 1).last() == entry);
                assert(entry_ids(all.take(i + 1)) =~= entry_ids(all.take(i as int)).push(entry.id));
            }
            let alive = vec_holds(&live, entry.id);
            if alive {
                let ghost before_kept = kept@;
                kept.push(entry);
                proof {
                    assert(entry_ids(kept@) =~= entry_ids(before_kept).push(entry.id));
                    assert(kept@ == all.take(i + 1).filter(|e: PaneEntry<L>| root.holds(e.id)));
                }
            } else {
                proof {
                    assert(kept@ == all.take(i + 1).filter(|e: PaneEntry<L>| root.holds(e.id)));
                }
            }
            i += 1;
        }
        proof {
            assert(all.take(i as int) == all);
        }
        let ghost kept_part = kept@;
        self.panes = kept;
        let mut j: usize = 0;
        while j < live.len()
            invariant
                j <= live.len(),
                live@ == root.ids(),
                self.root == root,
                self.name == old(self).name,
                self.panes@.len() >= kept_part.len(),
                self.panes@.take(kept_part.len() as int) == kept_part,
                forall|k: int| kept_part.len() <= k < self.panes@.len() ==> {
                    &&& #[trigger] self.panes@[k].kind == PaneKind::Empty
                    &&& self.panes@[k].locks == Locks::<L>::free()
                },
                forall|x: PaneId| entry_ids(self.panes@).contains(x) ==> root.holds(x),
                forall|k: int| 0 <= k < j ==> entry_ids(self.panes@).contains(#[trigger] live@[k]),
                forall|x: PaneId| #[trigger] entry_ids(self.panes@).to_multiset().count(x)
                    <= entry_ids(kept_part).to_multiset().count(x) + 1,
                forall|x: PaneId| entry_ids(kept_part).to_multiset().count(x) == 0 ==>
                    #[trigger] entry_ids(self.panes@).to_multiset().count(x) <= 1,
                forall|x: PaneId| entry_ids(kept_part).to_multiset().count(x) > 0 ==>
                    #[trigger] entry_ids(self.panes@).to_multiset().count(x) == entry_ids(kept_part).to_multiset().count(x),
            decreases live.len() - j,
        {
            let id = live[j];
            if self.position(id).is_none() {
                let ghost before = self.panes@;
                self.panes.push(PaneEntry { id, kind: PaneKind::Empty, locks: Locks { width: None, height: None } });
                proof {
                    assert(entry_ids(self.panes@) =~= entry_ids(before).push(id));
                    assert(self.panes@.take(kept_part.len() as int) =~= before.take(kept_part.len() as int));
                    assert(!entry_ids(before).contains(id)) by {
                        if entry_ids(before).contains(id) {
                            let k = choose|k: int| 0 <= k < entry_ids(before).len() && entry_ids(before)[k] == id;
                            assert(before[k].id == id);
                            assert(exists|f: int| first_at(before, id, f)) by {
                                lemma_some_first(before, id, k);
                            }
                        }
                    }
                    assert(entry_ids(before).to_multiset().count(id) == 0);
                    assert(entry_ids(kept_part).to_multiset().count(id) == 0) by {
                        if entry_ids(kept_part).to_multiset().count(id) > 0 {
                            assert(entry_ids(before).to_multiset().count(id) > 0);
                        }
                    }
                    assert(root.holds(id)) by { assert(root.ids()[j as int] == id); }
                    assert(entry_ids(self.panes@)[self.panes@.len() - 1] == id);
                }
            } else {
                proof {
                    let k = slot_of(self.panes@, id)->0;
                    assert(entry_ids(self.panes@)[k] == id);
                }
            }
            j += 1;
        }
        proof {
            let after = entry_ids(self.panes@).to_multiset();
            let rm = root.ids().to_multiset();
            assert forall|x: PaneId| after.count(x) > 0 <==> rm.count(x) > 0 by {
                if rm.count(x) > 0 {
                    assert(root.ids().contains(x));
                    let k = choose|k: int| 0 <= k < root.ids().len() && root.ids()[k] == x;
                    assert(entry_ids(self.panes@).contains(live@[k]));
                }
                if after.count(x) > 0 {
                    assert(entry_ids(self.panes@).contains(x));
                    assert(root.holds(x));
                    assert(root.ids().contains(x));
                }
            }
            if unique(rm) && unique(entry_ids(all).to_multiset()) {
                assert forall|x: PaneId| after.count(x) <= 1 by {
                    assert(entry_ids(kept_part).to_multiset().count(x) <= entry_ids(all).to_multiset().count(x));
                }
                lemma_unique_same_support(rm, after);
            }
        }
    }


    /// Lets go of the pane `id`'s hold along `axis`.
    pub fn unlock(&mut self, id: PaneId, axis: Axis)
        ensures
            final(self).panes@ == with_locks(old(self).panes@, id, ({
                let held = old(self).locks_spec(id);
                match axis {
                    Axis::Vertical => Locks { width: None, height: held.height },
                    Axis::Horizontal => Locks { width: held.width, height: None },
                }
            })),
            final(self).root == old(self).root,
            final(self).name == old(self).name,
            old(self).wf() ==> final(self).wf(),
    {
        if self.position(id).is_some() {
            let mut locks = self.locks(id);
            locks.set_along(axis, None);
            proof {
                let held = old(self).locks_spec(id);
                assert(locks == match axis {
                    Axis::Vertical => Locks { width: None, height: held.height },
                    Axis::Horizontal => Locks { width: held.width, height: None },
                });
            }
            self.set_locks(id, locks);
        }
    }

    fn next_id(&self) -> (id: PaneId)
        requires
            self.ids_below_max(),
        ensures
            id == self.next_id_spec(),
            forall|i: int| 0 <= i < self.panes.len() ==> self.panes[i].id != id,
    {
        let ghost ids = entry_ids(self.panes@);
        proof {
            lemma_fresh_id_above(ids);
            lemma_fresh_id_bounded(ids);
        }
        let mut best: Option<u32> = None;
        let mut i: usize = 0;
        while i < self.panes.len()
            invariant
                i <= self.panes.len(),
                ids == entry_ids(self.panes@),
                self.ids_below_max(),
                best is None <==> i == 0,
                best matches Some(b) ==> b + 1 == fresh_id(ids.take(i as int)),
            decreases self.panes.len() - i,
        {
            let v = self.panes[i].id.0;
            proof {
                assert(ids.take(i + 1).drop_last() == ids.take(i as int));
                assert(ids.take(i + 1).last() == self.panes[i as int].id);
                assert(ids.take(0) =~= Seq::<PaneId>::empty());
            }
            proof {
                let t = ids.take(i + 1);
                assert(t.len() > 0);
                assert(fresh_id(t) == if v + 1 > fresh_id(t.drop_last()) {
                    (v + 1) as nat
                } else {
                    fresh_id(t.drop_last())
                });
            }
            best = match best {
                None => Some(v),
                Some(b) => Some(if v > b { v } else { b }),
            };
            i += 1;
        }
        proof {
            assert(ids.take(i as int) == ids);
            assert(ids.len() == 0 ==> fresh_id(ids) == 0);
        }
        let id = match best {
            None => PaneId(0),
            Some(b) => PaneId(b + 1),
        };
        proof {
            assert forall|j: int| 0 <= j < self.panes.len() implies self.panes[j].id != id by {
                assert(ids[j] == self.panes[j].id);
            }
        }
        id
    }
}

} // verus!

verus! {

impl<S: Copy, L: Copy> Clone for Layout<S, L> {
    fn clone(&self) -> (copy: Self)
        ensures
            copy.name@ == self.name@,
            copy.root == self.root,
            copy.panes@ == self.panes@,
    {
        let mut panes = Vec::new();
        let mut i: usize = 0;
        while i < self.panes.len()
            invariant
                i <= self.panes.len(),
                panes@ == self.panes@.take(i as int),
            decreases self.panes.len() - i,
        {
            panes.push(self.panes[i]);
            proof { assert(self.panes@.take(i + 1) == self.panes@.take(i as int).push(self.panes@[i as int])); }
            i += 1;
        }
        proof { assert(self.panes@.take(i as int) == self.panes@); }
        Layout { name: self.name.clone(), root: self.root.clone(), panes }
    }
}

impl<S: Copy, L: Copy> Default for Layout<S, L> {
    fn default() -> (layout: Self)
        ensures
            layout.name@ == "Default"@,
            layout.root == (Node::<S>::Leaf { id: PaneId(0) }),
            layout.panes@ == seq![PaneEntry { id: PaneId(0), kind: PaneKind::Library, locks: Locks::<L>::free() }],
            layout.wf(),
    {
        Self::single("Default", PaneKind::Library)
    }
}


/// The presets a fresh configuration starts with: "Browsing", the library
/// beside the queue, whose width is held, split by `browsing`; and "Library",
/// the library alone.
pub fn default_presets<S: Copy, L: Copy>(browsing: S, queue_width: L) -> (presets: Vec<Layout<S, L>>)
    ensures
        presets@.len() == 2,
        presets@[0].name@ == "Browsing"@,
        presets@[0].root == (Node::Split {
            axis: Axis::Vertical,
            split: browsing,
            a: Box::new(Node::<S>::Leaf { id: PaneId(0) }),
            b: Box::new(Node::<S>::Leaf { id: PaneId(1) }),
        }),
        presets@[0].panes@ == seq![
            PaneEntry { id: PaneId(0), kind: PaneKind::Library, locks: Locks::<L>::free() },
            PaneEntry { id: PaneId(1), kind: PaneKind::Queue, locks: Locks { width: Some(queue_width), height: None } },
        ],
        presets@[1].name@ == "Library"@,
        presets@[1].root == (Node::<S>::Leaf { id: PaneId(0) }),
        presets@[1].panes@ == seq![PaneEntry { id: PaneId(0), kind: PaneKind::Library, locks: Locks::<L>::free() }],
        forall|i: int| 0 <= i < 2 ==> #[trigger] presets@[i].wf(),
{
    let mut panes = Vec::new();
    panes.push(PaneEntry { id: PaneId(0), kind: PaneKind::Library, locks: Locks { width: None, height: None } });
    panes.push(PaneEntry { id: PaneId(1), kind: PaneKind::Queue, locks: Locks { width: Some(queue_width), height: None } });
    let browse = Layout {
        name: String::from_str("Browsing"),
        root: Node::Split {
            axis: Axis::Vertical,
            split: browsing,
            a: Box::new(Node::Leaf { id: PaneId(0) }),
            b: Box::new(Node::Leaf { id: PaneId(1) }),
        },
        panes,
    };
    proof {
        let ids = seq![PaneId(0), PaneId(1)];
        assert(Node::<S>::Leaf { id: PaneId(0) }.ids() == seq![PaneId(0)]);
        assert(Node::<S>::Leaf { id: PaneId(1) }.ids() == seq![PaneId(1)]);
        assert(browse.root.ids() =~= ids);
        assert(entry_ids(browse.panes@) =~= ids);
        broadcast use vstd::seq_lib::group_to_multiset_ensures;
        assert(ids =~= Seq::<PaneId>::empty().push(PaneId(0)).push(PaneId(1)));
        assert forall|x: PaneId| ids.to_multiset().count(x) <= 1 by {
            assert(ids.to_multiset() =~= Multiset::<PaneId>::empty().insert(PaneId(0)).insert(PaneId(1)));
        }
        assert(browse.panes@ =~= seq![
            PaneEntry { id: PaneId(0), kind: PaneKind::Library, locks: Locks::<L>::free() },
            PaneEntry { id: PaneId(1), kind: PaneKind::Queue, locks: Locks { width: Some(queue_width), height: None } },
        ]);
    }
    let library = Layout::single("Library", PaneKind::Library);
    let mut presets = Vec::new();
    presets.push(browse);
    presets.push(library);
    presets
}

/// What moving `source` onto `target` at `zone` does, as `moved` answers:
/// dropped on the centre the two exchange what they show, dropped on a side
/// `source` leaves its place and shares `target`'s on that side; either way
/// only when both are filed, they differ, and, for a side, `source` can leave.
pub open spec fn pane_moved<S: Copy + Default, L>(
    before: Layout<S, L>,
    after: Layout<S, L>,
    source: PaneId,
    target: PaneId,
    zone: DropZone,
    moved: bool,
) -> bool {
    &&& zone == DropZone::Center ==> {
        &&& moved == (source != target && before.entry_spec(source) is Some && before.entry_spec(target) is Some)
        &&& after.root == before.root
        &&& moved ==> after.panes@ == with_kind(
            with_kind(before.panes@, source, before.kind_spec(target)->0),
            target,
            before.kind_spec(source)->0,
        )
        &&& moved ==> after.kind_spec(source) == before.kind_spec(target)
        &&& moved ==> after.kind_spec(target) == before.kind_spec(source)
        &&& !moved ==> after.panes@ == before.panes@
    }
    &&& zone != DropZone::Center ==> {
        &&& moved == (source != target && before.entry_spec(source) is Some && before.entry_spec(target) is Some
            && before.root.removable(source))
        &&& moved ==> exists|fresh: S| call_ensures(S::default, (), fresh) && after.root == before.root.without(source).with_split(
            target,
            zone_axis(zone),
            fresh,
            source,
            zone_first(zone),
        )
        &&& !moved ==> after.root == before.root
        &&& after.panes@ == before.panes@
    }
    &&& after.name == before.name
    &&& before.wf() ==> after.wf()
}

/// What moving `source` to the `edge` of the whole layout does, as `moved`
/// answers: only for an edge rather than the centre, with two panes or more,
/// `source` filed and able to leave its place, it leaves it and takes that
/// side of everything else.
pub open spec fn edge_moved<S: Copy + Default, L>(before: Layout<S, L>, after: Layout<S, L>, source: PaneId, edge: DropZone, moved: bool) -> bool {
    &&& moved == (edge != DropZone::Center && before.panes.len() >= 2 && before.entry_spec(source) is Some
        && before.root.removable(source))
    &&& moved ==> exists|fresh: S| call_ensures(S::default, (), fresh) && after.root == edge_root(
        source,
        before.root.without(source),
        zone_axis(edge),
        zone_first(edge),
        fresh,
    )
    &&& !moved ==> after.root == before.root
    &&& after.panes@ == before.panes@
    &&& after.name == before.name
    &&& before.wf() ==> after.wf()
}

/// What a pane's locks are called in its options.
pub open spec fn lock_text<L>(locks: Locks<L>) -> Seq<char> {
    match (locks.width, locks.height) {
        (None, None) => "Free"@,
        (Some(_), None) => "Width locked"@,
        (None, Some(_)) => "Height locked"@,
        (Some(_), Some(_)) => "Width and height locked"@,
    }
}

/// The icon a pane's options draw for its locks, one for each state.
#[derive(Debug, Clone, Copy, PartialEq, Eq, Structural)]
pub enum LockIcon {
    Unlock,
    LockWidth,
    LockHeight,
    LockBoth,
}

/// The icon for each state of a pane's locks.
pub open spec fn lock_icon<L>(locks: Locks<L>) -> LockIcon {
    match (locks.width, locks.height) {
        (None, None) => LockIcon::Unlock,
        (Some(_), None) => LockIcon::LockWidth,
        (None, Some(_)) => LockIcon::LockHeight,
        (Some(_), Some(_)) => LockIcon::LockBoth,
    }
}

/// How a pane's options show its locks: an icon and a name, each of the four
/// states its own.
pub fn lock_glyph<L>(locks: &Locks<L>) -> (glyph: (LockIcon, &'static str))
    ensures
        glyph.0 == lock_icon(*locks),
        glyph.1@ == lock_text(*locks),
{
    match (&locks.width, &locks.height) {
        (None, None) => (LockIcon::Unlock, "Free"),
        (Some(_), None) => (LockIcon::LockWidth, "Width locked"),
        (None, Some(_)) => (LockIcon::LockHeight, "Height locked"),
        (Some(_), Some(_)) => (LockIcon::LockBoth, "Width and height locked"),
    }
}

/// No two states of a pane's locks share an icon.
pub proof fn lemma_lock_icons_differ<L>(a: Locks<L>, b: Locks<L>)
    requires
        a.width is Some != b.width is Some || a.height is Some != b.height is Some,
    ensures
        lock_icon(a) != lock_icon(b),
{
}

impl<S: Copy> Node<S> {
    /// Taking a pane out of a tree in which each pane appears once leaves the
    /// others in the order they had, left to right: the closed pane is cut
    /// out of the sequence where it stood and nothing else moves.
    pub proof fn lemma_without_keeps_order(self, target: PaneId)
        requires
            self.removable(target),
            self.ids().no_duplicates(),
        ensures
            exists|i: int|
                0 <= i < self.ids().len() && #[trigger] self.ids()[i] == target && self.without(target).ids()
                    == self.ids().take(i) + self.ids().skip(i + 1),
        decreases self,
    {
        match self {
            Node::Leaf { .. } => {},
            Node::Split { axis, split, a, b } => {
                let x = a.ids();
                let y = b.ids();
                assert(self.ids() == x + y);
                if *a matches Node::Leaf { id } && id == target {
                    assert(x == seq![target]);
                    assert((x + y)[0] == target);
                    assert((x + y).take(0) + (x + y).skip(1) =~= y);
                } else if *b matches Node::Leaf { id } && id == target {
                    assert(y == seq![target]);
                    assert((x + y)[x.len() as int] == target);
                    assert((x + y).take(x.len() as int) + (x + y).skip(x.len() as int + 1) =~= x);
                } else if a.removable(target) {
                    assert(x.no_duplicates()) by {
                        assert forall|p: int, q: int| 0 <= p < x.len() && 0 <= q < x.len() && p != q implies x[p]
                            != x[q] by {
                            assert((x + y)[p] == x[p] && (x + y)[q] == x[q]);
                        }
                    }
                    a.lemma_without_keeps_order(target);
                    let i = choose|i: int|
                        0 <= i < x.len() && #[trigger] x[i] == target && a.without(target).ids() == x.take(i) + x.skip(
                            i + 1,
                        );
                    assert((x + y)[i] == target);
                    assert(self.without(target).ids() == a.without(target).ids() + y);
                    assert((x.take(i) + x.skip(i + 1)) + y =~= (x + y).take(i) + (x + y).skip(i + 1));
                } else {
                    let na: Node<S> = *a;
                    let nb: Node<S> = *b;
                    assert(!na.holds(target)) by {
                        if na.holds(target) {
                            if na is Leaf {
                                assert(na.ids() == seq![na->id]);
                            }
                        }
                    }
                    assert(nb.holds(target)) by {
                        let k = choose|k: int| 0 <= k < (x + y).len() && (x + y)[k] == target;
                        if k < x.len() {
                            assert(x[k] == target);
                            assert(x.contains(target));
                        } else {
                            assert(y[k - x.len()] == target);
                        }
                    }
                    assert(nb is Split) by {
                        if nb is Leaf {
                            assert(nb.ids() == seq![nb->id]);
                            assert(y[0] == target);
                        }
                    }
                    assert(y.no_duplicates()) by {
                        assert forall|p: int, q: int| 0 <= p < y.len() && 0 <= q < y.len() && p != q implies y[p]
                            != y[q] by {
                            assert((x + y)[x.len() + p] == y[p] && (x + y)[x.len() + q] == y[q]);
                        }
                    }
                    nb.lemma_without_keeps_order(target);
                    let i = choose|i: int|
                        0 <= i < y.len() && #[trigger] y[i] == target && nb.without(target).ids() == y.take(i) + y.skip(
                            i + 1,
                        );
                    let j = x.len() + i;
                    assert((x + y)[j] == target);
                    assert(self.without(target).ids() == x + nb.without(target).ids());
                    assert(x + (y.take(i) + y.skip(i + 1)) =~= (x + y).take(j) + (x + y).skip(j + 1));
                }
            },
        }
    }
}

} // verus!
