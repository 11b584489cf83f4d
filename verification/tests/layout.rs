use verse::layout::{Axis, DropZone, Layout, Locks, Node, PaneEntry, PaneId};
use verse::pane::PaneKind;

fn entry(id: u32) -> PaneEntry<f32> {
    PaneEntry { id: PaneId(id), kind: PaneKind::Empty, locks: Locks::default() }
}

fn two_pane() -> Layout<f32, f32> {
    Layout {
        name: "t".into(),
        root: Node::Split {
            axis: Axis::Vertical,
            split: 0.5,
            a: Box::new(Node::leaf(PaneId(0))),
            b: Box::new(Node::leaf(PaneId(1))),
        },
        panes: vec![entry(0), entry(1)],
    }
}

fn three_pane() -> Layout<f32, f32> {
    let mut l = two_pane();
    l.split(PaneId(1), Axis::Horizontal, PaneKind::Empty);
    l
}

fn sorted(mut ids: Vec<PaneId>) -> Vec<PaneId> {
    ids.sort();
    ids
}

#[test]
fn cycle_lock_walks_the_four_states() {
    let mut l = two_pane();

    l.cycle_lock(PaneId(0), 320.0, 180.0);
    assert_eq!(l.locks(PaneId(0)).width, Some(320.0));
    assert_eq!(l.locks(PaneId(0)).height, None);

    l.cycle_lock(PaneId(0), 320.0, 180.0);
    assert_eq!(l.locks(PaneId(0)).width, None);
    assert_eq!(l.locks(PaneId(0)).height, Some(180.0));

    l.cycle_lock(PaneId(0), 320.0, 180.0);
    assert_eq!(l.locks(PaneId(0)).width, Some(320.0));
    assert_eq!(l.locks(PaneId(0)).height, Some(180.0));

    l.cycle_lock(PaneId(0), 320.0, 180.0);
    assert!(!l.locks(PaneId(0)).any(), "cycle did not return to unlocked");
}

#[test]
fn cycle_lock_returns_to_where_it_started() {
    let mut l = two_pane();
    for _ in 0..4 {
        l.cycle_lock(PaneId(0), 320.0, 180.0);
    }
    assert!(!l.locks(PaneId(0)).any());
    for _ in 0..4 {
        l.cycle_lock(PaneId(0), 320.0, 180.0);
    }
    assert!(!l.locks(PaneId(0)).any(), "cycle length is not four");
}

#[test]
fn cycling_to_both_keeps_the_height_already_held() {
    let mut l = two_pane();
    l.cycle_lock(PaneId(0), 320.0, 180.0);
    l.cycle_lock(PaneId(0), 320.0, 180.0);
    l.cycle_lock(PaneId(0), 999.0, 999.0);
    assert_eq!(l.locks(PaneId(0)).height, Some(180.0));
}

#[test]
fn a_cycle_step_names_the_axes_it_released() {
    let mut l = two_pane();
    assert!(l.cycle_lock(PaneId(0), 320.0, 180.0).is_empty());
    assert_eq!(l.cycle_lock(PaneId(0), 320.0, 180.0), vec![Axis::Vertical]);
    assert!(l.cycle_lock(PaneId(0), 320.0, 180.0).is_empty());
    assert_eq!(l.cycle_lock(PaneId(0), 320.0, 180.0).len(), 2);
}

#[test]
fn unlocking_one_axis_leaves_the_other() {
    let mut l = two_pane();
    l.cycle_lock(PaneId(0), 300.0, 200.0);
    l.cycle_lock(PaneId(0), 300.0, 200.0);
    l.cycle_lock(PaneId(0), 300.0, 200.0);
    l.unlock(PaneId(0), Axis::Vertical);
    assert_eq!(l.locks(PaneId(0)).width, None);
    assert_eq!(l.locks(PaneId(0)).height, Some(200.0));
}

#[test]
fn each_pane_locks_independently() {
    let mut l = two_pane();
    l.cycle_lock(PaneId(0), 300.0, 300.0);
    l.cycle_lock(PaneId(1), 200.0, 200.0);
    assert_eq!(l.locks(PaneId(0)).width, Some(300.0));
    assert_eq!(l.locks(PaneId(1)).width, Some(200.0), "second lock clobbered the first");
}

#[test]
fn move_pane_edge_creates_split() {
    let mut l = two_pane();
    assert!(l.move_pane(PaneId(1), PaneId(0), DropZone::Left));
    assert_eq!(l.panes.len(), 2);
    assert!(l.entry(PaneId(0)).is_some() && l.entry(PaneId(1)).is_some());
    match &l.root {
        Node::Split { axis: Axis::Vertical, a, b, .. } => {
            assert!(matches!(**a, Node::Leaf { id } if id == PaneId(1)));
            assert!(matches!(**b, Node::Leaf { id } if id == PaneId(0)));
        }
        _ => panic!("expected vertical split, got {:?}", l.root),
    }
}

#[test]
fn move_pane_center_swaps_kinds() {
    let mut l = two_pane();
    l.set_kind(PaneId(0), PaneKind::Library);
    l.set_kind(PaneId(1), PaneKind::Queue);
    assert!(l.move_pane(PaneId(0), PaneId(1), DropZone::Center));
    assert_eq!(l.kind(PaneId(0)), Some(PaneKind::Queue));
    assert_eq!(l.kind(PaneId(1)), Some(PaneKind::Library));
}

#[test]
fn move_pane_onto_self_is_noop() {
    let mut l = two_pane();
    assert!(!l.move_pane(PaneId(0), PaneId(0), DropZone::Left));
}

#[test]
fn move_pane_stays_valid_tree() {
    let mut l = two_pane();
    l.move_pane(PaneId(1), PaneId(0), DropZone::Bottom);
    let ids = sorted(l.root.pane_ids());
    let entries = sorted(l.panes.iter().map(|e| e.id).collect());
    assert_eq!(ids, entries);
}

#[test]
fn root_edge_bottom_wraps_everything() {
    let mut l = three_pane();
    let ids_before = sorted(l.root.pane_ids());
    assert!(l.move_pane_to_root_edge(PaneId(0), DropZone::Bottom));
    match &l.root {
        Node::Split { axis: Axis::Horizontal, a, b, .. } => {
            assert!(matches!(**b, Node::Leaf { id } if id == PaneId(0)));
            assert_eq!(sorted(a.pane_ids()), vec![PaneId(1), PaneId(2)]);
        }
        other => panic!("expected horizontal root split, got {other:?}"),
    }
    assert_eq!(ids_before, sorted(l.root.pane_ids()));
}

#[test]
fn root_edge_left_puts_pane_first() {
    let mut l = three_pane();
    assert!(l.move_pane_to_root_edge(PaneId(2), DropZone::Left));
    match &l.root {
        Node::Split { axis: Axis::Vertical, a, .. } => {
            assert!(matches!(**a, Node::Leaf { id } if id == PaneId(2)));
        }
        other => panic!("expected vertical root split, got {other:?}"),
    }
}

#[test]
fn root_edge_center_rejected() {
    let mut l = three_pane();
    assert!(!l.move_pane_to_root_edge(PaneId(0), DropZone::Center));
}

#[test]
fn root_edge_single_pane_noop() {
    let mut l = Layout::<f32, f32>::single("s", PaneKind::Library);
    assert!(!l.move_pane_to_root_edge(PaneId(0), DropZone::Top));
}

#[test]
fn splitting_files_a_new_pane_beside_the_old_one() {
    let mut l = Layout::<f32, f32>::single("s", PaneKind::Library);
    let created = l.split(PaneId(0), Axis::Horizontal, PaneKind::Queue).expect("split");
    assert_ne!(created, PaneId(0));
    assert_eq!(l.kind(created), Some(PaneKind::Queue));
    assert_eq!(sorted(l.root.pane_ids()), sorted(vec![PaneId(0), created]));
}

#[test]
fn closing_a_pane_hands_its_room_to_its_sibling() {
    let mut l = three_pane();
    assert!(l.close(PaneId(2)));
    assert_eq!(sorted(l.root.pane_ids()), vec![PaneId(0), PaneId(1)]);
    assert!(l.entry(PaneId(2)).is_none());
    let mut single = Layout::<f32, f32>::single("s", PaneKind::Library);
    assert!(!single.close(PaneId(0)), "the last pane was closed");
}
