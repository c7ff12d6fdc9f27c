use deptree::color::{blend_color, blend_one, highlight_color, HighlightState, Transition};
use deptree::dependency_tree::DependencyTree;
use deptree::drawing::{draw_lines, draw_tree};
use deptree::satellites::{satellite_offset, satellite_offsets};

fn half() -> Transition {
    Transition::new(1, 2).unwrap()
}

#[test]
fn leaf_is_one_circle_and_no_line() {
    let tree = DependencyTree::parse("0 a v1");
    let state = HighlightState::new(half());
    let (crates, lines) = draw_tree(tree.root(), (1, 2, 3), &state);
    assert_eq!(crates.len(), 1);
    assert_eq!(lines.len(), 0);
    assert_eq!(crates[0].node.name(), "a 1");
    assert_eq!(crates[0].color, (1, 2, 3));
    assert!(crates[0].hang.is_none());
    let tree = DependencyTree::parse("0 a v1\n1 b v1");
    let (crates, lines) = draw_tree(tree.get("b 1").unwrap(), (1, 2, 3), &state);
    assert_eq!(crates.len(), 1);
    assert_eq!(lines.len(), 0);
}

#[test]
fn circles_come_in_preorder_with_a_line_each() {
    let tree = DependencyTree::parse("0 a v1\n1 b v1\n2 d v1\n2 e v1\n1 c v1\n2 d v1");
    let state = HighlightState::new(half());
    let (crates, lines) = draw_tree(tree.root(), (0, 0, 0), &state);
    let names: Vec<&str> = crates.iter().map(|c| c.node.name()).collect();
    assert_eq!(names, vec!["a 1", "b 1", "d 1", "e 1", "c 1", "d 1"]);
    let hangs: Vec<Option<(usize, usize, usize)>> =
        crates.iter().map(|c| c.hang.map(|h| (h.parent, h.ordinal, h.siblings))).collect();
    assert_eq!(
        hangs,
        vec![None, Some((0, 0, 2)), Some((1, 0, 2)), Some((1, 1, 2)), Some((0, 1, 2)), Some((4, 0, 1))]
    );
    let ends: Vec<(usize, usize)> = lines.iter().map(|l| (l.from, l.to)).collect();
    assert_eq!(ends, vec![(0, 1), (1, 2), (1, 3), (0, 4), (4, 5)]);
    assert!(lines.iter().all(|l| l.color == (255, 255, 255)));
    assert_eq!(crates[3].hang.unwrap().steps(), 1);
    assert_eq!(crates[1].hang.unwrap().steps(), 0);
    let again = draw_lines(&crates);
    assert_eq!(again.len(), 5);
}

#[test]
fn five_children_make_a_node_wide() {
    let tree =
        DependencyTree::parse("0 a v1\n1 b v1\n2 p v1\n2 q v1\n2 r v1\n2 s v1\n2 t v1\n1 c v1\n2 p v1\n2 q v1\n2 r v1\n2 s v1");
    let state = HighlightState::new(half());
    let (crates, _) = draw_tree(tree.root(), (0, 0, 0), &state);
    assert!(!crates[0].is_wide());
    assert!(crates[1].is_wide());
    assert_eq!(crates[7].node.name(), "c 1");
    assert!(!crates[7].is_wide());
}

#[test]
fn colors_follow_the_state_of_the_build() {
    let tree = DependencyTree::parse("0 a v1\n1 b v1\n1 c v1\n1 d v1");
    let mut state = HighlightState::new(half());
    state.set_active("b 1");
    state.set_completed("c 1");
    state.set_active("d 1");
    state.set_completed("d 1");
    let base = (0x18, 0xff, 0x98);
    let (crates, _) = draw_tree(tree.root(), base, &state);
    assert_eq!(crates[0].color, base);
    assert_eq!(crates[1].color, (0x18 + 0x40, 0xfb + 2, 0x98));
    assert_eq!(crates[2].color, (0x98, 0xfb, 0x98));
    assert_eq!(crates[3].color, crates[1].color);
    assert_eq!(state.color_of(base, "c 1"), (0x98, 0xfb, 0x98));
    assert_eq!(state.color_of(base, "nobody"), base);
}

#[test]
fn blend_starts_at_the_base_and_ends_at_the_highlight() {
    let start = Transition::new(0, 7).unwrap();
    let end = Transition::new(7, 7).unwrap();
    for base in [(0, 0, 0), (0x98, 0xfb, 0x98), (10, 200, 100), (0x97, 0, 0x98)] {
        assert_eq!(blend_color(base, start), base);
        assert_eq!(blend_color(base, end), (0x98, 0xfb, 0x98));
    }
    assert_eq!(highlight_color(), (0x98, 0xfb, 0x98));
}

#[test]
fn blend_of_a_brighter_channel_starts_at_the_highlight() {
    let start = Transition::new(0, 1).unwrap();
    let end = Transition::new(1, 1).unwrap();
    assert_eq!(blend_color((255, 255, 255), start), (0x98, 0xfb, 0x98));
    assert_eq!(blend_color((255, 255, 255), end), (255, 255, 255));
}

#[test]
fn blend_rounds_down() {
    let third = Transition::new(1, 3).unwrap();
    assert_eq!(blend_one(0, 100, third), 33);
    assert_eq!(blend_one(100, 0, third), 33);
    assert_eq!(blend_one(10, 12, third), 10);
    assert_eq!(blend_one(0, 255, Transition::new(u64::MAX - 1, u64::MAX).unwrap()), 254);
    assert_eq!(blend_one(7, 7, third), 7);
}

#[test]
fn transition_lies_between_zero_and_one() {
    assert!(Transition::new(0, 1).is_some());
    assert!(Transition::new(5, 5).is_some());
    assert!(Transition::new(6, 5).is_none());
    assert!(Transition::new(0, 0).is_none());
}

#[test]
fn satellites_alternate_outwards() {
    assert_eq!(satellite_offsets(0), Vec::<i128>::new());
    assert_eq!(satellite_offsets(1), vec![0]);
    assert_eq!(satellite_offsets(6), vec![0, 1, -1, 2, -2, 3]);
    assert_eq!(satellite_offset(usize::MAX), (usize::MAX / 2) as i128 + 1);
    assert_eq!(satellite_offset(usize::MAX - 1), -((usize::MAX / 2) as i128));
}

#[test]
fn odd_fan_is_symmetric() {
    for amount in [1usize, 3, 5, 7, 21] {
        let steps = satellite_offsets(amount);
        let reach = ((amount - 1) / 2) as i128;
        assert_eq!(steps.iter().sum::<i128>(), 0);
        assert_eq!(*steps.iter().max().unwrap(), reach);
        assert_eq!(*steps.iter().min().unwrap(), -reach);
        let mut sorted = steps.clone();
        sorted.sort();
        assert_eq!(sorted, (-reach..=reach).collect::<Vec<i128>>());
    }
    let steps = satellite_offsets(4);
    assert_eq!(*steps.iter().max().unwrap(), 2);
    assert_eq!(*steps.iter().min().unwrap(), -1);
}

#[test]
fn blend_takes_the_exact_fraction() {
    // 0.7 as a 32-bit float is 11744051 / 2^24, a little less than 7 / 10.
    let t = Transition::new(11744051, 1 << 24).unwrap();
    assert_eq!(blend_one(0, 10, t), 6);
    // 0.1 as a 32-bit float is 13421773 / 2^27, a little more than 1 / 10.
    let t = Transition::new(13421773, 1 << 27).unwrap();
    assert_eq!(blend_one(0, 100, t), 10);
    assert_eq!(blend_one(0, 255, Transition::new(1, 1 << 63).unwrap()), 0);
}
