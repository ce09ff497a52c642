use lle_core::WorldState;

fn sample() -> WorldState {
    WorldState::new(vec![(0, 1), (2, 3)], vec![false, true])
}

#[test]
fn equality_is_structural() {
    let a = sample();
    let b = sample();
    let c = WorldState::new(vec![(0, 1), (2, 4)], vec![false, true]);
    let d = WorldState::new(vec![(0, 1), (2, 3)], vec![false, false]);
    assert!(a == a);
    assert!(a == b && b == a);
    assert!(a != c);
    assert!(a != d);
    assert!(a.equals(&b));
    assert!(!a.equals(&c));
}

#[test]
fn equal_states_hash_equally() {
    let a = sample();
    let b = sample();
    assert_eq!(a.hash_value(), b.hash_value());
    let c = WorldState::new(vec![(2, 3), (0, 1)], vec![false, true]);
    assert_ne!(a.hash_value(), c.hash_value());
}

#[test]
fn hash_of_empty_state() {
    let e = WorldState::new(vec![], vec![]);
    assert_eq!(e.hash_value(), 0);
    let one = WorldState::new(vec![(1, 2)], vec![true]);
    // positions: 1, then 1 * 31 + 2 = 33; their count: 33 * 31 + 1 = 1024;
    // flags: 1024 * 31 + 1 = 31745; their count: 31745 * 31 + 1 = 984096
    assert_eq!(one.hash_value(), 984096);
}

#[test]
fn deep_copy_is_independent() {
    let a = sample();
    let mut b = a.deep_copy();
    assert!(a == b);
    b.agents_positions[0] = (5, 5);
    b.gems_collected[0] = true;
    assert_eq!(a.agents_positions, vec![(0, 1), (2, 3)]);
    assert_eq!(a.gems_collected, vec![false, true]);
    assert!(a != b);
    let mut c = a.clone();
    c.agents_positions.push((9, 9));
    assert_eq!(a.agents_positions.len(), 2);
}

#[test]
fn render_lists_both_sequences() {
    let a = sample();
    assert_eq!(
        a.render(),
        "WorldState(agent_positions=[(0, 1), (2, 3)], gems_collected=[false, true])"
    );
    assert_eq!(a.render(), sample().render());
}
