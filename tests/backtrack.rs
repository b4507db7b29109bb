use batsmt_tseitin::backtrack::Backtrack;

#[test]
fn pop_restores_written_values() {
    let mut t = Backtrack::new();
    t.grow(10);
    t.grow(20);
    t.push_level();
    t.set(0, 11);
    t.push_level();
    t.set(1, 21);
    t.set(0, 12);
    assert_eq!(t.vals, vec![12, 21]);
    t.pop_levels(1);
    assert_eq!(t.vals, vec![11, 20]);
    t.pop_levels(1);
    assert_eq!(t.vals, vec![10, 20]);
    assert!(t.log.is_empty());
}

#[test]
fn pop_several_levels_at_once() {
    let mut t = Backtrack::new();
    t.grow(1);
    t.push_level();
    t.set(0, 2);
    t.push_level();
    t.set(0, 3);
    t.push_level();
    t.set(0, 4);
    t.pop_levels(3);
    assert_eq!(t.get(0), 1);
    assert!(t.marks.is_empty());
}

#[test]
fn growth_survives_pop() {
    let mut t = Backtrack::new();
    t.grow(5);
    t.push_level();
    t.grow(6);
    t.set(1, 7);
    t.set(0, 8);
    t.pop_levels(1);
    assert_eq!(t.vals, vec![5, 6]);
}
