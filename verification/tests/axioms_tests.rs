use finite_groups::axioms::{identity, inverses, is_a_group, is_associative, is_closed};
use finite_groups::elements::ElementSet;
use finite_groups::operator::TestStruct;

fn elements_u32(lo: u32, hi: u32) -> ElementSet<TestStruct<u32>> {
    let mut elements: ElementSet<TestStruct<u32>> = ElementSet::new();
    for x in lo..hi {
        elements.insert(TestStruct { x });
    }
    elements
}

fn elements_i32(lo: i32, hi: i32) -> ElementSet<TestStruct<i32>> {
    let mut elements: ElementSet<TestStruct<i32>> = ElementSet::new();
    for x in lo..hi {
        elements.insert(TestStruct { x });
    }
    elements
}

#[test]
fn test_mod_12_is_closed() {
    let elements = elements_u32(0, 12);
    assert!(is_closed(&elements))
}

#[test]
fn test_mod_12_smaller_set_is_not_closed() {
    let elements = elements_u32(0, 11);
    assert!(is_closed(&elements) == false)
}

#[test]
fn test_mod_12_is_associative() {
    let elements = elements_u32(0, 12);
    assert!(is_associative(&elements))
}

#[test]
fn test_mod_12_subtraction_is_not_associative() {
    let elements = elements_i32(0, 12);
    assert!(is_associative(&elements) == false)
}

#[test]
fn test_mod_12_has_identity() {
    let elements = elements_u32(0, 12);
    assert!(identity(&elements) == Some(&TestStruct { x: 0 }))
}

#[test]
fn test_mod_12_without_0_has_no_identity() {
    let elements = elements_u32(1, 12);
    assert!(identity(&elements).is_none())
}

#[test]
fn test_mod_12_has_inverses() {
    let elements = elements_u32(0, 12);
    let inverse: Vec<(u32, u32)> = vec![
        (0, 0),
        (1, 11),
        (2, 10),
        (3, 9),
        (4, 8),
        (5, 7),
        (6, 6),
        (7, 5),
        (8, 4),
        (9, 3),
        (10, 2),
        (11, 1),
    ];

    let actual_inverses = inverses(&elements);

    let (_identity_position, mapping) = actual_inverses.unwrap();
    assert_eq!(inverse.len(), mapping.len());
    for (a, b) in inverse {
        let mut found = false;
        for i in 0..elements.len() {
            if elements.get(i).x == a {
                assert_eq!(elements.get(mapping[i]).x, b);
                found = true;
            }
        }
        assert!(found);
    }
}

#[test]
fn test_mod_12_is_a_group() {
    let elements = elements_u32(0, 12);
    assert!(is_a_group(&elements))
}

#[test]
fn test_mod_12_skipping_odd_is_a_group() {
    let mut elements: ElementSet<TestStruct<u32>> = ElementSet::new();
    for x in [0, 2, 4, 6, 8, 10] {
        elements.insert(TestStruct { x: x as u32 });
    }
    assert!(is_a_group(&elements))
}

#[test]
fn test_mod_12_larger_set_is_not_a_group() {
    let elements = elements_u32(0, 15);
    assert!(identity(&elements).is_none())
}
