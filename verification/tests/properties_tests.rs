use finite_groups::axioms::{identity, is_a_group, is_associative, is_closed};
use finite_groups::elements::ElementSet;
use finite_groups::group::{GroupBuilder, GroupError};
use finite_groups::operator::TestStruct;

fn mod_12_elements(hi: u32) -> ElementSet<TestStruct<u32>> {
    let mut elements: ElementSet<TestStruct<u32>> = ElementSet::new();
    for x in 0..hi {
        elements.insert(TestStruct { x });
    }
    elements
}

fn reverse_subtraction_elements() -> ElementSet<TestStruct<u8>> {
    let mut elements: ElementSet<TestStruct<u8>> = ElementSet::new();
    for x in 0..12 {
        elements.insert(TestStruct { x: x as u8 });
    }
    elements
}

#[test]
fn test_empty_is_not_a_group() {
    let elements: ElementSet<TestStruct<u32>> = ElementSet::new();
    assert!(!is_a_group(&elements))
}

#[test]
fn test_larger_set_is_not_a_group() {
    let elements = mod_12_elements(15);
    assert!(!is_a_group(&elements))
}

#[test]
fn test_builder_rejects_larger_set() {
    let elements = mod_12_elements(15);
    let built = GroupBuilder::new(&elements).build();
    let message = match built {
        Err(error) => {
            assert!(matches!(error, GroupError::NotAGroup));
            error.message()
        }
        Ok(_) => panic!("a larger set must be rejected"),
    };
    assert_eq!(message, "elements and operator do not form a group")
}

#[test]
fn test_skipping_associativity_still_rejects() {
    let elements = mod_12_elements(11);
    let built = GroupBuilder::new(&elements).check_associativity(false).build();
    assert!(matches!(built, Err(GroupError::NotAGroup)))
}

#[test]
fn test_reverse_subtraction_axioms() {
    let elements = reverse_subtraction_elements();
    assert!(is_closed(&elements));
    assert!(identity(&elements) == Some(&TestStruct { x: 0 }));
    assert!(is_associative(&elements) == false);
    assert!(!is_a_group(&elements))
}

#[test]
fn test_reverse_subtraction_build_fails_associativity() {
    let elements = reverse_subtraction_elements();
    let built = GroupBuilder::new(&elements).build();
    let message = match built {
        Err(error) => {
            assert!(matches!(error, GroupError::NotAssociative));
            error.message()
        }
        Ok(_) => panic!("a non-associative operation must be rejected"),
    };
    assert_eq!(message, "elements and operator do not satisfy associativity")
}

#[test]
fn test_reverse_subtraction_skip_flag_accepts() {
    let elements = reverse_subtraction_elements();
    let group = GroupBuilder::new(&elements)
        .check_associativity(false)
        .build()
        .unwrap();
    assert!(group.is_abelian() == false);
    assert_eq!(group.inverse_of(&TestStruct { x: 5 }), Some(&TestStruct { x: 5 }))
}

#[test]
fn test_mod_12_inverse_of() {
    let elements = mod_12_elements(12);
    let group = GroupBuilder::new(&elements).build().unwrap();
    assert_eq!(group.inverse_of(&TestStruct { x: 1 }), Some(&TestStruct { x: 11 }));
    assert_eq!(group.inverse_of(&TestStruct { x: 6 }), Some(&TestStruct { x: 6 }));
    assert_eq!(group.inverse_of(&TestStruct { x: 20 }), None)
}

#[test]
fn test_even_subgroup_orders() {
    let mut elements: ElementSet<TestStruct<u32>> = ElementSet::new();
    for x in [0, 2, 4, 6, 8, 10] {
        elements.insert(TestStruct { x: x as u32 });
    }
    let group = GroupBuilder::new(&elements).build().unwrap();
    assert_eq!(group.identity(), &TestStruct { x: 0 });
    assert_eq!(group.possible_orders_of_subgroups(), vec![1, 2, 3, 6])
}

#[test]
fn test_inverse_is_involutive() {
    let elements = mod_12_elements(12);
    let group = GroupBuilder::new(&elements).build().unwrap();
    for x in 0..12 {
        let element = TestStruct { x };
        let inverse = group.inverse_of(&element).unwrap();
        assert_eq!(group.inverse_of(inverse), Some(&element));
    }
}

#[test]
fn test_insert_deduplicates() {
    let mut elements: ElementSet<TestStruct<u32>> = ElementSet::new();
    elements.insert(TestStruct { x: 0 });
    elements.insert(TestStruct { x: 0 });
    elements.insert(TestStruct { x: 1 });
    assert_eq!(elements.len(), 2);
    assert!(elements.contains(&TestStruct { x: 1 }));
    assert!(!elements.contains(&TestStruct { x: 2 }))
}
