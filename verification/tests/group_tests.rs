use finite_groups::elements::ElementSet;
use finite_groups::group::GroupBuilder;
use finite_groups::operator::TestStruct;

fn mod_12_elements() -> ElementSet<TestStruct<u32>> {
    let mut elements: ElementSet<TestStruct<u32>> = ElementSet::new();
    for x in 0..12 {
        elements.insert(TestStruct { x });
    }
    elements
}

#[test]
fn test_mod_12_group() {
    let elements = mod_12_elements();
    let group = GroupBuilder::new(&elements).build().unwrap();

    assert_eq!(group.identity(), &TestStruct { x: 0 })
}

#[test]
fn test_mod_12_group_is_abelian() {
    let elements = mod_12_elements();
    let group = GroupBuilder::new(&elements).build().unwrap();

    assert!(group.is_abelian())
}

#[test]
fn test_mod_12_group_subgroup_orders() {
    let elements = mod_12_elements();
    let group = GroupBuilder::new(&elements).build().unwrap();
    println!("{:?}", &group.possible_orders_of_subgroups());
    assert_eq!(group.possible_orders_of_subgroups(), vec![1, 2, 3, 4, 6, 12])
}
