use temporary_store::base_types::{ObjectDigest, ObjectRef, SequenceNumber, SuiAddress};
use temporary_store::object::Owner;
use temporary_store::publish::FullNodeBuildPublishTransactionTest;

fn reference(low: u128) -> ObjectRef {
    ((0, low), SequenceNumber { value: 1 }, ObjectDigest { high: 0, low: 0 })
}

#[test]
fn the_case_has_a_name_and_a_description() {
    let case = FullNodeBuildPublishTransactionTest;
    assert_eq!(case.name(), "FullNodeBuildPublishTransaction");
    assert_eq!(case.description(), "Test building publish transaction via full node");
}

#[test]
fn the_budget_is_ten_thousand_units() {
    let case = FullNodeBuildPublishTransactionTest;
    assert_eq!(case.gas_budget(1000), 10_000_000);
    assert_eq!(case.gas_budget(0), 0);
}

#[test]
fn the_package_is_the_first_immutable_object() {
    let case = FullNodeBuildPublishTransactionTest;
    let owned = Owner::AddressOwner(SuiAddress { high: 0, low: 7 });
    let created = [
        (reference(1), owned),
        (reference(2), Owner::Immutable),
        (reference(3), Owner::Immutable),
    ];
    assert_eq!(case.published(&created), Some(reference(2)));
    assert_eq!(case.published(&created[..1]), None);
    assert_eq!(case.published(&[]), None);
}
