use storage::topics::RecordTopics;

#[test]
fn topics_are_numbered_as_recorded() {
    assert_eq!(RecordTopics::Example.topic(), 0);
    assert_eq!(RecordTopics::ExamplePriorityQueue.topic(), 5);
    assert_eq!(RecordTopics::CyclesCharge.topic(), 249);
    assert_eq!(RecordTopics::Permission.topic(), 253);
    assert_eq!(RecordTopics::Initial.topic(), 255);
}

#[test]
fn topics_lists_every_name_in_order() {
    let names = RecordTopics::topics();
    assert_eq!(
        names,
        vec![
            "Example",
            "ExampleCell",
            "ExampleVec",
            "ExampleMap",
            "ExampleLog",
            "ExamplePriorityQueue",
            "CyclesCharge",
            "Upgrade",
            "Schedule",
            "Record",
            "Permission",
            "Pause",
            "Initial",
        ]
    );
}

#[test]
fn topics_parse_by_exact_name() {
    assert_eq!(RecordTopics::from("Upgrade").unwrap(), RecordTopics::Upgrade);
    assert_eq!(RecordTopics::from("ExampleLog").unwrap(), RecordTopics::ExampleLog);
    assert!(RecordTopics::from("upgrade").is_err());
    assert!(RecordTopics::from("Unknown").is_err());
    assert!(matches!(
        RecordTopics::from(""),
        Err(strum::ParseError::VariantNotFound)
    ));
}
