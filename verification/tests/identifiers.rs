use sail_execution::id::{JobId, JobIdGenerator};

#[test]
fn identifiers_count_up_from_one() {
    let mut ids = JobIdGenerator::new();
    assert_eq!(ids.next().unwrap(), JobId::from(1));
    assert_eq!(ids.next().unwrap(), JobId::from(2));
}
