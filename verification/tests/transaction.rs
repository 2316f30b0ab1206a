use comm::transaction::TransactionIdGenerator;

#[test]
fn test_generate_id() {
    let mut generator = TransactionIdGenerator::new();
    assert_eq!(generator.generate(), 1);
    assert_eq!(generator.generate(), 2);
}
