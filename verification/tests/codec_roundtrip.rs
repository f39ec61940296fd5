use grocketmq::command::Command;
use grocketmq::command::RequestIdAllocator;

#[test]
fn test_encode_decode() {
    let mut ids = RequestIdAllocator::new();
    let mut command = Command::new(1, &mut ids);
    command.add_property("test-key", "value");
    command.set_body(vec![1, 2, 3]);

    let encoded = command.encode().unwrap();
    let decoded = Command::decode(&encoded).unwrap();
    assert_eq!(1, decoded.code());
    assert_eq!(0, decoded.opaque());
    assert_eq!("value", decoded.get_property("test-key").unwrap());
    assert_eq!(vec![1, 2, 3], decoded.body().unwrap());
}
