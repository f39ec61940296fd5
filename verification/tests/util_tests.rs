use grocketmq::service::GrpcMessagingServer;
use grocketmq::service::MessagingServer;
use grocketmq::util::vec_to_u32;
use grocketmq::util::Error;

#[test]
fn error_messages_name_their_category() {
    assert_eq!(Error::DecodeCommandError.message(), "bad command data");
    assert_eq!(Error::IoError.message(), "io error");
    assert_eq!(Error::StreamNotReady.message(), "stream not ready");
    assert_eq!(Error::InvalidAddress("nowhere".to_string()).message(), "invalid address");
    assert_eq!(Error::FrameTooLarge.message(), "frame too large");
}

#[test]
fn vec_to_u32_reads_big_endian() {
    assert_eq!(vec_to_u32(&[0, 0, 0, 0]), 0);
    assert_eq!(vec_to_u32(&[0, 0, 0, 1]), 1);
    assert_eq!(vec_to_u32(&[1, 0, 0, 0]), 0x01000000);
    assert_eq!(vec_to_u32(&[0xFF, 0xFF, 0xFF, 0xFF]), u32::MAX);
    // extra trailing bytes are ignored
    assert_eq!(vec_to_u32(&[0, 0, 1, 2, 99, 98]), 258);
}

#[test]
fn service_stubs_construct() {
    let _server = GrpcMessagingServer::new();
    let _inner = MessagingServer::default();
}
