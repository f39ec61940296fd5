use grocketmq::command::Command;
use grocketmq::command::RequestIdAllocator;
use grocketmq::util::vec_to_u32;
use grocketmq::util::Error;

#[test]
fn opaque_ids_are_distinct() {
    let mut ids = RequestIdAllocator::new();
    let mut seen: Vec<usize> = Vec::new();
    for _ in 0..10 {
        let c = Command::new(7, &mut ids);
        assert!(!seen.contains(&c.opaque()));
        seen.push(c.opaque());
    }
    assert_eq!(seen.len(), 10);
}

#[test]
fn new_command_defaults() {
    let mut ids = RequestIdAllocator::new();
    let c = Command::new(42, &mut ids);
    assert_eq!(c.code(), 42);
    assert_eq!(c.opaque(), 0);
    assert!(c.body().is_none());
    assert!(c.get_property("anything").is_none());
}

#[test]
fn add_property_replaces_existing_key() {
    let mut ids = RequestIdAllocator::new();
    let mut c = Command::new(1, &mut ids);
    c.add_property("k", "v1");
    c.add_property("k", "v2");
    c.add_property("other", "x");
    assert_eq!("v2", c.get_property("k").unwrap());
    assert_eq!("x", c.get_property("other").unwrap());
}

#[test]
fn encoded_frame_has_exact_canonical_layout() {
    let mut ids = RequestIdAllocator::new();
    let c = Command::new(1, &mut ids);
    let encoded = c.encode().unwrap();
    let expected_header = "{\"code\":1,\"flag\":0,\"language\":12,\"opaque\":0,\"remark\":\"\",\"ext_fields\":{}}";
    let hlen = expected_header.len();
    // total_length counts everything after itself
    assert_eq!(vec_to_u32(&encoded[0..4]) as usize, encoded.len() - 4);
    assert_eq!(vec_to_u32(&encoded[4..8]) as usize, hlen);
    assert_eq!(&encoded[8..8 + hlen], expected_header.as_bytes());
    assert_eq!(encoded.len(), 8 + hlen);
}

#[test]
fn roundtrip_with_escapes_and_unicode() {
    let mut ids = RequestIdAllocator::new();
    let mut c = Command::new(3, &mut ids);
    c.add_property("quote\"key", "back\\slash");
    c.add_property("ctl\u{1}", "tab\there");
    c.add_property("uni", "caf\u{e9} \u{1F600}");
    c.set_body(vec![0, 255, 128]);
    let encoded = c.encode().unwrap();
    let d = Command::decode(&encoded).unwrap();
    assert_eq!("back\\slash", d.get_property("quote\"key").unwrap());
    assert_eq!("tab\there", d.get_property("ctl\u{1}").unwrap());
    assert_eq!("caf\u{e9} \u{1F600}", d.get_property("uni").unwrap());
    assert_eq!(vec![0u8, 255, 128], d.body().unwrap());
}

#[test]
fn roundtrip_empty_body_is_empty() {
    let mut ids = RequestIdAllocator::new();
    let c = Command::new(9, &mut ids);
    let encoded = c.encode().unwrap();
    let d = Command::decode(&encoded).unwrap();
    assert_eq!(d.body().unwrap(), &[] as &[u8]);
}

#[test]
fn decode_rejects_short_input() {
    assert!(matches!(Command::decode(&[0, 0, 0]), Err(Error::DecodeCommandError)));
    assert!(matches!(Command::decode(&[0, 0, 0, 4, 0, 0, 0]), Err(Error::DecodeCommandError)));
}

#[test]
fn decode_rejects_inconsistent_lengths() {
    // header_length exceeds what total_length leaves room for
    let mut frame = vec![0, 0, 0, 5, 0, 0, 0, 9];
    frame.push(b'{');
    assert!(matches!(Command::decode(&frame), Err(Error::DecodeCommandError)));
    // total_length runs past the supplied slice
    let frame2 = vec![0, 0, 0, 200, 0, 0, 0, 4];
    assert!(matches!(Command::decode(&frame2), Err(Error::DecodeCommandError)));
}

#[test]
fn decode_rejects_garbage_header() {
    let header = b"not json at all";
    let hlen = header.len() as u32;
    let total = 4 + hlen;
    let mut frame = Vec::new();
    frame.extend_from_slice(&total.to_be_bytes());
    frame.extend_from_slice(&hlen.to_be_bytes());
    frame.extend_from_slice(header);
    assert!(matches!(Command::decode(&frame), Err(Error::DecodeCommandError)));
}

fn frame_with_header(header: &str) -> Vec<u8> {
    let hlen = header.len() as u32;
    let total = 4 + hlen;
    let mut frame = Vec::new();
    frame.extend_from_slice(&total.to_be_bytes());
    frame.extend_from_slice(&hlen.to_be_bytes());
    frame.extend_from_slice(header.as_bytes());
    frame
}

#[test]
fn decode_rejects_repeated_ext_keys() {
    let header = "{\"code\":1,\"flag\":0,\"language\":12,\"opaque\":0,\"remark\":\"\",\"ext_fields\":{\"a\":\"1\",\"a\":\"2\"}}";
    assert!(Command::decode(&frame_with_header(header)).is_err());
}

#[test]
fn decode_rejects_out_of_range_fields() {
    let header = "{\"code\":300,\"flag\":0,\"language\":12,\"opaque\":0,\"remark\":\"\",\"ext_fields\":{}}";
    assert!(Command::decode(&frame_with_header(header)).is_err());
}

#[test]
fn decode_accepts_only_the_canonical_header_text() {
    let spaced = "{\"code\": 1,\"flag\":0,\"language\":12,\"opaque\":0,\"remark\":\"\",\"ext_fields\":{}}";
    assert!(Command::decode(&frame_with_header(spaced)).is_err());
    let canonical = "{\"code\":1,\"flag\":0,\"language\":12,\"opaque\":0,\"remark\":\"\",\"ext_fields\":{}}";
    let decoded = Command::decode(&frame_with_header(canonical)).unwrap();
    assert_eq!(decoded.code(), 1);
}

#[test]
fn u32_helpers_roundtrip() {
    for v in [0u32, 1, 255, 256, 0xDEADBEEF, u32::MAX] {
        let bytes = Command::u32_to_vec(v);
        assert_eq!(bytes.len(), 4);
        assert_eq!(vec_to_u32(&bytes), v);
    }
    assert_eq!(vec_to_u32(&[0x12, 0x34, 0x56, 0x78]), 0x12345678);
    assert_eq!(Command::u32_to_vec(0x12345678), vec![0x12, 0x34, 0x56, 0x78]);
}
