use lindirstat::wire::{decode_frame, decode_len, encode_frame, FrameError, KIND_FILE, MAGIC, WIRE_VERSION};

#[test]
fn roundtrip() {
    // The payload is what postcard writes for
    // `Frame::Entry(Entry { id: 7, parent_id: 3, name: "foo.txt", size: 1234, mtime: 1_700_000_000, kind: KIND_FILE })`:
    // the variant index, then the fields in order.
    let payload = postcard::to_allocvec(&(1u32, 7u32, 3u32, "foo.txt", 1234u64, 1_700_000_000i64, KIND_FILE))
        .unwrap();
    let buf = encode_frame(&payload).unwrap();
    let (got, used) = decode_frame(&buf).unwrap().unwrap();
    assert_eq!(used, buf.len());
    let (variant, id, _parent, name, _size, _mtime, _kind): (u32, u32, u32, String, u64, i64, u8) =
        postcard::from_bytes(&got).unwrap();
    match variant {
        1 => {
            assert_eq!(id, 7);
            assert_eq!(name, "foo.txt");
        }
        _ => panic!("wrong frame"),
    }
}

#[test]
fn frame_has_le_length_prefix() {
    let buf = encode_frame(&[9, 8, 7]).unwrap();
    assert_eq!(buf, vec![3, 0, 0, 0, 9, 8, 7]);
    let empty = encode_frame(&[]).unwrap();
    assert_eq!(empty, vec![0, 0, 0, 0]);
}

#[test]
fn decode_len_reads_little_endian() {
    assert_eq!(decode_len(&[1, 2, 0, 0]), 513);
    assert_eq!(decode_len(&[0xff, 0xff, 0xff, 0xff]), u32::MAX);
}

#[test]
fn short_buffer_is_end_of_stream() {
    assert_eq!(decode_frame(&[]).unwrap(), None);
    assert_eq!(decode_frame(&[5, 0, 0]).unwrap(), None);
}

#[test]
fn truncated_payload_is_an_error() {
    assert_eq!(decode_frame(&[5, 0, 0, 0, 1, 2]), Err(FrameError::UnexpectedEof));
}

#[test]
fn decode_stops_after_first_frame() {
    let mut buf = encode_frame(&[1, 2]).unwrap();
    buf.extend(encode_frame(&[3]).unwrap());
    let (p, used) = decode_frame(&buf).unwrap().unwrap();
    assert_eq!(p, vec![1, 2]);
    assert_eq!(used, 6);
    let (q, used2) = decode_frame(&buf[used..]).unwrap().unwrap();
    assert_eq!(q, vec![3]);
    assert_eq!(used2, 5);
}

#[test]
fn protocol_constants() {
    assert_eq!(&MAGIC, b"LDS1");
    assert_eq!(WIRE_VERSION, 1);
}
