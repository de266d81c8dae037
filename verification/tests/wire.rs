use castle_lanes::wire::{frame_payload, split_frame, Frame, FrameError, PacketFormat};

#[test]
fn packet_formats_round_trip_and_cross_decode() {
    let payload_json = br#"{"PlaceBuilding":{"player_id":1,"seq":11}}"#.to_vec();
    let payload_bincode: Vec<u8> = vec![9, 0, 0, 0, 1, 0, 0, 0, 0, 0, 0, 0, 2, 3, 1, 11, 0, 0, 0];

    let bincode_bytes = frame_payload(PacketFormat::Bincode, &payload_bincode);
    let json_bytes = frame_payload(PacketFormat::Json, &payload_json);
    assert_eq!(bincode_bytes[0], 1);
    assert_eq!(json_bytes[0], 0);

    // Both formats are detected through the same seam.
    let frame = split_frame(&bincode_bytes).unwrap();
    assert_eq!(frame, Frame { format: PacketFormat::Bincode, payload_start: 1 });
    assert_eq!(&bincode_bytes[frame.payload_start..], &payload_bincode[..]);
    let frame = split_frame(&json_bytes).unwrap();
    assert_eq!(frame, Frame { format: PacketFormat::Json, payload_start: 1 });
    assert_eq!(&json_bytes[frame.payload_start..], &payload_json[..]);

    // Untagged raw JSON (legacy peers) is read whole.
    let frame = split_frame(&payload_json).unwrap();
    assert_eq!(frame, Frame { format: PacketFormat::Json, payload_start: 0 });
}

#[test]
fn empty_buffer_has_unknown_format() {
    assert_eq!(split_frame(&[]), Err(FrameError::UnknownFormat));
}

#[test]
fn tags_round_trip() {
    for format in [PacketFormat::Json, PacketFormat::Bincode] {
        assert_eq!(PacketFormat::from_tag(format.tag()), Some(format));
        assert_eq!(PacketFormat::from_stored_byte(format.tag()), format);
    }
    assert_eq!(PacketFormat::Json.tag(), 0);
    assert_eq!(PacketFormat::Bincode.tag(), 1);
    assert_eq!(PacketFormat::from_tag(2), None);
    assert_eq!(PacketFormat::from_stored_byte(7), PacketFormat::Bincode);
}

#[test]
fn framed_empty_payload_is_just_the_tag() {
    assert_eq!(frame_payload(PacketFormat::Bincode, &[]), vec![1]);
    assert_eq!(split_frame(&[1]).unwrap().payload_start, 1);
}
