use msmp::packet::{Address, MessageType, PacketError, PacketReader, PacketWriter};

#[test]
fn test_packet_reader() {
    let raw = [0x12, 0x02, 0x56, 0x78];
    let reader = PacketReader::new(&raw);
    assert_eq!(reader.destination_address().value(), 0x01);
    assert_eq!(reader.source_address().value(), 0x02);
    assert_eq!(reader.message_length(), 0x02);
    assert_eq!(reader.message_type(), MessageType::Normal);
    assert_eq!(reader.body_unchecked(), &[0x56, 0x78]);
}

#[test]
fn test_packet_writer() {
    let mut buffer = [0; 4];
    let mut writer = PacketWriter::new(&mut buffer);
    writer.set_destination_address(Address::new(0x01)).unwrap();
    writer.set_source_address(Address::new(0x02)).unwrap();
    writer.set_message_length(0x02).unwrap();
    writer.set_message_type(MessageType::Normal).unwrap();
    writer.body_mut()[0] = 0x56;
    writer.body_mut()[1] = 0x78;
    assert_eq!(writer.body_mut().len(), 2);
    assert_eq!(buffer, [0x12, 0x02, 0x56, 0x78]);
}

#[test]
fn address_try_from_accepts_nibbles_only() {
    assert_eq!(Address::try_from(0x0f).map(|a| a.value()), Ok(0x0f));
    assert_eq!(Address::try_from(0x00).map(|a| a.value()), Ok(0x00));
    assert!(Address::try_from(0x10).is_err());
    assert!(Address::try_from(0xff).is_err());
    let value: u8 = Address::new(0x0a).into();
    assert_eq!(value, 0x0a);
}

#[test]
fn message_type_codes() {
    assert_eq!(MessageType::try_from(0), Ok(MessageType::Normal));
    assert_eq!(MessageType::try_from(1), Ok(MessageType::Reserved(1)));
    assert_eq!(MessageType::try_from(3), Ok(MessageType::Reserved(3)));
    assert_eq!(MessageType::try_from(4), Err(()));
    assert_eq!(u8::from(MessageType::Normal), 0);
    assert_eq!(u8::from(MessageType::Reserved(2)), 2);
}

#[test]
fn reader_fields_of_a_full_header() {
    let raw = [0xf1, 0xc4, 0x01, 0x02, 0x03, 0x04];
    let reader = PacketReader::new(&raw);
    assert_eq!(reader.destination_address().value(), 0x0f);
    assert_eq!(reader.source_address().value(), 0x01);
    assert_eq!(reader.message_length(), 4);
    assert_eq!(reader.message_type(), MessageType::Reserved(3));
    assert_eq!(reader.body().unwrap(), &[0x01, 0x02, 0x03, 0x04]);
}

#[test]
fn reader_try_new_needs_three_bytes() {
    assert!(matches!(PacketReader::try_new(&[0x12, 0x00]), Err(PacketError::HeaderTooShort)));
    assert!(PacketReader::try_new(&[0x12, 0x00, 0x00]).is_ok());
}

#[test]
fn reader_body_longer_than_frame_is_invalid_length() {
    let raw = [0x12, 0x05, 0x01, 0x02];
    let reader = PacketReader::new(&raw);
    assert!(matches!(reader.body(), Err(PacketError::InvalidLength)));
}

#[test]
fn reader_to_string_lists_fields() {
    let raw = [0x12, 0x02, 0x56, 0x78];
    let reader = PacketReader::new(&raw);
    assert_eq!(
        reader.to_string(),
        "Packet { destination_address: 1, source_address: 2, message_length: 2, message_type: Normal, body: [86, 120] }"
    );
}

#[test]
fn writer_refuses_long_message_length() {
    let mut buffer = [0xaa, 0xbb, 0, 0];
    let mut writer = PacketWriter::new(&mut buffer);
    assert!(matches!(writer.set_message_length(0x40), Err(PacketError::InvalidLength)));
    drop(writer);
    assert_eq!(buffer, [0xaa, 0xbb, 0, 0]);
}

#[test]
fn writer_fields_do_not_disturb_each_other() {
    let mut buffer = [0xff; 5];
    let mut writer = PacketWriter::new(&mut buffer);
    writer.set_message_length(3).unwrap();
    writer.set_message_type(MessageType::Reserved(2)).unwrap();
    writer.set_source_address(Address::new(0x3)).unwrap();
    writer.set_destination_address(Address::new(0xc)).unwrap();
    assert_eq!(writer.message_length(), 3);
    writer.body_mut().copy_from_slice(&[7, 8, 9]);
    drop(writer);
    assert_eq!(buffer, [0xc3, 0x83, 7, 8, 9]);
    let reader = PacketReader::new(&buffer);
    assert_eq!(reader.destination_address().value(), 0xc);
    assert_eq!(reader.source_address().value(), 0x3);
    assert_eq!(reader.message_length(), 3);
    assert_eq!(reader.message_type(), MessageType::Reserved(2));
    assert_eq!(reader.body().unwrap(), &[7, 8, 9]);
}
