use msmp::packet::MessageType;
use msmp::protocol::{
    send_bytes, take_received, read_stop, ChannelRead, Received, StreamFailure,
    BufferStreamWriter, ProtocolReader, ProtocolReaderError, StreamReader, StreamWriter,
};

fn assert_dead_beef_packet<T: msmp::protocol::PacketBuffer>(reader: &ProtocolReader<6, T>) {
    let packet = reader
        .packet()
        .expect("packet() must return Some after reading a packet");
    assert_eq!(packet.body().unwrap(), &[0xde, 0xad, 0xbe, 0xef]);
    assert_eq!(packet.source_address().value(), 0x02);
    assert_eq!(packet.destination_address().value(), 0x01);
    assert_eq!(packet.message_length(), 0x04);
    assert_eq!(packet.message_type(), MessageType::Normal);
}

#[test]
fn test_protocol_reader() {
    let mut reader = ProtocolReader::<6, [u8; 6]>::new();
    let raw = [0x12, 0x04, 0xde, 0xad, 0xbe, 0xef];
    let mut stream: &[u8] = &raw;

    let result = reader.read(&mut stream);
    assert!(result.unwrap());

    assert_dead_beef_packet(&reader);
}

#[test]
fn test_protocol_reader_ref() {
    let mut buffer = [0; 6];
    let mut reader = ProtocolReader::<6, _>::new_with_buffer(&mut buffer);
    let raw = [0x12, 0x04, 0xde, 0xad, 0xbe, 0xef];
    let mut stream: &[u8] = &raw;

    let result = reader.read(&mut stream);
    assert!(result.unwrap());

    assert_dead_beef_packet(&reader);
}

#[test]
fn test_protocol_reader_insuffucient_buffer() {
    let mut reader = ProtocolReader::<5, _>::new();
    let raw = [0x12, 0x04, 0xde, 0xad, 0xbe, 0xef];
    let mut stream: &[u8] = &raw;

    let result = reader.read(&mut stream);
    match result {
        Err(ProtocolReaderError::InsufficientBuffer) => {}
        _ => panic!("Unexpected result: {:?}", result),
    }
}

#[test]
fn test_protocol_reader_two_phase() {
    let mut reader = ProtocolReader::<6, _>::new();
    let raw = [0x12, 0x04, 0xde, 0xad, 0xbe, 0xef];
    let mut stream: &[u8] = &raw[0..4];

    let result = reader.read(&mut stream);
    assert!(!result.unwrap());

    let mut stream: &[u8] = &raw[4..];
    let result = reader.read(&mut stream);
    assert!(result.unwrap());

    let packet = reader.packet().unwrap();
    assert_eq!(packet.body().unwrap(), &[0xde, 0xad, 0xbe, 0xef]);
    assert_eq!(packet.source_address().value(), 0x02);
    assert_eq!(packet.destination_address().value(), 0x01);
    assert_eq!(packet.message_length(), 0x04);
    assert_eq!(packet.message_type(), MessageType::Normal);
}

#[test]
fn test_protocol_reader_resync_partial_header() {
    let mut reader = ProtocolReader::<6, _>::new();
    let raw = [0x34, 0x03, 0xde, 0x00, 0x12, 0x04, 0xde, 0xad, 0xbe, 0xef];
    let mut stream: &[u8] = &raw;

    let result = reader.read(&mut stream);
    assert!(!result.unwrap());
    let result = reader.read(&mut stream);
    assert!(result.unwrap());

    assert_dead_beef_packet(&reader);
}

#[test]
fn test_protocol_reader_resync_full_header() {
    let mut reader = ProtocolReader::<6, _>::new();
    let raw = [0x12, 0x04, 0xde, 0x00, 0x12, 0x04, 0xde, 0xad, 0xbe, 0xef];
    let mut stream: &[u8] = &raw;

    let result = reader.read(&mut stream);
    assert!(!result.unwrap());
    let result = reader.read(&mut stream);
    assert!(result.unwrap());

    assert_dead_beef_packet(&reader);
}

#[test]
fn test_protocol_reader_resync_last() {
    let mut reader = ProtocolReader::<6, _>::new();
    let raw = [
        0x12, 0x04, 0xde, 0xad, 0xbe, 0x00, 0x12, 0x04, 0xde, 0xad, 0xbe, 0xef,
    ];
    let mut stream: &[u8] = &raw;

    let result = reader.read(&mut stream);
    assert!(!result.unwrap());
    let result = reader.read(&mut stream);
    assert!(result.unwrap());

    assert_dead_beef_packet(&reader);
}

#[test]
fn reader_without_a_frame_has_no_packet() {
    let mut reader = ProtocolReader::<6, _>::new();
    assert!(reader.packet().is_none());
    let raw = [0x12, 0x04, 0xde];
    let mut stream: &[u8] = &raw;
    assert!(!reader.read(&mut stream).unwrap());
    assert!(reader.packet().is_none());
    assert_eq!(reader.position(), 3);
    assert!(!reader.is_completed());
}

#[test]
fn reader_recovers_after_insufficient_buffer() {
    let mut reader = ProtocolReader::<5, _>::new();
    let raw = [0x12, 0x04, 0x12, 0x02, 0xaa, 0xbb];
    let mut stream: &[u8] = &raw;
    assert!(matches!(reader.read(&mut stream), Err(ProtocolReaderError::InsufficientBuffer)));
    assert_eq!(reader.position(), 0);
    assert!(reader.read(&mut stream).unwrap());
    let packet = reader.packet().unwrap();
    assert_eq!(packet.body().unwrap(), &[0xaa, 0xbb]);
}

#[test]
fn reader_resync_with_one_byte_left_waits_for_header() {
    // After the sync byte only 0x12 remains: it is the first header byte.
    let mut reader = ProtocolReader::<8, _>::new();
    let raw = [0x12, 0x04, 0xde, 0x00, 0x12];
    let mut stream: &[u8] = &raw;
    assert!(!reader.read(&mut stream).unwrap());
    assert_eq!(reader.position(), 1);
    let rest = [0x01, 0x77];
    let mut stream: &[u8] = &rest;
    assert!(reader.read(&mut stream).unwrap());
    let packet = reader.packet().unwrap();
    assert_eq!(packet.destination_address().value(), 0x01);
    assert_eq!(packet.body().unwrap(), &[0x77]);
}

#[test]
fn reader_release_gives_the_buffer_back() {
    let mut reader = ProtocolReader::<6, _>::new();
    let raw = [0x12, 0x04, 0xde, 0xad, 0xbe, 0xef];
    let mut stream: &[u8] = &raw;
    assert!(reader.read(&mut stream).unwrap());
    assert_eq!(reader.release(), raw);
}

#[test]
fn slice_stream_reads_what_fits() {
    let raw = [1u8, 2, 3, 4, 5];
    let mut stream: &[u8] = &raw;
    let mut data = [0u8; 3];
    assert_eq!(stream.read(&mut data), Ok(3));
    assert_eq!(data, [1, 2, 3]);
    assert_eq!(stream, &[4, 5]);
    assert_eq!(stream.read(&mut data), Ok(2));
    assert_eq!(data, [4, 5, 3]);
    assert_eq!(stream.read(&mut data), Ok(0));
}

#[test]
fn buffer_stream_writer_fills_from_the_front() {
    let mut buffer = [0u8; 5];
    let mut writer = BufferStreamWriter::new(&mut buffer);
    assert_eq!(writer.write(&[1, 2, 3]), Ok(3));
    assert_eq!(writer.write(&[4, 5, 6]), Ok(2));
    assert_eq!(writer.write(&[7]), Ok(0));
    drop(writer);
    assert_eq!(buffer, [1, 2, 3, 4, 5]);
}

#[test]
fn channel_stream_reads_waiting_bytes() {
    let (tx, mut rx) = std::sync::mpsc::channel::<u8>();
    let mut tx2 = tx.clone();
    assert_eq!(tx2.write(&[9, 8]), Ok(2));
    let mut data = [0u8; 4];
    assert_eq!(rx.read(&mut data), Ok(2));
    assert_eq!(&data[..2], &[9, 8]);
    assert!(matches!(rx.read(&mut data), Err(StreamFailure::WouldBlock)));
    drop(tx);
    drop(tx2);
    assert!(matches!(rx.read(&mut data), Err(StreamFailure::Other(()))));
}

#[test]
fn reader_over_a_channel_waits_then_fails_when_closed() {
    let (tx, mut rx) = std::sync::mpsc::channel::<u8>();
    let mut reader = ProtocolReader::<6, _>::new();
    // Nothing is waiting: the stream would block, which reads as no bytes.
    assert!(!reader.read(&mut rx).unwrap());
    assert_eq!(reader.position(), 0);
    tx.send(0x12).unwrap();
    tx.send(0x01).unwrap();
    tx.send(0x33).unwrap();
    assert!(reader.read(&mut rx).unwrap());
    assert_eq!(reader.packet().unwrap().body().unwrap(), &[0x33]);
    let mut fresh = ProtocolReader::<6, _>::new();
    drop(tx);
    assert!(matches!(fresh.read(&mut rx), Err(ProtocolReaderError::ReaderError(()))));
}

#[test]
fn packet_error_converts_to_reader_error() {
    let error: ProtocolReaderError<()> = msmp::packet::PacketError::InvalidLength.into();
    assert!(matches!(
        error,
        ProtocolReaderError::PacketError(msmp::packet::PacketError::InvalidLength)
    ));
}

#[test]
fn completed_frame_has_no_sync_byte_in_body() {
    // A zero inside the announced body restarts the frame after it.
    let mut reader = ProtocolReader::<8, _>::new();
    let raw = [0x12, 0x03, 0xaa, 0x00, 0xbb];
    let mut stream: &[u8] = &raw;
    assert!(!reader.read(&mut stream).unwrap());
    assert!(reader.packet().is_none());
    assert_eq!(reader.position(), 1);
}

#[test]
fn reader_asks_for_what_is_missing() {
    let mut reader = ProtocolReader::<6, _>::new();
    assert_eq!(reader.bytes_to_read(), 2);
    assert!(reader.is_ready());
    let raw = [0x12, 0x04, 0xde];
    let mut stream: &[u8] = &raw;
    assert!(!reader.read(&mut stream).unwrap());
    assert_eq!(reader.bytes_to_read(), 3);
    let mut small = ProtocolReader::<5, _>::new();
    let raw = [0x12, 0x3f];
    let mut stream: &[u8] = &raw;
    let _ = small.read(&mut stream);
    assert_eq!(small.bytes_to_read(), 2);
}

#[test]
fn channel_streams_with_nothing_to_move_succeed() {
    let (mut tx, mut rx) = std::sync::mpsc::channel::<u8>();
    let mut empty: [u8; 0] = [];
    assert_eq!(rx.read(&mut empty), Ok(0));
    assert_eq!(tx.write(&[]), Ok(0));
    tx.send(5).unwrap();
    let mut data = [7u8, 7, 7];
    assert_eq!(rx.read(&mut data), Ok(1));
    assert_eq!(data, [5, 7, 7]);
}

#[test]
fn take_received_stores_a_byte() {
    let mut data = [0u8; 3];
    let step = take_received(&mut data, 1, Received::Byte(7));
    assert!(matches!(step, ChannelRead::Continue));
    assert_eq!(data, [0, 7, 0]);
}

#[test]
fn take_received_empty_channel() {
    let mut data = [5u8; 3];
    assert!(matches!(take_received(&mut data, 0, Received::Empty), ChannelRead::WouldBlock));
    assert!(matches!(take_received(&mut data, 2, Received::Empty), ChannelRead::Done(2)));
    assert!(matches!(take_received(&mut data, 1, Received::Disconnected), ChannelRead::Disconnected));
    assert_eq!(data, [5, 5, 5]);
}

#[test]
fn buffer_stream_writer_saturates() {
    let mut buffer = [0u8; 3];
    let mut writer = BufferStreamWriter::new(&mut buffer);
    assert_eq!(writer.write(&[1, 2]), Ok(2));
    assert_eq!(writer.write(&[3, 4]), Ok(1));
    assert_eq!(writer.write(&[5]), Ok(0));
    drop(writer);
    assert_eq!(buffer, [1, 2, 3]);
}

#[test]
fn clean_frame_leaves_the_rest_of_the_slice() {
    let mut reader = ProtocolReader::<6, [u8; 6]>::new();
    let raw = [0x12, 0x04, 0xde, 0xad, 0xbe, 0xef, 0x12, 0x34];
    let mut stream: &[u8] = &raw;
    assert!(reader.read(&mut stream).unwrap());
    assert_eq!(stream, &[0x12, 0x34]);
    assert_dead_beef_packet(&reader);
}

#[test]
fn failing_stream_fails_the_read_and_keeps_the_state() {
    let (tx, mut rx) = std::sync::mpsc::channel::<u8>();
    let mut reader = ProtocolReader::<6, [u8; 6]>::new();
    tx.send(0x12).unwrap();
    // One header byte arrives, then the channel would block.
    assert!(!reader.read(&mut rx).unwrap());
    assert_eq!(reader.position(), 1);
    drop(tx);
    assert!(matches!(reader.read_inner(&mut rx), Err(ProtocolReaderError::ReaderError(()))));
    assert_eq!(reader.position(), 1);
}

#[test]
fn would_block_counts_as_no_bytes() {
    let (_tx, mut rx) = std::sync::mpsc::channel::<u8>();
    let mut reader = ProtocolReader::<6, [u8; 6]>::new();
    assert!(matches!(reader.read_inner(&mut rx), Ok((false, false))));
    assert_eq!(reader.position(), 0);
}

#[test]
fn read_stop_decisions() {
    assert_eq!(read_stop(true, true), Some(true));
    assert_eq!(read_stop(true, false), Some(true));
    assert_eq!(read_stop(false, false), Some(false));
    assert_eq!(read_stop(false, true), None);
}

#[test]
fn send_bytes_hands_over_every_byte_in_order() {
    let (tx, rx) = std::sync::mpsc::channel::<u8>();
    let (result, _handed) = send_bytes(&tx, &[3, 1, 4, 1, 5]);
    assert_eq!(result, Ok(5));
    let got: Vec<u8> = rx.try_iter().collect();
    assert_eq!(got, vec![3, 1, 4, 1, 5]);
}

#[test]
fn send_bytes_fails_once_the_receiver_is_gone() {
    let (tx, rx) = std::sync::mpsc::channel::<u8>();
    drop(rx);
    let (result, _handed) = send_bytes(&tx, &[1, 2]);
    assert_eq!(result, Err(StreamFailure::Other(())));
    let (result, _handed) = send_bytes(&tx, &[]);
    assert_eq!(result, Ok(0));
}

#[test]
fn two_byte_buffer_reads_a_header() {
    let mut reader = ProtocolReader::<2, [u8; 2]>::new();
    let raw = [0x12, 0x04, 0xde];
    let mut stream: &[u8] = &raw;
    assert!(matches!(reader.read(&mut stream), Err(ProtocolReaderError::InsufficientBuffer)));
    assert_eq!(reader.position(), 0);
    assert_eq!(stream, &[0xde]);
}
