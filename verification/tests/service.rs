use msmp::packet::{MessageType, PacketReader};
use msmp::protocol::{BufferStreamWriter, StreamWriter};
use msmp::service::{BufferManager, BufferPool, Service, ServiceError};

#[test]
fn test_buffer_pool() {
    let mut buffer_pool: BufferPool<4, 2> = BufferPool::new();
    let mut buffer1 = buffer_pool.get_buffer().expect("buffer1 must be available");
    let mut buffer2 = buffer_pool.get_buffer().expect("buffer2 must be available");
    buffer1[0] = 0x01;
    buffer2[0] = 0x02;
    assert_eq!(buffer1[0], 0x01);
    assert_eq!(buffer2[0], 0x02);
    assert!(buffer_pool.get_buffer().is_none());
    buffer_pool.return_buffer(buffer1);
    let buffer3 = buffer_pool.get_buffer().expect("buffer3 must be available");
    assert!(buffer_pool.get_buffer().is_none());
    assert_eq!(buffer3[0], 0x01);
    buffer_pool.return_buffer(buffer2);
    buffer_pool.return_buffer(buffer3);
    let buffer4 = buffer_pool.get_buffer().expect("buffer4 must be available");
    let buffer5 = buffer_pool.get_buffer().expect("buffer5 must be available");
    assert!(buffer_pool.get_buffer().is_none());
    assert_eq!(buffer4[0], 0x01);
    assert_eq!(buffer5[0], 0x02);
    buffer_pool.return_buffer(buffer4);
    buffer_pool.return_buffer(buffer5);
}

#[test]
fn test_buffer_manager() {
    let buffer_pool: BufferPool<4, 2> = BufferPool::new();
    let mut buffer_manager = BufferManager::new(buffer_pool);
    let buffer1 = buffer_manager.allocate_send_buffer().expect("buffer1 must be available");
    let buffer2 = buffer_manager.allocate_send_buffer().expect("buffer2 must be available");
    assert!(buffer_manager.allocate_send_buffer().is_none());
    buffer_manager.register_buffer_to_send(buffer1).map_err(|_| ()).expect("buffer1 must be registered");
    buffer_manager.register_buffer_to_send(buffer2).map_err(|_| ()).expect("buffer2 must be registered");
    assert!(buffer_manager.allocate_send_buffer().is_none());
    buffer_manager.next_buffer();
    let buffer3 = buffer_manager.allocate_send_buffer().expect("buffer3 must be available");
    buffer_manager.next_buffer();
    let buffer4 = buffer_manager.allocate_send_buffer().expect("buffer4 must be available");
    assert!(buffer_manager.allocate_send_buffer().is_none());
    buffer_manager.register_buffer_to_send(buffer3).map_err(|_| ()).expect("buffer3 must be registered");
    buffer_manager.register_buffer_to_send(buffer4).map_err(|_| ()).expect("buffer4 must be registered");
    assert!(buffer_manager.allocate_send_buffer().is_none());
}

#[test]
fn manager_queue_is_first_in_first_out() {
    let mut manager = BufferManager::new(BufferPool::<4, 3>::new());
    let mut first = manager.allocate_send_buffer().unwrap();
    let mut second = manager.allocate_send_buffer().unwrap();
    first[0] = 0xa1;
    second[0] = 0xb2;
    assert!(!manager.has_data_to_send());
    assert!(manager.register_buffer_to_send(first).is_ok());
    assert!(manager.register_buffer_to_send(second).is_ok());
    assert!(manager.has_data_to_send());
    manager.next_buffer();
    assert!(manager.has_data_to_send());
    manager.next_buffer();
    assert!(!manager.has_data_to_send());
    // Both buffers are back in the pool, with their contents.
    let again = manager.allocate_send_buffer().unwrap();
    assert_eq!(again[0], 0xa1);
    let again2 = manager.allocate_send_buffer().unwrap();
    assert_eq!(again2[0], 0xb2);
}

#[test]
fn manager_refuses_buffer_when_queue_full() {
    let mut manager = BufferManager::new(BufferPool::<4, 1>::new());
    let buffer = manager.allocate_send_buffer().unwrap();
    assert!(manager.register_buffer_to_send(buffer).is_ok());
    let mut other = BufferManager::new(BufferPool::<4, 1>::new());
    let extra = other.allocate_send_buffer().unwrap();
    let refused = manager.register_buffer_to_send(extra);
    assert!(refused.is_err());
}

fn run_service_round(
    service: &mut Service<7, 2>,
    sink: &mut Vec<u8>,
    handler: impl FnOnce(&mut BufferManager<7, 2>, PacketReader<'_>) -> bool,
) -> bool {
    if let Some((buffer, length)) = service.take_received_packet() {
        let forward = handler(service.buffer_manager_mut(), PacketReader::new(&buffer[..length]));
        service.finish_received_packet(buffer, forward);
    }
    if let Some(data) = service.data_to_send() {
        let sent = data.len();
        sink.extend_from_slice(data);
        service.data_sent(sent);
    }
    service.has_data_to_send()
}

#[test]
fn service_sends_new_data_then_forwards() {
    let mut service: Service<7, 2> = Service::new(BufferPool::new());
    let mut sent = Vec::new();
    service
        .put_received_data(&[0xf1, 0x04, 0x01, 0x02, 0x03, 0x04])
        .expect("data must be processed");
    let has_data_to_send = run_service_round(&mut service, &mut sent, |buffer_manager, packet| {
        assert_eq!(packet.source_address().value(), 0x01);
        assert_eq!(packet.destination_address().value(), 0x0f);
        assert_eq!(packet.message_length(), 4);
        assert_eq!(packet.message_type(), MessageType::Normal);
        assert_eq!(packet.body().unwrap(), &[0x01, 0x02, 0x03, 0x04]);
        let mut send_buffer = buffer_manager.allocate_send_buffer().expect("buffer must be available");
        send_buffer[..7].copy_from_slice(&[0x12, 0x05, 0xff, 0xfe, 0xfd, 0xfc, 0xfb]);
        buffer_manager
            .register_buffer_to_send(send_buffer)
            .map_err(|_| ())
            .expect("buffer must be registered");
        packet.destination_address().value() == 0x0f
    });
    assert!(has_data_to_send);
    let has_data_to_send = run_service_round(&mut service, &mut sent, |_, _| false);
    assert!(!has_data_to_send);
    assert_eq!(
        sent,
        vec![0x12, 0x05, 0xff, 0xfe, 0xfd, 0xfc, 0xfb, 0xf1, 0x04, 0x01, 0x02, 0x03, 0x04]
    );
}

#[test]
fn service_partial_send_resumes() {
    let mut service: Service<7, 2> = Service::new(BufferPool::new());
    service.put_received_data(&[0x21, 0x02, 0x05, 0x06]).unwrap();
    let (buffer, length) = service.take_received_packet().unwrap();
    assert_eq!(length, 4);
    service.finish_received_packet(buffer, true);
    assert_eq!(service.data_to_send().unwrap(), &[0x21, 0x02, 0x05, 0x06]);
    service.data_sent(3);
    assert_eq!(service.data_to_send().unwrap(), &[0x06]);
    assert!(service.has_data_to_send());
    service.data_sent(1);
    assert!(!service.has_data_to_send());
    assert!(service.data_to_send().is_none());
}

#[test]
fn service_without_buffers_reports_no_buffer() {
    let mut service: Service<7, 1> = Service::new(BufferPool::new());
    service.put_received_data(&[0x21, 0x01, 0x05]).unwrap();
    let (buffer, _) = service.take_received_packet().unwrap();
    // The only buffer is out: taking in more data finds none.
    assert!(matches!(service.put_received_data(&[0x21]), Err(ServiceError::NoBuffer)));
    service.finish_received_packet(buffer, false);
    assert!(service.put_received_data(&[0x21]).is_ok());
}

#[test]
fn service_reports_protocol_errors() {
    let mut service: Service<4, 1> = Service::new(BufferPool::new());
    let result = service.put_received_data(&[0x12, 0x05]);
    assert!(matches!(
        result,
        Err(ServiceError::Protocol(msmp::protocol::ProtocolReaderError::InsufficientBuffer))
    ));
    assert!(service.is_ready_to_receive());
    assert!(service.take_received_packet().is_none());
}

#[test]
fn lent_buffer_keeps_its_contents_in_the_pool() {
    let mut pool: BufferPool<3, 3> = BufferPool::new();
    let first = pool.get_buffer().unwrap();
    let mut second = pool.get_buffer().unwrap();
    second[1] = 0x44;
    pool.return_buffer(second);
    // The lowest slot in the pool is lent first: slot 1, with what was written.
    let again = pool.get_buffer().unwrap();
    assert_eq!(again[1], 0x44);
    pool.return_buffer(first);
    pool.return_buffer(again);
}

#[test]
fn service_cannot_send_a_frame_longer_than_its_buffer() {
    let mut service: Service<7, 2> = Service::new(BufferPool::new());
    assert!(service.can_send());
    let manager = service.buffer_manager_mut();
    let mut buffer = manager.allocate_send_buffer().unwrap();
    buffer[0] = 0x12;
    buffer[1] = 0x3f;
    assert!(manager.register_buffer_to_send(buffer).is_ok());
    assert!(service.has_data_to_send());
    assert!(!service.can_send());
}

fn run_service_round_into(
    service: &mut Service<7, 2>,
    writer: &mut BufferStreamWriter<'_>,
    handler: impl FnOnce(&mut BufferManager<7, 2>, PacketReader<'_>) -> bool,
) -> bool {
    if let Some((buffer, length)) = service.take_received_packet() {
        let forward = handler(service.buffer_manager_mut(), PacketReader::new(&buffer[..length]));
        service.finish_received_packet(buffer, forward);
    }
    if let Some(data) = service.data_to_send() {
        let written = writer.write(data).expect("the buffer writer never fails");
        service.data_sent(written);
    }
    service.has_data_to_send()
}

#[test]
fn test_service() {
    let mut service: Service<7, 2> = Service::new(BufferPool::new());
    let mut send_data = [0u8; 13];
    let mut writer = BufferStreamWriter::new(&mut send_data);
    service
        .put_received_data(&[0xf1, 0x04, 0x01, 0x02, 0x03, 0x04])
        .expect("data must be processed");
    let has_data_to_send = run_service_round_into(&mut service, &mut writer, |buffer_manager, packet| {
        assert_eq!(packet.source_address().value(), 0x01);
        assert_eq!(packet.destination_address().value(), 0x0f);
        assert_eq!(packet.message_length(), 4);
        assert_eq!(packet.message_type(), MessageType::Normal);
        assert_eq!(packet.body().unwrap(), &[0x01, 0x02, 0x03, 0x04]);
        let mut send_buffer = buffer_manager.allocate_send_buffer().expect("buffer must be available");
        send_buffer[..7].copy_from_slice(&[0x12, 0x05, 0xff, 0xfe, 0xfd, 0xfc, 0xfb]);
        buffer_manager
            .register_buffer_to_send(send_buffer)
            .map_err(|_| ())
            .expect("buffer must be registered");
        packet.destination_address().value() == 0x0f
    });
    assert!(has_data_to_send);
    let has_data_to_send = run_service_round_into(&mut service, &mut writer, |_, _| false);
    assert!(!has_data_to_send);
    drop(writer);
    assert_eq!(
        &send_data,
        &[
            0x12, 0x05, 0xff, 0xfe, 0xfd, 0xfc, 0xfb, // the new data is written first
            0xf1, 0x04, 0x01, 0x02, 0x03, 0x04, // then the received frame is forwarded
        ]
    );
}
