use lloth::channel::tcp::{frame, ConnectionAborted, RecvBuf, SendPoll, TcpSend, CAPACITY};

#[test]
fn a_frame_is_magic_size_and_packet() {
    assert_eq!(
        frame(&[1, 2, 3]),
        vec![b'a', b's', b't', b'r', 3, 0, 0, 0, 1, 2, 3]
    );
    assert_eq!(frame(&[]), vec![b'a', b's', b't', b'r', 0, 0, 0, 0]);
    let long = frame(&vec![5; 0x1234]);
    assert_eq!(&long[..8], &[b'a', b's', b't', b'r', 0x34, 0x12, 0, 0]);
    assert_eq!(long.len(), 0x1234 + 8);
}

#[test]
fn packets_come_out_in_order() {
    let mut buf = RecvBuf::new();
    let mut stream = frame(&[1, 2, 3]);
    stream.extend(frame(&[]));
    stream.extend(frame(&[4]));
    assert_eq!(buf.fill(&stream), Ok(()));
    assert_eq!(buf.recv(), Some(vec![1, 2, 3]));
    assert_eq!(buf.recv(), Some(vec![]));
    assert_eq!(buf.recv(), Some(vec![4]));
    assert_eq!(buf.recv(), None);
}

#[test]
fn a_packet_comes_out_when_its_last_byte_is_there() {
    let bytes = frame(&[7, 8, 9]);
    let mut buf = RecvBuf::new();
    for (i, b) in bytes.iter().enumerate() {
        assert!(!buf.is_ready());
        assert_eq!(buf.recv(), None, "after {} bytes", i);
        assert_eq!(buf.fill(&[*b]), Ok(()));
    }
    assert!(buf.is_ready());
    assert_eq!(buf.recv(), Some(vec![7, 8, 9]));
    assert_eq!(buf.recv(), None);
    assert_eq!(buf.spare(), CAPACITY);
}

#[test]
fn noise_before_a_header_is_dropped() {
    let mut buf = RecvBuf::new();
    let mut stream = vec![0, 1, b'a', b's', b'x', 255, 3, 4, 5, 6, 7, 8];
    stream.extend(frame(&[42]));
    buf.fill(&stream).unwrap();
    assert_eq!(buf.recv(), Some(vec![42]));
    assert_eq!(buf.spare(), CAPACITY);
}

#[test]
fn noise_alone_is_no_packet() {
    let mut buf = RecvBuf::new();
    buf.fill(&[1; 100]).unwrap();
    assert_eq!(buf.recv(), None);
    assert_eq!(buf.spare(), CAPACITY - 7);
}

#[test]
fn reading_nothing_aborts() {
    let mut buf = RecvBuf::new();
    assert_eq!(buf.fill(&[]), Err(ConnectionAborted));
}

#[test]
fn a_packet_that_is_too_large_fills_the_buffer() {
    let mut buf = RecvBuf::new();
    buf.fill(&[b'a', b's', b't', b'r', 0, 0, 0, 1]).unwrap();
    assert_eq!(buf.recv(), None);
    let spare = buf.spare();
    assert_eq!(spare, CAPACITY - 8);
    buf.fill(&vec![0; spare]).unwrap();
    assert_eq!(buf.recv(), None);
    assert_eq!(buf.spare(), 0);
    assert_eq!(buf.fill(&[]), Err(ConnectionAborted));
}

#[test]
fn a_packet_is_sent_in_pieces() {
    let mut send = TcpSend::new(&[1, 2]);
    assert_eq!(send.buf().len(), 10);
    assert_eq!(send.poll(4), SendPoll::Pending);
    assert_eq!(send.buf(), &[2, 0, 0, 0, 1, 2]);
    assert_eq!(send.poll(0), SendPoll::Pending);
    assert_eq!(send.poll(6), SendPoll::Done);
    assert_eq!(send.buf().len(), 0);
}
