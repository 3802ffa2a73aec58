use bytes::Bytes;
use quic_relay::quic_framed::{
    CloseStep, NextStep, QuicBytesFramed, QuicFramedError, ReadEvent, WriteEvent, WriteStep,
    MAX_QUIC_FRAME_SIZE,
};

/// The bytes that a sink writes for `frame`, in writes of at most `chunk` bytes.
fn wire(frame: &[u8], chunk: usize) -> Vec<u8> {
    let mut sink = QuicBytesFramed::new();
    assert!(sink.poll_ready().is_ok());
    sink.start_send(Bytes::copy_from_slice(frame)).unwrap();
    let mut out = Vec::new();
    let mut step = sink.poll_flush();
    loop {
        match step {
            WriteStep::Write => {
                let n = sink.unsent().len().min(chunk);
                out.extend_from_slice(&sink.unsent()[..n]);
                step = sink.on_write(WriteEvent::Written(n));
            }
            WriteStep::Flushed => return out,
            WriteStep::Error(_) | WriteStep::Pending => panic!("unexpected step"),
        }
    }
}

/// The frames that a stream delivers for `reads`, and its last answer.
fn delivered(reads: &[&[u8]]) -> (Vec<Vec<u8>>, NextStep) {
    let mut stream = QuicBytesFramed::new();
    let mut frames = Vec::new();
    let mut reads = reads.iter();
    let mut step = stream.poll_next();
    loop {
        match step {
            NextStep::Frame(frame) => {
                frames.push(frame.to_vec());
                step = stream.poll_next();
            }
            NextStep::Read => match reads.next() {
                Some(data) => step = stream.on_read(ReadEvent::Data(data)),
                None => return (frames, NextStep::Read),
            },
            other => return (frames, other),
        }
    }
}

#[test]
fn frame_has_its_length_in_front() {
    assert_eq!(wire(b"relay", 100), b"\x05relay");
    assert_eq!(wire(b"", 100), b"\x00");
    let long = vec![7u8; 300];
    let bytes = wire(&long, 100);
    assert_eq!(bytes[..2], [0x41, 0x2c]);
    assert_eq!(bytes[2..], long[..]);
}

#[test]
fn frames_survive_any_split() {
    let frames: Vec<Vec<u8>> = vec![
        b"one".to_vec(),
        vec![],
        vec![9u8; 70],
        (0..=255).collect(),
        b"x".to_vec(),
    ];
    for write in [1, 2, 7, 1000] {
        let mut bytes = Vec::new();
        for frame in &frames {
            bytes.extend(wire(frame, write));
        }
        for read in [1, 2, 3, 50, 1000] {
            let mut reads: Vec<&[u8]> = bytes.chunks(read).collect();
            reads.push(&[]);
            let (got, last) = delivered(&reads);
            assert_eq!(got, frames);
            assert!(matches!(last, NextStep::End));
        }
    }
}

#[test]
fn largest_frame_passes() {
    let frame = vec![0xabu8; MAX_QUIC_FRAME_SIZE];
    let bytes = wire(&frame, usize::MAX);
    assert_eq!(bytes[..4], [0x80, 0x10, 0x00, 0x00]);
    let (got, last) = delivered(&[&bytes]);
    assert_eq!(got, [frame]);
    assert!(matches!(last, NextStep::Read));
}

#[test]
fn too_large_to_send() {
    let mut sink = QuicBytesFramed::new();
    sink.start_send(Bytes::from_static(b"ok")).unwrap();
    let refused = sink.start_send(Bytes::from(vec![0u8; MAX_QUIC_FRAME_SIZE + 1]));
    assert!(matches!(refused, Err(QuicFramedError::FrameTooLarge(1048577))));
    assert_eq!(sink.unsent(), b"\x02ok");
}

#[test]
fn too_large_to_receive() {
    let header = [0x80, 0x10, 0x00, 0x01];
    let mut stream = QuicBytesFramed::new();
    assert!(matches!(stream.poll_next(), NextStep::Read));
    let step = stream.on_read(ReadEvent::Data(&header));
    assert!(matches!(
        step,
        NextStep::Error(QuicFramedError::FrameTooLarge(1048577))
    ));
    // It is not skipped.
    assert!(matches!(
        stream.poll_next(),
        NextStep::Error(QuicFramedError::FrameTooLarge(1048577))
    ));
}

#[test]
fn oversized_in_any_width() {
    // 8 bytes for a length that 4 bytes hold.
    let (_, last) = delivered(&[&[0xc0, 0, 0, 0, 0, 0x10, 0, 0x01]]);
    assert!(matches!(
        last,
        NextStep::Error(QuicFramedError::FrameTooLarge(1048577))
    ));
    // The low 32 bits alone are within the limit.
    let (_, last) = delivered(&[&[0xc0, 0, 0, 1, 0, 0, 0, 5], b"hello"]);
    let size = usize::try_from(4294967301u64).unwrap_or(usize::MAX);
    assert!(matches!(
        last,
        NextStep::Error(QuicFramedError::FrameTooLarge(n)) if n == size
    ));
}

#[test]
fn frames_accumulate_until_they_are_flushed() {
    let mut sink = QuicBytesFramed::new();
    assert!(sink.poll_ready().is_ok());
    sink.start_send(Bytes::from_static(b"first")).unwrap();
    assert!(sink.poll_ready().is_ok());
    sink.start_send(Bytes::from_static(b"second")).unwrap();
    assert_eq!(sink.unsent(), b"\x05first\x06second");
}

#[test]
fn frames_go_out_whatever_the_order() {
    let mut sink = QuicBytesFramed::new();
    let mut out = Vec::new();
    sink.start_send(Bytes::from_static(b"abc")).unwrap();
    out.extend_from_slice(&sink.unsent()[..2]);
    assert!(matches!(
        sink.on_write(WriteEvent::Written(2)),
        WriteStep::Write
    ));
    sink.start_send(Bytes::from_static(b"de")).unwrap();
    assert!(sink
        .start_send(Bytes::from(vec![0u8; MAX_QUIC_FRAME_SIZE + 1]))
        .is_err());
    assert_eq!(sink.unsent(), b"bc\x02de");
    out.extend_from_slice(&sink.unsent()[..3]);
    assert!(matches!(
        sink.on_write(WriteEvent::Written(3)),
        WriteStep::Write
    ));
    sink.start_send(Bytes::new()).unwrap();
    out.extend_from_slice(sink.unsent());
    assert!(matches!(
        sink.on_write(WriteEvent::Written(3)),
        WriteStep::Flushed
    ));
    let (frames, last) = delivered(&[&out, b""]);
    assert_eq!(frames, [b"abc".to_vec(), b"de".to_vec(), vec![]]);
    assert!(matches!(last, NextStep::End));
}

#[test]
fn end_between_frames_is_clean() {
    let (frames, last) = delivered(&[b"\x02ab", b""]);
    assert_eq!(frames, [b"ab"]);
    assert!(matches!(last, NextStep::End));
    let (frames, last) = delivered(&[b""]);
    assert!(frames.is_empty());
    assert!(matches!(last, NextStep::End));
}

#[test]
fn end_inside_a_frame_is_an_error() {
    let (frames, last) = delivered(&[b"\x02ab\x03c", b""]);
    assert_eq!(frames, [b"ab"]);
    assert!(matches!(
        last,
        NextStep::Error(QuicFramedError::StreamFinished)
    ));
    // A header that is cut.
    let (_, last) = delivered(&[b"\x41", b""]);
    assert!(matches!(
        last,
        NextStep::Error(QuicFramedError::StreamFinished)
    ));
}

#[test]
fn end_right_behind_a_header_is_an_error() {
    let (frames, last) = delivered(&[b"\x05", b""]);
    assert!(frames.is_empty());
    assert!(matches!(
        last,
        NextStep::Error(QuicFramedError::StreamFinished)
    ));
    // The header of an empty frame is all of it.
    let (frames, last) = delivered(&[b"\x00", b""]);
    assert_eq!(frames, [b""]);
    assert!(matches!(last, NextStep::End));
}

#[test]
fn the_end_is_final() {
    let mut stream = QuicBytesFramed::new();
    assert!(matches!(stream.poll_next(), NextStep::Read));
    assert!(matches!(
        stream.on_read(ReadEvent::Data(b"\x05ab")),
        NextStep::Read
    ));
    assert!(matches!(
        stream.on_read(ReadEvent::Data(b"")),
        NextStep::Error(QuicFramedError::StreamFinished)
    ));
    assert!(matches!(stream.poll_next(), NextStep::End));
    assert!(matches!(stream.poll_next(), NextStep::End));
}

#[test]
fn pending_and_failed_reads_change_nothing() {
    let mut stream = QuicBytesFramed::new();
    assert!(matches!(
        stream.on_read(ReadEvent::Data(b"\x03a")),
        NextStep::Read
    ));
    assert!(matches!(
        stream.on_read(ReadEvent::Pending),
        NextStep::Pending
    ));
    let error = std::io::Error::new(std::io::ErrorKind::Other, "connection lost");
    match stream.on_read(ReadEvent::Failed(error)) {
        NextStep::Error(QuicFramedError::Io(e)) => assert_eq!(e.to_string(), "connection lost"),
        _ => panic!("unexpected step"),
    }
    match stream.on_read(ReadEvent::Data(b"bc")) {
        NextStep::Frame(frame) => assert_eq!(&frame[..], b"abc"),
        _ => panic!("unexpected step"),
    }
}

#[test]
fn pending_and_failed_writes_change_nothing() {
    let mut sink = QuicBytesFramed::new();
    assert!(matches!(sink.poll_flush(), WriteStep::Flushed));
    sink.start_send(Bytes::from_static(b"abc")).unwrap();
    assert!(matches!(
        sink.on_write(WriteEvent::Pending),
        WriteStep::Pending
    ));
    let error = std::io::Error::new(std::io::ErrorKind::Other, "stopped");
    match sink.on_write(WriteEvent::Failed(error)) {
        WriteStep::Error(error) => assert_eq!(error.message(), "QUIC IO error: stopped"),
        _ => panic!("unexpected step"),
    }
    assert_eq!(sink.unsent(), b"\x03abc");
}

#[test]
fn close_flushes_first() {
    let mut sink = QuicBytesFramed::new();
    assert!(matches!(sink.poll_close(), CloseStep::Finish));
    sink.start_send(Bytes::from_static(b"abc")).unwrap();
    assert!(matches!(sink.poll_close(), CloseStep::Write));
    assert!(matches!(
        sink.on_close_write(WriteEvent::Written(3)),
        CloseStep::Write
    ));
    assert!(matches!(
        sink.on_close_write(WriteEvent::Pending),
        CloseStep::Pending
    ));
    let error = std::io::Error::new(std::io::ErrorKind::Other, "stopped");
    assert!(matches!(
        sink.on_close_write(WriteEvent::Failed(error)),
        CloseStep::Error(QuicFramedError::Io(_))
    ));
    assert!(matches!(
        sink.on_close_write(WriteEvent::Written(1)),
        CloseStep::Finish
    ));
}

#[test]
fn error_texts() {
    assert_eq!(
        QuicFramedError::FrameTooLarge(1048577).message(),
        "frame too large: 1048577 bytes (max 1048576)"
    );
    assert_eq!(
        QuicFramedError::StreamFinished.message(),
        "stream finished with partial frame"
    );
    let error = std::io::Error::new(std::io::ErrorKind::Other, "gone");
    assert_eq!(
        QuicFramedError::from(error).message(),
        "QUIC IO error: gone"
    );
}

#[test]
fn there_is_no_keying_material() {
    let framed = QuicBytesFramed::new();
    assert_eq!(
        framed.export_keying_material([0u8; 32], b"label", Some(b"context")),
        None
    );
}
