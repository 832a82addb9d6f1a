use ipc_server::framing::{FrameBuffer, FrameStep, FRAME_DELIMITER, MAX_FRAME_BYTES};

fn feed(buffer: &mut FrameBuffer, bytes: &[u8]) -> Vec<Vec<u8>> {
    let mut frames = Vec::new();
    for &byte in bytes {
        match buffer.push_byte(byte) {
            FrameStep::Frame(frame) => frames.push(frame),
            FrameStep::Buffered => {}
            FrameStep::Oversized => panic!("frame unexpectedly oversized"),
        }
    }
    frames
}

#[test]
fn delimiter_closes_a_frame() {
    let mut buffer = FrameBuffer::new(MAX_FRAME_BYTES);
    let frames = feed(&mut buffer, b"ping\n");
    assert_eq!(frames, vec![b"ping".to_vec()]);
}

#[test]
fn partial_frames_are_buffered_until_complete() {
    let mut buffer = FrameBuffer::new(MAX_FRAME_BYTES);
    assert!(feed(&mut buffer, b"pi").is_empty());
    assert!(feed(&mut buffer, b"ng").is_empty());
    let frames = feed(&mut buffer, b"\npong\n");
    assert_eq!(frames, vec![b"ping".to_vec(), b"pong".to_vec()]);
}

#[test]
fn empty_frames_and_delimiter_value() {
    assert_eq!(FRAME_DELIMITER, b'\n');
    let mut buffer = FrameBuffer::new(MAX_FRAME_BYTES);
    let frames = feed(&mut buffer, b"\n\n");
    assert_eq!(frames, vec![Vec::new(), Vec::new()]);
}

#[test]
fn oversized_frame_is_reported_and_buffer_reset() {
    let mut buffer = FrameBuffer::new(3);
    assert!(matches!(buffer.push_byte(b'a'), FrameStep::Buffered));
    assert!(matches!(buffer.push_byte(b'b'), FrameStep::Buffered));
    assert!(matches!(buffer.push_byte(b'c'), FrameStep::Buffered));
    assert!(matches!(buffer.push_byte(b'd'), FrameStep::Oversized));

    // The buffer is usable again after the reset.
    let frames = feed(&mut buffer, b"ok\n");
    assert_eq!(frames, vec![b"ok".to_vec()]);
}
