use voxel_logic::framing::{encode_frame, split_frames, FrameBuffer, DELIM, FILL};
use voxel_logic::network::MAX_INCOMING_SIZE;

#[test]
fn delimiter_and_fill_bytes() {
    assert_eq!(DELIM, 0);
    assert_eq!(FILL, 1);
}

#[test]
fn encode_frame_appends_the_delimiter() {
    assert_eq!(encode_frame(&b"{}".to_vec()), vec![b'{', b'}', 0]);
    assert_eq!(encode_frame(&vec![]), vec![0]);
}

#[test]
fn split_frames_cuts_at_every_delimiter() {
    assert_eq!(split_frames(&vec![]), (vec![], vec![]));
    assert_eq!(split_frames(&b"abc".to_vec()), (vec![], b"abc".to_vec()));
    assert_eq!(split_frames(&b"abc\0".to_vec()), (vec![b"abc".to_vec()], vec![]));
    assert_eq!(
        split_frames(&b"ab\0cd\0e".to_vec()),
        (vec![b"ab".to_vec(), b"cd".to_vec()], b"e".to_vec())
    );
    assert_eq!(split_frames(&b"\0\0x".to_vec()), (vec![vec![], vec![]], b"x".to_vec()));
    // the fill byte is a byte like any other
    assert_eq!(split_frames(&vec![1, 1, 0, 1]), (vec![vec![1, 1]], vec![1]));
}

#[test]
fn frames_survive_the_wire() {
    let messages = vec![b"{\"action\":\"BothNothing\"}".to_vec(), b"x".to_vec(), vec![]];
    let mut stream = Vec::new();
    for message in &messages {
        stream.extend(encode_frame(message));
    }
    assert_eq!(split_frames(&stream), (messages.clone(), vec![]));
    // whatever the sizes of the reads
    for size in 1..stream.len() + 1 {
        let mut buffer = FrameBuffer::new();
        let mut got = Vec::new();
        for chunk in stream.chunks(size) {
            got.extend(buffer.feed(&chunk.to_vec()).unwrap());
        }
        assert_eq!(got, messages);
    }
}

#[test]
fn frame_buffer_keeps_what_has_not_ended() {
    let mut buffer = FrameBuffer::new();
    assert_eq!(buffer.feed(&b"he".to_vec()), Some(vec![]));
    assert_eq!(buffer.feed(&b"llo\0wor".to_vec()), Some(vec![b"hello".to_vec()]));
    assert_eq!(buffer.feed(&vec![]), Some(vec![]));
    assert_eq!(buffer.feed(&b"ld\0\0".to_vec()), Some(vec![b"world".to_vec(), vec![]]));
    assert_eq!(buffer.feed(&b"\0".to_vec()), Some(vec![vec![]]));
}

#[test]
fn frame_buffer_gives_up_at_the_limit() {
    let mut buffer = FrameBuffer::new();
    assert_eq!(buffer.feed(&vec![7; MAX_INCOMING_SIZE - 1]), Some(vec![]));
    // one more byte without a delimiter fills the buffer
    assert_eq!(buffer.feed(&vec![7]), None);
    // what waited is forgotten
    assert_eq!(buffer.feed(&b"a\0".to_vec()), Some(vec![b"a".to_vec()]));
    let mut buffer = FrameBuffer::new();
    assert_eq!(buffer.feed(&vec![7; MAX_INCOMING_SIZE - 1]), Some(vec![]));
    assert_eq!(buffer.feed(&vec![7, 0, 8]), Some(vec![vec![7; MAX_INCOMING_SIZE]]));
    let mut buffer = FrameBuffer::new();
    let mut long = vec![7; MAX_INCOMING_SIZE + 1];
    long.push(0);
    assert_eq!(buffer.feed(&long), None);
}
