use rrg_codec::frame::{frame_record, write_marker, FrameSource};

#[test]
fn small_length_takes_one_marker_byte() {
    assert_eq!(frame_record(&vec![1, 2, 3]), vec![3, 1, 2, 3]);
    assert_eq!(frame_record(&Vec::new()), vec![0]);
}

#[test]
fn large_length_takes_several_marker_bytes() {
    let mut out = Vec::new();
    write_marker(&mut out, 300);
    assert_eq!(out, vec![0xac, 0x02]);
    let mut out = vec![9];
    write_marker(&mut out, u64::MAX);
    assert_eq!(out, vec![9, 0xff, 0xff, 0xff, 0xff, 0xff, 0xff, 0xff, 0xff, 0xff, 0x01]);
    let record = vec![5u8; 128];
    let framed = frame_record(&record);
    assert_eq!(&framed[..2], &[0x80, 0x01]);
    assert_eq!(framed.len(), 130);
}

#[test]
fn frame_source_reads_frames_back_to_back() {
    let mut source = FrameSource::new(vec![vec![1, 2], vec![], vec![3]]);
    let mut all = Vec::new();
    loop {
        let chunk = source.read(2);
        assert!(chunk.len() <= 2);
        if chunk.is_empty() {
            break;
        }
        all.extend(chunk);
    }
    assert_eq!(all, vec![2, 1, 2, 0, 1, 3]);
}
