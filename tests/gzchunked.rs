use protobuf::well_known_types::{BytesValue, Empty, StringValue};
use protobuf::Message;
use rrg_codec::gzchunked::{
    decode, decode_all, encode, encode_all, encode_with_opts, Compression, DecodeError, EncodeOpts,
};

fn string<S: Into<String>>(value: S) -> StringValue {
    let mut proto = StringValue::new();
    proto.set_value(value.into());
    proto
}

fn bytes<B: Into<Vec<u8>>>(value: B) -> BytesValue {
    let mut proto = BytesValue::new();
    proto.set_value(value.into());
    proto
}

fn serialize<M: Message>(message: &M) -> Vec<u8> {
    message.write_to_bytes().unwrap()
}

fn collect_parts(mut enc: rrg_codec::gzchunked::Encode) -> Vec<Vec<u8>> {
    let mut parts = Vec::new();
    while let Some(part) = enc.next() {
        parts.push(part.unwrap());
    }
    parts
}

fn repeated_sample_round_trip(compression: Compression) {
    let sample = bytes(rand::random::<[u8; 32]>().to_vec());
    let items = std::iter::repeat(serialize(&sample)).take(32 * 1024).collect::<Vec<_>>();

    let opts = EncodeOpts { compression, part_size: 4 * 1024 };

    let chunks = collect_parts(encode_with_opts(items, opts));

    let mut iter = decode(chunks);
    let mut count = 0;
    while let Some(item) = iter.next() {
        let item = BytesValue::parse_from_bytes(&item.unwrap()).unwrap();
        assert!(item == sample);
        count += 1;
    }
    assert_eq!(count, 32 * 1024);
}

#[test]
fn test_encode_with_empty_iter() {
    let mut iter = encode(Vec::new());
    assert!(iter.next().is_none());
}

#[test]
fn test_decode_with_empty_iter() {
    let mut iter = decode(Vec::new());
    assert!(iter.next().is_none());
}

#[test]
fn test_encode_and_decode_with_single_item_iter() {
    let chunks = collect_parts(encode(vec![serialize(&string("foo"))]));

    let mut iter = decode(chunks);
    let first = StringValue::parse_from_bytes(&iter.next().unwrap().unwrap()).unwrap();
    assert_eq!(first, string("foo"));
    assert!(iter.next().is_none());
}

#[test]
fn test_encode_and_decode_with_multiple_items_iter() {
    let data = vec![serialize(&string("foo")), serialize(&string("bar")), serialize(&string("baz"))];

    let chunks = collect_parts(encode(data));

    let mut iter = decode(chunks);
    let mut next = || StringValue::parse_from_bytes(&iter.next().unwrap().unwrap()).unwrap();
    assert_eq!(next(), string("foo"));
    assert_eq!(next(), string("bar"));
    assert_eq!(next(), string("baz"));
    assert!(iter.next().is_none());
}

#[test]
fn test_encode_and_decode_with_empty_items_iter() {
    let data = vec![serialize(&Empty::new()), serialize(&Empty::new()), serialize(&Empty::new())];

    let chunks = collect_parts(encode(data));

    let mut iter = decode(chunks);
    let mut next = || Empty::parse_from_bytes(&iter.next().unwrap().unwrap()).unwrap();
    assert_eq!(next(), Empty::new());
    assert_eq!(next(), Empty::new());
    assert_eq!(next(), Empty::new());
    assert!(iter.next().is_none());
}

#[test]
fn test_encode_and_decode_with_many_items_iter() {
    repeated_sample_round_trip(Compression::default());
}

#[test]
fn test_encode_and_decode_with_no_compression() {
    repeated_sample_round_trip(Compression::none());
}

#[test]
fn test_encode_and_decode_with_best_compression() {
    repeated_sample_round_trip(Compression::best());
}

fn sample_records() -> Vec<Vec<u8>> {
    let mut records = Vec::new();
    for i in 0..200u32 {
        let len = (i * 37 % 300) as usize;
        records.push((0..len).map(|j| (j as u32 * 7 + i) as u8).collect());
    }
    records
}

#[test]
fn round_trip_holds_for_every_part_size() {
    let records = sample_records();
    let total: usize = records.iter().map(|r| r.len() + 2).sum();
    for part_size in [0u64, 1, 16, 1000, total as u64, 1 << 40] {
        let opts = EncodeOpts { compression: Compression::default(), part_size };
        let parts = encode_all(records.clone(), opts).unwrap();
        assert!(!parts.is_empty());
        assert_eq!(decode_all(parts).unwrap(), records);
    }
}

#[test]
fn tiny_part_size_splits_frames_across_parts() {
    let records = vec![vec![7u8; 20000], vec![9u8; 20000]];
    let opts = EncodeOpts { compression: Compression::none(), part_size: 1 };
    let parts = encode_all(records.clone(), opts).unwrap();
    assert!(parts.len() > 2);
    assert_eq!(decode_all(parts).unwrap(), records);
}

#[test]
fn round_trip_holds_for_every_level() {
    let records = sample_records();
    let mut sizes = Vec::new();
    for level in 0..=9 {
        let opts = EncodeOpts { compression: Compression::new(level), part_size: 4096 };
        let parts = encode_all(records.clone(), opts).unwrap();
        sizes.push(parts.iter().map(|p| p.len()).sum::<usize>());
        assert_eq!(decode_all(parts).unwrap(), records);
    }
    assert!(sizes[9] < sizes[0]);
}

#[test]
fn empty_sequence_has_no_parts_and_no_records() {
    let parts = encode_all(Vec::new(), EncodeOpts::default()).unwrap();
    assert!(parts.is_empty());
    assert_eq!(decode_all(Vec::new()).unwrap(), Vec::<Vec<u8>>::new());
}

#[test]
fn single_empty_record_round_trips() {
    let parts = encode_all(vec![Vec::new()], EncodeOpts::default()).unwrap();
    assert_eq!(parts.len(), 1);
    assert_eq!(decode_all(parts).unwrap(), vec![Vec::<u8>::new()]);
}

#[test]
fn volume_of_identical_records_gives_several_parts() {
    let record: Vec<u8> = (0..32u8).map(|b| b.wrapping_mul(73).wrapping_add(11)).collect();
    let records = vec![record; 32768];
    for compression in [Compression::none(), Compression::default()] {
        let opts = EncodeOpts { compression, part_size: 4096 };
        let parts = encode_all(records.clone(), opts).unwrap();
        if compression.level() == 0 {
            assert!(parts.len() > 1);
        }
        let decoded = decode_all(parts).unwrap();
        assert_eq!(decoded.len(), 32768);
        assert!(decoded == records);
    }
}

#[test]
fn truncated_last_part_is_rejected() {
    let records = sample_records();
    let opts = EncodeOpts { compression: Compression::default(), part_size: 1024 };
    let mut parts = encode_all(records, opts).unwrap();
    let last = parts.last_mut().unwrap();
    last.pop();
    assert!(decode_all(parts).is_err());
}

#[test]
fn every_part_but_the_last_reaches_the_target() {
    let records = vec![vec![3u8; 100]; 4000];
    for compression in [Compression::none(), Compression::default(), Compression::best()] {
        let part_size = 2048u64;
        let opts = EncodeOpts { compression, part_size };
        let parts = encode_all(records.clone(), opts).unwrap();
        for part in &parts[..parts.len() - 1] {
            assert!(part.len() as u64 >= part_size);
        }
        assert_eq!(decode_all(parts).unwrap(), records);
    }
}

fn gzip(data: &[u8]) -> Vec<u8> {
    let mut enc = flate2::write::GzEncoder::new(Vec::new(), flate2::Compression::default());
    std::io::Write::write_all(&mut enc, data).unwrap();
    enc.finish().unwrap()
}

#[test]
fn stream_ending_inside_a_record_is_malformed() {
    let parts = vec![gzip(&[5, 1, 2])];
    assert!(matches!(decode_all(parts), Err(DecodeError::Malformed)));
}

#[test]
fn stream_ending_inside_a_marker_is_malformed() {
    let parts = vec![gzip(&[1, 42, 0x80])];
    assert!(matches!(decode_all(parts), Err(DecodeError::Malformed)));
}

#[test]
fn overlong_marker_is_malformed() {
    let parts = vec![gzip(&[0xff; 12])];
    assert!(matches!(decode_all(parts), Err(DecodeError::Malformed)));
}

#[test]
fn marker_above_u64_is_malformed() {
    let mut stream = vec![0xff; 9];
    stream.push(0x7f);
    let parts = vec![gzip(&stream)];
    assert!(matches!(decode_all(parts), Err(DecodeError::Malformed)));
}

#[test]
fn part_that_does_not_decompress_is_an_error() {
    let parts = vec![vec![1, 2, 3, 4, 5]];
    assert!(matches!(decode_all(parts), Err(DecodeError::Decompress(_))));
}

#[test]
fn frame_split_over_hand_made_parts_decodes() {
    let parts = vec![gzip(&[3, 10]), gzip(&[]), gzip(&[20, 30, 0, 2]), gzip(&[40, 50])];
    assert_eq!(decode_all(parts).unwrap(), vec![vec![10, 20, 30], vec![], vec![40, 50]]);
}

#[test]
fn parts_are_gzip_members_not_the_raw_stream() {
    let parts = encode_all(vec![vec![1, 2, 3]], EncodeOpts::default()).unwrap();
    assert_eq!(parts.len(), 1);
    assert_eq!(&parts[0][..2], &[0x1f, 0x8b]);
    assert_ne!(parts[0], vec![3, 1, 2, 3]);
}

#[test]
fn compression_descriptors_have_their_levels() {
    assert_eq!(Compression::none().level(), 0);
    assert_eq!(Compression::best().level(), 9);
    assert_eq!(Compression::default().level(), 5);
    assert_eq!(Compression::new(3).level(), 3);
    let opts = EncodeOpts::default();
    assert_eq!(opts.compression.level(), 5);
    assert_eq!(opts.part_size, 1024 * 1024);
}

#[test]
fn records_pushed_between_pulls_round_trip() {
    let records = sample_records();
    let opts = EncodeOpts { compression: Compression::default(), part_size: 512 };
    let mut enc = encode_with_opts(Vec::new(), opts);
    let mut dec = decode(Vec::new());
    let mut decoded = Vec::new();
    for record in records.iter() {
        enc.push_record(record.clone());
        if let Some(part) = enc.next() {
            dec.push_part(part.unwrap());
        }
    }
    while let Some(part) = enc.next() {
        dec.push_part(part.unwrap());
    }
    while let Some(record) = dec.next() {
        decoded.push(record.unwrap());
    }
    assert_eq!(decoded, records);
}

#[test]
fn decoder_reads_parts_as_they_arrive() {
    let mut dec = decode(Vec::new());
    assert!(dec.next().is_none());
    dec.push_part(gzip(&[3, 10]));
    assert!(matches!(dec.next_record(), Err(DecodeError::Malformed)));
    let mut dec = decode(vec![gzip(&[2, 10, 11, 3])]);
    assert_eq!(dec.next_record().unwrap(), Some(vec![10, 11]));
    dec.push_part(gzip(&[20, 21, 22]));
    assert_eq!(dec.next_record().unwrap(), Some(vec![20, 21, 22]));
    assert_eq!(dec.next_record().unwrap(), None);
}
