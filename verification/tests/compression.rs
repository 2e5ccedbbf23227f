//! The zstd and Yaz0 layers.
use ukmmsg2json::compression::{
    check_size, decompress, dictionary_is_intact, is_yaz0_data, or_plain_compress,
    or_plain_decompress, sort_out_yaz0, zstd_compress, zstd_decompress, Decompressed,
};
use ukmmsg2json::error::MessageError;

/// A dictionary of raw contents, as zstd takes it too.
fn dictionary() -> Vec<u8> {
    "{\"group_count\":1,\"entries\":{\"Npc_RecipeName\":{\"contents\":[{\"text\":\"Hello\"}]}}}"
        .repeat(20)
        .into_bytes()
}

/// Something that looks like a trained dictionary and is none.
fn broken_dictionary() -> Vec<u8> {
    let mut dictionary = vec![0x37, 0xA4, 0x30, 0xEC];
    dictionary.resize(2048, 0);
    dictionary
}

fn plain(d: Decompressed) -> Vec<u8> {
    match d {
        Decompressed::Plain(data) => data,
        Decompressed::Yaz0(_) => panic!("taken for Yaz0"),
    }
}

#[test]
fn test_decompress_passthrough() {
    let data = b"hello world";
    let result = plain(decompress(data, &dictionary()).unwrap());
    assert_eq!(result, data);
}

/// What is compressed is a zstd frame, and decompresses to the same.
#[test]
fn compression_reads_back_with_a_dictionary() {
    let data = b"{\"group_count\":1,\"entries\":{\"Npc_RecipeName\":{}}}";
    let out = zstd_compress(data, &dictionary()).unwrap();
    assert_eq!(out[0..4], [0x28, 0xB5, 0x2F, 0xFD]);
    assert_ne!(out, data);
    assert_eq!(zstd_decompress(&out, &dictionary()).unwrap(), data);
    assert_eq!(plain(decompress(&out, &dictionary()).unwrap()), data);
    // The dictionary was really used: without it the frame is of no use.
    assert!(matches!(
        zstd_decompress(&out, &[]),
        Err(MessageError::Zstd(_))
    ));
}

/// A dictionary that is no good is done without.
#[test]
fn compression_reads_back_without_a_dictionary() {
    let data = b"some text that has nothing to do with dictionaries";
    let out = zstd_compress(data, &broken_dictionary()).unwrap();
    assert_eq!(out[0..4], [0x28, 0xB5, 0x2F, 0xFD]);
    assert_eq!(zstd_decompress(&out, &broken_dictionary()).unwrap(), data);
    assert_eq!(zstd::decode_all(&out[..]).unwrap(), data);
    // A frame without a dictionary also reads where there is one.
    assert_eq!(zstd_decompress(&out, &dictionary()).unwrap(), data);
}

/// Data that shrinks to less than a thousandth does not fit the room that is
/// set aside, and is decompressed without the dictionary.
#[test]
fn very_compressible_data_reads_back() {
    let data = vec![0u8; 10_000_000];
    let out = zstd_compress(&data, &broken_dictionary()).unwrap();
    assert!(out.len() * 1024 < data.len());
    assert_eq!(zstd_decompress(&out, &dictionary()).unwrap(), data);
}

/// A trained dictionary, with an identifier.
fn trained_dictionary() -> Vec<u8> {
    let samples: Vec<Vec<u8>> = (0..2000)
        .map(|i| {
            format!("{{\"group_count\":{i},\"entries\":{{\"Npc_{}\":{}}}}}", i * 7919, i * 31)
                .into_bytes()
        })
        .collect();
    zstd::dict::from_samples(&samples, 4096).unwrap()
}

/// Frames that were written with an identified dictionary need it again.
#[test]
fn identified_dictionary_is_needed() {
    let dictionary = trained_dictionary();
    assert!(dictionary_is_intact(&dictionary));
    assert_ne!(dictionary[4..8], [0, 0, 0, 0]);
    let data = b"{\"group_count\":12,\"entries\":{\"Npc_5\":1}}";
    let out = zstd_compress(data, &dictionary).unwrap();
    assert_eq!(zstd_decompress(&out, &dictionary).unwrap(), data);
    assert!(zstd::decode_all(&out[..]).is_err());
    assert!(matches!(zstd_decompress(&out, &[]), Err(MessageError::Zstd(_))));
    // Data for which there is no room is not read back, and nothing else is.
    let data = vec![0u8; 10_000_000];
    let out = zstd_compress(&data, &dictionary).unwrap();
    assert!(out.len() * 1024 < data.len());
    assert!(matches!(zstd_decompress(&out, &dictionary), Err(MessageError::Zstd(_))));
}

/// A frame decompresses into exactly the room of its contents.
#[test]
fn frames_need_no_spare_room() {
    let dictionary = trained_dictionary();
    let data = b"{\"group_count\":12,\"entries\":{\"Npc_5\":1}}";
    let out = zstd_compress(data, &dictionary).unwrap();
    let mut decompressor = zstd::bulk::Decompressor::with_dictionary(&dictionary).unwrap();
    let mut buffer = vec![0u8; data.len()];
    let written = decompressor.decompress_to_buffer(&out, &mut buffer[..]).unwrap();
    assert_eq!(written, data.len());
    assert_eq!(buffer, data);
}

/// The empty file is not zstd, and its compression reads back.
#[test]
fn empty_data_reads_back() {
    assert!(plain(decompress(&[], &dictionary()).unwrap()).is_empty());
    let out = zstd_compress(&[], &dictionary()).unwrap();
    assert!(zstd_decompress(&out, &dictionary()).unwrap().is_empty());
}

/// A first attempt that succeeded is kept.
#[test]
fn first_attempt_is_kept() {
    assert_eq!(or_plain_compress(Some(vec![1, 2]), b"abc").unwrap(), vec![1, 2]);
    assert_eq!(or_plain_decompress(Some(vec![3]), b"abc").unwrap(), vec![3]);
    let out = or_plain_compress(None, b"abc").unwrap();
    assert_eq!(or_plain_decompress(None, &out).unwrap(), b"abc");
    assert!(matches!(
        or_plain_decompress(None, b"abc"),
        Err(MessageError::Zstd(_))
    ));
}

/// A damaged frame is an error.
#[test]
fn damaged_frame_is_an_error() {
    let raw = [0x28, 0xB5, 0x2F, 0xFD, 0xFF, 0xFF, 0xFF];
    assert!(matches!(
        decompress(&raw, &dictionary()),
        Err(MessageError::Zstd(_))
    ));
    // So is the magic number alone, which is taken for a frame.
    let raw = [0x28, 0xB5, 0x2F, 0xFD];
    for dictionary in [dictionary(), broken_dictionary(), Vec::new()] {
        assert!(matches!(
            decompress(&raw, &dictionary),
            Err(MessageError::Zstd(_))
        ));
        assert!(matches!(
            zstd_decompress(&raw, &dictionary),
            Err(MessageError::Zstd(_))
        ));
    }
    // Less than the magic number is not.
    assert_eq!(plain(decompress(&raw[..3], &dictionary()).unwrap()), raw[..3]);
}

/// The frame is that of the compressor at level 8 with the dictionary, or
/// without one where the dictionary is no good.
#[test]
fn frames_of_the_compressor() {
    let data = "{\"group_count\":1,\"entries\":{\"Npc_RecipeName\":{}}}".repeat(50);
    let data = data.as_bytes();
    let mut compressor = zstd::bulk::Compressor::with_dictionary(8, &dictionary()).unwrap();
    let frame = compressor.compress(data).unwrap();
    assert_eq!(zstd_compress(data, &dictionary()).unwrap(), frame);
    assert_eq!(zstd_compress(data, &dictionary()).unwrap(), frame);
    assert_eq!(
        zstd_compress(data, &broken_dictionary()).unwrap(),
        zstd::encode_all(data, 8).unwrap()
    );
    assert_ne!(frame, zstd::encode_all(data, 8).unwrap());
}

/// Compressor and decompressor take the same dictionaries.
#[test]
fn dictionaries_that_are_taken() {
    let good = [Vec::new(), b"short".to_vec(), dictionary()];
    for dictionary in &good {
        assert!(zstd::bulk::Decompressor::with_dictionary(dictionary).is_ok());
        let mut compressor = zstd::bulk::Compressor::with_dictionary(8, dictionary).unwrap();
        assert!(compressor.compress(b"data").is_ok());
        let out = zstd_compress(b"data", dictionary).unwrap();
        assert_eq!(zstd_decompress(&out, dictionary).unwrap(), b"data");
    }
    let mut magic = broken_dictionary();
    magic.truncate(8);
    for dictionary in &[broken_dictionary(), magic] {
        assert!(zstd::bulk::Decompressor::with_dictionary(dictionary).is_err());
        let taken = zstd::bulk::Compressor::with_dictionary(8, dictionary)
            .and_then(|mut compressor| compressor.compress(b"data"));
        assert!(taken.is_err());
    }
}

/// What can be given to `decompress`.
#[test]
fn sizes_that_are_taken() {
    assert!(check_size(b""));
    assert!(check_size(&[0x28, 0xB5, 0x2F, 0xFD, 0, 0]));
}

/// Yaz0 data is told apart, inside a zstd frame too.
#[test]
fn yaz0_layer_is_told_apart() {
    let data = b"Yaz0\x00\x00\x00\x05";
    match decompress(data, &dictionary()).unwrap() {
        Decompressed::Yaz0(d) => assert_eq!(d, data),
        Decompressed::Plain(_) => panic!("not taken for Yaz0"),
    }
    let frame = zstd_compress(data, &dictionary()).unwrap();
    match decompress(&frame, &dictionary()).unwrap() {
        Decompressed::Yaz0(d) => assert_eq!(d, data),
        Decompressed::Plain(_) => panic!("not taken for Yaz0"),
    }
    assert!(matches!(sort_out_yaz0(b"Yaz0".to_vec()), Decompressed::Yaz0(_)));
    assert!(is_yaz0_data(b"Yaz0"));
    assert!(!is_yaz0_data(b"Yaz"));
    assert_eq!(plain(sort_out_yaz0(b"Yaz".to_vec())), b"Yaz");
    assert_eq!(plain(sort_out_yaz0(b"Yaz1...".to_vec())), b"Yaz1...");
}

/// Size and magic number of a dictionary.
#[test]
fn dictionary_has_size_and_magic() {
    assert!(dictionary_is_intact(&broken_dictionary()));
    let mut short = broken_dictionary();
    short.truncate(1024);
    assert!(!dictionary_is_intact(&short));
    let mut least = broken_dictionary();
    least.truncate(1025);
    assert!(dictionary_is_intact(&least));
    let mut long = broken_dictionary();
    long.resize(1024 * 1024, 0);
    assert!(!dictionary_is_intact(&long));
    let mut other = broken_dictionary();
    other[0] = 0;
    assert!(!dictionary_is_intact(&other));
    assert!(!dictionary_is_intact(&[]));
}
