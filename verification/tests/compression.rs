use subcode::compress::{
    frame_block, has_room, train_dictionary, CompressError, Compressor, Dict, MIN_BLOCK,
};
use subcode::delta::{
    compress_with_reference, decompress_with_reference, pick_reference,
    try_decompress_with_reference, DeltaCompressor,
};

fn noise(n: usize) -> Vec<u8> {
    (0..n)
        .map(|i| {
            let mut z = i as u64;
            z = (z ^ (z >> 30)).wrapping_mul(0xBF58476D1CE4E5B9);
            z = (z ^ (z >> 27)).wrapping_mul(0x94D049BB133111EB);
            (z ^ (z >> 31)) as u8
        })
        .collect()
}

#[test]
fn roundtrip_small() {
    let c = Compressor::default();
    let data = b"hello world ".repeat(200);
    let z = c.compress(&data).unwrap();
    let d = c.decompress(&z).unwrap();
    assert_eq!(d, data);
}

#[test]
fn passthrough_incompressible() {
    let c = Compressor::default();
    let data = noise(4096);
    let z = c.compress(&data).unwrap();
    assert_eq!(z[0], 0x00, "expected passthrough for incompressible");
    let d = c.decompress(&z).unwrap();
    assert_eq!(d, data);
}

#[test]
fn compressible_blocks_shrink() {
    let c = Compressor::default();
    let data = b"hello world ".repeat(200);
    let z = c.compress(&data).unwrap();
    assert_eq!(z[0], 0x01);
    assert!(z.len() < data.len() / 10);
}

#[test]
fn small_blocks_are_kept() {
    let c = Compressor::default();
    let data = vec![b'a'; MIN_BLOCK - 1];
    let z = c.compress(&data).unwrap();
    assert_eq!(z.len(), MIN_BLOCK);
    assert_eq!(&z[1..], &data[..]);
    assert_eq!(c.decompress(&z).unwrap(), data);
    assert_eq!(c.decompress(&[0]).unwrap(), Vec::<u8>::new());
}

#[test]
fn a_frame_has_to_pay() {
    assert_eq!(frame_block(b"abcdef", b"xy"), b"\x01xy".to_vec());
    assert_eq!(frame_block(b"abc", b"wxyz"), b"\x00abc".to_vec());
}

#[test]
fn a_dictionary_is_needed_to_read_back() {
    let content = b"the quick brown fox jumps over the lazy dog ".repeat(4);
    let c = Compressor::new(Dict::from_content(9, content.clone()), 3);
    assert_eq!(c.dict().id, 9);
    assert!(!c.dict().is_empty());
    let data = b"the quick brown fox jumps over the lazy dog, twice".to_vec();
    let z = c.compress(&data).unwrap();
    assert_eq!(z[0], 0x01);
    assert_eq!(c.decompress(&z).unwrap(), data);
    let mut bare = c.with_level(5);
    bare.set_dict(Dict::empty());
    assert!(bare.dict().is_empty());
    assert!(matches!(bare.decompress(&z), Err(_)) || bare.decompress(&z).unwrap() != data);
}

#[test]
fn broken_blocks_are_refused() {
    let c = Compressor::default();
    assert!(matches!(c.decompress(&[]), Err(CompressError::Decode(_))));
    assert!(matches!(c.decompress(&[7, 1, 2]), Err(CompressError::Decode(_))));
    assert!(matches!(c.decompress(&[1, 1, 2, 3]), Err(CompressError::Decode(_))));
    let e = c.decompress(&[]).unwrap_err();
    assert!(e.message().ends_with("empty input"));
    let e = CompressError::DictId { expected: 1, got: 2 };
    assert!(!e.message().is_empty());
    let e = CompressError::Encode("full".to_string());
    assert!(e.message().ends_with("full"));
}

#[test]
fn blocks_that_claim_too_much_are_told_apart() {
    let c = Compressor::default();
    let mut huge = vec![1u8, 0x28, 0xB5, 0x2F, 0xFD, 0xE0];
    huge.extend_from_slice(&u64::MAX.wrapping_sub(2).to_le_bytes());
    assert!(!has_room(&huge));
    assert!(c.try_decompress(&huge).is_none());
    assert!(DeltaCompressor::new(b"ref", 3).try_decompress(&huge).is_none());
    assert!(try_decompress_with_reference(&huge, b"ref", 3).is_none());
    let z = c.compress(&b"hello world ".repeat(20)).unwrap();
    assert!(has_room(&z));
    let back = c.try_decompress(&z).unwrap().unwrap();
    assert_eq!(back, b"hello world ".repeat(20));
    let dc = DeltaCompressor::new(b"hello world hello world hello world", 3);
    let z = dc.compress(&b"hello world ".repeat(20)).unwrap();
    assert_eq!(dc.try_decompress(&z).unwrap().unwrap(), b"hello world ".repeat(20));
    let again = try_decompress_with_reference(&z, b"hello world hello world hello world", 3);
    assert_eq!(again.unwrap().unwrap(), b"hello world ".repeat(20));
}

#[test]
fn dictionaries_take_recent_samples_first() {
    let samples: [&[u8]; 3] = [b"cccc", b"a", b"bb"];
    let d = train_dictionary(&samples, 9).unwrap();
    assert_eq!(d, b"bbaccccbb".to_vec());
    let d = train_dictionary(&samples, 12).unwrap();
    assert_eq!(d, b"bbaccccbbacc".to_vec());
    let samples: [&[u8]; 3] = [b"bb", b"a", b"ccc"];
    assert_eq!(train_dictionary(&samples, 3).unwrap(), b"ccc".to_vec());
    let ends: [&[u8]; 1] = [b"xyz"];
    assert_eq!(train_dictionary(&ends, 5).unwrap(), b"xyzyz".to_vec());
    assert_eq!(train_dictionary(&ends, 100).unwrap(), b"xyzxyzxyz".to_vec());
    assert_eq!(train_dictionary(&[], 100).unwrap(), Vec::<u8>::new());
}

#[test]
fn blocks_read_back_at_any_level() {
    let c = Compressor::default();
    let data = b"hello world ".repeat(200);
    let z = c.compress(&data).unwrap();
    for level in [1, 3, 19] {
        assert_eq!(c.with_level(level).decompress(&z).unwrap(), data);
    }
    let z = compress_with_reference(&data, b"hello world", 3).unwrap();
    assert_eq!(decompress_with_reference(&z, b"hello world", 19).unwrap(), data);
}

#[test]
fn delta_beats_independent_on_near_identical() {
    let prev = b"fn main() { let x = 1; ".repeat(50);
    let mut next = prev.clone();
    next.extend_from_slice(b"println!(x); }");
    let level = 19;
    let indep = compress_with_reference(&next, &[], level).unwrap().len();
    let delta = compress_with_reference(&next, &prev, level).unwrap().len();
    assert!(delta <= indep, "delta {delta} should be <= indep {indep}");
    let recovered = decompress_with_reference(
        &compress_with_reference(&next, &prev, level).unwrap(),
        &prev,
        level,
    )
    .unwrap();
    assert_eq!(recovered, next);
}

#[test]
fn delta_compressor_roundtrip_and_matches_free_fn() {
    let prev = b"fn main() { let x = 1; ".repeat(50);
    let mut next = prev.clone();
    next.extend_from_slice(b"println!(x); }");
    let level = 19;
    let dc = DeltaCompressor::new(&prev, level);
    let blob = dc.compress(&next).unwrap();
    let free = compress_with_reference(&next, &prev, level).unwrap();
    assert_eq!(blob, free);
    assert_eq!(dc.decompress(&blob).unwrap(), next);
    let dc0 = DeltaCompressor::new(&[], level);
    let b0 = dc0.compress(&next).unwrap();
    assert_eq!(dc0.decompress(&b0).unwrap(), next);
}

#[test]
fn the_nearest_reference_is_picked() {
    let candidates: [&[u8]; 3] = [b"abx", b"abcd", b"abcz"];
    assert_eq!(pick_reference(b"abcq", &candidates), Some(&b"abcz"[..]));
    assert_eq!(pick_reference(b"zzz", &candidates), Some(&b"abcz"[..]));
    assert_eq!(pick_reference(b"abcd", &candidates), Some(&b"abcd"[..]));
    assert_eq!(pick_reference(b"abc", &[]), None);
}
