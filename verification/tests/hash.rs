use datasketches::hash::DEFAULT_SEED;
use datasketches::hash::hash_bytes;
use datasketches::hash::hash_word;
use datasketches::hash::i64_word;
use datasketches::hash::to_signed16;
use datasketches::hash::to_signed32;
use datasketches::hash::to_signed8;

#[test]
fn hash_of_nothing_under_seed_zero_is_zero() {
    assert_eq!(hash_bytes(&[], 0), 0);
}

#[test]
fn hash_of_hello_is_the_published_value() {
    assert_eq!(hash_bytes("hello".as_bytes(), 0), 0xcbd8a7b341bd9b02);
}

#[test]
fn hash_of_the_fox_sentence_is_the_published_value() {
    let text = "The quick brown fox jumps over the lazy dog";
    assert_eq!(hash_bytes(text.as_bytes(), 0), 0xe34bbc7bbc071b6c);
}

#[test]
fn hash_of_a_word_is_the_hash_of_its_eight_bytes() {
    for word in [0u64, 1, 7, 0xFFFF_FFFF_FFFF_FFFF, 0x0123_4567_89AB_CDEF] {
        assert_eq!(
            hash_word(word, DEFAULT_SEED),
            hash_bytes(&word.to_le_bytes(), DEFAULT_SEED)
        );
    }
}

#[test]
fn hash_depends_on_the_seed() {
    assert_ne!(hash_word(1, 9001), hash_word(1, 9002));
}

#[test]
fn hash_reads_tails_of_every_length() {
    let data: Vec<u8> = (0u8..40).collect();
    let mut seen: Vec<u64> = Vec::new();
    for n in 0..40 {
        let h = hash_bytes(&data[..n], DEFAULT_SEED);
        assert!(!seen.contains(&h));
        seen.push(h);
    }
}

#[test]
fn signed_views_keep_the_bits() {
    assert_eq!(to_signed8(0xFF), -1);
    assert_eq!(to_signed8(0x80), i8::MIN);
    assert_eq!(to_signed8(0x7F), i8::MAX);
    assert_eq!(to_signed16(0xFFFF), -1);
    assert_eq!(to_signed16(0x8000), i16::MIN);
    assert_eq!(to_signed32(0xFFFF_FFFF), -1);
    assert_eq!(to_signed32(0x8000_0000), i32::MIN);
    assert_eq!(to_signed32(5), 5);
    assert_eq!(i64_word(-1), u64::MAX);
    assert_eq!(i64_word(7), 7);
}
