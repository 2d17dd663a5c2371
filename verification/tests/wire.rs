use ymir::error::CacheError;
use ymir::wire::{push_bytes, push_u16, push_u32, push_u64, u16_at, u32_at, u64_at};

#[test]
fn integers_are_written_low_byte_first() {
    let mut buffer = vec![0xaa];
    push_u16(&mut buffer, 0x1234);
    push_u32(&mut buffer, 0x89abcdef);
    push_u64(&mut buffer, 0x0102030405060708);
    assert_eq!(
        buffer,
        vec![0xaa, 0x34, 0x12, 0xef, 0xcd, 0xab, 0x89, 8, 7, 6, 5, 4, 3, 2, 1]
    );
    assert_eq!(u16_at(&buffer, 1), 0x1234);
    assert_eq!(u32_at(&buffer, 3), 0x89abcdef);
    assert_eq!(u64_at(&buffer, 7), 0x0102030405060708);
}

#[test]
fn integers_agree_with_the_byte_order_of_std() {
    for x in [0u64, 1, 255, 256, 65535, 65536, u32::MAX as u64, u64::MAX, 0x8000_0000_0000_0001] {
        let mut buffer = Vec::new();
        push_u64(&mut buffer, x);
        assert_eq!(buffer, x.to_le_bytes());
        assert_eq!(u64_at(&buffer, 0), x);
        let mut buffer = Vec::new();
        push_u32(&mut buffer, x as u32);
        assert_eq!(buffer, (x as u32).to_le_bytes());
        assert_eq!(u32_at(&buffer, 0), x as u32);
        let mut buffer = Vec::new();
        push_u16(&mut buffer, x as u16);
        assert_eq!(buffer, (x as u16).to_le_bytes());
        assert_eq!(u16_at(&buffer, 0), x as u16);
    }
}

#[test]
fn bytes_are_appended() {
    let mut buffer = vec![1];
    push_bytes(&mut buffer, &[2, 3]);
    push_bytes(&mut buffer, &[]);
    assert_eq!(buffer, vec![1, 2, 3]);
}

#[test]
fn errors_have_messages() {
    let all = [
        CacheError::MagicMismatch,
        CacheError::VersionMismatch,
        CacheError::TruncatedInput,
        CacheError::InvalidUtf8,
        CacheError::LengthOverflow,
        CacheError::CodeLengthOverflow,
    ];
    for (i, a) in all.iter().enumerate() {
        assert!(!a.message().is_empty());
        for b in &all[i + 1..] {
            assert_ne!(a.message(), b.message());
        }
    }
    assert_eq!(CacheError::MagicMismatch.message(), "Invalid magic value");
}
