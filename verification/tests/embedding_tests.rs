use ringil::embedding::{compress_binary, compress_embedding, vec_to_bytes, CompressionType};

fn bits(v: &[f32]) -> Vec<u32> {
    v.iter().map(|f| f.to_bits()).collect()
}

#[test]
fn binary_packs_sign_bits_low_first() {
    let v = [1.0f32, -1.0, 0.0, 2.5, -0.0, f32::NAN, f32::INFINITY, 1e-30, 3.0];
    let packed = compress_binary(&bits(&v));
    // bits 0, 3, 6, 7 of the first byte; bit 0 of the second.
    assert_eq!(packed, vec![0b1100_1001, 0b0000_0001]);
    assert_eq!(compress_binary(&[]), Vec::<u8>::new());
    let big: Vec<f32> = (0..512).map(|i| if i % 2 == 0 { 1.0 } else { -1.0 }).collect();
    let packed = compress_binary(&bits(&big));
    assert_eq!(packed.len(), 64);
    assert!(packed.iter().all(|&b| b == 0b0101_0101));
}

#[test]
fn uncompressed_is_little_endian() {
    let v = [1.0f32, -2.0];
    let mut expected = 1.0f32.to_le_bytes().to_vec();
    expected.extend_from_slice(&(-2.0f32).to_le_bytes());
    assert_eq!(vec_to_bytes(&bits(&v)), expected);
    assert_eq!(vec_to_bytes(&[0x0403_0201]), vec![1, 2, 3, 4]);
}

#[test]
fn embedding_carries_model_hash_and_method() {
    let v = bits(&[0.5, -0.5, 0.25]);
    let e = compress_embedding(&v, CompressionType::Binary, "123456789");
    assert_eq!(e.model_hash, 0xCBF4_3926);
    assert_eq!(e.compression, 1);
    assert_eq!(e.signature, vec![0b101]);
    let e = compress_embedding(&v, CompressionType::Uncompressed, "");
    assert_eq!(e.model_hash, 0);
    assert_eq!(e.compression, 0);
    assert_eq!(e.signature.len(), 12);
    assert_eq!(CompressionType::Codebook.code(), 2);
}
