use zaohelper::error::LibError;
use zaohelper::spectrogram::{
    load_spectrogram_bytes, save_spectrogram_bytes, spectrogram_round_trip, SpectrogramArtifact,
};

// Saving an artifact and loading it back returns an artifact with identical
// width, height, and a buffer equal element for element, bit-exact for the
// underlying 32-bit float samples.
#[test]
fn save_then_load_is_bit_exact() {
    let width = 512u64;
    let height = 512u64;
    let buffer: Vec<u32> = (0..width * height)
        .map(|i| ((i as f32).sin() * 1000.0).to_bits())
        .collect();
    let artifact = SpectrogramArtifact { width, height, buffer: buffer.clone() };
    let bytes = save_spectrogram_bytes(&artifact);
    let loaded = load_spectrogram_bytes(&bytes).unwrap();
    assert_eq!(loaded.width, width);
    assert_eq!(loaded.height, height);
    assert_eq!(loaded.buffer.len(), buffer.len());
    for (a, b) in loaded.buffer.iter().zip(buffer.iter()) {
        assert_eq!(a, b);
        assert_eq!(f32::from_bits(*a), f32::from_bits(*b));
    }
}

#[test]
fn round_trip_helper_reproduces_artifact() {
    let artifact = SpectrogramArtifact {
        width: 3,
        height: 2,
        buffer: vec![
            1.5f32.to_bits(),
            (-0.25f32).to_bits(),
            f32::INFINITY.to_bits(),
            0u32,
            42u32,
            u32::MAX,
        ],
    };
    let out = spectrogram_round_trip(&artifact);
    assert_eq!(out.width, artifact.width);
    assert_eq!(out.height, artifact.height);
    assert_eq!(out.buffer, artifact.buffer);
}

#[test]
fn empty_buffer_round_trips() {
    let artifact = SpectrogramArtifact { width: 0, height: 0, buffer: vec![] };
    let out = spectrogram_round_trip(&artifact);
    assert_eq!(out.width, 0);
    assert_eq!(out.buffer.len(), 0);
}

// The container's byte layout is the one the contracts state: eight
// little-endian bytes each for width, height and sample count, then four
// little-endian bytes per sample.
#[test]
fn container_layout_is_fixed_little_endian() {
    let artifact = SpectrogramArtifact {
        width: 1,
        height: 2,
        buffer: vec![7, 0x0102_0304],
    };
    let bytes = save_spectrogram_bytes(&artifact);
    let expected: Vec<u8> = vec![
        1, 0, 0, 0, 0, 0, 0, 0, // width
        2, 0, 0, 0, 0, 0, 0, 0, // height
        2, 0, 0, 0, 0, 0, 0, 0, // sample count
        7, 0, 0, 0, // first sample
        4, 3, 2, 1, // second sample
    ];
    assert_eq!(bytes, expected);
}

#[test]
fn garbage_bytes_fail_to_load() {
    let r = load_spectrogram_bytes(&vec![1, 2, 3]);
    assert!(matches!(r, Err(LibError::Serialization)));
}

// A header whose sample count does not match the input's size is rejected
// before any decoding: a forged huge count must fail cleanly instead of
// driving the decoder's allocator.
#[test]
fn forged_sample_count_is_rejected() {
    let mut bytes: Vec<u8> = vec![0; 24];
    for b in &mut bytes[16..24] {
        *b = 0xFF;
    }
    let r = load_spectrogram_bytes(&bytes);
    assert!(matches!(r, Err(LibError::Serialization)));

    let mut mid: Vec<u8> = vec![0; 28];
    mid[16] = 2; // claims two samples, input carries one
    let r2 = load_spectrogram_bytes(&mid);
    assert!(matches!(r2, Err(LibError::Serialization)));

    let mut truncated: Vec<u8> = vec![0; 23];
    truncated[16] = 0;
    let r3 = load_spectrogram_bytes(&truncated);
    assert!(matches!(r3, Err(LibError::Serialization)));
}
