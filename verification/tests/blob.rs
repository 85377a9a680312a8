use vectordb::blob::{blob_components, check_blobs, components_blob, CosineErr};
use vectordb::distance::distance;
use vectordb::types::DistanceMetric;

#[test]
fn blobs_must_be_aligned_and_of_one_length() {
    assert_eq!(check_blobs(&[0; 8], &[1; 8]), Ok(2));
    assert_eq!(check_blobs(&[], &[]), Ok(0));
    assert_eq!(check_blobs(&[0; 7], &[1; 8]), Err(CosineErr::Align));
    assert_eq!(check_blobs(&[0; 8], &[1; 9]), Err(CosineErr::Align));
    assert_eq!(check_blobs(&[0; 7], &[1; 3]), Err(CosineErr::Align));
    assert_eq!(check_blobs(&[0; 8], &[1; 4]), Err(CosineErr::Length));
}

#[test]
fn components_are_little_endian_words() {
    let blob = [0x00, 0x00, 0x80, 0x3f, 0x01, 0x02, 0x03, 0x04, 0xff];
    assert_eq!(blob_components(&blob), vec![0x3f80_0000, 0x0403_0201]);
    assert_eq!(f32::from_bits(blob_components(&blob)[0]), 1.0);
    assert_eq!(blob_components(&[1, 2, 3]), Vec::<u32>::new());
    let words = vec![0u32, 1, 0xdead_beef, u32::MAX, 2.5f32.to_bits()];
    let bytes = components_blob(&words);
    assert_eq!(bytes.len(), 20);
    assert_eq!(bytes[8..12], [0xef, 0xbe, 0xad, 0xde]);
    assert_eq!(blob_components(&bytes), words);
    assert_eq!(components_blob(&Vec::new()), Vec::<u8>::new());
}

#[test]
fn the_kernel_is_called_with_the_metric() {
    let kernel = |a: &Vec<u32>, b: &Vec<u32>, metric: DistanceMetric| -> u32 {
        let sum: u32 = a.iter().zip(b.iter()).map(|(x, y)| x.abs_diff(*y)).sum();
        match metric {
            DistanceMetric::Manhattan => sum,
            _ => 0,
        }
    };
    assert_eq!(distance(&vec![1, 5], &vec![4, 3], DistanceMetric::Manhattan, &kernel), 5);
    assert_eq!(distance(&vec![1, 5], &vec![4, 3], DistanceMetric::Cosine, &kernel), 0);
}
