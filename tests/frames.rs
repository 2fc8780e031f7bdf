use frame_cache::frame::{
    extract_frame_hw_rgba, frame_byte_size, generate_dummy_frame, generate_empty_frame,
    pack_rgba_rows,
};
use frame_cache::future::ManualFuture;

#[test]
fn empty_frame_is_red() {
    let f = generate_empty_frame(3, 2);
    assert_eq!(f.len(), 24);
    for px in f.chunks(4) {
        assert_eq!(px, &[255, 0, 0, 255]);
    }
    assert!(generate_empty_frame(0, 5).is_empty());
}

#[test]
fn dummy_frame_gradient() {
    let f = generate_dummy_frame(4, 2);
    assert_eq!(f.len(), 32);
    // pixel (x, y) = (x * 255 / 4, y * 255 / 2, 128, 255)
    assert_eq!(&f[0..4], &[0, 0, 128, 255]);
    assert_eq!(&f[4..8], &[63, 0, 128, 255]);
    assert_eq!(&f[12..16], &[191, 0, 128, 255]);
    assert_eq!(&f[16..20], &[0, 127, 128, 255]);
    assert_eq!(&f[28..32], &[191, 127, 128, 255]);
}

#[test]
fn frame_byte_size_is_four_per_pixel() {
    assert_eq!(frame_byte_size(1920, 1080), 8_294_400);
    assert_eq!(frame_byte_size(0, 1080), 0);
}

#[test]
fn pack_rows_drops_padding() {
    // Two rows of one pixel each, rows eight bytes apart.
    let data = vec![1, 2, 3, 4, 0, 0, 0, 0, 5, 6, 7, 8];
    assert_eq!(pack_rgba_rows(&data, 8, 1, 2), vec![1, 2, 3, 4, 5, 6, 7, 8]);
    let tight = vec![9u8; 16];
    assert_eq!(pack_rgba_rows(&tight, 8, 2, 2), tight);
}

#[test]
fn extract_takes_first_frame() {
    let window = Ok(vec![(7usize, vec![1u8; 4]), (8usize, vec![2u8; 4])]);
    assert_eq!(extract_frame_hw_rgba(window, 1, 1), Ok(vec![1u8; 4]));
}

#[test]
fn extract_empty_window_gives_empty_frame() {
    assert_eq!(extract_frame_hw_rgba(Ok(vec![]), 2, 1), Ok(generate_empty_frame(2, 1)));
}

#[test]
fn extract_passes_error() {
    assert_eq!(
        extract_frame_hw_rgba(Err("no video stream found".to_string()), 2, 1),
        Err("no video stream found".to_string())
    );
}

#[test]
fn future_complete_twice_keeps_first() {
    let mut f: ManualFuture<Vec<u8>> = ManualFuture::new();
    assert!(!f.is_completed());
    assert!(f.now().is_none());
    assert!(f.complete(vec![1]));
    assert!(!f.complete(vec![2]));
    assert!(f.is_completed());
    assert_eq!(*f.now().unwrap(), vec![1]);
    let a = f.now().unwrap();
    let b = f.now().unwrap();
    assert!(std::sync::Arc::ptr_eq(&a, &b));
}

#[test]
fn future_new_completed() {
    let mut f = ManualFuture::new_completed(5u32);
    assert!(f.is_completed());
    assert!(!f.complete(6));
    assert_eq!(*f.now().unwrap(), 5);
}
