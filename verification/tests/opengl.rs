use tlottie::opengl::{copy_premultiplied_rgba, target_lengths, Error, FrameStaging, TextureUpload};

#[test]
fn copies_premultiplied_rgba_without_unpremultiplying() {
    let mut output = [0; 8];
    copy_premultiplied_rgba(&[0x8000_2040, 0xff56_3412], &mut output);
    assert_eq!(output, [0x40, 0x20, 0x00, 0x80, 0x12, 0x34, 0x56, 0xff]);
}

#[test]
fn rejects_empty_targets() {
    assert!(matches!(target_lengths(0, 10), Err(Error::BadTarget)));
    assert!(matches!(target_lengths(10, 0), Err(Error::BadTarget)));
}

#[test]
fn target_lengths_count_pixels_and_bytes() {
    assert!(matches!(target_lengths(3, 5), Ok((15, 60))));
    assert!(matches!(target_lengths(0x8000_0000, 1), Err(Error::BadTarget)));
}

#[test]
fn copy_stops_at_the_shorter_buffer() {
    let mut output = [9u8; 6];
    copy_premultiplied_rgba(&[0x0403_0201, 0x0807_0605], &mut output);
    assert_eq!(output, [1, 2, 3, 4, 9, 9]);
}

#[test]
fn staging_reallocates_the_texture_only_when_the_size_changes() {
    let mut staging = FrameStaging::new();
    let bytes = staging.size_pixels(2, 1).unwrap();
    assert_eq!(bytes, 8);
    assert_eq!(staging.pixels.len(), 2);
    staging.pixels[0] = 0xff00_00ff;
    staging.pixels[1] = 0x8040_2010;
    staging.stage_rgba(bytes);
    assert_eq!(staging.rgba, vec![0xff, 0, 0, 0xff, 0x10, 0x20, 0x40, 0x80]);
    assert_eq!(staging.texture_upload(2, 1), TextureUpload::Reallocate);
    assert_eq!(staging.texture_upload(2, 1), TextureUpload::Replace);
    assert_eq!(staging.texture_upload(1, 2), TextureUpload::Reallocate);
    assert!(matches!(staging.size_pixels(0, 4), Err(Error::BadTarget)));
}
