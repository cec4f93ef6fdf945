use cnterminal::icon::{build_ico, render_rgba, AMBER, BG};

fn pixel(buf: &[u8], size: u32, x: u32, y: u32) -> [u8; 4] {
    let i = ((y * size + x) * 4) as usize;
    [buf[i], buf[i + 1], buf[i + 2], buf[i + 3]]
}

#[test]
fn icon_buffer_size() {
    assert_eq!(render_rgba(16).len(), 16 * 16 * 4);
    assert_eq!(render_rgba(64).len(), 64 * 64 * 4);
    assert_eq!(render_rgba(0).len(), 0);
}

#[test]
fn icon_pixels_at_16() {
    let buf = render_rgba(16);
    // Outside the rounded square: transparent.
    assert_eq!(pixel(&buf, 16, 0, 0), [0, 0, 0, 0]);
    assert_eq!(pixel(&buf, 16, 15, 15), [0, 0, 0, 0]);
    // The amber border on the left edge.
    assert_eq!(pixel(&buf, 16, 1, 8), AMBER);
    // Dark background inside the border.
    assert_eq!(pixel(&buf, 16, 12, 4), BG);
    // The chevron tip and the cursor underscore.
    assert_eq!(pixel(&buf, 16, 8, 8), AMBER);
    assert_eq!(pixel(&buf, 16, 10, 9), AMBER);
    assert_eq!(pixel(&buf, 16, 12, 10), AMBER);
    assert_eq!(pixel(&buf, 16, 13, 9), BG);
}

#[test]
fn icon_is_left_right_bounded() {
    let buf = render_rgba(32);
    for y in 0..32 {
        assert_eq!(pixel(&buf, 32, 0, y), [0, 0, 0, 0]);
        assert_eq!(pixel(&buf, 32, 31, y), [0, 0, 0, 0]);
    }
}

#[test]
fn ico_directory() {
    let ico = build_ico(&[16, 256]);
    let img16 = 40 + 16 * 16 * 4 + 4 * 16;
    let img256 = 40 + 256 * 256 * 4 + 32 * 256;
    assert_eq!(ico.len(), 6 + 2 * 16 + img16 + img256);
    assert_eq!(&ico[0..6], &[0, 0, 1, 0, 2, 0]);
    let e1 = &ico[6..22];
    assert_eq!(&e1[0..8], &[16, 16, 0, 0, 1, 0, 32, 0]);
    assert_eq!(&e1[8..12], &(img16 as u32).to_le_bytes());
    assert_eq!(&e1[12..16], &38u32.to_le_bytes());
    let e2 = &ico[22..38];
    assert_eq!(&e2[0..8], &[0, 0, 0, 0, 1, 0, 32, 0]);
    assert_eq!(&e2[8..12], &(img256 as u32).to_le_bytes());
    assert_eq!(&e2[12..16], &((38 + img16) as u32).to_le_bytes());
}

#[test]
fn ico_image_is_bottom_up_bgra() {
    let ico = build_ico(&[16]);
    let img = &ico[22..];
    assert_eq!(&img[0..4], &40u32.to_le_bytes());
    assert_eq!(&img[4..8], &16u32.to_le_bytes());
    assert_eq!(&img[8..12], &32u32.to_le_bytes());
    assert_eq!(&img[12..16], &[1, 0, 32, 0]);
    assert_eq!(&img[16..20], &[0, 0, 0, 0]);
    assert_eq!(&img[20..24], &1024u32.to_le_bytes());
    let rgba = render_rgba(16);
    for y in 0..16u32 {
        for x in 0..16u32 {
            let p = pixel(&rgba, 16, x, y);
            let at = 40 + (((15 - y) * 16 + x) * 4) as usize;
            assert_eq!(&img[at..at + 4], &[p[2], p[1], p[0], p[3]]);
        }
    }
    // The AND mask is all zero.
    assert!(img[40 + 1024..].iter().all(|&b| b == 0));
    assert_eq!(img.len(), 40 + 1024 + 64);
}

#[test]
fn ico_without_images() {
    assert_eq!(build_ico(&[]), vec![0, 0, 1, 0, 0, 0]);
}
