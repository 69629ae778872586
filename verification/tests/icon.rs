use nodus::icon::{adler32, base64, bgra_to_rgba, crc32, encode_png, icon_data_url, png_data_url, zlib_stored, IconCache};

#[test]
fn base64_known_vectors() {
    assert_eq!(base64(b""), "");
    assert_eq!(base64(b"f"), "Zg==");
    assert_eq!(base64(b"fo"), "Zm8=");
    assert_eq!(base64(b"foo"), "Zm9v");
    assert_eq!(base64(b"foobar"), "Zm9vYmFy");
}

#[test]
fn crc32_known() {
    assert_eq!(crc32(b"123456789"), 0xCBF4_3926);
}

#[test]
fn adler32_known() {
    assert_eq!(adler32(b"Wikipedia"), 0x11E6_0398);
    assert_eq!(adler32(b""), 1);
}

#[test]
fn png_has_signature_and_chunks() {
    let png = encode_png(1, 1, &[255, 0, 0, 255]);
    assert_eq!(&png[..8], &[0x89, 0x50, 0x4E, 0x47, 0x0D, 0x0A, 0x1A, 0x0A]);
    assert!(png.windows(4).any(|w| w == b"IHDR"));
    assert!(png.windows(4).any(|w| w == b"IDAT"));
    assert!(png.windows(4).any(|w| w == b"IEND"));
}

#[test]
fn zlib_stored_wraps_the_data() {
    let z = zlib_stored(b"abc");
    assert_eq!(z[0], 0x78);
    assert_eq!(z[2], 1);
    assert_eq!(&z[3..7], &[3, 0, 0xFC, 0xFF]);
    assert_eq!(&z[7..10], b"abc");
    assert_eq!(&z[10..], &adler32(b"abc").to_be_bytes());
}

#[test]
fn bgra_pixels_swap_red_and_blue() {
    let mut px = vec![1, 2, 3, 4, 5, 6, 7, 8];
    bgra_to_rgba(&mut px);
    assert_eq!(px, vec![3, 2, 1, 4, 7, 6, 5, 8]);
}

#[test]
fn data_url_is_a_base64_png() {
    let url = png_data_url(1, 1, &[0, 0, 0, 255]).expect("valid image");
    assert!(url.starts_with("data:image/png;base64,iVBORw0KGgo"));
    assert!(png_data_url(0, 1, &[]).is_none());
}

#[test]
fn icon_cache_remembers_misses_too() {
    let mut c = IconCache::new();
    assert_eq!(c.get("a.exe"), None);
    c.insert("a.exe".to_string(), None);
    assert_eq!(c.get("a.exe"), Some(None));
    c.insert("b.exe".to_string(), Some("u".to_string()));
    assert_eq!(c.get("b.exe"), Some(Some("u".to_string())));
    let url = icon_data_url(&mut c, 1, "B.EXE", |_| Some("other".to_string()));
    assert_eq!(url, Some("u".to_string()));
    let url = icon_data_url(&mut c, 2, "C.exe", |pid| Some(format!("pid{pid}")));
    assert_eq!(url, Some("pid2".to_string()));
    assert_eq!(c.get("c.exe"), Some(Some("pid2".to_string())));
}
