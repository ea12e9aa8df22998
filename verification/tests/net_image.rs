use aegis::net::{response_outcome, NetError, USER_AGENT};
use aegis::tile::{decode_image, decode_png};

fn png_bytes(w: u32, h: u32) -> Vec<u8> {
    let img = image::RgbaImage::from_pixel(w, h, image::Rgba([10, 20, 30, 255]));
    let mut out = std::io::Cursor::new(Vec::new());
    img.write_to(&mut out, image::ImageFormat::Png).expect("encode png");
    out.into_inner()
}

#[test]
fn ok_response_passes_body_through() {
    let r = response_outcome("https://x/y", true, 200, vec![1, 2, 3]);
    assert_eq!(r.ok(), Some(vec![1, 2, 3]));
}

#[test]
fn non_2xx_response_names_status_and_url() {
    match response_outcome("https://x/y", false, 404, vec![9]) {
        Err(NetError::HttpStatus { status, url }) => {
            assert_eq!(status, 404);
            assert_eq!(url, "https://x/y");
        }
        other => panic!("unexpected {other:?}"),
    }
    assert!(USER_AGENT.starts_with("aegis/"));
}

#[test]
fn decode_png_yields_rgba_of_declared_size() {
    let t = decode_png(&png_bytes(3, 2)).expect("png decodes");
    assert_eq!((t.width, t.height), (3, 2));
    assert_eq!(t.rgba.len(), 3 * 2 * 4);
    assert_eq!(&t.rgba[0..4], &[10, 20, 30, 255]);
    let t = decode_image(&png_bytes(1, 1)).expect("guessed format decodes");
    assert_eq!(t.rgba, vec![10, 20, 30, 255]);
}

#[test]
fn decode_rejects_garbage() {
    assert!(decode_png(b"not an image").is_err());
    assert!(decode_image(b"not an image").is_err());
}
