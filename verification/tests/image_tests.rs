use asset_manager::image::{analyze_rgba, build_expanded_image, load_image_bytes, RgbaPixels};

fn png_bytes(w: u32, h: u32, px: &[[u8; 4]]) -> Vec<u8> {
    let mut img = image::RgbaImage::new(w, h);
    for (i, p) in px.iter().enumerate() {
        let x = (i as u32) % w;
        let y = (i as u32) / w;
        img.put_pixel(x, y, image::Rgba(*p));
    }
    let mut out = std::io::Cursor::new(Vec::new());
    img.write_to(&mut out, image::ImageFormat::Png).unwrap();
    out.into_inner()
}

#[test]
fn analysis_of_pixels() {
    let img = RgbaPixels {
        width: 2,
        height: 2,
        data: vec![1, 2, 3, 255, 1, 2, 3, 255, 9, 9, 9, 255, 1, 2, 3, 254],
    };
    assert_eq!(analyze_rgba(&img), (true, 3));
    let opaque = RgbaPixels { width: 1, height: 1, data: vec![0, 0, 0, 255] };
    assert_eq!(analyze_rgba(&opaque), (false, 1));
}

#[test]
fn load_png() {
    let bytes = png_bytes(2, 1, &[[255, 0, 0, 255], [0, 255, 0, 128]]);
    let li = load_image_bytes(&bytes).unwrap();
    assert_eq!(li.rgba.width, 2);
    assert_eq!(li.rgba.height, 1);
    assert_eq!(li.rgba.data, vec![255, 0, 0, 255, 0, 255, 0, 128]);
    assert_eq!(li.info.file_size, bytes.len() as u64);
    assert_eq!(li.info.color_type, "Rgba8");
    assert!(li.info.has_alpha);
    assert_eq!(li.info.unique_colors, 2);
}

#[test]
fn load_garbage_fails() {
    let err = load_image_bytes(b"not an image").err().unwrap();
    assert!(err.starts_with("Decode error: "));
}

#[test]
fn expanded_walk_frame() {
    // Three 1-pixel-wide cells per row, one block: columns A B C.
    let a = [1u8, 1, 1, 255];
    let b = [2u8, 2, 2, 255];
    let c = [3u8, 3, 3, 255];
    let mut data = Vec::new();
    for _row in 0..2 {
        data.extend_from_slice(&a);
        data.extend_from_slice(&b);
        data.extend_from_slice(&c);
    }
    let img = RgbaPixels { width: 3, height: 2, data };
    let out = build_expanded_image(&img, 1, 2);
    assert_eq!(out.width, 4);
    assert_eq!(out.height, 2);
    let row: Vec<u8> = [a, b, c, c].concat();
    assert_eq!(out.data, [row.clone(), row].concat());
    let idle = build_expanded_image(&img, 1, 1);
    assert_eq!(&idle.data[12..16], &b);
}

#[test]
fn expanded_width_is_four_thirds() {
    let img = RgbaPixels { width: 6, height: 1, data: vec![7u8; 24] };
    let out = build_expanded_image(&img, 2, 0);
    assert_eq!(out.width * 3, img.width * 4);
    assert_eq!(out.data.len(), 8 * 4);
}
