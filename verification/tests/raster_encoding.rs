use breplot::raster::{
    check_surface_pixels, encode_png, encode_step_payload, render_png_base64, SurfaceMode,
};

#[test]
fn default_surface_mode_is_raster() {
    assert_eq!(SurfaceMode::default(), SurfaceMode::Raster);
}

#[test]
fn base64_text_of_rendered_png() {
    assert_eq!(render_png_base64(Ok((vec![1, 2, 3], 5))), Ok(("AQID".to_string(), 5)));
    assert_eq!(render_png_base64(Ok((b"Man".to_vec(), 1))), Ok(("TWFu".to_string(), 1)));
    assert_eq!(render_png_base64(Ok((vec![0xff], 2))), Ok(("/w==".to_string(), 2)));
    assert_eq!(render_png_base64(Ok((vec![0xfb, 0xff], 3))), Ok(("+/8=".to_string(), 3)));
    assert_eq!(render_png_base64(Ok((Vec::new(), 0))), Ok((String::new(), 0)));
}

#[test]
fn rendering_error_passes_through() {
    assert_eq!(
        render_png_base64(Err("PNG header: x".to_string())),
        Err("PNG header: x".to_string())
    );
}

#[test]
fn png_of_a_pixel_starts_with_the_signature() {
    let (bytes, height) = encode_png(&[255, 0, 0, 255, 0, 0, 255, 128], 2, 1).unwrap();
    assert_eq!(height, 1);
    assert_eq!(&bytes[..8], &[137, 80, 78, 71, 13, 10, 26, 10]);
    assert_eq!(&bytes[12..16], b"IHDR");
    // Width and height, big-endian, in the header.
    assert_eq!(&bytes[16..24], &[0, 0, 0, 2, 0, 0, 0, 1]);
}

#[test]
fn png_refuses_empty_images_and_wrong_buffers() {
    assert_eq!(encode_png(&[], 0, 1), Err("PNG header: Zero width not allowed".to_string()));
    assert_eq!(encode_png(&[], 0, 0), Err("PNG header: Zero width not allowed".to_string()));
    assert_eq!(encode_png(&[], 1, 0), Err("PNG header: Zero height not allowed".to_string()));
    assert_eq!(
        encode_png(&[1, 2, 3], 1, 1),
        Err("PNG data: wrong data size, expected 4 got 3".to_string())
    );
    assert_eq!(
        encode_png(&[0; 8], 1, 1),
        Err("PNG data: wrong data size, expected 4 got 8".to_string())
    );
}

#[test]
fn payload_prefixes_the_metadata_length() {
    let payload = encode_step_payload(b"{\"a\":1}", &[9, 8]).unwrap();
    assert_eq!(payload, vec![7, 0, 0, 0, b'{', b'"', b'a', b'"', b':', b'1', b'}', 9, 8]);
    let json = vec![b' '; 300];
    let payload = encode_step_payload(&json, &[]).unwrap();
    assert_eq!(&payload[..4], &[44, 1, 0, 0]);
    assert_eq!(payload.len(), 304);
}

#[test]
fn payload_reads_back_into_its_parts() {
    let json = br#"{"view":[0,0,1,1]}"#;
    let png = [137u8, 80, 78, 71];
    let payload = encode_step_payload(json, &png).unwrap();
    let n = u32::from_le_bytes([payload[0], payload[1], payload[2], payload[3]]) as usize;
    assert_eq!(n, json.len());
    assert_eq!(&payload[4..4 + n], json);
    assert_eq!(&payload[4 + n..], &png);
}

#[test]
fn surface_pixels_range() {
    assert_eq!(check_surface_pixels(256), Ok(()));
    assert_eq!(check_surface_pixels(1600), Ok(()));
    assert_eq!(check_surface_pixels(4096), Ok(()));
    let message = "surface_pixels must be between 256 and 4096".to_string();
    assert_eq!(check_surface_pixels(255), Err(message.clone()));
    assert_eq!(check_surface_pixels(4097), Err(message.clone()));
    assert_eq!(check_surface_pixels(0), Err(message));
}
