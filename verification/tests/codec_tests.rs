use clip_history::codec::{
    base64_str_to_image_data, encode_decode_round_trip, image_data_to_base64,
    image_data_to_bytes, CodecError, ImageBuf,
};

fn gradient_buffer(width: u32, height: u32) -> ImageBuf {
    let mut bytes = Vec::new();
    for y in 0..height {
        for x in 0..width {
            bytes.push((x * 40 % 256) as u8);
            bytes.push((y * 60 % 256) as u8);
            bytes.push(((x + y) * 25 % 256) as u8);
            bytes.push(255);
        }
    }
    ImageBuf { width, height, bytes }
}

#[test]
fn round_trip_is_pixel_exact() {
    let img = gradient_buffer(5, 3);
    let decoded = encode_decode_round_trip(&img).expect("round trip must succeed");
    assert_eq!(decoded.width, 5);
    assert_eq!(decoded.height, 3);
    assert_eq!(decoded.bytes, img.bytes);
}

#[test]
fn round_trip_through_text_form() {
    let img = gradient_buffer(2, 2);
    let text = image_data_to_base64(&img);
    let decoded = base64_str_to_image_data(&text).expect("decode of an encoding succeeds");
    assert_eq!(decoded.width, img.width);
    assert_eq!(decoded.height, img.height);
    assert_eq!(decoded.bytes, img.bytes);
}

#[test]
fn encoding_is_deterministic_and_real_base64() {
    let a = gradient_buffer(4, 4);
    let b = gradient_buffer(4, 4);
    let ta = image_data_to_base64(&a);
    let tb = image_data_to_base64(&b);
    assert_eq!(ta, tb);
    // standard alphabet only, and not the raw input handed back
    assert!(ta.chars().all(|c| c.is_ascii_alphanumeric() || c == '+' || c == '/' || c == '='));
    assert_ne!(ta.as_bytes(), a.bytes.as_slice());
    // the text really is the base64 of the PNG bytes
    let png = image_data_to_bytes(&a);
    assert_eq!(ta, base64::Engine::encode(&base64::engine::general_purpose::STANDARD, &png));
}

#[test]
fn png_bytes_differ_for_different_pixels() {
    let a = gradient_buffer(3, 3);
    let mut b = gradient_buffer(3, 3);
    b.bytes[0] = b.bytes[0].wrapping_add(1);
    assert_ne!(image_data_to_base64(&a), image_data_to_base64(&b));
}

#[test]
fn invalid_base64_is_invalid_encoding() {
    assert!(matches!(
        base64_str_to_image_data("not base64 !!!"),
        Err(CodecError::InvalidEncoding)
    ));
    // non-canonical padding is also rejected as an encoding
    assert!(matches!(base64_str_to_image_data("AAA"), Err(CodecError::InvalidEncoding)));
}

#[test]
fn valid_base64_of_garbage_is_invalid_image() {
    // "aGVsbG8=" is the canonical base64 of "hello", which is no image stream
    assert!(matches!(base64_str_to_image_data("aGVsbG8="), Err(CodecError::InvalidImage)));
}
