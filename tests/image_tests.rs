use ppm::{Image, Pixel, PpmError};

fn sample() -> Image {
    Image::new(
        vec![
            Pixel::new(1, 2, 3),
            Pixel::new(40, 50, 60),
            Pixel::new(255, 0, 128),
            Pixel::new(9, 99, 199),
        ],
        2,
        2,
    )
}

#[test]
fn rotate_reverses_and_twice_restores() {
    let mut img = sample();
    img.rotate();
    assert_eq!(
        img.get_pixels().clone(),
        vec![
            Pixel::new(9, 99, 199),
            Pixel::new(255, 0, 128),
            Pixel::new(40, 50, 60),
            Pixel::new(1, 2, 3),
        ]
    );
    img.rotate();
    assert_eq!(img.get_pixels().clone(), sample().get_pixels().clone());
}

#[test]
fn rotate_odd_count_and_empty() {
    let mut img = Image::new(vec![Pixel::new(1, 1, 1), Pixel::new(2, 2, 2), Pixel::new(3, 3, 3)], 3, 1);
    img.rotate();
    assert_eq!(img.pixels, vec![Pixel::new(3, 3, 3), Pixel::new(2, 2, 2), Pixel::new(1, 1, 1)]);
    let mut empty = Image::new(Vec::new(), 1, 1);
    empty.rotate();
    assert!(empty.pixels.is_empty());
}

#[test]
fn image_invert_and_grayscale() {
    let mut img = sample();
    img.invert();
    assert_eq!(img.pixels[0], Pixel::new(254, 253, 252));
    assert_eq!(img.pixels[2], Pixel::new(0, 255, 127));
    let mut gray = sample();
    gray.to_grayscale();
    assert_eq!(gray.pixels[1], Pixel::new(49, 49, 49));
    assert_eq!(gray.pixels[2], Pixel::new(127, 127, 127));
    assert_eq!(gray.width, 2);
    assert_eq!(gray.length, 2);
}

#[test]
fn save_plain_exact_bytes() {
    let img = Image::new(vec![Pixel::new(255, 0, 12), Pixel::new(3, 40, 5)], 2, 1);
    let mut out: Vec<u8> = Vec::new();
    img.save(&mut out);
    assert_eq!(out, b"P3\n2 1\n255\n255 0 12 3 40 5 ".to_vec());
}

#[test]
fn plain_round_trip() {
    let img = sample();
    let mut out: Vec<u8> = Vec::new();
    img.save(&mut out);
    let back = Image::extract_image(&out).unwrap();
    assert_eq!(back.pixels, img.pixels);
    assert_eq!(back.width, 2);
    assert_eq!(back.length, 2);
}

#[test]
fn save_binary_exact_bytes() {
    let img = Image::new(vec![Pixel::new(1, 2, 3), Pixel::new(250, 251, 252)], 2, 1);
    let mut out: Vec<u8> = Vec::new();
    img.save_binary(&mut out);
    let mut expected = b"P3\n2 1\n255\n".to_vec();
    expected.extend_from_slice(&[2, 0, 0, 0, 0, 0, 0, 0, 1, 2, 3, 250, 251, 252]);
    assert_eq!(out, expected);
}

#[test]
fn binary_round_trip() {
    let img = sample();
    let mut out: Vec<u8> = Vec::new();
    img.save_binary(&mut out);
    let back = Image::extract_image_binary(&out).unwrap();
    assert_eq!(back.pixels, img.pixels);
    assert_eq!(back.width, 2);
    assert_eq!(back.length, 2);
}

#[test]
fn binary_round_trip_empty_and_mismatched() {
    let img = Image::new(Vec::new(), 5, 7);
    let mut out: Vec<u8> = Vec::new();
    img.save_binary(&mut out);
    let back = Image::extract_image_binary(&out).unwrap();
    assert!(back.pixels.is_empty());
    assert_eq!((back.width, back.length), (5, 7));
}

#[test]
fn binary_truncated_payload_fails() {
    let mut data = b"P3\n1 1\n255\n".to_vec();
    data.extend_from_slice(&[2, 0, 0, 0, 0, 0, 0, 0, 1, 2, 3, 4]);
    assert_eq!(Image::extract_image_binary(&data).err(), Some(PpmError::Decode));
    let short = b"P3\n1 1\n255\n\x01\x00".to_vec();
    assert_eq!(Image::extract_image_binary(&short).err(), Some(PpmError::Decode));
}

#[test]
fn binary_trailing_bytes_ignored() {
    let mut data = b"P3\n1 1\n255\n".to_vec();
    data.extend_from_slice(&[1, 0, 0, 0, 0, 0, 0, 0, 7, 8, 9, 10, 11]);
    let img = Image::extract_image_binary(&data).unwrap();
    assert_eq!(img.pixels, vec![Pixel::new(7, 8, 9)]);
}

#[test]
fn plain_trailing_tokens_dropped() {
    let data = b"P3\n2 1\n255\n10 20 30 40 50".to_vec();
    let img = Image::extract_image(&data).unwrap();
    assert_eq!(img.pixels, vec![Pixel::new(10, 20, 30)]);
    assert_eq!((img.width, img.length), (2, 1));
    let one = b"P3\n1 1\n255\n1 2 3 4".to_vec();
    assert_eq!(Image::extract_image(&one).unwrap().pixels, vec![Pixel::new(1, 2, 3)]);
}

#[test]
fn plain_non_numeric_size_fails() {
    let data = b"P3\nX 1\n255\n1 2 3".to_vec();
    assert_eq!(Image::extract_image(&data).err(), Some(PpmError::Header));
    let height = b"P3\n1 y\n255\n1 2 3".to_vec();
    assert_eq!(Image::extract_image(&height).err(), Some(PpmError::Header));
    let zero = b"P3\n0 1\n255\n".to_vec();
    assert_eq!(Image::extract_image(&zero).err(), Some(PpmError::Header));
    let blank = b"P3\n   \n255\n".to_vec();
    assert_eq!(Image::extract_image(&blank).err(), Some(PpmError::Header));
}

#[test]
fn header_needs_three_lines() {
    let data = b"P3\n2 2\n255".to_vec();
    assert_eq!(Image::extract_image(&data).err(), Some(PpmError::Header));
    assert_eq!(Image::extract_image_binary(&data).err(), Some(PpmError::Header));
    assert_eq!(Image::extract_image(&Vec::new()).err(), Some(PpmError::Header));
}

#[test]
fn size_line_uses_first_and_last_words() {
    let data = b"P3\n  3 junk 2 \n255\n".to_vec();
    let img = Image::extract_image(&data).unwrap();
    assert_eq!((img.width, img.length), (3, 2));
    assert!(img.pixels.is_empty());
    let single = b"P3\n4\n255\n".to_vec();
    let sq = Image::extract_image(&single).unwrap();
    assert_eq!((sq.width, sq.length), (4, 4));
}

#[test]
fn plain_bad_channel_fails() {
    let big = b"P3\n1 1\n255\n1 256 3".to_vec();
    assert_eq!(Image::extract_image(&big).err(), Some(PpmError::Decode));
    let word = b"P3\n1 1\n255\n1 two 3".to_vec();
    assert_eq!(Image::extract_image(&word).err(), Some(PpmError::Decode));
    let tail = b"P3\n1 1\n255\n1 2 3 4 x".to_vec();
    assert_eq!(Image::extract_image(&tail).err(), Some(PpmError::Decode));
}

#[test]
fn plain_accepts_line_breaks_and_tabs() {
    let data = b"P3\n2 1\n255\n1\t2\n3\r\n  4 5 6\n".to_vec();
    let img = Image::extract_image(&data).unwrap();
    assert_eq!(img.pixels, vec![Pixel::new(1, 2, 3), Pixel::new(4, 5, 6)]);
}
