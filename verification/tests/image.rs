use flashpdf_core::image::{paeth, ColorSpace, Encoding, Image};
use flashpdf_core::protocol::Decoder;

/// SOI, an optional Adobe APP14, and a frame header; the scan itself never reaches the parser.
fn jpeg(marker: u8, precision: u8, components: u8, adobe: bool) -> Vec<u8> {
    let mut bytes = vec![0xff, 0xd8];
    if adobe {
        bytes.extend([0xff, 0xee, 0, 14]);
        bytes.extend(b"Adobe");
        bytes.extend([0, 100, 0, 0, 0, 0, 2]);
    }
    bytes.extend([
        0xff,
        marker,
        0,
        8 + 3 * components,
        precision,
        0,
        10,
        0,
        20,
        components,
    ]);
    bytes.extend([0, 0x11, 0].repeat(usize::from(components)));
    bytes.extend([0xff, 0xda, 0, 2, 0xff, 0xd9]);
    bytes
}

#[test]
fn given_jpeg_frame_headers_when_parsing_then_reads_size_components_and_adobe_inversion() {
    let cmyk = Image::parse(jpeg(0xc2, 8, 4, true)).unwrap();
    assert_eq!((cmyk.width, cmyk.height), (20, 10));
    assert!(matches!(cmyk.color_space, ColorSpace::Cmyk));
    assert!(matches!(cmyk.encoding, Encoding::Dct { inverted: true }));
    let rgb = Image::parse(jpeg(0xc0, 8, 3, false)).unwrap();
    assert!(matches!(rgb.encoding, Encoding::Dct { inverted: false }));
    let reject = |bytes| Image::parse(bytes).err().unwrap();
    assert!(reject(jpeg(0xc1, 12, 3, false)).starts_with("12-bit JPEG"));
    assert!(reject(jpeg(0xc3, 8, 3, false)).starts_with("lossless"));
}

fn crc32(bytes: &[u8]) -> u32 {
    let mut crc = 0xffff_ffff_u32;
    for byte in bytes {
        crc ^= u32::from(*byte);
        for _ in 0..8 {
            crc = if crc & 1 == 1 {
                (crc >> 1) ^ 0xedb8_8320
            } else {
                crc >> 1
            };
        }
    }
    !crc
}

fn chunk(kind: &[u8; 4], data: &[u8]) -> Vec<u8> {
    let mut bytes = (data.len() as u32).to_be_bytes().to_vec();
    bytes.extend(kind);
    bytes.extend(data);
    bytes.extend(crc32(&bytes[4..]).to_be_bytes());
    bytes
}

/// `scanlines` are the raw filtered rows, each starting with its filter byte.
fn png(width: u32, height: u32, color_type: u8, depth: u8, scanlines: &[u8]) -> Vec<u8> {
    png_with(width, height, color_type, depth, scanlines, &[])
}

fn png_with(
    width: u32,
    height: u32,
    color_type: u8,
    depth: u8,
    scanlines: &[u8],
    extra: &[(&[u8; 4], Vec<u8>)],
) -> Vec<u8> {
    let mut header = width.to_be_bytes().to_vec();
    header.extend(height.to_be_bytes());
    header.extend([depth, color_type, 0, 0, 0]);
    let mut bytes = vec![0x89, b'P', b'N', b'G', 0x0d, 0x0a, 0x1a, 0x0a];
    bytes.extend(chunk(b"IHDR", &header));
    for (kind, data) in extra {
        bytes.extend(chunk(kind, data));
    }
    bytes.extend(chunk(
        b"IDAT",
        &miniz_oxide::deflate::compress_to_vec_zlib(scanlines, 6),
    ));
    bytes.extend(chunk(b"IEND", &[]));
    bytes
}

#[test]
fn an_rgb_png_passes_its_image_data_through_for_predictor_fifteen() {
    let logo = png(2, 2, 2, 8, &[0, 255, 0, 0, 0, 255, 0, 1, 0, 0, 255, 9, 9, 9]);
    let image = Image::parse(logo.clone()).unwrap();
    assert_eq!((image.width, image.height), (2, 2));
    assert!(matches!(image.color_space, ColorSpace::Rgb));
    assert_eq!(image.encoding, Encoding::FlatePredicted);
    let idat = logo.windows(4).position(|w| w == b"IDAT").unwrap() + 4;
    assert_eq!(image.data, logo[idat..idat + image.data.len()].to_vec());
    assert!(image.alpha.is_none());
}

#[test]
fn an_rgba_png_splits_its_alpha_into_a_separate_plane() {
    // Two pixels, one row: Sub-filtered so the second pixel is a delta from the first.
    let logo = png(2, 1, 6, 8, &[1, 10, 20, 30, 255, 5, 5, 5, 1]);
    let image = Image::parse(logo).unwrap();
    assert_eq!(image.encoding, Encoding::Flate);
    let color = miniz_oxide::inflate::decompress_to_vec_zlib(&image.data).unwrap();
    assert_eq!(color, [10, 20, 30, 15, 25, 35]);
    let alpha = miniz_oxide::inflate::decompress_to_vec_zlib(image.alpha.as_ref().unwrap()).unwrap();
    assert_eq!(alpha, [255, 0]);
}

#[test]
fn given_unsupported_pngs_when_registering_then_rejects_naming_the_feature() {
    let mut decoder = Decoder::default();
    let sixteen = png(1, 1, 2, 16, &[0, 0, 0, 0, 0, 0, 0]);
    assert_eq!(
        decoder.add_image(sixteen).err().unwrap().message(),
        "16-bit PNG is not supported; save it with 8 bits per channel"
    );
    let mut interlaced = png(1, 1, 2, 8, &[0, 0, 0, 0]);
    let ihdr = interlaced.windows(4).position(|w| w == b"IHDR").unwrap();
    interlaced[ihdr + 4 + 12] = 1;
    assert!(decoder
        .add_image(interlaced)
        .err()
        .unwrap()
        .message()
        .starts_with("interlaced"));
    assert!(decoder
        .add_image(b"GIF89a".to_vec())
        .err()
        .unwrap()
        .message()
        .starts_with("unsupported image format"));
}

#[test]
fn palette_pngs_need_a_palette_and_keep_it_for_an_indexed_space() {
    let missing = png(1, 1, 3, 8, &[0, 0]);
    assert_eq!(
        Image::parse(missing).err().unwrap(),
        "palette PNG has no PLTE chunk"
    );
    let palette = png_with(1, 1, 3, 8, &[0, 1], &[(b"PLTE", vec![1, 2, 3, 4, 5, 6])]);
    let image = Image::parse(palette).unwrap();
    match image.color_space {
        ColorSpace::Indexed(entries) => assert_eq!(entries, vec![1, 2, 3, 4, 5, 6]),
        _ => panic!("expected an indexed colour space"),
    }
}

#[test]
fn a_grey_png_with_a_transparent_key_keeps_the_key_range() {
    let keyed = png_with(1, 1, 0, 8, &[0, 7], &[(b"tRNS", vec![0, 7])]);
    let image = Image::parse(keyed).unwrap();
    assert_eq!(image.color_key, Some(vec![7, 7]));
}

#[test]
fn zero_sized_images_are_refused_with_their_size() {
    assert_eq!(
        Image::parse(png(0, 3, 2, 8, &[])).err().unwrap(),
        "image is 0x3 pixels; each side must be 1 to 65535"
    );
}

#[test]
fn an_unknown_filter_is_refused() {
    let logo = png(1, 1, 6, 8, &[9, 1, 2, 3, 4]);
    assert_eq!(
        Image::parse(logo).err().unwrap(),
        "PNG has an unknown scanline filter"
    );
}

#[test]
fn paeth_picks_the_closest_neighbour() {
    assert_eq!(paeth(10, 20, 10), 20);
    assert_eq!(paeth(20, 10, 10), 20);
    assert_eq!(paeth(5, 5, 5), 5);
    assert_eq!(paeth(100, 50, 200), 50);
}

#[test]
fn a_corrupt_zlib_stream_is_refused() {
    let mut logo = png(2, 1, 6, 8, &[1, 10, 20, 30, 255, 5, 5, 5, 1]);
    let idat = logo.windows(4).position(|w| w == b"IDAT").unwrap() + 4;
    logo[idat] = 0;
    logo[idat + 1] = 0;
    assert_eq!(
        Image::parse(logo).err().unwrap(),
        "PNG image data is not a valid zlib stream"
    );
}
