use png::{BitDepth, ColorType};
use sd_immich_tagger::metadata::extract_parameters;

fn png_with_parameters(text: &str) -> Vec<u8> {
    let mut output = Vec::new();
    {
        let mut encoder = png::Encoder::new(&mut output, 1, 1);
        encoder.set_color(ColorType::Rgba);
        encoder.set_depth(BitDepth::Eight);
        encoder
            .add_text_chunk("parameters".to_string(), text.to_string())
            .unwrap();
        let mut writer = encoder.write_header().unwrap();
        writer.write_image_data(&[0, 0, 0, 0]).unwrap();
    }
    output
}

fn chunk(kind: &[u8; 4], data: &[u8]) -> Vec<u8> {
    let mut out = (data.len() as u32).to_be_bytes().to_vec();
    out.extend_from_slice(kind);
    out.extend_from_slice(data);
    out.extend_from_slice(&[0, 0, 0, 0]);
    out
}

fn png_of(chunks: &[Vec<u8>]) -> Vec<u8> {
    let mut out = b"\x89PNG\r\n\x1a\n".to_vec();
    for c in chunks {
        out.extend_from_slice(c);
    }
    out
}

#[test]
fn reads_parameters_text_chunk() {
    let png = png_with_parameters("1girl, masterpiece");
    let params = extract_parameters(&png);
    assert_eq!(params.as_deref(), Some("1girl, masterpiece"));
}

#[test]
fn returns_none_when_missing() {
    let mut output = Vec::new();
    {
        let mut encoder = png::Encoder::new(&mut output, 1, 1);
        encoder.set_color(ColorType::Rgba);
        encoder.set_depth(BitDepth::Eight);
        let mut writer = encoder.write_header().unwrap();
        writer.write_image_data(&[0, 0, 0, 0]).unwrap();
    }
    assert!(extract_parameters(&output).is_none());
}

#[test]
fn ignores_bytes_without_the_png_signature() {
    assert!(extract_parameters(b"").is_none());
    assert!(extract_parameters(b"GIF89a").is_none());
    let mut png = png_with_parameters("x");
    png[0] = 0x88;
    assert!(extract_parameters(&png).is_none());
}

#[test]
fn skips_text_chunks_with_other_keywords() {
    let png = png_of(&[
        chunk(b"tEXt", b"Comment\0hello"),
        chunk(b"tEXt", b"parameters\0found it"),
        chunk(b"IEND", b""),
    ]);
    assert_eq!(extract_parameters(&png).as_deref(), Some("found it"));
}

#[test]
fn reads_uncompressed_itxt_chunks() {
    let png = png_of(&[
        chunk(b"iTXt", b"parameters\0\0\0en\0Parameter\0caf\xc3\xa9, 1girl"),
        chunk(b"IEND", b""),
    ]);
    assert_eq!(extract_parameters(&png).as_deref(), Some("caf\u{e9}, 1girl"));
}

#[test]
fn skips_compressed_itxt_and_bad_utf8() {
    let png = png_of(&[
        chunk(b"iTXt", b"parameters\0\x01\0\0\0xyz"),
        chunk(b"tEXt", b"parameters\0\xff\xfe"),
        chunk(b"tEXt", b"parameters\0second"),
    ]);
    assert_eq!(extract_parameters(&png).as_deref(), Some("second"));
}

#[test]
fn stops_at_iend_and_at_truncated_chunks() {
    let png = png_of(&[chunk(b"IEND", b""), chunk(b"tEXt", b"parameters\0late")]);
    assert!(extract_parameters(&png).is_none());
    let mut truncated = png_of(&[chunk(b"tEXt", b"parameters\0cut")]);
    truncated.pop();
    assert!(extract_parameters(&truncated).is_none());
}
