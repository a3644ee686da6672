use pxa_engine_win32::format::block::{read_block, write_block};
use pxa_engine_win32::format::error::FormatError;
use pxa_engine_win32::format::header::{BlockHeader, PxadHeader};
use pxa_engine_win32::format::layer_payload::{deserialize_layer, serialize_layer};
use pxa_engine_win32::format::payload::{
    deserialize_canvas, deserialize_palette, deserialize_selection, deserialize_symmetry,
    serialize_canvas, serialize_palette, serialize_selection, serialize_symmetry,
};
use pxa_engine_win32::format::stream::{PxadReader, PxadWriter};
use pxa_engine_win32::model::blend_mode::BlendMode;
use pxa_engine_win32::model::color::Color;
use pxa_engine_win32::model::layer::Layer;
use pxa_engine_win32::model::palette::Palette;
use pxa_engine_win32::model::selection::SelectionData;
use pxa_engine_win32::model::store::PixelStore;
use pxa_engine_win32::model::symmetry::{SymmetryConfig, SymmetryMode};

#[test]
fn test_pxad_header_io() {
    let mut header = PxadHeader::new();
    header.file_size = 1024;
    header.block_count = 5;

    let mut buffer = Vec::new();
    header.write_to(&mut buffer).unwrap();

    assert_eq!(buffer.len(), 32, "Header 必须严格为 32 字节");

    let mut reader = PxadReader::new(buffer);
    let decoded = PxadHeader::read_from(&mut reader).unwrap();

    assert_eq!(header, decoded);
}

#[test]
fn test_invalid_magic() {
    let bad_data = b"BADD\x01\x00\x00\x00\x00\x00\x00\x00\x00\x00\x00\x00\x00\x00\x00\x00\x00\x00\x00\x00\x00\x00\x00\x00\x00\x00\x00\x00";
    let mut reader = PxadReader::new(bad_data.to_vec());
    let result = PxadHeader::read_from(&mut reader);
    assert!(result.is_err());
}

#[test]
fn test_block_header_io() {
    let block = BlockHeader::new(*b"LAYR", 16384);
    let mut buffer = Vec::new();
    block.write_to(&mut buffer).unwrap();

    assert_eq!(buffer.len(), 12, "Block Header 必须严格为 12 字节");

    let mut reader = PxadReader::new(buffer);
    let decoded = BlockHeader::read_from(&mut reader).unwrap();

    assert_eq!(block, decoded);
}

#[test]
fn test_block_read_write() {
    let mut writer = PxadWriter::new();
    write_block(&mut writer, *b"CANV", b"12345").unwrap();
    write_block(&mut writer, *b"LAYR", b"Hello PXAD!").unwrap();
    let buffer = writer.finish();

    let mut reader = PxadReader::new(buffer);

    let (b_type1, payload1) = read_block(&mut reader).unwrap();
    assert_eq!(&b_type1, b"CANV");
    assert_eq!(payload1, b"12345");

    let (b_type2, payload2) = read_block(&mut reader).unwrap();
    assert_eq!(&b_type2, b"LAYR");
    assert_eq!(payload2, b"Hello PXAD!");

    assert!(reader.verify_footer().is_ok(), "文件尾部 CRC 校验必须通过");
}

#[test]
fn test_writer_padding_and_crc() {
    let mut writer = PxadWriter::new();
    writer.write_all(b"Hello");
    assert_eq!(writer.bytes_written(), 5);

    let pad_len = writer.write_padding().unwrap();
    assert_eq!(pad_len, 3);
    assert_eq!(writer.bytes_written(), 8);

    let buffer = writer.finish();
    assert_eq!(buffer.len(), 24);

    let mut reader = PxadReader::new(buffer);

    let read_buf = reader.read_exact(5).unwrap();
    assert_eq!(&read_buf[..], b"Hello");
    assert_eq!(reader.bytes_read(), 5);

    let skipped = reader.skip_padding().unwrap();
    assert_eq!(skipped, 3);
    assert_eq!(reader.bytes_read(), 8);

    assert!(reader.verify_footer().is_ok());
}

#[test]
fn test_reader_corrupted_data() {
    let mut writer = PxadWriter::new();
    writer.write_all(b"Important Data");
    writer.write_padding().unwrap();
    let mut buffer = writer.finish();

    buffer[0] = b'X';

    let mut reader = PxadReader::new(buffer);
    let read_buf = reader.read_exact(14).unwrap();
    assert_eq!(read_buf.len(), 14);
    reader.skip_padding().unwrap();

    let result = reader.verify_footer();
    assert!(result.is_err());
    match result.unwrap_err() {
        FormatError::InvalidData(_) => {}
        _ => panic!("Expected InvalidData error"),
    }
}

#[test]
fn test_canvas_payload() {
    let mut original = PixelStore::new(1920, 1080);
    original.primary_color = Color::new(255, 128, 64, 255);
    original.brush_size = 15;
    let pan_x = -100.5f32;
    let pan_y = 200.25f32;
    let zoom_level = 3.1415f64;

    let bytes = serialize_canvas(&original, pan_x.to_bits(), pan_y.to_bits(), zoom_level.to_bits());
    assert_eq!(bytes.len(), 32);

    let mut restored = PixelStore::new(1, 1);
    let (r_px, r_py, r_zl) = deserialize_canvas(&bytes, &mut restored).unwrap();

    assert_eq!(restored.canvas_width, 1920);
    assert_eq!(restored.canvas_height, 1080);
    assert_eq!(restored.primary_color, Color::new(255, 128, 64, 255));
    assert_eq!(restored.brush_size, 15);
    assert_eq!(f32::from_bits(r_px), -100.5);
    assert_eq!(f32::from_bits(r_py), 200.25);
    assert_eq!(f64::from_bits(r_zl), 3.1415);
}

#[test]
fn test_symmetry_payload() {
    let mut original = SymmetryConfig::new(400.0f32.to_bits(), 300.0f32.to_bits());
    original.mode = SymmetryMode::Quad;
    original.axis_x = 400.0f32.to_bits();
    original.axis_y = 300.0f32.to_bits();
    original.translation_dx = -50;
    original.translation_dy = 120;
    original.visible_guides = false;

    let bytes = serialize_symmetry(&original);
    assert_eq!(bytes.len(), 18);

    let restored = deserialize_symmetry(&bytes).unwrap();

    assert_eq!(restored.mode, SymmetryMode::Quad);
    assert_eq!(f32::from_bits(restored.axis_x), 400.0);
    assert_eq!(f32::from_bits(restored.axis_y), 300.0);
    assert_eq!(restored.translation_dx, -50);
    assert_eq!(restored.translation_dy, 120);
    assert_eq!(restored.visible_guides, false);
}

#[test]
fn test_layer_payload() {
    let mut original = Layer::new("layer_001".into(), "测试图层".into(), 1920, 1080);
    original.visible = false;
    original.offset_x = -50;
    original.offset_y = 100;
    original.blend_mode = BlendMode::Multiply;

    original.set_pixel(10, 10, Color::new(255, 0, 0, 255)).unwrap();
    original.locked = true;

    let bytes = serialize_layer(&original);
    assert!(bytes.len() > 16000);

    let restored = deserialize_layer(&bytes, 2).unwrap();

    assert_eq!(restored.id, "layer_001");
    assert_eq!(restored.name, "测试图层");
    assert_eq!(restored.visible, false);
    assert_eq!(restored.locked, true);
    assert_eq!(restored.blend_mode, BlendMode::Multiply);
    assert_eq!(restored.width, 1920);
    assert_eq!(restored.offset_x, -50);

    assert_eq!(restored.get_pixel(10, 10).unwrap().r, 255);
}

// ---- further cases

#[test]
fn header_bytes_are_little_endian() {
    let mut header = PxadHeader::new();
    header.file_size = 0x0102;
    let mut buffer = Vec::new();
    header.write_to(&mut buffer).unwrap();
    assert_eq!(&buffer[0..4], b"PXAD");
    assert_eq!(buffer[8], 0x02);
    assert_eq!(buffer[9], 0x01);
}

#[test]
fn header_truncated_is_eof() {
    let mut reader = PxadReader::new(vec![b'P', b'X', b'A', b'D', 1, 0]);
    assert!(PxadHeader::read_from(&mut reader).is_err());
}

#[test]
fn block_too_large_is_refused() {
    let block = BlockHeader::new(*b"LAYR", u64::MAX);
    let mut buffer = Vec::new();
    block.write_to(&mut buffer).unwrap();
    let mut writer = PxadWriter::new();
    writer.write_all(&buffer);
    let mut reader = PxadReader::new(writer.finish());
    match read_block(&mut reader) {
        Err(FormatError::InvalidData(_)) => {}
        _ => panic!("a block over the payload limit must be refused"),
    }
}

#[test]
fn footer_detects_changed_checksum() {
    let mut writer = PxadWriter::new();
    writer.write_all(b"abcd");
    let mut buffer = writer.finish();
    let last = buffer.len() - 1;
    buffer[last] ^= 0xff;
    let mut reader = PxadReader::new(buffer);
    reader.read_exact(4).unwrap();
    assert!(reader.verify_footer().is_err());
}

#[test]
fn reading_past_end_fails() {
    let mut reader = PxadReader::new(vec![1, 2, 3]);
    assert!(reader.read_exact(4).is_err());
}

#[test]
fn short_payloads_are_eof() {
    assert!(matches!(deserialize_symmetry(&[0u8; 17]), Err(FormatError::UnexpectedEof(_))));
    let mut s = PixelStore::new(2, 2);
    assert!(matches!(deserialize_canvas(&[0u8; 31], &mut s), Err(FormatError::UnexpectedEof(_))));
    assert_eq!(s.canvas_width, 2);
    assert!(matches!(deserialize_selection(&[0u8; 8]), Err(FormatError::UnexpectedEof(_))));
    assert!(deserialize_palette(&[0u8; 3]).is_err());
}

#[test]
fn palette_round_trip() {
    let p = Palette {
        name: "Project Palette".to_string(),
        colors: vec![Color::new(1, 2, 3, 4), Color::new(250, 251, 252, 253)],
    };
    let bytes = serialize_palette(&p);
    assert_eq!(bytes.len(), 4 + 2 * 4);
    assert_eq!(&bytes[0..4], &[2, 0, 0, 0]);
    let q = deserialize_palette(&bytes).unwrap();
    assert_eq!(q.colors, p.colors);
    assert_eq!(q.name, "Project Palette");
}

#[test]
fn palette_too_many_colours_is_refused() {
    let mut bytes = vec![0u8; 4];
    bytes[0..4].copy_from_slice(&5000u32.to_le_bytes());
    assert!(matches!(deserialize_palette(&bytes), Err(FormatError::InvalidData(_))));
}

#[test]
fn selection_round_trip() {
    let mut sel = SelectionData::new(4, 3);
    sel.set_rect(1, 1, 2, 2);
    let bytes = serialize_selection(&sel);
    assert_eq!(bytes.len(), 9 + 12);
    let back = deserialize_selection(&bytes).unwrap();
    assert_eq!(back.is_active, sel.is_active);
    assert_eq!(back.width, 4);
    assert_eq!(back.height, 3);
    assert_eq!(back.mask, sel.mask);
    assert!(back.contains(1, 1));
    assert!(!back.contains(0, 0));
}

#[test]
fn selection_over_limit_is_refused() {
    let mut bytes = vec![1u8];
    bytes.extend_from_slice(&20000u32.to_le_bytes());
    bytes.extend_from_slice(&1u32.to_le_bytes());
    assert!(matches!(deserialize_selection(&bytes), Err(FormatError::InvalidData(_))));
}

#[test]
fn layer_with_bad_name_bytes_is_refused() {
    let original = Layer::new("ab".into(), "cd".into(), 4, 4);
    let mut bytes = serialize_layer(&original);
    // the id's first byte, after its 4-byte length
    bytes[4] = 0xff;
    assert!(matches!(deserialize_layer(&bytes, 2), Err(FormatError::InvalidUtf8(_))));
}

#[test]
fn layer_truncated_is_refused() {
    let original = Layer::new("ab".into(), "cd".into(), 4, 4);
    let bytes = serialize_layer(&original);
    assert!(deserialize_layer(&bytes[..bytes.len() - 1], 2).is_err());
}

use pxa_engine_win32::format::hex_palette::{hex_line, parse_hex_line, parse_hex_lines};

#[test]
fn hex_lines_parse_and_format() {
    assert_eq!(parse_hex_line(b"#FF8000"), Some(Color::new(255, 128, 0, 255)));
    assert_eq!(parse_hex_line(b"0a0B0c"), Some(Color::new(10, 11, 12, 255)));
    assert_eq!(parse_hex_line(b"+F0000"), Some(Color::new(15, 0, 0, 255)));
    assert_eq!(parse_hex_line(b"12345"), None);
    assert_eq!(parse_hex_line(b"GG0000"), None);
    assert_eq!(hex_line(Color::new(255, 128, 0, 7)), b"FF8000".to_vec());
    let lines = vec![b"#010203".to_vec(), Vec::new(), b"nope".to_vec(), b"FFFFFF".to_vec()];
    assert_eq!(parse_hex_lines(&lines), vec![Color::new(1, 2, 3, 255), Color::new(255, 255, 255, 255)]);
}

#[test]
fn hex_line_round_trip() {
    let c = Color::new(18, 52, 86, 0);
    assert_eq!(parse_hex_line(&hex_line(c)), Some(Color::new(18, 52, 86, 255)));
}

#[test]
fn hex_palette_lines_round_trip() {
    let palette = Palette {
        name: "TestPalette".to_string(),
        colors: vec![
            Color::new(255, 0, 0, 255),
            Color::new(0, 255, 0, 255),
            Color::new(0, 0, 255, 255),
        ],
    };
    let lines: Vec<Vec<u8>> = palette.colors.iter().map(|c| hex_line(*c)).collect();
    assert_eq!(lines[0], b"FF0000".to_vec());
    let loaded = parse_hex_lines(&lines);
    assert_eq!(loaded.len(), 3);
    assert_eq!(loaded[0].r, 255);
    assert_eq!(loaded, palette.colors);
}

#[test]
fn wrong_magic_reads_only_the_magic() {
    let mut bad = b"BADD".to_vec();
    bad.push(1);
    bad.resize(32, 0);
    let mut reader = PxadReader::new(bad);
    match PxadHeader::read_from(&mut reader) {
        Err(FormatError::InvalidData(_)) => {}
        _ => panic!("invalid data is expected"),
    }
    assert_eq!(reader.pos, 4);
}

#[test]
fn footer_with_wrong_marker_is_invalid() {
    let mut writer = PxadWriter::new();
    writer.write_all(b"abc");
    let mut buffer = writer.finish();
    let n = buffer.len();
    buffer[n - 1] = b'7';
    let mut reader = PxadReader::new(buffer);
    reader.read_exact(3).unwrap();
    match reader.verify_footer() {
        Err(FormatError::InvalidData(_)) => {}
        _ => panic!("invalid data is expected"),
    }
}
