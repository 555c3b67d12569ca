use aseprite::{
    premultiplied_to_straight, straight_to_premultiplied, AsepriteError, AsepriteFile, CelKind,
    Color, ColorMode, LayerKind, LoopDirection, Pixels, UserData,
};

/// A file of the given frames, each a duration and its chunks (type, body).
fn file_bytes(depth: u16, frames: &[(u16, Vec<(u16, Vec<u8>)>)]) -> Vec<u8> {
    let mut body = Vec::new();
    for (duration, chunks) in frames {
        let mut data = Vec::new();
        for (t, d) in chunks {
            data.extend_from_slice(&((d.len() + 6) as u32).to_le_bytes());
            data.extend_from_slice(&t.to_le_bytes());
            data.extend_from_slice(d);
        }
        body.extend_from_slice(&((16 + data.len()) as u32).to_le_bytes());
        body.extend_from_slice(&0xF1FAu16.to_le_bytes());
        body.extend_from_slice(&(chunks.len() as u16).to_le_bytes());
        body.extend_from_slice(&duration.to_le_bytes());
        body.extend_from_slice(&[0, 0]);
        body.extend_from_slice(&(chunks.len() as u32).to_le_bytes());
        body.extend_from_slice(&data);
    }
    let mut out = Vec::new();
    out.extend_from_slice(&((128 + body.len()) as u32).to_le_bytes());
    out.extend_from_slice(&0xA5E0u16.to_le_bytes());
    out.extend_from_slice(&(frames.len() as u16).to_le_bytes());
    out.extend_from_slice(&4u16.to_le_bytes());
    out.extend_from_slice(&3u16.to_le_bytes());
    out.extend_from_slice(&depth.to_le_bytes());
    out.extend_from_slice(&1u32.to_le_bytes());
    out.extend_from_slice(&[0u8; 2]);
    out.extend_from_slice(&[0u8; 8]);
    out.push(0);
    out.extend_from_slice(&[0u8; 3]);
    out.extend_from_slice(&[0u8; 2]);
    out.push(1);
    out.push(1);
    out.extend_from_slice(&[0u8; 8]);
    out.extend_from_slice(&[0u8; 84]);
    assert_eq!(out.len(), 128);
    out.extend_from_slice(&body);
    out
}

fn write(file: &AsepriteFile) -> Vec<u8> {
    let mut buf = Vec::new();
    file.write_to(&mut buf).unwrap();
    buf
}

#[test]
fn header_fields_read_back() {
    let data = file_bytes(16, &[(7, vec![])]);
    let file = AsepriteFile::from_reader(&data[..]).unwrap();
    assert_eq!(file.width(), 4);
    assert_eq!(file.height(), 3);
    assert_eq!(file.color_mode(), ColorMode::Grayscale);
    assert_eq!(file.flags(), 1);
    assert_eq!(file.pixel_ratio(), (1, 1));
    assert_eq!(file.frames().len(), 1);
    assert_eq!(file.frames()[0].duration_ms, 7);
}

#[test]
fn unsupported_color_depth() {
    let data = file_bytes(24, &[]);
    match AsepriteFile::from_reader(&data[..]) {
        Err(AsepriteError::UnsupportedColorDepth(24)) => {}
        other => panic!("expected UnsupportedColorDepth(24), got {:?}", other.map(|_| ())),
    }
}

#[test]
fn bad_frame_magic() {
    let mut data = file_bytes(32, &[(1, vec![])]);
    data[132] = 0;
    assert!(matches!(AsepriteFile::from_reader(&data[..]), Err(AsepriteError::InvalidMagic)));
}

#[test]
fn chunk_size_below_header() {
    let mut data = file_bytes(32, &[(1, vec![(0x1234, vec![])])]);
    // The chunk's size field follows the 128-byte header and the 16-byte frame header.
    data[144] = 5;
    assert!(matches!(AsepriteFile::from_reader(&data[..]), Err(AsepriteError::InvalidChunkSize)));
}

#[test]
fn truncated_chunk_is_io_error() {
    let mut data = file_bytes(32, &[(1, vec![(0x1234, vec![1, 2, 3])])]);
    data.truncate(data.len() - 1);
    assert!(matches!(AsepriteFile::from_reader(&data[..]), Err(AsepriteError::Io(_))));
}

#[test]
fn unknown_property_type_is_reported() {
    // User data with properties: one map with one entry of type 0x0099.
    let mut props = Vec::new();
    props.extend_from_slice(&1u32.to_le_bytes()); // one map
    props.extend_from_slice(&0u32.to_le_bytes()); // key
    props.extend_from_slice(&1u32.to_le_bytes()); // one entry
    props.extend_from_slice(&1u16.to_le_bytes());
    props.push(b'x');
    props.extend_from_slice(&0x0099u16.to_le_bytes());
    let mut ud = Vec::new();
    ud.extend_from_slice(&4u32.to_le_bytes());
    ud.extend_from_slice(&((4 + props.len()) as u32).to_le_bytes());
    ud.extend_from_slice(&props);
    let data = file_bytes(32, &[(1, vec![(0x2020, ud)])]);
    match AsepriteFile::from_reader(&data[..]) {
        Err(AsepriteError::UnsupportedChunkType(0x0099)) => {}
        other => panic!("expected UnsupportedChunkType(0x0099), got {:?}", other.map(|_| ())),
    }
}

#[test]
fn old_palettes_set_entries() {
    // 0x0004: one packet skipping 1 entry, then 2 colors.
    let p4 = vec![1, 0, 1, 2, 10, 20, 30, 40, 50, 60];
    // 0x0011: one packet of 1 color with 6-bit components.
    let p11 = vec![1, 0, 0, 1, 63, 32, 1];
    let data = file_bytes(8, &[(1, vec![(0x0004, p4), (0x0011, p11)])]);
    let file = AsepriteFile::from_reader(&data[..]).unwrap();
    let pal = file.palette();
    assert_eq!(pal.len(), 3);
    assert_eq!(pal[0], Color { r: 255, g: 130, b: 4, a: 255, name: None });
    assert_eq!(pal[1], Color { r: 10, g: 20, b: 30, a: 255, name: None });
    assert_eq!(pal[2], Color { r: 40, g: 50, b: 60, a: 255, name: None });
    // The legacy chunks are kept and written back as they were.
    assert_eq!(write(&file), data);
}

#[test]
fn legacy_mask_is_parsed_and_kept() {
    let mut mask = Vec::new();
    mask.extend_from_slice(&(-2i16).to_le_bytes());
    mask.extend_from_slice(&3i16.to_le_bytes());
    mask.extend_from_slice(&8u16.to_le_bytes());
    mask.extend_from_slice(&2u16.to_le_bytes());
    mask.extend_from_slice(&[0u8; 8]);
    mask.extend_from_slice(&4u16.to_le_bytes());
    mask.extend_from_slice(b"mask");
    mask.extend_from_slice(&[0xAA, 0x55]);
    let data = file_bytes(32, &[(1, vec![(0x2016, mask)])]);
    let file = AsepriteFile::from_reader(&data[..]).unwrap();
    assert_eq!(file.legacy_masks().len(), 1);
    let m = &file.legacy_masks()[0];
    assert_eq!((m.x, m.y, m.width, m.height), (-2, 3, 8, 2));
    assert_eq!(m.name, "mask");
    assert_eq!(m.bitmap, vec![0xAA, 0x55]);
    assert_eq!(write(&file), data);
}

#[test]
fn unknown_chunks_are_kept() {
    let data = file_bytes(32, &[(5, vec![(0x7777, vec![9, 8, 7]), (0x1234, vec![])])]);
    let file = AsepriteFile::from_reader(&data[..]).unwrap();
    assert_eq!(write(&file), data);
}

#[test]
fn invalid_utf8_name_is_replaced() {
    let mut layer = Vec::new();
    layer.extend_from_slice(&1u16.to_le_bytes());
    layer.extend_from_slice(&0u16.to_le_bytes());
    layer.extend_from_slice(&0u16.to_le_bytes());
    layer.extend_from_slice(&[0u8; 4]);
    layer.extend_from_slice(&0u16.to_le_bytes());
    layer.push(255);
    layer.extend_from_slice(&[0u8; 3]);
    layer.extend_from_slice(&2u16.to_le_bytes());
    layer.extend_from_slice(&[b'a', 0xFF]);
    let data = file_bytes(32, &[(1, vec![(0x2004, layer)])]);
    let file = AsepriteFile::from_reader(&data[..]).unwrap();
    assert_eq!(file.layers()[0].name, "a\u{FFFD}");
}

#[test]
fn written_file_reads_back_and_rewrites_identically() {
    let mut file = AsepriteFile::new(4, 4, ColorMode::Rgba);
    let bg = file.add_layer("Background");
    let group = file.add_group("Group");
    let child = file.add_layer_in("Child", group);
    file.add_frame(100);
    file.add_frame(40);
    let pixels = Pixels::new(vec![7u8; 64], 4, 4, ColorMode::Rgba).unwrap();
    file.set_cel(bg, 0, pixels, 1, 2).unwrap();
    let raw = Pixels::new(vec![3u8; 16], 2, 2, ColorMode::Rgba).unwrap();
    file.set_raw_cel(child, 1, raw, 0, 0).unwrap();
    file.set_linked_cel(bg, 1, 0).unwrap();
    file.add_tag("all", 0..=1, LoopDirection::Reverse).unwrap();
    file.set_tag_user_data(0, UserData { text: Some("t".to_string()), color: None, properties: vec![] });
    file.set_cel_user_data(child, 1, UserData { text: Some("c".to_string()), color: None, properties: vec![] });

    let first = write(&file);
    let read = AsepriteFile::from_reader(&first[..]).unwrap();
    assert_eq!(read.layers()[2].parent, Some(1));
    assert_eq!(read.tags()[0].direction, LoopDirection::Reverse);
    let second = write(&read);
    assert_eq!(first, second);
}

#[test]
fn compression_shrinks_uniform_pixels() {
    let mut file = AsepriteFile::new(16, 16, ColorMode::Rgba);
    let layer = file.add_layer("L");
    file.add_frame(1);
    let pixels = Pixels::new(vec![200u8; 16 * 16 * 4], 16, 16, ColorMode::Rgba).unwrap();
    file.set_cel(layer, 0, pixels, 0, 0).unwrap();
    let bytes = write(&file);
    assert!(bytes.len() < 16 * 16 * 4);
    let read = AsepriteFile::from_reader(&bytes[..]).unwrap();
    let cel = read.cel(read.layer_ref(0).unwrap(), 0).unwrap();
    match &cel.kind {
        CelKind::Compressed { pixels, original_compressed, .. } => {
            assert_eq!(pixels.data, vec![200u8; 16 * 16 * 4]);
            assert!(original_compressed.is_some());
        }
        other => panic!("expected Compressed cel, got {:?}", other),
    }
}

#[test]
fn indexed_without_palette_is_refused() {
    let mut file = AsepriteFile::new(1, 1, ColorMode::Indexed);
    file.add_frame(1);
    let mut buf = vec![1, 2, 3];
    assert!(matches!(file.write_to(&mut buf), Err(AsepriteError::MissingPalette)));
    assert_eq!(buf, vec![1, 2, 3]);
}

#[test]
fn too_many_frames_is_refused() {
    let mut file = AsepriteFile::new(1, 1, ColorMode::Rgba);
    for _ in 0..65536 {
        file.add_frame(1);
    }
    let mut buf = Vec::new();
    match file.write_to(&mut buf) {
        Err(AsepriteError::FormatLimitExceeded { field: "frames", value: 65536, max: 65535 }) => {}
        other => panic!("expected FormatLimitExceeded, got {:?}", other),
    }
}

#[test]
fn too_many_layers_is_refused() {
    let mut file = AsepriteFile::new(1, 1, ColorMode::Rgba);
    for _ in 0..65536 {
        file.add_layer("l");
    }
    let mut buf = Vec::new();
    match file.write_to(&mut buf) {
        Err(AsepriteError::FormatLimitExceeded { field: "layers", value: 65536, max: 65535 }) => {}
        other => panic!("expected FormatLimitExceeded, got {:?}", other),
    }
}

#[test]
fn sprite_user_data_without_palette_gets_one_color_palette() {
    let mut file = AsepriteFile::new(1, 1, ColorMode::Rgba);
    file.add_frame(1);
    file.set_sprite_user_data(UserData { text: Some("s".to_string()), color: None, properties: vec![] });
    let read = AsepriteFile::from_reader(&write(&file)[..]).unwrap();
    assert_eq!(read.palette().to_vec(), vec![Color { r: 0, g: 0, b: 0, a: 255, name: None }]);
    assert_eq!(read.sprite_user_data().as_ref().unwrap().text.as_deref(), Some("s"));
}

#[test]
fn linked_cel_source_out_of_bounds() {
    let mut file = AsepriteFile::new(1, 1, ColorMode::Rgba);
    let layer = file.add_layer("L");
    file.add_frame(1);
    assert!(matches!(file.set_linked_cel(layer, 0, 3), Err(AsepriteError::FrameOutOfBounds(3))));
    assert!(file.cel(layer, 0).is_none());
}

#[test]
fn set_cel_replaces_previous_cel() {
    let mut file = AsepriteFile::new(1, 1, ColorMode::Rgba);
    let layer = file.add_layer("L");
    file.add_frame(1);
    let a = Pixels::new(vec![1, 2, 3, 4], 1, 1, ColorMode::Rgba).unwrap();
    let b = Pixels::new(vec![5, 6, 7, 8], 1, 1, ColorMode::Rgba).unwrap();
    file.set_cel(layer, 0, a, 0, 0).unwrap();
    file.set_raw_cel(layer, 0, b, 1, 1).unwrap();
    match &file.cel(layer, 0).unwrap().kind {
        CelKind::Raw { pixels, x, y } => {
            assert_eq!(pixels.data, vec![5, 6, 7, 8]);
            assert_eq!((*x, *y), (1, 1));
        }
        other => panic!("expected Raw cel, got {:?}", other),
    }
}

#[test]
fn tag_range_on_file_without_frames() {
    let mut file = AsepriteFile::new(1, 1, ColorMode::Rgba);
    assert!(matches!(
        file.add_tag("any", 0..=3, LoopDirection::PingPongReverse),
        Err(AsepriteError::InvalidFrameRange)
    ));
    assert!(file.tags().is_empty());
}

#[test]
fn tilemap_layer_is_not_a_group() {
    let mut file = AsepriteFile::new(1, 1, ColorMode::Rgba);
    file.add_tilemap_layer("t", 7);
    assert!(file.layer_ref(0).is_some());
    assert!(file.group_ref(0).is_none());
    assert_eq!(file.layers()[0].kind, LayerKind::Tilemap { tileset_index: 7 });
}

#[test]
fn error_messages() {
    assert_eq!(AsepriteError::InvalidMagic.message(), "invalid magic number (expected 0xA5E0)");
    assert_eq!(AsepriteError::UnsupportedColorDepth(24).message(), "unsupported color depth: 24");
    assert_eq!(AsepriteError::FrameOutOfBounds(5).message(), "frame index 5 out of bounds");
    assert_eq!(
        AsepriteError::PixelSizeMismatch { expected: 64, actual: 10 }.message(),
        "pixel data size mismatch: expected 64, got 10"
    );
    assert_eq!(AsepriteError::InvalidFrameRange.message(), "invalid frame range");
    assert_eq!(AsepriteError::MissingPalette.message(), "indexed color mode requires a palette");
    assert_eq!(
        AsepriteError::LinkedCelNotFound { layer: 2, source_frame: 9 }.message(),
        "linked cel not found: layer 2, source frame 9"
    );
    assert_eq!(AsepriteError::InvalidChunkSize.message(), "invalid chunk size");
    assert_eq!(AsepriteError::UnsupportedChunkType(0x2A).message(), "unsupported chunk type: 0x002A");
    assert_eq!(
        AsepriteError::FormatLimitExceeded { field: "palette", value: 300, max: 256 }.message(),
        "format limit exceeded for palette: 300 > 256"
    );
    let io = AsepriteError::from(std::io::Error::new(std::io::ErrorKind::Other, "boom"));
    assert_eq!(io.message(), "I/O error: boom");
}

#[test]
fn premultiplied_and_straight_alpha() {
    let mut data = vec![64, 0, 32, 128, 9, 9, 9, 0, 1, 2, 3, 255, 7];
    premultiplied_to_straight(&mut data);
    assert_eq!(data, vec![128, 0, 64, 128, 0, 0, 0, 0, 1, 2, 3, 255, 7]);
    straight_to_premultiplied(&mut data);
    assert_eq!(data, vec![64, 0, 32, 128, 0, 0, 0, 0, 1, 2, 3, 255, 7]);
    let mut capped = vec![200, 0, 0, 100];
    premultiplied_to_straight(&mut capped);
    assert_eq!(capped, vec![255, 0, 0, 100]);
}

#[test]
fn every_tag_gets_user_data_when_one_has_some() {
    let mut file = AsepriteFile::new(2, 2, ColorMode::Rgba);
    file.add_layer("L");
    file.add_frame(100);
    file.add_frame(100);
    file.add_tag("a", 0..=0, LoopDirection::Forward).unwrap();
    file.add_tag("b", 1..=1, LoopDirection::Forward).unwrap();
    file.set_tag_user_data(1, UserData { text: Some("second".to_string()), color: None, properties: vec![] });
    let read = AsepriteFile::from_reader(&write(&file)[..]).unwrap();
    assert_eq!(read.tags()[0].user_data, Some(UserData { text: None, color: None, properties: vec![] }));
    assert_eq!(read.tags()[1].user_data.as_ref().unwrap().text.as_deref(), Some("second"));
}

#[test]
fn user_data_color_reads_back_without_name() {
    let mut file = AsepriteFile::new(2, 2, ColorMode::Rgba);
    let layer = file.add_layer("L");
    file.add_frame(100);
    let color = Color { r: 1, g: 2, b: 3, a: 4, name: Some("named".to_string()) };
    file.set_layer_user_data(layer, UserData { text: None, color: Some(color), properties: vec![] });
    let read = AsepriteFile::from_reader(&write(&file)[..]).unwrap();
    let back = read.layers()[0].user_data.as_ref().unwrap().color.as_ref().unwrap();
    assert_eq!((back.r, back.g, back.b, back.a), (1, 2, 3, 4));
    assert_eq!(back.name, None);
}

#[test]
fn layer_parent_is_the_last_group_one_level_up() {
    let mut file = AsepriteFile::new(2, 2, ColorMode::Rgba);
    let first = file.add_group("First");
    file.add_group("Second");
    file.add_layer_in("Child", first);
    file.add_frame(100);
    let read = AsepriteFile::from_reader(&write(&file)[..]).unwrap();
    assert_eq!(file.layers()[2].parent, Some(0));
    assert_eq!(read.layers()[2].parent, Some(1));
}

#[test]
fn empty_frame_rewrites_identically() {
    let mut file = AsepriteFile::new(2, 2, ColorMode::Rgba);
    let layer = file.add_layer("L");
    file.add_frame(100);
    file.add_frame(50);
    let pixels = Pixels::new(vec![9u8; 16], 2, 2, ColorMode::Rgba).unwrap();
    file.set_cel(layer, 0, pixels, 0, 0).unwrap();
    let first = write(&file);
    let read = AsepriteFile::from_reader(&first[..]).unwrap();
    assert_eq!(read.frames().len(), 2);
    assert_eq!(read.frames()[1].duration_ms, 50);
    assert_eq!(write(&read), first);
}

#[test]
fn link_to_own_frame_resolves_to_nothing() {
    let mut file = AsepriteFile::new(2, 2, ColorMode::Rgba);
    let layer = file.add_layer("L");
    file.add_frame(100);
    file.set_linked_cel(layer, 0, 0).unwrap();
    assert!(file.resolve_cel(layer, 0).is_none());
}

#[test]
fn chain_of_links_resolves_to_the_first_unlinked_cel() {
    let mut file = AsepriteFile::new(2, 2, ColorMode::Rgba);
    let layer = file.add_layer("L");
    for _ in 0..3 {
        file.add_frame(100);
    }
    file.set_cel(layer, 0, Pixels::new(vec![0u8; 16], 2, 2, ColorMode::Rgba).unwrap(), 0, 0).unwrap();
    file.set_linked_cel(layer, 1, 0).unwrap();
    file.set_linked_cel(layer, 2, 1).unwrap();
    let resolved = file.resolve_cel(layer, 2).unwrap();
    assert!(matches!(resolved.kind, CelKind::Compressed { .. }));
}

#[test]
fn tag_frames_read_back_as_their_low_sixteen_bits() {
    let mut file = AsepriteFile::new(2, 2, ColorMode::Rgba);
    file.add_layer("L");
    file.add_frame(100);
    file.add_tag("wide", 70000..=0, LoopDirection::Forward).unwrap();
    assert_eq!(file.tags()[0].from_frame, 70000);
    let bytes = write(&file);
    let read = AsepriteFile::from_reader(&bytes[..]).unwrap();
    assert_eq!(read.tags()[0].from_frame, 70000 - 65536);
    assert_eq!(read.tags()[0].to_frame, 0);
    assert_eq!(read.tags()[0].name, "wide");
}

#[test]
fn premultiplied_data_survives_straight_and_back() {
    let original = vec![0u8, 0, 0, 0, 10, 20, 30, 40, 127, 1, 254, 254, 200, 100, 50, 255, 9, 8];
    let mut data = original.clone();
    premultiplied_to_straight(&mut data);
    straight_to_premultiplied(&mut data);
    assert_eq!(data, original);
}

#[test]
fn file_from_another_writer_rewrites_identically() {
    let mut layer = Vec::new();
    layer.extend_from_slice(&1u16.to_le_bytes());
    layer.extend_from_slice(&0u16.to_le_bytes());
    layer.extend_from_slice(&0u16.to_le_bytes());
    layer.extend_from_slice(&[0u8; 4]);
    layer.extend_from_slice(&0u16.to_le_bytes());
    layer.push(255);
    layer.extend_from_slice(&[0u8; 3]);
    layer.extend_from_slice(&2u16.to_le_bytes());
    layer.extend_from_slice(b"ab");
    let data = file_bytes(
        32,
        &[
            (100, vec![(0x7777, vec![1, 2, 3]), (0x2004, layer)]),
            (50, vec![]),
            (70, vec![(0x7777, vec![9])]),
        ],
    );
    let file = AsepriteFile::from_reader(&data[..]).unwrap();
    assert_eq!(file.layers()[0].name, "ab");
    assert_eq!(file.frames().len(), 3);
    assert_eq!(write(&file), data);
}
