use arborio::atlas::{data_file_fits, decode_data, read_meta, AtlasReadError, Rgba8};

fn header(w: u32, h: u32, alpha: bool) -> Vec<u8> {
    let mut v = Vec::new();
    v.extend_from_slice(&w.to_le_bytes());
    v.extend_from_slice(&h.to_le_bytes());
    v.push(alpha as u8);
    v
}

fn px(r: u8, g: u8, b: u8, a: u8) -> Rgba8 {
    Rgba8 { r, g, b, a }
}

#[test]
fn data_runs_without_alpha() {
    let mut b = header(3, 1, false);
    b.extend_from_slice(&[2, 10, 20, 30]);
    b.extend_from_slice(&[1, 1, 2, 3]);
    assert!(data_file_fits(&b));
    let img = decode_data(&b).unwrap();
    assert_eq!((img.width, img.height), (3, 1));
    assert_eq!(img.pixels, vec![px(30, 20, 10, 255), px(30, 20, 10, 255), px(3, 2, 1, 255)]);
}

#[test]
fn data_runs_with_alpha_and_clear_runs() {
    let mut b = header(2, 2, true);
    b.extend_from_slice(&[1, 0]);
    b.extend_from_slice(&[2, 128, 5, 6, 7]);
    b.extend_from_slice(&[5, 0]);
    let img = decode_data(&b).unwrap();
    assert_eq!(img.pixels, vec![px(0, 0, 0, 0), px(7, 6, 5, 128), px(7, 6, 5, 128), px(0, 0, 0, 0)]);
}

#[test]
fn data_file_cut_short() {
    assert_eq!(decode_data(&[1, 0, 0]).unwrap_err(), AtlasReadError::UnexpectedEof);
    let mut b = header(2, 1, false);
    b.extend_from_slice(&[1, 9, 9]);
    assert_eq!(decode_data(&b).unwrap_err(), AtlasReadError::UnexpectedEof);
    let empty = decode_data(&header(0, 5, true)).unwrap();
    assert!(empty.pixels.is_empty());
}

#[test]
fn data_runs_past_the_image_do_not_fit() {
    let mut b = header(2, 1, false);
    b.extend_from_slice(&[3, 1, 1, 1]);
    assert!(!data_file_fits(&b));
    assert!(!data_file_fits(&header(0x10000, 0x10000, false)));
    let mut c = header(2, 1, true);
    c.extend_from_slice(&[9, 0]);
    assert!(data_file_fits(&c));
}

fn s(v: &mut Vec<u8>, t: &str) {
    v.push(t.len() as u8);
    v.extend_from_slice(t.as_bytes());
}

fn u16s(v: &mut Vec<u8>, xs: &[u16]) {
    for x in xs {
        v.extend_from_slice(&x.to_le_bytes());
    }
}

#[test]
fn meta_lists_files_and_sprites() {
    let mut b = Vec::new();
    b.extend_from_slice(&7u32.to_le_bytes());
    s(&mut b, "cmd");
    b.extend_from_slice(&0u32.to_le_bytes());
    u16s(&mut b, &[1]);
    s(&mut b, "Gameplay0");
    u16s(&mut b, &[1]);
    s(&mut b, "decals\\flower");
    u16s(&mut b, &[1, 2, 3, 4]);
    b.extend_from_slice(&(-5i16).to_le_bytes());
    b.extend_from_slice(&6i16.to_le_bytes());
    u16s(&mut b, &[7, 8]);
    let meta = read_meta(&b);
    assert_eq!(meta.error, None);
    assert_eq!(meta.files.len(), 1);
    assert_eq!(meta.files[0].data_name, "Gameplay0");
    let sp = &meta.files[0].sprites[0];
    assert_eq!(sp.path, "decals/flower");
    assert_eq!((sp.x, sp.y, sp.width, sp.height), (1, 2, 3, 4));
    assert_eq!((sp.offset_x, sp.offset_y, sp.real_width, sp.real_height), (-5, 6, 7, 8));
}

#[test]
fn meta_cut_short_keeps_what_was_read() {
    let mut b = Vec::new();
    b.extend_from_slice(&7u32.to_le_bytes());
    s(&mut b, "");
    b.extend_from_slice(&0u32.to_le_bytes());
    u16s(&mut b, &[2]);
    s(&mut b, "a");
    u16s(&mut b, &[0]);
    s(&mut b, "b");
    u16s(&mut b, &[3]);
    s(&mut b, "x");
    let meta = read_meta(&b);
    assert_eq!(meta.error, Some(AtlasReadError::UnexpectedEof));
    assert_eq!(meta.files.len(), 2);
    assert_eq!(meta.files[1].data_name, "b");
    assert!(meta.files[1].sprites.is_empty());
    let bad = [1, 0, 0, 0, 1, 0xff];
    assert_eq!(read_meta(&bad).error, Some(AtlasReadError::InvalidUtf8));
    assert_eq!(read_meta(&[1, 2]).files.len(), 0);
}
