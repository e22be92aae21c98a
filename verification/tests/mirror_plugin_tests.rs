use image_ffi::mirror::{mirror_horizontal, mirror_vertical};
use image_ffi::mirror_plugin::{parse_pairs, parse_params, process_image, MirrorParams};
use image_ffi::params::{parse_bool, parse_usize};

fn chars(s: &str) -> Vec<char> {
    s.chars().collect()
}

#[test]
fn parses_bool_params() {
    let parsed = parse_params(Some("horizontal=true,vertical=0".as_bytes()));
    assert!(parsed.horizontal);
    assert!(!parsed.vertical);
}

#[test]
fn mirrors_horizontally() {
    let mut data = vec![
        255, 0, 0, 255, // left pixel
        0, 255, 0, 255, // right pixel
    ];
    mirror_horizontal(&mut data, 2, 1);
    assert_eq!(
        data,
        vec![
            0, 255, 0, 255, // becomes right
            255, 0, 0, 255, // becomes left
        ]
    );
}

#[test]
fn mirrors_vertically() {
    let mut data = vec![
        10, 0, 0, 255, // top
        20, 0, 0, 255, // bottom
    ];
    mirror_vertical(&mut data, 1, 2);
    assert_eq!(
        data,
        vec![
            20, 0, 0, 255, // top <- bottom
            10, 0, 0, 255, // bottom <- top
        ]
    );
}

fn grid(w: usize, h: usize) -> Vec<u8> {
    (0..w * h * 4).map(|i| i as u8).collect()
}

#[test]
fn mirror_horizontal_twice_is_identity() {
    let start = grid(5, 3);
    let mut data = start.clone();
    mirror_horizontal(&mut data, 5, 3);
    assert_ne!(data, start);
    mirror_horizontal(&mut data, 5, 3);
    assert_eq!(data, start);
}

#[test]
fn mirror_vertical_twice_is_identity() {
    let start = grid(2, 5);
    let mut data = start.clone();
    mirror_vertical(&mut data, 2, 5);
    assert_ne!(data, start);
    mirror_vertical(&mut data, 2, 5);
    assert_eq!(data, start);
}

#[test]
fn mirrors_commute() {
    let start = grid(3, 4);
    let mut a = start.clone();
    mirror_horizontal(&mut a, 3, 4);
    mirror_vertical(&mut a, 3, 4);
    let mut b = start.clone();
    mirror_vertical(&mut b, 3, 4);
    mirror_horizontal(&mut b, 3, 4);
    assert_eq!(a, b);
    // pixel (0,0) now holds the old pixel (2,3)
    let old = ((3 * 3 + 2) * 4) as u8;
    assert_eq!(&a[0..4], &[old, old + 1, old + 2, old + 3]);
}

#[test]
fn mirror_keeps_middle_column_and_tail() {
    let mut data = vec![1, 1, 1, 1, 2, 2, 2, 2, 3, 3, 3, 3, 9];
    mirror_horizontal(&mut data, 3, 1);
    assert_eq!(data, vec![3, 3, 3, 3, 2, 2, 2, 2, 1, 1, 1, 1, 9]);
}

#[test]
fn mirror_params_defaults_and_lenience() {
    let p = parse_params(None);
    assert!(!p.horizontal && !p.vertical);
    let p = parse_params(Some("VERTICAL: Yes; horizontal=maybe; junk; other=1".as_bytes()));
    assert!(!p.horizontal && p.vertical);
    let p = parse_params(Some(&[0xc3, 0x28]));
    assert!(!p.horizontal && !p.vertical);
    let d = MirrorParams::default();
    assert!(!d.horizontal && !d.vertical);
}

#[test]
fn mirror_parse_pairs_skips_malformed() {
    let pairs = parse_pairs("a=1; nothing here ;b:2");
    assert_eq!(pairs, vec![("a".to_string(), "1".to_string()), ("b".to_string(), "2".to_string())]);
}

#[test]
fn mirror_process_default_is_horizontal() {
    let mut data = vec![1, 1, 1, 1, 2, 2, 2, 2];
    process_image(2, 1, Some(&mut data[..]), None);
    assert_eq!(data, vec![2, 2, 2, 2, 1, 1, 1, 1]);
}

#[test]
fn mirror_process_vertical_only_and_both() {
    let mut data = grid(2, 2);
    let start = data.clone();
    process_image(2, 2, Some(&mut data[..]), Some("horizontal=off\nvertical=on".as_bytes()));
    let mut expected = start.clone();
    mirror_vertical(&mut expected, 2, 2);
    assert_eq!(data, expected);

    let mut both = start.clone();
    process_image(2, 2, Some(&mut both[..]), Some("horizontal=1,vertical=true".as_bytes()));
    assert_eq!(both, vec![12, 13, 14, 15, 8, 9, 10, 11, 4, 5, 6, 7, 0, 1, 2, 3]);
}

#[test]
fn mirror_process_without_buffer_or_with_huge_size() {
    process_image(2, 2, None, None);
    let mut empty: Vec<u8> = Vec::new();
    process_image(u32::MAX, u32::MAX, Some(&mut empty[..]), None);
    assert!(empty.is_empty());
}

#[test]
fn bool_words() {
    for (w, v) in [
        ("true", Some(true)),
        ("1", Some(true)),
        ("yes", Some(true)),
        ("on", Some(true)),
        ("false", Some(false)),
        ("0", Some(false)),
        ("no", Some(false)),
        ("off", Some(false)),
        ("TRUE", None),
        ("", None),
        ("y", None),
    ] {
        assert_eq!(parse_bool(&chars(w)), v, "{w}");
    }
}

#[test]
fn usize_words() {
    assert_eq!(parse_usize(&chars("0")), Some(0));
    assert_eq!(parse_usize(&chars("+42")), Some(42));
    assert_eq!(parse_usize(&chars("0042")), Some(42));
    assert_eq!(parse_usize(&chars("")), None);
    assert_eq!(parse_usize(&chars("+")), None);
    assert_eq!(parse_usize(&chars("-3")), None);
    assert_eq!(parse_usize(&chars("4 2")), None);
    assert_eq!(parse_usize(&chars(&usize::MAX.to_string())), Some(usize::MAX));
    let too_big = format!("{}0", usize::MAX);
    assert_eq!(parse_usize(&chars(&too_big)), None);
}

#[test]
fn quoted_blank_piece_is_skipped_by_mirror() {
    assert!(parse_pairs("\" \"").is_empty());
    let p = parse_params(Some("\" \";vertical=yes".as_bytes()));
    assert!(!p.horizontal);
    assert!(p.vertical);
}

#[test]
fn mirror_pairs_are_blur_pairs_of_well_formed_pieces() {
    let text = "Radius=2,oops;{\"k\": V}\n\" \"";
    assert!(image_ffi::blur_plugin::parse_pairs(text).is_err());
    assert_eq!(parse_pairs(text), image_ffi::blur_plugin::parse_pairs("Radius=2;{\"k\": V}").unwrap());
    let clean = "horizontal=yes,vertical:0";
    assert_eq!(parse_pairs(clean), image_ffi::blur_plugin::parse_pairs(clean).unwrap());
}
