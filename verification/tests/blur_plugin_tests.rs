use image_ffi::blur::{apply_weighted_blur, horizontal_box_pass, vertical_box_pass};
use image_ffi::blur_plugin::{
    parse_pairs, parse_params, process_image, BlurParams, PROCESS_INVALID_INPUT,
    PROCESS_INVALID_PARAMS, PROCESS_OK,
};

#[test]
fn parses_blur_params() {
    let parsed = parse_params(Some("radius=3;iterations=2".as_bytes())).expect("valid blur params");
    assert_eq!(parsed.radius, 3);
    assert_eq!(parsed.iterations, 2);
}

#[test]
fn rejects_unknown_key() {
    let parsed = parse_params(Some("horizontal=true".as_bytes()));
    assert!(parsed.is_err());
}

#[test]
fn rejects_invalid_numeric_value() {
    let parsed = parse_params(Some("radius=0".as_bytes()));
    assert!(parsed.is_err());
}

#[test]
fn keeps_single_pixel_stable() {
    let mut data = vec![42, 84, 126, 255];
    apply_weighted_blur(&mut data, 1, 1, 3, 2);
    assert_eq!(data, vec![42, 84, 126, 255]);
}

#[test]
fn blur_changes_center_pixel() {
    let mut data = vec![
        0, 0, 0, 255, 0, 0, 0, 255, 0, 0, 0, 255, 0, 0, 0, 255, 255, 255, 255, 255, 0, 0, 0,
        255, 0, 0, 0, 255, 0, 0, 0, 255, 0, 0, 0, 255,
    ];
    apply_weighted_blur(&mut data, 3, 3, 1, 1);
    let center = &data[(4 * 4)..(4 * 4 + 4)];
    assert!(center[0] < 255);
    assert!(center[0] > 0);
}

#[test]
fn blur_params_default_without_text() {
    let parsed = parse_params(None).expect("no text is accepted");
    assert_eq!(parsed.radius, 1);
    assert_eq!(parsed.iterations, 1);
    let d = BlurParams::default();
    assert_eq!((d.radius, d.iterations), (1, 1));
}

#[test]
fn blur_params_accept_braces_quotes_case_and_colons() {
    let parsed = parse_params(Some("{\"RADIUS\": \"+5\",\n Iterations = 07 }".as_bytes()))
        .expect("accepted");
    assert_eq!(parsed.radius, 5);
    assert_eq!(parsed.iterations, 7);
}

#[test]
fn blur_params_later_entries_win() {
    let parsed = parse_params(Some("radius=2;radius=9;;".as_bytes())).expect("accepted");
    assert_eq!(parsed.radius, 9);
    assert_eq!(parsed.iterations, 1);
}

#[test]
fn blur_params_reject_bad_numbers() {
    assert!(parse_params(Some("radius=-1".as_bytes())).is_err());
    assert!(parse_params(Some("radius=".as_bytes())).is_err());
    assert!(parse_params(Some("radius=+".as_bytes())).is_err());
    assert!(parse_params(Some("iterations=1x".as_bytes())).is_err());
    assert!(parse_params(Some("iterations=0".as_bytes())).is_err());
    assert!(parse_params(Some("radius=99999999999999999999999".as_bytes())).is_err());
}

#[test]
fn blur_params_reject_entry_without_separator() {
    assert!(parse_params(Some("radius 3".as_bytes())).is_err());
    assert!(parse_pairs("radius=1, oops").is_err());
}

#[test]
fn blur_params_reject_malformed_utf8() {
    assert!(parse_params(Some(&[0x72, 0xff, 0x3d, 0x31])).is_err());
}

#[test]
fn blur_parse_pairs_cleans_entries() {
    let pairs = parse_pairs(" A = B ;{c:D}").expect("well formed");
    assert_eq!(pairs, vec![("a".to_string(), "b".to_string()), ("c".to_string(), "d".to_string())]);
    let pairs = parse_pairs("k=v=w").expect("well formed");
    assert_eq!(pairs, vec![("k".to_string(), "v=w".to_string())]);
    let pairs = parse_pairs("k:v=w").expect("well formed");
    assert_eq!(pairs, vec![("k:v".to_string(), "w".to_string())]);
}

#[test]
fn horizontal_pass_exact_means() {
    // one row of three pixels, channel values 0, 30, 60 (others 0)
    let src = vec![0, 0, 0, 0, 30, 0, 0, 0, 60, 0, 0, 0, 7];
    let mut dst = vec![9; 13];
    horizontal_box_pass(&src, &mut dst, 3, 1, 1);
    assert_eq!(dst, vec![15, 0, 0, 0, 30, 0, 0, 0, 45, 0, 0, 0, 9]);
}

#[test]
fn vertical_pass_exact_means() {
    // one column of three pixels, channel 1 values 10, 20, 61
    let src = vec![0, 10, 0, 0, 0, 20, 0, 0, 0, 61, 0, 0];
    let mut dst = vec![0; 12];
    vertical_box_pass(&src, &mut dst, 1, 3, 5);
    assert_eq!(dst, vec![0, 30, 0, 0, 0, 30, 0, 0, 0, 30, 0, 0]);
}

#[test]
fn blur_clears_bytes_past_the_image() {
    let mut data = vec![1, 2, 3, 4, 200, 201];
    apply_weighted_blur(&mut data, 1, 1, 1, 1);
    assert_eq!(data, vec![1, 2, 3, 4, 0, 0]);
    let mut untouched = vec![5, 6];
    apply_weighted_blur(&mut untouched, 1, 1, 1, 0);
    assert_eq!(untouched, vec![5, 6]);
}

#[test]
fn blur_uniform_image_is_unchanged() {
    let pixel = [10u8, 20, 30, 40];
    let mut data: Vec<u8> = pixel.iter().cycle().take(4 * 5 * 3).copied().collect();
    let before = data.clone();
    apply_weighted_blur(&mut data, 5, 3, 2, 4);
    assert_eq!(data, before);
}

#[test]
fn blur_process_statuses() {
    let mut buf = vec![0u8; 16];
    assert_eq!(process_image(2, 2, None, None), PROCESS_INVALID_INPUT);
    assert_eq!(
        process_image(2, 2, Some(&mut buf[..]), Some("radius=x".as_bytes())),
        PROCESS_INVALID_PARAMS
    );
    let mut empty: Vec<u8> = Vec::new();
    assert_eq!(process_image(0, 5, Some(&mut empty[..]), None), PROCESS_INVALID_INPUT);
    assert_eq!(
        process_image(u32::MAX, u32::MAX, Some(&mut empty[..]), None),
        PROCESS_INVALID_INPUT
    );
}

#[test]
fn blur_process_blurs_in_place() {
    let mut data = vec![
        0, 0, 0, 255, 90, 90, 90, 255, //
        0, 0, 0, 255, 0, 0, 0, 255,
    ];
    let status = process_image(2, 2, Some(&mut data[..]), Some("radius=1;iterations=1".as_bytes()));
    assert_eq!(status, PROCESS_OK);
    // every channel becomes the mean over the whole 2x2 image
    assert_eq!(data, vec![
        22, 22, 22, 255, 22, 22, 22, 255, //
        22, 22, 22, 255, 22, 22, 22, 255,
    ]);
}

#[test]
fn quoted_blank_piece_is_malformed() {
    // The quotes go, the space between them stays: a piece with neither `=` nor `:`.
    assert!(parse_pairs("\" \"").is_err());
    assert!(parse_params(Some("\" \"".as_bytes())).is_err());
    assert!(parse_params(Some("radius=2,\" \"".as_bytes())).is_err());
    // A piece made of quotes alone cleans to nothing and is skipped.
    let p = parse_params(Some("\"\",radius=2".as_bytes())).unwrap();
    assert_eq!((p.radius, p.iterations), (2, 1));
}

fn sample_image(w: usize, h: usize) -> Vec<u8> {
    (0..w * h * 4).map(|i| ((i * 37 + 11) % 251) as u8).collect()
}

fn mirror_rows(img: &[u8], w: usize, h: usize) -> Vec<u8> {
    let mut out = img.to_vec();
    for y in 0..h {
        for x in 0..w {
            for c in 0..4 {
                out[(y * w + x) * 4 + c] = img[(y * w + (w - 1 - x)) * 4 + c];
            }
        }
    }
    out
}

fn transpose(img: &[u8], w: usize, h: usize) -> Vec<u8> {
    let mut out = vec![0; w * h * 4];
    for y in 0..h {
        for x in 0..w {
            for c in 0..4 {
                out[(x * h + y) * 4 + c] = img[(y * w + x) * 4 + c];
            }
        }
    }
    out
}

#[test]
fn horizontal_pass_commutes_with_row_mirror() {
    let (w, h) = (5, 3);
    let img = sample_image(w, h);
    let mut a = vec![0; img.len()];
    horizontal_box_pass(&img, &mut a, w, h, 2);
    let mut b = vec![0; img.len()];
    horizontal_box_pass(&mirror_rows(&img, w, h), &mut b, w, h, 2);
    assert_eq!(b, mirror_rows(&a, w, h));
}

#[test]
fn vertical_pass_is_transposed_horizontal_pass() {
    let (w, h) = (4, 6);
    let img = sample_image(w, h);
    let mut v = vec![0; img.len()];
    vertical_box_pass(&img, &mut v, w, h, 1);
    let mut t = vec![0; img.len()];
    horizontal_box_pass(&transpose(&img, w, h), &mut t, h, w, 1);
    assert_eq!(transpose(&v, w, h), t);
}

#[test]
fn blur_rounds_add_up() {
    let (w, h) = (4, 3);
    let img = sample_image(w, h);
    let mut twice = img.clone();
    apply_weighted_blur(&mut twice, w, h, 1, 2);
    apply_weighted_blur(&mut twice, w, h, 1, 3);
    let mut once = img.clone();
    apply_weighted_blur(&mut once, w, h, 1, 5);
    assert_eq!(twice, once);
    let mut none = img.clone();
    apply_weighted_blur(&mut none, w, h, 1, 0);
    assert_eq!(none, img);
}
