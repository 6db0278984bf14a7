use hexdump::render::render;
use hexdump::window::extract_window;

const ZERO_FULL_LINE: &str =
    "00000000: 00 00 00 00 00 00 00 00  00 00 00 00 00 00 00 00  ................\n";

#[test]
fn twenty_zero_bytes_squeezed() {
    // A 20-byte file of zero bytes, no skip, no length, squeeze enabled:
    // one full line, then a short line of 4 bytes at address 0x10.
    let data = vec![0u8; 20];
    let w = extract_window(&data, 0, None);
    assert_eq!(w.start, 0);
    assert_eq!(w.bytes.len(), 20);
    let out = render(w.start, false, &w.bytes);
    let expected = format!(
        "{}00000010: 00 00 00 00 {}....\n",
        ZERO_FULL_LINE,
        " ".repeat(38)
    );
    assert_eq!(String::from_utf8(out).unwrap(), expected);
}

#[test]
fn three_identical_chunks_squeezed() {
    // 48 bytes, three identical full chunks: the first line, one `*`,
    // nothing for the third chunk.
    let data = vec![0u8; 48];
    let out = render(0, false, &data);
    let expected = format!("{}*\n", ZERO_FULL_LINE);
    assert_eq!(String::from_utf8(out).unwrap(), expected);
}

#[test]
fn squeeze_output_is_independent_of_run_length() {
    // A run of 2 and a run of 50 identical chunks squeeze to the same text.
    let short_run = vec![0xabu8; 32];
    let long_run = vec![0xabu8; 800];
    let out2 = render(0, false, &short_run);
    let out50 = render(0, false, &long_run);
    assert_eq!(out2, out50);
    let text = String::from_utf8(out2).unwrap();
    assert_eq!(
        text,
        "00000000: ab ab ab ab ab ab ab ab  ab ab ab ab ab ab ab ab  ................\n*\n"
    );
}

#[test]
fn squeeze_run_broken_by_different_chunk() {
    // Two identical chunks, one different, then the first chunk again:
    // the run marker appears once, the different chunk reopens full output.
    let mut data = vec![0u8; 32];
    data.extend_from_slice(&[0xffu8; 16]);
    data.extend_from_slice(&[0u8; 16]);
    let out = render(0, false, &data);
    let text = String::from_utf8(out).unwrap();
    let expected = format!(
        "{}*\n00000020: ff ff ff ff ff ff ff ff  ff ff ff ff ff ff ff ff  ................\n00000030: 00 00 00 00 00 00 00 00  00 00 00 00 00 00 00 00  ................\n",
        ZERO_FULL_LINE
    );
    assert_eq!(text, expected);
}

#[test]
fn show_all_emits_every_chunk() {
    // With squeezing disabled every chunk gets its line: ceil(40/16) = 3.
    let data = vec![0u8; 40];
    let out = render(0, true, &data);
    let text = String::from_utf8(out).unwrap();
    assert_eq!(text.lines().count(), 3);
    assert!(text.starts_with(ZERO_FULL_LINE));
    assert!(text.contains("00000010: "));
    assert!(text.contains("00000020: "));
    assert!(!text.contains('*'));
}

#[test]
fn addresses_follow_the_window_offset() {
    let data: Vec<u8> = (0u8..=255u8).collect();
    let w = extract_window(&data, 0x20, Some(16));
    assert_eq!(w.start, 0x20);
    assert_eq!(w.bytes, (0x20u8..0x30u8).collect::<Vec<u8>>());
    let out = render(w.start, false, &w.bytes);
    let text = String::from_utf8(out).unwrap();
    assert_eq!(
        text,
        "00000020: 20 21 22 23 24 25 26 27  28 29 2a 2b 2c 2d 2e 2f   !\"#$%&'()*+,-./\n"
    );
}

#[test]
fn rendering_twice_is_identical() {
    let data: Vec<u8> = (0u8..100u8).map(|b| b.wrapping_mul(37)).collect();
    let once = render(3, false, &data);
    let twice = render(3, false, &data);
    assert_eq!(once, twice);
    let once_all = render(3, true, &data);
    let twice_all = render(3, true, &data);
    assert_eq!(once_all, twice_all);
}

#[test]
fn offset_past_end_yields_empty_window_and_output() {
    let data = vec![1u8, 2, 3, 4];
    let w = extract_window(&data, 4, None);
    assert_eq!(w.start, 4);
    assert!(w.bytes.is_empty());
    let out = render(w.start, false, &w.bytes);
    assert!(out.is_empty());

    let w = extract_window(&data, 1000, Some(2));
    assert_eq!(w.start, 1000);
    assert!(w.bytes.is_empty());
    assert!(render(w.start, true, &w.bytes).is_empty());
}

#[test]
fn window_clips_length_to_remaining_bytes() {
    let data = vec![9u8; 10];
    let w = extract_window(&data, 6, Some(100));
    assert_eq!(w.start, 6);
    assert_eq!(w.bytes, vec![9u8; 4]);

    let w = extract_window(&data, 2, Some(3));
    assert_eq!(w.bytes, vec![9u8; 3]);

    let w = extract_window(&data, 0, Some(0));
    assert!(w.bytes.is_empty());
}

#[test]
fn short_final_chunk_never_squeezes() {
    // 24 bytes: a full chunk and a short chunk with the same leading bytes;
    // the short chunk still goes out in full.
    let data = vec![0u8; 24];
    let out = render(0, false, &data);
    let text = String::from_utf8(out).unwrap();
    assert_eq!(text.lines().count(), 2);
    assert!(!text.contains('*'));
}

#[test]
fn exactly_sixteen_bytes_is_one_line() {
    let data = vec![0x41u8; 16];
    let out = render(0, false, &data);
    let text = String::from_utf8(out).unwrap();
    assert_eq!(
        text,
        "00000000: 41 41 41 41 41 41 41 41  41 41 41 41 41 41 41 41  AAAAAAAAAAAAAAAA\n"
    );
}

#[test]
fn printable_range_boundaries() {
    // 0x1f is below the printable range, 0x20 and 0x7e inside, 0x7f above.
    let data = vec![0x1fu8, 0x20, 0x7e, 0x7f];
    let out = render(0, false, &data);
    let text = String::from_utf8(out).unwrap();
    let expected = format!("00000000: 1f 20 7e 7f {}. ~.\n", " ".repeat(38));
    assert_eq!(text, expected);
}
