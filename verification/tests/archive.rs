use catch::encode::encode_entry;
use catch::extract::{extract, ArchiveError};
use catch::format::Variant;

fn round_trip(payload: &[u8], variant: Variant) {
    let block = encode_entry(b"item", payload, variant);
    let got = extract(&block, b"item").unwrap();
    assert_eq!(got, payload);
}

#[test]
fn round_trip_standard_lengths() {
    for len in [0usize, 1, 15, 16, 17, 256] {
        let payload: Vec<u8> = (0..len).map(|i| (i % 256) as u8).collect();
        round_trip(&payload, Variant::Standard);
    }
}

#[test]
fn round_trip_quantum_lengths() {
    for len in [0usize, 1, 15, 16, 17, 256] {
        let payload: Vec<u8> = (0..len).map(|i| (i % 256) as u8).collect();
        round_trip(&payload, Variant::Quantum);
    }
}

#[test]
fn round_trip_every_byte_value() {
    let payload: Vec<u8> = (0..=255u8).collect();
    round_trip(&payload, Variant::Standard);
    round_trip(&payload, Variant::Quantum);
}

#[test]
fn standard_block_exact_bytes() {
    let block = encode_entry(b"A", &[0xAB], Variant::Standard);
    assert_eq!(block, b"---ENTRY---\nNAME:A\nSIZE:1\nDATA: AB\n---END---\n");
}

#[test]
fn standard_block_empty_payload_exact_bytes() {
    let block = encode_entry(b"empty", &[], Variant::Standard);
    assert_eq!(block, b"---ENTRY---\nNAME:empty\nSIZE:0\nDATA:\n---END---\n");
}

#[test]
fn standard_block_wraps_after_sixteen_bytes() {
    let payload: Vec<u8> = (1..=17u8).collect();
    let block = encode_entry(b"w", &payload, Variant::Standard);
    let text = String::from_utf8(block).unwrap();
    let data_lines: Vec<&str> = text.lines().filter(|l| l.starts_with("DATA:")).collect();
    assert_eq!(data_lines.len(), 2);
    assert_eq!(
        data_lines[0],
        "DATA: 01 02 03 04 05 06 07 08 09 0A 0B 0C 0D 0E 0F 10"
    );
    assert_eq!(data_lines[1], "DATA: 11");
}

#[test]
fn quantum_block_exact_bytes() {
    let block = encode_entry(b"A", &[0xAB, 0x05], Variant::Quantum);
    let expected = b"###ENTRY###\nNAME:A\nSIZE:2\n[DEC] 171 5\n[OCT] 253 5\n[HEX] AB 05\n###END###\n";
    assert_eq!(block, expected);
}

#[test]
fn first_match_wins() {
    let mut archive = encode_entry(b"dup", &[1, 2, 3], Variant::Standard);
    archive.extend(encode_entry(b"dup", &[9, 9], Variant::Standard));
    let got = extract(&archive, b"dup").unwrap();
    assert_eq!(got, vec![1, 2, 3]);
}

#[test]
fn first_match_wins_across_variants() {
    let mut archive = encode_entry(b"dup", &[7], Variant::Quantum);
    archive.extend(encode_entry(b"dup", &[8], Variant::Standard));
    let got = extract(&archive, b"dup").unwrap();
    assert_eq!(got, vec![7]);
}

#[test]
fn name_match_is_case_sensitive() {
    let archive = encode_entry(b"File", &[1], Variant::Standard);
    assert_eq!(extract(&archive, b"file"), Err(ArchiveError::NotFound));
    assert_eq!(extract(&archive, b"FILE"), Err(ArchiveError::NotFound));
    assert_eq!(extract(&archive, b"File").unwrap(), vec![1]);
}

#[test]
fn name_match_rejects_trailing_whitespace() {
    let archive = encode_entry(b"file", &[1], Variant::Standard);
    assert_eq!(extract(&archive, b"file "), Err(ArchiveError::NotFound));
    assert_eq!(extract(&archive, b" file"), Err(ArchiveError::NotFound));
}

#[test]
fn name_keeps_everything_after_first_colon() {
    let archive = encode_entry(b"a:b:c", &[42], Variant::Quantum);
    assert_eq!(extract(&archive, b"a:b:c").unwrap(), vec![42]);
    assert_eq!(extract(&archive, b"a"), Err(ArchiveError::NotFound));
}

#[test]
fn not_found_in_well_formed_archive() {
    let mut archive = encode_entry(b"one", &[1], Variant::Standard);
    archive.extend(encode_entry(b"two", &[2], Variant::Quantum));
    assert_eq!(extract(&archive, b"three"), Err(ArchiveError::NotFound));
}

#[test]
fn not_found_in_empty_archive() {
    assert_eq!(extract(b"", b"anything"), Err(ArchiveError::NotFound));
}

#[test]
fn quantum_corrupt_dec_line_still_extracts() {
    let block = encode_entry(b"q", &[1, 2, 3], Variant::Quantum);
    let text = String::from_utf8(block).unwrap();
    let tampered = text.replace("[DEC] 1 2 3", "[DEC] 9");
    assert_ne!(tampered, text);
    let got = extract(tampered.as_bytes(), b"q").unwrap();
    assert_eq!(got, vec![1, 2, 3]);
}

#[test]
fn quantum_corrupt_oct_line_still_extracts() {
    let block = encode_entry(b"q", &[1, 2, 3], Variant::Quantum);
    let text = String::from_utf8(block).unwrap();
    let tampered = text.replace("[OCT] 1 2 3", "[OCT]");
    assert_ne!(tampered, text);
    let got = extract(tampered.as_bytes(), b"q").unwrap();
    assert_eq!(got, vec![1, 2, 3]);
}

#[test]
fn quantum_corrupt_hex_line_breaks_extraction() {
    let block = encode_entry(b"q", &[1, 2, 3], Variant::Quantum);
    let text = String::from_utf8(block).unwrap();
    let tampered = text.replace("[HEX] 01 02 03", "[HEX] 01");
    assert_ne!(tampered, text);
    let got = extract(tampered.as_bytes(), b"q").unwrap();
    assert_ne!(got, vec![1, 2, 3]);
    assert_eq!(got, vec![1]);
}

#[test]
fn bad_token_in_data_line_is_skipped() {
    let block = encode_entry(b"t", &[0x01, 0x02], Variant::Standard);
    let text = String::from_utf8(block).unwrap();
    let tampered = text.replace("DATA: 01 02", "DATA: 01 ZZ 02");
    assert_ne!(tampered, text);
    let got = extract(tampered.as_bytes(), b"t").unwrap();
    assert_eq!(got, vec![0x01, 0x02]);
}

#[test]
fn bad_token_in_hex_line_is_skipped() {
    let block = encode_entry(b"t", &[0x01, 0x02], Variant::Quantum);
    let text = String::from_utf8(block).unwrap();
    let tampered = text.replace("[HEX] 01 02", "[HEX] 01 G4 02");
    assert_ne!(tampered, text);
    let got = extract(tampered.as_bytes(), b"t").unwrap();
    assert_eq!(got, vec![0x01, 0x02]);
}

#[test]
fn skipped_tokens_shorten_payload_by_their_count() {
    let archive = b"---ENTRY---\nNAME:n\nSIZE:4\nDATA: 0A ZZ 0B +1 0C\n---END---\n";
    let got = extract(archive, b"n").unwrap();
    assert_eq!(got, vec![0x0A, 0x0B, 0x0C]);
}

#[test]
fn oversized_token_is_skipped() {
    let archive = b"---ENTRY---\nNAME:n\nSIZE:1\nDATA: 1FF 2B\n---END---\n";
    let got = extract(archive, b"n").unwrap();
    assert_eq!(got, vec![0x2B]);
}

#[test]
fn lowercase_hex_tokens_decode() {
    let archive = b"---ENTRY---\nNAME:n\nSIZE:2\nDATA: ab cd\n---END---\n";
    let got = extract(archive, b"n").unwrap();
    assert_eq!(got, vec![0xAB, 0xCD]);
}

#[test]
fn decoder_accepts_either_marker_style_in_one_file() {
    let mut archive = encode_entry(b"s", &[1], Variant::Standard);
    archive.extend(encode_entry(b"q", &[2], Variant::Quantum));
    assert_eq!(extract(&archive, b"s").unwrap(), vec![1]);
    assert_eq!(extract(&archive, b"q").unwrap(), vec![2]);
}

#[test]
fn size_field_is_never_checked_on_read() {
    let archive = b"---ENTRY---\nNAME:n\nSIZE:999\nDATA: 01 02\n---END---\n";
    let got = extract(archive, b"n").unwrap();
    assert_eq!(got, vec![1, 2]);
}

#[test]
fn later_start_marker_resets_unclosed_entry() {
    let mut archive: Vec<u8> = b"---ENTRY---\nNAME:n\nDATA: FF\n".to_vec();
    archive.extend(encode_entry(b"n", &[1], Variant::Standard));
    let got = extract(&archive, b"n").unwrap();
    assert_eq!(got, vec![1]);
}
