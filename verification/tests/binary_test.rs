use std::io::Write;

use flate2::{write::ZlibEncoder, Compression};
use nagato_apply::{apply, apply_delta, Applier, BinaryFragment, BinaryKind, ErrorKind, IoKind, Parser, Patch};

fn apply_bytes(diff: &str, source: &[u8]) -> Result<Vec<u8>, nagato_apply::Error> {
    let patch = Parser::new(diff.as_bytes()).next().unwrap().unwrap();
    apply(&patch, source)
}

#[test]
fn binary_patch_literal() {
    let diff = "diff --git a/binary.dat b/binary.dat\nnew file mode 100644\nindex 0000000000000000000000000000000000000000..ffbe3091410c3be582675805a98a0118af8e6a6d\nGIT binary patch\nliteral 12\nTc-qTI&B@7ED9<m-Nnrp09%uwz\n\nliteral 0\nHc-jL100001\n";
    assert_eq!(
        apply_bytes(diff, b"").unwrap(),
        vec![104, 101, 108, 108, 111, 32, 119, 111, 114, 108, 100, 0]
    );
}

#[test]
fn binary_patch_delta() {
    let diff = "diff --git a/binary.dat b/binary.dat\nindex ffbe3091410c3be582675805a98a0118af8e6a6d..b08a5c31023a17287d28781fe8ac4af1e26c0f30 100644\nGIT binary patch\nliteral 6\nNc-kw^FUm<_000Qj0x19h\n\nliteral 12\nTc-qTI&B@7ED9<m-Nnrp09%uwz\n";
    let source = [104u8, 101, 108, 108, 111, 32, 119, 111, 114, 108, 100, 0];
    assert_eq!(apply_bytes(diff, &source).unwrap(), vec![119, 111, 114, 108, 100, 0]);
}

#[test]
fn binary_patch_all_zero_hash() {
    let diff = "diff --git a/binary.dat b/binary.dat\nindex 0000000..ffbe309 100644\nGIT binary patch\nliteral 6\nNc-kw^FUm<_000Qj0x19h\n";
    assert_eq!(apply_bytes(diff, &[1u8, 2, 3]).unwrap(), vec![119, 111, 114, 108, 100, 0]);
}

#[test]
fn test_binary_patch_hash_mismatch() {
    let diff = "diff --git a/binary.dat b/binary.dat\nindex abcdef0..1234567 100644\nGIT binary patch\nliteral 1\nWc-qTI&B@7E0000000000\n";
    assert!(apply_bytes(diff, &[0u8, 0, 0]).is_err());
}

#[test]
fn binary_delta_overflows() {
    let res = apply_delta(&[0x80u8; 11], None, b"");
    assert_eq!(res.unwrap_err().kind, ErrorKind::InvalidBinaryPatch);
}

#[test]
fn binary_delta_size_mismatch() {
    let res = apply_delta(&[0x05u8, 0x05, 0x01, b'a'], None, b"123");
    assert_eq!(res.unwrap_err().kind, ErrorKind::BinaryPatchSourceMismatch);
}

#[test]
fn binary_delta_copy_out_of_bounds() {
    let res = apply_delta(&[0x03u8, 0x03, 0x81, 0x05], None, b"123");
    assert_eq!(res.unwrap_err().kind, ErrorKind::InvalidBinaryPatch);
}

#[test]
fn binary_applier_process_binary_fragment_selection() {
    let lines: Vec<&[u8]> = vec![b"A00000", b"6|SHe00001"];
    let patch = Patch {
        binary_fragments: vec![
            BinaryFragment { kind: BinaryKind::Delta, size: 5, data_start: 0, data_len: 1 },
            BinaryFragment { kind: BinaryKind::Literal, size: 5, data_start: 1, data_len: 1 },
        ],
        binary_lines: lines,
        ..Default::default()
    };
    let mut applier = Applier::new(b"source");
    let _ = applier.process_binary(&patch);
}

#[test]
fn test_binary_applier_fails_immediately_on_invalid_delta() {
    let raw_delta = vec![0x03, 0x03, 0x00];
    let mut encoder = ZlibEncoder::new(Vec::new(), Compression::default());
    encoder.write_all(&raw_delta).unwrap();
    let compressed = encoder.finish().unwrap();

    let len = compressed.len();
    let mut padded = compressed.clone();
    while padded.len() % 4 != 0 {
        padded.push(0);
    }

    let encode_map: &[u8; 85] = b"0123456789ABCDEFGHIJKLMNOPQRSTUVWXYZabcdefghijklmnopqrstuvwxyz!#$%&()*+-;<=>?@^_`{|}~";
    let mut encoded = Vec::new();
    let len_char = if len <= 26 { b'A' + (len - 1) as u8 } else { b'a' + (len - 27) as u8 };
    encoded.push(len_char);

    for chunk in padded.chunks(4) {
        let mut val = u32::from_be_bytes([chunk[0], chunk[1], chunk[2], chunk[3]]);
        let mut chars = [0u8; 5];
        for i in (0..5).rev() {
            chars[i] = encode_map[(val % 85) as usize];
            val /= 85;
        }
        encoded.extend_from_slice(&chars);
    }

    let lines: Vec<&[u8]> = vec![&encoded, b"Wc-qT001"];
    let patch = Patch {
        binary: true,
        binary_fragments: vec![
            BinaryFragment { kind: BinaryKind::Delta, size: 3, data_start: 0, data_len: 1 },
            BinaryFragment { kind: BinaryKind::Literal, size: 3, data_start: 1, data_len: 1 },
        ],
        binary_lines: lines,
        ..Default::default()
    };

    let mut applier = Applier::new(b"src");
    let res = applier.process_binary(&patch);
    assert_eq!(res.unwrap_err().kind, ErrorKind::InvalidBinaryPatch);
}

#[test]
fn delta_copy_of_the_whole_source_gives_the_source() {
    assert_eq!(apply_delta(&[3u8, 3, 0x90, 3], None, b"abc").unwrap(), b"abc".to_vec());
}

#[test]
fn delta_inserts_its_own_bytes() {
    assert_eq!(apply_delta(&[3u8, 4, 2, b'x', b'y', 0x91, 1, 2], None, b"abc").unwrap(), b"xybc".to_vec());
}

#[test]
fn delta_with_wrong_target_size_is_invalid() {
    assert_eq!(apply_delta(&[3u8, 5, 0x90, 3], None, b"abc").unwrap_err().kind, ErrorKind::InvalidBinaryPatch);
}

#[test]
fn delta_that_ends_before_the_source_size_is_a_mismatch() {
    assert_eq!(apply_delta(&[], None, b"abc").unwrap_err().kind, ErrorKind::BinaryPatchSourceMismatch);
}

#[test]
fn delta_with_a_short_insert_inserts_what_is_left() {
    let res = apply_delta(&[0x00u8, 0x03, 0x03, b'a'], None, b"");
    assert_eq!(res.unwrap(), b"a".to_vec());
}


#[test]
fn binary_patch_reports_a_corrupt_delta_stream() {
    // Both fragments are read; the delta's zlib stream is corrupt before
    // its first byte, and that read error is what is reported.
    let diff = "diff --git a/binary.dat b/binary.dat\nGIT binary patch\ndelta 10\nfcmZ?W&B@7E0000000000\n\nliteral 3\nWc-qT001\n";
    let patch = Parser::new(diff.as_bytes()).next().unwrap().unwrap();
    assert_eq!(patch.binary_fragments.len(), 2);
    let res = apply(&patch, &[1u8, 2, 3]);
    assert_eq!(res.unwrap_err().kind, ErrorKind::Io(IoKind::InvalidInput));
}

#[test]
fn delta_stream_error_inside_an_insert_is_reported() {
    let res = apply_delta(&[0x00u8, 0x03, 0x03, b'a'], Some(IoKind::InvalidInput), b"");
    assert_eq!(res.unwrap_err().kind, ErrorKind::Io(IoKind::InvalidInput));
}

#[test]
fn delta_stream_error_after_the_last_command_is_not_an_error() {
    let res = apply_delta(&[0x00u8, 0x01, 0x01, b'a'], Some(IoKind::InvalidInput), b"");
    assert_eq!(res.unwrap(), b"a".to_vec());
}

#[test]
fn delta_stream_error_before_the_source_size_is_reported() {
    let res = apply_delta(&[], Some(IoKind::InvalidData), b"abc");
    assert_eq!(res.unwrap_err().kind, ErrorKind::Io(IoKind::InvalidData));
}

fn base85_line(data: &[u8]) -> Vec<u8> {
    let mut encoder = ZlibEncoder::new(Vec::new(), Compression::default());
    encoder.write_all(data).unwrap();
    let compressed = encoder.finish().unwrap();
    let len = compressed.len();
    let mut padded = compressed.clone();
    while padded.len() % 4 != 0 {
        padded.push(0);
    }
    let encode_map: &[u8; 85] = b"0123456789ABCDEFGHIJKLMNOPQRSTUVWXYZabcdefghijklmnopqrstuvwxyz!#$%&()*+-;<=>?@^_`{|}~";
    let mut encoded = Vec::new();
    encoded.push(if len <= 26 { b'A' + (len - 1) as u8 } else { b'a' + (len - 27) as u8 });
    for chunk in padded.chunks(4) {
        let mut val = u32::from_be_bytes([chunk[0], chunk[1], chunk[2], chunk[3]]);
        let mut chars = [0u8; 5];
        for i in (0..5).rev() {
            chars[i] = encode_map[(val % 85) as usize];
            val /= 85;
        }
        encoded.extend_from_slice(&chars);
    }
    encoded
}

#[test]
fn a_bad_line_after_a_complete_delta_stream_is_never_reached() {
    let good = base85_line(&[3u8, 3, 0x90, 3]);
    let lines: Vec<&[u8]> = vec![&good, b"!!!!!!"];
    let patch = Patch {
        binary: true,
        binary_fragments: vec![BinaryFragment { kind: BinaryKind::Delta, size: 3, data_start: 0, data_len: 2 }],
        binary_lines: lines,
        ..Default::default()
    };
    let mut applier = Applier::new(b"abc");
    applier.process_binary(&patch).unwrap();
    assert_eq!(applier.into_output(), b"abc".to_vec());
}

#[test]
fn a_bad_line_cuts_a_literal_short() {
    let good = base85_line(b"hello");
    let lines: Vec<&[u8]> = vec![&good, b"!!!!!!"];
    assert_eq!(nagato_apply::decode_base85(&lines).unwrap_err().kind, ErrorKind::InvalidBinaryFilesLine);
    let only: Vec<&[u8]> = vec![&good];
    assert_eq!(nagato_apply::decode_base85(&only).unwrap(), b"hello".to_vec());
}

#[test]
fn base85_reader_yields_the_announced_bytes_of_each_line() {
    let lines: Vec<&[u8]> = vec![b"D00001", b"", b"A00000"];
    let mut reader = nagato_apply::Base85Reader::new(&lines);
    let mut out = Vec::new();
    assert_eq!(reader.read(&mut out), Ok(4));
    assert_eq!(reader.read(&mut out), Ok(1));
    assert_eq!(reader.read(&mut out), Ok(0));
    assert_eq!(out, vec![0u8, 0, 0, 1, 0]);
}

#[test]
fn base85_reader_refuses_a_group_past_32_bits() {
    let lines: Vec<&[u8]> = vec![b"E~~~~~"];
    let mut reader = nagato_apply::Base85Reader::new(&lines);
    let mut out = Vec::new();
    assert!(reader.read(&mut out).is_err());
    let bad_len: Vec<&[u8]> = vec![b"!00000"];
    assert!(nagato_apply::Base85Reader::new(&bad_len).read(&mut out).is_err());
}
