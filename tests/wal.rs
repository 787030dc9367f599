use tuff_db::wal::{
    encode_record, escape_payload, parse_line, sha256_hex, unescape_payload,
    CorruptionReason, RecoveryMode, WalStorage,
};

fn write_log(records: &[(&str, &str)]) -> (Vec<u8>, WalStorage, Vec<u64>) {
    let mut data = Vec::new();
    let mut storage = WalStorage::new();
    let mut offsets = Vec::new();
    for (tag, payload) in records {
        let bytes = encode_record(tag, payload);
        data.extend_from_slice(&bytes);
        offsets.push(storage.append(tag, bytes.len() as u64));
    }
    (data, storage, offsets)
}

#[test]
fn escape_and_unescape() {
    assert_eq!(escape_payload("a\\b\tc\nd"), "a\\\\b\\tc\\nd");
    assert_eq!(unescape_payload("a\\\\b\\tc\\nd"), "a\\b\tc\nd");
    assert_eq!(unescape_payload("a\\qb\\"), "a\\qb\\");
    assert_eq!(unescape_payload(&escape_payload("x\\ty\n\\\\")), "x\\ty\n\\\\");
}

#[test]
fn checksum_is_lowercase_sha256_hex() {
    assert_eq!(
        sha256_hex("id\tu-42"),
        "fac4947520c329c5c2aa92e98f77df8d1f4dffa5bab1b4a7596e4ffa84ecf31c"
    );
}

#[test]
fn record_framing() {
    let bytes = encode_record("id", "u-42");
    let expected =
        "id\tu-42\tfac4947520c329c5c2aa92e98f77df8d1f4dffa5bab1b4a7596e4ffa84ecf31c\n";
    assert_eq!(bytes, expected.as_bytes().to_vec());
    let escaped = encode_record("x", "line\none");
    let text = String::from_utf8(escaped).unwrap();
    assert!(text.starts_with("x\tline\\none\t"));
    assert!(text.ends_with("ccbffcbbbb4f4b29de2ea6afb59beec70b3f40058a6327d777c40a217b3561da\n"));
}

#[test]
fn parse_line_fields() {
    let r = parse_line("tag\tp\\tq\tsum  ").unwrap();
    assert_eq!(r.tag, "tag");
    assert_eq!(r.payload, "p\tq");
    assert_eq!(r.checksum, "sum");
    let r = parse_line("a\t\tb\tc").unwrap();
    assert_eq!(r.payload, "");
    assert_eq!(r.checksum, "b\tc");
    assert!(parse_line("a\tb").is_none());
    assert!(parse_line("a\tb\t").is_none());
    assert!(parse_line("nothing").is_none());
}

#[test]
fn round_trip_of_appends() {
    let records = [("id", "u-42"), ("note", "two\nlines\tand \\ slash"), ("id", ""), ("日本", "語")];
    let (data, storage, offsets) = write_log(&records);
    assert_eq!(offsets[0], 0);
    assert_eq!(storage.log_length(), data.len() as u64);
    for (i, (tag, payload)) in records.iter().enumerate() {
        let rec = WalStorage::read_at_offset(&data, offsets[i]).unwrap();
        assert_eq!(rec.tag, *tag);
        assert_eq!(rec.payload, *payload);
        assert_eq!(rec.checksum, sha256_hex(&format!("{}\t{}", tag, escape_payload(payload))));
    }
    assert_eq!(storage.select_offsets("id"), vec![offsets[0], offsets[2]]);
    assert_eq!(storage.select_offsets("none"), Vec::<u64>::new());
    assert!(WalStorage::read_at_offset(&data, data.len() as u64).is_none());
    assert!(WalStorage::read_at_offset(&data, data.len() as u64 + 10).is_none());
}

#[test]
fn open_clean_log() {
    let (data, _, offsets) = write_log(&[("id", "u-42"), ("id", "u-43"), ("x", "y")]);
    for mode in [RecoveryMode::Strict, RecoveryMode::TruncateCorruptedTail] {
        let opened = WalStorage::open(&data, mode).unwrap();
        assert!(opened.corruption.is_none());
        assert_eq!(opened.storage.select_offsets("id"), vec![offsets[0], offsets[1]]);
        assert_eq!(opened.storage.select_offsets("x"), vec![offsets[2]]);
        assert_eq!(opened.storage.log_length(), data.len() as u64);
    }
    let empty = WalStorage::open(&[], RecoveryMode::Strict).unwrap();
    assert_eq!(empty.storage.log_length(), 0);
}

#[test]
fn corrupted_tail_truncated() {
    let (mut data, _, offsets) = write_log(&[("id", "u-42"), ("id", "u-43")]);
    let n = data.len();
    for b in &mut data[n - 5..] {
        *b = b'X';
    }
    let opened = WalStorage::open(&data, RecoveryMode::TruncateCorruptedTail).unwrap();
    assert_eq!(opened.storage.select_offsets("id"), vec![0]);
    assert_eq!(opened.storage.log_length(), offsets[1]);
    let c = opened.corruption.unwrap();
    assert_eq!(c.offset, offsets[1]);
    assert_eq!(c.reason, CorruptionReason::IncompleteTail);
    let rec = WalStorage::read_at_offset(&data, offsets[0]).unwrap();
    assert_eq!((rec.tag.as_str(), rec.payload.as_str()), ("id", "u-42"));
}

#[test]
fn corrupted_tail_with_newline_kept() {
    let (mut data, _, offsets) = write_log(&[("id", "u-42"), ("id", "u-43")]);
    let n = data.len();
    for b in &mut data[n - 5..n - 1] {
        *b = b'0';
    }
    let opened = WalStorage::open(&data, RecoveryMode::TruncateCorruptedTail).unwrap();
    assert_eq!(opened.storage.select_offsets("id"), vec![0]);
    assert_eq!(opened.corruption.unwrap().reason, CorruptionReason::ChecksumMismatch);
    let strict = WalStorage::open(&data, RecoveryMode::Strict);
    let err = strict.err().unwrap();
    assert_eq!(err.offset, offsets[1]);
    assert_eq!(err.reason, CorruptionReason::ChecksumMismatch);
}

#[test]
fn crash_at_every_byte() {
    let records = [("a", "1"), ("bb", "two"), ("c", "")];
    let (data, _, offsets) = write_log(&records);
    let ends = [offsets[1], offsets[2], data.len() as u64];
    for k in 0..=data.len() {
        let cut = &data[..k];
        let opened = WalStorage::open(cut, RecoveryMode::TruncateCorruptedTail).unwrap();
        let whole = ends.iter().filter(|e| **e <= k as u64).count();
        let good = if whole == 0 { 0 } else { ends[whole - 1] };
        assert_eq!(opened.storage.log_length(), good);
        let mut found = opened.storage.select_offsets("a");
        found.extend(opened.storage.select_offsets("bb"));
        found.extend(opened.storage.select_offsets("c"));
        assert_eq!(found, offsets[..whole].to_vec());
        match opened.corruption {
            None => assert_eq!(good, k as u64),
            Some(c) => {
                assert_eq!(c.offset, good);
                assert_eq!(c.reason, CorruptionReason::IncompleteTail);
            }
        }
    }
}

#[test]
fn non_utf8_and_bad_format_lines() {
    let mut data = encode_record("id", "ok");
    let first = data.len() as u64;
    data.extend_from_slice(&[0xff, 0xfe, b'\n']);
    let opened = WalStorage::open(&data, RecoveryMode::TruncateCorruptedTail).unwrap();
    let c = opened.corruption.unwrap();
    assert_eq!((c.offset, c.reason), (first, CorruptionReason::NonUtf8Line));
    let mut data = encode_record("id", "ok");
    data.extend_from_slice(b"just one field\n");
    let err = WalStorage::open(&data, RecoveryMode::Strict).err().unwrap();
    assert_eq!((err.offset, err.reason), (first, CorruptionReason::InvalidFormat));
}

#[test]
fn read_invalid_utf8_lossily() {
    let mut data = b"t\tp".to_vec();
    data.push(0xff);
    data.extend_from_slice(b"\tsum\n");
    let rec = WalStorage::read_at_offset(&data, 0).unwrap();
    assert_eq!(rec.tag, "t");
    assert_eq!(rec.payload, "p\u{fffd}");
    assert_eq!(rec.checksum, "sum");
}
