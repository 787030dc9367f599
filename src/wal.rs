use vstd::prelude::*;
use vstd::utf8::{encode_utf8, decode_utf8, valid_utf8};
use sha2::Digest;
use crate::text::{push_all, chars_of, string_of, trim_end, trim_end_len, find_from, find_char, slice_of, chars_eq, lemma_find_from};

verus! {

/// The escape sequence written for one payload character.
pub open spec fn esc_char(c: char) -> Seq<char> {
    if c == '\\' {
        seq!['\\', '\\']
    } else if c == '\t' {
        seq!['\\', 't']
    } else if c == '\n' {
        seq!['\\', 'n']
    } else {
        seq![c]
    }
}

/// A payload as written in the log: backslash, tab and newline become
/// `\\`, `\t` and `\n`.
pub open spec fn escape(s: Seq<char>) -> Seq<char>
    decreases s.len(),
{
    if s.len() == 0 {
        Seq::empty()
    } else {
        esc_char(s[0]) + escape(s.drop_first())
    }
}

/// The characters that may follow a backslash in an escape sequence.
pub open spec fn is_esc_code(c: char) -> bool {
    c == 't' || c == 'n' || c == '\\'
}

/// The character an escape sequence stands for.
pub open spec fn unesc_char(c: char) -> char {
    if c == 't' {
        '\t'
    } else if c == 'n' {
        '\n'
    } else {
        '\\'
    }
}

/// A payload as read from the log: the three escape sequences are decoded,
/// any other backslash stays as it is.
pub open spec fn unescape(s: Seq<char>) -> Seq<char>
    decreases s.len(),
{
    if s.len() == 0 {
        Seq::empty()
    } else if s.len() >= 2 && s[0] == '\\' && is_esc_code(s[1]) {
        seq![unesc_char(s[1])] + unescape(s.subrange(2, s.len() as int))
    } else {
        seq![s[0]] + unescape(s.drop_first())
    }
}

/// Escapes a payload for the log.
pub fn escape_payload(input: &str) -> (r: String)
    ensures
        r@ == escape(input@),
{
    let v = chars_of(input);
    let mut out: Vec<char> = Vec::new();
    let mut i: usize = 0;
    assert(v@.subrange(0, v@.len() as int) =~= v@);
    assert(out@ + escape(v@) =~= escape(v@));
    while i < v.len()
        invariant
            i <= v@.len(),
            escape(v@) == out@ + escape(v@.subrange(i as int, v@.len() as int)),
        decreases v@.len() - i,
    {
        let ghost rest = v@.subrange(i as int, v@.len() as int);
        assert(rest.drop_first() == v@.subrange(i + 1, v@.len() as int));
        let ghost before = out@;
        let c = v[i];
        if c == '\\' {
            out.push('\\');
            out.push('\\');
        } else if c == '\t' {
            out.push('\\');
            out.push('t');
        } else if c == '\n' {
            out.push('\\');
            out.push('n');
        } else {
            out.push(c);
        }
        assert(out@ == before + esc_char(c));
        assert(escape(v@) == out@ + escape(v@.subrange(i + 1, v@.len() as int)));
        i = i + 1;
    }
    assert(v@.subrange(v@.len() as int, v@.len() as int) =~= Seq::<char>::empty());
    assert(out@ + Seq::<char>::empty() =~= out@);
    string_of(out.as_slice())
}

/// Decodes a payload read from the log.
pub fn unescape_payload(input: &str) -> (r: String)
    ensures
        r@ == unescape(input@),
{
    let v = chars_of(input);
    let mut out: Vec<char> = Vec::new();
    let mut i: usize = 0;
    assert(v@.subrange(0, v@.len() as int) =~= v@);
    assert(out@ + unescape(v@) =~= unescape(v@));
    while i < v.len()
        invariant
            i <= v@.len(),
            unescape(v@) == out@ + unescape(v@.subrange(i as int, v@.len() as int)),
        decreases v@.len() - i,
    {
        let ghost rest = v@.subrange(i as int, v@.len() as int);
        let ghost before = out@;
        let c = v[i];
        if c == '\\' && i + 1 < v.len() && (v[i + 1] == 't' || v[i + 1] == 'n' || v[i + 1]
            == '\\') {
            let d = v[i + 1];
            let e = if d == 't' {
                '\t'
            } else if d == 'n' {
                '\n'
            } else {
                '\\'
            };
            out.push(e);
            assert(rest.subrange(2, rest.len() as int) == v@.subrange(i + 2, v@.len() as int));
            assert(out@ == before + seq![unesc_char(d)]);
            assert(unescape(v@) == out@ + unescape(v@.subrange(i + 2, v@.len() as int)));
            i = i + 2;
        } else {
            out.push(c);
            assert(rest.drop_first() == v@.subrange(i + 1, v@.len() as int));
            assert(out@ == before + seq![c]);
            assert(unescape(v@) == out@ + unescape(v@.subrange(i + 1, v@.len() as int)));
            i = i + 1;
        }
    }
    assert(v@.subrange(v@.len() as int, v@.len() as int) =~= Seq::<char>::empty());
    assert(out@ + Seq::<char>::empty() =~= out@);
    string_of(out.as_slice())
}

/// Decoding an escaped payload gives the payload back.
pub proof fn lemma_unescape_escape(s: Seq<char>)
    ensures
        unescape(escape(s)) == s,
    decreases s.len(),
{
    if s.len() > 0 {
        let e = escape(s);
        let tail = escape(s.drop_first());
        lemma_unescape_escape(s.drop_first());
        let c = s[0];
        if c == '\\' || c == '\t' || c == '\n' {
            assert(e.subrange(2, e.len() as int) =~= tail);
        } else {
            assert(e.drop_first() =~= tail);
        }
        assert(seq![c] + s.drop_first() =~= s);
    } else {
        assert(escape(s) =~= Seq::<char>::empty());
    }
}

/// An escaped payload holds no tab and no newline.
pub proof fn lemma_escape_plain(s: Seq<char>)
    ensures
        forall|k: int| 0 <= k < escape(s).len() ==> escape(s)[k] != '\t' && escape(s)[k] != '\n',
    decreases s.len(),
{
    if s.len() > 0 {
        lemma_escape_plain(s.drop_first());
        let h = esc_char(s[0]);
        let t = escape(s.drop_first());
        assert forall|k: int| 0 <= k < escape(s).len() implies escape(s)[k] != '\t' && escape(
            s,
        )[k] != '\n' by {
            if k < h.len() {
                assert(escape(s)[k] == h[k]);
            } else {
                assert(escape(s)[k] == t[k - h.len()]);
            }
        }
    }
}

/// The three tab-separated fields of a log line (tag, escaped payload,
/// checksum), after trailing whitespace is cut off; the checksum is all
/// that follows the second tab.
pub open spec fn split_fields(line: Seq<char>) -> Option<(Seq<char>, Seq<char>, Seq<char>)> {
    let t = trim_end(line);
    match find_from(t, '\t', 0) {
        None => None,
        Some(i) => match find_from(t, '\t', i + 1) {
            None => None,
            Some(j) => Some((t.subrange(0, i), t.subrange(i + 1, j), t.subrange(j + 1, t.len() as int))),
        },
    }
}

/// One record of the tagged log, with its payload decoded.
#[derive(Clone, Debug)]
pub struct WalRecord {
    pub tag: String,
    pub payload: String,
    pub checksum: String,
}

/// The record a line holds, as (tag, decoded payload, checksum).
pub open spec fn parse_spec(line: Seq<char>) -> Option<(Seq<char>, Seq<char>, Seq<char>)> {
    match split_fields(line) {
        None => None,
        Some(f) => Some((f.0, unescape(f.1), f.2)),
    }
}

/// The three fields of a line, as positions `(i, j, n)`: the tag is
/// `v[..i]`, the escaped payload `v[i + 1..j]`, the checksum `v[j + 1..n]`.
fn field_bounds(v: &Vec<char>) -> (r: Option<(usize, usize, usize)>)
    ensures
        match split_fields(v@) {
            None => r is None,
            Some(f) => r matches Some(b) && b.0 < b.1 < b.2 <= v@.len() && v@[b.0 as int] == '\t'
                && v@[b.1 as int] == '\t' && f.0 == v@.subrange(0, b.0 as int)
                && f.1 == v@.subrange(b.0 + 1, b.1 as int) && f.2 == v@.subrange(
                b.1 + 1,
                b.2 as int,
            ),
        },
{
    let n = trim_end_len(v);
    let ghost t = v@.subrange(0, n as int);
    assert(v@.subrange(0, n as int).subrange(0, n as int) == t);
    match find_char(v, '\t', 0, n) {
        None => None,
        Some(i) => match find_char(v, '\t', i + 1, n) {
            None => None,
            Some(j) => {
                assert(t.subrange(0, i as int) == v@.subrange(0, i as int));
                assert(t.subrange(i + 1, j as int) == v@.subrange(i + 1, j as int));
                assert(t.subrange(j + 1, n as int) == v@.subrange(j + 1, n as int));
                Some((i, j, n))
            },
        },
    }
}

/// Reads a log line into its record; `None` when it has fewer than three
/// fields.
pub fn parse_line(line: &str) -> (r: Option<WalRecord>)
    ensures
        match parse_spec(line@) {
            None => r is None,
            Some(p) => r matches Some(rec) && rec.tag@ == p.0 && rec.payload@ == p.1
                && rec.checksum@ == p.2,
        },
{
    let v = chars_of(line);
    match field_bounds(&v) {
        None => None,
        Some((i, j, n)) => {
            let tag = string_of(slice_of(&v, 0, i).as_slice());
            let escaped = string_of(slice_of(&v, i + 1, j).as_slice());
            let checksum = string_of(slice_of(&v, j + 1, n).as_slice());
            let payload = unescape_payload(escaped.as_str());
            Some(WalRecord { tag, payload, checksum })
        },
    }
}

/// What SHA-256 makes of these bytes.
pub uninterp spec fn sha256_of(data: Seq<u8>) -> Seq<u8>;

/// Relies on `sha2::Sha256`: the digest of `data`, which is 32 bytes long.
#[verifier::external_body]
fn sha256_digest(data: &[u8]) -> (r: Vec<u8>)
    ensures
        r@ == sha256_of(data@),
        r@.len() == 32,
{
    let mut hasher = sha2::Sha256::new();
    hasher.update(data);
    hasher.finalize().to_vec()
}

/// The lowercase hex digit of `n`, for `n < 16`.
pub open spec fn hex_digit(n: int) -> char {
    if n < 10 {
        (('0' as int) + n) as char
    } else {
        (('a' as int) + n - 10) as char
    }
}

/// Bytes as lowercase hex, two digits per byte, high digit first.
pub open spec fn hex_of(b: Seq<u8>) -> Seq<char>
    decreases b.len(),
{
    if b.len() == 0 {
        Seq::empty()
    } else {
        seq![hex_digit(b[0] as int / 16), hex_digit(b[0] as int % 16)] + hex_of(b.drop_first())
    }
}

/// Relies on `hex::encode`: lowercase hex, two digits per byte.
#[verifier::external_body]
fn hex_encode(data: &[u8]) -> (r: String)
    ensures
        r@ == hex_of(data@),
{
    hex::encode(data)
}

/// The SHA-256 digest of `data`, which is 32 bytes long.
pub open spec fn digest_of(data: Seq<u8>) -> Seq<u8> {
    if sha256_of(data).len() == 32 {
        sha256_of(data)
    } else {
        Seq::new(32, |i: int| 0u8)
    }
}

/// The checksum stored with a line: lowercase hex SHA-256 of the UTF-8
/// bytes of `tag \t escaped_payload`.
pub open spec fn checksum_of(body: Seq<char>) -> Seq<char> {
    hex_of(digest_of(encode_utf8(body)))
}

/// Lowercase hex SHA-256 of the UTF-8 bytes of `input`.
pub fn sha256_hex(input: &str) -> (r: String)
    ensures
        r@ == checksum_of(input@),
{
    let digest = sha256_digest(input.as_bytes());
    hex_encode(digest.as_slice())
}

/// What the checksum covers: `tag \t escaped_payload`.
pub open spec fn record_body(tag: Seq<char>, payload: Seq<char>) -> Seq<char> {
    tag + seq!['\t'] + escape(payload)
}

/// A record's line without its final newline.
pub open spec fn record_line(tag: Seq<char>, payload: Seq<char>) -> Seq<char> {
    record_body(tag, payload) + seq!['\t'] + checksum_of(record_body(tag, payload))
}

/// The bytes of a framed record: `tag \t escaped_payload \t checksum \n`.
pub open spec fn record_bytes(tag: Seq<char>, payload: Seq<char>) -> Seq<u8> {
    encode_utf8(record_line(tag, payload)) + seq![10u8]
}

/// Frames a record for the log: `tag \t escaped_payload \t checksum \n`,
/// as UTF-8 bytes.
pub fn encode_record(tag: &str, payload: &str) -> (r: Vec<u8>)
    ensures
        r@ == record_bytes(tag@, payload@),
{
    let escaped = escape_payload(payload);
    let mut body = chars_of(tag);
    body.push('\t');
    push_all(&mut body, &chars_of(escaped.as_str()));
    assert(body@ == record_body(tag@, payload@));
    let body_text = string_of(body.as_slice());
    let checksum = sha256_hex(body_text.as_str());
    let mut line = body;
    line.push('\t');
    push_all(&mut line, &chars_of(checksum.as_str()));
    assert(line@ == record_line(tag@, payload@));
    let line_text = string_of(line.as_slice());
    let line_bytes = line_text.as_str().as_bytes();
    assert(line_bytes@ == encode_utf8(line_text@));
    let mut bytes = vstd::slice::slice_to_vec(line_bytes);
    bytes.push(10u8);
    bytes
}

/// Relies on `std::str::from_utf8`: it succeeds exactly on valid UTF-8,
/// and then gives the decoded characters.
#[verifier::external_body]
fn utf8_text(b: &[u8]) -> (r: Option<String>)
    ensures
        r is Some <==> valid_utf8(b@),
        r matches Some(s) ==> s@ == decode_utf8(b@),
{
    match std::str::from_utf8(b) {
        Ok(s) => Some(s.to_string()),
        Err(_) => None,
    }
}

/// How to treat a corrupted line met while opening the log.
#[derive(Clone, Copy, Debug, PartialEq, Eq, Structural)]
pub enum RecoveryMode {
    /// Refuse to open.
    Strict,
    /// Cut the log back to the end of the last good line.
    TruncateCorruptedTail,
}

/// Why a line was judged corrupted.
#[derive(Clone, Copy, Debug, PartialEq, Eq, Structural)]
pub enum CorruptionReason {
    /// The last line has no newline.
    IncompleteTail,
    /// The line is not valid UTF-8.
    NonUtf8Line,
    /// The line does not have three tab-separated fields.
    InvalidFormat,
    /// The stored checksum is not that of the line's tag and payload.
    ChecksumMismatch,
}

/// The first corrupted line: where it starts, and why.
#[derive(Clone, Copy, Debug, PartialEq, Eq, Structural)]
pub struct Corruption {
    pub offset: u64,
    pub reason: CorruptionReason,
}

/// Checks one line (without its newline): its tag when it is valid
/// UTF-8, has three fields, and carries the checksum of its tag and
/// escaped payload.
pub open spec fn check_line_spec(line: Seq<u8>) -> Result<Seq<char>, CorruptionReason> {
    if !valid_utf8(line) {
        Err(CorruptionReason::NonUtf8Line)
    } else {
        match split_fields(decode_utf8(line)) {
            None => Err(CorruptionReason::InvalidFormat),
            Some(f) => if checksum_of(f.0 + seq!['\t'] + f.1) == f.2 {
                Ok(f.0)
            } else {
                Err(CorruptionReason::ChecksumMismatch)
            },
        }
    }
}

/// What a scan of the log finds from its byte `base` on, where `rest` is
/// the log from there: the good records as (tag, offset), the offset that
/// ends the last good line, and the first corruption if there is one.
pub open spec fn scan(rest: Seq<u8>, base: int) -> (
    Seq<(Seq<char>, int)>,
    int,
    Option<(int, CorruptionReason)>,
)
    decreases rest.len(),
{
    if rest.len() == 0 {
        (Seq::empty(), base, None)
    } else {
        match find_from(rest, 10u8, 0) {
            None => (Seq::empty(), base, Some((base, CorruptionReason::IncompleteTail))),
            Some(e) => if 0 <= e < rest.len() {
                match check_line_spec(rest.subrange(0, e)) {
                    Err(why) => (Seq::empty(), base, Some((base, why))),
                    Ok(tag) => {
                        let r = scan(rest.subrange(e + 1, rest.len() as int), base + e + 1);
                        (seq![(tag, base)] + r.0, r.1, r.2)
                    },
                }
            } else {
                (Seq::empty(), base, None)
            },
        }
    }
}

fn check_line(line: &[u8]) -> (r: Result<String, CorruptionReason>)
    ensures
        match check_line_spec(line@) {
            Ok(t) => r matches Ok(s) && s@ == t,
            Err(e) => r == Err::<String, CorruptionReason>(e),
        },
{
    match utf8_text(line) {
        None => Err(CorruptionReason::NonUtf8Line),
        Some(text) => {
            let v = chars_of(text.as_str());
            match field_bounds(&v) {
                None => Err(CorruptionReason::InvalidFormat),
                Some((i, j, n)) => {
                    let body = slice_of(&v, 0, j);
                    proof {
                        let f = split_fields(v@).unwrap();
                        assert(body@ =~= f.0 + seq!['\t'] + f.1);
                    }
                    let expected = sha256_hex(string_of(body.as_slice()).as_str());
                    let stored = slice_of(&v, j + 1, n);
                    if chars_eq(&chars_of(expected.as_str()), &stored) {
                        Ok(string_of(slice_of(&v, 0, i).as_slice()))
                    } else {
                        Err(CorruptionReason::ChecksumMismatch)
                    }
                },
            }
        },
    }
}

/// The in-memory index of the tagged log: each good record's tag and
/// byte offset, in log order, and the length of the log.
pub struct WalStorage {
    entries: Vec<(String, u64)>,
    len: u64,
}

/// The index entries as (tag, offset).
pub open spec fn entries_view(e: Seq<(String, u64)>) -> Seq<(Seq<char>, int)> {
    e.map_values(|x: (String, u64)| (x.0@, x.1 as int))
}

/// A corruption as (offset, reason).
pub open spec fn fault_view(c: Option<Corruption>) -> Option<(int, CorruptionReason)> {
    match c {
        None => None,
        Some(x) => Some((x.offset as int, x.reason)),
    }
}

/// A log opened: its index, and the corruption met at its tail if the
/// tail was cut off.
pub struct Opened {
    pub storage: WalStorage,
    pub corruption: Option<Corruption>,
}

impl WalStorage {
    /// Each indexed record as (tag, offset), in log order.
    pub closed spec fn index(self) -> Seq<(Seq<char>, int)> {
        entries_view(self.entries@)
    }

    /// Length in bytes of the log that the index covers.
    pub closed spec fn log_len(self) -> int {
        self.len as int
    }

    /// An empty log.
    pub fn new() -> (r: WalStorage)
        ensures
            r.index() == Seq::<(Seq<char>, int)>::empty(),
            r.log_len() == 0,
    {
        WalStorage { entries: Vec::new(), len: 0 }
    }

    /// Length in bytes of the log that the index covers: where the next
    /// record goes.
    pub fn log_length(&self) -> (r: u64)
        ensures
            r == self.log_len(),
    {
        self.len
    }

    /// Rebuilds the index from the log's bytes. Each line is read in turn;
    /// the first that has no newline, is not UTF-8, has not three fields
    /// or fails its checksum is a corruption. `Strict` refuses it;
    /// `TruncateCorruptedTail` keeps the records before it, and the log is
    /// to be cut back to `log_len`.
    pub fn open(data: &[u8], mode: RecoveryMode) -> (r: Result<Opened, Corruption>)
        ensures
            ({
                let s = scan(data@, 0);
                match mode {
                    RecoveryMode::Strict => match s.2 {
                        None => r matches Ok(o) && o.storage.index() == s.0 && o.storage.log_len()
                            == s.1 && o.corruption is None,
                        Some(f) => r matches Err(c) && c.offset == f.0 && c.reason == f.1,
                    },
                    RecoveryMode::TruncateCorruptedTail => r matches Ok(o) && o.storage.index()
                        == s.0 && o.storage.log_len() == s.1 && fault_view(o.corruption) == s.2,
                }
            }),
    {
        let mut entries: Vec<(String, u64)> = Vec::new();
        let mut off: usize = 0;
        let mut fault: Option<Corruption> = None;
        assert(data@.subrange(0, data@.len() as int) =~= data@);
        assert(entries_view(entries@) + scan(data@, 0).0 =~= scan(data@, 0).0);
        loop
            invariant_except_break
                fault is None,
                ({
                    let t = scan(data@.subrange(off as int, data@.len() as int), off as int);
                    scan(data@, 0) == (entries_view(entries@) + t.0, t.1, t.2)
                }),
            invariant
                off <= data@.len(),
            ensures
                off <= data@.len(),
                scan(data@, 0) == (entries_view(entries@), off as int, fault_view(fault)),
            decreases data@.len() - off,
        {
            let ghost rest = data@.subrange(off as int, data@.len() as int);
            if off == data.len() {
                assert(entries_view(entries@) + Seq::empty() =~= entries_view(entries@));
                break;
            }
            let mut e = off;
            while e < data.len() && data[e] != 10u8
                invariant
                    off <= e <= data@.len(),
                    forall|k: int| off <= k < e ==> data@[k] != 10u8,
                decreases data@.len() - e,
            {
                e = e + 1;
            }
            proof {
                assert forall|k: int| 0 <= k < e - off implies rest[k] != 10u8 by {
                    assert(rest[k] == data@[k + off]);
                }
                lemma_find_from(rest, 10u8, 0, e - off);
            }
            if e == data.len() {
                fault = Some(Corruption { offset: off as u64, reason: CorruptionReason::IncompleteTail });
                assert(entries_view(entries@) + Seq::empty() =~= entries_view(entries@));
                break;
            }
            assert(rest[e - off] == data@[e as int]);
            let line = vstd::slice::slice_subrange(data, off, e);
            assert(line@ == rest.subrange(0, e - off));
            match check_line(line) {
                Err(why) => {
                    fault = Some(Corruption { offset: off as u64, reason: why });
                    assert(entries_view(entries@) + Seq::empty() =~= entries_view(entries@));
                    break;
                },
                Ok(tag) => {
                    let ghost old_entries = entries_view(entries@);
                    entries.push((tag, off as u64));
                    let ghost t2 = scan(data@.subrange(e + 1, data@.len() as int), e + 1);
                    assert(rest.subrange(e - off + 1, rest.len() as int) =~= data@.subrange(
                        e + 1,
                        data@.len() as int,
                    ));
                    assert(entries_view(entries@) =~= old_entries.push((tag@, off as int)));
                    assert(old_entries + (seq![(tag@, off as int)] + t2.0) =~= entries_view(entries@) + t2.0);
                    off = e + 1;
                },
            }
        }
        let storage = WalStorage { entries, len: off as u64 };
        match mode {
            RecoveryMode::Strict => match fault {
                Some(c) => Err(c),
                None => Ok(Opened { storage, corruption: None }),
            },
            RecoveryMode::TruncateCorruptedTail => Ok(Opened { storage, corruption: fault }),
        }
    }

    /// Reads the record whose line starts at byte `offset` of the log `data`,
    /// up to the next newline; `None` at or past the end, or when the line
    /// has not three fields.
    pub fn read_at_offset(data: &[u8], offset: u64) -> (r: Option<WalRecord>)
        ensures
            match read_at(data@, offset as int) {
                None => r is None,
                Some(p) => r matches Some(rec) && rec.tag@ == p.0 && rec.payload@ == p.1
                    && rec.checksum@ == p.2,
            },
    {
        if offset >= data.len() as u64 {
            return None;
        }
        let off = offset as usize;
        let mut e = off;
        while e < data.len() && data[e] != 10u8
            invariant
                off <= e <= data@.len(),
                forall|k: int| off <= k < e ==> data@[k] != 10u8,
            decreases data@.len() - e,
        {
            e = e + 1;
        }
        proof {
            lemma_find_from(data@, 10u8, off as int, e as int);
        }
        let line = lossy_text(vstd::slice::slice_subrange(data, off, e));
        parse_line(line.as_str())
    }

    /// Records that a framed record for `tag`, `record_len` bytes long
    /// (see `encode_record`), has been written at the end of the log; gives
    /// its offset.
    pub fn append(&mut self, tag: &str, record_len: u64) -> (r: u64)
        requires
            old(self).log_len() + record_len <= u64::MAX,
        ensures
            r == old(self).log_len(),
            final(self).log_len() == old(self).log_len() + record_len,
            final(self).index() == old(self).index().push((tag@, r as int)),
    {
        let offset = self.len;
        self.entries.push((tag.to_owned(), offset));
        self.len = self.len + record_len;
        assert(entries_view(self.entries@) =~= entries_view(old(self).entries@).push((tag@, offset as int)));
        offset
    }

    /// Offsets of the records with tag `tag`, in log order.
    pub fn select_offsets(&self, tag: &str) -> (r: Vec<u64>)
        ensures
            r@.map_values(|x: u64| x as int) == offsets_for(self.index(), tag@),
    {
        let wanted = tag.to_owned();
        let mut out: Vec<u64> = Vec::new();
        let mut i: usize = 0;
        while i < self.entries.len()
            invariant
                i <= self.entries@.len(),
                wanted@ == tag@,
                out@.map_values(|x: u64| x as int) == offsets_for(
                    entries_view(self.entries@).subrange(0, i as int),
                    tag@,
                ),
            decreases self.entries@.len() - i,
        {
            let ghost es = entries_view(self.entries@);
            let ghost before = out@;
            assert(es.subrange(0, i + 1).drop_last() == es.subrange(0, i as int));
            if self.entries[i].0 == wanted {
                out.push(self.entries[i].1);
                assert(out@.map_values(|x: u64| x as int) =~= before.map_values(|x: u64| x as int).push(self.entries@[i as int].1 as int));
            }
            i = i + 1;
        }
        assert(entries_view(self.entries@).subrange(0, i as int) =~= entries_view(self.entries@));
        out
    }
}

/// Offsets of the entries with tag `tag`, in order.
pub open spec fn offsets_for(entries: Seq<(Seq<char>, int)>, tag: Seq<char>) -> Seq<int>
    decreases entries.len(),
{
    if entries.len() == 0 {
        Seq::empty()
    } else if entries.last().0 == tag {
        offsets_for(entries.drop_last(), tag).push(entries.last().1)
    } else {
        offsets_for(entries.drop_last(), tag)
    }
}

/// What lossy UTF-8 decoding makes of these bytes.
pub uninterp spec fn lossy_of(b: Seq<u8>) -> Seq<char>;

/// Bytes read as text: valid UTF-8 as it is, anything else lossily.
pub open spec fn lossy_decode(b: Seq<u8>) -> Seq<char> {
    if valid_utf8(b) {
        decode_utf8(b)
    } else {
        lossy_of(b)
    }
}

/// Relies on `String::from_utf8_lossy`: valid UTF-8 is decoded as it is.
#[verifier::external_body]
fn lossy_text(b: &[u8]) -> (r: String)
    ensures
        r@ == lossy_decode(b@),
        !valid_utf8(b@) ==> r@ == lossy_of(b@),
{
    String::from_utf8_lossy(b).into_owned()
}

/// End of the line that starts at `off`: its newline, or the end of the
/// log.
pub open spec fn line_end(data: Seq<u8>, off: int) -> int {
    match find_from(data, 10u8, off) {
        Some(e) => e,
        None => data.len() as int,
    }
}

/// The record at byte `off` of the log, as (tag, decoded payload,
/// checksum); nothing at or past the end.
pub open spec fn read_at(data: Seq<u8>, off: int) -> Option<(Seq<char>, Seq<char>, Seq<char>)> {
    if off < 0 || off >= data.len() {
        None
    } else {
        parse_spec(lossy_decode(data.subrange(off, line_end(data, off))))
    }
}

} // verus!
