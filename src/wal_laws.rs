use vstd::prelude::*;
use vstd::utf8::{encode_utf8, encode_scalar, encode_utf8_valid_utf8, encode_utf8_decode_utf8};
use crate::text::{lemma_find_from, trim_end, is_ws};
use crate::wal::{
    escape, lemma_escape_plain, lemma_unescape_escape, hex_of, hex_digit, digest_of, checksum_of,
    record_body, record_line, record_bytes, split_fields, parse_spec, check_line_spec, scan,
    read_at, line_end, lossy_decode, CorruptionReason,
};

verus! {

/// A tag that can stand in a log line: no tab and no newline.
pub open spec fn plain_tag(t: Seq<char>) -> bool {
    forall|k: int| 0 <= k < t.len() ==> t[k] != '\t' && t[k] != '\n'
}

/// The log written by appending these (tag, payload) records in order.
pub open spec fn log_of(recs: Seq<(Seq<char>, Seq<char>)>) -> Seq<u8>
    decreases recs.len(),
{
    if recs.len() == 0 {
        Seq::empty()
    } else {
        record_bytes(recs[0].0, recs[0].1) + log_of(recs.drop_first())
    }
}

/// Offset at which the `i`-th record of `recs` was written.
pub open spec fn offset_of(recs: Seq<(Seq<char>, Seq<char>)>, i: int) -> int {
    log_of(recs.subrange(0, i)).len() as int
}

proof fn lemma_encode_concat(a: Seq<char>, b: Seq<char>)
    ensures
        encode_utf8(a + b) == encode_utf8(a) + encode_utf8(b),
    decreases a.len(),
{
    if a.len() == 0 {
        assert(a + b =~= b);
        assert(encode_utf8(a) =~= Seq::<u8>::empty());
        assert(Seq::<u8>::empty() + encode_utf8(b) =~= encode_utf8(b));
    } else {
        lemma_encode_concat(a.drop_first(), b);
        assert((a + b).drop_first() =~= a.drop_first() + b);
        assert((a + b)[0] == a[0]);
        assert(encode_scalar(a[0] as u32) + (encode_utf8(a.drop_first()) + encode_utf8(b))
            =~= (encode_scalar(a[0] as u32) + encode_utf8(a.drop_first())) + encode_utf8(b));
    }
}

proof fn lemma_high_bytes(y: u8)
    ensures
        (0x80u8 | y) != 10u8,
        (0xC0u8 | y) != 10u8,
        (0xE0u8 | y) != 10u8,
        (0xF0u8 | y) != 10u8,
{
    assert((0x80u8 | y) != 10u8) by (bit_vector);
    assert((0xC0u8 | y) != 10u8) by (bit_vector);
    assert((0xE0u8 | y) != 10u8) by (bit_vector);
    assert((0xF0u8 | y) != 10u8) by (bit_vector);
}

proof fn lemma_scalar_no_newline(c: char)
    requires
        c != '\n',
    ensures
        forall|k: int| 0 <= k < encode_scalar(c as u32).len() ==> #[trigger] encode_scalar(c as u32)[k] != 10u8,
{
    let v = c as u32;
    if v <= 0x7F {
        assert(v <= 0x7F ==> (v & 0x7F) == v) by (bit_vector);
        assert(v != 10);
    } else {
        lemma_high_bytes(((v >> 6) & 0x1F) as u8);
        lemma_high_bytes(((v >> 12) & 0x0F) as u8);
        lemma_high_bytes(((v >> 18) & 0x7) as u8);
        lemma_high_bytes((v & 0x3F) as u8);
        lemma_high_bytes(((v >> 6) & 0x3F) as u8);
        lemma_high_bytes(((v >> 12) & 0x3F) as u8);
    }
}

proof fn lemma_encode_no_newline(s: Seq<char>)
    requires
        forall|k: int| 0 <= k < s.len() ==> s[k] != '\n',
    ensures
        forall|k: int| 0 <= k < encode_utf8(s).len() ==> encode_utf8(s)[k] != 10u8,
    decreases s.len(),
{
    if s.len() > 0 {
        lemma_encode_no_newline(s.drop_first());
        lemma_scalar_no_newline(s[0]);
        let h = encode_scalar(s[0] as u32);
        let t = encode_utf8(s.drop_first());
        assert forall|k: int| 0 <= k < encode_utf8(s).len() implies encode_utf8(s)[k] != 10u8 by {
            if k < h.len() {
                assert(encode_utf8(s)[k] == h[k]);
            } else {
                assert(encode_utf8(s)[k] == t[k - h.len()]);
            }
        }
    }
}

proof fn lemma_hex_digits(b: Seq<u8>)
    ensures
        forall|k: int| 0 <= k < hex_of(b).len() ==> ('0' <= #[trigger] hex_of(b)[k] <= '9' || 'a'
            <= hex_of(b)[k] <= 'f'),
        hex_of(b).len() == 2 * b.len(),
    decreases b.len(),
{
    if b.len() > 0 {
        lemma_hex_digits(b.drop_first());
        let h = seq![hex_digit(b[0] as int / 16), hex_digit(b[0] as int % 16)];
        let t = hex_of(b.drop_first());
        assert forall|k: int| 0 <= k < hex_of(b).len() implies ('0' <= #[trigger] hex_of(b)[k]
            <= '9' || 'a' <= hex_of(b)[k] <= 'f') by {
            if k < 2 {
                assert(hex_of(b)[k] == h[k]);
            } else {
                assert(hex_of(b)[k] == t[k - 2]);
            }
        }
    }
}

/// Facts about a record's line: it holds no newline; its two tabs are
/// the first two; its checksum is hex and not empty.
proof fn lemma_line_shape(tag: Seq<char>, payload: Seq<char>)
    requires
        plain_tag(tag),
    ensures
        forall|k: int| 0 <= k < record_line(tag, payload).len() ==> record_line(tag, payload)[k]
            != '\n',
        split_fields(record_line(tag, payload)) == Some(
            (tag, escape(payload), checksum_of(record_body(tag, payload))),
        ),
{
    let e = escape(payload);
    let body = record_body(tag, payload);
    let cs = checksum_of(body);
    let line = record_line(tag, payload);
    lemma_escape_plain(payload);
    lemma_hex_digits(digest_of(encode_utf8(body)));
    let i = tag.len() as int;
    let j = i + 1 + e.len();
    assert(line.len() == j + 1 + cs.len());
    assert forall|k: int| 0 <= k < line.len() implies line[k] != '\n' && (k != i && k != j ==> line[k] != '\t') by {
        if k < i {
            assert(line[k] == tag[k]);
        } else if k == i {
        } else if k < j {
            assert(line[k] == e[k - i - 1]);
        } else if k == j {
        } else {
            assert(line[k] == cs[k - j - 1]);
        }
    }
    assert(line[i] == '\t');
    assert(line[j] == '\t');
    assert(cs.len() == 64);
    assert(line.last() == cs[cs.len() - 1]);
    assert(!is_ws(line.last()));
    assert(trim_end(line) == line);
    lemma_find_from(line, '\t', 0, i);
    lemma_find_from(line, '\t', i + 1, j);
    assert(line.subrange(0, i) =~= tag);
    assert(line.subrange(i + 1, j) =~= e);
    assert(line.subrange(j + 1, line.len() as int) =~= cs);
}

/// A record's line passes the checks of recovery, and reads back as the
/// record written.
proof fn lemma_line_reads_back(tag: Seq<char>, payload: Seq<char>)
    requires
        plain_tag(tag),
    ensures
        check_line_spec(encode_utf8(record_line(tag, payload))) == Ok::<Seq<char>, CorruptionReason>(tag),
        parse_spec(lossy_decode(encode_utf8(record_line(tag, payload)))) == Some(
            (tag, payload, checksum_of(record_body(tag, payload))),
        ),
        forall|k: int|
            0 <= k < encode_utf8(record_line(tag, payload)).len() ==> encode_utf8(
                record_line(tag, payload),
            )[k] != 10u8,
{
    let line = record_line(tag, payload);
    lemma_line_shape(tag, payload);
    encode_utf8_valid_utf8(line);
    encode_utf8_decode_utf8(line);
    lemma_unescape_escape(payload);
    lemma_encode_no_newline(line);
    assert(tag + seq!['\t'] + escape(payload) == record_body(tag, payload));
}

/// The record written at `a.len()`, between `a` and `b`, is read back.
proof fn lemma_read_record(a: Seq<u8>, tag: Seq<char>, payload: Seq<char>, b: Seq<u8>)
    requires
        plain_tag(tag),
    ensures
        read_at(a + record_bytes(tag, payload) + b, a.len() as int) == Some(
            (tag, payload, checksum_of(record_body(tag, payload))),
        ),
{
    let enc = encode_utf8(record_line(tag, payload));
    let data = a + record_bytes(tag, payload) + b;
    let off = a.len() as int;
    lemma_line_reads_back(tag, payload);
    assert forall|k: int| off <= k < off + enc.len() implies data[k] != 10u8 by {
        assert(data[k] == enc[k - off]);
    }
    assert(data[off + enc.len()] == 10u8);
    lemma_find_from(data, 10u8, off, off + enc.len());
    assert(line_end(data, off) == off + enc.len());
    assert(data.subrange(off, off + enc.len()) =~= enc);
}

proof fn lemma_log_split(recs: Seq<(Seq<char>, Seq<char>)>, i: int)
    requires
        0 <= i <= recs.len(),
    ensures
        log_of(recs) == log_of(recs.subrange(0, i)) + log_of(recs.subrange(i, recs.len() as int)),
    decreases i,
{
    if i == 0 {
        assert(recs.subrange(0, 0) =~= Seq::<(Seq<char>, Seq<char>)>::empty());
        assert(recs.subrange(0, recs.len() as int) =~= recs);
        assert(Seq::<u8>::empty() + log_of(recs) =~= log_of(recs));
    } else {
        let d = recs.drop_first();
        lemma_log_split(d, i - 1);
        assert(recs.subrange(0, i).drop_first() =~= d.subrange(0, i - 1));
        assert(d.subrange(i - 1, d.len() as int) =~= recs.subrange(i, recs.len() as int));
        assert(recs.subrange(0, i)[0] == recs[0]);
        let r0 = record_bytes(recs[0].0, recs[0].1);
        assert(r0 + (log_of(d.subrange(0, i - 1)) + log_of(d.subrange(i - 1, d.len() as int)))
            =~= (r0 + log_of(d.subrange(0, i - 1))) + log_of(d.subrange(i - 1, d.len() as int)));
    }
}

/// Appending a record to the log of `recs` puts its bytes at the end:
/// the offset that `WalStorage::append` hands out for it, the log's length
/// before, is where the record stands in the log of `recs` and it.
pub proof fn lemma_append_offset(recs: Seq<(Seq<char>, Seq<char>)>, tag: Seq<char>, payload: Seq<char>)
    ensures
        log_of(recs.push((tag, payload))) == log_of(recs) + record_bytes(tag, payload),
        offset_of(recs.push((tag, payload)), recs.len() as int) == log_of(recs).len(),
{
    let all = recs.push((tag, payload));
    lemma_log_split(all, recs.len() as int);
    assert(all.subrange(0, recs.len() as int) =~= recs);
    let last = all.subrange(recs.len() as int, all.len() as int);
    assert(last[0] == (tag, payload));
    assert(last.drop_first() =~= Seq::<(Seq<char>, Seq<char>)>::empty());
    assert(log_of(last.drop_first()) =~= Seq::<u8>::empty());
    assert(log_of(last) =~= record_bytes(tag, payload) + Seq::<u8>::empty());
}

/// Round trip of the tagged log: when records whose tags hold no tab or
/// newline are appended to a log that held any bytes `pre`, reading at
/// the offset where the `i`-th record was written gives back its tag and
/// payload with the checksum of its tag and escaped payload, and its line
/// passes the checksum test of recovery.
pub proof fn lemma_round_trip(pre: Seq<u8>, recs: Seq<(Seq<char>, Seq<char>)>, i: int)
    requires
        0 <= i < recs.len(),
        forall|k: int| 0 <= k < recs.len() ==> plain_tag(#[trigger] recs[k].0),
    ensures
        read_at(pre + log_of(recs), pre.len() + offset_of(recs, i)) == Some(
            (recs[i].0, recs[i].1, checksum_of(record_body(recs[i].0, recs[i].1))),
        ),
        check_line_spec(encode_utf8(record_line(recs[i].0, recs[i].1))) == Ok::<
            Seq<char>,
            CorruptionReason,
        >(recs[i].0),
{
    lemma_log_split(recs, i);
    let tail = recs.subrange(i, recs.len() as int);
    assert(tail[0] == recs[i]);
    assert(tail.drop_first() =~= recs.subrange(i + 1, recs.len() as int));
    let a = log_of(recs.subrange(0, i));
    let b = log_of(recs.subrange(i + 1, recs.len() as int));
    assert(pre + log_of(recs) =~= (pre + a) + record_bytes(recs[i].0, recs[i].1) + b);
    lemma_read_record(pre + a, recs[i].0, recs[i].1, b);
    lemma_line_reads_back(recs[i].0, recs[i].1);
}

/// The records of `recs` (written from offset `base`) whose bytes,
/// newline included, lie within the first `k` bytes, as (tag, offset).
pub open spec fn kept(recs: Seq<(Seq<char>, Seq<char>)>, k: int, base: int) -> Seq<(Seq<char>, int)>
    decreases recs.len(),
{
    if recs.len() == 0 {
        Seq::empty()
    } else {
        let n = record_bytes(recs[0].0, recs[0].1).len() as int;
        if n <= k {
            seq![(recs[0].0, base)] + kept(recs.drop_first(), k - n, base + n)
        } else {
            Seq::empty()
        }
    }
}

/// How many of the first `k` bytes belong to whole records.
pub open spec fn kept_len(recs: Seq<(Seq<char>, Seq<char>)>, k: int) -> int
    decreases recs.len(),
{
    if recs.len() == 0 {
        0
    } else {
        let n = record_bytes(recs[0].0, recs[0].1).len() as int;
        if n <= k {
            n + kept_len(recs.drop_first(), k - n)
        } else {
            0
        }
    }
}

proof fn lemma_recovery_from(recs: Seq<(Seq<char>, Seq<char>)>, k: int, base: int)
    requires
        0 <= k <= log_of(recs).len(),
        forall|j: int| 0 <= j < recs.len() ==> plain_tag(#[trigger] recs[j].0),
    ensures
        0 <= kept_len(recs, k) <= k,
        scan(log_of(recs).subrange(0, k), base) == (
            kept(recs, k, base),
            base + kept_len(recs, k),
            if kept_len(recs, k) < k {
                Some((base + kept_len(recs, k), CorruptionReason::IncompleteTail))
            } else {
                None
            },
        ),
    decreases recs.len(),
{
    let data = log_of(recs).subrange(0, k);
    if recs.len() == 0 {
        assert(data.len() == 0);
    } else if k == 0 {
        assert(data.len() == 0);
        assert(record_bytes(recs[0].0, recs[0].1).len() > 0);
    } else {
        let tag = recs[0].0;
        let payload = recs[0].1;
        let r0 = record_bytes(tag, payload);
        let enc = encode_utf8(record_line(tag, payload));
        let n = r0.len() as int;
        let rest = recs.drop_first();
        assert(plain_tag(recs[0].0));
        lemma_line_reads_back(tag, payload);
        if k < n {
            assert forall|j: int| 0 <= j < data.len() implies data[j] != 10u8 by {
                assert(data[j] == enc[j]);
            }
            lemma_find_from(data, 10u8, 0, data.len() as int);
        } else {
            assert forall|j: int| 0 <= j < enc.len() implies data[j] != 10u8 by {
                assert(data[j] == enc[j]);
            }
            assert(data[enc.len() as int] == 10u8);
            lemma_find_from(data, 10u8, 0, enc.len() as int);
            assert(data.subrange(0, enc.len() as int) =~= enc);
            assert forall|j: int| 0 <= j < rest.len() implies plain_tag(#[trigger] rest[j].0) by {
                assert(rest[j] == recs[j + 1]);
            }
            lemma_recovery_from(rest, k - n, base + n);
            assert(data.subrange(n, data.len() as int) =~= log_of(rest).subrange(0, k - n));
        }
    }
}

/// How many records of `recs` lie whole within the first `k` bytes.
pub open spec fn kept_count(recs: Seq<(Seq<char>, Seq<char>)>, k: int) -> int
    decreases recs.len(),
{
    if recs.len() == 0 {
        0
    } else {
        let n = record_bytes(recs[0].0, recs[0].1).len() as int;
        if n <= k {
            1 + kept_count(recs.drop_first(), k - n)
        } else {
            0
        }
    }
}

proof fn lemma_offset_step(recs: Seq<(Seq<char>, Seq<char>)>, m: int)
    requires
        0 < m <= recs.len(),
    ensures
        offset_of(recs, m) == record_bytes(recs[0].0, recs[0].1).len() + offset_of(recs.drop_first(), m - 1),
{
    assert(recs.subrange(0, m).drop_first() =~= recs.drop_first().subrange(0, m - 1));
    assert(recs.subrange(0, m)[0] == recs[0]);
}

proof fn lemma_kept_records(recs: Seq<(Seq<char>, Seq<char>)>, k: int, base: int)
    ensures
        0 <= kept_count(recs, k) <= recs.len(),
        kept_len(recs, k) == log_of(recs.subrange(0, kept_count(recs, k))).len(),
        kept(recs, k, base).len() == kept_count(recs, k),
        forall|m: int| 0 <= m < kept_count(recs, k) ==> #[trigger] kept(recs, k, base)[m] == (
            recs[m].0,
            base + offset_of(recs, m),
        ),
    decreases recs.len(),
{
    if recs.len() == 0 {
        assert(recs.subrange(0, 0) =~= recs);
    } else {
        let n = record_bytes(recs[0].0, recs[0].1).len() as int;
        let rest = recs.drop_first();
        if n <= k {
            lemma_kept_records(rest, k - n, base + n);
            let c = kept_count(recs, k);
            assert(recs.subrange(0, c).drop_first() =~= rest.subrange(0, c - 1));
            assert(recs.subrange(0, c)[0] == recs[0]);
            assert forall|m: int| 0 <= m < c implies #[trigger] kept(recs, k, base)[m] == (
                recs[m].0,
                base + offset_of(recs, m),
            ) by {
                if m == 0 {
                    assert(recs.subrange(0, 0) =~= Seq::<(Seq<char>, Seq<char>)>::empty());
                } else {
                    lemma_offset_step(recs, m);
                    assert(kept(recs, k, base)[m] == kept(rest, k - n, base + n)[m - 1]);
                }
            }
        } else {
            assert(recs.subrange(0, 0) =~= Seq::<(Seq<char>, Seq<char>)>::empty());
        }
    }
}

/// Recovery after a crash: if a log written by appending records (tags
/// without tab or newline) loses every byte after its first `k`, opening
/// it again finds exactly the records whose final newline is among those
/// `k` bytes (the first `kept_count` of them), at the offsets where they
/// were written; the good part, `kept_len` bytes, is the log of just
/// those records, and reading at each kept offset in it gives its record
/// back; whatever follows, a partial line, is reported as an incomplete
/// tail at that point (nothing is reported when no byte follows).
pub proof fn lemma_recovery(recs: Seq<(Seq<char>, Seq<char>)>, k: int)
    requires
        0 <= k <= log_of(recs).len(),
        forall|j: int| 0 <= j < recs.len() ==> plain_tag(#[trigger] recs[j].0),
    ensures
        scan(log_of(recs).subrange(0, k), 0) == (
            kept(recs, k, 0),
            kept_len(recs, k),
            if kept_len(recs, k) < k {
                Some((kept_len(recs, k), CorruptionReason::IncompleteTail))
            } else {
                None
            },
        ),
        0 <= kept_len(recs, k) <= k,
        0 <= kept_count(recs, k) <= recs.len(),
        log_of(recs).subrange(0, kept_len(recs, k)) == log_of(recs.subrange(0, kept_count(recs, k))),
        kept(recs, k, 0).len() == kept_count(recs, k),
        forall|m: int| 0 <= m < kept_count(recs, k) ==> #[trigger] kept(recs, k, 0)[m] == (
            recs[m].0,
            offset_of(recs, m),
        ),
        forall|m: int| 0 <= m < kept_count(recs, k) ==> read_at(
            log_of(recs).subrange(0, kept_len(recs, k)),
            #[trigger] offset_of(recs, m),
        ) == Some((recs[m].0, recs[m].1, checksum_of(record_body(recs[m].0, recs[m].1)))),
{
    lemma_recovery_from(recs, k, 0);
    lemma_kept_records(recs, k, 0);
    let c = kept_count(recs, k);
    let head = recs.subrange(0, c);
    lemma_log_split(recs, c);
    assert(log_of(recs).subrange(0, kept_len(recs, k)) =~= log_of(head));
    assert forall|m: int| 0 <= m < c implies read_at(
        log_of(recs).subrange(0, kept_len(recs, k)),
        #[trigger] offset_of(recs, m),
    ) == Some((recs[m].0, recs[m].1, checksum_of(record_body(recs[m].0, recs[m].1)))) by {
        assert forall|j: int| 0 <= j < head.len() implies plain_tag(#[trigger] head[j].0) by {
            assert(head[j] == recs[j]);
        }
        lemma_round_trip(Seq::empty(), head, m);
        assert(head.subrange(0, m) =~= recs.subrange(0, m));
        assert(Seq::<u8>::empty() + log_of(head) =~= log_of(head));
        assert(head[m] == recs[m]);
    }
}

} // verus!
