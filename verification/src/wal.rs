//! Write-ahead log records.
//!
//! The log is a sequence of records `[checksum: u32][length: u32][data]`, the two
//! numbers little-endian, the checksum the CRC-32 (IEEE) of the data. Reading the log back
//! stops at the first record that is cut short (a write that did not finish) and
//! reports the first record whose checksum does not match.

use crate::error::{decimal, push_decimal, Error};
use vstd::bytes::{spec_u32_from_le_bytes, spec_u32_to_le_bytes, u32_from_le_bytes, u32_to_le_bytes};
use vstd::prelude::*;
use vstd::slice::{slice_subrange, slice_to_vec};

verus! {

broadcast use vstd::seq::group_seq_axioms;

/// One shift of the reflected CRC-32 register: the IEEE polynomial 0xEDB88320 is
/// folded in when the bit shifted out is set.
pub open spec fn crc_shift(c: u32) -> u32 {
    if c & 1 == 1 {
        (c >> 1u32) ^ 0xEDB8_8320u32
    } else {
        c >> 1u32
    }
}

/// `k` shifts of the register.
pub open spec fn crc_shifts(c: u32, k: nat) -> u32
    decreases k,
{
    if k == 0 {
        c
    } else {
        crc_shifts(crc_shift(c), (k - 1) as nat)
    }
}

/// The CRC-32 register after the bytes of `data`, starting from all ones.
pub open spec fn crc_register(data: Seq<u8>) -> u32
    decreases data.len(),
{
    if data.len() == 0 {
        0xFFFF_FFFFu32
    } else {
        crc_shifts(crc_register(data.drop_last()) ^ (data.last() as u32), 8)
    }
}

/// CRC-32 (IEEE 802.3, reflected, as in zlib and gzip) of `data`.
pub open spec fn crc32(data: Seq<u8>) -> u32 {
    crc_register(data) ^ 0xFFFF_FFFFu32
}

/// Checksum of record data: its CRC-32 (IEEE).
pub fn checksum_ieee(data: &[u8]) -> (r: u32)
    ensures
        r == crc32(data@),
{
    let mut c: u32 = 0xFFFF_FFFF;
    let mut i: usize = 0;
    while i < data.len()
        invariant
            i <= data@.len(),
            c == crc_register(data@.take(i as int)),
        decreases data@.len() - i,
    {
        assert(data@.take(i + 1).drop_last() =~= data@.take(i as int));
        let ghost start = c ^ (data@[i as int] as u32);
        c = c ^ (data[i] as u32);
        let mut k: u32 = 0;
        while k < 8
            invariant
                k <= 8,
                crc_shifts(c, (8 - k) as nat) == crc_shifts(start, 8),
            decreases 8 - k,
        {
            if c & 1 == 1 {
                c = (c >> 1) ^ 0xEDB8_8320;
            } else {
                c = c >> 1;
            }
            k = k + 1;
        }
        i = i + 1;
    }
    assert(data@.take(data@.len() as int) =~= data@);
    c ^ 0xFFFF_FFFF
}

/// The bytes of one record holding `data`.
pub open spec fn frame(data: Seq<u8>) -> Seq<u8> {
    spec_u32_to_le_bytes(crc32(data)) + spec_u32_to_le_bytes(data.len() as u32) + data
}

/// The bytes of records holding `payloads`, one after the other.
pub open spec fn frames(payloads: Seq<Seq<u8>>) -> Seq<u8>
    decreases payloads.len(),
{
    if payloads.len() == 0 {
        Seq::empty()
    } else {
        frame(payloads[0]) + frames(payloads.drop_first())
    }
}

/// Encode one log record holding `data` (its length is stored cut to 32 bits).
pub fn frame_record(data: &[u8]) -> (r: Vec<u8>)
    ensures
        r@ == frame(data@),
{
    let checksum = checksum_ieee(data);
    let mut out = u32_to_le_bytes(checksum);
    let mut len_bytes = u32_to_le_bytes(#[verifier::truncate] (data.len() as u32));
    let mut body = slice_to_vec(data);
    out.append(&mut len_bytes);
    out.append(&mut body);
    out
}

/// The little-endian `u32` at `pos`.
pub open spec fn u32_at(log: Seq<u8>, pos: int) -> u32 {
    spec_u32_from_le_bytes(log.subrange(pos, pos + 4))
}

/// What reading the record at `pos` gives.
pub enum ScanStep {
    /// No complete record starts here.
    Stop,
    /// A record with its data, and the position after it.
    Record(Seq<u8>, int),
    /// A complete record whose stored checksum differs from the computed one.
    Mismatch(u32, u32),
}

/// Reading the record at `pos`: its checksum and length, then its data.
pub open spec fn scan_step(log: Seq<u8>, pos: int) -> ScanStep {
    if log.len() - pos < 8 {
        ScanStep::Stop
    } else {
        let n = u32_at(log, pos + 4);
        if log.len() - pos - 8 < n {
            ScanStep::Stop
        } else {
            let data = log.subrange(pos + 8, pos + 8 + n);
            let stored = u32_at(log, pos);
            if stored != crc32(data) {
                ScanStep::Mismatch(stored, crc32(data))
            } else {
                ScanStep::Record(data, pos + 8 + n)
            }
        }
    }
}

/// What reading a log gives: the records read, and the checksum mismatch that stopped
/// the reading, if one did.
pub struct LogScan {
    pub records: Seq<Seq<u8>>,
    pub mismatch: Option<(u32, u32)>,
}

/// Reading the log from `pos`.
pub open spec fn scan_from(log: Seq<u8>, pos: int) -> LogScan
    decreases log.len() - pos,
{
    if pos < 0 || pos >= log.len() {
        LogScan { records: Seq::empty(), mismatch: None }
    } else {
        match scan_step(log, pos) {
            ScanStep::Stop => LogScan { records: Seq::empty(), mismatch: None },
            ScanStep::Mismatch(stored, computed) => LogScan {
                records: Seq::empty(),
                mismatch: Some((stored, computed)),
            },
            ScanStep::Record(data, next) => if pos < next {
                let rest = scan_from(log, next);
                LogScan { records: seq![data] + rest.records, mismatch: rest.mismatch }
            } else {
                LogScan { records: Seq::empty(), mismatch: None }
            },
        }
    }
}

/// Reading a whole log.
pub open spec fn scan_log(log: Seq<u8>) -> LogScan {
    scan_from(log, 0)
}

/// Text of the error for a record whose checksum does not match: the log's reading
/// wraps the corruption text once more.
pub open spec fn mismatch_text(stored: u32, computed: u32) -> Seq<char> {
    "WAL corruption: checksum mismatch: stored="@ + decimal(stored as nat) + ", computed="@ + decimal(
        computed as nat,
    )
}

fn mismatch_message(stored: u32, computed: u32) -> (r: String)
    ensures
        r@ == mismatch_text(stored, computed),
{
    let mut m = "WAL corruption: checksum mismatch: stored=".to_owned();
    push_decimal(&mut m, stored as u64);
    m.append(", computed=");
    push_decimal(&mut m, computed as u64);
    m
}

/// The records read from a log, and the error that stopped the reading, if any.
#[derive(Debug)]
pub struct WalScan {
    pub payloads: Vec<Vec<u8>>,
    pub corruption: Option<Error>,
}

/// The data of each payload.
pub open spec fn payload_views(v: Seq<Vec<u8>>) -> Seq<Seq<u8>> {
    v.map_values(|p: Vec<u8>| p@)
}

/// Whether `r` is the outcome of reading `log`.
pub open spec fn wal_scan_matches(log: Seq<u8>, r: WalScan) -> bool {
    &&& payload_views(r.payloads@) == scan_log(log).records
    &&& match scan_log(log).mismatch {
        None => r.corruption is None,
        Some((stored, computed)) => r.corruption matches Some(Error::WalCorruption(m)) && m@
            == mismatch_text(stored, computed),
    }
}

/// Read the records of a log: stop at the first record that is cut short, and at the
/// first record whose checksum does not match, which is reported as corruption.
pub fn parse_wal(log: &[u8]) -> (r: WalScan)
    ensures
        wal_scan_matches(log@, r),
{
    let mut payloads: Vec<Vec<u8>> = Vec::new();
    let mut pos: usize = 0;
    let ghost whole = scan_log(log@);
    loop
        invariant
            pos <= log@.len(),
            whole == scan_log(log@),
            whole.records == payload_views(payloads@) + scan_from(log@, pos as int).records,
            whole.mismatch == scan_from(log@, pos as int).mismatch,
        decreases log@.len() - pos,
    {
        let remaining = log.len() - pos;
        if remaining < 8 {
            assert(payload_views(payloads@) + Seq::<Seq<u8>>::empty() =~= payload_views(payloads@));
            return WalScan { payloads, corruption: None };
        }
        let stored = u32_from_le_bytes(slice_subrange(log, pos, pos + 4));
        let n = u32_from_le_bytes(slice_subrange(log, pos + 4, pos + 8));
        if remaining - 8 < n as usize {
            assert(payload_views(payloads@) + Seq::<Seq<u8>>::empty() =~= payload_views(payloads@));
            return WalScan { payloads, corruption: None };
        }
        let next = pos + 8 + n as usize;
        let data = slice_subrange(log, pos + 8, next);
        let computed = checksum_ieee(data);
        if stored != computed {
            assert(payload_views(payloads@) + Seq::<Seq<u8>>::empty() =~= payload_views(payloads@));
            let m = mismatch_message(stored, computed);
            return WalScan { payloads, corruption: Some(Error::WalCorruption(m)) };
        }
        let ghost prev = payload_views(payloads@);
        payloads.push(slice_to_vec(data));
        assert(payload_views(payloads@) =~= prev.push(data@));
        assert(scan_from(log@, pos as int).records =~= seq![data@] + scan_from(log@, next as int).records);
        assert(prev + (seq![data@] + scan_from(log@, next as int).records) =~= prev.push(data@)
            + scan_from(log@, next as int).records);
        pos = next;
    }
}

/// A record that was cut short: fewer bytes than a whole record of `data`.
pub open spec fn cut_short(tail: Seq<u8>, data: Seq<u8>) -> bool {
    data.len() <= u32::MAX && tail.len() < frame(data).len() && tail == frame(data).take(
        tail.len() as int,
    )
}

/// The first eight bytes of a record hold its checksum and its length.
proof fn lemma_frame_fields(log: Seq<u8>, pos: int, data: Seq<u8>, k: int)
    requires
        data.len() <= u32::MAX,
        0 <= pos,
        8 <= k <= frame(data).len(),
        pos + k <= log.len(),
        log.subrange(pos, pos + k) == frame(data).take(k),
    ensures
        u32_at(log, pos) == crc32(data),
        u32_at(log, pos + 4) == data.len(),
{
    vstd::bytes::lemma_auto_spec_u32_to_from_le_bytes();
    let f = frame(data);
    let a = spec_u32_to_le_bytes(crc32(data));
    let b = spec_u32_to_le_bytes(data.len() as u32);
    assert(f == a + b + data);
    assert(log.subrange(pos, pos + 4) =~= a) by {
        assert forall|i: int| 0 <= i < 4 implies log.subrange(pos, pos + 4)[i] == a[i] by {
            assert(log.subrange(pos, pos + k)[i] == f[i]);
        }
    }
    assert(log.subrange(pos + 4, pos + 8) =~= b) by {
        assert forall|i: int| 0 <= i < 4 implies log.subrange(pos + 4, pos + 8)[i] == b[i] by {
            assert(log.subrange(pos, pos + k)[4 + i] == f[4 + i]);
            assert(f[4 + i] == (a + b)[4 + i]);
        }
    }
}

/// Scanning whole records, then at most one cut-short record, gives their data.
proof fn lemma_scan_frames_from(log: Seq<u8>, pos: int, payloads: Seq<Seq<u8>>, tail: Seq<u8>, d: Seq<u8>)
    requires
        0 <= pos <= log.len(),
        forall|i: int| 0 <= i < payloads.len() ==> #[trigger] payloads[i].len() <= u32::MAX,
        tail.len() == 0 || cut_short(tail, d),
        log.subrange(pos, log.len() as int) == frames(payloads) + tail,
    ensures
        scan_from(log, pos) == (LogScan { records: payloads, mismatch: None }),
    decreases payloads.len(),
{
    vstd::bytes::lemma_auto_spec_u32_to_from_le_bytes();
    let rest = log.subrange(pos, log.len() as int);
    if payloads.len() == 0 {
        assert(frames(payloads) + tail =~= tail);
        if pos < log.len() && log.len() - pos >= 8 {
            let k = tail.len() as int;
            assert(log.subrange(pos, pos + k) =~= frame(d).take(k));
            lemma_frame_fields(log, pos, d, k);
            assert(spec_u32_to_le_bytes(crc32(d)).len() == 4);
            assert(spec_u32_to_le_bytes(d.len() as u32).len() == 4);
            assert(frame(d).len() == 8 + d.len());
        }
        assert(payloads =~= Seq::<Seq<u8>>::empty());
    } else {
        let p0 = payloads[0];
        let f = frame(p0);
        let others = frames(payloads.drop_first()) + tail;
        assert(rest =~= f + others);
        assert(spec_u32_to_le_bytes(crc32(p0)).len() == 4);
        assert(spec_u32_to_le_bytes(p0.len() as u32).len() == 4);
        assert(f.len() == 8 + p0.len());
        assert(log.subrange(pos, pos + f.len()) =~= f.take(f.len() as int)) by {
            assert forall|i: int| 0 <= i < f.len() implies log.subrange(pos, pos + f.len())[i]
                == f[i] by {
                assert(log.subrange(pos, pos + f.len())[i] == rest[i]);
            }
        }
        lemma_frame_fields(log, pos, p0, f.len() as int);
        let next = pos + f.len();
        assert(log.subrange(pos + 8, next) =~= p0) by {
            assert forall|i: int| 0 <= i < p0.len() implies log.subrange(pos + 8, next)[i]
                == p0[i] by {
                assert(log.subrange(pos + 8, next)[i] == rest[8 + i]);
                assert(f[8 + i] == p0[i]);
            }
        }
        assert(log.subrange(next, log.len() as int) =~= others) by {
            assert forall|i: int| 0 <= i < others.len() implies log.subrange(next, log.len() as int)[i]
                == others[i] by {
                assert(log.subrange(next, log.len() as int)[i] == rest[f.len() + i]);
            }
        }
        lemma_scan_frames_from(log, next, payloads.drop_first(), tail, d);
        assert(seq![p0] + payloads.drop_first() =~= payloads);
    }
}

/// Reading back a log of whole records gives their data, in order and without error;
/// a last record that was cut short is left out.
pub proof fn lemma_wal_round_trip(payloads: Seq<Seq<u8>>, tail: Seq<u8>, d: Seq<u8>)
    requires
        forall|i: int| 0 <= i < payloads.len() ==> #[trigger] payloads[i].len() <= u32::MAX,
        tail.len() == 0 || cut_short(tail, d),
    ensures
        scan_log(frames(payloads) + tail) == (LogScan { records: payloads, mismatch: None }),
{
    let log = frames(payloads) + tail;
    assert(log.subrange(0, log.len() as int) =~= log);
    lemma_scan_frames_from(log, 0, payloads, tail, d);
}

} // verus!
