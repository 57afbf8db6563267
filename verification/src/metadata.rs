//! MFT records: header, fixup array, attributes and run-list decoding.
//!
//! All parsers here are pure functions over the bytes of one record (or
//! of a run list); the facade reads the bytes from the volume and hands
//! them in. Every field is little-endian.
use vstd::prelude::*;

use crate::bytes::le_bytes_at;
use crate::bytes::le_signed_at;
use crate::bytes::lemma_le_bytes_bound;
use crate::bytes::lemma_pow256_vals;
use crate::bytes::read_u16_le;
use crate::bytes::read_u32_le;
use crate::bytes::read_u64_le;
use crate::bytes::read_uint_le;
use crate::bytes::read_sint_le;
use crate::content::Content;
use crate::content::ContentReader;
use crate::content::content_reader;
use crate::content::DataRun;
use crate::content::lemma_pairs_total_nonneg;
use crate::content::lemma_pairs_total_step;
use crate::content::lemma_pairs_total_take_le;
use crate::content::load_runs;
use crate::content::pairs_total;
use crate::content::runs_total;
use crate::content::runs_wf;
use crate::content::spec_runs_of;
use crate::device::ByteSource;
use crate::error::Error;

verus! {

/// The fixed-size header of an MFT record.
#[derive(Debug, Clone, Copy)]
pub struct MFTHeader {
    pub fixup_offset: u16,
    pub fixup_entries: u16,
    pub attr_offset: u16,
    pub flags: u16,
    pub used_size: u32,
    pub alloc_size: u32,
}

/// The record signature: the bytes `"FILE"`.
pub open spec fn sig_ok(s: Seq<u8>) -> bool {
    &&& s.len() >= 4
    &&& s[0] == 70
    &&& s[1] == 73
    &&& s[2] == 76
    &&& s[3] == 69
}

/// The header fields of a record, at their fixed offsets.
pub open spec fn spec_mft_header(s: Seq<u8>) -> MFTHeader {
    MFTHeader {
        fixup_offset: le_bytes_at(s, 4, 2) as u16,
        fixup_entries: le_bytes_at(s, 6, 2) as u16,
        attr_offset: le_bytes_at(s, 20, 2) as u16,
        flags: le_bytes_at(s, 22, 2) as u16,
        used_size: le_bytes_at(s, 24, 4) as u32,
        alloc_size: le_bytes_at(s, 28, 4) as u32,
    }
}

/// Parses the header of an MFT record: the signature must read `"FILE"`
/// (anything else is fatal for the entry), and the fixed header fields
/// must lie within the record.
pub fn parse_mft_header(rec: &[u8]) -> (r: Result<MFTHeader, Error>)
    ensures
        r is Ok <==> rec@.len() >= 32 && sig_ok(rec@),
        r matches Ok(h) ==> h == spec_mft_header(rec@),
        r matches Err(e) ==> e == (if rec@.len() >= 4 && !sig_ok(rec@) {
            Error::FormatInvalid
        } else {
            Error::Io
        }),
{
    let n = rec.len();
    if n < 4 {
        return Err(Error::Io);
    }
    if !(rec[0] == 70 && rec[1] == 73 && rec[2] == 76 && rec[3] == 69) {
        return Err(Error::FormatInvalid);
    }
    if n < 32 {
        return Err(Error::Io);
    }
    let fixup_offset = read_u16_le(rec, 4);
    let fixup_entries = read_u16_le(rec, 6);
    let attr_offset = read_u16_le(rec, 20);
    let flags = read_u16_le(rec, 22);
    let used_size = read_u32_le(rec, 24);
    let alloc_size = read_u32_le(rec, 28);
    proof {
        lemma_pow256_vals();
        lemma_le_bytes_bound(rec@, 4, 2);
        lemma_le_bytes_bound(rec@, 6, 2);
        lemma_le_bytes_bound(rec@, 20, 2);
        lemma_le_bytes_bound(rec@, 22, 2);
        lemma_le_bytes_bound(rec@, 24, 4);
        lemma_le_bytes_bound(rec@, 28, 4);
    }
    Ok(MFTHeader { fixup_offset, fixup_entries, attr_offset, flags, used_size, alloc_size })
}

/// The byte offset just past sector `e` of a record whose sectors hold
/// `ss` bytes.
pub open spec fn sector_end(ss: int, e: int) -> int {
    e * ss
}

/// The check the fixup verification makes for sector `e`: the last two
/// bytes of the sector equal the update-sequence signature.
pub open spec fn sector_check(s: Seq<u8>, ss: int, off: int, e: int) -> bool {
    &&& s[sector_end(ss, e) - 2] == s[off]
    &&& s[sector_end(ss, e) - 1] == s[off + 1]
}

/// When the fixup of a record can be verified and applied: the fixup
/// array lies within the first sector (so no sector-end position can
/// overlap it), every sector lies within the record, and every sector's
/// last two bytes equal the update-sequence signature.
pub open spec fn fixup_applies(s: Seq<u8>, ss: int, off: int, cnt: int) -> bool {
    &&& 0 <= off
    &&& off + 2 <= s.len()
    &&& cnt >= 2 ==> ss >= 2 && off + 2 * cnt <= ss - 2 && (cnt - 1) * ss <= s.len()
    &&& forall|e: int| 1 <= e < cnt ==> #[trigger] sector_check(s, ss, off, e)
}

/// The record after fixup: for each sector `e` in `1 .. cnt`, the last
/// two bytes of the sector are replaced by original value `e` of the
/// fixup array, which stands at `off + 2 * e`.
pub open spec fn fixed_up(s: Seq<u8>, ss: int, off: int, cnt: int) -> Seq<u8>
    decreases cnt,
{
    if cnt <= 1 {
        s
    } else {
        fixed_up(s, ss, off, cnt - 1).update(
            sector_end(ss, cnt - 1) - 2,
            s[off + 2 * (cnt - 1)],
        ).update(sector_end(ss, cnt - 1) - 1, s[off + 2 * (cnt - 1) + 1])
    }
}

/// Fixup does not change the length of the record.
pub proof fn lemma_fixed_up_len(s: Seq<u8>, ss: int, off: int, cnt: int)
    requires
        ss >= 2,
        cnt >= 2 ==> (cnt - 1) * ss <= s.len(),
    ensures
        fixed_up(s, ss, off, cnt).len() == s.len(),
    decreases cnt,
{
    if cnt > 1 {
        assert((cnt - 2) * ss <= (cnt - 1) * ss && 2 <= (cnt - 1) * ss) by (nonlinear_arith)
            requires
                ss >= 2 && cnt >= 2,
        ;
        lemma_fixed_up_len(s, ss, off, cnt - 1);
    }
}

/// Fixup only writes the two bytes before each sector end: every byte
/// below the end of the first sector — the whole header and fixup array
/// among them — is untouched.
pub proof fn lemma_fixed_up_low_bytes(s: Seq<u8>, ss: int, off: int, cnt: int, j: int)
    requires
        ss >= 2,
        cnt >= 2 ==> (cnt - 1) * ss <= s.len(),
        0 <= j < ss - 2 || j >= (cnt - 1) * ss,
    ensures
        fixed_up(s, ss, off, cnt).len() == s.len(),
        j < s.len() ==> fixed_up(s, ss, off, cnt)[j] == s[j],
    decreases cnt,
{
    lemma_fixed_up_len(s, ss, off, cnt);
    if cnt > 1 {
        assert((cnt - 2) * ss < (cnt - 1) * ss && ss <= (cnt - 1) * ss) by (nonlinear_arith)
            requires
                ss >= 2 && cnt >= 2,
        ;
        lemma_fixed_up_low_bytes(s, ss, off, cnt - 1, j);
    }
}

/// Fixup writes nothing but the two bytes before each sector end: a
/// position `j` that is no sector tail holds its old byte afterwards.
pub proof fn lemma_fixed_up_untouched(s: Seq<u8>, ss: int, off: int, cnt: int, j: int)
    requires
        ss >= 2,
        cnt >= 2 ==> (cnt - 1) * ss <= s.len(),
        0 <= j,
        forall|e: int|
            1 <= e < cnt ==> j != (#[trigger] sector_end(ss, e)) - 2 && j != sector_end(ss, e)
                - 1,
    ensures
        fixed_up(s, ss, off, cnt).len() == s.len(),
        j < s.len() ==> fixed_up(s, ss, off, cnt)[j] == s[j],
    decreases cnt,
{
    lemma_fixed_up_len(s, ss, off, cnt);
    if cnt > 1 {
        assert((cnt - 2) * ss <= (cnt - 1) * ss && 2 <= (cnt - 1) * ss) by (nonlinear_arith)
            requires
                ss >= 2 && cnt >= 2,
        ;
        assert(j != sector_end(ss, cnt - 1) - 2 && j != sector_end(ss, cnt - 1) - 1);
        lemma_fixed_up_untouched(s, ss, off, cnt - 1, j);
    }
}

/// After fixup, the two bytes before the end of sector `e` hold
/// original value `e` from the fixup array; the verification half of
/// the fixup law is `sector_check` inside `fixup_applies`.
pub proof fn lemma_fixed_up_restores(s: Seq<u8>, ss: int, off: int, cnt: int, e: int)
    requires
        ss >= 2,
        1 <= e < cnt,
        (cnt - 1) * ss <= s.len(),
    ensures
        fixed_up(s, ss, off, cnt).len() == s.len(),
        fixed_up(s, ss, off, cnt)[sector_end(ss, e) - 2] == s[off + 2 * e],
        fixed_up(s, ss, off, cnt)[sector_end(ss, e) - 1] == s[off + 2 * e + 1],
    decreases cnt,
{
    lemma_fixed_up_len(s, ss, off, cnt);
    assert(2 <= (cnt - 1) * ss && (cnt - 2) * ss <= (cnt - 1) * ss) by (nonlinear_arith)
        requires
            ss >= 2 && cnt >= 2,
    ;
    if e == cnt - 1 {
        lemma_fixed_up_len(s, ss, off, cnt - 1);
    } else {
        lemma_fixed_up_restores(s, ss, off, cnt - 1, e);
        assert(e * ss < (cnt - 1) * ss && (cnt - 1) * ss - e * ss >= ss && 2 <= e * ss)
            by (nonlinear_arith)
            requires
                ss >= 2 && 1 <= e < cnt - 1,
        ;
    }
}

/// Verifies and applies the fixup array of a record, in place. Every
/// sector's last two bytes must equal the update-sequence signature at
/// `fixup_offset`; they are then overwritten with the original values
/// stored in the fixup array. On any failed check or out-of-range field
/// the record is left unchanged and the entry is rejected as corrupt.
/// Applying fixup twice fails: the first application has replaced the
/// signatures, so the second no longer finds them.
pub fn fixup_buf(sector_size: u16, header: &MFTHeader, buf: &mut Vec<u8>) -> (r: Result<
    (),
    Error,
>)
    ensures
        ({
            let ss = sector_size as int;
            let off = header.fixup_offset as int;
            let cnt = header.fixup_entries as int;
            &&& (r is Ok <==> fixup_applies(old(buf)@, ss, off, cnt))
            &&& (r is Ok ==> final(buf)@ == fixed_up(old(buf)@, ss, off, cnt))
            &&& (r is Err ==> final(buf)@ == old(buf)@ && r == Err::<(), Error>(
                Error::FormatInvalid,
            ))
        }),
{
    let ghost s0 = buf@;
    let ghost ss = sector_size as int;
    let off = header.fixup_offset as usize;
    let cnt = header.fixup_entries as usize;
    let n = buf.len();
    if off + 2 > n {
        return Err(Error::FormatInvalid);
    }
    if cnt >= 2 {
        if sector_size < 2 {
            return Err(Error::FormatInvalid);
        }
        if (off as u64) + 2 * (cnt as u64) > (sector_size as u64) - 2 {
            return Err(Error::FormatInvalid);
        }
        proof {
            assert((cnt - 1) * ss <= 0xFFFF * 0xFFFF) by (nonlinear_arith)
                requires
                    2 <= cnt <= 0xFFFF && 0 <= ss <= 0xFFFF,
            ;
        }
        if ((cnt as u64) - 1) * (sector_size as u64) > (n as u64) {
            return Err(Error::FormatInvalid);
        }
        // Verify every sector's trailing signature before changing
        // anything: a failed check must leave the record untouched.
        let sig0 = buf[off];
        let sig1 = buf[off + 1];
        let mut e: usize = 1;
        while e < cnt
            invariant
                1 <= e <= cnt,
                2 <= cnt,
                2 <= sector_size,
                buf@ == s0,
                s0 == old(buf)@,
                cnt == header.fixup_entries as int,
                off == header.fixup_offset as usize,
                n == s0.len(),
                ss == sector_size as int,
                off + 2 <= n,
                (cnt - 1) * ss <= n,
                sig0 == s0[off as int],
                sig1 == s0[off + 1],
                forall|k: int| 1 <= k < e ==> #[trigger] sector_check(s0, ss, off as int, k),
            decreases cnt - e,
        {
            proof {
                assert(e * ss <= (cnt - 1) * ss && ss <= e * ss) by (nonlinear_arith)
                    requires
                        ss >= 2 && 1 <= e <= cnt - 1,
                ;
            }
            let end = e * (sector_size as usize);
            if !(buf[end - 2] == sig0 && buf[end - 1] == sig1) {
                proof {
                    assert(!sector_check(s0, ss, off as int, e as int));
                }
                return Err(Error::FormatInvalid);
            }
            proof {
                assert(sector_check(s0, ss, off as int, e as int));
            }
            e = e + 1;
        }
        // Apply: replace each trailing signature with its original.
        let mut e: usize = 1;
        while e < cnt
            invariant
                1 <= e <= cnt,
                2 <= cnt,
                2 <= sector_size,
                s0 == old(buf)@,
                cnt == header.fixup_entries as int,
                off == header.fixup_offset as usize,
                n == s0.len(),
                ss == sector_size as int,
                off + 2 * cnt <= ss - 2,
                (cnt - 1) * ss <= n,
                buf@ == fixed_up(s0, ss, off as int, e as int),
            decreases cnt - e,
        {
            proof {
                assert(e * ss <= (cnt - 1) * ss && ss <= e * ss && (e - 1) * ss <= e * ss)
                    by (nonlinear_arith)
                    requires
                        ss >= 2 && 1 <= e <= cnt - 1,
                ;
                lemma_fixed_up_len(s0, ss, off as int, e as int);
                lemma_fixed_up_low_bytes(s0, ss, off as int, e as int, off + 2 * e);
                lemma_fixed_up_low_bytes(s0, ss, off as int, e as int, off + 2 * e + 1);
            }
            let end = e * (sector_size as usize);
            let o0 = buf[off + 2 * e];
            let o1 = buf[off + 2 * e + 1];
            buf.set(end - 2, o0);
            buf.set(end - 1, o1);
            e = e + 1;
        }
        Ok(())
    } else {
        // Zero or one fixup entry: there is nothing to verify or apply.
        Ok(())
    }
}


/// Reads `num_bytes <= 8` bytes of a little-endian integer field and
/// extends them to 8 bytes: with zeros, or — for a signed field whose
/// last byte has the high bit set — with `0xFF`, the two's-complement
/// sign extension. Fails with `Error::Io` when the field runs past the
/// end of the data.
pub fn read_int_bytes(num_bytes: u8, data: &[u8], pos: usize, signed: bool) -> (r: Result<
    Vec<u8>,
    Error,
>)
    requires
        num_bytes <= 8,
    ensures
        match r {
            Ok(v) => {
                &&& pos + num_bytes <= data@.len()
                &&& v@.len() == 8
                &&& forall|i: int| 0 <= i < num_bytes ==> v@[i] == data@[pos + i]
                &&& forall|i: int|
                    num_bytes <= i < 8 ==> v@[i] == (if signed && num_bytes > 0 && data@[pos
                        + num_bytes - 1] >= 128 {
                        255u8
                    } else {
                        0u8
                    })
            },
            Err(e) => e == Error::Io && pos + num_bytes > data@.len(),
        },
{
    let n = num_bytes as usize;
    let dlen = data.len();
    if pos > dlen || n > dlen - pos {
        return Err(Error::Io);
    }
    let fill: u8 = if signed && n > 0 && data[pos + n - 1] >= 128 {
        255
    } else {
        0
    };
    let mut v: Vec<u8> = Vec::new();
    let mut i: usize = 0;
    while i < n
        invariant
            i <= n <= 8,
            dlen == data@.len(),
            pos + n <= dlen,
            v@.len() == i,
            forall|j: int| 0 <= j < i ==> v@[j] == data@[pos + j],
        decreases n - i,
    {
        v.push(data[pos + i]);
        i = i + 1;
    }
    while i < 8
        invariant
            n <= i <= 8,
            pos + n <= data@.len(),
            v@.len() == i,
            forall|j: int| 0 <= j < n ==> v@[j] == data@[pos + j],
            forall|j: int| n <= j < i ==> v@[j] == fill,
        decreases 8 - i,
    {
        v.push(fill);
        i = i + 1;
    }
    Ok(v)
}

/// The run list decoded from `pos`, as `(byte offset, byte length)`
/// pairs. Each record carries the field widths in its header nibbles, a
/// cluster count and a signed cluster delta; the absolute cluster offset
/// accumulates the deltas and is scaled — like the length — by the
/// cluster size. The list ends at a zero header byte. A list that runs
/// past the end of the data without reaching that terminator is
/// `Error::FormatInvalid`; a negative absolute offset, or a run that 64
/// bits cannot address, is `Error::OutOfRange`.
pub open spec fn spec_decode_runs(s: Seq<u8>, pos: int, prev: int, cluster: int) -> Result<
    Seq<(u64, u64)>,
    Error,
>
    decreases s.len() - pos,
{
    if pos < 0 || pos >= s.len() {
        Err(Error::FormatInvalid)
    } else if s[pos] == 0 {
        Ok(Seq::empty())
    } else {
        let l = (s[pos] as int) % 16;
        let o = (s[pos] as int) / 16;
        if l > 8 || o > 8 {
            Err(Error::FormatInvalid)
        } else if pos + 1 + l + o > s.len() {
            Err(Error::FormatInvalid)
        } else {
            let len_cl = le_bytes_at(s, pos + 1, l as nat) as int;
            let lcn = prev + le_signed_at(s, pos + 1 + l, o as nat);
            if lcn < 0 || lcn > u64::MAX || (lcn + len_cl) * cluster > u64::MAX {
                Err(Error::OutOfRange)
            } else {
                match spec_decode_runs(s, pos + 1 + l + o, lcn, cluster) {
                    Err(e) => Err(e),
                    Ok(rest) => Ok(
                        seq![(((lcn * cluster) as u64), ((len_cl * cluster) as u64))] + rest,
                    ),
                }
            }
        }
    }
}


/// The outcome of decoding and loading a run list at `pos` for an
/// attribute of `size` bytes: decoding errors pass through; a decoded
/// list must be non-empty, its total must be addressable and must reach
/// `size`, and the overshoot must fit inside the last run, which is
/// trimmed by it.
pub open spec fn spec_run_list_status(s: Seq<u8>, pos: int, cluster: int, size: int) -> Result<
    (),
    Error,
> {
    match spec_decode_runs(s, pos, 0, cluster) {
        Err(e) => Err(e),
        Ok(pairs) => {
            if pairs.len() == 0 {
                Err(Error::FormatInvalid)
            } else if pairs_total(pairs) > u64::MAX {
                Err(Error::OutOfRange)
            } else if !(size <= pairs_total(pairs) && pairs_total(pairs) - size
                <= pairs.last().1) {
                Err(Error::FormatInvalid)
            } else {
                Ok(())
            }
        },
    }
}

/// Decodes the run list at `pos` and loads it into a run list of exactly
/// `size` bytes. The decoded byte lengths overshoot `size` by up to one
/// cluster's worth of slack, which is trimmed from the last run, so that
/// the result partitions `[0, size)` exactly.
#[verifier::rlimit(100)]
pub fn parse_run_list(data: &[u8], pos: usize, cluster_size: u16, size: u64) -> (r: Result<
    Vec<DataRun>,
    Error,
>)
    ensures
        ({
            let st = spec_decode_runs(data@, pos as int, 0, cluster_size as int);
            match r {
                Ok(runs) => {
                    &&& spec_run_list_status(data@, pos as int, cluster_size as int, size as int)
                        == Ok::<(), Error>(())
                    &&& st matches Ok(pairs) && runs@ == spec_runs_of(pairs, size as int)
                    &&& runs_wf(runs@)
                    &&& runs_total(runs@) == size
                },
                Err(e) => spec_run_list_status(data@, pos as int, cluster_size as int, size as int)
                    == Err::<(), Error>(e),
            }
        }),
{
    let ghost full = spec_decode_runs(data@, pos as int, 0, cluster_size as int);
    let n = data.len();
    let mut cur: usize = pos;
    let mut lcn: u64 = 0;
    let mut acc: Vec<(u64, u64)> = Vec::new();
    let cluster = cluster_size as u64;
    loop
        invariant
            n == data@.len(),
            cluster == cluster_size as u64,
            full == spec_decode_runs(data@, pos as int, 0, cluster_size as int),
            match spec_decode_runs(data@, cur as int, lcn as int, cluster_size as int) {
                Ok(rest) => full == Ok::<Seq<(u64, u64)>, Error>(acc@ + rest),
                Err(e) => full == Err::<Seq<(u64, u64)>, Error>(e),
            },
            forall|i: int|
                0 <= i < acc@.len() ==> (#[trigger] acc@[i].0) + acc@[i].1 <= u64::MAX,
        ensures
            full == Ok::<Seq<(u64, u64)>, Error>(acc@),
            forall|i: int|
                0 <= i < acc@.len() ==> (#[trigger] acc@[i].0) + acc@[i].1 <= u64::MAX,
        decreases n - cur,
    {
        if cur >= n {
            proof {
                assert(spec_decode_runs(data@, cur as int, lcn as int, cluster_size as int)
                    == Err::<Seq<(u64, u64)>, Error>(Error::FormatInvalid));
            }
            return Err(Error::FormatInvalid);
        }
        let b = data[cur];
        if b == 0 {
            proof {
                assert(spec_decode_runs(data@, cur as int, lcn as int, cluster_size as int)
                    == Ok::<Seq<(u64, u64)>, Error>(Seq::empty()));
                assert(acc@ + Seq::<(u64, u64)>::empty() =~= acc@);
            }
            break ;
        }
        let l = (b % 16) as usize;
        let o = (b / 16) as usize;
        if l > 8 || o > 8 {
            return Err(Error::FormatInvalid);
        }
        if l + o > (n - (cur + 1)) {
            proof {
                assert(cur + 1 + l + o > data@.len());
            }
            return Err(Error::FormatInvalid);
        }
        let len_cl = read_uint_le(data, cur + 1, l);
        let sd = read_sint_le(data, cur + 1 + l, o);
        let ghost lcn0 = lcn as int;
        let ghost delta = le_signed_at(data@, cur + 1 + l, o as nat);
        let ghost lcn_spec = lcn0 + delta;
        if sd.0 {
            if sd.1 > lcn {
                proof {
                    assert(lcn_spec < 0);
                }
                return Err(Error::OutOfRange);
            }
            lcn = lcn - sd.1;
        } else {
            if sd.1 > u64::MAX - lcn {
                proof {
                    assert(lcn_spec > u64::MAX);
                }
                return Err(Error::OutOfRange);
            }
            lcn = lcn + sd.1;
        }
        proof {
            assert(lcn == lcn_spec);
            crate::bytes::lemma_le_bytes_bound(data@, cur + 1, l as nat);
            crate::bytes::lemma_pow256_increases(l as nat, 8);
            crate::bytes::lemma_pow256_vals();
        }
        let pair: (u64, u64);
        if cluster == 0 {
            proof {
                assert((lcn_spec + len_cl) * (cluster_size as int) == 0) by (nonlinear_arith)
                    requires
                        cluster_size as int == 0,
                ;
            }
            pair = (0, 0);
        } else {
            if len_cl > u64::MAX - lcn {
                proof {
                    assert((lcn_spec + len_cl) * (cluster_size as int) >= lcn_spec + len_cl)
                        by (nonlinear_arith)
                        requires
                            cluster_size as int >= 1 && lcn_spec + len_cl >= 0,
                    ;
                }
                return Err(Error::OutOfRange);
            }
            let endc = lcn + len_cl;
            if endc > u64::MAX / cluster {
                proof {
                    assert((endc as int) * (cluster as int) > u64::MAX) by (nonlinear_arith)
                        requires
                            cluster as int >= 1 && endc as int > (u64::MAX as int) / (
                            cluster as int) && (u64::MAX as int) / (cluster as int) >= 0,
                ;
                }
                return Err(Error::OutOfRange);
            }
            proof {
                assert((endc as int) * (cluster as int) <= u64::MAX) by (nonlinear_arith)
                    requires
                        cluster as int >= 1 && 0 <= endc as int <= (u64::MAX as int) / (
                        cluster as int),
                ;
                assert((lcn as int) * (cluster as int) + (len_cl as int) * (cluster as int) == (
                endc as int) * (cluster as int)) by (nonlinear_arith)
                    requires
                        endc as int == lcn as int + len_cl as int,
                ;
                assert((lcn as int) * (cluster as int) >= 0 && (len_cl as int) * (cluster as int)
                    >= 0) by (nonlinear_arith)
                    requires
                        lcn as int >= 0 && len_cl as int >= 0 && cluster as int >= 0,
                ;
            }
            pair = (lcn * cluster, len_cl * cluster);
        }
        let ghost acc0 = acc@;
        acc.push(pair);
        proof {
            let cl = cluster_size as int;
            let rest_at_new = spec_decode_runs(data@, cur + 1 + l + o, lcn as int, cl);
            assert(spec_decode_runs(data@, cur as int, lcn0, cl) == (match rest_at_new {
                Err(e) => Err::<Seq<(u64, u64)>, Error>(e),
                Ok(rest) => Ok::<Seq<(u64, u64)>, Error>(seq![pair] + rest),
            }));
            match rest_at_new {
                Err(e) => {},
                Ok(rest) => {
                    assert(acc0 + (seq![pair] + rest) =~= acc@ + rest);
                },
            }
        }
        cur = cur + 1 + l + o;
    }
    if acc.len() == 0 {
        return Err(Error::FormatInvalid);
    }
    let m = acc.len();
    let mut tot: u64 = 0;
    let mut i: usize = 0;
    while i < m
        invariant
            m == acc@.len(),
            m >= 1,
            i <= m,
            tot == pairs_total(acc@.take(i as int)),
            full == Ok::<Seq<(u64, u64)>, Error>(acc@),
            full == spec_decode_runs(data@, pos as int, 0, cluster_size as int),
            forall|k: int|
                0 <= k < acc@.len() ==> (#[trigger] acc@[k].0) + acc@[k].1 <= u64::MAX,
        decreases m - i,
    {
        proof {
            lemma_pairs_total_step(acc@, i as int);
            lemma_pairs_total_nonneg(acc@.take(i as int));
        }
        if acc[i].1 > u64::MAX - tot {
            proof {
                lemma_pairs_total_take_le(acc@, i + 1);
            }
            return Err(Error::OutOfRange);
        }
        tot = tot + acc[i].1;
        i = i + 1;
    }
    proof {
        assert(acc@.take(m as int) =~= acc@);
    }
    if size > tot {
        return Err(Error::FormatInvalid);
    }
    let last_len = acc[m - 1].1;
    proof {
        assert(acc@[m - 1] == acc@.last());
    }
    if tot - size > last_len {
        return Err(Error::FormatInvalid);
    }
    Ok(load_runs(acc, size))
}


/// One attribute of an MFT record.
#[derive(Debug)]
pub struct MFTAttr {
    pub attr_type: u32,
    pub length: u32,
    pub name_length: u8,
    pub name_offset: u16,
    pub flags: u16,
    pub attr_id: u16,
    pub content: Content,
}

/// `a` is exactly the attribute encoded at `p`: the header fields at
/// their fixed offsets, and the content read residently from within the
/// record or decoded from the run list the record points at.
pub open spec fn spec_attr_wf(s: Seq<u8>, p: int, cluster: int, a: MFTAttr) -> bool {
    &&& p + 16 <= s.len()
    &&& a.attr_type == le_bytes_at(s, p, 4) as u32
    &&& a.length == le_bytes_at(s, p + 4, 4) as u32
    &&& a.name_length == s[p + 9]
    &&& a.name_offset == le_bytes_at(s, p + 10, 2) as u16
    &&& a.flags == le_bytes_at(s, p + 12, 2) as u16
    &&& a.attr_id == le_bytes_at(s, p + 14, 2) as u16
    &&& if s[p + 8] == 0 {
        a.content matches Content::Resident { data } && data@ == s.subrange(
            p + le_bytes_at(s, p + 20, 2),
            p + le_bytes_at(s, p + 20, 2) + le_bytes_at(s, p + 16, 4),
        )
    } else {
        a.content matches Content::NonResident {
            run_start_vcn,
            run_end_vcn,
            alloc_size,
            size,
            runs,
        } && run_start_vcn == le_bytes_at(s, p + 16, 8) as u64 && run_end_vcn == le_bytes_at(
            s,
            p + 24,
            8,
        ) as u64 && alloc_size == le_bytes_at(s, p + 40, 8) as u64 && size == le_bytes_at(
            s,
            p + 48,
            8,
        ) as u64 && (spec_decode_runs(s, p + le_bytes_at(s, p + 32, 2), 0, cluster) matches Ok(
            pairs,
        ) && runs@ == spec_runs_of(pairs, le_bytes_at(s, p + 48, 8) as int)) && runs_wf(runs@)
            && runs_total(runs@) == le_bytes_at(s, p + 48, 8)
    }
}

/// Whether the attribute at `p` parses, and with which error it fails:
/// a header or resident content that runs past the record is `Error::Io`;
/// a non-resident attribute fails as its run list does.
pub open spec fn spec_attr_status(s: Seq<u8>, p: int, cluster: int) -> Result<(), Error> {
    if p + 16 > s.len() {
        Err(Error::Io)
    } else if s[p + 8] == 0 {
        if p + 22 > s.len() {
            Err(Error::Io)
        } else if p + le_bytes_at(s, p + 20, 2) + le_bytes_at(s, p + 16, 4) > s.len() {
            Err(Error::Io)
        } else {
            Ok(())
        }
    } else {
        if p + 56 > s.len() {
            Err(Error::Io)
        } else {
            spec_run_list_status(
                s,
                p + le_bytes_at(s, p + 32, 2),
                cluster,
                le_bytes_at(s, p + 48, 8) as int,
            )
        }
    }
}

/// Parses the attribute at `pos`: the common header, then resident
/// content copied from within the record, or the decoded run list of
/// non-resident content.
#[verifier::rlimit(100)]
pub fn parse_mft_attr(data: &[u8], pos: usize, cluster_size: u16) -> (r: Result<MFTAttr, Error>)
    ensures
        r matches Ok(a) ==> spec_attr_status(data@, pos as int, cluster_size as int) == Ok::<
            (),
            Error,
        >(()) && spec_attr_wf(data@, pos as int, cluster_size as int, a),
        r matches Err(e) ==> spec_attr_status(data@, pos as int, cluster_size as int) == Err::<
            (),
            Error,
        >(e),
{
    let n = data.len();
    if pos > n || n - pos < 16 {
        return Err(Error::Io);
    }
    proof {
        lemma_pow256_vals();
        lemma_le_bytes_bound(data@, pos as int, 4);
        lemma_le_bytes_bound(data@, pos + 4, 4);
        lemma_le_bytes_bound(data@, pos + 10, 2);
        lemma_le_bytes_bound(data@, pos + 12, 2);
        lemma_le_bytes_bound(data@, pos + 14, 2);
    }
    let attr_type = read_u32_le(data, pos);
    let length = read_u32_le(data, pos + 4);
    let non_resident = data[pos + 8];
    let name_length = data[pos + 9];
    let name_offset = read_u16_le(data, pos + 10);
    let flags = read_u16_le(data, pos + 12);
    let attr_id = read_u16_le(data, pos + 14);
    let content: Content;
    if non_resident == 0 {
        if n - pos < 22 {
            return Err(Error::Io);
        }
        proof {
            lemma_le_bytes_bound(data@, pos + 16, 4);
            lemma_le_bytes_bound(data@, pos + 20, 2);
        }
        let csize = read_u32_le(data, pos + 16);
        let coff = read_u16_le(data, pos + 20);
        if (coff as u64) + (csize as u64) > ((n - pos) as u64) {
            return Err(Error::Io);
        }
        let start = pos + (coff as usize);
        let m = csize as usize;
        let mut d: Vec<u8> = Vec::new();
        let mut i: usize = 0;
        while i < m
            invariant
                i <= m,
                start + m <= n,
                n == data@.len(),
                d@.len() == i,
                d@ == data@.subrange(start as int, start + i),
            decreases m - i,
        {
            d.push(data[start + i]);
            proof {
                assert(d@ =~= data@.subrange(start as int, start + i + 1));
            }
            i = i + 1;
        }
        content = Content::Resident { data: d };
    } else {
        if n - pos < 56 {
            return Err(Error::Io);
        }
        proof {
            lemma_le_bytes_bound(data@, pos + 16, 8);
            lemma_le_bytes_bound(data@, pos + 24, 8);
            lemma_le_bytes_bound(data@, pos + 32, 2);
            lemma_le_bytes_bound(data@, pos + 40, 8);
            lemma_le_bytes_bound(data@, pos + 48, 8);
        }
        let run_start_vcn = read_u64_le(data, pos + 16);
        let run_end_vcn = read_u64_le(data, pos + 24);
        let run_offset = read_u16_le(data, pos + 32);
        let alloc_size = read_u64_le(data, pos + 40);
        let size = read_u64_le(data, pos + 48);
        if (run_offset as usize) > n - pos {
            proof {
                assert(spec_decode_runs(
                    data@,
                    pos + le_bytes_at(data@, pos + 32, 2),
                    0,
                    cluster_size as int,
                ) == Err::<Seq<(u64, u64)>, Error>(Error::FormatInvalid));
            }
            return Err(Error::FormatInvalid);
        }
        let runs = match parse_run_list(data, pos + (run_offset as usize), cluster_size, size) {
            Ok(rs) => rs,
            Err(e) => {
                return Err(e);
            },
        };
        content = Content::NonResident { run_start_vcn, run_end_vcn, alloc_size, size, runs };
    }
    Ok(MFTAttr { attr_type, length, name_length, name_offset, flags, attr_id, content })
}


/// The positions of the attributes of a record, walked from
/// `attr_offset`: each attribute advances by its own `length` field, and
/// the walk ends at the sentinel `0xFFFFFFFF` filling the 32-bit type
/// slot. An attribute whose `length` is 0 would never advance and is
/// rejected.
pub open spec fn spec_attr_list(s: Seq<u8>, p: int, cluster: int) -> Result<Seq<int>, Error>
    decreases s.len() - p,
{
    if p < 0 || p + 4 > s.len() {
        Err(Error::Io)
    } else if le_bytes_at(s, p, 4) == 0xFFFFFFFF {
        Ok(Seq::empty())
    } else {
        match spec_attr_status(s, p, cluster) {
            Err(e) => Err(e),
            Ok(u) => {
                let l = le_bytes_at(s, p + 4, 4) as int;
                if l == 0 {
                    Err(Error::FormatInvalid)
                } else if p + l + 4 > s.len() {
                    Err(Error::Io)
                } else {
                    match spec_attr_list(s, p + l, cluster) {
                        Err(e) => Err(e),
                        Ok(rest) => Ok(seq![p] + rest),
                    }
                }
            },
        }
    }
}

/// Parses the attributes of a (fixed-up) record from `start`, collecting
/// them in on-disk order until the `0xFFFFFFFF` sentinel.
#[verifier::rlimit(100)]
pub fn parse_mft_attrs(data: &[u8], start: usize, cluster_size: u16) -> (r: Result<
    Vec<MFTAttr>,
    Error,
>)
    ensures
        r matches Ok(attrs) ==> spec_attr_list(data@, start as int, cluster_size as int) matches Ok(
            ps,
        ) && attrs@.len() == ps.len() && (forall|i: int|
            0 <= i < ps.len() ==> spec_attr_wf(
                data@,
                ps[i],
                cluster_size as int,
                #[trigger] attrs@[i],
            )),
        r matches Err(e) ==> spec_attr_list(data@, start as int, cluster_size as int) == Err::<
            Seq<int>,
            Error,
        >(e),
{
    let ghost full = spec_attr_list(data@, start as int, cluster_size as int);
    let n = data.len();
    if start > n {
        return Err(Error::Io);
    }
    let mut p: usize = start;
    let mut attrs: Vec<MFTAttr> = Vec::new();
    let ghost mut ps: Seq<int> = Seq::empty();
    loop
        invariant
            n == data@.len(),
            p <= n,
            full == spec_attr_list(data@, start as int, cluster_size as int),
            match spec_attr_list(data@, p as int, cluster_size as int) {
                Ok(rest) => full == Ok::<Seq<int>, Error>(ps + rest),
                Err(e) => full == Err::<Seq<int>, Error>(e),
            },
            attrs@.len() == ps.len(),
            forall|i: int|
                0 <= i < ps.len() ==> spec_attr_wf(
                    data@,
                    ps[i],
                    cluster_size as int,
                    #[trigger] attrs@[i],
                ),
        ensures
            full == Ok::<Seq<int>, Error>(ps),
            attrs@.len() == ps.len(),
            forall|i: int|
                0 <= i < ps.len() ==> spec_attr_wf(
                    data@,
                    ps[i],
                    cluster_size as int,
                    #[trigger] attrs@[i],
                ),
        decreases n - p,
    {
        if n - p < 4 {
            return Err(Error::Io);
        }
        let marker = read_u32_le(data, p);
        if marker == 0xFFFFFFFF {
            proof {
                assert(spec_attr_list(data@, p as int, cluster_size as int) == Ok::<
                    Seq<int>,
                    Error,
                >(Seq::empty()));
                assert(ps + Seq::<int>::empty() =~= ps);
            }
            break ;
        }
        let attr = match parse_mft_attr(data, p, cluster_size) {
            Ok(a) => a,
            Err(e) => {
                return Err(e);
            },
        };
        let alen = attr.length;
        proof {
            lemma_pow256_vals();
            lemma_le_bytes_bound(data@, p + 4, 4);
        }
        if alen == 0 {
            return Err(Error::FormatInvalid);
        }
        if (alen as u64) > ((n - p) as u64) - 4 {
            return Err(Error::Io);
        }
        let ghost ps0 = ps;
        let ghost p0 = p as int;
        proof {
            ps = ps.push(p as int);
            let cl = cluster_size as int;
            let l = le_bytes_at(data@, p0 + 4, 4) as int;
            assert(l == alen as int);
            match spec_attr_list(data@, p0 + l, cl) {
                Err(e) => {},
                Ok(rest) => {
                    assert(spec_attr_list(data@, p0, cl) == Ok::<Seq<int>, Error>(
                        seq![p0] + rest,
                    ));
                    assert(ps0 + (seq![p0] + rest) =~= ps + rest);
                },
            }
        }
        attrs.push(attr);
        p = p + (alen as usize);
    }
    Ok(attrs)
}

/// One MFT entry: its header and its attributes, in on-disk order.
#[derive(Debug)]
pub struct MFTEntry {
    pub header: MFTHeader,
    pub attrs: Vec<MFTAttr>,
}

/// The index of the first data attribute (`attr_type == 0x80`) at or
/// after `i`, or -1 when there is none.
pub open spec fn first_data_attr(attrs: Seq<MFTAttr>, i: int) -> int
    decreases attrs.len() - i,
{
    if i < 0 || i >= attrs.len() {
        -1
    } else if attrs[i].attr_type == 128 {
        i
    } else {
        first_data_attr(attrs, i + 1)
    }
}

/// A found data attribute index lies within the list and names a data
/// attribute.
pub proof fn lemma_first_data_attr_range(attrs: Seq<MFTAttr>, i: int)
    requires
        first_data_attr(attrs, i) >= 0,
    ensures
        i <= first_data_attr(attrs, i) < attrs.len(),
        attrs[first_data_attr(attrs, i)].attr_type == 128,
    decreases attrs.len() - i,
{
    if !(i < 0 || i >= attrs.len()) && attrs[i].attr_type != 128 {
        lemma_first_data_attr_range(attrs, i + 1);
    }
}

impl MFTEntry {
    /// Every attribute's content descriptor is valid; parsing
    /// establishes this.
    pub open spec fn wf(&self) -> bool {
        forall|i: int| 0 <= i < self.attrs@.len() ==> (#[trigger] self.attrs@[i]).content.wf()
    }

    /// The content of the data attribute: the first attribute of type
    /// 0x80, as the callers of the reader select it.
    pub fn content(&self) -> (r: Option<&Content>)
        ensures
            match r {
                Some(c) => first_data_attr(self.attrs@, 0) >= 0 && *c == self.attrs@[
                    first_data_attr(self.attrs@, 0)
                ].content,
                None => first_data_attr(self.attrs@, 0) == -1,
            },
    {
        let n = self.attrs.len();
        let mut i: usize = 0;
        while i < n
            invariant
                i <= n,
                n == self.attrs@.len(),
                first_data_attr(self.attrs@, 0) == first_data_attr(self.attrs@, i as int),
                forall|j: int| 0 <= j < i ==> (#[trigger] self.attrs@[j]).attr_type != 128,
            decreases n - i,
        {
            if self.attrs[i].attr_type == 128 {
                return Some(&self.attrs[i].content);
            }
            i = i + 1;
        }
        None
    }

    /// A reader over the data attribute's content, reading non-resident
    /// content through the handed volume, or `None` when the entry has
    /// no data attribute.
    pub fn data<D: ByteSource>(&self, volume: D) -> (r: Option<ContentReader<D>>)
        requires
            self.wf(),
            volume.inv(),
        ensures
            ({
                let k = first_data_attr(self.attrs@, 0);
                match r {
                    Some(rd) => {
                        &&& k >= 0
                        &&& rd.wf()
                        &&& rd.spec_pos() == 0
                        &&& rd.spec_size() == self.attrs@[k].content.spec_size()
                        &&& match self.attrs@[k].content {
                            Content::Resident { data } => rd is Resident && rd.logical() == data@,
                            Content::NonResident { runs, .. } => rd matches ContentReader::NonResident {
                                inner,
                            } && inner.runs_view() == runs@ && inner.dev_content()
                                == volume.content(),
                        }
                    },
                    None => k == -1,
                }
            }),
    {
        proof {
            if first_data_attr(self.attrs@, 0) >= 0 {
                lemma_first_data_attr_range(self.attrs@, 0);
                assert(self.attrs@[first_data_attr(self.attrs@, 0)].content.wf());
            }
        }
        match self.content() {
            Some(c) => Some(content_reader(volume, c)),
            None => None,
        }
    }

    /// As `data`, consuming the entry.
    pub fn into_data<D: ByteSource>(self, volume: D) -> (r: Option<ContentReader<D>>)
        requires
            self.wf(),
            volume.inv(),
        ensures
            ({
                let k = first_data_attr(self.attrs@, 0);
                match r {
                    Some(rd) => {
                        &&& k >= 0
                        &&& rd.wf()
                        &&& rd.spec_pos() == 0
                        &&& rd.spec_size() == self.attrs@[k].content.spec_size()
                        &&& match self.attrs@[k].content {
                            Content::Resident { data } => rd is Resident && rd.logical() == data@,
                            Content::NonResident { runs, .. } => rd matches ContentReader::NonResident {
                                inner,
                            } && inner.runs_view() == runs@ && inner.dev_content()
                                == volume.content(),
                        }
                    },
                    None => k == -1,
                }
            }),
    {
        self.data(volume)
    }
}

/// Parses a full MFT entry from the first 1024 bytes of `record`: the
/// header, then the fixup verification and restoration in a working
/// copy, then the attributes of the fixed-up record.
pub fn parse_mft_entry(sector_size: u16, cluster_size: u16, record: &[u8]) -> (r: Result<
    MFTEntry,
    Error,
>)
    ensures
        record@.len() < 1024 ==> r == Err::<MFTEntry, Error>(Error::Io),
        record@.len() >= 1024 ==> ({
            let s0 = record@.subrange(0, 1024);
            let h = spec_mft_header(s0);
            let fixed = fixed_up(
                s0,
                sector_size as int,
                h.fixup_offset as int,
                h.fixup_entries as int,
            );
            match r {
                Ok(entry) => {
                    &&& sig_ok(s0)
                    &&& fixup_applies(
                        s0,
                        sector_size as int,
                        h.fixup_offset as int,
                        h.fixup_entries as int,
                    )
                    &&& entry.header == h
                    &&& spec_attr_list(fixed, h.attr_offset as int, cluster_size as int) matches Ok(
                        ps,
                    ) && entry.attrs@.len() == ps.len() && (forall|i: int|
                        0 <= i < ps.len() ==> spec_attr_wf(
                            fixed,
                            ps[i],
                            cluster_size as int,
                            #[trigger] entry.attrs@[i],
                        ))
                    &&& entry.wf()
                },
                Err(e) => {
                    if !sig_ok(s0) {
                        e == Error::FormatInvalid
                    } else if !fixup_applies(
                        s0,
                        sector_size as int,
                        h.fixup_offset as int,
                        h.fixup_entries as int,
                    ) {
                        e == Error::FormatInvalid
                    } else {
                        spec_attr_list(fixed, h.attr_offset as int, cluster_size as int) == Err::<
                            Seq<int>,
                            Error,
                        >(e)
                    }
                },
            }
        }),
{
    let n = record.len();
    if n < 1024 {
        return Err(Error::Io);
    }
    let mut buf: Vec<u8> = Vec::new();
    let mut i: usize = 0;
    while i < 1024
        invariant
            i <= 1024,
            1024 <= record@.len(),
            buf@.len() == i,
            buf@ == record@.subrange(0, i as int),
        decreases 1024 - i,
    {
        buf.push(record[i]);
        proof {
            assert(buf@ =~= record@.subrange(0, i + 1));
        }
        i = i + 1;
    }
    let header = match parse_mft_header(buf.as_slice()) {
        Ok(h) => h,
        Err(e) => {
            return Err(e);
        },
    };
    match fixup_buf(sector_size, &header, &mut buf) {
        Ok(()) => (),
        Err(e) => {
            return Err(e);
        },
    }
    let attrs = match parse_mft_attrs(buf.as_slice(), header.attr_offset as usize, cluster_size) {
        Ok(a) => a,
        Err(e) => {
            return Err(e);
        },
    };
    let entry = MFTEntry { header, attrs };
    proof {
        let s0 = record@.subrange(0, 1024);
        let cl = cluster_size as int;
        let fixed = fixed_up(
            s0,
            sector_size as int,
            header.fixup_offset as int,
            header.fixup_entries as int,
        );
        match spec_attr_list(fixed, header.attr_offset as int, cl) {
            Err(_) => {
                assert(false);
            },
            Ok(ps) => {
                assert forall|k: int| 0 <= k < entry.attrs@.len() implies (
                #[trigger] entry.attrs@[k]).content.wf() by {
                    assert(spec_attr_wf(fixed, ps[k], cl, entry.attrs@[k]));
                }
            },
        }
    }
    Ok(entry)
}

} // verus!
