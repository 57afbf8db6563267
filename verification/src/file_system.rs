//! The boot sector and the MFT facade.
//!
//! The facade opens a volume device, locates the MFT from the boot
//! sector, parses entry 0 — the record of the `$MFT` file itself — and
//! keeps a reader over its data attribute; any other entry is then
//! fetched by seeking that reader to `index * 1024` and parsing the
//! record found there.
use vstd::prelude::*;

use crate::bytes::le_bytes_at;
use crate::bytes::lemma_le_bytes_at_eq;
use crate::bytes::lemma_le_bytes_bound;
use crate::bytes::lemma_pow256_vals;
use crate::bytes::read_u16_le;
use crate::bytes::read_u64_le;
use crate::content::Content;
use crate::content::ContentReader;
use crate::device::ByteSource;
use crate::device::SeekFrom;
use crate::error::Error;
use crate::metadata::MFTEntry;
use crate::metadata::first_data_attr;
use crate::metadata::fixup_applies;
use crate::metadata::parse_mft_entry;
use crate::metadata::sig_ok;
use crate::metadata::spec_attr_list;
use crate::metadata::spec_attr_wf;
use crate::metadata::spec_mft_header;
use crate::metadata::fixed_up;

verus! {

/// The volume geometry read from the boot sector.
#[derive(Debug, Clone, Copy, PartialEq, Eq, Structural)]
pub struct Boot {
    /// Bytes per sector.
    pub sector_size: u16,
    /// Bytes per cluster: `sector_size * sectors_per_cluster`.
    pub cluster_size: u16,
    /// Byte offset of MFT entry 0 on the volume.
    pub mft_start: u64,
}

/// Parses the boot sector: `sector_size` at offset 11,
/// `sectors_per_cluster` at 13, and the MFT's first cluster number at
/// 48. Zero sizes are invalid; a cluster size or an MFT offset that its
/// field cannot hold is out of range.
pub fn parse_boot(sector: &[u8]) -> (r: Result<Boot, Error>)
    ensures
        ({
            let ss = le_bytes_at(sector@, 11, 2);
            let spc = le_bytes_at(sector@, 13, 2);
            let msc = le_bytes_at(sector@, 48, 8);
            &&& (r is Ok <==> sector@.len() >= 56 && ss > 0 && spc > 0 && ss * spc <= u16::MAX
                && msc * (ss * spc) <= u64::MAX)
            &&& (r matches Ok(b) ==> b.sector_size == ss && b.cluster_size == ss * spc
                && b.mft_start == msc * (ss * spc))
            &&& (r matches Err(e) ==> e == (if sector@.len() < 56 {
                Error::Io
            } else if ss == 0 || spc == 0 {
                Error::FormatInvalid
            } else {
                Error::OutOfRange
            }))
        }),
{
    let n = sector.len();
    if n < 56 {
        return Err(Error::Io);
    }
    proof {
        lemma_pow256_vals();
        lemma_le_bytes_bound(sector@, 11, 2);
        lemma_le_bytes_bound(sector@, 13, 2);
        lemma_le_bytes_bound(sector@, 48, 8);
    }
    let sector_size = read_u16_le(sector, 11);
    let sectors_per_cluster = read_u16_le(sector, 13);
    if sector_size == 0 || sectors_per_cluster == 0 {
        return Err(Error::FormatInvalid);
    }
    proof {
        assert((sector_size as int) * (sectors_per_cluster as int) <= 0xFFFF * 0xFFFF)
            by (nonlinear_arith)
            requires
                0 <= sector_size as int <= 0xFFFF && 0 <= sectors_per_cluster as int <= 0xFFFF,
        ;
    }
    let cl32 = (sector_size as u32) * (sectors_per_cluster as u32);
    if cl32 > 0xFFFF {
        return Err(Error::OutOfRange);
    }
    let cluster_size = cl32 as u16;
    proof {
        assert(cluster_size as int >= 1) by (nonlinear_arith)
            requires
                cluster_size as int == (sector_size as int) * (sectors_per_cluster as int)
                    && sector_size as int >= 1 && sectors_per_cluster as int >= 1,
        ;
    }
    let mft_start_cluster = read_u64_le(sector, 48);
    if mft_start_cluster > u64::MAX / (cluster_size as u64) {
        proof {
            assert((mft_start_cluster as int) * (cluster_size as int) > u64::MAX)
                by (nonlinear_arith)
                requires
                    cluster_size as int >= 1 && mft_start_cluster as int > (u64::MAX as int) / (
                    cluster_size as int) && (u64::MAX as int) / (cluster_size as int) >= 0,
            ;
        }
        return Err(Error::OutOfRange);
    }
    proof {
        assert((mft_start_cluster as int) * (cluster_size as int) <= u64::MAX)
            by (nonlinear_arith)
            requires
                cluster_size as int >= 1 && 0 <= mft_start_cluster as int <= (u64::MAX as int) / (
                cluster_size as int),
        ;
    }
    let mft_start = mft_start_cluster * (cluster_size as u64);
    Ok(Boot { sector_size, cluster_size, mft_start })
}

/// The MFT facade: the boot geometry and a reader over the data
/// attribute of entry 0, which is the `$MFT` file itself.
pub struct MFT<D: ByteSource> {
    pub data: ContentReader<D>,
    pub boot: Boot,
}

impl<D: ByteSource> MFT<D> {
    /// A valid facade: the `$MFT` reader is well-formed.
    pub open spec fn wf(&self) -> bool {
        self.data.wf()
    }

    /// Opens the MFT of a volume: parses the boot sector, reads the
    /// 1024-byte record at `mft_start`, parses it as entry 0 and takes
    /// a reader over its data attribute. The volume device is moved
    /// into that reader, which from then on has exclusive seek control
    /// over it.
    pub fn open(mut volume: D) -> (r: Result<MFT<D>, Error>)
        requires
            volume.inv(),
        ensures
            r matches Ok(m) ==> ({
                let c = volume.content();
                let ss = le_bytes_at(c, 11, 2);
                let spc = le_bytes_at(c, 13, 2);
                let msc = le_bytes_at(c, 48, 8);
                let rec = c.subrange(m.boot.mft_start as int, m.boot.mft_start + 1024);
                let h = spec_mft_header(rec);
                &&& m.wf()
                &&& m.data.spec_pos() == 0
                &&& c.len() >= 56
                &&& ss > 0 && spc > 0
                &&& m.boot.sector_size == ss
                &&& m.boot.cluster_size == ss * spc
                &&& m.boot.mft_start == msc * (ss * spc)
                &&& m.boot.mft_start + 1024 <= c.len()
                &&& sig_ok(rec)
                &&& fixup_applies(
                    rec,
                    m.boot.sector_size as int,
                    h.fixup_offset as int,
                    h.fixup_entries as int,
                )
                &&& (m.data matches ContentReader::NonResident { inner } ==> inner.dev_content()
                    == c)
                &&& exists|entry: MFTEntry|
                    {
                        let cl = m.boot.cluster_size as int;
                        let fixed = fixed_up(
                            rec,
                            m.boot.sector_size as int,
                            h.fixup_offset as int,
                            h.fixup_entries as int,
                        );
                        let k = first_data_attr(entry.attrs@, 0);
                        &&& #[trigger] entry.wf()
                        &&& entry.header == h
                        &&& spec_attr_list(fixed, h.attr_offset as int, cl) matches Ok(ps)
                            && entry.attrs@.len() == ps.len() && (forall|i: int|
                            0 <= i < ps.len() ==> spec_attr_wf(
                                fixed,
                                ps[i],
                                cl,
                                #[trigger] entry.attrs@[i],
                            ))
                        &&& k >= 0
                        &&& m.data.spec_size() == entry.attrs@[k].content.spec_size()
                        &&& match entry.attrs@[k].content {
                            Content::Resident { data } => m.data is Resident
                                && m.data.logical() == data@,
                            Content::NonResident { runs, .. } => m.data matches ContentReader::NonResident {
                                inner,
                            } && inner.runs_view() == runs@ && inner.dev_content() == c,
                        }
                    }
            }),
    {
        match volume.seek_to(0) {
            Ok(()) => (),
            Err(e) => {
                return Err(e);
            },
        }
        let boot_bytes = match volume.read_exact(56) {
            Ok(v) => v,
            Err(e) => {
                return Err(e);
            },
        };
        proof {
            lemma_le_bytes_at_eq(boot_bytes@, volume.content(), 11, 11, 2);
            lemma_le_bytes_at_eq(boot_bytes@, volume.content(), 13, 13, 2);
            lemma_le_bytes_at_eq(boot_bytes@, volume.content(), 48, 48, 8);
        }
        let boot = match parse_boot(boot_bytes.as_slice()) {
            Ok(b) => b,
            Err(e) => {
                return Err(e);
            },
        };
        match volume.seek_to(boot.mft_start) {
            Ok(()) => (),
            Err(e) => {
                return Err(e);
            },
        }
        let rec = match volume.read_exact(1024) {
            Ok(v) => v,
            Err(e) => {
                return Err(e);
            },
        };
        let entry = match parse_mft_entry(boot.sector_size, boot.cluster_size, rec.as_slice()) {
            Ok(en) => en,
            Err(e) => {
                return Err(e);
            },
        };
        proof {
            assert(rec@.subrange(0, 1024) =~= rec@);
        }
        let ghost entry0 = entry;
        let data = match entry.into_data(volume) {
            Some(d) => d,
            None => {
                // Entry 0 without a data attribute: the volume has no
                // readable $MFT stream.
                return Err(Error::FormatInvalid);
            },
        };
        Ok(MFT { data, boot })
    }

    /// Reads and parses MFT entry `idx`: seeks the `$MFT` reader to
    /// `idx * 1024` and parses the 1024-byte record there. An index
    /// whose record would start past the end of the `$MFT` stream is
    /// refused with `Error::OutOfRange`. When the `$MFT` runs lie
    /// within the volume, the parsed entry is exactly the record found
    /// at that offset of the `$MFT` stream; a corrupt record rejects
    /// this entry only, and later calls may still succeed.
    pub fn open_entry(&mut self, idx: u64) -> (r: Result<MFTEntry, Error>)
        requires
            old(self).wf(),
        ensures
            final(self).wf(),
            final(self).boot == old(self).boot,
            final(self).data.logical() == old(self).data.logical(),
            final(self).data.spec_size() == old(self).data.spec_size(),
            final(self).data.covered() == old(self).data.covered(),
            idx > u64::MAX / 1024 ==> r == Err::<MFTEntry, Error>(Error::OutOfRange),
            idx <= u64::MAX / 1024 && idx * 1024 > old(self).data.spec_size() ==> r == Err::<
                MFTEntry,
                Error,
            >(Error::OutOfRange),
            r is Ok ==> idx * 1024 <= old(self).data.spec_size(),
            r matches Ok(entry) ==> (old(self).data.covered() ==> idx * 1024 + 1024 <= old(
                self,
            ).data.spec_size() && ({
                let raw = old(self).data.logical().subrange(
                    idx as int * 1024,
                    idx as int * 1024 + 1024,
                );
                let h = spec_mft_header(raw);
                let fixed = fixed_up(
                    raw,
                    old(self).boot.sector_size as int,
                    h.fixup_offset as int,
                    h.fixup_entries as int,
                );
                &&& sig_ok(raw)
                &&& fixup_applies(
                    raw,
                    old(self).boot.sector_size as int,
                    h.fixup_offset as int,
                    h.fixup_entries as int,
                )
                &&& entry.header == h
                &&& spec_attr_list(
                    fixed,
                    h.attr_offset as int,
                    old(self).boot.cluster_size as int,
                ) matches Ok(ps) && entry.attrs@.len() == ps.len() && (forall|i: int|
                    0 <= i < ps.len() ==> spec_attr_wf(
                        fixed,
                        ps[i],
                        old(self).boot.cluster_size as int,
                        #[trigger] entry.attrs@[i],
                    ))
                &&& entry.wf()
            })),
    {
        if idx > u64::MAX / 1024 {
            return Err(Error::OutOfRange);
        }
        let target = idx * 1024;
        match self.data.seek(SeekFrom::Start(target)) {
            Ok(_) => (),
            Err(e) => {
                return Err(e);
            },
        }
        let rec = match self.data.read_exact(1024) {
            Ok(v) => v,
            Err(e) => {
                return Err(e);
            },
        };
        let entry = match parse_mft_entry(self.boot.sector_size, self.boot.cluster_size,
            rec.as_slice()) {
            Ok(en) => en,
            Err(e) => {
                return Err(e);
            },
        };
        proof {
            assert(rec@.subrange(0, 1024) =~= rec@);
        }
        Ok(entry)
    }
}

} // verus!
