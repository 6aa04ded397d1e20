//! Cache files: an archive holds a header that says what it was made from, the links of a
//! waveform index, and a payload that others read.

use crate::ingest::{
    CacheHeader, SourceMeta, WaveIndexHeader, RKYV_FORMAT_VERSION, WAVE_INDEX_FORMAT_VERSION,
};
use vstd::prelude::*;

verus! {

/// What an archive holds.
#[derive(Debug)]
pub struct Archive {
    pub header: Vec<u64>,
    pub links: Vec<(u32, u64)>,
    pub payload: Vec<u8>,
}

/// What an archive holds.
#[verifier::ext_equal]
pub struct ArchiveV {
    pub header: Seq<u64>,
    pub links: Seq<(u32, u64)>,
    pub payload: Seq<u8>,
}

impl View for Archive {
    type V = ArchiveV;

    open spec fn view(&self) -> ArchiveV {
        ArchiveV { header: self.header@, links: self.links@, payload: self.payload@ }
    }
}

/// How many bytes an archive may hold, so that its offsets fit in 31 bits.
pub const MAX_ARCHIVE: usize = 2_000_000_000;

impl ArchiveV {
    /// Whether there is room for the contents in one archive.
    pub open spec fn fits(self) -> bool {
        8 * self.header.len() + 16 * self.links.len() + self.payload.len() <= MAX_ARCHIVE
    }
}

/// The contents of the archive that some bytes are, if they are one.
pub uninterp spec fn archived(bytes: Seq<u8>) -> Option<ArchiveV>;

/// The bytes of an archive, by `rkyv::to_bytes`: they are read back as what went in. There
/// always are some: integers, tuples and vectors of them write nothing that can fail by
/// themselves, the buffer that `rkyv` writes to takes every write, and its arena hands out
/// memory or ends the program. `rkyv` panics where an offset does not fit in 31 bits.
#[verifier::external_body]
fn write_archive(a: Archive) -> (r: Option<Vec<u8>>)
    requires
        a@.fits(),
    ensures
        r is Some,
        archived(r->0@) == Some(a@),
{
    match rkyv::to_bytes::<rkyv::rancor::Error>(&(a.header, a.links, a.payload)) {
        Ok(bytes) => Some(bytes.into_vec()),
        Err(_) => None,
    }
}

/// The contents of an archive, by `rkyv::from_bytes`, on a copy of the bytes that is aligned
/// as `rkyv` asks: `None` where they do not check out as an archive. What the contents are of
/// given bytes is not stated.
#[verifier::external_body]
fn read_archive(bytes: &[u8]) -> (r: Option<Archive>)
    ensures
        match r {
            Some(a) => archived(bytes@) == Some(a@),
            None => archived(bytes@) is None,
        },
{
    let mut aligned: rkyv::util::AlignedVec = rkyv::util::AlignedVec::new();
    aligned.extend_from_slice(bytes);
    let read = rkyv::from_bytes::<(Vec<u64>, Vec<(u32, u64)>, Vec<u8>), rkyv::rancor::Error>(
        &aligned,
    );
    match read {
        Ok((header, links, payload)) => Some(Archive { header, links, payload }),
        Err(_) => None,
    }
}

// --- The model cache ----------------------------------------------------------

/// The archive of a model: its header and its document.
pub open spec fn model_archive(h: CacheHeader, doc: Seq<u8>) -> ArchiveV {
    ArchiveV {
        header: seq![
            h.rkyv_format_version as u64,
            h.schema_version as u64,
            h.source.len,
            h.source.mtime_ns,
        ],
        links: Seq::empty(),
        payload: doc,
    }
}

/// The document in an archive, where it is that of a source as it is now.
pub open spec fn fresh_model(a: Option<ArchiveV>, source: SourceMeta) -> Option<Seq<u8>> {
    match a {
        Some(a) => if a == model_archive(
            CacheHeader { rkyv_format_version: RKYV_FORMAT_VERSION, schema_version: 1, source },
            a.payload,
        ) {
            Some(a.payload)
        } else {
            None
        },
        None => None,
    }
}

/// The bytes of a model cache: what is read back of them is the document that went in, for
/// as long as the source stays as the header says.
pub fn write_model_cache(h: CacheHeader, doc: Vec<u8>) -> (r: Option<Vec<u8>>)
    requires
        model_archive(h, doc@).fits(),
    ensures
        r is Some,
        archived(r->0@) == Some(model_archive(h, doc@)),
        h.fresh(h.source) ==> fresh_model(archived(r->0@), h.source) == Some(doc@),
{
    let header: Vec<u64> = vec![
        h.rkyv_format_version as u64,
        h.schema_version as u64,
        h.source.len,
        h.source.mtime_ns,
    ];
    let a: Archive = Archive { header, links: Vec::new(), payload: doc };
    assert(a@ =~= model_archive(h, doc@));
    write_archive(a)
}

/// The document that an archive holds, where it is that of a source as it is now.
pub fn pick_model(a: Option<Archive>, source: SourceMeta) -> (r: Option<Vec<u8>>)
    ensures
        match r {
            Some(doc) => fresh_model(
                match a {
                    Some(a) => Some(a@),
                    None => None,
                },
                source,
            ) == Some(doc@),
            None => fresh_model(
                match a {
                    Some(a) => Some(a@),
                    None => None,
                },
                source,
            ) is None,
        },
{
    match a {
        Some(a) => {
            let fresh: bool = a.links.len() == 0 && a.header.len() == 4 && a.header[0]
                == RKYV_FORMAT_VERSION as u64 && a.header[1] == 1 && a.header[2] == source.len
                && a.header[3] == source.mtime_ns;
            let ghost want = model_archive(
                CacheHeader { rkyv_format_version: RKYV_FORMAT_VERSION, schema_version: 1, source },
                a.payload@,
            );
            if fresh {
                assert(a@ =~= want);
                Some(a.payload)
            } else {
                assert(a@ != want) by {
                    if a@ == want {
                        assert(want.header.len() == 4);
                        assert(a.header@[0] == want.header[0]);
                        assert(a.header@[1] == want.header[1]);
                        assert(a.header@[2] == want.header[2]);
                        assert(a.header@[3] == want.header[3]);
                    }
                }
                None
            }
        },
        None => None,
    }
}

/// The document in a model cache, where the cache is that of a source as it is now.
pub fn read_model_cache(bytes: &[u8], source: SourceMeta) -> (r: Option<Vec<u8>>)
    ensures
        match r {
            Some(doc) => fresh_model(archived(bytes@), source) == Some(doc@),
            None => fresh_model(archived(bytes@), source) is None,
        },
{
    pick_model(read_archive(bytes), source)
}

// --- The waveform index cache -------------------------------------------------

/// The archive of a waveform index: its header and its links.
pub open spec fn index_archive(h: WaveIndexHeader, links: Seq<(u32, u64)>) -> ArchiveV {
    ArchiveV {
        header: seq![
            h.wave_index_format_version as u64,
            h.model.len,
            h.model.mtime_ns,
            h.trace.len,
            h.trace.mtime_ns,
            h.opts_hash,
        ],
        links,
        payload: Seq::empty(),
    }
}

/// The links in an archive, where it is that of a model, a trace and options as they are now.
pub open spec fn fresh_links(
    a: Option<ArchiveV>,
    model: SourceMeta,
    trace: SourceMeta,
    opts_hash: u64,
) -> Option<Seq<(u32, u64)>> {
    match a {
        Some(a) => if a == index_archive(
            WaveIndexHeader {
                wave_index_format_version: WAVE_INDEX_FORMAT_VERSION,
                model,
                trace,
                opts_hash,
            },
            a.links,
        ) {
            Some(a.links)
        } else {
            None
        },
        None => None,
    }
}

/// The bytes of a waveform index cache: what is read back of them are the links that went
/// in, for as long as the model, the trace and the options stay as they are.
pub fn write_wave_index(
    model: SourceMeta,
    trace: SourceMeta,
    opts_hash: u64,
    links: Vec<(u32, u64)>,
) -> (r: Option<Vec<u8>>)
    requires
        48 + 16 * links@.len() <= MAX_ARCHIVE,
    ensures
        r is Some,
        archived(r->0@) == Some(
            index_archive(
                WaveIndexHeader {
                    wave_index_format_version: WAVE_INDEX_FORMAT_VERSION,
                    model,
                    trace,
                    opts_hash,
                },
                links@,
            ),
        ),
        fresh_links(archived(r->0@), model, trace, opts_hash) == Some(links@),
{
    let h: WaveIndexHeader = WaveIndexHeader::current(model, trace, opts_hash);
    let header: Vec<u64> = vec![
        h.wave_index_format_version as u64,
        h.model.len,
        h.model.mtime_ns,
        h.trace.len,
        h.trace.mtime_ns,
        h.opts_hash,
    ];
    let a: Archive = Archive { header, links, payload: Vec::new() };
    assert(a@ =~= index_archive(h, links@));
    write_archive(a)
}

/// The links that an archive holds, where it is that of a model, a trace and options as they
/// are now.
pub fn pick_links(
    a: Option<Archive>,
    model: SourceMeta,
    trace: SourceMeta,
    opts_hash: u64,
) -> (r: Option<Vec<(u32, u64)>>)
    ensures
        ({
            let kept = fresh_links(
                match a {
                    Some(a) => Some(a@),
                    None => None,
                },
                model,
                trace,
                opts_hash,
            );
            match r {
                Some(links) => kept == Some(links@),
                None => kept is None,
            }
        }),
{
    match a {
        Some(a) => {
            let fresh: bool = a.payload.len() == 0 && a.header.len() == 6 && a.header[0]
                == WAVE_INDEX_FORMAT_VERSION as u64 && a.header[1] == model.len && a.header[2]
                == model.mtime_ns && a.header[3] == trace.len && a.header[4] == trace.mtime_ns
                && a.header[5] == opts_hash;
            let ghost want = index_archive(
                WaveIndexHeader {
                    wave_index_format_version: WAVE_INDEX_FORMAT_VERSION,
                    model,
                    trace,
                    opts_hash,
                },
                a.links@,
            );
            if fresh {
                assert(a@ =~= want);
                Some(a.links)
            } else {
                assert(a@ != want) by {
                    if a@ == want {
                        assert(want.header.len() == 6);
                        assert(a.header@[0] == want.header[0]);
                        assert(a.header@[1] == want.header[1]);
                        assert(a.header@[2] == want.header[2]);
                        assert(a.header@[3] == want.header[3]);
                        assert(a.header@[4] == want.header[4]);
                        assert(a.header@[5] == want.header[5]);
                    }
                }
                None
            }
        },
        None => None,
    }
}

/// The links in a waveform index cache, where the cache is that of a model, a trace and
/// options as they are now. `None` asks for the match to be run again.
pub fn try_load_wave_index(
    bytes: &[u8],
    model: SourceMeta,
    trace: SourceMeta,
    opts_hash: u64,
) -> (r: Option<Vec<(u32, u64)>>)
    ensures
        match r {
            Some(links) => fresh_links(archived(bytes@), model, trace, opts_hash) == Some(links@),
            None => fresh_links(archived(bytes@), model, trace, opts_hash) is None,
        },
{
    pick_links(read_archive(bytes), model, trace, opts_hash)
}

// --- Laws ---------------------------------------------------------------------

/// A model cache is served exactly while its header says so of the source.
pub proof fn law_model_cache_is_served_while_fresh(
    h: CacheHeader,
    doc: Seq<u8>,
    source: SourceMeta,
)
    ensures
        fresh_model(Some(model_archive(h, doc)), source) == if h.fresh(source) {
            Some(doc)
        } else {
            None
        },
{
    let want = CacheHeader { rkyv_format_version: RKYV_FORMAT_VERSION, schema_version: 1, source };
    let a = model_archive(h, doc).header;
    let b = model_archive(want, doc).header;
    if a == b {
        assert(a[0] == b[0] && a[1] == b[1] && a[2] == b[2] && a[3] == b[3]);
    }
}

/// A waveform index cache is served exactly while its header says so of the model, the trace
/// and the options.
pub proof fn law_index_cache_is_served_while_fresh(
    h: WaveIndexHeader,
    links: Seq<(u32, u64)>,
    model: SourceMeta,
    trace: SourceMeta,
    opts_hash: u64,
)
    ensures
        fresh_links(Some(index_archive(h, links)), model, trace, opts_hash) == if h.fresh(
            model,
            trace,
            opts_hash,
        ) {
            Some(links)
        } else {
            None
        },
{
    let want = WaveIndexHeader {
        wave_index_format_version: WAVE_INDEX_FORMAT_VERSION,
        model,
        trace,
        opts_hash,
    };
    let a = index_archive(h, links).header;
    let b = index_archive(want, links).header;
    if a == b {
        assert(a[0] == b[0] && a[1] == b[1] && a[2] == b[2] && a[3] == b[3] && a[4] == b[4]
            && a[5] == b[5]);
    }
}

} // verus!
