use vstd::prelude::*;

use std::io::{Read, Write};

use flate2::bufread::GzDecoder;
use flate2::write::GzEncoder;
use flate2::Compression;

use crate::chunk_map::{lookup, ChunkMap};
use crate::error::SaveAndLoadError;
use crate::octree::Chunk;
use crate::text::{ascii_lowercase, is_ascii_text, lowercase_ext, lowercase_of, lowercase_extension, opt_chars, path_extension_of, str_is};
use crate::vecmath::V3i;

verus! {

/// What a world file's lowercased extension `ext` makes of it: only `bin`
/// is saved and loaded, anything else is refused with the extension it had.
pub open spec fn world_format_for(ext: Option<Seq<char>>, r: Result<(), SaveAndLoadError>) -> bool {
    if ext == Some("bin"@) {
        r is Ok
    } else {
        r matches Err(SaveAndLoadError::NotSupportedFileFormat(o)) && opt_chars(o) == ext
    }
}

/// Whether a world file with the lowercased extension `ext` can be saved and
/// loaded.
pub fn check_world_format(ext: Option<String>) -> (r: Result<(), SaveAndLoadError>)
    ensures
        world_format_for(opt_chars(ext), r),
        r is Err ==> r == Err::<(), SaveAndLoadError>(SaveAndLoadError::NotSupportedFileFormat(ext)),
{
    match ext {
        Some(e) => {
            if str_is(&e, "bin") {
                Ok(())
            } else {
                Err(SaveAndLoadError::NotSupportedFileFormat(Some(e)))
            }
        },
        None => Err(SaveAndLoadError::NotSupportedFileFormat(None)),
    }
}

/// Whether the world file `filepath` can be saved and loaded, told by its
/// extension in any case.
pub fn world_file_format(filepath: &str) -> (r: Result<(), SaveAndLoadError>)
    ensures
        world_format_for(lowercase_ext(path_extension_of(filepath@)), r),
        path_extension_of(filepath@) matches Some(e) ==> (is_ascii_text(e) ==> lowercase_of(
            e,
        ) == ascii_lowercase(e)),
{
    check_world_format(lowercase_extension(filepath))
}

/// The world that a loaded file describes: its chunks by position, a later
/// entry with a position replacing an earlier one.
pub fn world_from_entries(entries: Vec<(V3i, Chunk)>) -> (m: ChunkMap)
    ensures
        forall|key: V3i| #[trigger] lookup(m@, key) == lookup(entries@, key),
{
    let mut m = ChunkMap::new();
    let mut rest = entries;
    let ghost all = rest@;
    let ghost mut done: int = 0;
    while rest.len() > 0
        invariant
            0 <= done <= all.len(),
            rest@ == all.skip(done),
            forall|key: V3i| #[trigger] lookup(m@, key) == lookup(all.take(done), key),
        decreases rest.len(),
    {
        let (key, chunk) = rest.remove(0);
        proof {
            assert(all[done] == (key, chunk));
        }
        m.insert(key, chunk);
        proof {
            assert(all.take(done + 1).drop_last() =~= all.take(done));
            assert(all.take(done + 1).last() == (key, chunk));
            done = done + 1;
            assert(rest@ =~= all.skip(done));
        }
    }
    assert(all.take(done) =~= all);
    m
}

/// The gzip member that `flate2::write::GzEncoder` writes for `data` at the
/// default compression level.
pub uninterp spec fn gzip_of(data: Seq<u8>) -> Seq<u8>;

/// What `flate2::bufread::GzDecoder` reads out of `bytes` to their end: the
/// data of the first gzip member, or `None` where it reports an error.
pub uninterp spec fn gunzip_of(bytes: Seq<u8>) -> Option<Seq<u8>>;

/// Compresses `data` into memory with `flate2::write::GzEncoder` at the
/// default level (`write_all`, then `finish`). Claimed: it succeeds, since
/// the encoder reports errors only of its underlying writer, here a `Vec`,
/// which takes every write; the bytes are `gzip_of(data)`, and `GzDecoder`
/// reads `data` back out of them.
#[verifier::external_body]
fn gzip(data: &[u8]) -> (r: Result<Vec<u8>, std::io::Error>)
    ensures
        r is Ok,
        r matches Ok(b) ==> b@ == gzip_of(data@) && gunzip_of(b@) == Some(data@),
{
    let mut encoder = GzEncoder::new(Vec::new(), Compression::default());
    match encoder.write_all(data) {
        Ok(()) => encoder.finish(),
        Err(e) => Err(e),
    }
}

/// Decompresses `bytes` with `flate2::bufread::GzDecoder`, reading to the
/// end (`read_to_end`). Claimed: it succeeds exactly where `gunzip_of`
/// gives data, and returns that data.
#[verifier::external_body]
fn gunzip(bytes: &[u8]) -> (r: Result<Vec<u8>, std::io::Error>)
    ensures
        r is Ok <==> gunzip_of(bytes@) is Some,
        r matches Ok(d) ==> d@ == gunzip_of(bytes@)->0,
{
    let mut decoder = GzDecoder::new(bytes);
    let mut out: Vec<u8> = Vec::new();
    match decoder.read_to_end(&mut out) {
        Ok(_) => Ok(out),
        Err(e) => Err(e),
    }
}

/// The bytes of a world file for the serialized world `data`: `data`,
/// gzip-compressed, which always succeeds. Loading them
/// (`decompress_world_file`) gives `data` back.
pub fn compress_world_file(data: &[u8]) -> (r: Result<Vec<u8>, SaveAndLoadError>)
    ensures
        r is Ok,
        r matches Ok(b) ==> b@ == gzip_of(data@) && gunzip_of(b@) == Some(data@),
{
    match gzip(data) {
        Ok(b) => Ok(b),
        Err(e) => Err(SaveAndLoadError::IoError(e)),
    }
}

/// The serialized world in the world file `bytes`: their gzip member,
/// decompressed; an I/O error where they hold none.
pub fn decompress_world_file(bytes: &[u8]) -> (r: Result<Vec<u8>, SaveAndLoadError>)
    ensures
        r is Ok <==> gunzip_of(bytes@) is Some,
        r matches Ok(d) ==> d@ == gunzip_of(bytes@)->0,
        r matches Err(e) ==> e is IoError,
{
    match gunzip(bytes) {
        Ok(d) => Ok(d),
        Err(e) => Err(SaveAndLoadError::IoError(e)),
    }
}

} // verus!
