use vstd::prelude::*;

verus! {

/// The gzip encoding of a byte sequence at the default compression level: a
/// pure function of the bytes for a fixed encoder.
pub uninterp spec fn gzip_of(data: Seq<u8>) -> Seq<u8>;

/// What gunzipping a byte sequence yields, `None` on malformed input: a pure
/// function of the bytes.
pub uninterp spec fn gunzip_of(data: Seq<u8>) -> Option<Seq<u8>>;

/// Relies on flate2's `GzEncoder` at the default level writing into a `Vec`
/// (which cannot fail): the output is a pure function of the input bytes, and
/// its documented round trip gives the input back under `GzDecoder`.
#[verifier::external_body]
pub(crate) fn gzip_bytes(data: &[u8]) -> (r: Vec<u8>)
    ensures
        r@ == gzip_of(data@),
        gunzip_of(r@) == Option::Some(data@),
{
    let mut enc = flate2::write::GzEncoder::new(Vec::new(), flate2::Compression::default());
    std::io::Write::write_all(&mut enc, data).expect("writing into a Vec cannot fail");
    enc.finish().expect("writing into a Vec cannot fail")
}

/// The entries of a gzip-compressed tar archive, in archive order, each as
/// its path text and raw contents, or nothing when the bytes do not decode
/// as such an archive: a pure function of the archive bytes.
pub uninterp spec fn tar_entries_of(data: Seq<u8>) -> Option<Seq<(Seq<char>, Seq<u8>)>>;

/// Relies on flate2's `GzDecoder` and tar's `Archive`: iterating a byte-level
/// archive is deterministic in the bytes, yielding each entry's path and
/// contents in archive order; any decode failure yields `None`. Entry paths
/// go through `Path::to_string_lossy`, and `Entry::path` itself converts
/// lossily on Unix but errors on non-UTF-8 names elsewhere, so the result is
/// a function of the bytes for the compiled target, not across targets.
#[verifier::external_body]
pub(crate) fn tar_entry_list(tarball: &[u8]) -> (r: Option<Vec<(String, Vec<u8>)>>)
    ensures
        r.deep_view() == tar_entries_of(tarball@),
{
    let mut out: Vec<(String, Vec<u8>)> = Vec::new();
    let mut archive = tar::Archive::new(flate2::read::GzDecoder::new(tarball));
    for entry in archive.entries().ok()? {
        let mut entry = entry.ok()?;
        let path = entry.path().ok()?.to_string_lossy().to_string();
        let mut data: Vec<u8> = Vec::new();
        std::io::Read::read_to_end(&mut entry, &mut data).ok()?;
        out.push((path, data));
    }
    Some(out)
}

/// The `dependencies` table parsed out of manifest bytes, sorted by name;
/// `None` when the bytes are not a JSON object carrying a well-formed string
/// map under `dependencies`. A pure function of the bytes.
pub uninterp spec fn manifest_deps_of(data: Seq<u8>) -> Option<Seq<(Seq<char>, Seq<char>)>>;

/// Relies on serde_json's `from_slice`/`from_value` and on `BTreeMap`'s
/// sorted iteration: parsing is deterministic in the bytes, and the map's
/// keys come out strictly increasing, hence pairwise distinct.
#[verifier::external_body]
pub(crate) fn parse_manifest_deps(data: &[u8]) -> (r: Option<Vec<(String, String)>>)
    ensures
        r.deep_view() == manifest_deps_of(data@),
        r matches Some(v) ==> (forall|i: int, j: int|
            0 <= i < j < v@.len() ==> (#[trigger] v@[i].0@) != (#[trigger] v@[j].0@)),
{
    let value: serde_json::Value = serde_json::from_slice(data).ok()?;
    let deps = value.get("dependencies")?;
    let map: std::collections::BTreeMap<String, String> =
        serde_json::from_value(deps.clone()).ok()?;
    Some(map.into_iter().collect())
}

} // verus!
