use std::io::Cursor;
use vstd::prelude::*;
use zip::ZipArchive;

verus! {

#[verifier::external_type_specification]
#[verifier::external_body]
#[verifier::reject_recursive_types(R)]
pub struct ExZipArchive<R>(ZipArchive<R>);

/// The entries of an opened ZIP archive over a byte slice, in the order of
/// its central directory: for each, the bytes of its name when the entry can
/// be opened and its name decoded, `None` otherwise.
pub uninterp spec fn zip_entries(archive: ZipArchive<Cursor<&[u8]>>) -> Seq<Option<Seq<u8>>>;

/// The entries (as in `zip_entries`) of the archive that `ZipArchive::new`
/// reads from these bytes; `None` when it refuses them.
pub uninterp spec fn zip_listing(bytes: Seq<u8>) -> Option<Seq<Option<Seq<u8>>>>;

/// `ZipArchive::new` over a cursor on `bytes`. The claim: it succeeds exactly
/// when `zip_listing` names a listing, and the archive it gives holds that
/// listing. What the listing is, the zip crate decides.
#[verifier::external_body]
pub fn zip_open(bytes: &[u8]) -> (r: Option<ZipArchive<Cursor<&[u8]>>>)
    ensures
        r is Some <==> zip_listing(bytes@) is Some,
        r matches Some(a) ==> zip_entries(a) == zip_listing(bytes@).unwrap(),
{
    ZipArchive::new(Cursor::new(bytes)).ok()
}

/// `ZipArchive::len`: the number of entries.
#[verifier::external_body]
pub fn zip_len(archive: &ZipArchive<Cursor<&[u8]>>) -> (n: usize)
    ensures
        n == zip_entries(*archive).len(),
{
    archive.len()
}

/// `ZipArchive::by_index` and `ZipFile::name`: the name of entry `index` as
/// bytes, `None` when the entry cannot be opened or its name decoded. The
/// claim: the result is that entry of the listing, and reading an entry
/// leaves the listing as it was (each read seeks to the entry afresh).
#[verifier::external_body]
pub fn zip_entry_name(archive: &mut ZipArchive<Cursor<&[u8]>>, index: usize) -> (r: Option<Vec<u8>>)
    requires
        index < zip_entries(*old(archive)).len(),
    ensures
        zip_entries(*final(archive)) == zip_entries(*old(archive)),
        r.deep_view() == zip_entries(*old(archive))[index as int],
{
    match archive.by_index(index) {
        Ok(file) => match file.name() {
            Ok(name) => Some(name.as_bytes().to_vec()),
            Err(_) => None,
        },
        Err(_) => None,
    }
}

} // verus!
