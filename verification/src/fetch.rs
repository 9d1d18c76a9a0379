//! The external capabilities the installer consumes: fetching raw bytes
//! from a locator and reading entries out of an archive. Each capability
//! is a thin trusted wrapper around the outside crate that provides it;
//! nothing is promised of a network or disk outcome.

use vstd::prelude::*;
use crate::model::InstallError;

verus! {

/// Relies on curl's `Easy` handle: fetches the bytes behind a URL,
/// following redirects. The outcome depends on the network, so nothing
/// is promised of it; every failure is reported as a fetch error.
#[verifier::external_body]
pub fn download(url: &str) -> (r: Result<Vec<u8>, InstallError>)
{
    let mut easy = curl::easy::Easy::new();
    easy.url(url).map_err(|_| InstallError::Fetch)?;
    easy.follow_location(true).map_err(|_| InstallError::Fetch)?;
    let mut buf: Vec<u8> = Vec::new();
    {
        let mut transfer = easy.transfer();
        transfer
            .write_function(|data| {
                buf.extend_from_slice(data);
                Ok(data.len())
            })
            .map_err(|_| InstallError::Fetch)?;
        transfer.perform().map_err(|_| InstallError::Fetch)?;
    }
    Ok(buf)
}

/// An in-memory reader over fetched bytes, as the archive crate wants one.
#[verifier::external_type_specification]
#[verifier::external_body]
#[verifier::reject_recursive_types(T)]
pub struct ExCursor<T>(std::io::Cursor<T>);

/// A parsed archive held in memory.
#[verifier::external_type_specification]
#[verifier::external_body]
#[verifier::reject_recursive_types(R)]
pub struct ExZipArchive<R>(zip::ZipArchive<R>);

/// Relies on `zip::ZipArchive::new`: parses the fetched bytes as an
/// archive. Whether that succeeds depends on the bytes alone, but
/// nothing further is needed of the parsed value here; every failure is
/// reported as a format error.
#[verifier::external_body]
pub fn open_archive(bytes: Vec<u8>) -> (r: Result<
    zip::ZipArchive<std::io::Cursor<Vec<u8>>>,
    InstallError,
>)
{
    zip::ZipArchive::new(std::io::Cursor::new(bytes)).map_err(|_| InstallError::Format)
}

/// Relies on `zip::ZipArchive::file_names`: hands out the names of the
/// entries the archive holds. The crate walks a hash map's keys, so the
/// order of the names is not a function of the archive's bytes, and
/// nothing is promised of the result.
#[verifier::external_body]
pub fn archive_file_names(archive: &zip::ZipArchive<std::io::Cursor<Vec<u8>>>) -> (r: Vec<String>)
{
    archive.file_names().map(|n| n.to_string()).collect()
}

/// Relies on `zip::ZipArchive::extract`: writes every entry of the
/// archive under the given directory. The outcome depends on the disk,
/// so nothing is promised of it; every failure is reported as an
/// input/output error.
#[verifier::external_body]
pub fn archive_extract(
    archive: &mut zip::ZipArchive<std::io::Cursor<Vec<u8>>>,
    directory: &str,
) -> (r: Result<(), InstallError>)
{
    archive.extract(directory).map_err(|_| InstallError::Io)
}

} // verus!
