//! The decision kernel of the file downloader.  The downloader itself does
//! process and network work that lives with the caller; what is fixed here
//! is only which transport it must pick.

use vstd::prelude::*;

verus! {

/// How a file is to be fetched: the system `curl` binary, or the HTTP
/// client library built into the program.
#[derive(Debug, Copy, Clone, Eq, PartialEq, Structural)]
pub enum DownloadMethod {
    Curl,
    LibraryClient,
}

/// Pick the transport the downloader must use: `curl` whenever it is
/// available, else the built-in client, else nothing.
pub fn choose_download_method(curl_available: bool, client_available: bool) -> (r: Option<
    DownloadMethod,
>)
    ensures
        r == if curl_available {
            Some(DownloadMethod::Curl)
        } else if client_available {
            Some(DownloadMethod::LibraryClient)
        } else {
            None::<DownloadMethod>
        },
{
    if curl_available {
        Some(DownloadMethod::Curl)
    } else if client_available {
        Some(DownloadMethod::LibraryClient)
    } else {
        None
    }
}

} // verus!
