//! What is sent to a display over HTTP, and how its answer is reported.
use vstd::prelude::*;
use crate::discovery::DisplayInfo;
use crate::text::{decimal, decimal_string, trim, trimmed};

verus! {

/// "http://IP:PORT" followed by `path`.
pub open spec fn endpoint(d: DisplayInfo, path: Seq<char>) -> Seq<char> {
    "http://"@ + d.ip@ + ":"@ + decimal(d.port as nat) + path
}

fn endpoint_url(display: &DisplayInfo, path: &str) -> (url: String)
    ensures
        url@ == endpoint(*display, path@),
{
    let mut url = String::from_str("http://");
    url.append(display.ip.as_str());
    url.append(":");
    url.append(decimal_string(display.port as u64).as_str());
    url.append(path);
    url
}

/// URL of a display's status endpoint.
pub fn info_url(display: &DisplayInfo) -> (url: String)
    ensures
        url@ == endpoint(*display, "/info"@),
{
    endpoint_url(display, "/info")
}

/// URL a display takes packed image data at.
pub fn display_url(display: &DisplayInfo) -> (url: String)
    ensures
        url@ == endpoint(*display, "/display"@),
{
    endpoint_url(display, "/display")
}

/// The line reporting a display's answer to an upload: "ID: STATUS — BODY",
/// with the body trimmed.
pub open spec fn upload_report(id: Seq<char>, status: Seq<char>, body: Seq<char>) -> Seq<char> {
    id + ": "@ + status + " — "@ + trimmed(body)
}

/// Report a display's answer to an upload, given its HTTP status text and body.
pub fn send_report(display: &DisplayInfo, status: &str, body: &str) -> (r: String)
    ensures
        r@ == upload_report(display.id@, status@, body@),
{
    let mut r = display.id.clone();
    r.append(": ");
    r.append(status);
    r.append(" — ");
    r.append(trim(body).as_str());
    r
}

} // verus!
