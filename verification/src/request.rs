//! The request that is sent again and again.

use vstd::prelude::*;
use vstd::string::*;
use vstd::utf8::*;

verus! {

/// The text of the request for `path` to the server `authority`.
pub open spec fn request_text(path: Seq<char>, authority: Seq<char>) -> Seq<char> {
    "GET "@ + path + " HTTP/1.1\r\nHost: "@ + authority + "\r\nConnection: keep-alive\r\n\r\n"@
}

/// The bytes of the request for `path` to the server `authority`.
pub fn build_request(path: &str, authority: &str) -> (request: Vec<u8>)
    ensures
        request@ == encode_utf8(request_text(path@, authority@)),
{
    let mut text = String::from_str("GET ");
    text.append(path);
    text.append(" HTTP/1.1\r\nHost: ");
    text.append(authority);
    text.append("\r\nConnection: keep-alive\r\n\r\n");
    text.as_str().as_bytes_vec()
}

/// The end of a line, as characters.
pub open spec fn line_end() -> Seq<char> {
    seq!['\r', '\n']
}

/// The request is a request line, a `Host` and a `Connection` header and an empty line.
pub proof fn law_request_lines(path: Seq<char>, authority: Seq<char>)
    ensures
        request_text(path, authority) == "GET "@ + path + " HTTP/1.1"@ + line_end() + "Host: "@
            + authority + line_end() + "Connection: keep-alive"@ + line_end() + line_end(),
{
    reveal_strlit(" HTTP/1.1\r\nHost: ");
    reveal_strlit(" HTTP/1.1");
    reveal_strlit("Host: ");
    reveal_strlit("\r\nConnection: keep-alive\r\n\r\n");
    reveal_strlit("Connection: keep-alive");
    assert(" HTTP/1.1\r\nHost: "@ =~= " HTTP/1.1"@ + line_end() + "Host: "@);
    assert("\r\nConnection: keep-alive\r\n\r\n"@ =~= line_end() + "Connection: keep-alive"@
        + line_end() + line_end());
    assert(request_text(path, authority) =~= "GET "@ + path + " HTTP/1.1"@ + line_end() + "Host: "@
        + authority + line_end() + "Connection: keep-alive"@ + line_end() + line_end());
}

} // verus!
