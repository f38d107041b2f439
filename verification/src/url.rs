//! The URL that is to be benchmarked.

use crate::seek::{
    find_char, find_last_char, first_occurrence, first_occurs_at, last_occurrence,
    lemma_first_found, lemma_first_occurrence, lemma_last_found, occurs_at,
};
use crate::text::{
    decimal, decimal_text, lemma_unsigned_bound, parse_unsigned, to_chars, unsigned_value,
};
use vstd::prelude::*;
use vstd::string::*;

verus! {

/// The port of the scheme `http`.
pub const HTTP_PORT: u16 = 80;

/// The port of the scheme `https`.
pub const HTTPS_PORT: u16 = 443;

/// What a URL says about where to connect and what to ask for.
#[derive(Debug)]
pub struct UrlParts {
    /// The name or address of the server.
    pub host: String,
    /// The host with the port, where the URL has one.
    pub authority: String,
    pub port: u16,
    /// The path, with the query and whatever else follows.
    pub path: String,
}

/// The parts of a URL, as sequences of characters.
#[verifier::ext_equal]
pub struct UrlView {
    pub host: Seq<char>,
    pub authority: Seq<char>,
    pub port: u16,
    pub path: Seq<char>,
}

impl View for UrlParts {
    type V = UrlView;

    open spec fn view(&self) -> UrlView {
        UrlView {
            host: self.host@,
            authority: self.authority@,
            port: self.port,
            path: self.path@,
        }
    }
}

/// Why a URL is refused.
#[derive(Clone, Copy, Debug, PartialEq, Eq, Structural)]
pub enum UrlError {
    MissingScheme,
    UnsupportedScheme,
}

impl UrlError {
    /// The reason, in words.
    pub open spec fn reason(self) -> Seq<char> {
        match self {
            UrlError::MissingScheme => "Invalid URL: missing scheme"@,
            UrlError::UnsupportedScheme => "Unsupported scheme"@,
        }
    }

    /// The reason, in words.
    pub fn message(&self) -> (message: &'static str)
        ensures
            message@ == self.reason(),
    {
        match self {
            UrlError::MissingScheme => "Invalid URL: missing scheme",
            UrlError::UnsupportedScheme => "Unsupported scheme",
        }
    }
}

/// The port that a scheme stands for, if it is one of the two that are known.
pub open spec fn scheme_port(scheme: Seq<char>) -> Option<u16> {
    if scheme == "http"@ {
        Some(HTTP_PORT)
    } else if scheme == "https"@ {
        Some(HTTPS_PORT)
    } else {
        None
    }
}

/// What stands behind the scheme, up to the path.
pub open spec fn authority_of(rest: Seq<char>) -> Seq<char> {
    match first_occurrence(rest, seq!['/']) {
        Some(at) => rest.take(at),
        None => rest,
    }
}

/// The path behind the authority: from the first slash on, or a slash alone.
pub open spec fn path_of(rest: Seq<char>) -> Seq<char> {
    match first_occurrence(rest, seq!['/']) {
        Some(at) => rest.skip(at),
        None => "/"@,
    }
}

/// The host: the authority up to its last colon.
pub open spec fn host_of(authority: Seq<char>) -> Seq<char> {
    match last_occurrence(authority, seq![':']) {
        Some(at) => authority.take(at),
        None => authority,
    }
}

/// The port: what stands behind the last colon of the authority, where that is a port
/// number, and else `default`.
pub open spec fn port_of(authority: Seq<char>, default: u16) -> u16 {
    match last_occurrence(authority, seq![':']) {
        Some(at) => match unsigned_value(authority.skip(at + 1), 10, u16::MAX as int) {
            Some(port) => port as u16,
            None => default,
        },
        None => default,
    }
}

/// The parts of a URL, or why it is refused.
pub open spec fn parsed_url(url: Seq<char>) -> Result<UrlView, UrlError> {
    match first_occurrence(url, "://"@) {
        Some(at) => match scheme_port(url.take(at)) {
            Some(default) => {
                let rest = url.skip(at + 3);
                let authority = authority_of(rest);
                Ok(
                    UrlView {
                        host: host_of(authority),
                        authority,
                        port: port_of(authority, default),
                        path: path_of(rest),
                    },
                )
            },
            None => Err(UrlError::UnsupportedScheme),
        },
        None => Err(UrlError::MissingScheme),
    }
}

/// Where the scheme ends.
fn find_scheme_end(chars: &Vec<char>) -> (found: Option<usize>)
    ensures
        match found {
            Some(at) => at + 3 <= chars@.len() && first_occurrence(chars@, "://"@) == Some(
                at as int,
            ),
            None => first_occurrence(chars@, "://"@) is None,
        },
{
    proof {
        reveal_strlit("://");
        lemma_first_found(chars@, "://"@);
    }
    let mut i: usize = 0;
    while i < chars.len()
        invariant
            i <= chars@.len(),
            "://"@ =~= seq![':', '/', '/'],
            forall|j: int| 0 <= j < i ==> !occurs_at(chars@, "://"@, j),
        decreases chars@.len() - i,
    {
        if chars.len() - i >= 3 && chars[i] == ':' && chars[i + 1] == '/' && chars[i + 2] == '/' {
            proof {
                assert(chars@.subrange(i as int, i + 3) =~= "://"@);
                assert(first_occurs_at(chars@, "://"@, i as int));
                lemma_first_occurrence(chars@, "://"@, i as int);
            }
            return Some(i);
        }
        proof {
            if occurs_at(chars@, "://"@, i as int) {
                let here = chars@.subrange(i as int, i + 3);
                assert(here[0] == chars@[i as int] && here[1] == chars@[i + 1] && here[2]
                    == chars@[i + 2]);
            }
        }
        i += 1;
    }
    None
}

/// Whether `chars[..end]` is `word`.
fn starts_as(chars: &Vec<char>, end: usize, word: &str) -> (same: bool)
    requires
        end <= chars@.len(),
    ensures
        same == (chars@.take(end as int) == word@),
{
    let letters = to_chars(word);
    if letters.len() != end {
        return false;
    }
    let mut i: usize = 0;
    while i < end
        invariant
            i <= end <= chars@.len(),
            letters@ == word@,
            letters@.len() == end,
            forall|j: int| 0 <= j < i ==> chars@[j] == word@[j],
        decreases end - i,
    {
        if chars[i] != letters[i] {
            assert(chars@.take(end as int)[i as int] != word@[i as int]);
            return false;
        }
        i += 1;
    }
    assert(chars@.take(end as int) =~= word@);
    true
}

/// Takes a URL apart.
pub fn parse_url(url: &str) -> (parts: Result<UrlParts, UrlError>)
    ensures
        match parts {
            Ok(parts) => parsed_url(url@) == Ok::<UrlView, UrlError>(parts@),
            Err(error) => parsed_url(url@) == Err::<UrlView, UrlError>(error),
        },
{
    let chars = to_chars(url);
    let len: usize = chars.len();
    let scheme_end: usize = match find_scheme_end(&chars) {
        Some(at) => at,
        None => {
            return Err(UrlError::MissingScheme);
        },
    };
    let default_port: u16 = if starts_as(&chars, scheme_end, "http") {
        HTTP_PORT
    } else if starts_as(&chars, scheme_end, "https") {
        HTTPS_PORT
    } else {
        return Err(UrlError::UnsupportedScheme);
    };
    let start: usize = scheme_end + 3;
    let ghost rest = url@.skip(start as int);
    assert(rest =~= chars@.subrange(start as int, len as int));
    proof {
        lemma_first_found(rest, seq!['/']);
    }
    let (authority_end, path): (usize, String) = match find_char(&chars, start, len, '/') {
        Some(at) => {
            assert(chars@.subrange(at as int, len as int) =~= rest.skip(at - start));
            (at, url.substring_char(at, len).to_owned())
        },
        None => (len, "/".to_owned()),
    };
    let ghost authority = chars@.subrange(start as int, authority_end as int);
    assert(authority =~= authority_of(rest));
    proof {
        lemma_last_found(authority, seq![':']);
    }
    let (host_end, port): (usize, u16) = match find_last_char(
        &chars,
        start,
        authority_end,
        ':',
    ) {
        Some(at) => {
            assert(chars@.subrange(at + 1, authority_end as int) =~= authority.skip(
                at - start + 1,
            ));
            assert(chars@.subrange(start as int, at as int) =~= authority.take(at - start));
            proof {
                lemma_unsigned_bound(authority.skip(at - start + 1), 10, u16::MAX as int);
            }
            match parse_unsigned(&chars, at + 1, authority_end, 10, u16::MAX as usize) {
                Some(port) => (at, port as u16),
                None => (at, default_port),
            }
        },
        None => (authority_end, default_port),
    };
    Ok(
        UrlParts {
            host: url.substring_char(start, host_end).to_owned(),
            authority: url.substring_char(start, authority_end).to_owned(),
            port,
            path,
        },
    )
}

/// What is looked up to connect to `host`.
pub open spec fn lookup_text(host: Seq<char>, port: u16) -> Seq<char> {
    host + seq![':'] + decimal(port as nat)
}

/// What is looked up to connect to `host`: the host, a colon and the port.
pub fn lookup_target(host: &str, port: u16) -> (target: String)
    ensures
        target@ == host@ + seq![':'] + decimal(port as nat),
        target@ == lookup_text(host@, port),
{
    proof {
        reveal_strlit(":");
        assert(":"@ =~= seq![':']);
    }
    let mut target = host.to_owned();
    target.append(":");
    target.append(decimal_text(port as u64).as_str());
    target
}

/// Which of the addresses of a server is taken, given for each whether it is an IPv4
/// address: the first IPv4 address, or the first address where there is none.
pub open spec fn chosen_address(is_ipv4: Seq<bool>) -> Option<int> {
    match first_occurrence(is_ipv4, seq![true]) {
        Some(at) => Some(at),
        None => if is_ipv4.len() > 0 {
            Some(0)
        } else {
            None
        },
    }
}

/// Which of the addresses of a server is taken.
pub fn choose_address(is_ipv4: &[bool]) -> (chosen: Option<usize>)
    ensures
        match chosen {
            Some(at) => at < is_ipv4@.len() && chosen_address(is_ipv4@) == Some(at as int),
            None => chosen_address(is_ipv4@) is None,
        },
{
    let mut i: usize = 0;
    while i < is_ipv4.len()
        invariant
            i <= is_ipv4@.len(),
            forall|j: int| 0 <= j < i ==> !occurs_at(is_ipv4@, seq![true], j),
        decreases is_ipv4@.len() - i,
    {
        if is_ipv4[i] {
            proof {
                assert(is_ipv4@.subrange(i as int, i + 1) =~= seq![true]);
                lemma_first_occurrence(is_ipv4@, seq![true], i as int);
            }
            return Some(i);
        }
        proof {
            if occurs_at(is_ipv4@, seq![true], i as int) {
                assert(is_ipv4@.subrange(i as int, i + 1)[0] == is_ipv4@[i as int]);
            }
        }
        i += 1;
    }
    proof {
        lemma_first_found(is_ipv4@, seq![true]);
    }
    if is_ipv4.len() > 0 {
        Some(0)
    } else {
        None
    }
}

} // verus!
