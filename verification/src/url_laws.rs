//! What holds of every URL that is taken apart.

use crate::seek::{
    first_occurrence, first_occurs_at, last_occurrence, last_occurs_at, lemma_first_found,
    lemma_first_occurrence, lemma_has_first, lemma_last_found, lemma_last_occurrence, occurs_at,
};
use crate::text::{decimal, law_decimal_reads_back, lemma_decimal_digits, unsigned_value};
use crate::text_laws::{
    decimal_digits, law_decimal_writes_the_number, law_number_is_read, law_number_was_written,
    numeral, sign, writes_digit, writes_digits,
};
use crate::url::{
    authority_of, chosen_address, host_of, lookup_text, parsed_url, path_of, port_of, scheme_port, UrlError,
    UrlView,
};
use vstd::prelude::*;

verus! {

/// The text of a URL.
pub open spec fn url_text(scheme: Seq<char>, authority: Seq<char>, path: Seq<char>) -> Seq<char> {
    scheme + "://"@ + authority + path
}

/// The parts of a URL make it up again: the scheme, the authority and the path, where
/// only a path that is a slash alone may have been missing.
pub proof fn law_parts_make_up_the_url(url: Seq<char>)
    ensures
        parsed_url(url) matches Ok(parts) ==> exists|scheme: Seq<char>|
            #![trigger scheme_port(scheme)]
            {
                &&& scheme_port(scheme) is Some
                &&& {
                    ||| url == url_text(scheme, parts.authority, parts.path)
                    ||| parts.path == "/"@ && url == url_text(
                        scheme,
                        parts.authority,
                        Seq::empty(),
                    )
                }
            },
{
    if let Ok(parts) = parsed_url(url) {
        let at = first_occurrence(url, "://"@)->0;
        reveal_strlit("://");
        lemma_first_found(url, "://"@);
        let scheme = url.take(at);
        let rest = url.skip(at + 3);
        assert(scheme_port(scheme) is Some);
        assert(url =~= scheme + url.subrange(at, at + 3) + rest);
        lemma_first_found(rest, seq!['/']);
        match first_occurrence(rest, seq!['/']) {
            Some(slash) => {
                assert(rest =~= rest.take(slash) + rest.skip(slash));
                assert(url =~= url_text(scheme, parts.authority, parts.path));
            },
            None => {
                assert(url =~= url_text(scheme, parts.authority, Seq::empty()));
            },
        }
    }
}

/// The path begins with a slash, and the authority holds none.
pub proof fn law_path_begins_with_a_slash(url: Seq<char>)
    ensures
        parsed_url(url) matches Ok(parts) ==> {
            &&& parts.path.len() > 0 && parts.path[0] == '/'
            &&& !parts.authority.contains('/')
        },
{
    if let Ok(parts) = parsed_url(url) {
        reveal_strlit("/");
        let rest = url.skip(first_occurrence(url, "://"@)->0 + 3);
        lemma_first_found(rest, seq!['/']);
        let slash = first_occurrence(rest, seq!['/']);
        if let Some(at) = slash {
            assert(rest.subrange(at, at + 1)[0] == rest[at]);
        }
        assert forall|i: int| 0 <= i < parts.authority.len() implies parts.authority[i] != '/' by {
            if parts.authority[i] == '/' {
                assert(rest.subrange(i, i + 1) =~= seq!['/']);
                assert(occurs_at(rest, seq!['/'], i));
                lemma_has_first(rest, seq!['/'], i);
            }
        }
    }
}

/// The host is the authority, or the authority up to a colon that none follows.
pub proof fn law_host_within_the_authority(url: Seq<char>)
    ensures
        parsed_url(url) matches Ok(parts) ==> parts.authority == parts.host || exists|
            behind: Seq<char>,
        |
            #![trigger parts.host + seq![':'] + behind]
            parts.authority == parts.host + seq![':'] + behind && !behind.contains(':'),
{
    if let Ok(parts) = parsed_url(url) {
        let authority = parts.authority;
        lemma_last_found(authority, seq![':']);
        if let Some(at) = last_occurrence(authority, seq![':']) {
            let behind = authority.skip(at + 1);
            assert(authority =~= authority.take(at) + authority.subrange(at, at + 1) + behind);
            assert(authority == parts.host + seq![':'] + behind);
            assert forall|i: int| 0 <= i < behind.len() implies behind[i] != ':' by {
                if behind[i] == ':' {
                    let j = at + 1 + i;
                    assert(authority.subrange(j, j + 1) =~= seq![':']);
                    assert(occurs_at(authority, seq![':'], j));
                }
            }
        }
    }
}

/// A URL that is put together from a known scheme, a host, a port and a path is taken
/// apart into the same.
pub proof fn law_url_reads_back(scheme: Seq<char>, host: Seq<char>, port: u16, path: Seq<char>)
    requires
        scheme_port(scheme) is Some,
        !host.contains('/'),
        path.len() > 0,
        path[0] == '/',
    ensures
        ({
            let authority = host + seq![':'] + decimal(port as nat);
            parsed_url(url_text(scheme, authority, path)) == Ok::<UrlView, UrlError>(
                UrlView { host, authority, port, path },
            )
        }),
{
    let digits = decimal(port as nat);
    let authority = host + seq![':'] + digits;
    let url = url_text(scheme, authority, path);
    let rest = authority + path;
    lemma_decimal_digits(port as nat);
    lemma_scheme_found(scheme, rest);
    assert(url =~= scheme + "://"@ + rest);
    assert(url.take(scheme.len() as int) =~= scheme);
    reveal_strlit("://");
    assert(url.skip((scheme.len() + 3) as int) =~= rest);
    assert forall|i: int| 0 <= i < authority.len() implies !occurs_at(rest, seq!['/'], i) by {
        assert(rest.subrange(i, i + 1)[0] == authority[i]);
        if i < host.len() {
            assert(authority[i] == host[i]);
            assert(host.contains(host[i]));
        } else if i > host.len() {
            assert(authority[i] == digits[i - host.len() - 1]);
        }
    }
    let slash = authority.len() as int;
    assert(rest.subrange(slash, slash + 1) =~= seq!['/']);
    assert(first_occurs_at(rest, seq!['/'], slash));
    lemma_first_occurrence(rest, seq!['/'], slash);
    assert(authority_of(rest) =~= authority);
    assert(path_of(rest) =~= path);
    let colon = host.len() as int;
    assert(authority.subrange(colon, colon + 1) =~= seq![':']);
    assert forall|i: int| colon < i implies !occurs_at(authority, seq![':'], i) by {
        if i < authority.len() {
            assert(authority.subrange(i, i + 1)[0] == authority[i]);
            assert(authority[i] == digits[i - colon - 1]);
        }
    }
    assert(last_occurs_at(authority, seq![':'], colon));
    lemma_last_occurrence(authority, seq![':'], colon);
    assert(host_of(authority) =~= host);
    assert(authority.skip(colon + 1) =~= digits);
    law_decimal_reads_back(port as nat, u16::MAX as int);
    assert(port_of(authority, scheme_port(scheme)->0) == port);
}

/// The end of a known scheme is found where it is.
proof fn lemma_scheme_found(scheme: Seq<char>, rest: Seq<char>)
    requires
        scheme_port(scheme) is Some,
    ensures
        first_occurrence(scheme + "://"@ + rest, "://"@) == Some(scheme.len() as int),
{
    reveal_strlit("://");
    reveal_strlit("http");
    reveal_strlit("https");
    let url = scheme + "://"@ + rest;
    let at = scheme.len() as int;
    assert(url.subrange(at, at + 3) =~= "://"@);
    assert forall|i: int| 0 <= i < at implies !occurs_at(url, "://"@, i) by {
        assert(url.subrange(i, i + 3)[0] == url[i]);
        assert(url[i] == scheme[i]);
    }
    assert(first_occurs_at(url, "://"@, at));
    lemma_first_occurrence(url, "://"@, at);
}

/// One of the two schemes.
pub open spec fn scheme_text(secure: bool) -> Seq<char> {
    if secure {
        seq!['h', 't', 't', 'p', 's']
    } else {
        seq!['h', 't', 't', 'p']
    }
}

/// The port of a scheme.
pub open spec fn scheme_default(secure: bool) -> u16 {
    if secure {
        443
    } else {
        80
    }
}

/// What stands between the scheme and the rest of a URL.
pub open spec fn separator() -> Seq<char> {
    seq![':', '/', '/']
}

/// The path that is asked for where a URL has `path`, which may be empty.
pub open spec fn asked_path(path: Seq<char>) -> Seq<char> {
    if path.len() == 0 {
        seq!['/']
    } else {
        path
    }
}

/// Whether the separator stands in `url` at `at`.
pub open spec fn separates_at(url: Seq<char>, at: int) -> bool {
    0 <= at <= url.len() - 3 && url[at] == ':' && url[at + 1] == '/' && url[at + 2] == '/'
}

/// The separator is looked for.
proof fn lemma_separator(url: Seq<char>, at: int)
    ensures
        "://"@ == separator(),
        occurs_at(url, "://"@, at) == separates_at(url, at),
{
    reveal_strlit("://");
    assert("://"@ =~= separator());
    if occurs_at(url, "://"@, at) {
        let here = url.subrange(at, at + 3);
        assert(here[0] == url[at] && here[1] == url[at + 1] && here[2] == url[at + 2]);
    }
    if separates_at(url, at) {
        assert(url.subrange(at, at + 3) =~= "://"@);
    }
}

/// The two schemes have their ports.
proof fn lemma_schemes(scheme: Seq<char>)
    ensures
        scheme == scheme_text(false) ==> scheme_port(scheme) == Some(80u16),
        scheme == scheme_text(true) ==> scheme_port(scheme) == Some(443u16),
        scheme != scheme_text(false) && scheme != scheme_text(true) ==> scheme_port(scheme) is None,
{
    reveal_strlit("http");
    reveal_strlit("https");
    assert("http"@ =~= scheme_text(false));
    assert("https"@ =~= scheme_text(true));
    assert(scheme_text(true).len() != scheme_text(false).len());
}

/// A URL without a separator, and no other, is refused for its missing scheme.
pub proof fn law_missing_scheme(url: Seq<char>)
    ensures
        parsed_url(url) == Err::<UrlView, UrlError>(UrlError::MissingScheme) <==> forall|at: int|
            !separates_at(url, at),
{
    lemma_first_found(url, "://"@);
    if let Some(at) = first_occurrence(url, "://"@) {
        lemma_separator(url, at);
        assert(separates_at(url, at));
    } else {
        assert forall|at: int| !separates_at(url, at) by {
            lemma_separator(url, at);
            if separates_at(url, at) {
                lemma_has_first(url, "://"@, at);
            }
        }
    }
}

/// A URL whose first separator stands behind anything but one of the two schemes, in lower
/// case, and no other, is refused for its scheme.
pub proof fn law_unsupported_scheme(url: Seq<char>, at: int)
    requires
        separates_at(url, at),
        forall|i: int| i < at ==> !separates_at(url, i),
    ensures
        parsed_url(url) == Err::<UrlView, UrlError>(UrlError::UnsupportedScheme) <==> url.take(at)
            != scheme_text(false) && url.take(at) != scheme_text(true),
        parsed_url(url) is Ok <==> url.take(at) == scheme_text(false) || url.take(at)
            == scheme_text(true),
{
    lemma_separator(url, at);
    assert forall|i: int| 0 <= i < at implies !occurs_at(url, "://"@, i) by {
        lemma_separator(url, i);
    }
    assert(first_occurs_at(url, "://"@, at));
    lemma_first_occurrence(url, "://"@, at);
    lemma_schemes(url.take(at));
}

/// A URL of a known scheme is taken apart at the end of its authority.
proof fn lemma_taken_apart(secure: bool, authority: Seq<char>, path: Seq<char>)
    requires
        !authority.contains('/'),
        path.len() > 0 ==> path[0] == '/',
    ensures
        parsed_url(scheme_text(secure) + separator() + authority + path) == Ok::<UrlView, UrlError>(
            UrlView {
                host: host_of(authority),
                authority,
                port: port_of(authority, scheme_default(secure)),
                path: asked_path(path),
            },
        ),
{
    let scheme = scheme_text(secure);
    let rest = authority + path;
    let url = scheme + separator() + authority + path;
    lemma_schemes(scheme);
    lemma_separator(url, 0);
    lemma_scheme_found(scheme, rest);
    assert(url =~= scheme + "://"@ + rest);
    assert(url.take(scheme.len() as int) =~= scheme);
    assert(url.skip((scheme.len() + 3) as int) =~= rest);
    assert forall|i: int| 0 <= i < authority.len() implies !occurs_at(rest, seq!['/'], i) by {
        assert(rest.subrange(i, i + 1)[0] == authority[i]);
        assert(authority.contains(authority[i]));
    }
    let slash = authority.len() as int;
    lemma_first_found(rest, seq!['/']);
    reveal_strlit("/");
    assert("/"@ =~= seq!['/']);
    if path.len() > 0 {
        assert(rest.subrange(slash, slash + 1) =~= seq!['/']);
        assert(first_occurs_at(rest, seq!['/'], slash));
        lemma_first_occurrence(rest, seq!['/'], slash);
        assert(rest.take(slash) =~= authority);
        assert(rest.skip(slash) =~= path);
    } else {
        assert(rest =~= authority);
        assert(first_occurrence(rest, seq!['/']) is None);
    }
}

/// The last colon of an authority is found.
proof fn lemma_last_colon(host: Seq<char>, behind: Seq<char>)
    requires
        !behind.contains(':'),
    ensures
        last_occurrence(host + seq![':'] + behind, seq![':']) == Some(host.len() as int),
{
    let authority = host + seq![':'] + behind;
    let colon = host.len() as int;
    assert(authority.subrange(colon, colon + 1) =~= seq![':']);
    assert forall|i: int| colon < i implies !occurs_at(authority, seq![':'], i) by {
        if i < authority.len() {
            assert(authority.subrange(i, i + 1)[0] == authority[i]);
            assert(authority[i] == behind[i - colon - 1]);
            assert(behind.contains(behind[i - colon - 1]));
        }
    }
    assert(last_occurs_at(authority, seq![':'], colon));
    lemma_last_occurrence(authority, seq![':'], colon);
}

/// A URL without a port has the port of its scheme, and its authority is its host,
/// whatever the path is; without a path a slash is asked for.
pub proof fn law_port_of_the_scheme(secure: bool, host: Seq<char>, path: Seq<char>)
    requires
        !host.contains('/'),
        !host.contains(':'),
        path.len() > 0 ==> path[0] == '/',
    ensures
        parsed_url(scheme_text(secure) + separator() + host + path) == Ok::<UrlView, UrlError>(
            UrlView {
                host,
                authority: host,
                port: if secure {
                    443
                } else {
                    80
                },
                path: if path.len() == 0 {
                    seq!['/']
                } else {
                    path
                },
            },
        ),
{
    lemma_taken_apart(secure, host, path);
    lemma_last_found(host, seq![':']);
    if let Some(at) = last_occurrence(host, seq![':']) {
        assert(host.subrange(at, at + 1)[0] == host[at]);
        assert(host.contains(host[at]));
    }
}

/// A URL with a colon in its authority is taken apart at the last one.
proof fn lemma_with_colon(secure: bool, host: Seq<char>, behind: Seq<char>, path: Seq<char>)
    requires
        !host.contains('/'),
        !behind.contains('/'),
        !behind.contains(':'),
        path.len() > 0 ==> path[0] == '/',
    ensures
        ({
            let authority = host + seq![':'] + behind;
            parsed_url(scheme_text(secure) + separator() + authority + path) == Ok::<
                UrlView,
                UrlError,
            >(
                UrlView {
                    host,
                    authority,
                    port: match unsigned_value(behind, 10, 65535) {
                        Some(port) => port as u16,
                        None => scheme_default(secure),
                    },
                    path: asked_path(path),
                },
            )
        }),
{
    let authority = host + seq![':'] + behind;
    assert forall|i: int| 0 <= i < authority.len() implies authority[i] != '/' by {
        if i < host.len() {
            assert(host.contains(host[i]));
        } else if i > host.len() {
            assert(authority[i] == behind[i - host.len() - 1]);
            assert(behind.contains(behind[i - host.len() - 1]));
        }
    }
    lemma_taken_apart(secure, authority, path);
    lemma_last_colon(host, behind);
    assert(authority.take(host.len() as int) =~= host);
    assert(authority.skip((host.len() + 1) as int) =~= behind);
}

/// A port behind the last colon, in decimal digits with any zeros or a plus sign in front,
/// is the port where it is at most 65535, and else the port is that of the scheme; the
/// host is what stands before that colon, whatever the path is.
pub proof fn law_port_is_read(
    secure: bool,
    host: Seq<char>,
    plus: bool,
    port: Seq<char>,
    digits: Seq<int>,
    path: Seq<char>,
)
    requires
        !host.contains('/'),
        port.len() > 0,
        writes_digits(port, digits, 10),
        path.len() > 0 ==> path[0] == '/',
    ensures
        ({
            let authority = host + seq![':'] + (sign(plus) + port);
            parsed_url(scheme_text(secure) + separator() + authority + path) == Ok::<
                UrlView,
                UrlError,
            >(
                UrlView {
                    host,
                    authority,
                    port: if numeral(digits, 10) <= 65535 {
                        numeral(digits, 10) as u16
                    } else if secure {
                        443
                    } else {
                        80
                    },
                    path: asked_path(path),
                },
            )
        }),
{
    let behind = sign(plus) + port;
    assert forall|i: int| 0 <= i < behind.len() implies behind[i] != ':' && behind[i] != '/' by {
        if i >= sign(plus).len() {
            let j = i - sign(plus).len();
            assert(behind[i] == port[j]);
            assert(writes_digit(port[j], digits[j]));
        }
    }
    law_number_is_read(port, digits, plus, 10, 65535);
    lemma_with_colon(secure, host, behind, path);
}

/// Where what stands behind the last colon is no number, because it holds anything but
/// digits behind a plus sign or none, or holds no digit, the port is that of the scheme.
pub proof fn law_no_port_is_read(
    secure: bool,
    host: Seq<char>,
    behind: Seq<char>,
    at: int,
    path: Seq<char>,
)
    requires
        !host.contains('/'),
        !behind.contains('/'),
        !behind.contains(':'),
        path.len() > 0 ==> path[0] == '/',
        behind.len() == 0 || behind == seq!['+'] || {
            &&& 0 <= at < behind.len()
            &&& !(48 <= behind[at] as int <= 57)
            &&& at > 0 || behind[at] != '+'
        },
    ensures
        ({
            let authority = host + seq![':'] + behind;
            parsed_url(scheme_text(secure) + separator() + authority + path) == Ok::<
                UrlView,
                UrlError,
            >(
                UrlView {
                    host,
                    authority,
                    port: if secure {
                        443
                    } else {
                        80
                    },
                    path: asked_path(path),
                },
            )
        }),
{
    lemma_with_colon(secure, host, behind, path);
    if unsigned_value(behind, 10, 65535) is Some {
        let (plus, digits) = law_number_was_written(behind, 10, 65535);
        let skipped = sign(plus).len() as int;
        let rest = behind.skip(skipped);
        assert(rest.len() > 0);
        if behind == seq!['+'] {
            assert(rest[0] == behind[skipped]);
            assert(writes_digit(rest[0], digits[0]));
        } else {
            if at >= skipped {
                assert(rest[at - skipped] == behind[at]);
                assert(writes_digit(rest[at - skipped], digits[at - skipped]));
            } else {
                assert(behind.take(skipped)[0] == behind[0]);
            }
        }
    }
}

/// The address that is taken is the first IPv4 address, where there is one, and else the
/// first address; there is none only where there are no addresses.
pub proof fn law_ipv4_comes_first(is_ipv4: Seq<bool>)
    ensures
        chosen_address(is_ipv4) is None <==> is_ipv4.len() == 0,
        chosen_address(is_ipv4) matches Some(at) ==> {
            &&& 0 <= at < is_ipv4.len()
            &&& forall|i: int| 0 <= i < at ==> !#[trigger] is_ipv4[i]
            &&& is_ipv4[at] || at == 0 && forall|i: int|
                0 <= i < is_ipv4.len() ==> !#[trigger] is_ipv4[i]
        },
{
    lemma_first_found(is_ipv4, seq![true]);
    assert forall|i: int| 0 <= i < is_ipv4.len() implies occurs_at(is_ipv4, seq![true], i)
        == #[trigger] is_ipv4[i] by {
        assert(is_ipv4.subrange(i, i + 1)[0] == is_ipv4[i]);
        if is_ipv4[i] {
            assert(is_ipv4.subrange(i, i + 1) =~= seq![true]);
        }
    }
    if first_occurrence(is_ipv4, seq![true]) is None {
        assert forall|i: int| 0 <= i < is_ipv4.len() implies !#[trigger] is_ipv4[i] by {
            if is_ipv4[i] {
                assert(occurs_at(is_ipv4, seq![true], i));
                lemma_has_first(is_ipv4, seq![true], i);
            }
        }
    }
}

/// What is looked up names the host and the port: a URL with it as authority has both.
pub proof fn law_lookup_names_host_and_port(host: Seq<char>, port: u16)
    requires
        !host.contains('/'),
    ensures
        parsed_url(scheme_text(false) + separator() + lookup_text(host, port)) == Ok::<
            UrlView,
            UrlError,
        >(UrlView { host, authority: lookup_text(host, port), port, path: seq!['/'] }),
        lookup_text(host, port).len() > host.len(),
{
    let digits = decimal(port as nat);
    let values = decimal_digits(digits);
    law_decimal_writes_the_number(port as nat);
    assert(writes_digits(digits, values, 10)) by {
        assert forall|i: int| 0 <= i < digits.len() implies #[trigger] writes_digit(
            digits[i],
            values[i],
        ) && values[i] < 10 by {
            assert(48 <= digits[i] as int <= 57);
        }
    }
    law_port_is_read(false, host, false, digits, values, Seq::empty());
    assert(sign(false) + digits =~= digits);
    let url = scheme_text(false) + separator() + lookup_text(host, port);
    assert(url + Seq::<char>::empty() =~= url);
}

/// The reasons for which a URL is refused are told in these words.
pub proof fn law_reasons_in_words()
    ensures
        UrlError::MissingScheme.reason() == "Invalid URL: missing scheme"@,
        UrlError::UnsupportedScheme.reason() == "Unsupported scheme"@,
{
}

} // verus!
