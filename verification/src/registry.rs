//! The registry component of a reference: `host[:port]`.

use vstd::prelude::*;
use vstd::string::StrSliceExecFns;
use vstd::string::StringExecFns;
use crate::text::{
    all_digits, append_dec_u16, ascii_alnum, dec_digits, dec_value, decimal_digit, find_first,
    is_ascii_alnum, is_digit_char, is_host_char, lemma_dec_digits, lemma_index_of_first_none,
    lemma_split_at_first,
};

verus! {

/// A registry parsing error: the grammar rule the text violates.
#[derive(Copy, Clone, Debug, PartialEq, Eq, Hash)]
pub enum Error {
    /// invalid host
    Host,
    /// invalid port
    Port,
}

/// A container registry: a host and an optional port.
///
/// A parsed registry always satisfies [`registry_view_wf`]; values built by
/// hand may hold anything, and format back all the same.
#[derive(Clone, Debug, PartialEq, Eq, Hash)]
pub struct Registry {
    /// the host (`quay.io` in `quay.io:1234`)
    pub host: String,
    /// the port (`1234` in `quay.io:1234`); never zero when parsed
    pub port: Option<u16>,
}

/// The mathematical content of a `Registry`.
#[verifier::ext_equal]
pub ghost struct RegistryView {
    pub host: Seq<char>,
    pub port: Option<u16>,
}

impl View for Registry {
    type V = RegistryView;

    open spec fn view(&self) -> RegistryView {
        RegistryView { host: self.host@, port: self.port }
    }
}

/// A valid host: non-empty and dot-separated into segments, where each
/// segment is non-empty, holds only ASCII alphanumerics and hyphens, and
/// neither starts nor ends with a hyphen.  Stated character-wise: all
/// characters are alphanumeric, `-` or `.`; the first and last character are
/// alphanumeric; and every dot has alphanumerics on both sides.
pub open spec fn is_valid_host(s: Seq<char>) -> bool {
    &&& s.len() > 0
    &&& forall|i: int| 0 <= i < s.len() ==> is_host_char(#[trigger] s[i])
    &&& is_ascii_alnum(s[0])
    &&& is_ascii_alnum(s[s.len() - 1])
    &&& forall|i: int|
        0 < i < s.len() - 1 && (#[trigger] s[i]) == '.' ==> is_ascii_alnum(s[i - 1])
            && is_ascii_alnum(s[i + 1])
}

/// A valid port numeral: decimal digits whose value lies between 1 and 65535.
pub open spec fn is_valid_port(s: Seq<char>) -> bool {
    &&& s.len() > 0
    &&& all_digits(s)
    &&& 1 <= dec_value(s) <= 65535
}

/// What parsing registry text yields.  The text splits at its first colon
/// into host and port; an empty host is reported before a malformed port,
/// and any other host violation after it.
pub open spec fn spec_parse_registry(s: Seq<char>) -> Result<RegistryView, Error> {
    match s.index_of_first(':') {
        None => if is_valid_host(s) {
            Ok(RegistryView { host: s, port: None })
        } else {
            Err(Error::Host)
        },
        Some(j) => {
            let host = s.take(j);
            let port = s.skip(j + 1);
            if host.len() == 0 {
                Err(Error::Host)
            } else if !is_valid_port(port) {
                Err(Error::Port)
            } else if !is_valid_host(host) {
                Err(Error::Host)
            } else {
                Ok(RegistryView { host: host, port: Some(dec_value(port) as u16) })
            }
        },
    }
}

/// The canonical text of a registry: the host, then `:port` if a port is
/// present.
pub open spec fn spec_format_registry(v: RegistryView) -> Seq<char> {
    match v.port {
        None => v.host,
        Some(p) => v.host + seq![':'] + dec_digits(p as nat),
    }
}

/// A registry in canonical form: what every successfully parsed registry
/// satisfies.
pub open spec fn registry_view_wf(v: RegistryView) -> bool {
    &&& is_valid_host(v.host)
    &&& match v.port {
        Some(p) => p >= 1,
        None => true,
    }
}

/// Whether the host grammar accepts `s`.
fn check_host(s: &str) -> (b: bool)
    ensures
        b == is_valid_host(s@),
{
    let n = s.unicode_len();
    if n == 0 {
        return false;
    }
    if !ascii_alnum(s.get_char(0)) {
        return false;
    }
    if !ascii_alnum(s.get_char(n - 1)) {
        return false;
    }
    let mut i: usize = 0;
    while i < n
        invariant
            n == s@.len(),
            0 < n,
            i <= n,
            is_ascii_alnum(s@[0]),
            is_ascii_alnum(s@[n - 1]),
            forall|k: int| 0 <= k < i ==> is_host_char(#[trigger] s@[k]),
            forall|k: int|
                0 < k < i && (#[trigger] s@[k]) == '.' ==> is_ascii_alnum(s@[k - 1])
                    && is_ascii_alnum(s@[k + 1]),
        decreases n - i,
    {
        let c = s.get_char(i);
        if !(ascii_alnum(c) || c == '-' || c == '.') {
            return false;
        }
        if c == '.' {
            if i == 0 || i == n - 1 {
                return false;
            }
            if !ascii_alnum(s.get_char(i - 1)) || !ascii_alnum(s.get_char(i + 1)) {
                return false;
            }
        }
        i = i + 1;
    }
    true
}

/// Reads a port numeral; `None` on anything but 1–65535 in decimal digits.
fn parse_port(p: &str) -> (r: Option<u16>)
    ensures
        match r {
            Some(v) => is_valid_port(p@) && v == dec_value(p@),
            None => !is_valid_port(p@),
        },
{
    let n = p.unicode_len();
    if n == 0 {
        return None;
    }
    let mut i: usize = 0;
    let mut acc: u32 = 0;
    while i < n
        invariant
            n == p@.len(),
            i <= n,
            acc <= 655359,
            forall|k: int| 0 <= k < i ==> is_digit_char(#[trigger] p@[k]),
            acc <= 65535 ==> acc == dec_value(p@.take(i as int)),
            acc > 65535 ==> dec_value(p@.take(i as int)) > 65535,
        decreases n - i,
    {
        let c = p.get_char(i);
        if !decimal_digit(c) {
            return None;
        }
        let d: u32 = (c as u32) - ('0' as u32);
        proof {
            assert(p@.take(i + 1 as int).drop_last() =~= p@.take(i as int));
            assert(p@.take(i + 1 as int).last() == p@[i as int]);
        }
        if acc <= 65535 {
            acc = acc * 10 + d;
        }
        i = i + 1;
    }
    proof {
        assert(p@.take(n as int) =~= p@);
    }
    if acc == 0 || acc > 65535 {
        None
    } else {
        Some(acc as u16)
    }
}

impl Registry {
    /// Parses `host[:port]`, in exact agreement with `spec_parse_registry`.
    pub fn parse(s: &str) -> (r: Result<Registry, Error>)
        ensures
            match spec_parse_registry(s@) {
                Ok(v) => r matches Ok(reg) && reg@ == v && registry_view_wf(v),
                Err(e) => r matches Err(e2) && e2 == e,
            },
    {
        proof {
            lemma_registry_parse_wf(s@);
            s@.index_of_first_ensures(':');
        }
        let n = s.unicode_len();
        match find_first(s, ':') {
            None => {
                if check_host(s) {
                    Ok(Registry { host: s.to_owned(), port: None })
                } else {
                    Err(Error::Host)
                }
            },
            Some(j) => {
                if j == 0 {
                    return Err(Error::Host);
                }
                let host = s.substring_char(0, j);
                let port_text = s.substring_char(j + 1, n);
                proof {
                    assert(host@ =~= s@.take(j as int));
                    assert(port_text@ =~= s@.skip(j + 1 as int));
                }
                match parse_port(port_text) {
                    None => Err(Error::Port),
                    Some(p) => {
                        if check_host(host) {
                            Ok(Registry { host: host.to_owned(), port: Some(p) })
                        } else {
                            Err(Error::Host)
                        }
                    },
                }
            },
        }
    }

    /// Renders the canonical `host[:port]` text of this registry.
    pub fn to_string(&self) -> (r: String)
        ensures
            r@ == spec_format_registry(self@),
    {
        let mut out: String = self.host.clone();
        match self.port {
            None => {},
            Some(p) => {
                out.append(":");
                proof {
                    reveal_strlit(":");
                    assert(":"@ =~= seq![':']);
                }
                append_dec_u16(&mut out, p);
            },
        }
        proof {
            assert(out@ =~= spec_format_registry(self@));
        }
        out
    }
}

/// Every successfully parsed registry is in canonical form.
pub proof fn lemma_registry_parse_wf(s: Seq<char>)
    ensures
        spec_parse_registry(s) matches Ok(v) ==> registry_view_wf(v),
{
}

/// No valid host contains a colon, a slash or an at sign.
pub proof fn lemma_host_chars(s: Seq<char>)
    requires
        is_valid_host(s),
    ensures
        forall|i: int| 0 <= i < s.len() ==> s[i] != ':',
        forall|i: int| 0 <= i < s.len() ==> s[i] != '/',
        forall|i: int| 0 <= i < s.len() ==> s[i] != '@',
{
    assert forall|i: int| 0 <= i < s.len() implies s[i] != ':' && s[i] != '/' && s[i] != '@' by {
        assert(is_host_char(s[i]));
    }
}

/// The canonical registry text never holds a slash or an at sign; it holds
/// a colon exactly when a port is present, and a dot wherever the host does.
pub proof fn lemma_format_registry_chars(v: RegistryView)
    requires
        registry_view_wf(v),
    ensures
        forall|i: int|
            0 <= i < spec_format_registry(v).len() ==> spec_format_registry(v)[i] != '/'
                && spec_format_registry(v)[i] != '@',
        v.host.contains('.') ==> spec_format_registry(v).contains('.'),
        v.port is None ==> spec_format_registry(v) == v.host,
        v.port is Some ==> spec_format_registry(v).contains(':'),
{
    lemma_host_chars(v.host);
    let f = spec_format_registry(v);
    match v.port {
        None => {},
        Some(p) => {
            lemma_dec_digits(p as nat);
            let digits = dec_digits(p as nat);
            assert forall|i: int| 0 <= i < f.len() implies f[i] != '/' && f[i] != '@' by {
                if i < v.host.len() {
                    assert(f[i] == v.host[i]);
                } else if i == v.host.len() {
                    assert(f[i] == ':');
                } else {
                    assert(f[i] == digits[i - v.host.len() - 1]);
                    assert(is_digit_char(f[i]));
                }
            }
            assert(f[v.host.len() as int] == ':');
            if v.host.contains('.') {
                let i = choose|i: int| 0 <= i < v.host.len() && v.host[i] == '.';
                assert(f[i] == '.');
            }
        },
    }
}

/// What the shape of a successful registry parse tells about its input: a
/// port is present exactly when the text holds a colon; without a colon the
/// host is the whole text; and a dot in the text lies in the host.
pub proof fn lemma_registry_parse_shape(p: Seq<char>)
    ensures
        spec_parse_registry(p) matches Ok(v) ==> ((v.port is Some <==> p.contains(':')) && (
        v.port is None ==> v.host == p) && (p.contains('.') ==> v.host.contains('.'))),
{
    p.index_of_first_ensures(':');
    if let Ok(v) = spec_parse_registry(p) {
        match p.index_of_first(':') {
            None => {},
            Some(j) => {
                assert(p[j] == ':');
                assert(p.contains(':'));
                if p.contains('.') {
                    let i = choose|i: int| 0 <= i < p.len() && p[i] == '.';
                    if i > j {
                        assert(p.skip(j + 1)[i - j - 1] == p[i]);
                        assert(is_digit_char(p[i]));
                        assert(false);
                    }
                    assert(v.host[i] == p[i]);
                    assert(v.host.contains('.'));
                }
            },
        }
    }
}

/// ROUND TRIP: formatting a canonical registry and parsing the result
/// yields the registry back.
pub proof fn lemma_registry_round_trip(v: RegistryView)
    requires
        registry_view_wf(v),
    ensures
        spec_parse_registry(spec_format_registry(v)) == Ok::<RegistryView, Error>(v),
{
    lemma_host_chars(v.host);
    match v.port {
        None => {
            lemma_index_of_first_none(v.host, ':');
        },
        Some(p) => {
            lemma_dec_digits(p as nat);
            let digits = dec_digits(p as nat);
            assert forall|i: int| 0 <= i < digits.len() implies digits[i] != ':' by {
                assert(is_digit_char(digits[i]));
            }
            lemma_split_at_first(v.host, digits, ':');
            let f = spec_format_registry(v);
            assert(f == v.host + seq![':'] + digits);
            assert(f.take(v.host.len() as int) == v.host);
            assert(f.skip(v.host.len() as int + 1) == digits);
            assert(spec_parse_registry(f) == Ok::<RegistryView, Error>(
                RegistryView { host: v.host, port: Some(dec_value(digits) as u16) },
            ));
        },
    }
}

/// IDEMPOTENCE: re-parsing the canonical text of any successful parse gives
/// the same outcome as the original parse.
pub proof fn lemma_registry_parse_idempotent(s: Seq<char>)
    ensures
        spec_parse_registry(s) matches Ok(v) ==> spec_parse_registry(spec_format_registry(v))
            == spec_parse_registry(s),
{
    if let Ok(v) = spec_parse_registry(s) {
        lemma_registry_parse_wf(s);
        lemma_registry_round_trip(v);
    }
}

} // verus!
