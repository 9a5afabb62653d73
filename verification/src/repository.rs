//! The repository component of a reference:
//! `[registry/][organization/]container`.

use vstd::prelude::*;
use vstd::string::StrSliceExecFns;
use crate::registry::{
    lemma_format_registry_chars, lemma_host_chars, lemma_registry_parse_shape,
    lemma_registry_parse_wf, lemma_registry_round_trip, registry_view_wf, spec_format_registry,
    spec_parse_registry, Registry, RegistryView,
};
use crate::text::{
    ascii_alnum, contains_char, dec_digits, find_last, is_ascii_alnum, is_digit_char, is_path_char,
    lemma_concat_free, lemma_dec_digits, lemma_index_of_last_none, lemma_split_at_last, path_char,
    str_equal,
};

verus! {

/// A repository parsing error: the stage of the grammar the text violates.
#[derive(Copy, Clone, Debug, PartialEq, Eq, Hash)]
pub enum Error {
    /// invalid registry
    Registry(crate::registry::Error),
    /// invalid organization
    Organization,
    /// invalid container
    Container,
}

/// A container repository: an optional registry, an optional organization,
/// and the container name.
#[derive(Clone, Debug, PartialEq, Eq, Hash)]
pub struct Repository {
    /// the registry (`quay.io:1234` in `quay.io:1234/foo/bar`)
    pub registry: Option<Registry>,
    /// the organization (`foo` in `quay.io/foo/bar`)
    pub organization: Option<String>,
    /// the container (`bar` in `quay.io/foo/bar`)
    pub container: String,
}

/// The mathematical content of a `Repository`.
#[verifier::ext_equal]
pub ghost struct RepositoryView {
    pub registry: Option<RegistryView>,
    pub organization: Option<Seq<char>>,
    pub container: Seq<char>,
}

impl View for Repository {
    type V = RepositoryView;

    open spec fn view(&self) -> RepositoryView {
        RepositoryView {
            registry: match self.registry {
                Some(r) => Some(r@),
                None => None,
            },
            organization: match self.organization {
                Some(o) => Some(o@),
                None => None,
            },
            container: self.container@,
        }
    }
}

/// A valid path segment (organization or container): non-empty, made of
/// ASCII alphanumerics, `_`, `.` and `-`, and starting and ending with an
/// alphanumeric.
pub open spec fn is_valid_path_segment(s: Seq<char>) -> bool {
    &&& s.len() > 0
    &&& forall|i: int| 0 <= i < s.len() ==> is_path_char(#[trigger] s[i])
    &&& is_ascii_alnum(s[0])
    &&& is_ascii_alnum(s[s.len() - 1])
}

/// The single-segment prefix disambiguation: the literal `localhost`, or any
/// dot or colon, marks the prefix as a registry host rather than an
/// organization.
pub open spec fn looks_like_registry(s: Seq<char>) -> bool {
    s == "localhost"@ || s.contains('.') || s.contains(':')
}

/// What parsing repository text yields.  The text splits at its last slash
/// into prefix and container; a prefix with no further slash is either a
/// registry (when it looks like one) or an organization; a prefix with a
/// slash splits once more into registry and organization.  Stages are
/// checked in the order registry, organization, container.
pub open spec fn spec_parse_repository(s: Seq<char>) -> Result<RepositoryView, Error> {
    match s.index_of_last('/') {
        None => if is_valid_path_segment(s) {
            Ok(RepositoryView { registry: None, organization: None, container: s })
        } else {
            Err(Error::Container)
        },
        Some(k) => {
            let prefix = s.take(k);
            let container = s.skip(k + 1);
            match prefix.index_of_last('/') {
                None => if looks_like_registry(prefix) {
                    match spec_parse_registry(prefix) {
                        Err(e) => Err(Error::Registry(e)),
                        Ok(rv) => if is_valid_path_segment(container) {
                            Ok(
                                RepositoryView {
                                    registry: Some(rv),
                                    organization: None,
                                    container: container,
                                },
                            )
                        } else {
                            Err(Error::Container)
                        },
                    }
                } else {
                    if !is_valid_path_segment(prefix) {
                        Err(Error::Organization)
                    } else if !is_valid_path_segment(container) {
                        Err(Error::Container)
                    } else {
                        Ok(
                            RepositoryView {
                                registry: None,
                                organization: Some(prefix),
                                container: container,
                            },
                        )
                    }
                },
                Some(m) => {
                    let reg = prefix.take(m);
                    let org = prefix.skip(m + 1);
                    match spec_parse_registry(reg) {
                        Err(e) => Err(Error::Registry(e)),
                        Ok(rv) => if !is_valid_path_segment(org) {
                            Err(Error::Organization)
                        } else if !is_valid_path_segment(container) {
                            Err(Error::Container)
                        } else {
                            Ok(
                                RepositoryView {
                                    registry: Some(rv),
                                    organization: Some(org),
                                    container: container,
                                },
                            )
                        },
                    }
                },
            }
        },
    }
}

/// The canonical text of a repository: `registry/`, then `organization/`,
/// each when present, then the container.
pub open spec fn spec_format_repository(v: RepositoryView) -> Seq<char> {
    (match v.registry {
        Some(r) => spec_format_registry(r) + seq!['/'],
        None => Seq::<char>::empty(),
    }) + (match v.organization {
        Some(o) => o + seq!['/'],
        None => Seq::<char>::empty(),
    }) + v.container
}

/// A repository in canonical form: what every successfully parsed repository
/// satisfies.  The last two conjuncts record the disambiguation: a lone
/// organization never looks like a registry, and a registry standing alone
/// before the container is recognizable as one when read back.
pub open spec fn repository_view_wf(v: RepositoryView) -> bool {
    &&& is_valid_path_segment(v.container)
    &&& match v.organization {
        Some(o) => is_valid_path_segment(o),
        None => true,
    }
    &&& match v.registry {
        Some(r) => registry_view_wf(r),
        None => true,
    }
    &&& match (v.registry, v.organization) {
        (None, Some(o)) => !looks_like_registry(o),
        (Some(r), None) => r.port is Some || r.host.contains('.') || r.host == "localhost"@,
        _ => true,
    }
}

/// Whether the path-segment grammar accepts `s`.
fn check_segment(s: &str) -> (b: bool)
    ensures
        b == is_valid_path_segment(s@),
{
    let n = s.unicode_len();
    if n == 0 {
        return false;
    }
    if !ascii_alnum(s.get_char(0)) {
        return false;
    }
    if !ascii_alnum(s.get_char(n - 1)) {
        return false;
    }
    let mut i: usize = 0;
    while i < n
        invariant
            n == s@.len(),
            i <= n,
            forall|k: int| 0 <= k < i ==> is_path_char(#[trigger] s@[k]),
        decreases n - i,
    {
        if !path_char(s.get_char(i)) {
            return false;
        }
        i = i + 1;
    }
    true
}

/// Validates one path segment and hands it back owned; on any violation of
/// the path-segment grammar, the caller-chosen error.
pub fn path(from: &str, err: Error) -> (r: Result<String, Error>)
    ensures
        match r {
            Ok(s) => is_valid_path_segment(from@) && s@ == from@,
            Err(e) => !is_valid_path_segment(from@) && e == err,
        },
{
    if check_segment(from) {
        Ok(from.to_owned())
    } else {
        Err(err)
    }
}

impl Repository {
    /// Parses `[registry/][organization/]container`, in exact agreement with
    /// `spec_parse_repository`.
    pub fn parse(s: &str) -> (r: Result<Repository, Error>)
        ensures
            match spec_parse_repository(s@) {
                Ok(v) => r matches Ok(rep) && rep@ == v && repository_view_wf(v),
                Err(e) => r matches Err(e2) && e2 == e,
            },
    {
        proof {
            lemma_repository_parse_wf(s@);
            s@.index_of_last_ensures('/');
        }
        let n = s.unicode_len();
        match find_last(s, '/') {
            None => match path(s, Error::Container) {
                Err(e) => Err(e),
                Ok(c) => Ok(Repository { registry: None, organization: None, container: c }),
            },
            Some(k) => {
                let prefix = s.substring_char(0, k);
                let container = s.substring_char(k + 1, n);
                proof {
                    assert(prefix@ =~= s@.take(k as int));
                    assert(container@ =~= s@.skip(k as int + 1));
                    prefix@.index_of_last_ensures('/');
                }
                let pn = prefix.unicode_len();
                match find_last(prefix, '/') {
                    None => {
                        if str_equal(prefix, "localhost") || contains_char(prefix, '.')
                            || contains_char(prefix, ':') {
                            match Registry::parse(prefix) {
                                Err(e) => Err(Error::Registry(e)),
                                Ok(reg) => match path(container, Error::Container) {
                                    Err(e) => Err(e),
                                    Ok(c) => Ok(
                                        Repository {
                                            registry: Some(reg),
                                            organization: None,
                                            container: c,
                                        },
                                    ),
                                },
                            }
                        } else {
                            match path(prefix, Error::Organization) {
                                Err(e) => Err(e),
                                Ok(o) => match path(container, Error::Container) {
                                    Err(e) => Err(e),
                                    Ok(c) => Ok(
                                        Repository {
                                            registry: None,
                                            organization: Some(o),
                                            container: c,
                                        },
                                    ),
                                },
                            }
                        }
                    },
                    Some(m) => {
                        let reg_text = prefix.substring_char(0, m);
                        let org_text = prefix.substring_char(m + 1, pn);
                        proof {
                            assert(reg_text@ =~= s@.take(k as int).take(m as int));
                            assert(org_text@ =~= s@.take(k as int).skip(m as int + 1));
                        }
                        match Registry::parse(reg_text) {
                            Err(e) => Err(Error::Registry(e)),
                            Ok(reg) => match path(org_text, Error::Organization) {
                                Err(e) => Err(e),
                                Ok(o) => match path(container, Error::Container) {
                                    Err(e) => Err(e),
                                    Ok(c) => Ok(
                                        Repository {
                                            registry: Some(reg),
                                            organization: Some(o),
                                            container: c,
                                        },
                                    ),
                                },
                            },
                        }
                    },
                }
            },
        }
    }

    /// Renders the canonical `[registry/][organization/]container` text of
    /// this repository.
    pub fn to_string(&self) -> (r: String)
        ensures
            r@ == spec_format_repository(self@),
    {
        let mut out = String::new();
        match &self.registry {
            Some(reg) => {
                let rs = reg.to_string();
                out.append(rs.as_str());
                out.append("/");
            },
            None => {},
        }
        match &self.organization {
            Some(o) => {
                out.append(o.as_str());
                out.append("/");
            },
            None => {},
        }
        out.append(self.container.as_str());
        proof {
            reveal_strlit("/");
            assert("/"@ =~= seq!['/']);
            assert(out@ =~= spec_format_repository(self@));
        }
        out
    }
}

/// No valid path segment contains a slash, a colon, an at sign or a dot at
/// its first position other than alphanumerics allow.
pub proof fn lemma_segment_chars(s: Seq<char>)
    requires
        is_valid_path_segment(s),
    ensures
        forall|i: int| 0 <= i < s.len() ==> s[i] != '/',
        forall|i: int| 0 <= i < s.len() ==> s[i] != ':',
        forall|i: int| 0 <= i < s.len() ==> s[i] != '@',
{
    assert forall|i: int| 0 <= i < s.len() implies s[i] != '/' && s[i] != ':' && s[i] != '@' by {
        assert(is_path_char(s[i]));
    }
}

/// Every successfully parsed repository is in canonical form.
pub proof fn lemma_repository_parse_wf(s: Seq<char>)
    ensures
        spec_parse_repository(s) matches Ok(v) ==> repository_view_wf(v),
{
    if let Ok(v) = spec_parse_repository(s) {
        match s.index_of_last('/') {
            None => {},
            Some(k) => {
                let prefix = s.take(k);
                match prefix.index_of_last('/') {
                    None => {
                        if looks_like_registry(prefix) {
                            lemma_registry_parse_wf(prefix);
                            lemma_registry_parse_shape(prefix);
                            if let Ok(rv) = spec_parse_registry(prefix) {
                                if prefix.contains(':') {
                                } else if prefix.contains('.') {
                                } else {
                                    assert(prefix == "localhost"@);
                                    assert(rv.host == prefix);
                                }
                            }
                        }
                    },
                    Some(m) => {
                        lemma_registry_parse_wf(prefix.take(m));
                    },
                }
            },
        }
    }
}

/// The canonical repository text never holds an at sign, and whatever
/// follows its last colon, if any, holds a slash: the colon of a registry
/// port can never be read back as a tag separator.
pub proof fn lemma_format_repository_chars(v: RepositoryView)
    requires
        repository_view_wf(v),
    ensures
        forall|i: int|
            0 <= i < spec_format_repository(v).len() ==> spec_format_repository(v)[i] != '@',
        match spec_format_repository(v).index_of_last(':') {
            None => true,
            Some(c) => spec_format_repository(v).skip(c + 1).contains('/'),
        },
{
    let f = spec_format_repository(v);
    lemma_segment_chars(v.container);
    let slash = seq!['/'];
    assert(slash[0] == '/');
    let orgpart = match v.organization {
        Some(o) => o + slash,
        None => Seq::<char>::empty(),
    };
    if let Some(o) = v.organization {
        lemma_segment_chars(o);
        lemma_concat_free(o, slash, ':');
        lemma_concat_free(o, slash, '@');
    }
    let tail = orgpart + v.container;
    lemma_concat_free(orgpart, v.container, ':');
    lemma_concat_free(orgpart, v.container, '@');
    match v.registry {
        None => {
            assert(f =~= tail);
            lemma_index_of_last_none(f, ':');
        },
        Some(r) => {
            lemma_host_chars(r.host);
            match r.port {
                None => {
                    assert(f =~= r.host + slash + tail);
                    lemma_concat_free(r.host, slash, ':');
                    lemma_concat_free(r.host + slash, tail, ':');
                    lemma_concat_free(r.host, slash, '@');
                    lemma_concat_free(r.host + slash, tail, '@');
                    lemma_index_of_last_none(f, ':');
                },
                Some(p) => {
                    lemma_dec_digits(p as nat);
                    let digits = dec_digits(p as nat);
                    assert forall|i: int|
                        0 <= i < digits.len() implies digits[i] != ':' && digits[i] != '@'
                            && digits[i] != '/' by {
                        assert(is_digit_char(digits[i]));
                    }
                    let rest = digits + slash + tail;
                    assert(f =~= r.host + seq![':'] + rest);
                    lemma_concat_free(digits, slash, ':');
                    lemma_concat_free(digits + slash, tail, ':');
                    lemma_split_at_last(r.host, rest, ':');
                    assert(f.skip(r.host.len() as int + 1) == rest);
                    assert(rest[digits.len() as int] == '/');
                    assert(rest.contains('/'));
                    lemma_concat_free(digits, slash, '@');
                    lemma_concat_free(digits + slash, tail, '@');
                    assert(seq![':'][0] == ':');
                    lemma_concat_free(r.host, seq![':'], '@');
                    lemma_concat_free(r.host + seq![':'], rest, '@');
                },
            }
        },
    }
}

/// ROUND TRIP: formatting a canonical repository and parsing the result
/// yields the repository back.
pub proof fn lemma_repository_round_trip(v: RepositoryView)
    requires
        repository_view_wf(v),
    ensures
        spec_parse_repository(spec_format_repository(v)) == Ok::<RepositoryView, Error>(v),
{
    let f = spec_format_repository(v);
    lemma_segment_chars(v.container);
    match (v.registry, v.organization) {
        (None, None) => {
            assert(f =~= v.container);
            lemma_index_of_last_none(v.container, '/');
            assert(RepositoryView { registry: None, organization: None, container: f } =~= v);
        },
        (None, Some(o)) => {
            lemma_segment_chars(o);
            assert(f =~= o + seq!['/'] + v.container);
            lemma_split_at_last(o, v.container, '/');
            lemma_index_of_last_none(o, '/');
            assert(f.take(o.len() as int) == o);
            assert(f.skip(o.len() as int + 1) == v.container);
            assert(RepositoryView {
                registry: None,
                organization: Some(o),
                container: v.container,
            } =~= v);
        },
        (Some(r), None) => {
            let fr = spec_format_registry(r);
            lemma_format_registry_chars(r);
            lemma_registry_round_trip(r);
            assert(f =~= fr + seq!['/'] + v.container);
            lemma_split_at_last(fr, v.container, '/');
            lemma_index_of_last_none(fr, '/');
            if r.port is Some {
                assert(fr.contains(':'));
            } else if r.host.contains('.') {
                assert(fr.contains('.'));
            } else {
                assert(fr == r.host);
                assert(fr == "localhost"@);
            }
            assert(looks_like_registry(fr));
            assert(f.take(fr.len() as int) == fr);
            assert(f.skip(fr.len() as int + 1) == v.container);
            assert(RepositoryView {
                registry: Some(r),
                organization: None,
                container: v.container,
            } =~= v);
        },
        (Some(r), Some(o)) => {
            let fr = spec_format_registry(r);
            lemma_format_registry_chars(r);
            lemma_registry_round_trip(r);
            lemma_segment_chars(o);
            let a = fr + seq!['/'] + o;
            assert(f =~= a + seq!['/'] + v.container);
            lemma_split_at_last(a, v.container, '/');
            assert(f.take(a.len() as int) == a);
            assert(f.skip(a.len() as int + 1) == v.container);
            lemma_split_at_last(fr, o, '/');
            assert(a.take(fr.len() as int) == fr);
            assert(a.skip(fr.len() as int + 1) == o);
            assert(RepositoryView {
                registry: Some(r),
                organization: Some(o),
                container: v.container,
            } =~= v);
        },
    }
}

/// IDEMPOTENCE: re-parsing the canonical text of any successful parse gives
/// the same outcome as the original parse.
pub proof fn lemma_repository_parse_idempotent(s: Seq<char>)
    ensures
        spec_parse_repository(s) matches Ok(v) ==> spec_parse_repository(
            spec_format_repository(v),
        ) == spec_parse_repository(s),
{
    if let Ok(v) = spec_parse_repository(s) {
        lemma_repository_parse_wf(s);
        lemma_repository_round_trip(v);
    }
}

} // verus!
