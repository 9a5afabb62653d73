//! The full image reference: `repository[:tag][@digest]`.

use vstd::prelude::*;
use vstd::string::StrSliceExecFns;
use vstd::string::StringExecFns;
use crate::digest::{
    digest_view_wf, lemma_digest_round_trip, lemma_format_digest_chars, spec_format_digest,
    spec_parse_digest, Digest, DigestView,
};
use crate::repository::{
    lemma_format_repository_chars, lemma_repository_parse_wf, lemma_repository_round_trip,
    repository_view_wf, spec_format_repository, spec_parse_repository, Repository, RepositoryView,
};
use crate::text::{
    ascii_alnum, contains_char, find_last, is_ascii_alnum, is_path_char, lemma_concat_free,
    lemma_index_of_last_none, lemma_split_at_last, path_char,
};

verus! {

/// An image parsing error: the stage of the grammar the text violates.
#[derive(Copy, Clone, Debug, PartialEq, Eq, Hash)]
pub enum Error {
    /// invalid repository
    Repository(crate::repository::Error),
    /// invalid tag
    Tag,
    /// invalid digest
    Digest(crate::digest::Error),
}

/// A container image reference: a repository, an optional tag and an
/// optional digest.  Tag and digest are independent: any combination of
/// present and absent is a valid reference.
#[derive(Clone, Debug, PartialEq, Eq, Hash)]
pub struct Image {
    /// the repository (`quay.io:1234/foo/bar` in `quay.io:1234/foo/bar:latest`)
    pub repository: Repository,
    /// the tag (`latest` in `foo/bar:latest`)
    pub tag: Option<String>,
    /// the digest (`sha256:…` in `foo/bar@sha256:…`)
    pub digest: Option<Digest>,
}

/// The mathematical content of an `Image`.
#[verifier::ext_equal]
pub ghost struct ImageView {
    pub repository: RepositoryView,
    pub tag: Option<Seq<char>>,
    pub digest: Option<DigestView>,
}

impl View for Image {
    type V = ImageView;

    open spec fn view(&self) -> ImageView {
        ImageView {
            repository: self.repository@,
            tag: match self.tag {
                Some(t) => Some(t@),
                None => None,
            },
            digest: match self.digest {
                Some(d) => Some(d@),
                None => None,
            },
        }
    }
}

/// A valid tag: 1 to 128 characters, the first an ASCII alphanumeric or
/// underscore, the rest alphanumerics, `_`, `.` or `-`.
pub open spec fn is_valid_tag(s: Seq<char>) -> bool {
    &&& 1 <= s.len() <= 128
    &&& is_ascii_alnum(s[0]) || s[0] == '_'
    &&& forall|i: int| 1 <= i < s.len() ==> is_path_char(#[trigger] s[i])
}

/// The tag and repository stages, on text whose digest suffix is already
/// stripped.  What follows the last colon is a tag candidate unless it holds
/// a slash (which lets a registry port coexist with a trailing path); an
/// invalid candidate ends the parse, a valid one is stripped, and the rest
/// goes to the repository parser.
pub open spec fn spec_parse_image_after_digest(s: Seq<char>, digest: Option<DigestView>) -> Result<
    ImageView,
    Error,
> {
    match s.index_of_last(':') {
        Some(c) => {
            let lbl = s.skip(c + 1);
            if lbl.contains('/') {
                match spec_parse_repository(s) {
                    Err(e) => Err(Error::Repository(e)),
                    Ok(rv) => Ok(ImageView { repository: rv, tag: None, digest: digest }),
                }
            } else if !is_valid_tag(lbl) {
                Err(Error::Tag)
            } else {
                match spec_parse_repository(s.take(c)) {
                    Err(e) => Err(Error::Repository(e)),
                    Ok(rv) => Ok(ImageView { repository: rv, tag: Some(lbl), digest: digest }),
                }
            }
        },
        None => match spec_parse_repository(s) {
            Err(e) => Err(Error::Repository(e)),
            Ok(rv) => Ok(ImageView { repository: rv, tag: None, digest: digest }),
        },
    }
}

/// What parsing image text yields.  The digest suffix (after the last at
/// sign) is stripped and parsed first — digests hold colons of their own, so
/// stripping the tag first would corrupt them — then the tag, then the
/// repository.
pub open spec fn spec_parse_image(s: Seq<char>) -> Result<ImageView, Error> {
    match s.index_of_last('@') {
        Some(a) => match spec_parse_digest(s.skip(a + 1)) {
            Err(e) => Err(Error::Digest(e)),
            Ok(d) => spec_parse_image_after_digest(s.take(a), Some(d)),
        },
        None => spec_parse_image_after_digest(s, None),
    }
}

/// The canonical text of an image: the repository, then `:tag` and
/// `@digest`, each when present.
pub open spec fn spec_format_image(v: ImageView) -> Seq<char> {
    spec_format_repository(v.repository) + (match v.tag {
        Some(t) => seq![':'] + t,
        None => Seq::<char>::empty(),
    }) + (match v.digest {
        Some(d) => seq!['@'] + spec_format_digest(d),
        None => Seq::<char>::empty(),
    })
}

/// An image in canonical form: what every successfully parsed image
/// satisfies.  Tag and digest are constrained separately; any combination
/// of present and absent is well formed.
pub open spec fn image_view_wf(v: ImageView) -> bool {
    &&& repository_view_wf(v.repository)
    &&& match v.tag {
        Some(t) => is_valid_tag(t),
        None => true,
    }
    &&& match v.digest {
        Some(d) => digest_view_wf(d),
        None => true,
    }
}

/// Whether the tag grammar accepts `s`.
fn check_tag(s: &str) -> (b: bool)
    ensures
        b == is_valid_tag(s@),
{
    let n = s.unicode_len();
    if n == 0 || n > 128 {
        return false;
    }
    let c0 = s.get_char(0);
    if !(ascii_alnum(c0) || c0 == '_') {
        return false;
    }
    let mut i: usize = 1;
    while i < n
        invariant
            n == s@.len(),
            1 <= i <= n,
            forall|k: int| 1 <= k < i ==> is_path_char(#[trigger] s@[k]),
        decreases n - i,
    {
        if !path_char(s.get_char(i)) {
            return false;
        }
        i = i + 1;
    }
    true
}

impl Image {
    /// Parses `repository[:tag][@digest]`, in exact agreement with
    /// `spec_parse_image`.
    pub fn parse(s: &str) -> (r: Result<Image, Error>)
        ensures
            match spec_parse_image(s@) {
                Ok(v) => r matches Ok(img) && img@ == v && image_view_wf(v),
                Err(e) => r matches Err(e2) && e2 == e,
            },
    {
        proof {
            lemma_image_parse_wf(s@);
            s@.index_of_last_ensures('@');
        }
        let n = s.unicode_len();
        let (rest, digest): (&str, Option<Digest>) = match find_last(s, '@') {
            Some(a) => {
                let dtext = s.substring_char(a + 1, n);
                proof {
                    assert(dtext@ =~= s@.skip(a as int + 1));
                }
                match Digest::parse(dtext) {
                    Err(e) => {
                        return Err(Error::Digest(e));
                    },
                    Ok(d) => {
                        let prefix = s.substring_char(0, a);
                        proof {
                            assert(prefix@ =~= s@.take(a as int));
                        }
                        (prefix, Some(d))
                    },
                }
            },
            None => (s, None),
        };
        proof {
            rest@.index_of_last_ensures(':');
        }
        let m = rest.unicode_len();
        let (repo_text, tag): (&str, Option<String>) = match find_last(rest, ':') {
            Some(c) => {
                let lbl = rest.substring_char(c + 1, m);
                proof {
                    assert(lbl@ =~= rest@.skip(c as int + 1));
                }
                if contains_char(lbl, '/') {
                    (rest, None)
                } else if !check_tag(lbl) {
                    return Err(Error::Tag);
                } else {
                    let prefix = rest.substring_char(0, c);
                    proof {
                        assert(prefix@ =~= rest@.take(c as int));
                    }
                    (prefix, Some(lbl.to_owned()))
                }
            },
            None => (rest, None),
        };
        match Repository::parse(repo_text) {
            Err(e) => Err(Error::Repository(e)),
            Ok(rep) => Ok(Image { repository: rep, tag: tag, digest: digest }),
        }
    }

    /// Renders the canonical `repository[:tag][@digest]` text of this image.
    pub fn to_string(&self) -> (r: String)
        ensures
            r@ == spec_format_image(self@),
    {
        let mut out = self.repository.to_string();
        match &self.tag {
            Some(t) => {
                out.append(":");
                out.append(t.as_str());
                proof {
                    reveal_strlit(":");
                    assert(":"@ =~= seq![':']);
                }
            },
            None => {},
        }
        match &self.digest {
            Some(d) => {
                let ds = d.to_string();
                out.append("@");
                out.append(ds.as_str());
                proof {
                    reveal_strlit("@");
                    assert("@"@ =~= seq!['@']);
                }
            },
            None => {},
        }
        proof {
            assert(out@ =~= spec_format_image(self@));
        }
        out
    }
}

/// No valid tag contains a slash, a colon or an at sign.
pub proof fn lemma_tag_chars(t: Seq<char>)
    requires
        is_valid_tag(t),
    ensures
        forall|i: int| 0 <= i < t.len() ==> t[i] != '/' && t[i] != ':' && t[i] != '@',
{
    assert forall|i: int| 0 <= i < t.len() implies t[i] != '/' && t[i] != ':' && t[i] != '@' by {
        if i >= 1 {
            assert(is_path_char(t[i]));
        }
    }
}

/// Every successfully parsed image is in canonical form.
pub proof fn lemma_image_parse_wf(s: Seq<char>)
    ensures
        spec_parse_image(s) matches Ok(v) ==> image_view_wf(v),
{
    if let Ok(v) = spec_parse_image(s) {
        match s.index_of_last('@') {
            Some(a) => {
                lemma_image_after_digest_wf(s.take(a));
            },
            None => {
                lemma_image_after_digest_wf(s);
            },
        }
    }
}

/// The tag and repository stages yield canonical components.
proof fn lemma_image_after_digest_wf(s: Seq<char>)
    ensures
        forall|d: Option<DigestView>|
            (#[trigger] spec_parse_image_after_digest(s, d)) matches Ok(v) ==> (
            repository_view_wf(v.repository) && match v.tag {
                Some(t) => is_valid_tag(t),
                None => true,
            }),
{
    lemma_repository_parse_wf(s);
    match s.index_of_last(':') {
        Some(c) => {
            lemma_repository_parse_wf(s.take(c));
        },
        None => {},
    }
}

/// TAG/DIGEST INDEPENDENCE: well-formedness constrains the tag and the
/// digest separately, so a canonical repository makes a canonical image with
/// the tag and digest absent or present in any combination.
pub proof fn lemma_tag_digest_independent(
    rv: RepositoryView,
    t: Option<Seq<char>>,
    d: Option<DigestView>,
)
    requires
        repository_view_wf(rv),
        t matches Some(t0) ==> is_valid_tag(t0),
        d matches Some(d0) ==> digest_view_wf(d0),
    ensures
        image_view_wf(ImageView { repository: rv, tag: t, digest: d }),
{
}

/// ROUND TRIP: formatting a canonical image and parsing the result yields
/// the image back, whatever combination of tag and digest it holds.
pub proof fn lemma_image_round_trip(v: ImageView)
    requires
        image_view_wf(v),
    ensures
        spec_parse_image(spec_format_image(v)) == Ok::<ImageView, Error>(v),
{
    let fr = spec_format_repository(v.repository);
    let f = spec_format_image(v);
    lemma_format_repository_chars(v.repository);
    lemma_repository_round_trip(v.repository);
    let tagpart = match v.tag {
        Some(t) => seq![':'] + t,
        None => Seq::<char>::empty(),
    };
    let rt = fr + tagpart;
    if let Some(t) = v.tag {
        lemma_tag_chars(t);
        assert(seq![':'][0] == ':');
        assert forall|i: int| 0 <= i < tagpart.len() implies tagpart[i] != '@' by {
            if i >= 1 {
                assert(tagpart[i] == t[i - 1]);
            }
        }
    }
    lemma_concat_free(fr, tagpart, '@');
    match v.digest {
        Some(d) => {
            let fd = spec_format_digest(d);
            lemma_format_digest_chars(d);
            lemma_digest_round_trip(d);
            assert(f =~= rt + seq!['@'] + fd);
            lemma_split_at_last(rt, fd, '@');
            assert(f.take(rt.len() as int) == rt);
            assert(f.skip(rt.len() as int + 1) == fd);
        },
        None => {
            assert(f =~= rt);
            lemma_index_of_last_none(rt, '@');
        },
    }
    let dv = v.digest;
    assert(spec_parse_image(f) == spec_parse_image_after_digest(rt, dv));
    match v.tag {
        Some(t) => {
            assert(rt =~= fr + seq![':'] + t);
            lemma_split_at_last(fr, t, ':');
            assert(rt.take(fr.len() as int) == fr);
            assert(rt.skip(fr.len() as int + 1) == t);
            assert(!t.contains('/'));
            assert(spec_parse_image_after_digest(rt, dv) == Ok::<ImageView, Error>(
                ImageView { repository: v.repository, tag: Some(t), digest: dv },
            ));
        },
        None => {
            assert(rt == fr);
            match fr.index_of_last(':') {
                None => {},
                Some(c) => {
                    assert(fr.skip(c + 1).contains('/'));
                },
            }
            assert(spec_parse_image_after_digest(rt, dv) == Ok::<ImageView, Error>(
                ImageView { repository: v.repository, tag: None, digest: dv },
            ));
        },
    }
    assert(ImageView { repository: v.repository, tag: v.tag, digest: dv } =~= v);
}

/// IDEMPOTENCE: re-parsing the canonical text of any successful parse gives
/// the same outcome as the original parse.
pub proof fn lemma_image_parse_idempotent(s: Seq<char>)
    ensures
        spec_parse_image(s) matches Ok(v) ==> spec_parse_image(spec_format_image(v))
            == spec_parse_image(s),
{
    if let Ok(v) = spec_parse_image(s) {
        lemma_image_parse_wf(s);
        lemma_image_round_trip(v);
    }
}

} // verus!
