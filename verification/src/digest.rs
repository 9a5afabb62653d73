//! The digest component of a reference: `algorithm:hex`, a content hash in
//! its canonical textual form.

use vstd::prelude::*;
use vstd::string::StrSliceExecFns;
use vstd::string::StringExecFns;
use crate::text::{find_first, is_hex_char, lemma_split_at_first, lower_hex_digit, str_equal};

verus! {

/// A digest parsing error: the rule the text violates.
#[derive(Copy, Clone, Debug, PartialEq, Eq, Hash)]
pub enum Error {
    /// unknown digest algorithm
    Algorithm,
    /// a character outside lower-case hexadecimal in the hash
    Character,
    /// missing hash, or a hash of the wrong length for the algorithm
    Length,
}

/// A content digest: a registered algorithm name and the hex encoding of
/// its hash.
#[derive(Clone, Debug, PartialEq, Eq, Hash)]
pub struct Digest {
    /// the algorithm (`sha256` in `sha256:…`)
    pub algorithm: String,
    /// the hex-encoded hash (64 lower-case hex digits for `sha256`)
    pub hex: String,
}

/// The mathematical content of a `Digest`.
#[verifier::ext_equal]
pub ghost struct DigestView {
    pub algorithm: Seq<char>,
    pub hex: Seq<char>,
}

impl View for Digest {
    type V = DigestView;

    open spec fn view(&self) -> DigestView {
        DigestView { algorithm: self.algorithm@, hex: self.hex@ }
    }
}

/// Hex length demanded by a registered algorithm name; `None` for an
/// unknown algorithm.
pub open spec fn spec_algorithm_hex_len(alg: Seq<char>) -> Option<int> {
    if alg == "sha256"@ {
        Some(64)
    } else if alg == "sha512"@ {
        Some(128)
    } else {
        None
    }
}

/// Every character of `s` is a lower-case hexadecimal digit.
pub open spec fn all_hex(s: Seq<char>) -> bool {
    forall|i: int| 0 <= i < s.len() ==> is_hex_char(#[trigger] s[i])
}

/// What parsing digest text yields.  The text splits at its first colon
/// into algorithm and hash; text without a colon has no hash at all and is
/// reported as a length violation.  An unknown algorithm is reported before
/// the hash characters, and those before the hash length.
pub open spec fn spec_parse_digest(s: Seq<char>) -> Result<DigestView, Error> {
    match s.index_of_first(':') {
        None => Err(Error::Length),
        Some(j) => {
            let alg = s.take(j);
            let hex = s.skip(j + 1);
            match spec_algorithm_hex_len(alg) {
                None => Err(Error::Algorithm),
                Some(len) => if !all_hex(hex) {
                    Err(Error::Character)
                } else if hex.len() != len {
                    Err(Error::Length)
                } else {
                    Ok(DigestView { algorithm: alg, hex: hex })
                },
            }
        },
    }
}

/// The canonical text of a digest: `algorithm:hex`.
pub open spec fn spec_format_digest(v: DigestView) -> Seq<char> {
    v.algorithm + seq![':'] + v.hex
}

/// A digest in canonical form: what every successfully parsed digest
/// satisfies.
pub open spec fn digest_view_wf(v: DigestView) -> bool {
    &&& spec_algorithm_hex_len(v.algorithm) == Some(v.hex.len() as int)
    &&& all_hex(v.hex)
}

/// Whether every character of `s` is a lower-case hexadecimal digit.
fn check_hex(s: &str) -> (b: bool)
    ensures
        b == all_hex(s@),
{
    let n = s.unicode_len();
    let mut i: usize = 0;
    while i < n
        invariant
            n == s@.len(),
            i <= n,
            forall|k: int| 0 <= k < i ==> is_hex_char(#[trigger] s@[k]),
        decreases n - i,
    {
        if !lower_hex_digit(s.get_char(i)) {
            return false;
        }
        i = i + 1;
    }
    true
}

impl Digest {
    /// Parses `algorithm:hex`, in exact agreement with `spec_parse_digest`.
    pub fn parse(s: &str) -> (r: Result<Digest, Error>)
        ensures
            match spec_parse_digest(s@) {
                Ok(v) => r matches Ok(d) && d@ == v && digest_view_wf(v),
                Err(e) => r matches Err(e2) && e2 == e,
            },
    {
        proof {
            s@.index_of_first_ensures(':');
        }
        let n = s.unicode_len();
        match find_first(s, ':') {
            None => Err(Error::Length),
            Some(j) => {
                let alg = s.substring_char(0, j);
                let hex = s.substring_char(j + 1, n);
                proof {
                    assert(alg@ =~= s@.take(j as int));
                    assert(hex@ =~= s@.skip(j as int + 1));
                }
                let expected: usize = if str_equal(alg, "sha256") {
                    64
                } else if str_equal(alg, "sha512") {
                    128
                } else {
                    return Err(Error::Algorithm);
                };
                if !check_hex(hex) {
                    return Err(Error::Character);
                }
                if hex.unicode_len() != expected {
                    return Err(Error::Length);
                }
                Ok(Digest { algorithm: alg.to_owned(), hex: hex.to_owned() })
            },
        }
    }

    /// Renders the canonical `algorithm:hex` text of this digest.
    pub fn to_string(&self) -> (r: String)
        ensures
            r@ == spec_format_digest(self@),
    {
        let mut out: String = self.algorithm.clone();
        out.append(":");
        out.append(self.hex.as_str());
        proof {
            reveal_strlit(":");
            assert(":"@ =~= seq![':']);
            assert(out@ =~= spec_format_digest(self@));
        }
        out
    }
}

/// A registered algorithm name holds neither a colon nor an at sign.
pub proof fn lemma_algorithm_chars(alg: Seq<char>)
    requires
        spec_algorithm_hex_len(alg) is Some,
    ensures
        forall|i: int| 0 <= i < alg.len() ==> alg[i] != ':' && alg[i] != '@',
{
    reveal_strlit("sha256");
    reveal_strlit("sha512");
    if alg == "sha256"@ {
        assert(alg =~= seq!['s', 'h', 'a', '2', '5', '6']);
        assert forall|i: int| 0 <= i < alg.len() implies alg[i] != ':' && alg[i] != '@' by {
            if i == 0 {
                assert(alg[i] == 's');
            } else if i == 1 {
                assert(alg[i] == 'h');
            } else if i == 2 {
                assert(alg[i] == 'a');
            } else if i == 3 {
                assert(alg[i] == '2');
            } else if i == 4 {
                assert(alg[i] == '5');
            } else {
                assert(alg[i] == '6');
            }
        }
    } else {
        assert(alg =~= seq!['s', 'h', 'a', '5', '1', '2']);
        assert forall|i: int| 0 <= i < alg.len() implies alg[i] != ':' && alg[i] != '@' by {
            if i == 0 {
                assert(alg[i] == 's');
            } else if i == 1 {
                assert(alg[i] == 'h');
            } else if i == 2 {
                assert(alg[i] == 'a');
            } else if i == 3 {
                assert(alg[i] == '5');
            } else if i == 4 {
                assert(alg[i] == '1');
            } else {
                assert(alg[i] == '2');
            }
        }
    }
}

/// The canonical digest text never holds an at sign.
pub proof fn lemma_format_digest_chars(v: DigestView)
    requires
        digest_view_wf(v),
    ensures
        forall|i: int|
            0 <= i < spec_format_digest(v).len() ==> spec_format_digest(v)[i] != '@',
{
    lemma_algorithm_chars(v.algorithm);
    let f = spec_format_digest(v);
    assert forall|i: int| 0 <= i < f.len() implies f[i] != '@' by {
        if i < v.algorithm.len() {
            assert(f[i] == v.algorithm[i]);
        } else if i == v.algorithm.len() {
            assert(f[i] == ':');
        } else {
            assert(f[i] == v.hex[i - v.algorithm.len() - 1]);
            assert(is_hex_char(f[i]));
        }
    }
}

/// ROUND TRIP: formatting a canonical digest and parsing the result yields
/// the digest back.
pub proof fn lemma_digest_round_trip(v: DigestView)
    requires
        digest_view_wf(v),
    ensures
        spec_parse_digest(spec_format_digest(v)) == Ok::<DigestView, Error>(v),
{
    lemma_algorithm_chars(v.algorithm);
    lemma_split_at_first(v.algorithm, v.hex, ':');
    let f = spec_format_digest(v);
    assert(f.take(v.algorithm.len() as int) == v.algorithm);
    assert(f.skip(v.algorithm.len() as int + 1) == v.hex);
    assert(DigestView { algorithm: v.algorithm, hex: v.hex } =~= v);
}

/// IDEMPOTENCE: re-parsing the canonical text of any successful parse gives
/// the same outcome as the original parse.
pub proof fn lemma_digest_parse_idempotent(s: Seq<char>)
    ensures
        spec_parse_digest(s) matches Ok(v) ==> spec_parse_digest(spec_format_digest(v))
            == spec_parse_digest(s),
{
    if let Ok(v) = spec_parse_digest(s) {
        lemma_digest_round_trip(v);
    }
}

} // verus!
