use vstd::prelude::*;
use vstd::string::StringSliceAdditionalSpecFns;
use vstd::utf8::{encode_utf8, is_char_boundary, valid_utf8};
use crate::model::spans_ok;

verus! {

/// Whether `regex::Regex::new` accepts `pattern`.
pub uninterp spec fn regex_compiles(pattern: Seq<char>) -> bool;

/// The byte spans, in order, of the matches that `find_iter` of the regex
/// compiled from `pattern` yields on `hay`.
pub uninterp spec fn regex_match_spans(pattern: Seq<char>, hay: Seq<char>) -> Seq<(usize, usize)>;

/// Relies on `regex::Regex::new`, which fails exactly on patterns it does
/// not accept, and on `Regex::find_iter`, which yields successive
/// non-overlapping matches of `hay`, each with `start() <= end()` and both
/// offsets on character boundaries of `hay`.
#[verifier::external_body]
pub(crate) fn find_matches(pattern: &str, hay: &str) -> (r: Option<Vec<(usize, usize)>>)
    ensures
        r.is_some() == regex_compiles(pattern@),
        r matches Some(s) ==> s@ == regex_match_spans(pattern@, hay@),
        r matches Some(s) ==> spans_ok(s@, hay.spec_bytes().len() as int),
        r matches Some(s) ==> forall|k: int|
            0 <= k < s@.len() ==> is_char_boundary(hay.spec_bytes(), #[trigger] s@[k].0 as int)
                && is_char_boundary(hay.spec_bytes(), s@[k].1 as int),
{
    match regex::Regex::new(pattern) {
        Ok(re) => Some(re.find_iter(hay).map(|m| (m.start(), m.end())).collect()),
        Err(_) => None,
    }
}

/// Relies on `String::from_utf8`, which succeeds on valid UTF-8 and then
/// holds those bytes.
#[verifier::external_body]
pub(crate) fn string_from_utf8(bytes: Vec<u8>) -> (r: String)
    requires
        valid_utf8(bytes@),
    ensures
        encode_utf8(r@) == bytes@,
{
    String::from_utf8(bytes).unwrap()
}

} // verus!
