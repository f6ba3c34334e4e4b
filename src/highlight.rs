use vstd::prelude::*;
use vstd::string::StringSliceAdditionalSpecFns;
use vstd::utf8::{decode_utf8, encode_utf8, encode_utf8_decode_utf8, encode_utf8_valid_utf8, valid_utf8};
use crate::lemmas::{lemma_boundary_index, lemma_tokens_sorted};
use crate::model::{boundaries, escape_position, escape_tokens, highlighted, spans_ok, stripped};
use crate::pattern::{find_matches, regex_compiles, regex_match_spans, string_from_utf8};
use crate::validity::{
    at_boundary, lemma_boundary_local, lemma_layout_valid, lemma_stripped_valid,
    spans_on_boundaries,
};
use crate::splice::{locate_escapes, splice, strip_escapes, token_views};

verus! {

/// The escape-sequence grammar: an introducer (ESC or CSI), `[`, optional
/// parameter bytes and a final byte.
pub const ANSI_ESCAPE_PATTERN: &'static str = "[\\u001b\\u009b]\\[[()#;?]*(?:[0-9]{1,4}(?:;[0-9]{0,4})*)?[0-9A-ORZcf-nqry=><]";

/// The search pattern is not a valid regular expression.
#[derive(Debug, Clone, Copy, PartialEq, Eq, Structural)]
pub enum PatternError {
    Invalid,
}

/// Highlights the matches `matches` (spans of the visible text) of a text
/// whose escape sequences are the spans `escapes`.
pub fn highlight_with_spans(
    text: &[u8],
    escapes: &Vec<(usize, usize)>,
    matches: &Vec<(usize, usize)>,
) -> (r: Vec<u8>)
    requires
        spans_ok(escapes@, text@.len() as int),
        spans_ok(matches@, stripped(text@, escapes@).len() as int),
    ensures
        r@ == highlighted(text@, escapes@, matches@),
{
    if matches.len() == 0 {
        let mut r: Vec<u8> = Vec::new();
        crate::splice::append_range(&mut r, text, 0, text.len());
        assert(text@.subrange(0, text@.len() as int) == text@);
        return r;
    }
    let visible = strip_escapes(text, escapes);
    let toks = locate_escapes(text, escapes);
    proof {
        lemma_tokens_sorted(text@, escapes@);
        assert forall|k: int| 0 <= k < toks@.len() implies 0 <= #[trigger] token_views(toks@)[k].0
            <= visible@.len() by {
            assert(token_views(toks@).len() == toks@.len());
            assert(k < escapes@.len());
            assert(token_views(toks@)[k] == escape_tokens(text@, escapes@)[k]);
            assert(0 <= escape_tokens(text@, escapes@)[k].0 <= stripped(text@, escapes@).len());
        }
    }
    splice(visible.as_slice(), matches, &toks)
}

/// The bytes that highlighting `pattern` in `text` gives: the escape spans
/// are those of the escape grammar, the matches those of `pattern` on the
/// visible text.
pub open spec fn highlight_output(text: Seq<char>, pattern: Seq<char>) -> Seq<u8> {
    let t = encode_utf8(text);
    let e = regex_match_spans(ANSI_ESCAPE_PATTERN@, text);
    highlighted(t, e, regex_match_spans(pattern, decode_utf8(stripped(t, e))))
}

/// Whether `pattern` matches nowhere in the visible text of `text`.
pub open spec fn no_match(text: Seq<char>, pattern: Seq<char>) -> bool {
    let t = encode_utf8(text);
    let e = regex_match_spans(ANSI_ESCAPE_PATTERN@, text);
    regex_match_spans(pattern, decode_utf8(stripped(t, e))).len() == 0
}

/// Highlights every match of the regular expression `search_term` in the
/// visible text of `orig_str`, keeping the escape sequences that lie outside
/// the highlights.  Fails when a pattern does not compile; returns the text
/// unchanged when nothing matches.
pub fn highlight_ansi_insensitive(orig_str: &str, search_term: &str) -> (r: Result<
    String,
    PatternError,
>)
    ensures
        r is Err <==> !regex_compiles(search_term@) || !regex_compiles(ANSI_ESCAPE_PATTERN@),
        r matches Ok(s) ==> encode_utf8(s@) == highlight_output(orig_str@, search_term@),
        r matches Ok(s) ==> (no_match(orig_str@, search_term@) ==> s@ == orig_str@),
{
    let text = orig_str.as_bytes();
    proof {
        encode_utf8_valid_utf8(orig_str@);
    }
    let escapes = match find_matches(ANSI_ESCAPE_PATTERN, orig_str) {
        Some(e) => e,
        None => {
            return Err(PatternError::Invalid);
        },
    };
    proof {
        assert forall|k: int| 0 <= k < escapes@.len() implies at_boundary(
            text@,
            #[trigger] escapes@[k].0 as int,
        ) && at_boundary(text@, escapes@[k].1 as int) by {
            lemma_boundary_local(text@, escapes@[k].0 as int);
            lemma_boundary_local(text@, escapes@[k].1 as int);
        }
        assert(spans_on_boundaries(escapes@, text@));
        lemma_stripped_valid(text@, escapes@);
    }
    let ghost v = stripped(text@, escapes@);
    let visible = string_from_utf8(strip_escapes(text, &escapes));
    proof {
        encode_utf8_decode_utf8(visible@);
    }
    let matches = match find_matches(search_term, visible.as_str()) {
        Some(m) => m,
        None => {
            return Err(PatternError::Invalid);
        },
    };
    if matches.len() == 0 {
        return Ok(orig_str.to_owned());
    }
    proof {
        let b = boundaries(matches@);
        assert forall|j: int| 0 <= j < b.len() implies at_boundary(v, #[trigger] b[j] as int) by {
            let k = j / 2;
            assert(0 <= k < matches@.len() && (j == 2 * k || j == 2 * k + 1)) by (nonlinear_arith)
                requires
                    0 <= j < 2 * matches@.len(),
                    k == j / 2,
            ;
            lemma_boundary_index(matches@, k);
            lemma_boundary_local(v, matches@[k].0 as int);
            lemma_boundary_local(v, matches@[k].1 as int);
        }
        let toks = escape_tokens(text@, escapes@);
        assert forall|j: int| 0 <= j < toks.len() implies at_boundary(v, #[trigger] toks[j].0)
            && valid_utf8(toks[j].1) by {
            assert(toks[j].0 == escape_position(escapes@, j));
        }
        lemma_layout_valid(v, b, toks);
    }
    let out = highlight_with_spans(text, &escapes, &matches);
    Ok(string_from_utf8(out))
}

} // verus!
