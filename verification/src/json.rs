//! The JSON document that a command prints, and the selection of values
//! from it by path expressions. Parsing and selecting are done by
//! `serde_json` and `jsonpath_lib`; what they return is given a name here,
//! not a definition.

use vstd::prelude::*;
use vstd::string::StrSliceExecFns;
use crate::text::{is_space, is_space_char};

verus! {

/// A character that the path language gives a meaning of its own.
pub open spec fn path_mark(c: char) -> bool {
    ||| c == '$'
    ||| c == '.'
    ||| c == '*'
    ||| c == '['
    ||| c == ']'
    ||| c == '('
    ||| c == ')'
    ||| c == '@'
    ||| c == '?'
    ||| c == ','
    ||| c == ':'
    ||| c == '<'
    ||| c == '>'
    ||| c == '='
    ||| c == '&'
    ||| c == '|'
    ||| c == '!'
    ||| c == '\''
    ||| c == '"'
    ||| c == '\\'
}

/// A character of a key in a plain path: any character that is neither
/// whitespace nor one that the path language gives a meaning of its own.
pub open spec fn key_char(c: char) -> bool {
    !path_mark(c) && !is_space(c)
}

/// The end of the run of key characters that starts at `i`.
pub open spec fn key_end(p: Seq<char>, i: int) -> int
    decreases p.len() - i,
{
    if 0 <= i < p.len() && key_char(p[i]) {
        key_end(p, i + 1)
    } else {
        i
    }
}

/// The end of the run of decimal digits that starts at `i`.
pub open spec fn digits_end(p: Seq<char>, i: int) -> int
    decreases p.len() - i,
{
    if 0 <= i < p.len() && '0' <= p[i] <= '9' {
        digits_end(p, i + 1)
    } else {
        i
    }
}

/// The end of the run that starts at `i` of characters that are neither
/// the quote `q` nor a backslash.
pub open spec fn quote_end(p: Seq<char>, i: int, q: char) -> int
    decreases p.len() - i,
{
    if 0 <= i < p.len() && p[i] != q && p[i] != '\\' {
        quote_end(p, i + 1, q)
    } else {
        i
    }
}

/// From `i` on, `p` is made of plain steps. A plain step is one of
/// - `.key` or `..key`: a child, or any descendant, by its key, the key
///   being one or more key characters;
/// - `.*` or `..*`: every child, or every descendant;
/// - `[*]`: every child;
/// - `[n]` or `[-n]`: an element by its index, counted from the front or
///   from the back, `n` being one or more digits;
/// - `['key']` or `["key"]`: a child by its key, the key being any run of
///   characters without that quote and without a backslash.
pub open spec fn steps_from(p: Seq<char>, i: int) -> bool
    decreases p.len() - i,
{
    if i < 0 || i >= p.len() {
        i == p.len()
    } else if p[i] == '.' {
        let j = if i + 1 < p.len() && p[i + 1] == '.' {
            i + 2
        } else {
            i + 1
        };
        if j < p.len() && p[j] == '*' {
            steps_from(p, j + 1)
        } else {
            let e = key_end(p, j);
            j < e <= p.len() && steps_from(p, e)
        }
    } else if p[i] == '[' {
        let j = i + 1;
        if j < p.len() && p[j] == '*' {
            j + 1 < p.len() && p[j + 1] == ']' && steps_from(p, j + 2)
        } else if j < p.len() && (p[j] == '\'' || p[j] == '"') {
            let e = quote_end(p, j + 1, p[j]);
            e > j && e + 1 < p.len() && p[e] == p[j] && p[e + 1] == ']' && steps_from(p, e + 2)
        } else {
            let d = if j < p.len() && p[j] == '-' {
                j + 1
            } else {
                j
            };
            let e = digits_end(p, d);
            e > d && e < p.len() && p[e] == ']' && steps_from(p, e + 1)
        }
    } else {
        false
    }
}

/// The path expressions that are handed to the selector: `$`, then any
/// number of plain steps; at most 1024 characters in all. Such a path
/// walks down through objects and arrays by keys, indices and wildcards.
/// It has no slice, no list of keys or indices, no filter and no
/// whitespace outside a quoted key.
pub open spec fn plain_path(p: Seq<char>) -> bool {
    &&& 1 <= p.len() <= 1024
    &&& p[0] == '$'
    &&& steps_from(p, 1)
}

pub fn is_key_char(c: char) -> (r: bool)
    ensures
        r == key_char(c),
{
    let mark = c == '$' || c == '.' || c == '*' || c == '[' || c == ']' || c == '(' || c == ')'
        || c == '@' || c == '?' || c == ',' || c == ':' || c == '<' || c == '>' || c == '=' || c
        == '&' || c == '|' || c == '!' || c == '\'' || c == '"' || c == '\\';
    !mark && !is_space_char(c)
}

fn scan_key(path: &str, n: usize, start: usize) -> (e: usize)
    requires
        n == path@.len(),
        start <= n,
    ensures
        e == key_end(path@, start as int),
        start <= e <= n,
{
    let mut e: usize = start;
    while e < n && is_key_char(path.get_char(e))
        invariant
            n == path@.len(),
            start <= e <= n,
            key_end(path@, start as int) == key_end(path@, e as int),
        decreases n - e,
    {
        e += 1;
    }
    e
}

fn scan_digits(path: &str, n: usize, start: usize) -> (e: usize)
    requires
        n == path@.len(),
        start <= n,
    ensures
        e == digits_end(path@, start as int),
        start <= e <= n,
{
    let mut e: usize = start;
    while e < n && '0' <= path.get_char(e) && path.get_char(e) <= '9'
        invariant
            n == path@.len(),
            start <= e <= n,
            digits_end(path@, start as int) == digits_end(path@, e as int),
        decreases n - e,
    {
        e += 1;
    }
    e
}

fn scan_quoted(path: &str, n: usize, start: usize, q: char) -> (e: usize)
    requires
        n == path@.len(),
        start <= n,
    ensures
        e == quote_end(path@, start as int, q),
        start <= e <= n,
{
    let mut e: usize = start;
    while e < n && path.get_char(e) != q && path.get_char(e) != '\\'
        invariant
            n == path@.len(),
            start <= e <= n,
            quote_end(path@, start as int, q) == quote_end(path@, e as int, q),
        decreases n - e,
    {
        e += 1;
    }
    e
}

/// Whether `path` is a plain path.
pub fn is_plain_path(path: &str) -> (r: bool)
    ensures
        r == plain_path(path@),
{
    let n = path.unicode_len();
    if n < 1 || n > 1024 {
        return false;
    }
    if path.get_char(0) != '$' {
        return false;
    }
    let mut i: usize = 1;
    while i < n
        invariant
            n == path@.len(),
            1 <= i <= n <= 1024,
            steps_from(path@, 1) == steps_from(path@, i as int),
        decreases n - i,
    {
        let c = path.get_char(i);
        if c == '.' {
            let mut j: usize = i + 1;
            if j < n && path.get_char(j) == '.' {
                j = j + 1;
            }
            if j < n && path.get_char(j) == '*' {
                i = j + 1;
            } else {
                let e = scan_key(path, n, j);
                if e <= j {
                    return false;
                }
                i = e;
            }
        } else if c == '[' {
            let j: usize = i + 1;
            if j < n && path.get_char(j) == '*' {
                if !(j + 1 < n && path.get_char(j + 1) == ']') {
                    return false;
                }
                i = j + 2;
            } else if j < n && (path.get_char(j) == '\'' || path.get_char(j) == '"') {
                let q = path.get_char(j);
                let e = scan_quoted(path, n, j + 1, q);
                if !(e + 1 < n && path.get_char(e) == q && path.get_char(e + 1) == ']') {
                    return false;
                }
                i = e + 2;
            } else {
                let d: usize = if j < n && path.get_char(j) == '-' {
                    j + 1
                } else {
                    j
                };
                let e = scan_digits(path, n, d);
                if !(e > d && e < n && path.get_char(e) == ']') {
                    return false;
                }
                i = e + 1;
            }
        } else {
            return false;
        }
    }
    true
}

/// A parsed JSON document, `serde_json::Value`, carried through as it is.
#[verifier::external_type_specification]
#[verifier::external_body]
pub struct ExJsonValue(serde_json::Value);

/// The error with which `serde_json` refuses a text.
#[verifier::external_type_specification]
#[verifier::external_body]
pub struct ExJsonError(serde_json::Error);

/// The error with which `jsonpath_lib` refuses a path expression.
#[verifier::external_type_specification]
#[verifier::external_body]
pub struct ExJsonPathError(jsonpath_lib::JsonPathError);

/// What a document holds, as far as this library reads it: for each path
/// expression that the selector evaluates, the matches in the order in
/// which they are found, each match being its text where it is a JSON
/// string and nothing where it is any other kind of JSON value. A path
/// expression that the selector refuses is not in the domain.
pub uninterp spec fn document_matches(doc: serde_json::Value) -> Map<
    Seq<char>,
    Seq<Option<Seq<char>>>,
>;

/// What parsing a text as JSON gives: nothing where the text is refused,
/// else what the document holds.
pub uninterp spec fn parsed_document(text: Seq<char>) -> Option<
    Map<Seq<char>, Seq<Option<Seq<char>>>>,
>;

/// The texts of a list of matches.
pub open spec fn match_texts(v: Seq<Option<String>>) -> Seq<Option<Seq<char>>> {
    Seq::new(
        v.len(),
        |i: int|
            match v[i] {
                Some(s) => Some(s@),
                None => None,
            },
    )
}

/// Parses a text with `serde_json::from_str` into a `serde_json::Value`.
/// The contract only names the outcome: whether the text is accepted, and
/// what the document then holds, depends on the text alone.
#[verifier::external_body]
pub(crate) fn parse_json(text: &str) -> (r: Result<serde_json::Value, serde_json::Error>)
    ensures
        match r {
            Ok(doc) => parsed_document(text@) == Some(document_matches(doc)),
            Err(_) => parsed_document(text@) is None,
        },
{
    serde_json::from_str(text)
}

/// Evaluates a plain path on a document with `jsonpath_lib::selector`, and
/// hands out each match as its text where it is a JSON string
/// (`serde_json::Value::as_str`) and as nothing otherwise. Only plain paths
/// are let through: among slices and filters the selector has steps that
/// do not return (a slice with step 0, a list or a slice inside a filter,
/// an empty filter term). The contract only names
/// the outcome: an error means that the expression is not in the domain of
/// what the document holds, and a list of matches is what the document
/// holds for the expression.
#[verifier::external_body]
pub(crate) fn select(doc: &serde_json::Value, path: &str) -> (r: Result<
    Vec<Option<String>>,
    jsonpath_lib::JsonPathError,
>)
    requires
        plain_path(path@),
    ensures
        match r {
            Ok(found) => document_matches(*doc).dom().contains(path@) && document_matches(
                *doc,
            )[path@] == match_texts(found@),
            Err(_) => !document_matches(*doc).dom().contains(path@),
        },
{
    let mut pick = jsonpath_lib::selector(doc);
    let found = pick(path)?;
    Ok(found.into_iter().map(|v| v.as_str().map(|s| s.to_owned())).collect())
}

} // verus!
