//! Query-string handling: the decoded key/value pairs of a request's query
//! and the typed parameters the handlers read from them.

use vstd::prelude::*;
use vstd::string::StrSliceExecFns;
use crate::text::{all_digits, dec_val, parse_usize, str_eq};

verus! {

/// The key/value pairs a query string decodes to, in order.  What
/// percent-decoding yields depends on the query text alone.
pub uninterp spec fn form_pairs(q: Seq<char>) -> Seq<(Seq<char>, Seq<char>)>;

/// Relies on url's `form_urlencoded::parse`: splits an
/// `application/x-www-form-urlencoded` query string into its key/value
/// pairs, percent-decoded, in order.
#[verifier::external_body]
fn form_urlencoded_pairs(query: &str) -> (r: Vec<(String, String)>)
    ensures
        r@.map_values(|p: (String, String)| (p.0@, p.1@)) == form_pairs(query@),
{
    url::form_urlencoded::parse(query.as_bytes()).into_owned().collect()
}

/// The decoded key/value pairs of a request's query; none when the request
/// has no query.
pub fn parse_query(query: Option<&str>) -> (r: Vec<(String, String)>)
    ensures
        query is Some ==> r@.map_values(|p: (String, String)| (p.0@, p.1@)) == form_pairs(
            query->0@,
        ),
        query is None ==> r@.len() == 0,
{
    match query {
        Some(q) => form_urlencoded_pairs(q),
        None => Vec::new(),
    }
}

/// The value of the first pair with the given key.
pub open spec fn first_value(pairs: Seq<(Seq<char>, Seq<char>)>, key: Seq<char>) -> Option<
    Seq<char>,
>
    decreases pairs.len(),
{
    if pairs.len() == 0 {
        None
    } else if pairs[0].0 == key {
        Some(pairs[0].1)
    } else {
        first_value(pairs.drop_first(), key)
    }
}

/// The first value given for a parameter, if any.
pub fn parse_query_param<'a>(params: &'a Vec<(String, String)>, key: &str) -> (r: Option<&'a str>)
    ensures
        ({
            let pv = params@.map_values(|p: (String, String)| (p.0@, p.1@));
            &&& (r is Some <==> first_value(pv, key@) is Some)
            &&& (r is Some ==> r->0@ == first_value(pv, key@)->0)
        }),
{
    let ghost pv = params@.map_values(|p: (String, String)| (p.0@, p.1@));
    let n = params.len();
    let mut i: usize = 0;
    proof {
        assert(pv.skip(0) =~= pv);
    }
    while i < n
        invariant
            0 <= i <= n,
            n == params@.len(),
            pv == params@.map_values(|p: (String, String)| (p.0@, p.1@)),
            first_value(pv, key@) == first_value(pv.skip(i as int), key@),
        decreases n - i,
    {
        proof {
            assert(pv.skip(i as int)[0] == pv[i as int]);
            assert(pv.skip(i as int).drop_first() =~= pv.skip(i + 1));
        }
        if str_eq(params[i].0.as_str(), key) {
            return Some(params[i].1.as_str());
        }
        i += 1;
    }
    proof {
        assert(pv.skip(n as int) =~= Seq::<(Seq<char>, Seq<char>)>::empty());
    }
    None
}

/// Why a limit parameter was refused: not a positive number at all, or a
/// number over the allowed maximum.
#[derive(Clone, Copy, PartialEq, Eq, Structural, Debug)]
pub enum LimitError {
    Invalid,
    TooLarge,
}

/// Reads a positive limit parameter: the default when absent, `Invalid`
/// when it is not a positive number, `TooLarge` when it is over the
/// maximum.
pub fn parse_limit_param(
    params: &Vec<(String, String)>,
    key: &str,
    default: usize,
    max: usize,
) -> (r: Result<usize, LimitError>)
    ensures
        ({
            let pv = params@.map_values(|p: (String, String)| (p.0@, p.1@));
            match first_value(pv, key@) {
                None => r == Ok::<usize, LimitError>(default),
                Some(text) => {
                    let digits = if text.len() > 0 && text[0] == '+' {
                        text.drop_first()
                    } else {
                        text
                    };
                    let numeric = digits.len() > 0 && all_digits(digits) && dec_val(digits)
                        <= usize::MAX;
                    &&& (r is Ok <==> numeric && 0 < dec_val(digits) <= max)
                    &&& (r is Ok ==> r->Ok_0 == dec_val(digits))
                    &&& (r is Err ==> r->Err_0 == (if numeric && dec_val(digits) > max {
                        LimitError::TooLarge
                    } else {
                        LimitError::Invalid
                    }))
                },
            }
        }),
{
    match parse_query_param(params, key) {
        Some(value) => {
            let parsed = match parse_usize(value) {
                Some(parsed) => parsed,
                None => {
                    return Err(LimitError::Invalid);
                },
            };
            if parsed == 0 {
                return Err(LimitError::Invalid);
            }
            if parsed > max {
                return Err(LimitError::TooLarge);
            }
            Ok(parsed)
        },
        None => Ok(default),
    }
}

} // verus!
