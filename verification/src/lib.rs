//! A first-order probabilistic text model per conversation, with a lossless
//! text codec and a write-back session cache.

use vstd::prelude::*;
use vstd::string::StrSliceExecFns;

pub mod cache;
pub mod chain;
pub mod codec;
pub mod models;
pub mod redtube;
pub mod settings;

verus! {

/// A token slot in a state or a distribution key: a concrete token, or
/// `None` for the start/end sentinel.
pub open spec fn tok_view(t: &Option<String>) -> Option<Seq<char>> {
    match t {
        None => None,
        Some(s) => Some(s@),
    }
}

/// Relies on `String::from_iter` to assemble a string from its characters.
#[verifier::external_body]
pub fn chars_to_string(v: Vec<char>) -> (r: String)
    ensures
        r@ == v@,
{
    v.into_iter().collect()
}

/// Collects the characters of a string slice into a vector.
pub fn str_to_chars(s: &str) -> (r: Vec<char>)
    ensures
        r@ == s@,
{
    let n = s.unicode_len();
    let mut out: Vec<char> = Vec::new();
    let mut i: usize = 0;
    while i < n
        invariant
            i <= n,
            n == s@.len(),
            out@ == s@.take(i as int),
        decreases n - i,
    {
        let c = s.get_char(i);
        out.push(c);
        proof {
            assert(out@ =~= s@.take(i + 1 as int));
        }
        i += 1;
    }
    proof {
        assert(s@.take(n as int) =~= s@);
    }
    out
}

/// Copies a token slot, sentinel included.
pub fn tok_clone(t: &Option<String>) -> (r: Option<String>)
    ensures
        tok_view(&r) == tok_view(t),
{
    match t {
        None => None,
        Some(s) => Some(s.clone()),
    }
}

/// Decides whether two token slots hold the same value, sentinel included.
pub fn tok_eq(a: &Option<String>, b: &Option<String>) -> (r: bool)
    ensures
        r <==> tok_view(a) == tok_view(b),
{
    match (a, b) {
        (None, None) => true,
        (Some(x), Some(y)) => x.eq(y),
        _ => false,
    }
}

} // verus!
