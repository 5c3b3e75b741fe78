//! The authentication gate: a stateless per-request predicate over the live
//! configuration's shared secret.

use vstd::prelude::*;
use crate::data::Config;

verus! {

/// Whether a request carrying `provided` (the `Authorization` header, if any)
/// is allowed under the password `password`.
pub open spec fn spec_allowed(provided: Option<Seq<char>>, password: Seq<char>) -> bool {
    password.len() == 0 || (provided matches Some(p) && p == password)
}

/// Compares two strings character by character without an early exit, so the
/// time taken does not depend on where the first mismatch lies.
pub fn constant_time_eq(a: &str, b: &str) -> (r: bool)
    ensures
        r == (a@ == b@),
{
    let len_a = a.unicode_len();
    let len_b = b.unicode_len();
    if len_a != len_b {
        return false;
    }
    let mut diff: u32 = 0;
    let mut i: usize = 0;
    while i < len_a
        invariant
            len_a == a@.len(),
            len_a == b@.len(),
            i <= len_a,
            (diff == 0) <==> (forall|k: int| 0 <= k < i ==> a@[k] == b@[k]),
        decreases len_a - i,
    {
        let ca = a.get_char(i) as u32;
        let cb = b.get_char(i) as u32;
        proof {
            let x = diff;
            assert((x | (ca ^ cb)) == 0 <==> (x == 0 && ca == cb)) by (bit_vector);
            assert(ca == cb ==> a@[i as int] == b@[i as int]);
        }
        diff = diff | (ca ^ cb);
        i = i + 1;
    }
    let r = diff == 0;
    proof {
        if r {
            assert(a@ =~= b@);
        } else {
            assert(a@ != b@);
        }
    }
    r
}

/// The auth gate. An empty configured password disables authentication;
/// otherwise the provided header must equal the password, compared in
/// constant time.
pub fn authenticate(provided: Option<&str>, config: &Config) -> (r: bool)
    ensures
        r == spec_allowed(
            match provided {
                Some(p) => Some(p@),
                None => None,
            },
            config@.password,
        ),
{
    if config.password.as_str().unicode_len() == 0 {
        return true;
    }
    match provided {
        None => false,
        Some(p) => constant_time_eq(p, config.password.as_str()),
    }
}

} // verus!
