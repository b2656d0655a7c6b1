//! Admission of requests by the router's own API key.

use crate::text::{chars_of, starts_with_at, str_eq, string_of, strip_prefix};
use vstd::prelude::*;

verus! {

/// The key a client presents in its `Authorization` header: the text after
/// `Bearer `, or the whole header when it lacks that prefix.
pub open spec fn presented_key(header: Seq<char>) -> Seq<char> {
    match strip_prefix(header, "Bearer "@) {
        Some(k) => k,
        None => header,
    }
}

/// Admits a request whose `Authorization` header (when readable as text)
/// presents `api_key`; refuses any other with status 401.
pub fn authorize(header: Option<&str>, api_key: &str) -> (r: Result<(), u16>)
    ensures
        r is Ok <==> (header matches Some(h) && presented_key(h@) == api_key@),
        r matches Err(code) ==> code == 401,
{
    match header {
        None => Err(401),
        Some(h) => {
            let v = chars_of(h);
            let prefix = chars_of("Bearer ");
            assert(v@.subrange(0, v@.len() as int) == v@);
            let key = if starts_with_at(&v, 0, v.len(), &prefix) {
                string_of(&v, prefix.len(), v.len())
            } else {
                string_of(&v, 0, v.len())
            };
            if str_eq(key.as_str(), api_key) {
                Ok(())
            } else {
                Err(401)
            }
        },
    }
}

/// A header made of `Bearer ` and a key presents exactly that key, so a
/// client that sends `Bearer <api_key>` is admitted; a header that does not
/// start with `Bearer ` presents itself whole.
pub proof fn law_bearer_presents_key(key: Seq<char>, header: Seq<char>)
    ensures
        presented_key("Bearer "@ + key) == key,
        !(header.len() >= 7 && header.subrange(0, 7) == "Bearer "@) ==> presented_key(header) == header,
{
    reveal_strlit("Bearer ");
    let h = "Bearer "@ + key;
    assert(h.subrange(0, 7) =~= "Bearer "@);
    assert(h.subrange(7, h.len() as int) =~= key);
}

} // verus!
