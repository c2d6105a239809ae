//! The cross-origin headers that every response carries.

use vstd::prelude::*;

verus! {

/// Adds the cross-origin (CORS) headers to every response.
pub struct CORS;

impl CORS {
    /// The name under which the response hook is registered.
    pub fn name(&self) -> (r: &'static str)
        ensures
            r@ == "Attaching CORS headers to responses"@,
    {
        "Attaching CORS headers to responses"
    }

    /// The headers set on every response, as (name, value) pairs.
    pub fn headers(&self) -> (r: Vec<(&'static str, &'static str)>)
        ensures
            r@.len() == 4,
            r@[0].0@ == "Access-Control-Allow-Origin"@ && r@[0].1@ == "*"@,
            r@[1].0@ == "Access-Control-Allow-Methods"@ && r@[1].1@ == "POST, GET, PATCH, OPTIONS"@,
            r@[2].0@ == "Access-Control-Allow-Headers"@ && r@[2].1@ == "*"@,
            r@[3].0@ == "Access-Control-Allow-Credentials"@ && r@[3].1@ == "true"@,
    {
        let mut r: Vec<(&'static str, &'static str)> = Vec::new();
        r.push(("Access-Control-Allow-Origin", "*"));
        r.push(("Access-Control-Allow-Methods", "POST, GET, PATCH, OPTIONS"));
        r.push(("Access-Control-Allow-Headers", "*"));
        r.push(("Access-Control-Allow-Credentials", "true"));
        r
    }
}

} // verus!
