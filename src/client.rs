//! The HTTP client's handle on a broker.
use vstd::prelude::*;

verus! {

pub struct HttpClient {
    url: String,
}

impl HttpClient {
    /// The base URL requests go to.
    pub closed spec fn spec_url(&self) -> Seq<char> {
        self.url@
    }

    pub fn new(url: &str) -> (r: HttpClient)
        ensures
            r.spec_url() == url@,
    {
        HttpClient { url: url.to_owned() }
    }

    pub fn url(&self) -> (r: &str)
        ensures
            r@ == self.spec_url(),
    {
        self.url.as_str()
    }
}

} // verus!
