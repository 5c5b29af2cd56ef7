use vstd::prelude::*;

verus! {

/// A request that carries an optional value back to its sender.
pub struct PingRequest {
    pub value: Option<String>,
}

/// The answer to a `PingRequest`.
#[derive(Clone)]
pub struct PingResponse {
    pub value: Option<String>,
}

impl Default for PingResponse {
    fn default() -> (r: Self)
        ensures
            r.value is None,
    {
        PingResponse { value: None }
    }
}

/// Where a picked file lives.
pub struct FileInfo {
    pub uri: String,
}

} // verus!
