use vstd::prelude::*;

verus! {

/// Where a service-discovery agent runs.
#[derive(Debug)]
pub struct ConsulConfig {
    pub url: String,
    pub datacenter: Option<String>,
    pub token: Option<String>,
}

} // verus!
