//! Values exchanged with the chain: the whitelist update events and the
//! endpoint of the node that serves them.
use vstd::prelude::*;

verus! {

/// Parsed representation of a `WhitelistUpdated` log.
#[derive(Debug, Clone)]
pub struct WhitelistLog {
    pub address: String,
    pub added: bool,
    pub nonce: u64,
    pub block_number: u64,
}

/// Client of an Ethereum JSON-RPC endpoint.
#[derive(Clone)]
pub struct ChainClient {
    rpc_url: String,
}

impl ChainClient {
    /// A client of the node at `rpc_url`.
    pub fn new(rpc_url: &str) -> (client: Self)
        ensures
            client.url() == rpc_url@,
    {
        broadcast use vstd::string::to_string_from_display_ensures_for_str;

        ChainClient { rpc_url: rpc_url.to_string() }
    }

    /// The endpoint's URL.
    pub closed spec fn url(&self) -> Seq<char> {
        self.rpc_url@
    }

    /// The endpoint's URL.
    pub fn rpc_url(&self) -> (url: &str)
        ensures
            url@ == self.url(),
    {
        self.rpc_url.as_str()
    }
}

} // verus!
