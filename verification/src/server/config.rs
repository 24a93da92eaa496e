use vstd::prelude::*;

use crate::server::backends::web::youdao::YoudaoAPIKey;

verus! {

/// The settings the server reads from its configuration file.
#[derive(Debug, Clone)]
pub struct Config {
    pub proxy: Proxy,
    pub youdao: Option<YoudaoAPIKey>,
}

/// Proxies for outgoing requests.
#[derive(Debug, Clone)]
pub struct Proxy {
    pub http_proxy: Option<String>,
    pub https_proxy: Option<String>,
}

/// Backend settings.
#[derive(Debug)]
pub struct Backend {
    pub youdao_api_key: Option<YoudaoAPIKey>,
}

impl Default for Proxy {
    /// No proxy.
    fn default() -> (res: Self)
        ensures
            res.http_proxy is None,
            res.https_proxy is None,
    {
        Proxy { http_proxy: None, https_proxy: None }
    }
}

impl Default for Backend {
    /// No Youdao key.
    fn default() -> (res: Self)
        ensures
            res.youdao_api_key is None,
    {
        Backend { youdao_api_key: None }
    }
}

} // verus!
