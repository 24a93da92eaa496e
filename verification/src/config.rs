use vstd::prelude::*;

use crate::backends::web::youdao::YoudaoAPIKey;

verus! {

/// The settings read from the configuration file.
#[derive(Debug, Clone)]
pub struct Config {
    pub proxy: Proxy,
    pub server: Option<Server>,
    pub youdao: Option<YoudaoAPIKey>,
}

/// Proxies for outgoing requests.
#[derive(Debug, Clone)]
pub struct Proxy {
    pub http_proxy: Option<String>,
    pub https_proxy: Option<String>,
}

/// Where the lookup server listens.
#[derive(Debug, Clone)]
pub struct Server {
    pub addr: String,
}

impl Default for Proxy {
    /// No proxy.
    fn default() -> (res: Self)
        ensures
            res.http_proxy is None,
            res.https_proxy is None,
    {
        Proxy { http_proxy: None, https_proxy: None }
    }
}

impl Default for Config {
    /// No proxy, no server and no Youdao key.
    fn default() -> (res: Self)
        ensures
            res.proxy.http_proxy is None,
            res.proxy.https_proxy is None,
            res.server is None,
            res.youdao is None,
    {
        Config { proxy: Proxy::default(), server: None, youdao: None }
    }
}

} // verus!
