//! What a request may ask for, and how loudly the service speaks.

use vstd::prelude::*;

verus! {

/// The number of items that are enriched when a request names no limit.
pub const DEFAULT_ITEM_LIMIT: usize = 10;

/// The policy of one request.
///
/// The proxy settings and the cache switch are taken in and carried along;
/// nothing in the pipeline reads them.
#[derive(Clone, Debug)]
pub struct FurssOptions {
    /// Address of the relay that fetches pages on the service's behalf.
    pub flaresolverr: Option<String>,
    /// Address of an outbound proxy.
    pub proxy: Option<String>,
    /// User name for the outbound proxy.
    pub proxy_username: Option<String>,
    /// Password for the outbound proxy.
    pub proxy_password: Option<String>,
    /// Whether the caller asked to bypass the article cache.
    pub disable_cache: Option<bool>,
    /// Whether every item is to be enriched.
    pub full: Option<bool>,
    /// How many leading items are enriched when `full` is not set.
    pub number_items: Option<u16>,
}

impl FurssOptions {
    /// Whether every item of the feed is to be enriched.
    pub open spec fn wants_all(&self) -> bool {
        self.full == Some(true)
    }

    /// How many leading items are enriched when not all are.
    pub open spec fn limit(&self) -> nat {
        match self.number_items {
            Some(n) => n as nat,
            None => DEFAULT_ITEM_LIMIT as nat,
        }
    }

    /// Options of a request that set nothing.
    pub fn new() -> (res: Self)
        ensures
            res.flaresolverr is None,
            res.proxy is None,
            res.proxy_username is None,
            res.proxy_password is None,
            res.disable_cache is None,
            res.full is None,
            res.number_items is None,
    {
        FurssOptions {
            flaresolverr: None,
            proxy: None,
            proxy_username: None,
            proxy_password: None,
            disable_cache: None,
            full: None,
            number_items: None,
        }
    }

    /// Whether every item of the feed is to be enriched.
    pub fn is_full(&self) -> (res: bool)
        ensures
            res == self.wants_all(),
    {
        match self.full {
            Some(full) => full,
            None => false,
        }
    }

    /// How many leading items are enriched when not all are.
    pub fn item_limit(&self) -> (res: usize)
        ensures
            res == self.limit(),
    {
        match self.number_items {
            Some(n) => n as usize,
            None => DEFAULT_ITEM_LIMIT,
        }
    }
}

impl Default for FurssOptions {
    fn default() -> (res: Self)
        ensures
            res.flaresolverr is None,
            res.proxy is None,
            res.proxy_username is None,
            res.proxy_password is None,
            res.disable_cache is None,
            res.full is None,
            res.number_items is None,
    {
        FurssOptions::new()
    }
}

/// How much a message matters.
#[derive(Clone, Copy, Debug, PartialEq, Eq, Structural)]
pub enum LogLevel {
    Trace,
    Debug,
    Info,
    Warn,
    Error,
}

} // verus!
