//! The handle through which an application embeds the service.

use vstd::prelude::*;
use crate::text::owned;

verus! {

/// Where the service listens and keeps its data.
#[derive(Debug, Clone, PartialEq, Eq)]
pub struct SdkConfig {
    pub bind_address: String,
    pub port: u16,
    pub data_dir: String,
}

impl Default for SdkConfig {
    /// Listens on 127.0.0.1:9312 and keeps its data in `.recoll-next`.
    fn default() -> (res: SdkConfig)
        ensures
            res.bind_address@ == "127.0.0.1"@,
            res.port == 9312,
            res.data_dir@ == ".recoll-next"@,
    {
        SdkConfig { bind_address: owned("127.0.0.1"), port: 9312, data_dir: owned(".recoll-next") }
    }
}

/// An open (or closed) handle on the service.
#[derive(Debug)]
pub struct RecollNext {
    open: bool,
    config: SdkConfig,
}

impl RecollNext {
    /// Whether the handle is open.
    pub closed spec fn opened(&self) -> bool {
        self.open
    }

    /// The configuration of the handle.
    pub closed spec fn configuration(&self) -> SdkConfig {
        self.config
    }

    /// Opens a handle with `config`; opening does not fail.
    pub fn open(config: SdkConfig) -> (res: Result<RecollNext, String>)
        ensures
            res matches Ok(h) && h.opened() && h.configuration() == config,
    {
        Ok(RecollNext { open: true, config })
    }

    /// The configuration of the handle.
    pub fn config(&self) -> (res: &SdkConfig)
        ensures
            *res == self.configuration(),
    {
        &self.config
    }

    /// Whether the handle is open.
    pub fn is_open(&self) -> (res: bool)
        ensures
            res == self.opened(),
    {
        self.open
    }

    /// Closes the handle.
    pub fn close(&mut self)
        ensures
            !final(self).opened(),
            final(self).configuration() == old(self).configuration(),
    {
        self.open = false;
    }
}

} // verus!
