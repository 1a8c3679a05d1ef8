use vstd::prelude::*;

verus! {

/// One upstream server. Requests are forwarded to `url`; liveness is probed
/// at `url` followed by `healthcheck_path`. A backend is an immutable value:
/// updates replace whole sets of backends, never one in place.
#[derive(Debug)]
pub struct Backend {
    pub url: String,
    pub healthcheck_path: String,
}

impl Clone for Backend {
    fn clone(&self) -> (r: Self)
        ensures
            r == *self,
    {
        Backend { url: self.url.clone(), healthcheck_path: self.healthcheck_path.clone() }
    }
}

impl Backend {
    pub fn new(url: String, healthcheck_path: String) -> (r: Self)
        ensures
            r.url == url,
            r.healthcheck_path == healthcheck_path,
    {
        Backend { url, healthcheck_path }
    }

    /// The address that a liveness probe of this backend targets.
    pub fn health_url(&self) -> (r: String)
        ensures
            r@ == self.url@ + self.healthcheck_path@,
    {
        let mut r = self.url.clone();
        r.append(self.healthcheck_path.as_str());
        r
    }
}

/// What the balancer starts from: how often backends are probed, in seconds,
/// and the ordered list of candidate backends.
#[derive(Debug)]
pub struct Config {
    pub healthcheck_interval_secs: usize,
    pub backends: Vec<Backend>,
}

impl Clone for Config {
    fn clone(&self) -> (r: Self)
        ensures
            r.healthcheck_interval_secs == self.healthcheck_interval_secs,
            r.backends@ == self.backends@,
    {
        let backends = self.backends.clone();
        assert(backends@ =~= self.backends@);
        Config { healthcheck_interval_secs: self.healthcheck_interval_secs, backends }
    }
}

/// The probe period used when none is configured.
pub const DEFAULT_HEALTHCHECK_INTERVAL_SECS: usize = 30;

impl Default for Config {
    fn default() -> (r: Self)
        ensures
            r.healthcheck_interval_secs == DEFAULT_HEALTHCHECK_INTERVAL_SECS,
            r.backends@.len() == 0,
    {
        Config { healthcheck_interval_secs: DEFAULT_HEALTHCHECK_INTERVAL_SECS, backends: Vec::new() }
    }
}

} // verus!
