use vstd::prelude::*;
use core::marker::PhantomData;

verus! {

/// Lifespan used when none is configured: one hour, in milliseconds.
pub const DEFAULT_LIFESPAN: u64 = 3_600_000;

/// Token length used when none is configured.
pub const DEFAULT_COOKIE_LEN: usize = 16;

/// Settings fixed when a store is built. Times are in milliseconds.
pub struct SessionConfig {
    /// How long a session lives after its last access.
    pub lifespan: u64,
    /// Name of the cookie that carries the token.
    pub cookie_name: String,
    /// Path of the cookie that carries the token.
    pub cookie_path: String,
    /// Number of characters in a token.
    pub cookie_len: usize,
}

impl Default for SessionConfig {
    fn default() -> (r: SessionConfig)
        ensures
            r.lifespan == DEFAULT_LIFESPAN,
            r.cookie_name@ == "rocket_session"@,
            r.cookie_path@ == "/"@,
            r.cookie_len == DEFAULT_COOKIE_LEN,
    {
        SessionConfig {
            lifespan: DEFAULT_LIFESPAN,
            cookie_name: String::from_str("rocket_session"),
            cookie_path: String::from_str("/"),
            cookie_len: DEFAULT_COOKIE_LEN,
        }
    }
}

/// Builder of the session store's settings, `D` being the session payload.
pub struct SessionFairing<D> {
    config: SessionConfig,
    phantom: PhantomData<D>,
}

impl<D> SessionFairing<D> {
    /// The settings gathered so far.
    pub closed spec fn spec_config(&self) -> SessionConfig {
        self.config
    }

    /// A builder holding the default settings.
    pub fn new() -> (r: Self)
        ensures
            r.spec_config().lifespan == DEFAULT_LIFESPAN,
            r.spec_config().cookie_name@ == "rocket_session"@,
            r.spec_config().cookie_path@ == "/"@,
            r.spec_config().cookie_len == DEFAULT_COOKIE_LEN,
    {
        SessionFairing { config: SessionConfig::default(), phantom: PhantomData }
    }

    /// Set the session lifespan, in milliseconds.
    pub fn with_lifetime(self, time: u64) -> (r: Self)
        ensures
            r.spec_config() == (SessionConfig { lifespan: time, ..self.spec_config() }),
    {
        let mut s = self;
        s.config.lifespan = time;
        s
    }

    /// Set the name of the session cookie.
    pub fn with_cookie_name(self, name: String) -> (r: Self)
        ensures
            r.spec_config() == (SessionConfig { cookie_name: name, ..self.spec_config() }),
    {
        let mut s = self;
        s.config.cookie_name = name;
        s
    }

    /// Set the number of characters in a session token.
    pub fn with_cookie_len(self, length: usize) -> (r: Self)
        ensures
            r.spec_config() == (SessionConfig { cookie_len: length, ..self.spec_config() }),
    {
        let mut s = self;
        s.config.cookie_len = length;
        s
    }

    /// Set the path of the session cookie.
    pub fn with_cookie_path(self, path: String) -> (r: Self)
        ensures
            r.spec_config() == (SessionConfig { cookie_path: path, ..self.spec_config() }),
    {
        let mut s = self;
        s.config.cookie_path = path;
        s
    }

    /// The settings gathered so far.
    pub fn config(&self) -> (r: &SessionConfig)
        ensures
            *r == self.spec_config(),
    {
        &self.config
    }

    /// Give up the builder, keeping its settings.
    pub fn into_config(self) -> (r: SessionConfig)
        ensures
            r == self.spec_config(),
    {
        self.config
    }
}

} // verus!
