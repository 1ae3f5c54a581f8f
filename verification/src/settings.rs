use vstd::prelude::*;

verus! {

/// Where the runtime's control API can be reached: either an HTTP url or a
/// unix socket path. When neither is set, a default url is used.
pub struct Settings {
    pub url: Option<String>,
    pub socket: Option<String>,
}

/// The url used when a `Settings` value carries neither a url nor a socket.
pub open spec fn default_url() -> Seq<char> {
    "http://127.0.0.1:8080"@
}

impl Settings {
    /// The address every client call is sent to: the url when one is set,
    /// otherwise the socket, otherwise the default url.
    pub fn get_url(&self) -> (r: String)
        ensures
            self.url is Some ==> r@ == self.url->0@,
            self.url is None && self.socket is Some ==> r@ == self.socket->0@,
            self.url is None && self.socket is None ==> r@ == default_url(),
    {
        if let Some(url) = &self.url {
            url.clone()
        } else if let Some(socket) = &self.socket {
            socket.clone()
        } else {
            String::from_str("http://127.0.0.1:8080")
        }
    }
}

impl Default for Settings {
    /// By default the runtime is addressed over loopback HTTP.
    fn default() -> (r: Self)
        ensures
            r.url is Some && r.url->0@ == default_url(),
            r.socket is None,
    {
        Settings { url: Some(String::from_str("http://127.0.0.1:8080")), socket: None }
    }
}

} // verus!
