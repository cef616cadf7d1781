//! Service addressing: which environment key holds each service's port,
//! and how a port becomes the address and URL the clients dial.
//!
//! Reading the environment is the caller's business; these functions only
//! shape the strings.

use vstd::prelude::*;
use vstd::string::StringExecFns;

verus! {

/// The services of the deployment.
pub enum Service {
    Tag,
    Post,
    Comment,
    Admin,
    BlogApi,
}

impl Service {
    /// The environment key that holds this service's port.
    pub fn env_key(&self) -> (r: &'static str)
        ensures
            match self {
                Service::Tag => r@ == "TAG_SRV_PORT"@,
                Service::Post => r@ == "POST_SRV_PORT"@,
                Service::Comment => r@ == "COMMENT_SRV_PORT"@,
                Service::Admin => r@ == "ADMIN_SRV_PORT"@,
                Service::BlogApi => r@ == "BLOG_API_PORT"@,
            },
    {
        match self {
            Service::Tag => "TAG_SRV_PORT",
            Service::Post => "POST_SRV_PORT",
            Service::Comment => "COMMENT_SRV_PORT",
            Service::Admin => "ADMIN_SRV_PORT",
            Service::BlogApi => "BLOG_API_PORT",
        }
    }
}

/// The socket address of a service on the local host, from its port.
pub fn get_service_addr(port: &str) -> (r: String)
    ensures
        r@ == "[::1]:"@ + port@,
{
    let mut s = String::new();
    s.append("[::1]:");
    s.append(port);
    proof {
        assert(s@ =~= "[::1]:"@ + port@);
    }
    s
}

/// The base URL of a service, from its port.
pub fn get_service_url(port: &str) -> (r: String)
    ensures
        r@ == "http://"@ + "[::1]:"@ + port@,
{
    let addr = get_service_addr(port);
    let mut s = String::new();
    s.append("http://");
    s.append(addr.as_str());
    proof {
        assert(s@ =~= "http://"@ + "[::1]:"@ + port@);
    }
    s
}

} // verus!
