//! Who makes a request, and which path within the app it asks for.

use vstd::prelude::*;

use crate::config::AppConfig;
use crate::ledger::system_owner;
use crate::text::{split_char, split_on, str_eq, strings_view, strip_prefix, stripped_prefix, trim_start_char, trimmed_start};

verus! {

/// The user making a request, as the reverse proxy in front of the app
/// identifies them by email.
#[derive(Clone, Debug)]
pub struct User {
    pub email: String,
    pub is_admin: bool,
}

impl User {
    /// The user with the given email; the configured administrator is the admin.
    ///
    /// `SYSTEM` is reserved: the ledger uses it as the owner of the system's
    /// accounts, so it cannot be a user.
    pub fn new(config_app: &AppConfig, email: String) -> (r: User)
        requires
            email@ != system_owner(),
        ensures
            r.email@ == email@,
            r.is_admin == (email@ == config_app.admin_email@),
    {
        let is_admin = str_eq(email.as_str(), config_app.admin_email.as_str());
        User { email, is_admin }
    }
}

/// The email of the user: the value of the last `X-Email` header, or, when
/// there is none, the fallback (which development builds take from the
/// configuration).
pub fn request_email(x_email_values: &Vec<String>, fallback: &Option<String>) -> (r: Option<String>)
    ensures
        x_email_values@.len() > 0 ==> (r matches Some(e) && e@ == x_email_values@.last()@),
        x_email_values@.len() == 0 ==> match fallback {
            Some(f) => (r matches Some(e) && e@ == f@),
            None => r is None,
        },
{
    if x_email_values.len() > 0 {
        Some(x_email_values[x_email_values.len() - 1].clone())
    } else {
        match fallback {
            Some(f) => Some(f.clone()),
            None => None,
        }
    }
}

/// The segments of the path that a request url names within the app: the
/// url must start with the prefix the app is served under; the rest, without
/// leading slashes, split at every slash.
pub fn request_path(url: &str, prefix: &str) -> (r: Option<Vec<String>>)
    ensures
        match stripped_prefix(url@, prefix@) {
            Some(rest) => (r matches Some(v) && strings_view(v@) == split_on(trimmed_start(rest, '/'), '/')),
            None => r is None,
        },
{
    match strip_prefix(url, prefix) {
        Some(rest) => {
            let trimmed = trim_start_char(rest.as_str(), '/');
            Some(split_char(trimmed.as_str(), '/'))
        },
        None => None,
    }
}

/// Whether a request is answered with a status that keeps its changes to
/// the ledger: success and redirects do, errors roll back.
pub fn response_commits(status: u16) -> (r: bool)
    ensures
        r == (status < 400),
{
    status < 400
}

} // verus!
