use vstd::prelude::*;

verus! {

/// The settings of a run: which provider to use and the Google credentials.
pub struct AppConfig {
    pub caldav_provider: String,
    pub google_client_id: String,
    pub google_client_secret: String,
    pub google_email: String,
}

} // verus!
