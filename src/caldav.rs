//! Calendar providers: the adapter interface and the Google provider's own
//! decisions.

use vstd::prelude::*;
use vstd::string::*;
use crate::config::AppConfig;
use crate::events::{Event, EventsManager};
use crate::session::SessionManager;

verus! {

/// Why a provider could not hand over its records.
pub enum FetchError {
    /// A text node of the response was not valid UTF-8.
    Decode,
    /// Authorisation, transport or storage failed, with the reason.
    Unavailable(String),
}

impl FetchError {
    /// The reason, as text.
    pub fn message(&self) -> (r: String)
        ensures
            self is Unavailable ==> r@ == self->Unavailable_0@,
    {
        match self {
            FetchError::Decode => String::from_str("calendar data is not valid UTF-8"),
            FetchError::Unavailable(m) => m.clone(),
        }
    }
}

/// A calendar provider that hands over the records of one calendar.
pub trait CaldavAdapter {
    fn fetch_events(&self) -> Result<Vec<Event>, FetchError>;
}

/// The Google calendar provider: its settings, the stored session and the
/// response scanner.
pub struct GoogleCaldavAdapter {
    pub config: AppConfig,
    pub session_manager: SessionManager,
    pub events_manager: EventsManager,
}

impl GoogleCaldavAdapter {
    pub fn new(config: AppConfig) -> (r: Self)
        ensures
            r.config == config,
    {
        GoogleCaldavAdapter {
            config,
            session_manager: SessionManager::new(),
            events_manager: EventsManager::new(),
        }
    }

    /// The address of the calendar query for the account `email`.
    pub fn events_url(email: &str) -> (r: String)
        ensures
            r@ == "https://apidata.googleusercontent.com/caldav/v2/"@ + email@ + "/events"@,
    {
        let mut r = String::from_str("https://apidata.googleusercontent.com/caldav/v2/");
        r.append(email);
        r.append("/events");
        r
    }
}

/// What to do with the answer to a calendar query.
pub enum FetchAction {
    /// The stored token was refused: forget it and ask again.
    ForgetTokenAndRetry,
    /// Scan the body for records.
    ScanBody,
}

/// The next step after a calendar query answered with `status`: a refused
/// token (401) is forgotten and the query repeated, any other answer is scanned.
pub fn after_query(status: u16) -> (r: FetchAction)
    ensures
        r is ForgetTokenAndRetry <==> status == 401,
{
    if status == 401 {
        FetchAction::ForgetTokenAndRetry
    } else {
        FetchAction::ScanBody
    }
}

} // verus!
