//! The cursor at which the change feed of a drive now stands.

use vstd::prelude::*;
use crate::fetch::Fetcher;

verus! {

/// Where the cursor is asked for.
pub const URL: &'static str = "https://www.googleapis.com/drive/v3/changes/startPageToken";

/// The fields of the answer that are asked for.
pub const FIELDS: &'static str = "startPageToken";

/// The parameters of the request for the cursor of a drive.
#[derive(Debug)]
pub struct Query {
    pub drive_id: String,
    pub fields: String,
    pub supports_all_drives: bool,
}

/// The answer to the request for the cursor of a drive.
#[derive(Debug)]
pub struct Response {
    pub start_page_token: String,
}

impl Fetcher {
    /// The parameters of the request for the cursor at which the change
    /// feed of a drive now stands.
    pub fn start_page_token(&self, drive_id: &str) -> (q: Query)
        ensures
            q.drive_id@ == drive_id@,
            q.fields@ == FIELDS@,
            q.supports_all_drives,
    {
        Query { drive_id: drive_id.to_owned(), fields: FIELDS.to_owned(), supports_all_drives: true }
    }
}

} // verus!
