//! The name of a drive.

use vstd::prelude::*;
use crate::fetch::Fetcher;

verus! {

/// Where a drive is asked for; the id of the drive follows.
pub const URL: &'static str = "https://www.googleapis.com/drive/v3/drives/";

/// The fields of a drive that are asked for.
pub const FIELDS: &'static str = "name";

/// The parameters of the request for the name of a drive.
#[derive(Debug)]
pub struct Query {
    pub fields: String,
}

/// The request for the name of a drive.
#[derive(Debug)]
pub struct Request {
    pub url: String,
    pub query: Query,
}

/// The answer to the request for the name of a drive.
#[derive(Debug)]
pub struct Response {
    pub name: String,
}

impl Fetcher {
    /// The request for the name of a drive: at the address of the drive,
    /// for its name alone.
    pub fn drive_name(&self, drive_id: &str) -> (r: Request)
        ensures
            r.url@ == URL@ + drive_id@,
            r.query.fields@ == FIELDS@,
    {
        Request { url: URL.to_owned().concat(drive_id), query: Query { fields: FIELDS.to_owned() } }
    }
}

} // verus!
