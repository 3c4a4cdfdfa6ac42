//! What the application remembers between queries. Times are seconds of one
//! clock that never runs backwards.
use vstd::prelude::*;

use crate::search::hybrid::HybridResult;

verus! {

/// A search that ran while the query was being typed.
#[derive(Debug)]
pub struct PreSearchCache {
    /// The query.
    pub query: String,
    /// Its keywords.
    pub keywords: String,
    /// Its results.
    pub results: Vec<HybridResult>,
    /// When the search ended.
    pub timestamp: u64,
}

/// A file that an earlier answer rested on.
#[derive(Debug)]
pub struct SessionFile {
    /// Its path.
    pub file_path: String,
    /// Its name.
    pub file_name: String,
}

impl Clone for SessionFile {
    fn clone(&self) -> (r: Self)
        ensures
            r == *self,
    {
        SessionFile { file_path: self.file_path.clone(), file_name: self.file_name.clone() }
    }
}

/// What a session's last answer rested on.
#[derive(Debug)]
pub struct SessionContext {
    /// The session.
    pub session_id: String,
    /// The files.
    pub attached_files: Vec<SessionFile>,
    /// The keywords.
    pub keywords: String,
    /// The context that the model was given.
    pub context_text: String,
    /// When the answer was given.
    pub timestamp: u64,
}

/// The seconds since a time; none where it is still to come.
pub open spec fn age(timestamp: u64, now: u64) -> int {
    if now > timestamp {
        now - timestamp
    } else {
        0
    }
}

/// The seconds since a time.
pub fn seconds_since(timestamp: u64, now: u64) -> (r: u64)
    ensures
        r == age(timestamp, now),
{
    if now > timestamp {
        now - timestamp
    } else {
        0
    }
}

/// How long, in seconds, the results of a search while typing can be used.
pub const CACHE_SECONDS: u64 = 5;

impl PreSearchCache {
    /// The cached search is for this query and recent.
    pub open spec fn serves(&self, query: Seq<char>, now: u64) -> bool {
        self.query@ == query && age(self.timestamp, now) < CACHE_SECONDS
    }

    /// Whether the cached search is for this query and recent.
    pub fn can_serve(&self, query: &str, now: u64) -> (r: bool)
        ensures
            r == self.serves(query@, now),
    {
        crate::text::find::same(self.query.as_str(), query) && seconds_since(self.timestamp, now)
            < CACHE_SECONDS
    }
}

impl PreSearchCache {
    /// A search while typing serves for the same query within five seconds, and for
    /// no other and no longer.
    pub proof fn law_serves(&self, query: Seq<char>, now: u64)
        ensures
            self.query@ == query && now < self.timestamp + 5 ==> self.serves(query, now),
            self.query@ != query ==> !self.serves(query, now),
            now >= self.timestamp + 5 ==> !self.serves(query, now),
    {
    }
}

} // verus!
