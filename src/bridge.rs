use vstd::prelude::*;

use crate::search::{GitGrepMatch, MAX_RESULTS};

verus! {

/// A finished background search, keyed by the query that started it.
pub enum AsyncMessage {
    GitGrepResults { query: String, results: Vec<GitGrepMatch> },
    GitLsFilesResults { query: String, files: Vec<String> },
}

/// At most `MAX_RESULTS` of `s`, from the front.
pub open spec fn capped<A>(s: Seq<A>) -> Seq<A> {
    if s.len() <= MAX_RESULTS {
        s
    } else {
        s.subrange(0, MAX_RESULTS as int)
    }
}

/// The searches that are current and the results shown for them. A result
/// is taken only while the query it answers is still the current one.
pub struct SearchResults {
    grep_query: Option<String>,
    grep_results: Vec<GitGrepMatch>,
    files_query: Option<String>,
    file_results: Vec<String>,
}

impl SearchResults {
    pub closed spec fn grep_query_spec(&self) -> Option<Seq<char>> {
        match self.grep_query {
            Some(q) => Some(q@),
            None => None,
        }
    }

    pub closed spec fn files_query_spec(&self) -> Option<Seq<char>> {
        match self.files_query {
            Some(q) => Some(q@),
            None => None,
        }
    }

    pub closed spec fn grep_results_spec(&self) -> Seq<GitGrepMatch> {
        self.grep_results@
    }

    pub closed spec fn file_results_spec(&self) -> Seq<String> {
        self.file_results@
    }

    /// No search issued, nothing shown.
    pub fn new() -> (r: SearchResults)
        ensures
            r.grep_query_spec() is None,
            r.files_query_spec() is None,
            r.grep_results_spec().len() == 0,
            r.file_results_spec().len() == 0,
    {
        SearchResults { grep_query: None, grep_results: Vec::new(), files_query: None, file_results: Vec::new() }
    }

    /// Makes `query` the current content search; what was shown for an earlier
    /// one is dropped.
    pub fn start_grep(&mut self, query: &str)
        ensures
            final(self).grep_query_spec() == Some(query@),
            final(self).grep_results_spec().len() == 0,
            final(self).files_query_spec() == old(self).files_query_spec(),
            final(self).file_results_spec() == old(self).file_results_spec(),
    {
        self.grep_query = Some(String::from_str(query));
        self.grep_results = Vec::new();
    }

    /// Makes `query` the current file search; what was shown for an earlier
    /// one is dropped.
    pub fn start_file_search(&mut self, query: &str)
        ensures
            final(self).files_query_spec() == Some(query@),
            final(self).file_results_spec().len() == 0,
            final(self).grep_query_spec() == old(self).grep_query_spec(),
            final(self).grep_results_spec() == old(self).grep_results_spec(),
    {
        self.files_query = Some(String::from_str(query));
        self.file_results = Vec::new();
    }

    /// Takes a finished search's results when they answer the current query of
    /// their kind, at most `MAX_RESULTS` of them, and drops them otherwise.
    /// Returns whether they were taken.
    pub fn receive(&mut self, msg: AsyncMessage) -> (r: bool)
        ensures
            final(self).grep_query_spec() == old(self).grep_query_spec(),
            final(self).files_query_spec() == old(self).files_query_spec(),
            match msg {
                AsyncMessage::GitGrepResults { query, results } => {
                    &&& r == (old(self).grep_query_spec() == Some(query@))
                    &&& r ==> final(self).grep_results_spec() == capped(results@)
                    &&& !r ==> final(self).grep_results_spec() == old(self).grep_results_spec()
                    &&& final(self).file_results_spec() == old(self).file_results_spec()
                },
                AsyncMessage::GitLsFilesResults { query, files } => {
                    &&& r == (old(self).files_query_spec() == Some(query@))
                    &&& r ==> final(self).file_results_spec() == capped(files@)
                    &&& !r ==> final(self).file_results_spec() == old(self).file_results_spec()
                    &&& final(self).grep_results_spec() == old(self).grep_results_spec()
                },
            },
    {
        match msg {
            AsyncMessage::GitGrepResults { query, results } => {
                let current = match &self.grep_query {
                    Some(q) => *q == query,
                    None => false,
                };
                if current {
                    let mut results = results;
                    results.truncate(MAX_RESULTS);
                    self.grep_results = results;
                }
                current
            },
            AsyncMessage::GitLsFilesResults { query, files } => {
                let current = match &self.files_query {
                    Some(q) => *q == query,
                    None => false,
                };
                if current {
                    let mut files = files;
                    files.truncate(MAX_RESULTS);
                    self.file_results = files;
                }
                current
            },
        }
    }

    /// The content-search results shown.
    pub fn grep_results(&self) -> (r: &Vec<GitGrepMatch>)
        ensures
            r@ == self.grep_results_spec(),
    {
        &self.grep_results
    }

    /// The file-search results shown.
    pub fn file_results(&self) -> (r: &Vec<String>)
        ensures
            r@ == self.file_results_spec(),
    {
        &self.file_results
    }
}

} // verus!
