//! SEARCH: criteria, return options and results.
use vstd::prelude::*;
use crate::types::SeqSet;

verus! {

/// SEARCH criteria — the subset of RFC 3501 SEARCH that clients use.
#[derive(Debug)]
pub struct SearchCriteria {
    pub all: bool,
    pub uid_set: Option<String>,
    pub seq_set: Option<String>,
    pub from: Option<String>,
    pub to: Option<String>,
    pub subject: Option<String>,
    pub body: Option<String>,
    pub text: Option<String>,
    pub before: Option<String>,
    pub since: Option<String>,
    pub smaller: Option<u64>,
    pub larger: Option<u64>,
    pub seen: Option<bool>,
    pub answered: Option<bool>,
    pub flagged: Option<bool>,
    pub deleted: Option<bool>,
    pub draft: Option<bool>,
    pub recent: Option<bool>,
    pub new: Option<bool>,
    pub old: Option<bool>,
    pub keyword: Option<String>,
    pub unkeyword: Option<String>,
    pub not: Option<Box<SearchCriteria>>,
    pub or: Option<(Box<SearchCriteria>, Box<SearchCriteria>)>,
    pub and: Vec<SearchCriteria>,
    pub unanswered: bool,
    pub undraft: bool,
    pub unflagged: bool,
    pub unkeyword_val: bool,
    pub unnew: bool,
    pub unold: bool,
    pub unrecent: bool,
    pub unseen: bool,
}

/// Criteria that select nothing in particular: every field unset.
pub open spec fn is_blank_criteria(c: SearchCriteria) -> bool {
    &&& !c.all
    &&& c.uid_set is None && c.seq_set is None
    &&& c.from is None && c.to is None && c.subject is None && c.body is None
    &&& c.text is None && c.before is None && c.since is None
    &&& c.smaller is None && c.larger is None
    &&& c.seen is None && c.answered is None && c.flagged is None && c.deleted is None
    &&& c.draft is None && c.recent is None && c.new is None && c.old is None
    &&& c.keyword is None && c.unkeyword is None && c.not is None && c.or is None
    &&& c.and@.len() == 0
    &&& !c.unanswered && !c.undraft && !c.unflagged && !c.unkeyword_val
    &&& !c.unnew && !c.unold && !c.unrecent && !c.unseen
}

impl Default for SearchCriteria {
    fn default() -> (r: Self)
        ensures
            is_blank_criteria(r),
    {
        SearchCriteria {
            all: false,
            uid_set: None,
            seq_set: None,
            from: None,
            to: None,
            subject: None,
            body: None,
            text: None,
            before: None,
            since: None,
            smaller: None,
            larger: None,
            seen: None,
            answered: None,
            flagged: None,
            deleted: None,
            draft: None,
            recent: None,
            new: None,
            old: None,
            keyword: None,
            unkeyword: None,
            not: None,
            or: None,
            and: Vec::new(),
            unanswered: false,
            undraft: false,
            unflagged: false,
            unkeyword_val: false,
            unnew: false,
            unold: false,
            unrecent: false,
            unseen: false,
        }
    }
}

/// Options for SEARCH command.
#[derive(Debug, Clone, Copy, PartialEq, Eq, Structural)]
pub struct SearchOptions {
    pub return_min: bool,
    pub return_max: bool,
    pub return_all: bool,
    pub return_count: bool,
    pub return_save: bool,
}

impl Default for SearchOptions {
    fn default() -> (r: Self)
        ensures
            !r.return_min && !r.return_max && !r.return_all && !r.return_count
                && !r.return_save,
    {
        SearchOptions {
            return_min: false,
            return_max: false,
            return_all: false,
            return_count: false,
            return_save: false,
        }
    }
}

/// Data returned by SEARCH.
#[derive(Debug, Clone)]
pub struct SearchData {
    pub all: Option<SeqSet>,
    pub min: Option<u32>,
    pub max: Option<u32>,
    pub count: u32,
    pub modseq: Option<u64>,
}

impl Default for SearchData {
    fn default() -> (r: Self)
        ensures
            r.all is None && r.min is None && r.max is None && r.count == 0 && r.modseq is None,
    {
        SearchData { all: None, min: None, max: None, count: 0, modseq: None }
    }
}

} // verus!
