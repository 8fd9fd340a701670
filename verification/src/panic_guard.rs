//! What is told of a handler that failed.

use vstd::prelude::*;
use crate::text::{concat2, concat3, decimal, decimal_of};

verus! {

/// Where a handler failed.
#[derive(Clone, Debug)]
pub struct Site {
    pub file: String,
    pub line: u32,
}

/// What is told of a failure that says nothing itself.
pub open spec fn told(message: Option<Seq<char>>) -> Seq<char> {
    match message {
        Some(text) => text,
        None => "<non-string panic payload>"@,
    }
}

/// The report of a failure: where it was, where that is known, and what it said, where it
/// said anything.
pub open spec fn report_of(site: Option<Site>, message: Option<Seq<char>>) -> Seq<char> {
    match site {
        Some(site) => "panicked at "@ + site.file@ + ":"@ + decimal_of(site.line as nat) + ": "@
            + told(message),
        None => "panicked at unknown location: "@ + told(message),
    }
}

/// The report of a failure.
pub fn report(site: &Option<Site>, message: &Option<String>) -> (r: String)
    ensures
        r@ == report_of(*site, message.deep_view()),
{
    let text = match message {
        Some(text) => text.clone(),
        None => "<non-string panic payload>".to_owned(),
    };
    match site {
        Some(site) => {
            let at = concat3("panicked at ", site.file.as_str(), ":");
            let line = concat3(at.as_str(), decimal(site.line as u64).as_str(), ": ");
            concat2(line.as_str(), text.as_str())
        },
        None => concat2("panicked at unknown location: ", text.as_str()),
    }
}

}
