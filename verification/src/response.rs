use vstd::prelude::*;
use crate::error::CliError;
use crate::ledger::TrackerData;
use crate::model::Record;
use crate::query::{DescribeData, Total};

verus! {

/// What a command hands back for rendering.
#[derive(Debug)]
pub enum ResponseContent {
    Message(String),
    Record { record: Record, tracker_data: TrackerData, is_update: bool },
    List { records: Vec<Record>, tracker_data: TrackerData },
    TrackerData(TrackerData),
    Total(Total),
    Categories(Vec<(usize, String)>),
    Subcategories(Vec<(usize, String)>),
    Describe(DescribeData),
}

/// A successful command outcome: either bare success or content to render.
#[derive(Debug)]
pub struct CliResponse {
    content: Option<ResponseContent>,
}

pub type CliResult = Result<CliResponse, CliError>;

impl CliResponse {
    pub closed spec fn content_spec(&self) -> Option<ResponseContent> {
        self.content
    }

    pub fn new(content: ResponseContent) -> (r: Self)
        ensures
            r.content_spec() == Some(content),
    {
        Self { content: Some(content) }
    }

    pub fn success() -> (r: Self)
        ensures
            r.content_spec() is None,
    {
        Self { content: None }
    }

    pub fn content(&self) -> (r: Option<&ResponseContent>)
        ensures
            match r {
                Some(c) => self.content_spec() == Some(*c),
                None => self.content_spec() is None,
            },
    {
        self.content.as_ref()
    }
}

} // verus!
