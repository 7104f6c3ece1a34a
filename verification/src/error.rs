//! What can go wrong in a cluster.
use vstd::prelude::*;
use vstd::string::*;

verus! {

/// An error of a browser or of the cluster that manages it.
#[derive(Debug)]
pub enum BrowserError {
    /// A browser could not be started.
    LaunchError(String),
    /// An operation on a browser or on the cluster failed.
    OperationError(String),
    /// The connection to a browser failed.
    ConnectionError(String),
    /// Something took too long.
    TimeoutError(String),
    /// The job queue holds as many jobs as it may.
    QueueFullError,
}

/// The mathematical content of a [`BrowserError`].
pub enum ErrorModel {
    Launch(Seq<char>),
    Operation(Seq<char>),
    Connection(Seq<char>),
    Timeout(Seq<char>),
    QueueFull,
}

impl View for BrowserError {
    type V = ErrorModel;

    open spec fn view(&self) -> ErrorModel {
        match *self {
            BrowserError::LaunchError(s) => ErrorModel::Launch(s@),
            BrowserError::OperationError(s) => ErrorModel::Operation(s@),
            BrowserError::ConnectionError(s) => ErrorModel::Connection(s@),
            BrowserError::TimeoutError(s) => ErrorModel::Timeout(s@),
            BrowserError::QueueFullError => ErrorModel::QueueFull,
        }
    }
}

impl ErrorModel {
    /// The error as a line of text.
    pub open spec fn text(self) -> Seq<char> {
        match self {
            ErrorModel::Launch(s) => "Browser launch failed: "@ + s,
            ErrorModel::Operation(s) => "Browser operation failed: "@ + s,
            ErrorModel::Connection(s) => "Browser connection failed: "@ + s,
            ErrorModel::Timeout(s) => "Timeout error: "@ + s,
            ErrorModel::QueueFull => "Queue is full"@,
        }
    }

    /// The answer to a request that comes after the cluster was closed.
    pub open spec fn cluster_closed() -> ErrorModel {
        ErrorModel::Operation("Cluster is closed"@)
    }

    /// The answer when the task channel took no more.
    pub open spec fn send_failed() -> ErrorModel {
        ErrorModel::Operation("Failed to send task"@)
    }

    /// The answer when another browser is needed and no further one may be started.
    pub open spec fn max_browsers() -> ErrorModel {
        ErrorModel::Operation("Max concurrent browsers reached"@)
    }
}

impl BrowserError {
    /// The error as a line of text.
    pub fn message(&self) -> (text: String)
        ensures
            text@ == self@.text(),
            match *self {
                BrowserError::LaunchError(s) => text@ == "Browser launch failed: "@ + s@,
                BrowserError::OperationError(s) => text@ == "Browser operation failed: "@ + s@,
                BrowserError::ConnectionError(s) => text@ == "Browser connection failed: "@ + s@,
                BrowserError::TimeoutError(s) => text@ == "Timeout error: "@ + s@,
                BrowserError::QueueFullError => text@ == "Queue is full"@,
            },
    {
        match self {
            BrowserError::LaunchError(s) => prefixed("Browser launch failed: ", s),
            BrowserError::OperationError(s) => prefixed("Browser operation failed: ", s),
            BrowserError::ConnectionError(s) => prefixed("Browser connection failed: ", s),
            BrowserError::TimeoutError(s) => prefixed("Timeout error: ", s),
            BrowserError::QueueFullError => "Queue is full".to_owned(),
        }
    }

    /// The error for a request to a closed cluster.
    pub fn cluster_closed() -> (e: BrowserError)
        ensures
            e@ == ErrorModel::cluster_closed(),
            e matches BrowserError::OperationError(s) && s@ == "Cluster is closed"@,
    {
        BrowserError::OperationError("Cluster is closed".to_owned())
    }

    /// The error for a job that the task channel did not take.
    pub fn send_failed() -> (e: BrowserError)
        ensures
            e@ == ErrorModel::send_failed(),
            e matches BrowserError::OperationError(s) && s@ == "Failed to send task"@,
    {
        BrowserError::OperationError("Failed to send task".to_owned())
    }

    /// The error for a job that would need one browser too many.
    pub fn max_browsers() -> (e: BrowserError)
        ensures
            e@ == ErrorModel::max_browsers(),
            e matches BrowserError::OperationError(s) && s@ == "Max concurrent browsers reached"@,
    {
        BrowserError::OperationError("Max concurrent browsers reached".to_owned())
    }
}

fn prefixed(prefix: &str, detail: &String) -> (text: String)
    ensures
        text@ == prefix@ + detail@,
{
    let mut text = prefix.to_owned();
    text.append(detail.as_str());
    text
}

} // verus!
