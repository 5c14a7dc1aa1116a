//! The values the delivery worker deals in, each with its mathematical view.

use vstd::prelude::*;

verus! {

/// Identity of a newsletter issue.
pub type IssueId = u64;

/// A point in time, in whole ticks of the caller's clock.
pub type Timestamp = u64;

/// A composed newsletter. Once published it never changes.
#[derive(Clone, Debug, PartialEq, Eq)]
pub struct NewsletterIssue {
    pub id: IssueId,
    pub title: String,
    pub html_body: String,
    pub text_body: String,
    pub created_at: Timestamp,
}

/// Mathematical view of a [`NewsletterIssue`].
pub ghost struct IssueView {
    pub id: IssueId,
    pub title: Seq<char>,
    pub html_body: Seq<char>,
    pub text_body: Seq<char>,
    pub created_at: Timestamp,
}

impl View for NewsletterIssue {
    type V = IssueView;

    open spec fn view(&self) -> IssueView {
        IssueView {
            id: self.id,
            title: self.title@,
            html_body: self.html_body@,
            text_body: self.text_body@,
            created_at: self.created_at,
        }
    }
}

/// Whether a subscriber has completed the double opt-in.
#[derive(Copy, Clone, Debug, PartialEq, Eq, Structural)]
pub enum SubscriberStatus {
    Pending,
    Confirmed,
}

/// A subscriber, identified by email address.
#[derive(Clone, Debug, PartialEq, Eq)]
pub struct Subscriber {
    pub email: String,
    pub status: SubscriberStatus,
}

/// One pending delivery: an issue owed to a subscriber.
#[derive(Clone, Debug, PartialEq, Eq)]
pub struct QueueRow {
    pub issue_id: IssueId,
    pub subscriber_email: String,
    /// Delivery attempts that have failed so far.
    pub attempts: u32,
    /// The row may be claimed once the clock has reached this time.
    pub next_eligible_at: Timestamp,
    /// What went wrong at the latest attempt, for diagnosis only.
    pub last_error: Option<String>,
    /// Whether an executor currently holds the row.
    pub claimed: bool,
}

/// Mathematical view of a [`QueueRow`].
pub ghost struct RowView {
    pub issue_id: IssueId,
    pub email: Seq<char>,
    pub attempts: u32,
    pub next_eligible_at: Timestamp,
    pub last_error: Option<Seq<char>>,
    pub claimed: bool,
}

impl View for QueueRow {
    type V = RowView;

    open spec fn view(&self) -> RowView {
        RowView {
            issue_id: self.issue_id,
            email: self.subscriber_email@,
            attempts: self.attempts,
            next_eligible_at: self.next_eligible_at,
            last_error: match self.last_error {
                Some(e) => Some(e@),
                None => None,
            },
            claimed: self.claimed,
        }
    }
}

/// The receipt an executor gets for a row it has claimed.
#[derive(Clone, Debug, PartialEq, Eq)]
pub struct ClaimedItem {
    pub issue_id: IssueId,
    pub subscriber_email: String,
    /// Failed attempts recorded on the row when it was claimed.
    pub attempts: u32,
}

/// What became of a delivery after a failed attempt.
#[derive(Copy, Clone, Debug, PartialEq, Eq, Structural)]
pub enum FailureDisposition {
    /// The row stays in the queue and will be tried again.
    Retry,
    /// The delivery was abandoned and its row deleted.
    DeadLetter,
}

/// Log entry for a failed delivery attempt. It names the issue and the
/// subscriber, never the message body.
#[derive(Clone, Debug, PartialEq, Eq)]
pub struct FailureRecord {
    pub issue_id: IssueId,
    pub subscriber_email: String,
    pub error: String,
    pub disposition: FailureDisposition,
}

/// Mathematical view of a [`FailureRecord`].
pub ghost struct LoggedFailure {
    pub issue_id: IssueId,
    pub email: Seq<char>,
    pub error: Seq<char>,
    pub disposition: FailureDisposition,
}

impl View for FailureRecord {
    type V = LoggedFailure;

    open spec fn view(&self) -> LoggedFailure {
        LoggedFailure {
            issue_id: self.issue_id,
            email: self.subscriber_email@,
            error: self.error@,
            disposition: self.disposition,
        }
    }
}

/// Why the store refused an operation.
#[derive(Copy, Clone, Debug, PartialEq, Eq, Structural)]
pub enum StoreError {
    /// Rows were to be enqueued for an issue the store does not hold.
    UnknownIssue,
    /// The queue cannot take all the rows without exceeding its limit.
    QueueFull,
    /// The row to resolve does not exist or is not claimed.
    ClaimNotHeld,
}

/// Why a publication was refused.
#[derive(Copy, Clone, Debug, PartialEq, Eq, Structural)]
pub enum PublishError {
    /// An issue with the same identity but different content is already
    /// published.
    IssueConflict,
    /// The store could not take the issue's deliveries.
    Store(StoreError),
}

/// A message handed to the email gateway.
#[derive(Clone, Debug, PartialEq, Eq)]
pub struct OutboundEmail {
    pub recipient: String,
    pub subject: String,
    pub html_body: String,
    pub text_body: String,
}

/// Mathematical view of an [`OutboundEmail`].
pub ghost struct EmailView {
    pub recipient: Seq<char>,
    pub subject: Seq<char>,
    pub html_body: Seq<char>,
    pub text_body: Seq<char>,
}

impl View for OutboundEmail {
    type V = EmailView;

    open spec fn view(&self) -> EmailView {
        EmailView {
            recipient: self.recipient@,
            subject: self.subject@,
            html_body: self.html_body@,
            text_body: self.text_body@,
        }
    }
}

/// Why the email gateway did not deliver a message.
#[derive(Clone, Debug, PartialEq, Eq)]
pub enum GatewayError {
    /// The failure may pass: a timeout, a lost connection, a server fault.
    Transient(String),
    /// The failure will not pass: the recipient is invalid or was refused
    /// for good.
    Permanent(String),
}

} // verus!
