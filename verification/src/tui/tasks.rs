//! What the interface hears from the tasks in the background.

use vstd::prelude::*;

use crate::catalog::sync::SyncReport;
use crate::serving::{AvailableRow, ServerRow};
use crate::tui::state::SyncStatus;

verus! {

/// The servers at one moment.
#[derive(Debug)]
pub struct ServersSnapshot {
    pub running: Vec<ServerRow>,
    pub available: Vec<AvailableRow>,
}

/// What a sync in the background tells.
#[derive(Debug)]
pub enum SyncMsg {
    /// How far a source has come.
    Progress { source: &'static str, count: usize },
    Done(Box<SyncReport>),
    Failed(String),
}

/// What a look for messages of the sync found.
#[derive(Debug)]
pub enum SyncPoll {
    /// No message yet.
    Empty,
    Message(SyncMsg),
    /// The task is gone without a word.
    Lost,
}

/// What the interface does about a look for messages.
#[derive(Debug)]
pub struct SyncTurn {
    /// The status to show from now on; `None` leaves it.
    pub status: Option<SyncStatus>,
    /// The catalog is to be read again.
    pub reload: bool,
    /// There is nothing more to hear.
    pub finished: bool,
}

/// What the interface does about a look for messages of the sync: only a sync
/// that is done changes what is shown of the catalog.
pub fn on_sync(poll: SyncPoll) -> (r: SyncTurn)
    ensures
        match poll {
            SyncPoll::Empty | SyncPoll::Message(SyncMsg::Progress { .. }) => r.status is None
                && !r.reload && !r.finished,
            SyncPoll::Message(SyncMsg::Done(_)) => r.status matches Some(s) && s is Done && r.reload
                && r.finished,
            SyncPoll::Message(SyncMsg::Failed(m)) => r.status == Some(SyncStatus::Failed(m))
                && !r.reload && r.finished,
            SyncPoll::Lost => r.status matches Some(SyncStatus::Failed(m)) && m@
                == "sync thread died"@ && !r.reload && r.finished,
        },
{
    match poll {
        SyncPoll::Empty => SyncTurn { status: None, reload: false, finished: false },
        SyncPoll::Lost => SyncTurn {
            status: Some(SyncStatus::Idle.on_failed("sync thread died".to_owned())),
            reload: false,
            finished: true,
        },
        SyncPoll::Message(m) => match m {
            SyncMsg::Progress { source, count } => SyncTurn {
                status: None,
                reload: false,
                finished: false,
            },
            SyncMsg::Done(_) => SyncTurn {
                status: Some(SyncStatus::Idle.on_done()),
                reload: true,
                finished: true,
            },
            SyncMsg::Failed(e) => SyncTurn {
                status: Some(SyncStatus::Idle.on_failed(e)),
                reload: false,
                finished: true,
            },
        },
    }
}

} // verus!
