//! Task control: one actor supervises the ordered list of transfers and
//! routes control messages to them.
//!
//! The channels and threads around the actor live outside the library; the
//! decision each control message triggers — how the task list changes and
//! which engines to cancel, spawn or forget — is made here.

use vstd::prelude::*;
use crate::progress::ProgressData;

verus! {

/// Control messages a host application sends the actor.
#[derive(Debug, Clone)]
pub enum Action {
    Stop(usize),
    Resume(usize),
    AddTask(String),
    RemoveTask(usize),
}

/// Events the actor multiplexes back to the host, tagged with the task's
/// list position at emission time.
#[derive(Debug, Clone)]
pub enum Message {
    ProgressUpdate(usize, Vec<ProgressData>),
    Stopped(usize),
    Started(usize),
    FileName(usize, String),
}

/// A live transfer engine, identified by a handle number.
#[derive(Clone, Copy, Debug, PartialEq, Eq, Structural)]
pub struct DownloadResult {
    pub handle_id: u64,
}

/// One task as the actor owns it: the running engine's handle when live,
/// the source URL, and the destination path once known.
#[derive(Debug, Clone)]
pub struct ManagerData {
    pub result: Option<DownloadResult>,
    pub url: String,
    pub file_path: Option<String>,
}

/// What the actor's surroundings must do after one action is handled:
/// cancel a live engine, start a transfer for a URL, or delete a resume
/// record.
#[derive(Debug, Clone)]
pub enum Effect {
    Cancel(DownloadResult),
    Spawn { url: String, resume: bool },
    RemoveRecord(String),
}

/// The cancellation a task's live handle demands, if any.
pub open spec fn cancel_effects(d: ManagerData) -> Seq<Effect> {
    match d.result {
        Some(h) => seq![Effect::Cancel(h)],
        None => Seq::empty(),
    }
}

/// The record removal a task's known destination demands, if any.
pub open spec fn record_effects(d: ManagerData) -> Seq<Effect> {
    match d.file_path {
        Some(p) => seq![Effect::RemoveRecord(p)],
        None => Seq::empty(),
    }
}

/// An index-based action addresses an existing task.
pub open spec fn action_in_range(action: Action, len: int) -> bool {
    match action {
        Action::Stop(i) => i < len,
        Action::Resume(i) => i < len,
        Action::RemoveTask(i) => i < len,
        Action::AddTask(_) => true,
    }
}

/// Handles one control message under exclusive access to the task list and
/// names the outside work it requires.  Stop cancels a task's engine and
/// keeps the entry; Resume replaces the entry with a fresh one — cancelling
/// any still-live engine first, so two engines never run for one task — and
/// spawns a resuming transfer; AddTask inserts a fresh task at the front and
/// spawns its transfer; RemoveTask drops the entry, cancels its engine and
/// deletes its resume record.
pub fn apply_action(list: &mut Vec<ManagerData>, action: Action) -> (effects: Vec<Effect>)
    requires
        action_in_range(action, old(list)@.len() as int),
    ensures
        action matches Action::Stop(i) ==> {
            &&& final(list)@.len() == old(list)@.len()
            &&& forall|k: int|
                0 <= k < old(list)@.len() && k != i ==> final(list)@[k] == old(list)@[k]
            &&& final(list)@[i as int].result is None
            &&& final(list)@[i as int].url == old(list)@[i as int].url
            &&& final(list)@[i as int].file_path == old(list)@[i as int].file_path
            &&& effects@ == cancel_effects(old(list)@[i as int])
        },
        action matches Action::Resume(i) ==> {
            &&& final(list)@.len() == old(list)@.len()
            &&& forall|k: int|
                0 <= k < old(list)@.len() && k != i ==> final(list)@[k] == old(list)@[k]
            &&& final(list)@[i as int].result is None
            &&& final(list)@[i as int].url == old(list)@[i as int].url
            &&& final(list)@[i as int].file_path == old(list)@[i as int].file_path
            &&& effects@ == cancel_effects(old(list)@[i as int]) + seq![
                Effect::Spawn { url: old(list)@[i as int].url, resume: true },
            ]
        },
        action matches Action::AddTask(url) ==> {
            &&& final(list)@.len() == old(list)@.len() + 1
            &&& forall|k: int|
                0 <= k < old(list)@.len() ==> final(list)@[k + 1] == old(list)@[k]
            &&& final(list)@[0].result is None
            &&& final(list)@[0].url == url
            &&& final(list)@[0].file_path is None
            &&& effects@ == seq![Effect::Spawn { url: url, resume: false }]
        },
        action matches Action::RemoveTask(i) ==> {
            &&& final(list)@ == old(list)@.remove(i as int)
            &&& effects@ == cancel_effects(old(list)@[i as int]) + record_effects(
                old(list)@[i as int],
            )
        },
{
    let mut effects: Vec<Effect> = Vec::new();
    match action {
        Action::Stop(i) => {
            let mut d = list.remove(i);
            if let Some(h) = d.result {
                effects.push(Effect::Cancel(h));
            }
            d.result = None;
            list.insert(i, d);
            proof {
                assert(list@ =~= old(list)@.update(
                    i as int,
                    ManagerData {
                        result: None,
                        url: old(list)@[i as int].url,
                        file_path: old(list)@[i as int].file_path,
                    },
                ));
                assert(effects@ =~= cancel_effects(old(list)@[i as int]));
            }
        },
        Action::Resume(i) => {
            let mut d = list.remove(i);
            if let Some(h) = d.result {
                effects.push(Effect::Cancel(h));
            }
            d.result = None;
            let url = d.url.clone();
            list.insert(i, d);
            effects.push(Effect::Spawn { url, resume: true });
            proof {
                assert(effects@ =~= cancel_effects(old(list)@[i as int]) + seq![
                    Effect::Spawn { url: old(list)@[i as int].url, resume: true },
                ]);
            }
        },
        Action::AddTask(url) => {
            let spawn_url = url.clone();
            list.insert(0, ManagerData { result: None, url, file_path: None });
            effects.push(Effect::Spawn { url: spawn_url, resume: false });
        },
        Action::RemoveTask(i) => {
            let d = list.remove(i);
            if let Some(h) = d.result {
                effects.push(Effect::Cancel(h));
            }
            if let Some(p) = d.file_path {
                effects.push(Effect::RemoveRecord(p));
            }
            proof {
                assert(effects@ =~= cancel_effects(old(list)@[i as int]) + record_effects(
                    old(list)@[i as int],
                ));
            }
        },
    }
    effects
}

} // verus!
