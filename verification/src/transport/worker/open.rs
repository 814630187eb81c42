//! From an answered upgrade to a session: the app key of the path, the lookup of
//! the app, and the admission.
use crate::transport::worker::entry::{EntryModel, PendingEstablish};
use crate::transport::worker::establish::{self, Lookup, Refusal};
use crate::transport::worker::head;
use crate::transport::worker::state::{self, Worker};
use crate::transport::worker::table::TableModel;
use vstd::prelude::*;

verus! {

/// What comes next for a connection whose upgrade was answered.
#[derive(Debug, PartialEq)]
pub enum OpenStep {
    /// Send the refusal, flush and close.
    Refuse(Refusal),
    /// The app has to be looked up: flush and wait. The number tells this wait
    /// from others.
    Wait { app_key: String, gen: u64 },
    /// The app is known: admit the session against its capacity.
    Admit(u32),
    /// There is no such connection.
    Gone,
}

/// A wait that is over.
pub struct Resolved {
    pub pending: PendingEstablish,
    /// The capacity of the app to admit the session to, or the refusal.
    pub outcome: Result<u32, Refusal>,
}

/// The connection waits for the lookup of its app.
pub open spec fn parked(t: TableModel, key: usize, app_key: String, version: u8, gen: u64) -> TableModel {
    TableModel {
        conns: t.conns.insert(
            key,
            EntryModel {
                pending_establish: Some(PendingEstablish { key: app_key, version, gen }),
                ..t.conns[key]
            },
        ),
        ..t
    }
}

impl Worker {
    /// Decides what comes next for a connection whose upgrade was answered.
    /// `app_key` is the key in its path, `cached` the outcome of the lookup where
    /// it is already known. A path without a key is refused before any lookup.
    pub fn open_session(
        &mut self,
        key: usize,
        app_key: Option<String>,
        version: u8,
        cached: Option<Lookup>,
    ) -> (step: OpenStep)
        requires
            old(self).wf(),
        ensures
            final(self).wf(),
            final(self).wheel == old(self).wheel,
            final(self).index == old(self).index,
            match app_key {
                None => {
                    &&& step == OpenStep::Refuse(Refusal::PathNotFound)
                    &&& final(self).table@ == old(self).table@
                    &&& final(self).next_gen == old(self).next_gen
                },
                Some(k) => match cached {
                    Some(l) => {
                        &&& step == match establish::after_lookup(l) {
                            Ok(capacity) => OpenStep::Admit(capacity),
                            Err(refusal) => OpenStep::Refuse(refusal),
                        }
                        &&& final(self).table@ == old(self).table@
                        &&& final(self).next_gen == old(self).next_gen
                    },
                    None => if old(self).table@.conns.dom().contains(key) {
                        &&& step matches OpenStep::Wait { app_key: asked, gen } && asked@ == k@
                            && gen == old(self).next_gen
                        &&& final(self).table@ == parked(
                            old(self).table@,
                            key,
                            k,
                            version,
                            old(self).next_gen,
                        )
                        &&& final(self).next_gen == vstd::wrapping::u64_specs::wrapping_add(
                            old(self).next_gen,
                            1,
                        )
                    } else {
                        &&& step == OpenStep::Gone
                        &&& final(self).table@ == old(self).table@
                        &&& final(self).next_gen == old(self).next_gen
                    },
                },
            },
    {
        let app_key: String = match head::require_app_key(app_key) {
            Ok(k) => k,
            Err(refusal) => return OpenStep::Refuse(refusal),
        };
        match cached {
            Some(l) => match establish::lookup_outcome(l) {
                Ok(capacity) => OpenStep::Admit(capacity),
                Err(refusal) => OpenStep::Refuse(refusal),
            },
            None => {
                let asked: String = app_key.clone();
                match self.park(key, app_key, version) {
                    Some(gen) => OpenStep::Wait { app_key: asked, gen },
                    None => OpenStep::Gone,
                }
            },
        }
    }

    /// Takes in the outcome of a lookup. Nothing comes of one whose connection is
    /// gone or whose slot belongs to another wait by now; otherwise the wait is
    /// over, and the connection is to be admitted or refused.
    pub fn resolve(&mut self, token: usize, gen: u64, result: Lookup) -> (r: Option<Resolved>)
        requires
            old(self).wf(),
        ensures
            final(self).wf(),
            final(self).wheel == old(self).wheel,
            final(self).index == old(self).index,
            final(self).next_gen == old(self).next_gen,
            if state::waits(old(self).table@, token, gen) {
                &&& r is Some
                &&& Some(r->0.pending) == old(self).table@.conns[token].pending_establish
                &&& r->0.outcome == establish::after_lookup(result)
                &&& final(self).table@ == (TableModel {
                    conns: old(self).table@.conns.insert(
                        token,
                        EntryModel { pending_establish: None, ..old(self).table@.conns[token] },
                    ),
                    ..old(self).table@
                })
            } else {
                &&& r is None
                &&& final(self).table@ == old(self).table@
            },
    {
        match self.resume(token, gen) {
            Some(pending) => Some(Resolved { pending, outcome: establish::lookup_outcome(result) }),
            None => None,
        }
    }
}

} // verus!
