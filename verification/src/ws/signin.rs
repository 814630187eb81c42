//! Signing a connection in as a user.
//!
//! A connection signs in once. Signing in again with the same user data is
//! acknowledged again; with other data, or without authorization, or with user
//! data that names no user, it ends the connection.
use crate::text;
use crate::user::registry::{list_of, list_with, ConnectionHandle, RegistryModel, UserRegistry};
use vstd::prelude::*;

verus! {

/// The code of every failed sign-in.
pub const UNAUTHORIZED: u16 = 4009;

/// A signed-in user.
#[derive(Debug)]
pub struct User {
    pub id: String,
    /// The user data exactly as the client sent it.
    pub user_data_raw: String,
}

/// What is sent to the connection itself.
#[derive(Debug, PartialEq)]
pub enum SelfEvent {
    SigninSuccess { user_data: String },
    Error { code: u16, message: String },
    Close { code: u16, reason: String },
}

/// The same, as contracts see it.
pub enum SelfEventModel {
    SigninSuccess { user_data: Seq<char> },
    Error { code: u16, message: Seq<char> },
    Close { code: u16, reason: Seq<char> },
}

impl View for SelfEvent {
    type V = SelfEventModel;

    open spec fn view(&self) -> SelfEventModel {
        match *self {
            SelfEvent::SigninSuccess { user_data } => SelfEventModel::SigninSuccess {
                user_data: user_data@,
            },
            SelfEvent::Error { code, message } => SelfEventModel::Error { code, message: message@ },
            SelfEvent::Close { code, reason } => SelfEventModel::Close { code, reason: reason@ },
        }
    }
}

/// Events, seen so.
pub open spec fn event_views(events: Seq<SelfEvent>) -> Seq<SelfEventModel> {
    Seq::new(events.len(), |i: int| events[i]@)
}

/// What a failed sign-in sends: the error, then the close.
pub open spec fn failure(message: Seq<char>) -> Seq<SelfEventModel> {
    seq![
        SelfEventModel::Error { code: UNAUTHORIZED, message },
        SelfEventModel::Close { code: UNAUTHORIZED, reason: message },
    ]
}

/// A connection, as far as signing in goes.
#[derive(Debug)]
pub struct ConnectionContext {
    pub app_id: String,
    pub handle: ConnectionHandle,
    pub user: Option<User>,
    /// What is to be sent to the connection.
    pub outbox: Vec<SelfEvent>,
}

/// What a sign-in comes to.
pub enum SigninVerdict {
    /// Acknowledged again.
    Again,
    /// Registered as the user.
    Registered { id: Seq<char> },
    /// Refused with the message.
    Refused { message: Seq<char> },
}

/// What a sign-in comes to: `current` is the user data of an earlier one,
/// `authorized` whether the signature holds, `id` the user that the data names.
pub open spec fn signin_verdict(
    current: Option<Seq<char>>,
    user_data: Seq<char>,
    authorized: bool,
    id: Option<Seq<char>>,
) -> SigninVerdict {
    match current {
        Some(raw) => if raw == user_data {
            SigninVerdict::Again
        } else {
            SigninVerdict::Refused { message: "Connection not authorized."@ }
        },
        None => if !authorized {
            SigninVerdict::Refused { message: "Connection not authorized."@ }
        } else {
            match id {
                Some(id) => SigninVerdict::Registered { id },
                None => SigninVerdict::Refused {
                    message: "The returned user data must contain the \"id\" field."@,
                },
            }
        },
    }
}

impl ConnectionContext {
    /// The user data of the sign-in, if there was one.
    pub open spec fn current(self) -> Option<Seq<char>> {
        match self.user {
            Some(u) => Some(u.user_data_raw@),
            None => None,
        }
    }

    /// Handles a sign-in. The caller has checked the signature and read the
    /// user's id out of the user data, where it names one.
    pub fn signin(
        &mut self,
        registry: &mut UserRegistry,
        user_data: String,
        authorized: bool,
        id: Option<String>,
    )
        requires
            old(registry)@.valid(),
        ensures
            final(registry)@.valid(),
            final(self).app_id == old(self).app_id,
            final(self).handle == old(self).handle,
            match signin_verdict(
                old(self).current(),
                user_data@,
                authorized,
                match id {
                    Some(s) => Some(s@),
                    None => None,
                },
            ) {
                SigninVerdict::Again => {
                    &&& event_views(final(self).outbox@) == event_views(old(self).outbox@).push(
                        SelfEventModel::SigninSuccess { user_data: user_data@ },
                    )
                    &&& final(self).user == old(self).user
                    &&& final(registry)@ == old(registry)@
                },
                SigninVerdict::Registered { id } => {
                    &&& event_views(final(self).outbox@) == event_views(old(self).outbox@).push(
                        SelfEventModel::SigninSuccess { user_data: user_data@ },
                    )
                    &&& final(self).user is Some
                    &&& final(self).user->0.id@ == id
                    &&& final(self).current() == Some(user_data@)
                    &&& final(registry)@ == (RegistryModel {
                        users: old(registry)@.users.insert(
                            (old(self).app_id@, id),
                            list_with(
                                list_of(old(registry)@.users, old(self).app_id@, id),
                                old(self).handle,
                            ),
                        ),
                        ..old(registry)@
                    })
                },
                SigninVerdict::Refused { message } => {
                    &&& event_views(final(self).outbox@) == event_views(old(self).outbox@) + failure(
                        message,
                    )
                    &&& final(self).user == old(self).user
                    &&& final(registry)@ == old(registry)@
                },
            },
    {
        let again: Option<bool> = match &self.user {
            Some(u) => Some(text::str_eq(u.user_data_raw.as_str(), user_data.as_str())),
            None => None,
        };
        match again {
            Some(true) => {
                self.acknowledge(user_data);
                return;
            },
            Some(false) => {
                self.fail_signin("Connection not authorized.");
                return;
            },
            None => {},
        }
        if !authorized {
            self.fail_signin("Connection not authorized.");
            return;
        }
        let id: String = match id {
            Some(id) => id,
            None => {
                self.fail_signin("The returned user data must contain the \"id\" field.");
                return;
            },
        };
        registry.signin(self.app_id.as_str(), id.as_str(), self.handle);
        self.acknowledge(user_data.clone());
        self.user = Some(User { id, user_data_raw: user_data });
    }

    fn acknowledge(&mut self, user_data: String)
        ensures
            event_views(final(self).outbox@) == event_views(old(self).outbox@).push(
                SelfEventModel::SigninSuccess { user_data: user_data@ },
            ),
            final(self).user == old(self).user,
            final(self).app_id == old(self).app_id,
            final(self).handle == old(self).handle,
    {
        let ghost before = self.outbox@;
        self.outbox.push(SelfEvent::SigninSuccess { user_data });
        assert(event_views(self.outbox@) =~= event_views(before).push(
            SelfEventModel::SigninSuccess { user_data: user_data@ },
        ));
    }

    /// Sends the error and then the close.
    pub fn fail_signin(&mut self, message: &str)
        ensures
            event_views(final(self).outbox@) == event_views(old(self).outbox@) + failure(message@),
            final(self).user == old(self).user,
            final(self).app_id == old(self).app_id,
            final(self).handle == old(self).handle,
    {
        let ghost before = self.outbox@;
        self.outbox.push(SelfEvent::Error { code: UNAUTHORIZED, message: message.to_owned() });
        self.outbox.push(SelfEvent::Close { code: UNAUTHORIZED, reason: message.to_owned() });
        assert(event_views(self.outbox@) =~= event_views(before) + failure(message@));
    }
}

/// Signing in again with the data of a sign-in that held is acknowledged and
/// changes nothing, whatever the signature; with other data it is refused.
pub proof fn a_connection_signs_in_once(
    user_data: Seq<char>,
    other: Seq<char>,
    authorized: bool,
    id: Option<Seq<char>>,
)
    ensures
        signin_verdict(Some(user_data), user_data, authorized, id) is Again,
        other != user_data ==> signin_verdict(Some(user_data), other, authorized, id) is Refused,
        signin_verdict(None, user_data, authorized, id) is Registered <==> authorized && id is Some,
{
}

/// What a sign-in that fails is answered: an error and then a close, both with code
/// 4009 and the same message, so that the client is told why before it is let go.
pub proof fn failures_are_told_and_closed(message: Seq<char>)
    ensures
        failure(message).len() == 2,
        failure(message)[0] == (SelfEventModel::Error { code: 4009, message }),
        failure(message)[1] == (SelfEventModel::Close { code: 4009, reason: message }),
{
}

/// Why a sign-in is refused. A bad signature and a second user on one connection are
/// not told apart; a good signature over data without an id is. Data that was already
/// signed in is acknowledged again whatever else came with it.
pub proof fn refusals_tell_no_secret(
    current: Option<Seq<char>>,
    user_data: Seq<char>,
    authorized: bool,
    id: Option<Seq<char>>,
)
    ensures
        ({
            let v = signin_verdict(current, user_data, authorized, id);
            let plain = SigninVerdict::Refused { message: "Connection not authorized."@ };
            let no_id = SigninVerdict::Refused {
                message: "The returned user data must contain the \"id\" field."@,
            };
            &&& current == Some(user_data) <==> v == SigninVerdict::Again
            &&& current matches Some(raw) ==> raw != user_data ==> v == plain
            &&& current is None && !authorized ==> v == plain
            &&& current is None && authorized && id is None ==> v == no_id
            &&& current is None && authorized ==> (id matches Some(user) ==> v
                == (SigninVerdict::Registered { id: user }))
        }),
{
}

} // verus!
