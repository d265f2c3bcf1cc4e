//! Launching at login: what the system's answer to a change of the setting comes to.

use vstd::prelude::*;

verus! {

/// The system's answer when the application is to be registered as a login item, or taken back.
#[derive(Debug)]
pub enum RegistrationReply {
    /// The system has no login items of this kind.
    Unsupported,
    /// The service that keeps login items is missing.
    Unavailable,
    Done,
    /// It failed, with a message or without.
    Failed(Option<String>),
}

/// Why a reply is no success.
pub open spec fn reply_problem(reply: RegistrationReply) -> Option<Seq<char>> {
    match reply {
        RegistrationReply::Unsupported | RegistrationReply::Done => None,
        RegistrationReply::Unavailable => Some("SMAppService.mainApp is unavailable"@),
        RegistrationReply::Failed(Some(message)) => Some(message@),
        RegistrationReply::Failed(None) => Some("unknown error"@),
    }
}

pub open spec fn problem_view(r: Result<(), String>) -> Option<Seq<char>> {
    match r {
        Ok(_) => None,
        Err(message) => Some(message@),
    }
}

/// The outcome of a change, from the system's answer to it.
pub fn set_launch_at_login(reply: RegistrationReply) -> (r: Result<(), String>)
    ensures
        problem_view(r) == reply_problem(reply),
{
    match reply {
        RegistrationReply::Unsupported | RegistrationReply::Done => Ok(()),
        RegistrationReply::Unavailable => Err("SMAppService.mainApp is unavailable".to_owned()),
        RegistrationReply::Failed(Some(message)) => Err(message),
        RegistrationReply::Failed(None) => Err("unknown error".to_owned()),
    }
}

/// A change that failed: what was tried, and why it failed.
#[derive(Debug, PartialEq, Eq)]
pub struct LoginItemError {
    pub context: &'static str,
    pub cause: String,
}

/// The outcome of a change; a failure says what was tried.
pub fn apply_launch_at_login(reply: RegistrationReply) -> (r: Result<(), LoginItemError>)
    ensures
        r is Ok <==> reply_problem(reply) is None,
        r matches Err(e) ==> e.context == "failed to update launch-at-login setting" && Some(
            e.cause@,
        ) == reply_problem(reply),
{
    match set_launch_at_login(reply) {
        Ok(_) => Ok(()),
        Err(cause) => Err(
            LoginItemError { context: "failed to update launch-at-login setting", cause },
        ),
    }
}

/// The warning to log after a change, if it failed; a failure has no other consequence.
pub fn sync_launch_at_login(reply: RegistrationReply) -> (r: Option<LoginItemError>)
    ensures
        r is Some <==> reply_problem(reply) is Some,
        r matches Some(e) ==> e.context == "failed to update launch-at-login setting" && Some(
            e.cause@,
        ) == reply_problem(reply),
{
    match apply_launch_at_login(reply) {
        Ok(_) => None,
        Err(e) => Some(e),
    }
}

/// The system's own message is passed on as it is. A system without login items is no failure.
pub proof fn law_failures_are_reported(message: String)
    ensures
        reply_problem(RegistrationReply::Done) is None,
        reply_problem(RegistrationReply::Unsupported) is None,
        reply_problem(RegistrationReply::Failed(Some(message))) == Some(message@),
        reply_problem(RegistrationReply::Failed(None)) == Some("unknown error"@),
        reply_problem(RegistrationReply::Unavailable) == Some(
            "SMAppService.mainApp is unavailable"@,
        ),
{
}

} // verus!
