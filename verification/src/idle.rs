//! The idle inhibitor: its wire protocol, the daemon's decisions and the client's reading of
//! replies.
use vstd::prelude::*;

use crate::error::Error;
use crate::text::push_str;

verus! {

pub trait IdleCtl {
    fn enable(&self) -> Result<(), Error>;

    fn disable(&self) -> Result<(), Error>;

    fn status(&self) -> Result<bool, Error>;
}

#[derive(Clone, Copy, Debug, PartialEq, Eq, Structural)]
pub enum Request {
    Enable,
    Disable,
    Status,
    Watch,
}

#[derive(Clone, Debug, PartialEq, Eq)]
pub enum Response {
    /// Done as asked.
    Done,
    Status(bool),
    /// Refused, with the reason.
    Failure(String),
}

pub open spec fn label_text(inhibited: bool) -> Seq<char> {
    if inhibited {
        "inhibited"@
    } else {
        "not inhibited"@
    }
}

/// What a status line says.
pub fn label(inhibited: bool) -> (s: &'static str)
    ensures
        s@ == label_text(inhibited),
{
    if inhibited {
        "inhibited"
    } else {
        "not inhibited"
    }
}

/// What the daemon does about a request before it can answer.
pub enum Step {
    /// Ask the screen saver to inhibit idling, then report with `inhibited`.
    Inhibit,
    /// Release the inhibition with this cookie, then report with `released`.
    UnInhibit(u32),
    /// Answer at once.
    Reply(Response),
}

/// Whether a request needs the screen saver to inhibit idling: an enable while nothing is held.
pub open spec fn asks_inhibit(cookie: Option<u32>, request: Request) -> bool {
    request == Request::Enable && cookie is None
}

/// The cookie a request asks the screen saver to release: the one held, on a disable.
pub open spec fn asks_release(cookie: Option<u32>, request: Request) -> Option<u32> {
    if request == Request::Disable {
        cookie
    } else {
        None
    }
}

/// What the daemon holds once a request is taken: a disable hands the cookie over.
pub open spec fn cookie_after_request(cookie: Option<u32>, request: Request) -> Option<u32> {
    if request == Request::Disable {
        None
    } else {
        cookie
    }
}

/// The cookie the screen saver granted, if it granted one.
pub open spec fn granted(result: Result<u32, String>) -> Option<u32> {
    match result {
        Ok(c) => Some(c),
        Err(_) => None,
    }
}

/// What the daemon holds once the screen saver answered an inhibition.
pub open spec fn cookie_after_inhibit(cookie: Option<u32>, granted: Option<u32>) -> Option<u32> {
    match granted {
        Some(c) => Some(c),
        None => cookie,
    }
}

/// What an enable leaves the daemon holding, given what the screen saver would grant if asked.
pub open spec fn after_enable(cookie: Option<u32>, grant: Option<u32>) -> Option<u32> {
    let held = cookie_after_request(cookie, Request::Enable);
    if asks_inhibit(cookie, Request::Enable) {
        cookie_after_inhibit(held, grant)
    } else {
        held
    }
}

/// The daemon's requests: an enable while held asks the screen saver nothing and changes
/// nothing; an enable while free asks it once and holds what it grants, or still nothing; so
/// a second enable asks again only when the first was refused. A disable asks it to release
/// exactly the cookie held, and leaves nothing held whatever it answers. A status reports
/// whether a cookie is held.
pub proof fn lemma_daemon_requests(cookie: Option<u32>, first: Option<u32>, second: Option<u32>)
    ensures
        cookie is Some ==> !asks_inhibit(cookie, Request::Enable) && after_enable(cookie, first)
            == cookie,
        cookie is None ==> asks_inhibit(cookie, Request::Enable) && after_enable(cookie, first)
            == first,
        asks_inhibit(after_enable(cookie, first), Request::Enable) <==> after_enable(
            cookie,
            first,
        ) is None,
        after_enable(cookie, first) is Some ==> after_enable(after_enable(cookie, first), second)
            == after_enable(cookie, first),
        asks_release(cookie, Request::Disable) == cookie,
        cookie_after_request(cookie, Request::Disable) is None,
        !asks_inhibit(cookie, Request::Disable) && !asks_inhibit(cookie, Request::Status),
        asks_release(cookie, Request::Enable) is None && asks_release(cookie, Request::Status)
            is None,
        cookie_after_request(cookie, Request::Status) == cookie,
{
}

/// The daemon's state: the cookie of the inhibition it holds, if any.
pub struct Daemon {
    pub cookie: Option<u32>,
}

impl Daemon {
    pub fn new() -> (d: Self)
        ensures
            d.cookie is None,
    {
        Daemon { cookie: None }
    }

    pub fn is_inhibited(&self) -> (b: bool)
        ensures
            b == self.cookie is Some,
    {
        self.cookie.is_some()
    }

    /// Enabling twice, or disabling when nothing is held, changes nothing; a watch is streamed,
    /// not answered here.
    pub fn handle(&mut self, request: Request) -> (step: Step)
        ensures
            match request {
                Request::Enable => if old(self).cookie is None {
                    step is Inhibit
                } else {
                    step matches Step::Reply(Response::Done)
                },
                Request::Disable => match old(self).cookie {
                    Some(c) => step matches Step::UnInhibit(k) && k == c,
                    None => step matches Step::Reply(Response::Done),
                },
                Request::Status => step matches Step::Reply(Response::Status(b)) && b == old(
                    self,
                ).cookie is Some,
                Request::Watch => step matches Step::Reply(Response::Failure(m)) && m@
                    == "watch is a streaming request"@,
            },
            (step is Inhibit) == asks_inhibit(old(self).cookie, request),
            match step {
                Step::UnInhibit(k) => asks_release(old(self).cookie, request) == Some(k),
                _ => asks_release(old(self).cookie, request) is None,
            },
            // a disable hands the cookie over whatever the screen saver then says
            final(self).cookie == cookie_after_request(old(self).cookie, request),
    {
        match request {
            Request::Enable => {
                if self.cookie.is_none() {
                    Step::Inhibit
                } else {
                    Step::Reply(Response::Done)
                }
            },
            Request::Disable => match self.cookie.take() {
                Some(c) => Step::UnInhibit(c),
                None => Step::Reply(Response::Done),
            },
            Request::Status => Step::Reply(Response::Status(self.is_inhibited())),
            Request::Watch => {
                let mut m = String::new();
                push_str(&mut m, "watch is a streaming request");
                Step::Reply(Response::Failure(m))
            },
        }
    }

    /// What the screen saver said to an inhibition: the reply, and the state to broadcast to
    /// watchers, if it changed.
    pub fn inhibited(&mut self, result: Result<u32, String>) -> (r: (Response, Option<bool>))
        ensures
            final(self).cookie == cookie_after_inhibit(old(self).cookie, granted(result)),
            match result {
                Ok(c) => final(self).cookie == Some(c) && r.0 == Response::Done && r.1 == Some(true),
                Err(e) => final(self).cookie == old(self).cookie && r.0 == Response::Failure(e)
                    && r.1 is None,
            },
    {
        match result {
            Ok(c) => {
                self.cookie = Some(c);
                (Response::Done, Some(true))
            },
            Err(e) => (Response::Failure(e), None),
        }
    }

    /// What the screen saver said to a release.
    pub fn released(&mut self, result: Result<(), String>) -> (r: (Response, Option<bool>))
        ensures
            final(self).cookie == old(self).cookie,
            match result {
                Ok(()) => r.0 == Response::Done && r.1 == Some(false),
                Err(e) => r.0 == Response::Failure(e) && r.1 is None,
            },
    {
        match result {
            Ok(()) => (Response::Done, Some(false)),
            Err(e) => (Response::Failure(e), None),
        }
    }
}

/// A one-shot reply as the client takes it: an error reply is a failure.
pub fn oneshot_reply(response: Response) -> (r: Result<Response, Error>)
    ensures
        match response {
            Response::Failure(m) => r == Err::<Response, Error>(Error::Other(m)),
            other => r == Ok::<Response, Error>(other),
        },
{
    match response {
        Response::Failure(m) => Err(Error::Other(m)),
        other => Ok(other),
    }
}

/// The answer to a status request.
pub fn status_reply(response: Response) -> (r: Result<bool, Error>)
    ensures
        match response {
            Response::Status(b) => r == Ok::<bool, Error>(b),
            Response::Failure(m) => r == Err::<bool, Error>(Error::Other(m)),
            Response::Done => r matches Err(Error::Other(m)) && m@ == "unexpected response from daemon"@,
        },
{
    match response {
        Response::Status(b) => Ok(b),
        Response::Failure(m) => Err(Error::Other(m)),
        Response::Done => {
            let mut m = String::new();
            push_str(&mut m, "unexpected response from daemon");
            Err(Error::Other(m))
        },
    }
}

} // verus!
