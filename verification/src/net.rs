//! A scripted network, for driving a session with no sockets at all, and what
//! reaching a venue can fail with.
use std::collections::VecDeque;

use vstd::prelude::*;
use vstd::utf8::encode_utf8;

use crate::text;

verus! {

/// What reaching a venue can fail with.
#[derive(Debug)]
pub enum NetError {
    Connect { url: String, source: String },
    Socket(String),
    HttpStatus { url: String, status: u16 },
    Http { url: String, source: String },
}

/// What a network error says.
pub open spec fn net_error_text(e: NetError) -> Seq<char> {
    match e {
        NetError::Connect { url, source } => "could not connect to "@ + url@ + ": "@ + source@,
        NetError::Socket(source) => "websocket error: "@ + source@,
        NetError::HttpStatus { url, status } => "http "@ + text::number_text(status as nat)
            + " from "@ + url@,
        NetError::Http { url, source } => "http request to "@ + url@ + " failed: "@ + source@,
    }
}

impl NetError {
    /// What went wrong, in words.
    pub fn message(&self) -> (m: String)
        ensures
            m@ == net_error_text(*self),
    {
        let mut out: Vec<char> = Vec::new();
        match self {
            NetError::Connect { url, source } => {
                text::push_text(&mut out, "could not connect to ");
                text::push_text(&mut out, url.as_str());
                text::push_text(&mut out, ": ");
                text::push_text(&mut out, source.as_str());
            },
            NetError::Socket(source) => {
                text::push_text(&mut out, "websocket error: ");
                text::push_text(&mut out, source.as_str());
            },
            NetError::HttpStatus { url, status } => {
                text::push_text(&mut out, "http ");
                let digits = text::number_chars(*status as u128);
                text::push_all(&mut out, &digits);
                text::push_text(&mut out, " from ");
                text::push_text(&mut out, url.as_str());
            },
            NetError::Http { url, source } => {
                text::push_text(&mut out, "http request to ");
                text::push_text(&mut out, url.as_str());
                text::push_text(&mut out, " failed: ");
                text::push_text(&mut out, source.as_str());
            },
        }
        text::text_of(&out)
    }
}

/// How a served session finishes.
#[derive(Clone, Copy, Debug, PartialEq, Eq, Structural)]
pub enum SessionEnd {
    /// The peer closes cleanly.
    Close,
    /// The socket fails mid-stream.
    Error,
    /// Nothing further is ever sent and the socket stays open: only an idle
    /// watchdog can tell that from a quiet market.
    Hang,
}

/// What one connection attempt does.
#[derive(Debug)]
pub enum Session {
    /// The connection is refused outright.
    Refuse,
    /// The connection opens, yields these payloads in order, then ends.
    Serve { frames: Vec<String>, then: SessionEnd },
}

/// A session by what it shows.
pub enum SessionView {
    Refuse,
    Serve { frames: Seq<Seq<char>>, then: SessionEnd },
}

impl View for Session {
    type V = SessionView;

    open spec fn view(&self) -> SessionView {
        match self {
            Session::Refuse => SessionView::Refuse,
            Session::Serve { frames, then } => SessionView::Serve {
                frames: text::views(frames@),
                then: *then,
            },
        }
    }
}

/// Sessions by what they show.
pub open spec fn sessions(s: Seq<Session>) -> Seq<SessionView> {
    s.map_values(|x: Session| x@)
}

/// Texts once more.
fn copied(texts: &[String]) -> (r: Vec<String>)
    ensures
        text::views(r@) == text::views(texts@),
{
    let mut out: Vec<String> = Vec::new();
    let mut i: usize = 0;
    while i < texts.len()
        invariant
            i <= texts@.len(),
            out@.len() == i,
            forall|k: int| 0 <= k < i ==> (#[trigger] out@[k])@ == texts@[k]@,
        decreases texts@.len() - i,
    {
        out.push(texts[i].clone());
        i += 1;
    }
    assert(text::views(out@) =~= text::views(texts@));
    out
}

impl Clone for Session {
    fn clone(&self) -> (s: Session)
        ensures
            s@ == self@,
    {
        match self {
            Session::Refuse => Session::Refuse,
            Session::Serve { frames, then } => Session::Serve {
                frames: copied(frames),
                then: *then,
            },
        }
    }
}

/// Hands out sessions in order. Every attempt past the end of the script
/// repeats the last one.
#[derive(Debug)]
pub struct FakeNetwork {
    script: VecDeque<Session>,
    last: Session,
    attempts: Vec<String>,
    rest_body: Option<String>,
}

/// One open scripted connection.
#[derive(Debug)]
pub struct FakeSocket {
    frames: VecDeque<String>,
    end: SessionEnd,
    sent: Vec<String>,
}

/// What comes out of a connection next.
#[derive(Debug)]
pub enum Arrival {
    Payload(Vec<u8>),
    /// The peer closed cleanly.
    Closed,
    Failed(NetError),
    /// Nothing, now or later.
    Silence,
}

impl FakeNetwork {
    /// The sessions that no attempt has used yet.
    pub closed spec fn script(self) -> Seq<SessionView> {
        sessions(self.script@)
    }

    /// What an attempt past the end of the script does.
    pub closed spec fn last(self) -> SessionView {
        self.last@
    }

    /// The addresses that were tried, in order.
    pub closed spec fn tried(self) -> Seq<Seq<char>> {
        text::views(self.attempts@)
    }

    /// The body that a request is answered with, if there is one.
    pub closed spec fn body(self) -> Option<Seq<char>> {
        match self.rest_body {
            Some(body) => Some(body@),
            None => None,
        }
    }

    /// What the next attempt does.
    pub open spec fn upcoming(self) -> SessionView {
        if self.script().len() > 0 {
            self.script()[0]
        } else {
            self.last()
        }
    }

    pub fn new(script: Vec<Session>) -> (n: FakeNetwork)
        ensures
            n.script() == sessions(script@),
            n.last() == (if script@.len() > 0 {
                script@.last()@
            } else {
                SessionView::Refuse
            }),
            n.tried().len() == 0,
            n.body() is None,
    {
        let last = if script.len() > 0 {
            script[script.len() - 1].clone()
        } else {
            Session::Refuse
        };
        let mut queue: VecDeque<Session> = VecDeque::new();
        let mut i: usize = 0;
        while i < script.len()
            invariant
                i <= script@.len(),
                queue@.len() == i,
                forall|k: int| 0 <= k < i ==> (#[trigger] queue@[k])@ == script@[k]@,
            decreases script@.len() - i,
        {
            queue.push_back(script[i].clone());
            i += 1;
        }
        assert(sessions(queue@) =~= sessions(script@));
        FakeNetwork { script: queue, last, attempts: Vec::new(), rest_body: None }
    }

    /// The same network, with a body to answer requests with.
    pub fn with_rest_body(self, body: &str) -> (n: FakeNetwork)
        ensures
            n.script() == self.script(),
            n.last() == self.last(),
            n.tried() == self.tried(),
            n.body() == Some(body@),
    {
        FakeNetwork {
            script: self.script,
            last: self.last,
            attempts: self.attempts,
            rest_body: Some(body.to_owned()),
        }
    }

    /// Every address that a connection was tried to, in order.
    pub fn attempts(&self) -> (a: Vec<String>)
        ensures
            text::views(a@) == self.tried(),
    {
        copied(&self.attempts)
    }

    /// One connection attempt.
    pub fn connect(&mut self, url: &str) -> (r: Result<FakeSocket, NetError>)
        ensures
            final(self).tried() == old(self).tried().push(url@),
            final(self).body() == old(self).body(),
            final(self).last() == old(self).upcoming(),
            final(self).script() == (if old(self).script().len() > 0 {
                old(self).script().drop_first()
            } else {
                old(self).script()
            }),
            match (old(self).upcoming(), r) {
                (SessionView::Refuse, Err(NetError::Connect { url: tried, source })) => tried@
                    == url@ && source@ == "scripted refusal"@,
                (SessionView::Serve { frames, then }, Ok(socket)) => socket.pending() == frames
                    && socket.ending() == then && socket.received().len() == 0,
                _ => false,
            },
    {
        let ghost was = self.attempts@;
        let ghost script = self.script@;
        self.attempts.push(url.to_owned());
        assert(text::views(self.attempts@) =~= text::views(was).push(url@));
        match self.script.pop_front() {
            Some(session) => {
                assert(sessions(self.script@) =~= sessions(script).drop_first());
                assert(sessions(script)[0] == session@);
                self.last = session;
            },
            None => {},
        }
        match &self.last {
            Session::Refuse => Err(
                NetError::Connect { url: url.to_owned(), source: "scripted refusal".to_owned() },
            ),
            Session::Serve { frames, then } => {
                let mut queue: VecDeque<String> = VecDeque::new();
                let mut i: usize = 0;
                while i < frames.len()
                    invariant
                        i <= frames@.len(),
                        queue@.len() == i,
                        forall|k: int| 0 <= k < i ==> (#[trigger] queue@[k])@ == frames@[k]@,
                    decreases frames@.len() - i,
                {
                    queue.push_back(frames[i].clone());
                    i += 1;
                }
                assert(text::views(queue@) =~= text::views(frames@));
                Ok(FakeSocket { frames: queue, end: *then, sent: Vec::new() })
            },
        }
    }

    /// The answer to a request: the body, or that the service is unavailable.
    pub fn get(&self, url: &str) -> (r: Result<String, NetError>)
        ensures
            match (self.body(), r) {
                (Some(body), Ok(text)) => text@ == body,
                (None, Err(NetError::HttpStatus { url: asked, status })) => asked@ == url@
                    && status == 503,
                _ => false,
            },
    {
        match &self.rest_body {
            Some(body) => Ok(body.clone()),
            None => Err(NetError::HttpStatus { url: url.to_owned(), status: 503 }),
        }
    }
}

impl FakeSocket {
    /// The payloads that are still to come.
    pub closed spec fn pending(self) -> Seq<Seq<char>> {
        text::views(self.frames@)
    }

    /// How the session finishes.
    pub closed spec fn ending(self) -> SessionEnd {
        self.end
    }

    /// What was sent to the peer, in order.
    pub closed spec fn received(self) -> Seq<Seq<char>> {
        text::views(self.sent@)
    }

    /// What was sent to the peer, in order: the subscribe payloads.
    pub fn sent(&self) -> (s: &[String])
        ensures
            text::views(s@) == self.received(),
    {
        self.sent.as_slice()
    }

    /// Sends a text.
    pub fn send_text(&mut self, text: &str)
        ensures
            final(self).received() == old(self).received().push(text@),
            final(self).pending() == old(self).pending(),
            final(self).ending() == old(self).ending(),
    {
        let ghost was = self.sent@;
        self.sent.push(text.to_owned());
        assert(text::views(self.sent@) =~= text::views(was).push(text@));
    }

    /// The next payload, or how the session finished.
    pub fn recv(&mut self) -> (a: Arrival)
        ensures
            final(self).received() == old(self).received(),
            final(self).ending() == old(self).ending(),
            old(self).pending().len() > 0 ==> final(self).pending()
                == old(self).pending().drop_first() && (a matches Arrival::Payload(p) && p@
                == encode_utf8(old(self).pending()[0])),
            old(self).pending().len() == 0 ==> final(self).pending() == old(self).pending()
                && match (old(self).ending(), a) {
                (SessionEnd::Close, Arrival::Closed) => true,
                (SessionEnd::Error, Arrival::Failed(NetError::Socket(source))) => source@
                    == "scripted socket error"@,
                (SessionEnd::Hang, Arrival::Silence) => true,
                _ => false,
            },
    {
        let ghost was = self.frames@;
        match self.frames.pop_front() {
            Some(frame) => {
                assert(text::views(self.frames@) =~= text::views(was).drop_first());
                assert(text::views(was)[0] == frame@);
                return Arrival::Payload(text::bytes_of(frame.as_str()));
            },
            None => {},
        }
        match self.end {
            SessionEnd::Close => Arrival::Closed,
            SessionEnd::Error => Arrival::Failed(
                NetError::Socket("scripted socket error".to_owned()),
            ),
            SessionEnd::Hang => Arrival::Silence,
        }
    }
}

} // verus!
