use vstd::prelude::*;
use crate::text::joined;

verus! {

/// Where a client's middleware forwards a picture fragment.
pub enum Forward {
    /// The first piece goes to every server, which then elect who serves it.
    AllServers,
    /// Later pieces go to the server that answered last.
    Server(Vec<char>),
}

/// A client's middleware: it remembers which server answered the last
/// fragment it forwarded.
pub struct Middleware {
    replier: Option<Vec<char>>,
}

impl View for Middleware {
    type V = Option<Seq<char>>;

    closed spec fn view(&self) -> Option<Seq<char>> {
        match self.replier {
            Some(r) => Some(r@),
            None => None,
        }
    }
}

impl Middleware {
    /// A middleware that has heard from no server yet.
    pub fn new() -> (m: Self)
        ensures
            m@ is None,
    {
        Middleware { replier: None }
    }

    /// Whether a fragment at `position` can be forwarded: the first piece
    /// always can; later ones need a server that answered before.
    pub fn can_forward(&self, position: i16) -> (b: bool)
        ensures
            b == (position == 0 || self@ is Some),
    {
        position == 0 || self.replier.is_some()
    }

    /// Where a fragment at `position` goes: the first piece to all servers,
    /// any other to the server that answered last.
    pub fn forward(&self, position: i16) -> (f: Forward)
        requires
            position == 0 || self@ is Some,
        ensures
            position == 0 ==> f is AllServers,
            position != 0 ==> (f matches Forward::Server(s) && Some(s@) == self@),
    {
        if position == 0 {
            Forward::AllServers
        } else {
            match &self.replier {
                Some(r) => Forward::Server(joined(r.as_slice(), &[])),
                None => Forward::AllServers,
            }
        }
    }

    /// Remembers the server that answered the fragment just forwarded.
    pub fn record_reply(&mut self, server: Vec<char>)
        ensures
            final(self)@ == Some(server@),
    {
        self.replier = Some(server);
    }
}

} // verus!
