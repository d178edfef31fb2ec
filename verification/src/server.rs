use vstd::prelude::*;
use std::collections::BTreeMap;
use crate::directory::{
    Directory, DirectoryRequest, classify_directory_request, directory_after, directory_request_of,
    directory_step, first_user_at, in_arrival_order, lemma_directory_in_arrival_order,
    lemma_first_user_at, lemma_registration_name, register_prefix, registration_name, registration_name_of,
    registrations,
};
use crate::fragment::{Fragment, LAST_POSITION, fragment_model};
use crate::padding::strip_trailing_zeros;
use crate::payload::{embedding_of, hide_payload};
use crate::reassembly::{
    assemble, assembled, chunk_model, labelled, lemma_fragments_labelled, lemma_packets_assemble,
    packets_map,
};
use crate::fragment::{fragment_count, fragments_of};
use crate::text::{first_field, same_text, trim};

verus! {

/// The sender of a datagram: the text of its IP address and its port.
pub struct Peer {
    pub host: Vec<char>,
    pub port: u16,
}

/// Model of a peer.
pub open spec fn peer_model(p: Peer) -> (Seq<char>, u16) {
    (p.host@, p.port)
}

/// Whether two peers are the same socket address.
pub fn same_peer(a: &Peer, b: &Peer) -> (same: bool)
    ensures
        same == (peer_model(*a) == peer_model(*b)),
{
    a.port == b.port && same_text(a.host.as_slice(), b.host.as_slice())
}

/// A copy of a peer.
pub fn copy_peer(p: &Peer) -> (q: Peer)
    ensures
        peer_model(q) == peer_model(*p),
{
    Peer { host: crate::text::joined(p.host.as_slice(), &[]), port: p.port }
}

/// Model of a picture server.
pub struct ServerView {
    /// Registered users, in registration order.
    pub users: Seq<(Seq<char>, Seq<char>)>,
    /// Whether a client's picture is being received.
    pub serviced: bool,
    /// The client whose picture is being received, if any.
    pub current: Option<(Seq<char>, u16)>,
    /// Whether the server won the last election it held.
    pub leader: bool,
    /// Pieces of the picture being received, by key.
    pub frags: Map<i16, Seq<u8>>,
}

/// A server that registers users, answers directory queries and hides the
/// pictures clients send it: it serves one client at a time, collects the
/// pieces of its picture by position, and turns the complete picture into the
/// bytes to hide in a carrier image.
pub struct PictureServer {
    directory: Directory,
    serviced: bool,
    current: Option<Peer>,
    leader: bool,
    frags: BTreeMap<i16, Vec<u8>>,
}

impl View for PictureServer {
    type V = ServerView;

    closed spec fn view(&self) -> ServerView {
        ServerView {
            users: self.directory@,
            serviced: self.serviced,
            current: match self.current {
                Some(p) => Some(peer_model(p)),
                None => None,
            },
            leader: self.leader,
            frags: chunk_model(self.frags@),
        }
    }
}

/// The server holds pieces exactly while it is receiving a client's picture.
pub open spec fn serving_consistent(s: ServerView) -> bool {
    s.serviced == (s.frags.dom() != Set::<i16>::empty())
}

/// What a directory message did.
pub enum DirectoryOutcome {
    /// A user was registered under this name; the sender is told so.
    Registered(Vec<char>),
    /// The sender's first registration was removed, if it had one; the sender is answered.
    Removed(Option<Vec<char>>),
    /// The sender asks for the users; an election decides whether this server answers.
    Query,
}

/// What a picture fragment did.
pub enum FragmentOutcome {
    /// The fragment came from neither the current client nor an elected server; nothing happened.
    Ignored,
    /// The piece was stored; the sender is acknowledged.
    Stored,
    /// The last piece completed the picture: these are the bytes to hide in
    /// the carrier image; the sender is acknowledged.
    Completed(Vec<u8>),
}

/// Whether the server handles a fragment from `sender`.
pub open spec fn serves(s: ServerView, sender: (Seq<char>, u16)) -> bool {
    s.leader || s.current == Some(sender)
}

/// The server after a fragment from `sender`: unchanged when it does not
/// serve the sender; otherwise a piece not marked last is stored under its
/// position, while the piece marked last ends the service; either way the
/// election won is used up.
pub open spec fn fragment_step(s: ServerView, sender: (Seq<char>, u16), f: (nat, int, Seq<u8>, u8)) -> ServerView {
    if !serves(s, sender) {
        s
    } else if f.1 != LAST_POSITION {
        ServerView { serviced: true, leader: false, frags: s.frags.insert(f.1 as i16, f.2), ..s }
    } else {
        ServerView { serviced: false, current: None, leader: false, frags: Map::empty(), ..s }
    }
}

/// Key under which the server stores a piece: its position, or the announced
/// total for the piece marked last.
pub open spec fn position_key(f: (nat, int, Seq<u8>, u8)) -> int {
    if f.1 != LAST_POSITION { f.1 } else { f.0 as int }
}

impl PictureServer {
    /// A server with no user, no client and no election won.
    pub fn new() -> (s: Self)
        ensures
            s@.users == Seq::<(Seq<char>, Seq<char>)>::empty(),
            !s@.serviced,
            s@.current is None,
            !s@.leader,
            s@.frags == Map::<i16, Seq<u8>>::empty(),
            serving_consistent(s@),
    {
        let s = PictureServer {
            directory: Directory::new(),
            serviced: false,
            current: None,
            leader: false,
            frags: BTreeMap::new(),
        };
        assert(chunk_model(s.frags@) =~= Map::<i16, Seq<u8>>::empty());
        s
    }

    /// The registered users.
    pub fn directory(&self) -> (d: &Directory)
        ensures
            d@ == self@.users,
    {
        &self.directory
    }

    /// Whether the server won its last election.
    pub fn is_leader(&self) -> (b: bool)
        ensures
            b == self@.leader,
    {
        self.leader
    }

    /// Handles a directory message from the host `sender_host`.
    pub fn on_directory_message(&mut self, text: &[char], sender_host: &[char]) -> (outcome: DirectoryOutcome)
        requires
            serving_consistent(old(self)@),
        ensures
            serving_consistent(final(self)@),
            final(self)@.serviced == old(self)@.serviced,
            final(self)@.current == old(self)@.current,
            final(self)@.leader == old(self)@.leader,
            final(self)@.frags == old(self)@.frags,
            final(self)@.users == directory_step(old(self)@.users, text@, sender_host@),
            match directory_request_of(text@) {
                DirectoryRequest::Register => {
                    &&& final(self)@.users == old(self)@.users.push((sender_host@, registration_name_of(text@)))
                    &&& outcome matches DirectoryOutcome::Registered(name) && name@ == registration_name_of(text@)
                },
                DirectoryRequest::Remove => {
                    &&& outcome matches DirectoryOutcome::Removed(removed)
                    &&& match first_user_at(old(self)@.users, sender_host@) {
                        Some(i) => final(self)@.users == old(self)@.users.remove(i) && removed is Some
                            && removed->0@ == old(self)@.users[i].1,
                        None => final(self)@.users == old(self)@.users && removed is None,
                    }
                },
                DirectoryRequest::Query => {
                    &&& final(self)@.users == old(self)@.users
                    &&& outcome is Query
                },
            },
    {
        match classify_directory_request(text) {
            DirectoryRequest::Register => {
                let name = registration_name(text);
                let reply = crate::text::joined(name.as_slice(), &[]);
                let address = crate::text::joined(sender_host, &[]);
                self.directory.register(address, name);
                DirectoryOutcome::Registered(reply)
            },
            DirectoryRequest::Remove => {
                let removed = self.directory.remove_address(sender_host);
                DirectoryOutcome::Removed(removed)
            },
            DirectoryRequest::Query => DirectoryOutcome::Query,
        }
    }

    /// Records the outcome of an election held for a directory query.
    pub fn record_query_election(&mut self, won: bool)
        requires
            serving_consistent(old(self)@),
        ensures
            final(self)@ == (ServerView { leader: won, ..old(self)@ }),
            serving_consistent(final(self)@),
    {
        self.leader = won;
    }

    /// Whether a picture fragment must first be preceded by an election: it
    /// must when no client is being served.
    pub fn needs_election(&self) -> (b: bool)
        ensures
            b == !self@.serviced,
    {
        !self.serviced
    }

    /// Records the outcome of an election held for a fragment from `sender`:
    /// a won election makes `sender` the current client.
    pub fn record_fragment_election(&mut self, won: bool, sender: &Peer)
        requires
            serving_consistent(old(self)@),
        ensures
            final(self)@ == (ServerView {
                leader: won,
                current: if won { Some(peer_model(*sender)) } else { old(self)@.current },
                ..old(self)@
            }),
            serving_consistent(final(self)@),
    {
        self.leader = won;
        if won {
            self.current = Some(copy_peer(sender));
        }
    }

    /// Whether a fragment from `sender` would be handled.
    pub fn serves_sender(&self, sender: &Peer) -> (b: bool)
        ensures
            b == serves(self@, peer_model(*sender)),
    {
        if self.leader {
            true
        } else {
            match &self.current {
                Some(p) => same_peer(p, sender),
                None => false,
            }
        }
    }

    /// Handles a picture fragment from `sender`. A fragment from neither the
    /// current client nor after a won election is ignored. Otherwise a piece
    /// that is not marked last is stored under its position; the piece marked
    /// last is stored under the announced total and completes the picture:
    /// the pieces in key order, without trailing zero bytes, are turned into
    /// the bytes to hide, and the server forgets the pieces and the client.
    /// Either way the election won is used up.
    pub fn on_fragment(&mut self, sender: &Peer, frag: Fragment) -> (outcome: FragmentOutcome)
        requires
            serving_consistent(old(self)@),
            serves(old(self)@, peer_model(*sender)) && frag.position == LAST_POSITION
                ==> frag.total_frags_number <= i16::MAX,
        ensures
            serving_consistent(final(self)@),
            final(self)@ == fragment_step(old(self)@, peer_model(*sender), fragment_model(frag)),
            final(self)@.users == old(self)@.users,
            !serves(old(self)@, peer_model(*sender)) ==> final(self)@ == old(self)@ && outcome is Ignored,
            serves(old(self)@, peer_model(*sender)) && frag.position != LAST_POSITION ==> {
                &&& outcome is Stored
                &&& final(self)@ == (ServerView {
                    serviced: true,
                    leader: false,
                    frags: old(self)@.frags.insert(frag.position, frag.packet@),
                    ..old(self)@
                })
            },
            serves(old(self)@, peer_model(*sender)) && frag.position == LAST_POSITION ==> {
                &&& outcome matches FragmentOutcome::Completed(embedded) && embedded@ == embedding_of(
                    strip_trailing_zeros(assembled(old(self)@.frags.insert(
                        position_key(fragment_model(frag)) as i16,
                        frag.packet@,
                    ))),
                )
                &&& final(self)@ == (ServerView {
                    serviced: false,
                    current: None,
                    leader: false,
                    frags: Map::empty(),
                    ..old(self)@
                })
            },
    {
        if !self.serves_sender(sender) {
            return FragmentOutcome::Ignored;
        }
        let ghost old_frags = self.frags@;
        let ghost packet = frag.packet@;
        if frag.position != LAST_POSITION {
            self.frags.insert(frag.position, frag.packet);
            self.serviced = true;
            self.leader = false;
            assert(chunk_model(self.frags@) =~= chunk_model(old_frags).insert(frag.position, packet));
            assert(self.frags@.contains_key(frag.position));
            assert(chunk_model(self.frags@).dom().contains(frag.position));
            FragmentOutcome::Stored
        } else {
            let key = frag.total_frags_number as i16;
            self.frags.insert(key, frag.packet);
            assert(chunk_model(self.frags@) =~= chunk_model(old_frags).insert(key, packet));
            let mut picture = assemble(&self.frags);
            crate::padding::remove_trailing_zeros(&mut picture);
            let embedded = hide_payload(picture.as_slice());
            self.frags.clear();
            self.serviced = false;
            self.current = None;
            self.leader = false;
            assert(chunk_model(self.frags@) =~= Map::<i16, Seq<u8>>::empty());
            FragmentOutcome::Completed(embedded)
        }
    }
}

/// The pieces a server holds after storing the fragments `fs` in turn, each
/// under its position key.
pub open spec fn keyed_by_position(m: Map<i16, Seq<u8>>, fs: Seq<(nat, int, Seq<u8>, u8)>) -> Map<i16, Seq<u8>>
    decreases fs.len(),
{
    if fs.len() == 0 {
        m
    } else {
        keyed_by_position(m, fs.drop_last()).insert(position_key(fs.last()) as i16, fs.last().2)
    }
}

proof fn lemma_position_prefix(fs: Seq<(nat, int, Seq<u8>, u8)>, n: nat)
    requires
        labelled(fs),
        n <= fs.len(),
    ensures
        keyed_by_position(Map::empty(), fs.take(n as int)) == packets_map(fs, n),
    decreases n,
{
    let c = fs.len();
    if n == 0 {
        assert(fs.take(0) =~= Seq::<(nat, int, Seq<u8>, u8)>::empty());
        assert(packets_map(fs, 0) =~= Map::<i16, Seq<u8>>::empty());
    } else {
        let m = (n - 1) as nat;
        lemma_position_prefix(fs, m);
        assert(fs.take(n as int).drop_last() =~= fs.take(m as int));
        let f = fs[m as int];
        let key = position_key(f);
        assert(key == if m + 1 == c { c as int } else { m as int });
        assert(packets_map(fs, n) =~= packets_map(fs, m).insert(key as i16, f.2));
    }
}

/// Fragments of a picture whose length is not a multiple of the piece size,
/// handled by a server in the order they were sent, give the picture back:
/// every fragment but the last is stored, the last one is marked as such and
/// its announced total fits a position key, and the stored pieces in key
/// order are exactly the picture's bytes.
pub proof fn lemma_position_round_trip(data: Seq<u8>, k: nat, views: u8)
    requires
        k > 0,
        data.len() % k != 0,
        fragment_count(data.len(), k) <= i16::MAX,
    ensures
        ({
            let fs = fragments_of(data, k, views);
            &&& fs.len() > 0
            &&& forall|i: int| 0 <= i < fs.len() - 1 ==> (#[trigger] fs[i]).1 != LAST_POSITION
            &&& fs.last().1 == LAST_POSITION
            &&& fs.last().0 <= i16::MAX
            &&& assembled(keyed_by_position(Map::empty(), fs)) == data
        }),
{
    let fs = fragments_of(data, k, views);
    lemma_fragments_labelled(data, k, views);
    lemma_position_prefix(fs, fs.len());
    assert(fs.take(fs.len() as int) =~= fs);
    lemma_packets_assemble(fs);
}

/// The pieces stored from fragments whose equal keys carry equal bytes: a key
/// is held exactly when some fragment has it, with that fragment's bytes.
proof fn lemma_keyed_contents(gs: Seq<(nat, int, Seq<u8>, u8)>)
    requires
        forall|j1: int, j2: int|
            0 <= j1 < gs.len() && 0 <= j2 < gs.len() && position_key(#[trigger] gs[j1]) as i16
                == position_key(#[trigger] gs[j2]) as i16 ==> gs[j1].2 == gs[j2].2,
    ensures
        forall|key: i16| #[trigger] keyed_by_position(Map::empty(), gs).contains_key(key) <==> exists|j: int|
            0 <= j < gs.len() && position_key(#[trigger] gs[j]) as i16 == key,
        forall|j: int| 0 <= j < gs.len() ==> keyed_by_position(Map::empty(), gs)[position_key(#[trigger] gs[j]) as i16]
            == gs[j].2,
    decreases gs.len(),
{
    if gs.len() > 0 {
        let d = gs.drop_last();
        assert forall|j1: int, j2: int|
            0 <= j1 < d.len() && 0 <= j2 < d.len() && position_key(#[trigger] d[j1]) as i16
                == position_key(#[trigger] d[j2]) as i16 implies d[j1].2 == d[j2].2 by {
            assert(d[j1] == gs[j1] && d[j2] == gs[j2]);
        }
        lemma_keyed_contents(d);
        let m = keyed_by_position(Map::empty(), gs);
        assert forall|key: i16| #[trigger] m.contains_key(key) implies exists|j: int|
            0 <= j < gs.len() && position_key(#[trigger] gs[j]) as i16 == key by {
            if key != position_key(gs.last()) as i16 {
                assert(keyed_by_position(Map::empty(), d).contains_key(key));
                let j = choose|j: int| 0 <= j < d.len() && position_key(#[trigger] d[j]) as i16 == key;
                assert(d[j] == gs[j]);
            } else {
                assert(position_key(gs[gs.len() - 1]) as i16 == key);
            }
        }
        assert forall|key: i16| (exists|j: int| 0 <= j < gs.len() && position_key(#[trigger] gs[j]) as i16 == key)
            implies #[trigger] m.contains_key(key) by {
            let j = choose|j: int| 0 <= j < gs.len() && position_key(#[trigger] gs[j]) as i16 == key;
            if j < gs.len() - 1 {
                assert(d[j] == gs[j]);
            }
        }
        assert forall|j: int| 0 <= j < gs.len() implies m[position_key(#[trigger] gs[j]) as i16] == gs[j].2 by {
            if j < gs.len() - 1 && position_key(gs[j]) as i16 != position_key(gs.last()) as i16 {
                assert(d[j] == gs[j]);
            }
        }
    }
}

/// Whether the fragment with index `i` is among those that arrived.
pub open spec fn arrives(order: Seq<int>, i: int) -> bool {
    exists|j: int| 0 <= j < order.len() && order[j] == i
}

/// A server gives the picture back whatever the order in which the pieces
/// before the last one arrive, and even when some arrive more than once, as
/// long as each of them arrives before the piece marked last.
pub proof fn lemma_position_any_order(data: Seq<u8>, k: nat, views: u8, order: Seq<int>)
    requires
        k > 0,
        data.len() % k != 0,
        fragment_count(data.len(), k) <= i16::MAX,
        forall|j: int| 0 <= j < order.len() ==> 0 <= #[trigger] order[j] < fragments_of(data, k, views).len() - 1,
        forall|i: int| 0 <= i < fragments_of(data, k, views).len() - 1 ==> #[trigger] arrives(order, i),
    ensures
        ({
            let fs = fragments_of(data, k, views);
            let arrived = order.map_values(|i: int| fs[i]).push(fs.last());
            &&& forall|j: int| 0 <= j < order.len() ==> (#[trigger] arrived[j]).1 != LAST_POSITION
            &&& assembled(keyed_by_position(Map::empty(), arrived)) == data
        }),
{
    let fs = fragments_of(data, k, views);
    let c = fs.len();
    let arrived = order.map_values(|i: int| fs[i]).push(fs.last());
    lemma_fragments_labelled(data, k, views);
    assert forall|j: int| 0 <= j < arrived.len() implies position_key(#[trigger] arrived[j]) == if j
        < order.len() { order[j] } else { c as int } by {
        if j < order.len() {
            assert(arrived[j] == fs[order[j]]);
        }
    }
    assert forall|j1: int, j2: int|
        0 <= j1 < arrived.len() && 0 <= j2 < arrived.len() && position_key(#[trigger] arrived[j1]) as i16
            == position_key(#[trigger] arrived[j2]) as i16 implies arrived[j1].2 == arrived[j2].2 by {
        if j1 < order.len() {
            assert(arrived[j1] == fs[order[j1]]);
        }
        if j2 < order.len() {
            assert(arrived[j2] == fs[order[j2]]);
        }
    }
    lemma_keyed_contents(arrived);
    let m = keyed_by_position(Map::empty(), arrived);
    let target = packets_map(fs, c);
    assert forall|key: i16| m.contains_key(key) <==> target.contains_key(key) by {
        if target.contains_key(key) {
            if key == c {
                assert(position_key(arrived[order.len() as int]) as i16 == key);
            } else {
                assert(arrives(order, key as int));
                let j = choose|j: int| 0 <= j < order.len() && order[j] == key;
                assert(position_key(arrived[j]) as i16 == key);
            }
        }
        if m.contains_key(key) {
            let j = choose|j: int| 0 <= j < arrived.len() && position_key(#[trigger] arrived[j]) as i16 == key;
        }
    }
    assert forall|key: i16| m.contains_key(key) implies m[key] == target[key] by {
        let j = choose|j: int| 0 <= j < arrived.len() && position_key(#[trigger] arrived[j]) as i16 == key;
        if j < order.len() {
            assert(arrived[j] == fs[order[j]]);
        }
    }
    assert(m =~= target);
    lemma_packets_assemble(fs);
    assert forall|j: int| 0 <= j < order.len() implies (#[trigger] arrived[j]).1 != LAST_POSITION by {
        assert(arrived[j] == fs[order[j]]);
    }
}

/// The server is receiving the picture of client `c` and holds no election won.
pub open spec fn serving_client(s: ServerView, c: (Seq<char>, u16)) -> bool {
    s.serviced && s.current == Some(c) && !s.leader
}

/// The server after the fragments `evs`, each with its sender, in turn.
pub open spec fn fragments_after(
    s: ServerView,
    evs: Seq<((Seq<char>, u16), (nat, int, Seq<u8>, u8))>,
) -> ServerView
    decreases evs.len(),
{
    if evs.len() == 0 {
        s
    } else {
        fragment_step(fragments_after(s, evs.drop_last()), evs.last().0, evs.last().1)
    }
}

/// The fragments among `evs` that client `c` sent, in order.
pub open spec fn sent_by(
    evs: Seq<((Seq<char>, u16), (nat, int, Seq<u8>, u8))>,
    c: (Seq<char>, u16),
) -> Seq<((Seq<char>, u16), (nat, int, Seq<u8>, u8))>
    decreases evs.len(),
{
    if evs.len() == 0 {
        evs
    } else if evs.last().0 == c {
        sent_by(evs.drop_last(), c).push(evs.last())
    } else {
        sent_by(evs.drop_last(), c)
    }
}

/// While a server receives the picture of client `c`, and until `c` sends
/// the piece marked last, the server holds no election, handles every
/// fragment of `c` and ignores every other fragment: the state it reaches,
/// and so the picture it will hide, is the one that `c`'s fragments alone
/// give, and the registered users do not change.
pub proof fn lemma_one_client_at_a_time(
    s: ServerView,
    c: (Seq<char>, u16),
    evs: Seq<((Seq<char>, u16), (nat, int, Seq<u8>, u8))>,
)
    requires
        serving_client(s, c),
        forall|j: int| 0 <= j < evs.len() && (#[trigger] evs[j]).0 == c ==> evs[j].1.1 != LAST_POSITION,
    ensures
        serving_client(fragments_after(s, evs), c),
        fragments_after(s, evs) == fragments_after(s, sent_by(evs, c)),
        fragments_after(s, evs).users == s.users,
        forall|j: int| 0 <= j < evs.len() ==> (serves(fragments_after(s, evs.take(j)), (#[trigger] evs[j]).0)
            <==> evs[j].0 == c),
    decreases evs.len(),
{
    if evs.len() > 0 {
        let d = evs.drop_last();
        assert forall|j: int| 0 <= j < d.len() && (#[trigger] d[j]).0 == c implies d[j].1.1 != LAST_POSITION by {
            assert(d[j] == evs[j]);
        }
        lemma_one_client_at_a_time(s, c, d);
        let last = evs.last();
        let before = fragments_after(s, d);
        assert(serves(before, last.0) <==> last.0 == c);
        if last.0 == c {
            assert(evs[evs.len() - 1].0 == c);
            assert(sent_by(d, c).push(last).drop_last() =~= sent_by(d, c));
            assert(fragments_after(s, sent_by(evs, c)) == fragment_step(fragments_after(s, sent_by(d, c)), last.0, last.1));
        } else {
            assert(sent_by(evs, c) == sent_by(d, c));
        }
        assert forall|j: int| 0 <= j < evs.len() implies (serves(fragments_after(s, evs.take(j)), (#[trigger] evs[j]).0)
            <==> evs[j].0 == c) by {
            if j < d.len() {
                assert(evs.take(j) =~= d.take(j));
                assert(d[j] == evs[j]);
            } else {
                assert(evs.take(j) =~= d);
            }
        }
    }
}

/// How one directory message from `host` takes the listed users from
/// `before` to `after`: a registration appends the host with its name, a
/// removal takes out the earliest user listed from the host (nothing when
/// there is none), and a query changes nothing.
pub open spec fn answered_as_asked(
    before: Seq<(Seq<char>, Seq<char>)>,
    after: Seq<(Seq<char>, Seq<char>)>,
    text: Seq<char>,
    host: Seq<char>,
) -> bool {
    match directory_request_of(text) {
        DirectoryRequest::Register => after == before.push((host, registration_name_of(text))),
        DirectoryRequest::Remove => match first_user_at(before, host) {
            Some(k) => {
                &&& 0 <= k < before.len()
                &&& before[k].0 == host
                &&& forall|i: int| 0 <= i < k ==> before[i].0 != host
                &&& after == before.remove(k)
            },
            None => {
                &&& forall|i: int| 0 <= i < before.len() ==> before[i].0 != host
                &&& after == before
            },
        },
        DirectoryRequest::Query => after == before,
    }
}

/// A server that starts with no user and handles the directory messages
/// `msgs` (each a text and the host it came from) in turn lists, when it
/// answers a query: the users registered by the `Register:` messages it
/// received, in the order they arrived, duplicates kept, less those removed;
/// each under the part of its message after `Register:` up to the next `:`,
/// trimmed. Each `Remove` message takes out the earliest user still listed
/// from its sender's host, and changes nothing when there is none; a query
/// changes nothing.
pub proof fn lemma_directory_reply(msgs: Seq<(Seq<char>, Seq<char>)>)
    ensures
        in_arrival_order(directory_after(Seq::empty(), msgs), registrations(msgs)),
        forall|j: int| 0 <= j < msgs.len() && directory_request_of(#[trigger] msgs[j].0) is Register
            ==> registration_name_of(msgs[j].0) == trim(first_field(msgs[j].0.skip(register_prefix().len() as int))),
        forall|j: int| 0 <= j < msgs.len() ==> answered_as_asked(
            #[trigger] directory_after(Seq::empty(), msgs.take(j)),
            directory_after(Seq::empty(), msgs.take(j + 1)),
            msgs[j].0,
            msgs[j].1,
        ),
{
    lemma_directory_in_arrival_order(msgs);
    assert forall|j: int| 0 <= j < msgs.len() && directory_request_of(#[trigger] msgs[j].0) is Register
        implies registration_name_of(msgs[j].0) == trim(first_field(msgs[j].0.skip(register_prefix().len() as int))) by {
        let n = msgs[j].0.skip(register_prefix().len() as int);
        assert(msgs[j].0 =~= register_prefix() + n);
        lemma_registration_name(n);
    }
    assert forall|j: int| 0 <= j < msgs.len() implies answered_as_asked(
        #[trigger] directory_after(Seq::empty(), msgs.take(j)),
        directory_after(Seq::empty(), msgs.take(j + 1)),
        msgs[j].0,
        msgs[j].1,
    ) by {
        assert(msgs.take(j + 1).drop_last() =~= msgs.take(j));
        assert(msgs.take(j + 1).last() == msgs[j]);
        lemma_first_user_at(directory_after(Seq::empty(), msgs.take(j)), msgs[j].1);
    }
}

} // verus!
