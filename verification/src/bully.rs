use vstd::prelude::*;

verus! {

/// Messages that servers electing a coordinator exchange.
pub enum BullyMessage {
    /// A server with this id starts an election.
    Election(usize),
    /// A server with this id answers an election.
    Answer(usize),
    /// The server with this id is announced as coordinator.
    Coordinator(usize),
    /// A client request to serve.
    Request(Vec<char>),
}

/// What a server does about a message it received.
pub enum BullyReaction {
    /// Answer the sender with this server's id, then start an election.
    AnswerAndElect,
    /// Nothing to send.
    Nothing,
    /// Answer the client's request.
    Respond,
}

/// A server that takes part in elections under a fixed id.
pub struct BullyNode {
    id: usize,
    coordinator: bool,
}

/// Model of a server in an election: its id and whether it was announced coordinator.
pub struct BullyView {
    pub id: usize,
    pub coordinator: bool,
}

impl View for BullyNode {
    type V = BullyView;

    closed spec fn view(&self) -> BullyView {
        BullyView { id: self.id, coordinator: self.coordinator }
    }
}

/// The reaction to a message and whether the server is coordinator afterwards.
pub open spec fn bully_step(s: BullyView, m: BullyMessage) -> (BullyReaction, bool) {
    match m {
        BullyMessage::Election(from) => (
            if from > s.id { BullyReaction::AnswerAndElect } else { BullyReaction::Nothing },
            s.coordinator,
        ),
        BullyMessage::Answer(_) => (BullyReaction::Nothing, s.coordinator),
        BullyMessage::Coordinator(c) => (BullyReaction::Nothing, c == s.id),
        BullyMessage::Request(_) => (BullyReaction::Respond, s.coordinator),
    }
}

/// An announcement makes a server coordinator exactly when it names that
/// server's own id: a server never takes over on another server's
/// announcement, whatever the two ids are, and any earlier state is forgotten.
pub proof fn lemma_announcement_names_coordinator(s: BullyView, c: usize)
    ensures
        bully_step(s, BullyMessage::Coordinator(c)).1 <==> c == s.id,
        c != s.id ==> !bully_step(s, BullyMessage::Coordinator(c)).1,
        bully_step(s, BullyMessage::Coordinator(c)).0 is Nothing,
{
}

/// A server answers an election, and then holds its own, exactly when the
/// election was started by a higher id; elections, answers and requests never
/// change whether it is coordinator.
pub proof fn lemma_election_answered_by_lower_ids(s: BullyView, m: BullyMessage)
    ensures
        m matches BullyMessage::Election(from) ==> (bully_step(s, m).0 is AnswerAndElect <==> from > s.id),
        !(m is Coordinator) ==> bully_step(s, m).1 == s.coordinator,
        m is Request ==> bully_step(s, m).0 is Respond,
{
}

impl BullyNode {
    /// A server with id `id` that is not coordinator.
    pub fn new(id: usize) -> (n: Self)
        ensures
            n@ == (BullyView { id, coordinator: false }),
    {
        BullyNode { id, coordinator: false }
    }

    /// The server's id.
    pub fn id(&self) -> (id: usize)
        ensures
            id == self@.id,
    {
        self.id
    }

    /// Whether the server was announced coordinator.
    pub fn is_coordinator(&self) -> (b: bool)
        ensures
            b == self@.coordinator,
    {
        self.coordinator
    }

    /// Reacts to a message: an election started by a higher id is answered and
    /// followed by an election of this server's own; an announcement makes the
    /// server coordinator exactly when it names this server; a client request
    /// is answered.
    pub fn on_message(&mut self, m: &BullyMessage) -> (r: BullyReaction)
        ensures
            (r, final(self)@.coordinator) == bully_step(old(self)@, *m),
            final(self)@.id == old(self)@.id,
    {
        match m {
            BullyMessage::Election(from) => {
                if *from > self.id {
                    BullyReaction::AnswerAndElect
                } else {
                    BullyReaction::Nothing
                }
            },
            BullyMessage::Answer(_) => BullyReaction::Nothing,
            BullyMessage::Coordinator(c) => {
                self.coordinator = *c == self.id;
                BullyReaction::Nothing
            },
            BullyMessage::Request(_) => BullyReaction::Respond,
        }
    }
}

/// The highest id among the answers in `replies`, if any answered.
pub open spec fn highest_answer_of(replies: Seq<BullyMessage>) -> Option<usize>
    decreases replies.len(),
{
    if replies.len() == 0 {
        None
    } else {
        let before = highest_answer_of(replies.drop_last());
        match replies.last() {
            BullyMessage::Answer(r) => match before {
                Some(c) => if r > c { Some(r) } else { Some(c) },
                None => Some(r),
            },
            _ => before,
        }
    }
}

/// The highest id among the answers to an election; nothing when no server
/// answered.
pub fn highest_answer(replies: &[BullyMessage]) -> (h: Option<usize>)
    ensures
        h == highest_answer_of(replies@),
{
    let mut highest: Option<usize> = None;
    let mut i: usize = 0;
    while i < replies.len()
        invariant
            i <= replies@.len(),
            highest == highest_answer_of(replies@.take(i as int)),
        decreases replies@.len() - i,
    {
        assert(replies@.take(i + 1).drop_last() =~= replies@.take(i as int));
        match &replies[i] {
            BullyMessage::Answer(r) => {
                match highest {
                    Some(c) => {
                        if *r > c {
                            highest = Some(*r);
                        }
                    },
                    None => {
                        highest = Some(*r);
                    },
                }
            },
            _ => {},
        }
        i = i + 1;
    }
    assert(replies@.take(i as int) =~= replies@);
    highest
}

/// The announced coordinator is the highest id that answered: it answered,
/// no answer is higher, and there is none exactly when nobody answered.
pub proof fn lemma_highest_answer_is_max(replies: Seq<BullyMessage>)
    ensures
        match highest_answer_of(replies) {
            Some(h) => (exists|i: int| 0 <= i < replies.len() && #[trigger] replies[i] == BullyMessage::Answer(h))
                && forall|i: int| 0 <= i < replies.len() && (#[trigger] replies[i]) is Answer ==> replies[i]->Answer_0 <= h,
            None => forall|i: int| 0 <= i < replies.len() ==> !((#[trigger] replies[i]) is Answer),
        },
    decreases replies.len(),
{
    if replies.len() > 0 {
        let d = replies.drop_last();
        lemma_highest_answer_is_max(d);
        assert(forall|i: int| 0 <= i < d.len() ==> d[i] == replies[i]);
        let last = replies.len() - 1;
        match highest_answer_of(d) {
            Some(c) => {
                let j = choose|j: int| 0 <= j < d.len() && #[trigger] d[j] == BullyMessage::Answer(c);
                assert(replies[j] == BullyMessage::Answer(c));
            },
            None => {},
        }
        assert(replies[last] == replies.last());
    }
}

/// The coordinator a server announces after its election: the highest id
/// that answered, or the server's own id when no server answered.
pub open spec fn coordinator_of(id: usize, replies: Seq<BullyMessage>) -> usize {
    match highest_answer_of(replies) {
        Some(h) => h,
        None => id,
    }
}

/// Chooses the coordinator to announce after an election held by server `id`:
/// the highest id among the answers, or `id` itself when nobody answered.
pub fn coordinator_to_announce(id: usize, replies: &[BullyMessage]) -> (c: usize)
    ensures
        c == coordinator_of(id, replies@),
{
    match highest_answer(replies) {
        Some(h) => h,
        None => id,
    }
}

/// A server whose election gets no answer announces itself; otherwise it
/// announces the highest id that answered.
pub proof fn lemma_coordinator_without_answers(id: usize, replies: Seq<BullyMessage>)
    ensures
        (forall|i: int| 0 <= i < replies.len() ==> !((#[trigger] replies[i]) is Answer))
            ==> coordinator_of(id, replies) == id,
        (exists|i: int| 0 <= i < replies.len() && (#[trigger] replies[i]) is Answer) ==> {
            &&& exists|i: int| 0 <= i < replies.len() && #[trigger] replies[i] == BullyMessage::Answer(coordinator_of(id, replies))
            &&& forall|i: int| 0 <= i < replies.len() && (#[trigger] replies[i]) is Answer ==> replies[i]->Answer_0 <= coordinator_of(id, replies)
        },
{
    lemma_highest_answer_is_max(replies);
    if forall|i: int| 0 <= i < replies.len() ==> !((#[trigger] replies[i]) is Answer) {
        if let Some(h) = highest_answer_of(replies) {
            let j = choose|j: int| 0 <= j < replies.len() && #[trigger] replies[j] == BullyMessage::Answer(h);
            assert(replies[j] is Answer);
        }
    }
    if exists|i: int| 0 <= i < replies.len() && (#[trigger] replies[i]) is Answer {
        let i = choose|i: int| 0 <= i < replies.len() && (#[trigger] replies[i]) is Answer;
        assert(highest_answer_of(replies) is Some);
    }
}

} // verus!
