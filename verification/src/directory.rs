use vstd::prelude::*;
use crate::text::{
    after_colon, after_first_colon, before_colon, contains, contains_text, ends_with_text, first_field,
    has_suffix, joined, lemma_after_first_colon_append, lemma_trim_after_head, lemma_trimmed_first_field,
    same_text, trim, trim_end, trimmed,
};
use crate::wire::{begins_with, has_prefix, starts_with_chars};

verus! {

/// A user registered with a directory server: the host it registered from and its name.
pub struct User {
    pub address: Vec<char>,
    pub name: Vec<char>,
}

/// Model of a user: its address and its name.
pub open spec fn user_model(u: User) -> (Seq<char>, Seq<char>) {
    (u.address@, u.name@)
}

/// Models of a list of users.
pub open spec fn users_model(users: Seq<User>) -> Seq<(Seq<char>, Seq<char>)> {
    users.map_values(|u: User| user_model(u))
}

/// The port on which every peer serves pictures.
pub open spec fn peer_port_suffix() -> Seq<char> {
    seq![':', '8', '0', '8', '5']
}

/// What a directory server is asked in a text message.
pub enum DirectoryRequest {
    /// `Register:<name>`: record the sender under a name.
    Register,
    /// `Remove...`: forget the sender.
    Remove,
    /// Anything else: list the registered users.
    Query,
}

pub open spec fn register_prefix() -> Seq<char> {
    seq!['R', 'e', 'g', 'i', 's', 't', 'e', 'r', ':']
}

pub open spec fn remove_prefix() -> Seq<char> {
    seq!['R', 'e', 'm', 'o', 'v', 'e']
}

/// The request a directory message makes.
pub open spec fn directory_request_of(text: Seq<char>) -> DirectoryRequest {
    if has_prefix(text, register_prefix()) {
        DirectoryRequest::Register
    } else if has_prefix(text, remove_prefix()) {
        DirectoryRequest::Remove
    } else {
        DirectoryRequest::Query
    }
}

/// A directory message registers exactly when it begins with the whole of
/// `Register:`, removes exactly when it begins with `Remove` (and not with
/// `Register:`), and asks for the users otherwise.
pub proof fn lemma_directory_reads_whole_words(text: Seq<char>)
    ensures
        directory_request_of(text) is Register <==> begins_with(text, seq!['R', 'e', 'g', 'i', 's', 't', 'e', 'r', ':']),
        directory_request_of(text) is Remove <==> begins_with(text, seq!['R', 'e', 'm', 'o', 'v', 'e']),
        directory_request_of(text) is Query <==> !begins_with(text, seq!['R', 'e', 'g', 'i', 's', 't', 'e', 'r', ':'])
            && !begins_with(text, seq!['R', 'e', 'm', 'o', 'v', 'e']),
{
    let register = seq!['R', 'e', 'g', 'i', 's', 't', 'e', 'r', ':'];
    let remove = seq!['R', 'e', 'm', 'o', 'v', 'e'];
    assert(register =~= register_prefix());
    assert(remove =~= remove_prefix());
    if text.len() >= 9 {
        assert(begins_with(text, register) <==> text.take(9) =~= register);
    }
    if text.len() >= 6 {
        assert(begins_with(text, remove) <==> text.take(6) =~= remove);
    }
    if begins_with(text, register) {
        assert(text[2] == 'g');
    }
    if has_prefix(text, register_prefix()) {
        assert(text.take(9)[2] == text[2]);
    }
}

/// Classifies a directory message by its prefix.
pub fn classify_directory_request(text: &[char]) -> (req: DirectoryRequest)
    ensures
        req == directory_request_of(text@),
        req is Register <==> begins_with(text@, seq!['R', 'e', 'g', 'i', 's', 't', 'e', 'r', ':']),
        req is Remove <==> begins_with(text@, seq!['R', 'e', 'm', 'o', 'v', 'e']),
{
    let register: [char; 9] = ['R', 'e', 'g', 'i', 's', 't', 'e', 'r', ':'];
    let remove: [char; 6] = ['R', 'e', 'm', 'o', 'v', 'e'];
    assert(register@ =~= register_prefix());
    assert(remove@ =~= remove_prefix());
    proof {
        lemma_directory_reads_whole_words(text@);
    }
    if starts_with_chars(text, register.as_slice()) {
        DirectoryRequest::Register
    } else if starts_with_chars(text, remove.as_slice()) {
        DirectoryRequest::Remove
    } else {
        DirectoryRequest::Query
    }
}

/// The name a `Register:` message registers: the trimmed second `:`-separated
/// field of the trimmed message.
pub open spec fn registration_name_of(text: Seq<char>) -> Seq<char> {
    trim(first_field(after_first_colon(trim(text))))
}

/// The message `Register:` followed by `n` registers the part of `n` before
/// its first `:` (all of `n` when it has none), trimmed.
pub proof fn lemma_registration_name(n: Seq<char>)
    ensures
        registration_name_of(register_prefix() + n) == trim(first_field(n)),
{
    let p = register_prefix();
    lemma_trim_after_head(p, n);
    assert forall|j: int| 0 <= j < p.len() - 1 implies p[j] != ':' by {}
    lemma_after_first_colon_append(p, trim_end(n));
    lemma_trimmed_first_field(n);
}

/// Reads the name out of a `Register:` message.
pub fn registration_name(text: &[char]) -> (name: Vec<char>)
    ensures
        name@ == registration_name_of(text@),
{
    let message = trimmed(text);
    let rest = after_colon(message.as_slice());
    let field = before_colon(rest.as_slice());
    trimmed(field.as_slice())
}

/// The registered users of a directory server, in registration order.
pub struct Directory {
    users: Vec<User>,
}

impl View for Directory {
    type V = Seq<(Seq<char>, Seq<char>)>;

    closed spec fn view(&self) -> Seq<(Seq<char>, Seq<char>)> {
        users_model(self.users@)
    }
}

/// Index of the first user registered from `address`, if any.
pub open spec fn first_user_at(users: Seq<(Seq<char>, Seq<char>)>, address: Seq<char>) -> Option<int>
    decreases users.len(),
{
    if users.len() == 0 {
        None
    } else {
        match first_user_at(users.drop_last(), address) {
            Some(i) => Some(i),
            None => if users.last().0 == address { Some(users.len() - 1) } else { None },
        }
    }
}

/// `first_user_at` finds the earliest user registered from the address, and
/// finds none only when no user is.
pub proof fn lemma_first_user_at(users: Seq<(Seq<char>, Seq<char>)>, address: Seq<char>)
    ensures
        match first_user_at(users, address) {
            Some(i) => 0 <= i < users.len() && users[i].0 == address && forall|j: int|
                0 <= j < i ==> users[j].0 != address,
            None => forall|j: int| 0 <= j < users.len() ==> users[j].0 != address,
        },
    decreases users.len(),
{
    if users.len() > 0 {
        let d = users.drop_last();
        lemma_first_user_at(d, address);
        assert(forall|j: int| 0 <= j < d.len() ==> d[j] == users[j]);
    }
}

proof fn lemma_first_user_at_unique(users: Seq<(Seq<char>, Seq<char>)>, address: Seq<char>, i: int)
    requires
        0 <= i < users.len(),
        users[i].0 == address,
        forall|j: int| 0 <= j < i ==> users[j].0 != address,
    ensures
        first_user_at(users, address) == Some(i),
    decreases users.len(),
{
    if i < users.len() - 1 {
        lemma_first_user_at_unique(users.drop_last(), address, i);
    } else {
        lemma_first_user_at(users.drop_last(), address);
    }
}

/// The users after a directory message `text` from the host `host`: a
/// registration appends the host with the registered name, a removal takes
/// out the earliest user registered from that host, if any, and a query
/// changes nothing.
pub open spec fn directory_step(
    users: Seq<(Seq<char>, Seq<char>)>,
    text: Seq<char>,
    host: Seq<char>,
) -> Seq<(Seq<char>, Seq<char>)> {
    match directory_request_of(text) {
        DirectoryRequest::Register => users.push((host, registration_name_of(text))),
        DirectoryRequest::Remove => match first_user_at(users, host) {
            Some(i) => users.remove(i),
            None => users,
        },
        DirectoryRequest::Query => users,
    }
}

/// The users after the directory messages `msgs`, each a text and the host
/// it came from, in turn.
pub open spec fn directory_after(
    users: Seq<(Seq<char>, Seq<char>)>,
    msgs: Seq<(Seq<char>, Seq<char>)>,
) -> Seq<(Seq<char>, Seq<char>)>
    decreases msgs.len(),
{
    if msgs.len() == 0 {
        users
    } else {
        directory_step(directory_after(users, msgs.drop_last()), msgs.last().0, msgs.last().1)
    }
}

/// The registrations among `msgs`, in arrival order: each the host and the
/// registered name.
pub open spec fn registrations(msgs: Seq<(Seq<char>, Seq<char>)>) -> Seq<(Seq<char>, Seq<char>)>
    decreases msgs.len(),
{
    if msgs.len() == 0 {
        Seq::empty()
    } else if directory_request_of(msgs.last().0) is Register {
        registrations(msgs.drop_last()).push((msgs.last().1, registration_name_of(msgs.last().0)))
    } else {
        registrations(msgs.drop_last())
    }
}

/// `list` holds some of the registrations `regs`, each at most once, in the
/// order in which they arrived.
pub open spec fn in_arrival_order(list: Seq<(Seq<char>, Seq<char>)>, regs: Seq<(Seq<char>, Seq<char>)>) -> bool {
    exists|tags: Seq<int>|
        {
            &&& tags.len() == list.len()
            &&& forall|i: int, j: int| 0 <= i < j < tags.len() ==> tags[i] < tags[j]
            &&& forall|i: int| 0 <= i < tags.len() ==> 0 <= #[trigger] tags[i] < regs.len() && list[i] == regs[tags[i]]
        }
}

/// Which registration each user of the directory came from.
proof fn registration_tags(msgs: Seq<(Seq<char>, Seq<char>)>) -> (tags: Seq<int>)
    ensures
        tags.len() == directory_after(Seq::empty(), msgs).len(),
        forall|i: int, j: int| 0 <= i < j < tags.len() ==> tags[i] < tags[j],
        forall|i: int| 0 <= i < tags.len() ==> 0 <= #[trigger] tags[i] < registrations(msgs).len()
            && directory_after(Seq::empty(), msgs)[i] == registrations(msgs)[tags[i]],
    decreases msgs.len(),
{
    if msgs.len() == 0 {
        Seq::empty()
    } else {
        let d = msgs.drop_last();
        let prev = registration_tags(d);
        let users = directory_after(Seq::empty(), d);
        let regs = registrations(d);
        let (text, host) = msgs.last();
        match directory_request_of(text) {
            DirectoryRequest::Register => {
                let tags = prev.push(regs.len() as int);
                assert forall|i: int| 0 <= i < tags.len() implies 0 <= #[trigger] tags[i] < registrations(msgs).len()
                    && directory_after(Seq::empty(), msgs)[i] == registrations(msgs)[tags[i]] by {
                    if i < prev.len() {
                        assert(tags[i] == prev[i]);
                    }
                }
                tags
            },
            DirectoryRequest::Remove => {
                match first_user_at(users, host) {
                    Some(k) => {
                        lemma_first_user_at(users, host);
                        let tags = prev.remove(k);
                        assert forall|i: int, j: int| 0 <= i < j < tags.len() implies tags[i] < tags[j] by {
                            let pi = if i < k { i } else { i + 1 };
                            let pj = if j < k { j } else { j + 1 };
                            assert(tags[i] == prev[pi] && tags[j] == prev[pj]);
                        }
                        assert forall|i: int| 0 <= i < tags.len() implies 0 <= #[trigger] tags[i] < registrations(msgs).len()
                            && directory_after(Seq::empty(), msgs)[i] == registrations(msgs)[tags[i]] by {
                            let pi = if i < k { i } else { i + 1 };
                            assert(tags[i] == prev[pi]);
                            assert(directory_after(Seq::empty(), msgs)[i] == users[pi]);
                        }
                        tags
                    },
                    None => prev,
                }
            },
            DirectoryRequest::Query => prev,
        }
    }
}

/// Whatever registrations, removals and queries a directory receives, its
/// users are registrations it received, in the order they arrived,
/// duplicates kept: removals only take users out.
pub proof fn lemma_directory_in_arrival_order(msgs: Seq<(Seq<char>, Seq<char>)>)
    ensures
        in_arrival_order(directory_after(Seq::empty(), msgs), registrations(msgs)),
{
    let tags = registration_tags(msgs);
    assert(tags.len() == directory_after(Seq::empty(), msgs).len());
}

/// A directory that receives no removal lists every registration, in the
/// order in which they arrived.
pub proof fn lemma_directory_without_removals(msgs: Seq<(Seq<char>, Seq<char>)>)
    requires
        forall|j: int| 0 <= j < msgs.len() ==> !(directory_request_of((#[trigger] msgs[j]).0) is Remove),
    ensures
        directory_after(Seq::empty(), msgs) == registrations(msgs),
    decreases msgs.len(),
{
    if msgs.len() > 0 {
        let d = msgs.drop_last();
        assert forall|j: int| 0 <= j < d.len() implies !(directory_request_of((#[trigger] d[j]).0) is Remove) by {
            assert(d[j] == msgs[j]);
        }
        lemma_directory_without_removals(d);
        assert(msgs[msgs.len() - 1] == msgs.last());
    }
}

/// Registering from an address that no user is registered from, and then
/// removing that address, finds the new user and gives the directory back.
pub proof fn lemma_register_then_remove(
    users: Seq<(Seq<char>, Seq<char>)>,
    address: Seq<char>,
    name: Seq<char>,
)
    requires
        first_user_at(users, address) is None,
    ensures
        first_user_at(users.push((address, name)), address) == Some(users.len() as int),
        users.push((address, name)).remove(users.len() as int) == users,
{
    let longer = users.push((address, name));
    assert(longer.drop_last() =~= users);
    assert(longer.remove(users.len() as int) =~= users);
}

impl Directory {
    /// A directory with no user.
    pub fn new() -> (d: Self)
        ensures
            d@ == Seq::<(Seq<char>, Seq<char>)>::empty(),
    {
        let d = Directory { users: Vec::new() };
        assert(d@ =~= Seq::<(Seq<char>, Seq<char>)>::empty());
        d
    }

    /// The registered users, in registration order.
    pub fn users(&self) -> (users: &Vec<User>)
        ensures
            users_model(users@) == self@,
    {
        &self.users
    }

    /// Records a user at the end of the list.
    pub fn register(&mut self, address: Vec<char>, name: Vec<char>)
        ensures
            final(self)@ == old(self)@.push((address@, name@)),
    {
        let ghost a = address@;
        let ghost n = name@;
        self.users.push(User { address, name });
        assert(self@ =~= old(self)@.push((a, n)));
    }

    /// Forgets the first user registered from `address` and returns its name;
    /// returns nothing and changes nothing when no user is registered from there.
    pub fn remove_address(&mut self, address: &[char]) -> (removed: Option<Vec<char>>)
        ensures
            match first_user_at(old(self)@, address@) {
                Some(i) => final(self)@ == old(self)@.remove(i) && removed is Some && removed->0@
                    == old(self)@[i].1,
                None => final(self)@ == old(self)@ && removed is None,
            },
    {
        let mut i: usize = 0;
        while i < self.users.len()
            invariant
                i <= self.users@.len(),
                self@ == old(self)@,
                forall|j: int| 0 <= j < i ==> self@[j].0 != address@,
            decreases self.users@.len() - i,
        {
            if same_text(self.users[i].address.as_slice(), address) {
                proof {
                    lemma_first_user_at_unique(self@, address@, i as int);
                }
                let user = self.users.remove(i);
                assert(self@ =~= old(self)@.remove(i as int));
                return Some(user.name);
            }
            i = i + 1;
        }
        proof {
            lemma_first_user_at(self@, address@);
            match first_user_at(self@, address@) {
                Some(k) => {
                    assert(self@[k].0 != address@);
                },
                None => {},
            }
        }
        None
    }
}

/// The users of `users` whose name is not `name`, in order.
pub open spec fn without_name(users: Seq<(Seq<char>, Seq<char>)>, name: Seq<char>) -> Seq<(Seq<char>, Seq<char>)>
    decreases users.len(),
{
    if users.len() == 0 {
        users
    } else if users.last().1 != name {
        without_name(users.drop_last(), name).push(users.last())
    } else {
        without_name(users.drop_last(), name)
    }
}

/// Whether a user's name differs from `name`.
pub open spec fn not_named(name: Seq<char>) -> spec_fn((Seq<char>, Seq<char>)) -> bool {
    |u: (Seq<char>, Seq<char>)| u.1 != name
}

/// Keeping the users whose name differs from `name`, in list order, is what
/// `without_name` does: it is the filter of the list by that test, so every
/// such user is kept, no user named `name` is, and the order is the list's.
pub proof fn lemma_without_name_is_filter(users: Seq<(Seq<char>, Seq<char>)>, name: Seq<char>)
    ensures
        without_name(users, name) == users.filter(not_named(name)),
        forall|i: int| 0 <= i < without_name(users, name).len() ==> (#[trigger] without_name(users, name)[i]).1 != name,
        forall|i: int| 0 <= i < users.len() && (#[trigger] users[i]).1 != name ==> without_name(users, name).contains(users[i]),
        without_name(users, name).len() == users.filter(not_named(name)).len(),
    decreases users.len(),
{
    broadcast use vstd::seq_lib::group_filter_ensures;
    reveal(Seq::filter);
    if users.len() > 0 {
        lemma_without_name_is_filter(users.drop_last(), name);
    }
    assert forall|i: int| 0 <= i < users.len() && (#[trigger] users[i]).1 != name
        implies without_name(users, name).contains(users[i]) by {
        users.lemma_filter_contains(not_named(name), i);
    }
}

/// The users other than the one named `own_name`.
pub fn other_users(users: &Vec<User>, own_name: &[char]) -> (others: Vec<User>)
    ensures
        users_model(others@) == without_name(users_model(users@), own_name@),
        users_model(others@) == users_model(users@).filter(not_named(own_name@)),
        forall|i: int| 0 <= i < others@.len() ==> (#[trigger] others@[i]).name@ != own_name@,
        forall|i: int| 0 <= i < users@.len() && (#[trigger] users@[i]).name@ != own_name@
            ==> users_model(others@).contains(user_model(users@[i])),
{
    let mut others: Vec<User> = Vec::new();
    let mut i: usize = 0;
    while i < users.len()
        invariant
            i <= users@.len(),
            users_model(others@) == without_name(users_model(users@.take(i as int)), own_name@),
        decreases users@.len() - i,
    {
        assert(users_model(users@.take(i + 1)).drop_last() =~= users_model(users@.take(i as int)));
        if !same_text(users[i].name.as_slice(), own_name) {
            let address = joined(users[i].address.as_slice(), &[]);
            let name = joined(users[i].name.as_slice(), &[]);
            let ghost before = others@;
            others.push(User { address, name });
            assert(users_model(others@) =~= users_model(before).push(user_model(users@[i as int])));
        }
        i = i + 1;
    }
    proof {
        assert(users@ =~= users@.take(i as int));
        let m = users_model(users@);
        lemma_without_name_is_filter(m, own_name@);
        assert forall|i: int| 0 <= i < others@.len() implies (#[trigger] others@[i]).name@ != own_name@ by {
            assert(users_model(others@)[i] == user_model(others@[i]));
        }
        assert forall|i: int| 0 <= i < users@.len() && (#[trigger] users@[i]).name@ != own_name@
            implies users_model(others@).contains(user_model(users@[i])) by {
            assert(m[i] == user_model(users@[i]));
        }
    }
    assert(users@.take(i as int) =~= users@);
    others
}

/// The index that a one-based menu choice picks from a list of `len` entries,
/// if the choice is on the menu.
pub open spec fn menu_index(choice: nat, len: nat) -> Option<nat> {
    if 1 <= choice <= len { Some((choice - 1) as nat) } else { None }
}

/// Picks the entry of a one-based menu choice, if it is on the menu.
pub fn choose_entry(choice: usize, len: usize) -> (index: Option<usize>)
    ensures
        index matches Some(i) ==> menu_index(choice as nat, len as nat) == Some(i as nat),
        index is None ==> menu_index(choice as nat, len as nat) is None,
        index == (if 1 <= choice <= len { Some((choice - 1) as usize) } else { None::<usize> }),
{
    if choice > 0 && choice <= len {
        Some(choice - 1)
    } else {
        None
    }
}

/// The address at which the user of a one-based menu choice serves pictures,
/// or nothing when the choice is not on the menu.
pub open spec fn chosen_peer_of(users: Seq<(Seq<char>, Seq<char>)>, choice: nat) -> Seq<char> {
    match menu_index(choice, users.len()) {
        Some(i) => users[i as int].0 + peer_port_suffix(),
        None => Seq::empty(),
    }
}

/// The user picked by choice `k` on the menu of `n` users is the `k`-th
/// listed, counting from one, and its address gets the peer port `:8085`;
/// a choice off the menu gives no address.
pub proof fn lemma_chosen_peer_is_listed_user(users: Seq<(Seq<char>, Seq<char>)>, choice: nat)
    ensures
        1 <= choice <= users.len() ==> chosen_peer_of(users, choice) == users[choice - 1].0 + seq![':', '8', '0', '8', '5'],
        !(1 <= choice <= users.len()) ==> chosen_peer_of(users, choice).len() == 0,
{
    assert(peer_port_suffix() =~= seq![':', '8', '0', '8', '5']);
}

/// Address of the peer picked by a one-based menu choice among `users`.
pub fn chosen_peer(users: &Vec<User>, choice: usize) -> (address: Vec<char>)
    ensures
        address@ == chosen_peer_of(users_model(users@), choice as nat),
        1 <= choice <= users@.len() ==> address@ == users@[choice - 1].address@ + seq![':', '8', '0', '8', '5'],
        !(1 <= choice <= users@.len()) ==> address@.len() == 0,
{
    let port: [char; 5] = [':', '8', '0', '8', '5'];
    assert(port@ =~= peer_port_suffix());
    let address = match choose_entry(choice, users.len()) {
        Some(i) => joined(users[i].address.as_slice(), port.as_slice()),
        None => Vec::new(),
    };
    proof {
        lemma_chosen_peer_is_listed_user(users_model(users@), choice as nat);
        if 1 <= choice <= users@.len() {
            assert(users_model(users@)[choice - 1] == user_model(users@[choice - 1]));
        }
    }
    address
}

/// The address at which the host of a client address serves pictures: the
/// text before its first `:` followed by the peer port.
pub open spec fn service_address_of(client: Seq<char>) -> Seq<char> {
    first_field(client) + peer_port_suffix()
}

/// Rewrites a client address to the address at which its host serves pictures.
pub fn service_address(client: &[char]) -> (address: Vec<char>)
    ensures
        address@ == service_address_of(client@),
        address@ == first_field(client@) + seq![':', '8', '0', '8', '5'],
{
    let port: [char; 5] = [':', '8', '0', '8', '5'];
    assert(port@ =~= peer_port_suffix());
    let host = before_colon(client);
    assert(peer_port_suffix() =~= seq![':', '8', '0', '8', '5']);
    joined(host.as_slice(), port.as_slice())
}

/// The host part of an address text: everything before its first `:`.
pub fn host_of(address: &[char]) -> (host: Vec<char>)
    ensures
        host@ == first_field(address@),
{
    before_colon(address)
}

/// The extension `Path::extension` finds in a file name: the text after its
/// last `.`, when that dot is not the name's first character.
pub open spec fn extension_of(name: Seq<char>) -> Option<Seq<char>> {
    if exists|k: int| 0 < k < name.len() && name[k] == '.' && forall|j: int| k < j < name.len() ==> name[j] != '.' {
        let k = choose|k: int| 0 < k < name.len() && name[k] == '.' && forall|j: int| k < j < name.len() ==> name[j] != '.';
        Some(name.skip(k + 1))
    } else {
        None
    }
}

pub open spec fn png_text() -> Seq<char> {
    seq!['p', 'n', 'g']
}

/// Whether `Path::extension` of a file name is `png`.
pub fn has_png_extension(name: &[char]) -> (b: bool)
    ensures
        b == (extension_of(name@) == Some(png_text())),
{
    let n = name.len();
    let mut k: usize = n;
    while k > 0 && name[k - 1] != '.'
        invariant
            k <= n == name@.len(),
            forall|j: int| k <= j < n ==> name@[j] != '.',
        decreases k,
    {
        k = k - 1;
    }
    if k <= 1 {
        proof {
            if exists|d: int| 0 < d < name@.len() && name@[d] == '.' && forall|j: int| d < j < name@.len() ==> name@[j] != '.' {
                let d = choose|d: int| 0 < d < name@.len() && name@[d] == '.' && forall|j: int| d < j < name@.len() ==> name@[j] != '.';
                if k == 1 {
                    assert(name@[0] == '.');
                    assert(d >= 1);
                    assert(false);
                }
                assert(false);
            }
        }
        return false;
    }
    let dot = k - 1;
    proof {
        let d = choose|d: int| 0 < d < name@.len() && name@[d] == '.' && forall|j: int| d < j < name@.len() ==> name@[j] != '.';
        assert(0 < dot && name@[dot as int] == '.');
        if d < dot {
            assert(name@[dot as int] != '.');
        }
        if d > dot {
            assert(name@[d] != '.');
        }
        assert(d == dot);
    }
    let png: [char; 3] = ['p', 'n', 'g'];
    assert(png@ =~= png_text());
    let after = n - k;
    if after != 3 {
        assert(name@.skip(k as int).len() != png_text().len());
        return false;
    }
    let same = name[k] == 'p' && name[k + 1] == 'n' && name[k + 2] == 'g';
    if same {
        assert(name@.skip(k as int) =~= png_text());
    } else {
        assert(name@.skip(k as int) != png_text()) by {
            if name@.skip(k as int) == png_text() {
                assert(name@.skip(k as int)[0] == 'p');
                assert(name@.skip(k as int)[1] == 'n');
                assert(name@.skip(k as int)[2] == 'g');
            }
        }
    }
    same
}

pub open spec fn png_suffix() -> Seq<char> {
    seq!['.', 'p', 'n', 'g']
}

/// Whether a stored picture belongs to a peer: its name ends with `.png` and
/// contains the peer's address.
pub fn is_picture_of_peer(name: &[char], peer: &[char]) -> (b: bool)
    ensures
        b == (has_suffix(name@, png_suffix()) && contains_text(name@, peer@)),
{
    let suffix: [char; 4] = ['.', 'p', 'n', 'g'];
    assert(suffix@ =~= png_suffix());
    ends_with_text(name, suffix.as_slice()) && contains(name, peer)
}

} // verus!
