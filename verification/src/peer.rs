use vstd::prelude::*;
use crate::text::{all_white, lemma_trim_white_head, lemma_trim_white_tail, trim, trimmed};
use crate::wire::{begins_with, has_prefix, starts_with_bytes};

verus! {

/// What another peer asks of a peer that offers its pictures.
pub enum OfferRequest {
    /// `New...`: the owner grants more views to a client it served.
    GrantViews,
    /// `Sig...`: views were granted for pictures received from the sender.
    ReceiveViews,
    /// Anything else: send the catalog of own pictures.
    Catalog,
}

pub open spec fn new_prefix() -> Seq<u8> {
    seq![0x4eu8, 0x65u8, 0x77u8]
}

pub open spec fn sig_prefix() -> Seq<u8> {
    seq![0x53u8, 0x69u8, 0x67u8]
}

/// The request an offering peer reads in a datagram.
pub open spec fn offer_request_of(message: Seq<u8>) -> OfferRequest {
    if has_prefix(message, new_prefix()) {
        OfferRequest::GrantViews
    } else if has_prefix(message, sig_prefix()) {
        OfferRequest::ReceiveViews
    } else {
        OfferRequest::Catalog
    }
}

/// An offering peer reads `New` and `Sig` only where the message begins
/// with that whole word; every other message asks for the catalog.
pub proof fn lemma_offer_reads_whole_words(message: Seq<u8>)
    ensures
        offer_request_of(message) is GrantViews <==> begins_with(message, seq![0x4eu8, 0x65u8, 0x77u8]),
        offer_request_of(message) is ReceiveViews <==> begins_with(message, seq![0x53u8, 0x69u8, 0x67u8]),
        offer_request_of(message) is Catalog <==> !begins_with(message, seq![0x4eu8, 0x65u8, 0x77u8])
            && !begins_with(message, seq![0x53u8, 0x69u8, 0x67u8]),
{
    let new = seq![0x4eu8, 0x65u8, 0x77u8];
    let sig = seq![0x53u8, 0x69u8, 0x67u8];
    assert(new =~= new_prefix());
    assert(sig =~= sig_prefix());
    if message.len() >= 3 {
        assert(begins_with(message, new) <==> message.take(3) =~= new);
        assert(begins_with(message, sig) <==> message.take(3) =~= sig);
    }
    if has_prefix(message, new_prefix()) {
        assert(message.take(3)[0] == message[0]);
    }
}

/// Classifies a datagram sent to an offering peer by its first bytes.
pub fn classify_offer_request(message: &[u8]) -> (r: OfferRequest)
    ensures
        r == offer_request_of(message@),
        r is GrantViews <==> begins_with(message@, seq![0x4eu8, 0x65u8, 0x77u8]),
        r is ReceiveViews <==> begins_with(message@, seq![0x53u8, 0x69u8, 0x67u8]),
{
    let new: [u8; 3] = [0x4e, 0x65, 0x77];
    let sig: [u8; 3] = [0x53, 0x69, 0x67];
    assert(new@ =~= new_prefix());
    assert(sig@ =~= sig_prefix());
    proof {
        lemma_offer_reads_whole_words(message@);
    }
    if starts_with_bytes(message, new.as_slice()) {
        OfferRequest::GrantViews
    } else if starts_with_bytes(message, sig.as_slice()) {
        OfferRequest::ReceiveViews
    } else {
        OfferRequest::Catalog
    }
}

/// What another peer asks of a peer listening for clients.
pub enum ListenerRequest {
    /// `VIEWS...`: a client asks for more views.
    ViewsAsked,
    /// `UPDATE...`: the owner grants more views to a client it served.
    GrantViews,
    /// `IGET...`: views were granted for pictures received from the sender.
    ReceiveViews,
    /// Anything else: send the catalog of own pictures.
    Catalog,
}

pub open spec fn views_prefix() -> Seq<u8> {
    seq![0x56u8, 0x49u8, 0x45u8, 0x57u8, 0x53u8]
}

pub open spec fn update_prefix() -> Seq<u8> {
    seq![0x55u8, 0x50u8, 0x44u8, 0x41u8, 0x54u8, 0x45u8]
}

pub open spec fn iget_prefix() -> Seq<u8> {
    seq![0x49u8, 0x47u8, 0x45u8, 0x54u8]
}

/// The request a listening peer reads in a datagram.
pub open spec fn listener_request_of(message: Seq<u8>) -> ListenerRequest {
    if has_prefix(message, views_prefix()) {
        ListenerRequest::ViewsAsked
    } else if has_prefix(message, update_prefix()) {
        ListenerRequest::GrantViews
    } else if has_prefix(message, iget_prefix()) {
        ListenerRequest::ReceiveViews
    } else {
        ListenerRequest::Catalog
    }
}

/// A listening peer reads `VIEWS`, `UPDATE` and `IGET` only where the message
/// begins with that whole word; every other message asks for the catalog.
pub proof fn lemma_listener_reads_whole_words(message: Seq<u8>)
    ensures
        listener_request_of(message) is ViewsAsked <==> begins_with(message, seq![0x56u8, 0x49u8, 0x45u8, 0x57u8, 0x53u8]),
        listener_request_of(message) is GrantViews <==> begins_with(message, seq![0x55u8, 0x50u8, 0x44u8, 0x41u8, 0x54u8, 0x45u8]),
        listener_request_of(message) is ReceiveViews <==> begins_with(message, seq![0x49u8, 0x47u8, 0x45u8, 0x54u8]),
        listener_request_of(message) is Catalog <==> !begins_with(message, seq![0x56u8, 0x49u8, 0x45u8, 0x57u8, 0x53u8])
            && !begins_with(message, seq![0x55u8, 0x50u8, 0x44u8, 0x41u8, 0x54u8, 0x45u8])
            && !begins_with(message, seq![0x49u8, 0x47u8, 0x45u8, 0x54u8]),
{
    let views = seq![0x56u8, 0x49u8, 0x45u8, 0x57u8, 0x53u8];
    let update = seq![0x55u8, 0x50u8, 0x44u8, 0x41u8, 0x54u8, 0x45u8];
    let iget = seq![0x49u8, 0x47u8, 0x45u8, 0x54u8];
    assert(views =~= views_prefix());
    assert(update =~= update_prefix());
    assert(iget =~= iget_prefix());
    if message.len() >= 5 {
        assert(begins_with(message, views) <==> message.take(5) =~= views);
    }
    if message.len() >= 6 {
        assert(begins_with(message, update) <==> message.take(6) =~= update);
    }
    if message.len() >= 4 {
        assert(begins_with(message, iget) <==> message.take(4) =~= iget);
    }
    if begins_with(message, views) {
        assert(message[0] == 0x56u8);
    }
    if begins_with(message, update) {
        assert(message[0] == 0x55u8);
    }
    if begins_with(message, iget) {
        assert(message[0] == 0x49u8);
    }
    if has_prefix(message, views_prefix()) {
        assert(message.take(5)[0] == message[0]);
    }
    if has_prefix(message, update_prefix()) {
        assert(message.take(6)[0] == message[0]);
    }
}

/// Classifies a datagram sent to a listening peer by its first bytes.
pub fn classify_listener_request(message: &[u8]) -> (r: ListenerRequest)
    ensures
        r == listener_request_of(message@),
        r is ViewsAsked <==> begins_with(message@, seq![0x56u8, 0x49u8, 0x45u8, 0x57u8, 0x53u8]),
        r is GrantViews <==> begins_with(message@, seq![0x55u8, 0x50u8, 0x44u8, 0x41u8, 0x54u8, 0x45u8]),
        r is ReceiveViews <==> begins_with(message@, seq![0x49u8, 0x47u8, 0x45u8, 0x54u8]),
{
    let views: [u8; 5] = [0x56, 0x49, 0x45, 0x57, 0x53];
    let update: [u8; 6] = [0x55, 0x50, 0x44, 0x41, 0x54, 0x45];
    let iget: [u8; 4] = [0x49, 0x47, 0x45, 0x54];
    assert(views@ =~= views_prefix());
    assert(update@ =~= update_prefix());
    assert(iget@ =~= iget_prefix());
    proof {
        lemma_listener_reads_whole_words(message@);
    }
    if starts_with_bytes(message, views.as_slice()) {
        ListenerRequest::ViewsAsked
    } else if starts_with_bytes(message, update.as_slice()) {
        ListenerRequest::GrantViews
    } else if starts_with_bytes(message, iget.as_slice()) {
        ListenerRequest::ReceiveViews
    } else {
        ListenerRequest::Catalog
    }
}

/// The owner's answer to whether a client gets more views.
pub enum ViewAnswer {
    /// `1`: give more views.
    Yes,
    /// `2`: give none.
    No,
    /// Anything else: ask again.
    Unclear,
}

/// The answer a typed line gives, once surrounding white space and the line
/// end are dropped.
pub open spec fn view_answer_of(line: Seq<char>) -> ViewAnswer {
    if trim(line) == seq!['1'] {
        ViewAnswer::Yes
    } else if trim(line) == seq!['2'] {
        ViewAnswer::No
    } else {
        ViewAnswer::Unclear
    }
}

/// The answer to a line is read from what it holds between white space:
/// white space before and after it (a line end among it) changes nothing, a
/// line that holds just `1` is a yes, just `2` a no, and anything else asks
/// again.
pub proof fn lemma_view_answer_ignores_white_space(before: Seq<char>, line: Seq<char>, after: Seq<char>)
    requires
        all_white(before),
        all_white(after),
    ensures
        view_answer_of(before + line + after) == view_answer_of(line),
        view_answer_of(before + seq!['1'] + after) is Yes,
        view_answer_of(before + seq!['2'] + after) is No,
{
    lemma_trim_white_tail(before + line, after);
    lemma_trim_white_head(before, line);
    lemma_trim_white_tail(before + seq!['1'], after);
    lemma_trim_white_head(before, seq!['1']);
    lemma_trim_white_tail(before + seq!['2'], after);
    lemma_trim_white_head(before, seq!['2']);
    assert(trim(seq!['1']) == seq!['1']) by {
        reveal_with_fuel(crate::text::trim_start, 2);
        reveal_with_fuel(crate::text::trim_end, 2);
    }
    assert(trim(seq!['2']) == seq!['2']) by {
        reveal_with_fuel(crate::text::trim_start, 2);
        reveal_with_fuel(crate::text::trim_end, 2);
    }
}

/// Reads the owner's yes/no answer from a typed line.
pub fn view_answer(line: &[char]) -> (a: ViewAnswer)
    ensures
        a == view_answer_of(line@),
        a is Yes <==> trim(line@) == seq!['1'],
        a is No <==> trim(line@) == seq!['2'],
{
    let t = trimmed(line);
    if t.len() == 1 && t[0] == '1' {
        assert(t@ =~= seq!['1']);
        ViewAnswer::Yes
    } else if t.len() == 1 && t[0] == '2' {
        assert(t@ =~= seq!['2']);
        ViewAnswer::No
    } else {
        assert(t@ != seq!['1']) by {
            if t@ == seq!['1'] {
                assert(t@[0] == '1');
            }
        }
        assert(t@ != seq!['2']) by {
            if t@ == seq!['2'] {
                assert(t@[0] == '2');
            }
        }
        ViewAnswer::Unclear
    }
}

} // verus!
