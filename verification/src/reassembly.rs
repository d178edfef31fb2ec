use vstd::prelude::*;
use vstd::std_specs::iter::IteratorSpec;
use std::collections::BTreeMap;
use crate::fragment::{
    Fragment, chunk_count, fragment_count, fragment_model, fragments_of, piece, position_of,
    positions_fit, lemma_chunk_bounds,
};
use crate::padding::{remove_trailing_zeros, strip_trailing_zeros, zeros};

verus! {

/// The pieces held by a store, each key mapped to the bytes of its piece.
pub open spec fn chunk_model(m: Map<i16, Vec<u8>>) -> Map<i16, Seq<u8>> {
    m.map_values(|v: Vec<u8>| v@)
}

/// The bytes stored under `key`, or nothing when the key is absent.
pub open spec fn bytes_at(m: Map<i16, Seq<u8>>, key: int) -> Seq<u8> {
    if m.contains_key(key as i16) { m[key as i16] } else { Seq::empty() }
}

/// Concatenation of the pieces whose keys lie in `[lo, hi)`, in increasing key order.
pub open spec fn concat_range(m: Map<i16, Seq<u8>>, lo: int, hi: int) -> Seq<u8>
    decreases hi - lo,
{
    if hi <= lo {
        Seq::empty()
    } else {
        concat_range(m, lo, hi - 1) + bytes_at(m, hi - 1)
    }
}

/// All stored pieces concatenated in increasing key order.
pub open spec fn assembled(m: Map<i16, Seq<u8>>) -> Seq<u8> {
    concat_range(m, i16::MIN as int, i16::MAX as int + 1)
}

/// Concatenation of the values of a sequence of map entries, in sequence order.
pub open spec fn entries_concat(s: Seq<(&i16, &Vec<u8>)>) -> Seq<u8>
    decreases s.len(),
{
    if s.len() == 0 {
        Seq::empty()
    } else {
        entries_concat(s.drop_last()) + s.last().1@
    }
}

/// A sequence of entries, sorted by strictly increasing keys, that lists
/// exactly the entries of `m` with keys in `[lo, hi)` concatenates to the
/// pieces of that key range.
proof fn lemma_sorted_entries_concat(m: Map<i16, Vec<u8>>, s: Seq<(&i16, &Vec<u8>)>, lo: int, hi: int)
    requires
        i16::MIN <= lo,
        hi <= i16::MAX + 1,
        forall|i: int, j: int| 0 <= i < j < s.len() ==> *s[i].0 < *s[j].0,
        forall|i: int| #![trigger s[i]] 0 <= i < s.len() ==> lo <= *s[i].0 < hi,
        forall|i: int| #![trigger s[i]] 0 <= i < s.len() ==> m.contains_key(*s[i].0) && m[*s[i].0] == *s[i].1,
        forall|k: i16| #![trigger m.contains_key(k)] lo <= k < hi && m.contains_key(k) ==> exists|i: int| #![trigger s[i]] 0 <= i < s.len() && *s[i].0 == k,
    ensures
        entries_concat(s) == concat_range(chunk_model(m), lo, hi),
    decreases hi - lo,
{
    let cm = chunk_model(m);
    if hi <= lo {
        if s.len() > 0 {
            assert(lo <= *s[0].0 < hi);
        }
    } else {
        let top = hi - 1;
        if s.len() > 0 && *s.last().0 == top {
            let t = s.drop_last();
            assert forall|k: i16| lo <= k < top && m.contains_key(k) implies exists|i: int|
                #![trigger t[i]] 0 <= i < t.len() && *t[i].0 == k by {
                let i = choose|i: int| 0 <= i < s.len() && *s[i].0 == k;
                assert(*t[i].0 == k);
            }
            assert forall|i: int| #![trigger t[i]] 0 <= i < t.len() implies lo <= *t[i].0 < top by {
                assert(*s[i].0 < *s[s.len() - 1].0);
            }
            lemma_sorted_entries_concat(m, t, lo, top);
            assert(top as i16 == *s.last().0);
            assert(bytes_at(cm, top) == s.last().1@);
        } else {
            assert forall|i: int| #![trigger s[i]] 0 <= i < s.len() implies lo <= *s[i].0 < top by {
                if i < s.len() - 1 {
                    assert(*s[i].0 < *s[s.len() - 1].0);
                }
            }
            if cm.contains_key(top as i16) {
                let i = choose|i: int| 0 <= i < s.len() && *s[i].0 == top as i16;
                assert(false);
            }
            lemma_sorted_entries_concat(m, s, lo, top);
            assert(bytes_at(cm, top) =~= Seq::<u8>::empty());
            assert(concat_range(cm, lo, hi) =~= concat_range(cm, lo, top));
        }
    }
}

/// Concatenates the pieces of `chunks` in increasing key order.
pub fn assemble(chunks: &BTreeMap<i16, Vec<u8>>) -> (out: Vec<u8>)
    ensures
        out@ == assembled(chunk_model(chunks@)),
{
    let mut out: Vec<u8> = Vec::new();
    let iter = chunks.iter();
    let ghost entries = iter.remaining();
    proof {
        crate::order::lemma_btree_entries_increasing(entries);
    }
    for entry in it: iter
        invariant
            it.seq() == entries,
            out@ == entries_concat(entries.take(it.index() as int)),
    {
        let (_key, value) = entry;
        let mut p: usize = 0;
        let ghost before = out@;
        while p < value.len()
            invariant
                p <= value@.len(),
                out@ == before + value@.take(p as int),
            decreases value@.len() - p,
        {
            out.push(value[p]);
            p = p + 1;
            assert(out@ =~= before + value@.take(p as int));
        }
        assert(value@.take(p as int) =~= value@);
        assert(entries.take(it.index() + 1).drop_last() =~= entries.take(it.index() as int));
    }
    proof {
        assert(entries.take(entries.len() as int) =~= entries);
        assert forall|k: i16| i16::MIN <= k < i16::MAX + 1 && chunks@.contains_key(k) implies exists|i: int|
            #![trigger entries[i]] 0 <= i < entries.len() && *entries[i].0 == k by {
            assert(entries.contains((&k, &chunks@[k])));
        }
        lemma_sorted_entries_concat(chunks@, entries, i16::MIN as int, i16::MAX as int + 1);
    }
    out
}

/// Progress of a receiver that keys each piece by its arrival: the piece that
/// arrives when one fragment is still missing, by the count the sender
/// announced, is stored under that count; every other piece under its position.
pub struct ArrivalReassembly {
    received: usize,
    expected: usize,
    chunks: BTreeMap<i16, Vec<u8>>,
}

/// Model of an `ArrivalReassembly`.
pub struct ReassemblyView {
    /// Fragments accepted so far.
    pub received: nat,
    /// Fragments the receiver waits for.
    pub expected: nat,
    /// Stored pieces by key.
    pub chunks: Map<i16, Seq<u8>>,
}

impl View for ArrivalReassembly {
    type V = ReassemblyView;

    closed spec fn view(&self) -> ReassemblyView {
        ReassemblyView {
            received: self.received as nat,
            expected: self.expected as nat,
            chunks: chunk_model(self.chunks@),
        }
    }
}

/// Key under which an arriving fragment is stored.
pub open spec fn arrival_key(received: nat, total: nat, position: int) -> int {
    if received + 1 == total { total as int } else { position }
}

/// One accepted fragment: the receiver adopts the announced total, stores the
/// piece under its arrival key and counts it.
pub open spec fn arrival_step(s: ReassemblyView, f: (nat, int, Seq<u8>, u8)) -> ReassemblyView {
    ReassemblyView {
        received: s.received + 1,
        expected: f.0,
        chunks: s.chunks.insert(arrival_key(s.received, f.0, f.1) as i16, f.2),
    }
}

/// The state after accepting the fragments `fs` one after the other.
pub open spec fn arrivals(s: ReassemblyView, fs: Seq<(nat, int, Seq<u8>, u8)>) -> ReassemblyView
    decreases fs.len(),
{
    if fs.len() == 0 {
        s
    } else {
        arrival_step(arrivals(s, fs.drop_last()), fs.last())
    }
}

/// The receiver waits for more fragments while fewer than expected arrived.
pub open spec fn awaiting(s: ReassemblyView) -> bool {
    s.received < s.expected
}

/// Whether a fragment can be accepted in state `s` without the arithmetic on
/// its announced total failing.
pub open spec fn acceptable(s: ReassemblyView, f: (nat, int, Seq<u8>, u8)) -> bool {
    &&& f.0 >= 1
    &&& s.received + 1 == f.0 ==> f.0 <= i16::MAX
}

impl ArrivalReassembly {
    /// A receiver that waits for `expected` fragments and holds none.
    pub fn new(expected: usize) -> (r: Self)
        ensures
            r@.received == 0,
            r@.expected == expected,
            r@.chunks == Map::<i16, Seq<u8>>::empty(),
    {
        let r = ArrivalReassembly { received: 0, expected, chunks: BTreeMap::new() };
        assert(chunk_model(r.chunks@) =~= Map::<i16, Seq<u8>>::empty());
        r
    }

    /// Whether fewer fragments than expected have arrived.
    pub fn is_awaiting(&self) -> (b: bool)
        ensures
            b == awaiting(self@),
    {
        self.received < self.expected
    }

    /// Number of fragments accepted so far.
    pub fn received(&self) -> (n: usize)
        ensures
            n == self@.received,
    {
        self.received
    }

    /// Whether `frag` can be accepted without the arithmetic on its announced
    /// total failing: the total is at least one, and fits a position key when
    /// this fragment would be the last.
    pub fn can_accept(&self, frag: &Fragment) -> (b: bool)
        ensures
            b == acceptable(self@, fragment_model(*frag)),
    {
        let total = frag.total_frags_number;
        total >= 1 && (self.received != total - 1 || total <= 32767)
    }

    /// Accepts the next fragment.
    pub fn accept(&mut self, frag: Fragment)
        requires
            awaiting(old(self)@),
            acceptable(old(self)@, fragment_model(frag)),
        ensures
            final(self)@ == arrival_step(old(self)@, fragment_model(frag)),
    {
        let total = frag.total_frags_number;
        let key: i16 = if self.received == total - 1 {
            total as i16
        } else {
            frag.position
        };
        let ghost old_chunks = self.chunks@;
        let ghost packet = frag.packet@;
        self.chunks.insert(key, frag.packet);
        self.expected = total;
        self.received = self.received + 1;
        assert(chunk_model(self.chunks@) =~= chunk_model(old_chunks).insert(key, packet));
    }

    /// Starts over for the next picture: forgets every stored piece and the
    /// count of accepted fragments, and keeps waiting for the last announced total.
    pub fn restart(&mut self)
        ensures
            final(self)@ == (ReassemblyView {
                received: 0,
                expected: old(self)@.expected,
                chunks: Map::empty(),
            }),
    {
        self.chunks.clear();
        self.received = 0;
        assert(chunk_model(self.chunks@) =~= Map::<i16, Seq<u8>>::empty());
    }

    /// The picture: the stored pieces in key order, without trailing zero bytes.
    pub fn finish(&self) -> (picture: Vec<u8>)
        ensures
            picture@ == strip_trailing_zeros(assembled(self@.chunks)),
    {
        let mut picture = assemble(&self.chunks);
        remove_trailing_zeros(&mut picture);
        picture
    }
}

/// Concatenating a key range is concatenating its two halves.
pub proof fn lemma_concat_range_split(m: Map<i16, Seq<u8>>, lo: int, mid: int, hi: int)
    requires
        lo <= mid <= hi,
    ensures
        concat_range(m, lo, hi) == concat_range(m, lo, mid) + concat_range(m, mid, hi),
    decreases hi - mid,
{
    if hi == mid {
        assert(concat_range(m, mid, hi) =~= Seq::<u8>::empty());
        assert(concat_range(m, lo, mid) + Seq::<u8>::empty() =~= concat_range(m, lo, mid));
    } else {
        lemma_concat_range_split(m, lo, mid, hi - 1);
        assert(concat_range(m, lo, hi) =~= concat_range(m, lo, mid) + concat_range(m, mid, hi));
    }
}

/// A key range that holds no piece concatenates to nothing.
pub proof fn lemma_concat_range_absent(m: Map<i16, Seq<u8>>, lo: int, hi: int)
    requires
        i16::MIN <= lo,
        hi <= i16::MAX + 1,
        forall|k: int| lo <= k < hi ==> !m.contains_key(#[trigger] (k as i16)),
    ensures
        concat_range(m, lo, hi) == Seq::<u8>::empty(),
    decreases hi - lo,
{
    if lo < hi {
        lemma_concat_range_absent(m, lo, hi - 1);
        assert(!m.contains_key((hi - 1) as i16));
        assert(concat_range(m, lo, hi) =~= Seq::<u8>::empty());
    }
}

/// Fragments labelled as a sender labels the pieces of one picture: there is
/// at least one, their number fits a position key, each announces their
/// number, and the `i`-th carries position `i`, or the last-piece marker when
/// it is the announced last one.
pub open spec fn labelled(fs: Seq<(nat, int, Seq<u8>, u8)>) -> bool {
    &&& 1 <= fs.len() <= i16::MAX
    &&& forall|i: int| 0 <= i < fs.len() ==> (#[trigger] fs[i]).0 == fs.len() && fs[i].1 == position_of(i, fs.len())
}

/// The bytes the fragments carry, in order.
pub open spec fn packets_concat(fs: Seq<(nat, int, Seq<u8>, u8)>) -> Seq<u8>
    decreases fs.len(),
{
    if fs.len() == 0 {
        Seq::empty()
    } else {
        packets_concat(fs.drop_last()) + fs.last().2
    }
}

/// The pieces a receiver holds after the first `n` labelled fragments `fs`
/// arrived in order: each piece under its index, except the last one, which
/// is held under the number of fragments.
pub open spec fn packets_map(fs: Seq<(nat, int, Seq<u8>, u8)>, n: nat) -> Map<i16, Seq<u8>> {
    let c = fs.len();
    Map::new(
        |key: i16| (0 <= key < n && key + 1 < c) || (n == c && key == c),
        |key: i16| if key == c { fs[c - 1].2 } else { fs[key as int].2 },
    )
}

/// The state of an in-order receiver after the first `n` labelled fragments.
proof fn lemma_arrival_prefix(fs: Seq<(nat, int, Seq<u8>, u8)>, expected: nat, n: nat)
    requires
        labelled(fs),
        n <= fs.len(),
    ensures
        ({
            let init = ReassemblyView { received: 0, expected, chunks: Map::empty() };
            let s = arrivals(init, fs.take(n as int));
            &&& s.received == n
            &&& s.expected == if n == 0 { expected } else { fs.len() }
            &&& s.chunks == packets_map(fs, n)
            &&& forall|i: int| 0 <= i < n ==> acceptable(arrivals(init, fs.take(i)), #[trigger] fs[i])
        }),
    decreases n,
{
    let c = fs.len();
    let init = ReassemblyView { received: 0, expected, chunks: Map::empty() };
    if n == 0 {
        assert(fs.take(0) =~= Seq::<(nat, int, Seq<u8>, u8)>::empty());
        assert(packets_map(fs, 0) =~= Map::<i16, Seq<u8>>::empty());
    } else {
        let m = (n - 1) as nat;
        lemma_arrival_prefix(fs, expected, m);
        assert(fs.take(n as int).drop_last() =~= fs.take(m as int));
        let f = fs[m as int];
        assert(f.0 == c && f.1 == position_of(m as int, c));
        let key = arrival_key(m, c, f.1);
        assert(key == if m + 1 == c { c as int } else { m as int });
        assert(packets_map(fs, n) =~= packets_map(fs, m).insert(key as i16, f.2));
        assert(acceptable(arrivals(init, fs.take(m as int)), f));
    }
}

/// The pieces below the last one concatenate to the bytes of the matching
/// fragments.
proof fn lemma_packets_prefix(fs: Seq<(nat, int, Seq<u8>, u8)>, x: nat)
    requires
        labelled(fs),
        x + 1 <= fs.len(),
    ensures
        concat_range(packets_map(fs, fs.len()), 0, x as int) == packets_concat(fs.take(x as int)),
    decreases x,
{
    let m = packets_map(fs, fs.len());
    if x == 0 {
        assert(fs.take(0) =~= Seq::<(nat, int, Seq<u8>, u8)>::empty());
    } else {
        lemma_packets_prefix(fs, (x - 1) as nat);
        assert(fs.take(x as int).drop_last() =~= fs.take(x - 1));
        assert(bytes_at(m, x - 1) == fs[x - 1].2);
    }
}

/// A receiver that got all labelled fragments in order holds pieces that
/// concatenate, in key order, to the bytes the fragments carry.
pub proof fn lemma_packets_assemble(fs: Seq<(nat, int, Seq<u8>, u8)>)
    requires
        labelled(fs),
    ensures
        assembled(packets_map(fs, fs.len())) == packets_concat(fs),
{
    let c = fs.len();
    let ci = c as int;
    let m = packets_map(fs, c);
    lemma_packets_prefix(fs, (c - 1) as nat);
    lemma_concat_range_split(m, i16::MIN as int, 0, i16::MAX as int + 1);
    lemma_concat_range_split(m, 0, ci - 1, i16::MAX as int + 1);
    lemma_concat_range_split(m, ci - 1, ci, i16::MAX as int + 1);
    lemma_concat_range_split(m, ci, ci + 1, i16::MAX as int + 1);
    lemma_concat_range_absent(m, i16::MIN as int, 0);
    lemma_concat_range_absent(m, ci + 1, i16::MAX as int + 1);
    lemma_concat_range_absent(m, ci - 1, ci);
    assert(concat_range(m, ci, ci + 1) =~= fs[ci - 1].2) by {
        assert(concat_range(m, ci, ci) =~= Seq::<u8>::empty());
        assert(bytes_at(m, ci) == fs[ci - 1].2);
    }
    assert(fs.drop_last() =~= fs.take(ci - 1));
    assert(assembled(m) =~= packets_concat(fs));
}

/// The fragments a sender makes of a picture whose length is not a multiple
/// of the piece size are labelled, and carry the picture's bytes.
pub proof fn lemma_fragments_labelled(data: Seq<u8>, k: nat, views: u8)
    requires
        k > 0,
        data.len() % k != 0,
        fragment_count(data.len(), k) <= i16::MAX,
    ensures
        labelled(fragments_of(data, k, views)),
        packets_concat(fragments_of(data, k, views)) == data,
{
    let c = chunk_count(data.len(), k);
    let fs = fragments_of(data, k, views);
    lemma_chunk_bounds(data.len(), k, 0);
    lemma_chunk_bounds(data.len(), k, (c - 1) as nat);
    lemma_fragment_bytes_prefix(data, k, views, (c - 1) as nat);
    assert(c * k == (c - 1) * k + k) by (nonlinear_arith);
    assert(fs[c - 1].2 =~= data.subrange((c - 1) * k, data.len() as int));
    assert(fs.drop_last() =~= fs.take(c - 1));
    assert(data.take((c - 1) * k) + data.subrange((c - 1) * k, data.len() as int) =~= data);
}

proof fn lemma_fragment_bytes_prefix(data: Seq<u8>, k: nat, views: u8, x: nat)
    requires
        k > 0,
        x + 1 <= chunk_count(data.len(), k),
    ensures
        packets_concat(fragments_of(data, k, views).take(x as int)) == data.take((x * k) as int),
    decreases x,
{
    let c = chunk_count(data.len(), k);
    let fs = fragments_of(data, k, views);
    if x == 0 {
        assert(fs.take(0) =~= Seq::<(nat, int, Seq<u8>, u8)>::empty());
        assert(data.take(0) =~= Seq::<u8>::empty());
    } else {
        lemma_fragment_bytes_prefix(data, k, views, (x - 1) as nat);
        lemma_chunk_bounds(data.len(), k, (c - 1) as nat);
        assert(x * k == (x - 1) * k + k) by (nonlinear_arith);
        assert(x * k <= (c - 1) * k) by (nonlinear_arith)
            requires
                x <= c - 1,
        ;
        assert(fs.take(x as int).drop_last() =~= fs.take(x - 1));
        assert(data.take((x - 1) * k) + piece(data, k, x - 1) =~= data.take((x * k) as int));
    }
}

/// Fragments of a picture whose length is not a multiple of the piece size,
/// accepted in the order they were sent, give the picture back: the receiver
/// accepts each of them, waits until the last one, stops right after it, and
/// the stored pieces in key order are exactly the picture's bytes.
pub proof fn lemma_arrival_round_trip(data: Seq<u8>, k: nat, views: u8, expected: nat)
    requires
        k > 0,
        data.len() % k != 0,
        fragment_count(data.len(), k) <= i16::MAX,
        expected > 0,
    ensures
        ({
            let fs = fragments_of(data, k, views);
            let init = ReassemblyView { received: 0, expected, chunks: Map::empty() };
            &&& forall|i: int| 0 <= i < fs.len() ==> awaiting(#[trigger] arrivals(init, fs.take(i)))
                && acceptable(arrivals(init, fs.take(i)), fs[i])
            &&& !awaiting(arrivals(init, fs))
            &&& assembled(arrivals(init, fs).chunks) == data
        }),
{
    let fs = fragments_of(data, k, views);
    let init = ReassemblyView { received: 0, expected, chunks: Map::empty() };
    lemma_fragments_labelled(data, k, views);
    lemma_arrival_prefix(fs, expected, fs.len());
    assert(fs.take(fs.len() as int) =~= fs);
    assert forall|i: int| 0 <= i < fs.len() implies awaiting(#[trigger] arrivals(init, fs.take(i)))
        && acceptable(arrivals(init, fs.take(i)), fs[i]) by {
        lemma_arrival_prefix(fs, expected, i as nat);
    }
    lemma_packets_assemble(fs);
}

/// What a sender that pads every piece to the full piece size emits.
pub open spec fn padded_fragments_of(data: Seq<u8>, k: nat, views: u8) -> Seq<(nat, int, Seq<u8>, u8)> {
    fragments_of(data, k, views).map_values(
        |f: (nat, int, Seq<u8>, u8)| (f.0, f.1, f.2 + zeros((k - f.2.len()) as nat), f.3),
    )
}

/// Padded fragments accepted in the order they were sent give the picture
/// back once the receiver removes trailing zero bytes, as `finish` does; only
/// trailing zero bytes of the picture itself are lost.
pub proof fn lemma_padded_arrival_round_trip(data: Seq<u8>, k: nat, views: u8, expected: nat)
    requires
        k > 0,
        data.len() % k != 0,
        fragment_count(data.len(), k) <= i16::MAX,
        expected > 0,
    ensures
        ({
            let fs = padded_fragments_of(data, k, views);
            let init = ReassemblyView { received: 0, expected, chunks: Map::empty() };
            &&& forall|i: int| 0 <= i < fs.len() ==> awaiting(#[trigger] arrivals(init, fs.take(i)))
                && acceptable(arrivals(init, fs.take(i)), fs[i])
            &&& !awaiting(arrivals(init, fs))
            &&& strip_trailing_zeros(assembled(arrivals(init, fs).chunks)) == strip_trailing_zeros(data)
        }),
{
    let c = chunk_count(data.len(), k);
    let plain = fragments_of(data, k, views);
    let fs = padded_fragments_of(data, k, views);
    let init = ReassemblyView { received: 0, expected, chunks: Map::empty() };
    lemma_fragments_labelled(data, k, views);
    lemma_chunk_bounds(data.len(), k, 0);
    lemma_chunk_bounds(data.len(), k, (c - 1) as nat);
    assert forall|i: int| 0 <= i < c - 1 implies (#[trigger] fs[i]).2 == plain[i].2 by {
        lemma_padding_keeps_full_pieces(data, k, views, i);
    }
    let pad = (k - plain[c - 1].2.len()) as nat;
    assert(c * k == (c - 1) * k + k) by (nonlinear_arith);
    assert(plain[c - 1].2.len() <= k);
    assert(labelled(fs));
    assert(fs.drop_last() =~= plain.drop_last());
    assert(packets_concat(fs) =~= packets_concat(plain) + zeros(pad));
    lemma_arrival_prefix(fs, expected, fs.len());
    assert(fs.take(fs.len() as int) =~= fs);
    assert forall|i: int| 0 <= i < fs.len() implies awaiting(#[trigger] arrivals(init, fs.take(i)))
        && acceptable(arrivals(init, fs.take(i)), fs[i]) by {
        lemma_arrival_prefix(fs, expected, i as nat);
    }
    lemma_packets_assemble(fs);
    crate::padding::lemma_strip_ignores_appended_zeros(data, pad);
}

/// Every piece before the last one is full, so padding leaves it as it is.
proof fn lemma_padding_keeps_full_pieces(data: Seq<u8>, k: nat, views: u8, i: int)
    requires
        k > 0,
        0 <= i < chunk_count(data.len(), k) - 1,
    ensures
        padded_fragments_of(data, k, views)[i] == fragments_of(data, k, views)[i],
{
    let c = chunk_count(data.len(), k);
    let plain = fragments_of(data, k, views);
    lemma_chunk_bounds(data.len(), k, (c - 1) as nat);
    assert((i + 1) * k == i * k + k) by (nonlinear_arith);
    assert((i + 1) * k <= (c - 1) * k) by (nonlinear_arith)
        requires
            i + 1 <= c - 1,
    ;
    assert(plain[i].2.len() == k);
    assert(plain[i].2 + zeros(0) =~= plain[i].2);
}

/// The padded packets a sender emits for `data`, concatenated in sending
/// order, are `data` followed by the zero bytes that fill its last piece; so
/// removing trailing zero bytes from them gives what removing them from
/// `data` gives.
pub proof fn lemma_padded_packets_concat(data: Seq<u8>, k: nat, views: u8)
    requires
        k > 0,
    ensures
        padded_fragments_of(data, k, views).len() == chunk_count(data.len(), k),
        chunk_count(data.len(), k) * k >= data.len(),
        packets_concat(padded_fragments_of(data, k, views)) == data + zeros(
            (chunk_count(data.len(), k) * k - data.len()) as nat,
        ),
        strip_trailing_zeros(packets_concat(padded_fragments_of(data, k, views)))
            == strip_trailing_zeros(data),
{
    let c = chunk_count(data.len(), k);
    let plain = fragments_of(data, k, views);
    let fs = padded_fragments_of(data, k, views);
    lemma_chunk_bounds(data.len(), k, 0);
    let pad = (c * k - data.len()) as nat;
    if c == 0 {
        assert(data.len() == 0);
        assert(fs =~= Seq::<(nat, int, Seq<u8>, u8)>::empty());
        assert(data + zeros(pad) =~= Seq::<u8>::empty());
    } else {
        lemma_chunk_bounds(data.len(), k, (c - 1) as nat);
        lemma_fragment_bytes_prefix(data, k, views, (c - 1) as nat);
        assert forall|i: int| 0 <= i < c - 1 implies #[trigger] fs[i] == plain[i] by {
            lemma_padding_keeps_full_pieces(data, k, views, i);
        }
        assert(fs.drop_last() =~= plain.take(c - 1));
        assert(c * k == (c - 1) * k + k) by (nonlinear_arith);
        assert(plain[c - 1].2 =~= data.subrange((c - 1) * k, data.len() as int));
        assert(data.take((c - 1) * k) + data.subrange((c - 1) * k, data.len() as int) =~= data);
        assert(packets_concat(fs) =~= data + zeros(pad));
    }
    crate::padding::lemma_strip_ignores_appended_zeros(data, pad);
}

} // verus!
