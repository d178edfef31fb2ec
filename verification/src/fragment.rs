use vstd::prelude::*;

verus! {

/// Number of payload bytes that every fragment but the last carries.
pub const FRAGMENT_SIZE: usize = 16384;

/// Position marker of the fragment announced as the last one.
pub const LAST_POSITION: i16 = -1;

/// One datagram-sized piece of a picture in transit.
pub struct Fragment {
    /// How many fragments the sender announced for the whole picture.
    pub total_frags_number: usize,
    /// Index of the piece, or `LAST_POSITION` for the announced last piece.
    pub position: i16,
    /// The bytes of the piece.
    pub packet: Vec<u8>,
    /// Number of times the receiver may view the picture.
    pub views: u8,
}

/// Number of fragments a sender announces for `len` bytes: one more than the
/// number of full pieces.
pub open spec fn fragment_count(len: nat, chunk_size: nat) -> nat
    recommends
        chunk_size > 0,
{
    len / chunk_size + 1
}

/// Number of pieces that `len` bytes are actually cut into.
pub open spec fn chunk_count(len: nat, chunk_size: nat) -> nat
    recommends
        chunk_size > 0,
{
    ((len + chunk_size - 1) as nat) / chunk_size
}

/// Bytes of the `i`-th piece of `data`.
pub open spec fn piece(data: Seq<u8>, chunk_size: nat, i: int) -> Seq<u8> {
    let start = i * chunk_size;
    let end = if (i + 1) * chunk_size <= data.len() { (i + 1) * chunk_size } else { data.len() as int };
    data.subrange(start, end)
}

/// Position given to the `i`-th piece when `total` fragments are announced.
pub open spec fn position_of(i: int, total: nat) -> int {
    if i == total - 1 { -1 } else { i }
}

/// Every position that is not the last-fragment marker fits an `i16`.
pub open spec fn positions_fit(len: nat, chunk_size: nat) -> bool {
    let c = chunk_count(len, chunk_size);
    ||| c <= 32768
    ||| (c == 32769 && c == fragment_count(len, chunk_size))
}

/// The model of a fragment: announced total, position, bytes and views.
pub open spec fn fragment_model(f: Fragment) -> (nat, int, Seq<u8>, u8) {
    (f.total_frags_number as nat, f.position as int, f.packet@, f.views)
}

/// What a sender emits for `data`: the `i`-th fragment carries the `i`-th piece.
pub open spec fn fragments_of(data: Seq<u8>, chunk_size: nat, views: u8) -> Seq<(nat, int, Seq<u8>, u8)> {
    let total = fragment_count(data.len(), chunk_size);
    Seq::new(
        chunk_count(data.len(), chunk_size),
        |i: int| (total, position_of(i, total), piece(data, chunk_size, i), views),
    )
}

pub proof fn lemma_chunk_bounds(len: nat, k: nat, i: nat)
    requires
        k > 0,
    ensures
        i < chunk_count(len, k) <==> i * k < len,
        chunk_count(len, k) * k >= len,
        chunk_count(len, k) <= fragment_count(len, k),
        len % k != 0 ==> chunk_count(len, k) == fragment_count(len, k),
        len % k == 0 ==> chunk_count(len, k) + 1 == fragment_count(len, k),
{
    let c = chunk_count(len, k);
    assert(c * k >= len && (c == 0 || (c - 1) * k < len)) by (nonlinear_arith)
        requires
            c == ((len + k - 1) as nat) / k,
            k > 0,
    ;
    assert(i < c <==> i * k < len) by (nonlinear_arith)
        requires
            c * k >= len,
            c == 0 || (c - 1) * k < len,
            k > 0,
    ;
    assert(len % k != 0 ==> c == len / k + 1) by (nonlinear_arith)
        requires
            c == ((len + k - 1) as nat) / k,
            k > 0,
    ;
    assert(len % k == 0 ==> c == len / k) by (nonlinear_arith)
        requires
            c == ((len + k - 1) as nat) / k,
            k > 0,
    ;
    assert(c <= len / k + 1) by (nonlinear_arith)
        requires
            c == ((len + k - 1) as nat) / k,
            k > 0,
    ;
}

/// Number of fragments a sender announces for `len` bytes.
pub fn announced_total(len: usize, chunk_size: usize) -> (total: usize)
    requires
        chunk_size > 0,
        len / chunk_size < usize::MAX,
    ensures
        total == fragment_count(len as nat, chunk_size as nat),
{
    len / chunk_size + 1
}

/// Whether `len` bytes can be cut into pieces of `chunk_size` bytes whose
/// positions all fit an `i16`.
pub fn fits_positions(len: usize, chunk_size: usize) -> (b: bool)
    requires
        chunk_size > 0,
    ensures
        b == positions_fit(len as nat, chunk_size as nat),
{
    proof {
        lemma_chunk_bounds(len as nat, chunk_size as nat, 0);
    }
    let full = len / chunk_size;
    let partial: usize = if len % chunk_size != 0 { 1 } else { 0 };
    assert(chunk_count(len as nat, chunk_size as nat) == full + partial) by (nonlinear_arith)
        requires
            full == len / chunk_size,
            partial == (if len % chunk_size != 0 { 1int } else { 0int }),
            chunk_size > 0,
    ;
    full <= 32768
}

/// Cuts `data` into pieces of `chunk_size` bytes and labels them as a sender
/// does: every fragment announces `len / chunk_size + 1` fragments, the piece
/// whose index is one less than that count is marked `LAST_POSITION`, and the
/// others carry their index.
pub fn split_into_fragments(data: &[u8], chunk_size: usize, views: u8) -> (frags: Vec<Fragment>)
    requires
        chunk_size > 0,
        positions_fit(data@.len(), chunk_size as nat),
    ensures
        frags@.map_values(|f: Fragment| fragment_model(f)) == fragments_of(data@, chunk_size as nat, views),
{
    let ghost k = chunk_size as nat;
    let ghost c = chunk_count(data@.len(), k);
    proof {
        lemma_chunk_bounds(data@.len(), k, 0);
    }
    let len = data.len();
    let total = len / chunk_size + 1;
    let mut frags: Vec<Fragment> = Vec::new();
    let mut offset: usize = 0;
    let mut index: usize = 0;
    while offset < len
        invariant
            k == chunk_size as nat,
            k > 0,
            len == data@.len(),
            c == chunk_count(len as nat, k),
            total == fragment_count(len as nat, k),
            positions_fit(len as nat, k),
            offset == (if index * k < len { index * k } else { len as int }),
            index <= c,
            frags@.len() == index,
            forall|j: int| 0 <= j < index ==> fragment_model(#[trigger] frags@[j])
                == fragments_of(data@, k, views)[j],
        decreases len - offset,
    {
        proof {
            lemma_chunk_bounds(len as nat, k, index as nat);
            lemma_chunk_bounds(len as nat, k, (index + 1) as nat);
        }
        let end: usize = if len - offset > chunk_size { offset + chunk_size } else { len };
        let mut packet: Vec<u8> = Vec::new();
        let mut p: usize = offset;
        while p < end
            invariant
                offset <= p <= end <= len,
                len == data@.len(),
                packet@ == data@.subrange(offset as int, p as int),
            decreases end - p,
        {
            packet.push(data[p]);
            p = p + 1;
            assert(packet@ =~= data@.subrange(offset as int, p as int));
        }
        let position: i16 = if index == total - 1 {
            LAST_POSITION
        } else {
            assert(index <= 32767);
            index as i16
        };
        assert((index + 1) * k == index * k + k) by (nonlinear_arith);
        assert(packet@ =~= piece(data@, k, index as int));
        frags.push(Fragment { total_frags_number: total, position, packet, views });
        offset = end;
        index = index + 1;
        assert(index * k == (index - 1) * k + k) by (nonlinear_arith);
    }
    proof {
        lemma_chunk_bounds(len as nat, k, index as nat);
    }
    assert(frags@.map_values(|f: Fragment| fragment_model(f)) =~= fragments_of(data@, k, views));
    frags
}

/// Fills `piece` with zero bytes up to `size` bytes, as a fixed-size packet.
pub fn pad_packet(piece: &[u8], size: usize) -> (packet: Vec<u8>)
    requires
        piece@.len() <= size,
    ensures
        packet@ == piece@ + crate::padding::zeros((size - piece@.len()) as nat),
{
    let mut packet: Vec<u8> = Vec::new();
    let mut i: usize = 0;
    while i < size
        invariant
            i <= size,
            piece@.len() <= size,
            packet@.len() == i,
            forall|j: int| 0 <= j < i ==> #[trigger] packet@[j] == if j < piece@.len() { piece@[j] } else { 0u8 },
        decreases size - i,
    {
        if i < piece.len() {
            packet.push(piece[i]);
        } else {
            packet.push(0);
        }
        i = i + 1;
    }
    assert(packet@ =~= piece@ + crate::padding::zeros((size - piece@.len()) as nat));
    packet
}

} // verus!
