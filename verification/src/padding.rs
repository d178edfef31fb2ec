use vstd::prelude::*;

verus! {

/// Length of the longest prefix of `s` that ends in a non-zero byte
/// (zero when every byte of `s` is zero).
pub open spec fn significant_len(s: Seq<u8>) -> nat
    decreases s.len(),
{
    if s.len() == 0 {
        0
    } else if s.last() != 0 {
        s.len()
    } else {
        significant_len(s.drop_last())
    }
}

/// `s` without its trailing zero bytes.
pub open spec fn strip_trailing_zeros(s: Seq<u8>) -> Seq<u8> {
    s.take(significant_len(s) as int)
}

/// A sequence of `n` zero bytes.
pub open spec fn zeros(n: nat) -> Seq<u8> {
    Seq::new(n, |i: int| 0u8)
}

pub proof fn lemma_significant_len_bounds(s: Seq<u8>)
    ensures
        significant_len(s) <= s.len(),
        significant_len(s) > 0 ==> s[significant_len(s) - 1] != 0,
        forall|i: int| significant_len(s) <= i < s.len() ==> s[i] == 0,
    decreases s.len(),
{
    if s.len() > 0 && s.last() == 0 {
        lemma_significant_len_bounds(s.drop_last());
        assert forall|i: int| significant_len(s) <= i < s.len() implies s[i] == 0 by {
            if i < s.len() - 1 {
                assert(s[i] == s.drop_last()[i]);
            }
        }
    }
}

/// Removes the trailing zero bytes of `data`, keeping everything up to and
/// including its last non-zero byte.
pub fn remove_trailing_zeros(data: &mut Vec<u8>)
    ensures
        final(data)@ == strip_trailing_zeros(old(data)@),
{
    let mut end: usize = data.len();
    assert(data@.take(end as int) =~= data@);
    while end > 0 && data[end - 1] == 0
        invariant
            end <= data.len(),
            significant_len(data@) == significant_len(data@.take(end as int)),
        decreases end,
    {
        assert(data@.take(end as int).drop_last() =~= data@.take(end - 1));
        end = end - 1;
    }
    assert(data@.take(end as int) =~= data@.subrange(0, end as int));
    proof {
        let t = data@.take(end as int);
        if end > 0 {
            assert(t.last() != 0);
        }
    }
    data.truncate(end);
}

/// Stripping is idempotent: a stripped sequence has no trailing zero left.
pub proof fn lemma_strip_idempotent(s: Seq<u8>)
    ensures
        strip_trailing_zeros(strip_trailing_zeros(s)) == strip_trailing_zeros(s),
{
    lemma_significant_len_bounds(s);
    let t = strip_trailing_zeros(s);
    if t.len() > 0 {
        assert(t.last() != 0);
    }
    assert(t.take(t.len() as int) =~= t);
}

/// Zero bytes appended to a sequence are exactly what stripping removes:
/// `strip(s ++ zeros(n)) == strip(s)`.
pub proof fn lemma_strip_ignores_appended_zeros(s: Seq<u8>, n: nat)
    ensures
        strip_trailing_zeros(s + zeros(n)) == strip_trailing_zeros(s),
    decreases n,
{
    if n > 0 {
        let longer = s + zeros(n);
        assert(longer.drop_last() =~= s + zeros((n - 1) as nat));
        lemma_strip_ignores_appended_zeros(s, (n - 1) as nat);
        assert(longer.last() == 0);
        lemma_significant_len_bounds(longer.drop_last());
        assert(longer.take(significant_len(longer) as int) =~= (s + zeros(
            (n - 1) as nat,
        )).take(significant_len(longer) as int));
    } else {
        assert(s + zeros(0) =~= s);
    }
}

/// Stripping keeps a prefix of the input, removes only zero bytes, and leaves
/// no trailing zero behind.
pub proof fn lemma_strip_shape(s: Seq<u8>)
    ensures
        strip_trailing_zeros(s).len() <= s.len(),
        strip_trailing_zeros(s) == s.take(strip_trailing_zeros(s).len() as int),
        forall|i: int| strip_trailing_zeros(s).len() <= i < s.len() ==> s[i] == 0,
        strip_trailing_zeros(s).len() > 0 ==> strip_trailing_zeros(s).last() != 0,
{
    lemma_significant_len_bounds(s);
}

} // verus!
