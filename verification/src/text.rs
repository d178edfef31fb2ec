use vstd::prelude::*;

verus! {

/// Whether `c` has the Unicode `White_Space` property, as `char::is_whitespace` decides.
pub open spec fn is_white(c: char) -> bool {
    ||| ('\u{9}' <= c && c <= '\u{d}')
    ||| c == ' '
    ||| c == '\u{85}'
    ||| c == '\u{a0}'
    ||| c == '\u{1680}'
    ||| ('\u{2000}' <= c && c <= '\u{200a}')
    ||| c == '\u{2028}'
    ||| c == '\u{2029}'
    ||| c == '\u{202f}'
    ||| c == '\u{205f}'
    ||| c == '\u{3000}'
}

/// `s` without its leading white space.
pub open spec fn trim_start(s: Seq<char>) -> Seq<char>
    decreases s.len(),
{
    if s.len() > 0 && is_white(s[0]) {
        trim_start(s.drop_first())
    } else {
        s
    }
}

/// `s` without its trailing white space.
pub open spec fn trim_end(s: Seq<char>) -> Seq<char>
    decreases s.len(),
{
    if s.len() > 0 && is_white(s.last()) {
        trim_end(s.drop_last())
    } else {
        s
    }
}

/// `s` without leading and trailing white space, as `str::trim` gives it.
pub open spec fn trim(s: Seq<char>) -> Seq<char> {
    trim_end(trim_start(s))
}

/// The text before the first `:` of `s` (all of `s` when it has none): the
/// first piece that `split(':')` yields.
pub open spec fn first_field(s: Seq<char>) -> Seq<char>
    decreases s.len(),
{
    if s.len() == 0 {
        s
    } else if s[0] == ':' {
        Seq::empty()
    } else {
        seq![s[0]] + first_field(s.drop_first())
    }
}

/// The text after the first `:` of `s` (nothing when it has none).
pub open spec fn after_first_colon(s: Seq<char>) -> Seq<char>
    decreases s.len(),
{
    if s.len() == 0 {
        s
    } else if s[0] == ':' {
        s.drop_first()
    } else {
        after_first_colon(s.drop_first())
    }
}

/// Whether `s` ends with `suffix`.
pub open spec fn has_suffix(s: Seq<char>, suffix: Seq<char>) -> bool {
    s.len() >= suffix.len() && s.skip(s.len() - suffix.len()) == suffix
}

/// Whether `part` occurs in `s` as a contiguous piece.
pub open spec fn contains_text(s: Seq<char>, part: Seq<char>) -> bool {
    exists|i: int| 0 <= i && i + part.len() <= s.len() && #[trigger] s.subrange(i, i + part.len()) == part
}

/// Whether every character of `s` is white space.
pub open spec fn all_white(s: Seq<char>) -> bool {
    forall|i: int| 0 <= i < s.len() ==> is_white(#[trigger] s[i])
}

/// Trailing white space is what `trim_end` takes off: `s` is what it keeps,
/// followed by white space, and what it keeps ends in no white space.
proof fn lemma_trim_end_split(s: Seq<char>) -> (b: int)
    ensures
        0 <= b <= s.len(),
        trim_end(s) == s.take(b),
        all_white(s.skip(b)),
        b > 0 ==> !is_white(s[b - 1]),
    decreases s.len(),
{
    if s.len() > 0 && is_white(s.last()) {
        let d = s.drop_last();
        let b = lemma_trim_end_split(d);
        assert(d.take(b) =~= s.take(b));
        assert forall|i: int| 0 <= i < s.skip(b).len() implies is_white(#[trigger] s.skip(b)[i]) by {
            if b + i < d.len() {
                assert(s.skip(b)[i] == d.skip(b)[i]);
            }
        }
        b
    } else {
        assert(s.take(s.len() as int) =~= s);
        assert(s.skip(s.len() as int) =~= Seq::<char>::empty());
        s.len() as int
    }
}

/// White space appended to a text does not change what `trim_end` keeps.
proof fn lemma_trim_end_white_tail(s: Seq<char>, w: Seq<char>)
    requires
        all_white(w),
    ensures
        trim_end(s + w) == trim_end(s),
    decreases w.len(),
{
    if w.len() == 0 {
        assert(s + w =~= s);
    } else {
        assert((s + w).last() == w.last());
        assert((s + w).drop_last() =~= s + w.drop_last());
        lemma_trim_end_white_tail(s, w.drop_last());
    }
}

/// A text made of white space only trims to nothing.
proof fn lemma_trim_start_white(w: Seq<char>)
    requires
        all_white(w),
    ensures
        trim_start(w) == Seq::<char>::empty(),
    decreases w.len(),
{
    if w.len() > 0 {
        lemma_trim_start_white(w.drop_first());
    }
}

/// White space appended to a text does not change the trimmed text.
pub proof fn lemma_trim_white_tail(s: Seq<char>, w: Seq<char>)
    requires
        all_white(w),
    ensures
        trim(s + w) == trim(s),
    decreases s.len(),
{
    if s.len() == 0 {
        assert(s + w =~= w);
        lemma_trim_start_white(w);
    } else if is_white(s[0]) {
        assert((s + w)[0] == s[0]);
        assert((s + w).drop_first() =~= s.drop_first() + w);
        lemma_trim_white_tail(s.drop_first(), w);
    } else {
        assert((s + w)[0] == s[0]);
        lemma_trim_end_white_tail(s, w);
    }
}

/// A text with no `:` is its own first field.
proof fn lemma_first_field_no_colon(s: Seq<char>)
    requires
        forall|i: int| 0 <= i < s.len() ==> s[i] != ':',
    ensures
        first_field(s) == s,
    decreases s.len(),
{
    if s.len() > 0 {
        lemma_first_field_no_colon(s.drop_first());
        assert(seq![s[0]] + s.drop_first() =~= s);
    }
}

/// The first field of a text followed by white space is the first field of
/// the text, with or without that white space.
proof fn lemma_first_field_white_tail(t: Seq<char>, w: Seq<char>)
    requires
        all_white(w),
    ensures
        first_field(t + w) == first_field(t) || first_field(t + w) == first_field(t) + w,
    decreases t.len(),
{
    if t.len() == 0 {
        assert(t + w =~= w);
        assert forall|i: int| 0 <= i < w.len() implies w[i] != ':' by {
            assert(is_white(w[i]));
        }
        lemma_first_field_no_colon(w);
        assert(first_field(t) + w =~= w);
    } else if t[0] == ':' {
        assert((t + w)[0] == ':');
    } else {
        assert((t + w)[0] == t[0]);
        assert((t + w).drop_first() =~= t.drop_first() + w);
        lemma_first_field_white_tail(t.drop_first(), w);
        assert(seq![t[0]] + (first_field(t.drop_first()) + w) =~= first_field(t) + w);
    }
}

/// Trimming the first field of a text gives the same as trimming the first
/// field of the text without its trailing white space.
pub proof fn lemma_trimmed_first_field(n: Seq<char>)
    ensures
        trim(first_field(trim_end(n))) == trim(first_field(n)),
{
    let b = lemma_trim_end_split(n);
    let t = n.take(b);
    let w = n.skip(b);
    assert(t + w =~= n);
    lemma_first_field_white_tail(t, w);
    if first_field(n) != first_field(t) {
        lemma_trim_white_tail(first_field(t), w);
    }
}

/// The text after the first `:` of `a + m`, where the only `:` of `a` is its
/// last character, is `m`.
pub proof fn lemma_after_first_colon_append(a: Seq<char>, m: Seq<char>)
    requires
        a.len() > 0,
        a.last() == ':',
        forall|j: int| 0 <= j < a.len() - 1 ==> a[j] != ':',
    ensures
        after_first_colon(a + m) == m,
    decreases a.len(),
{
    assert((a + m)[0] == a[0]);
    if a.len() == 1 {
        assert((a + m).drop_first() =~= m);
    } else {
        assert((a + m).drop_first() =~= a.drop_first() + m);
        lemma_after_first_colon_append(a.drop_first(), m);
    }
}

/// A text that starts with `a`, whose first character is not white space
/// and whose last is not either, trims to `a` followed by the rest without
/// its trailing white space.
pub proof fn lemma_trim_after_head(a: Seq<char>, n: Seq<char>)
    requires
        a.len() > 0,
        !is_white(a[0]),
        !is_white(a.last()),
    ensures
        trim(a + n) == a + trim_end(n),
{
    assert((a + n)[0] == a[0]);
    let b = lemma_trim_end_split(n);
    let t = n.take(b);
    let w = n.skip(b);
    assert(a + n =~= (a + t) + w);
    lemma_trim_end_white_tail(a + t, w);
    if b > 0 {
        assert((a + t).last() == n[b - 1]);
    } else {
        assert(a + t =~= a);
    }
}

/// Leading white space does not change the trimmed text.
pub proof fn lemma_trim_white_head(w: Seq<char>, s: Seq<char>)
    requires
        all_white(w),
    ensures
        trim(w + s) == trim(s),
    decreases w.len(),
{
    if w.len() == 0 {
        assert(w + s =~= s);
    } else {
        assert((w + s)[0] == w[0]);
        assert((w + s).drop_first() =~= w.drop_first() + s);
        lemma_trim_white_head(w.drop_first(), s);
    }
}

/// What `trim` keeps is a contiguous piece of the text: everything before it
/// and after it is white space, and when it is not empty it neither starts
/// nor ends with white space.
pub proof fn lemma_trim_shape(s: Seq<char>) -> (bounds: (int, int))
    ensures
        0 <= bounds.0 <= bounds.1 <= s.len(),
        trim(s) == s.subrange(bounds.0, bounds.1),
        all_white(s.take(bounds.0)),
        all_white(s.skip(bounds.1)),
        trim(s).len() > 0 ==> !is_white(trim(s)[0]) && !is_white(trim(s).last()),
    decreases s.len(),
{
    if s.len() > 0 && is_white(s[0]) {
        let (a, b) = lemma_trim_shape(s.drop_first());
        let d = s.drop_first();
        assert(d.subrange(a, b) =~= s.subrange(a + 1, b + 1));
        assert(d.skip(b) =~= s.skip(b + 1));
        assert forall|i: int| 0 <= i < s.take(a + 1).len() implies is_white(#[trigger] s.take(a + 1)[i]) by {
            if i > 0 {
                assert(s.take(a + 1)[i] == d.take(a)[i - 1]);
            }
        }
        (a + 1, b + 1)
    } else {
        let b = lemma_trim_end_split(s);
        assert(s.take(b) =~= s.subrange(0, b));
        assert(s.take(0) =~= Seq::<char>::empty());
        if b > 0 {
            assert(trim(s)[0] == s[0]);
        }
        (0, b)
    }
}

/// The first field of a text and the text after its first `:` split it at
/// that `:`; a text with no `:` is all first field, with nothing after it.
pub proof fn lemma_split_at_first_colon(s: Seq<char>)
    ensures
        (forall|i: int| 0 <= i < s.len() ==> s[i] != ':') ==> first_field(s) == s && after_first_colon(s) == Seq::<char>::empty(),
        forall|p: int| 0 <= p < s.len() && s[p] == ':' && (forall|i: int| 0 <= i < p ==> s[i] != ':')
            ==> first_field(s) == s.take(p) && after_first_colon(s) == s.skip(p + 1),
    decreases s.len(),
{
    if s.len() > 0 {
        let d = s.drop_first();
        lemma_split_at_first_colon(d);
        assert forall|p: int| 0 <= p < s.len() && s[p] == ':' && (forall|i: int| 0 <= i < p ==> s[i] != ':')
            implies first_field(s) == s.take(p) && after_first_colon(s) == s.skip(p + 1) by {
            if p > 0 {
                assert(d[p - 1] == ':');
                assert forall|i: int| 0 <= i < p - 1 implies d[i] != ':' by {
                    assert(d[i] == s[i + 1]);
                }
                assert(seq![s[0]] + d.take(p - 1) =~= s.take(p));
                assert(d.skip(p) =~= s.skip(p + 1));
            } else {
                assert(s.take(0) =~= Seq::<char>::empty());
                assert(d =~= s.skip(1));
            }
        }
        if forall|i: int| 0 <= i < s.len() ==> s[i] != ':' {
            assert forall|i: int| 0 <= i < d.len() implies d[i] != ':' by {
                assert(d[i] == s[i + 1]);
            }
            assert(seq![s[0]] + d =~= s);
        }
    }
}

/// Copy of a piece of a character slice.
fn copy_range(s: &[char], from: usize, to: usize) -> (out: Vec<char>)
    requires
        from <= to <= s@.len(),
    ensures
        out@ == s@.subrange(from as int, to as int),
{
    let mut out: Vec<char> = Vec::new();
    let mut i: usize = from;
    while i < to
        invariant
            from <= i <= to <= s@.len(),
            out@ == s@.subrange(from as int, i as int),
        decreases to - i,
    {
        out.push(s[i]);
        i = i + 1;
        assert(out@ =~= s@.subrange(from as int, i as int));
    }
    out
}

/// Whether `c` is white space.
pub fn white(c: char) -> (b: bool)
    ensures
        b == is_white(c),
{
    ('\u{9}' <= c && c <= '\u{d}') || c == ' ' || c == '\u{85}' || c == '\u{a0}' || c == '\u{1680}'
        || ('\u{2000}' <= c && c <= '\u{200a}') || c == '\u{2028}' || c == '\u{2029}'
        || c == '\u{202f}' || c == '\u{205f}' || c == '\u{3000}'
}

/// `s` without leading and trailing white space.
pub fn trimmed(s: &[char]) -> (out: Vec<char>)
    ensures
        out@ == trim(s@),
{
    let mut start: usize = 0;
    assert(s@.skip(0) =~= s@);
    while start < s.len() && white(s[start])
        invariant
            start <= s@.len(),
            trim_start(s@) == trim_start(s@.skip(start as int)),
        decreases s@.len() - start,
    {
        assert(s@.skip(start as int).drop_first() =~= s@.skip(start + 1));
        start = start + 1;
    }
    assert(trim_start(s@) == s@.skip(start as int));
    let mut end: usize = s.len();
    assert(s@.skip(start as int) =~= s@.subrange(start as int, end as int));
    while end > start && white(s[end - 1])
        invariant
            start <= end <= s@.len(),
            trim(s@) == trim_end(s@.subrange(start as int, end as int)),
        decreases end - start,
    {
        assert(s@.subrange(start as int, end as int).drop_last() =~= s@.subrange(
            start as int,
            end - 1,
        ));
        end = end - 1;
    }
    copy_range(s, start, end)
}

/// The text before the first `:` of `s`.
pub fn before_colon(s: &[char]) -> (out: Vec<char>)
    ensures
        out@ == first_field(s@),
{
    let mut i: usize = 0;
    assert(s@.skip(0) =~= s@);
    assert(s@.take(0) + s@ =~= s@);
    while i < s.len() && s[i] != ':'
        invariant
            i <= s@.len(),
            forall|j: int| 0 <= j < i ==> s@[j] != ':',
            first_field(s@) == s@.take(i as int) + first_field(s@.skip(i as int)),
        decreases s@.len() - i,
    {
        assert(s@.skip(i as int).drop_first() =~= s@.skip(i + 1));
        assert(s@.take(i as int) + seq![s@[i as int]] =~= s@.take(i + 1));
        i = i + 1;
    }
    assert(first_field(s@.skip(i as int)) =~= Seq::<char>::empty());
    assert(s@.take(i as int) =~= s@.subrange(0, i as int));
    copy_range(s, 0, i)
}

/// The text after the first `:` of `s`.
pub fn after_colon(s: &[char]) -> (out: Vec<char>)
    ensures
        out@ == after_first_colon(s@),
{
    let mut i: usize = 0;
    assert(s@.skip(0) =~= s@);
    while i < s.len() && s[i] != ':'
        invariant
            i <= s@.len(),
            after_first_colon(s@) == after_first_colon(s@.skip(i as int)),
        decreases s@.len() - i,
    {
        assert(s@.skip(i as int).drop_first() =~= s@.skip(i + 1));
        i = i + 1;
    }
    if i < s.len() {
        assert(s@.skip(i as int).drop_first() =~= s@.subrange(i + 1, s@.len() as int));
        copy_range(s, i + 1, s.len())
    } else {
        assert(s@.skip(i as int) =~= Seq::<char>::empty());
        Vec::new()
    }
}

/// Whether two texts are equal.
pub fn same_text(a: &[char], b: &[char]) -> (same: bool)
    ensures
        same == (a@ == b@),
{
    if a.len() != b.len() {
        return false;
    }
    let mut i: usize = 0;
    while i < a.len()
        invariant
            i <= a@.len() == b@.len(),
            forall|j: int| 0 <= j < i ==> a@[j] == b@[j],
        decreases a@.len() - i,
    {
        if a[i] != b[i] {
            return false;
        }
        i = i + 1;
    }
    assert(a@ =~= b@);
    true
}

/// Whether `s` ends with `suffix`.
pub fn ends_with_text(s: &[char], suffix: &[char]) -> (b: bool)
    ensures
        b == has_suffix(s@, suffix@),
{
    if s.len() < suffix.len() {
        return false;
    }
    let n = s.len();
    let offset = n - suffix.len();
    let mut i: usize = 0;
    while i < suffix.len()
        invariant
            n == s@.len(),
            offset + suffix@.len() == s@.len(),
            i <= suffix@.len(),
            forall|j: int| 0 <= j < i ==> s@[offset + j] == suffix@[j],
        decreases suffix@.len() - i,
    {
        if s[offset + i] != suffix[i] {
            assert(s@.skip(offset as int)[i as int] != suffix@[i as int]);
            return false;
        }
        i = i + 1;
    }
    assert(s@.skip(offset as int) =~= suffix@);
    true
}

/// Whether `part` occurs in `s`.
pub fn contains(s: &[char], part: &[char]) -> (b: bool)
    ensures
        b == contains_text(s@, part@),
{
    if part.len() > s.len() {
        return false;
    }
    let n = s.len();
    let last = n - part.len();
    let mut i: usize = 0;
    while i <= last
        invariant
            n == s@.len(),
            last + part@.len() == s@.len(),
            part@.len() <= s@.len(),
            i <= s@.len(),
            forall|k: int| 0 <= k < i ==> #[trigger] s@.subrange(k, k + part@.len()) != part@,
        decreases s@.len() - i,
    {
        let mut j: usize = 0;
        let mut matched = true;
        while j < part.len()
            invariant
                n == s@.len(),
                i + part@.len() <= s@.len(),
                j <= part@.len(),
                matched == forall|t: int| 0 <= t < j ==> s@[i + t] == part@[t],
            decreases part@.len() - j,
        {
            if s[i + j] != part[j] {
                matched = false;
            }
            j = j + 1;
        }
        if matched {
            assert(s@.subrange(i as int, i + part@.len()) =~= part@);
            return true;
        }
        assert(s@.subrange(i as int, i + part@.len()) != part@) by {
            let t = choose|t: int| 0 <= t < part@.len() && s@[i + t] != part@[t];
            assert(s@.subrange(i as int, i + part@.len())[t] != part@[t]);
        }
        i = i + 1;
    }
    assert forall|k: int| 0 <= k && k + part@.len() <= s@.len() implies #[trigger] s@.subrange(
        k,
        k + part@.len(),
    ) != part@ by {
        assert(k < i);
    }
    false
}

/// `text` with `suffix` appended.
pub fn joined(text: &[char], suffix: &[char]) -> (out: Vec<char>)
    ensures
        out@ == text@ + suffix@,
{
    let mut out = copy_range(text, 0, text.len());
    let mut i: usize = 0;
    while i < suffix.len()
        invariant
            i <= suffix@.len(),
            out@ == text@ + suffix@.take(i as int),
        decreases suffix@.len() - i,
    {
        out.push(suffix[i]);
        i = i + 1;
        assert(out@ =~= text@ + suffix@.take(i as int));
    }
    assert(suffix@.take(i as int) =~= suffix@);
    assert(text@.subrange(0, text@.len() as int) =~= text@);
    out
}

} // verus!
