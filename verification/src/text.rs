//! Texts as bytes: splitting at a separator, lower case, comparing.

use vstd::prelude::*;

verus! {

/// No byte of `s` in `[from, to)` is `sep`.
pub open spec fn no_byte(s: Seq<u8>, sep: u8, from: int, to: int) -> bool {
    forall|i: int| from <= i < to ==> #[trigger] s[i] != sep
}

/// The offset of the first `sep` in `s`, or the length of `s` if it has none.
pub open spec fn first_byte(s: Seq<u8>, sep: u8) -> int
    decreases s.len(),
{
    if s.len() == 0 || s[0] == sep {
        0
    } else {
        1 + first_byte(s.drop_first(), sep)
    }
}

/// The pieces of `s` between the bytes `sep`. A text without one is a single
/// piece, an empty text one empty piece.
pub open spec fn split_on(s: Seq<u8>, sep: u8) -> Seq<Seq<u8>>
    decreases s.len(),
{
    let k = first_byte(s, sep);
    if 0 <= k < s.len() {
        seq![s.subrange(0, k)] + split_on(s.subrange(k + 1, s.len() as int), sep)
    } else {
        seq![s]
    }
}

/// The lower-case form of an ASCII letter; any other byte as it is.
pub open spec fn lower_byte(b: u8) -> u8 {
    if 65 <= b <= 90 {
        (b + 32) as u8
    } else {
        b
    }
}

/// The text with its ASCII capitals in lower case.
pub open spec fn lower_bytes(s: Seq<u8>) -> Seq<u8> {
    Seq::new(s.len(), |i: int| lower_byte(s[i]))
}

/// The texts as byte sequences, in the same order.
pub open spec fn label_views(labels: Seq<Vec<u8>>) -> Seq<Seq<u8>> {
    Seq::new(labels.len(), |i: int| labels[i]@)
}

/// Where the first `sep` is, said without recursion.
pub proof fn lemma_first_byte(s: Seq<u8>, sep: u8)
    ensures
        0 <= first_byte(s, sep) <= s.len(),
        no_byte(s, sep, 0, first_byte(s, sep)),
        first_byte(s, sep) < s.len() ==> s[first_byte(s, sep)] == sep,
    decreases s.len(),
{
    if s.len() == 0 || s[0] == sep {
    } else {
        let t = s.drop_first();
        lemma_first_byte(t, sep);
        assert forall|i: int| 0 <= i < first_byte(s, sep) implies #[trigger] s[i] != sep by {
            if i > 0 {
                assert(t[i - 1] == s[i]);
            }
        }
    }
}

/// An offset with no `sep` before it and a `sep` (or the end) at it is the
/// first.
pub proof fn lemma_first_byte_is(s: Seq<u8>, sep: u8, k: int)
    requires
        0 <= k <= s.len(),
        no_byte(s, sep, 0, k),
        k < s.len() ==> s[k] == sep,
    ensures
        first_byte(s, sep) == k,
    decreases s.len(),
{
    if s.len() == 0 || s[0] == sep {
        if k > 0 {
            assert(s[0] != sep);
        }
    } else {
        let t = s.drop_first();
        assert(k > 0);
        assert forall|i: int| 0 <= i < k - 1 implies #[trigger] t[i] != sep by {
            assert(s[i + 1] != sep);
        }
        lemma_first_byte_is(t, sep, k - 1);
    }
}

/// A text whose first `m` bytes hold no `sep` has its first one at `m` or
/// later.
pub proof fn lemma_first_byte_after(s: Seq<u8>, sep: u8, m: int)
    requires
        0 <= m <= s.len(),
        no_byte(s, sep, 0, m),
    ensures
        first_byte(s, sep) >= m,
{
    lemma_first_byte(s, sep);
    let k = first_byte(s, sep);
    if k < m {
        assert(s[k] != sep);
    }
}

/// The first piece of a text ends at its first `sep`.
pub proof fn lemma_split_first(s: Seq<u8>, sep: u8)
    ensures
        split_on(s, sep).len() >= 1,
        split_on(s, sep)[0] == s.subrange(0, first_byte(s, sep)),
{
    lemma_first_byte(s, sep);
    let k = first_byte(s, sep);
    if 0 <= k < s.len() {
    } else {
        assert(s.subrange(0, k) =~= s);
    }
}

/// Splitting never gives an empty list, and no piece holds a `sep`.
pub proof fn lemma_split_pieces(s: Seq<u8>, sep: u8)
    ensures
        split_on(s, sep).len() >= 1,
        forall|i: int|
            0 <= i < split_on(s, sep).len() ==> no_byte(
                #[trigger] split_on(s, sep)[i],
                sep,
                0,
                split_on(s, sep)[i].len() as int,
            ),
    decreases s.len(),
{
    lemma_first_byte(s, sep);
    let k = first_byte(s, sep);
    if 0 <= k < s.len() {
        let rest = s.subrange(k + 1, s.len() as int);
        lemma_split_pieces(rest, sep);
        let head = s.subrange(0, k);
        assert forall|i: int| 0 <= i < split_on(s, sep).len() implies no_byte(
            #[trigger] split_on(s, sep)[i],
            sep,
            0,
            split_on(s, sep)[i].len() as int,
        ) by {
            if i == 0 {
                assert(split_on(s, sep)[0] == head);
                assert forall|j: int| 0 <= j < head.len() implies #[trigger] head[j] != sep by {
                    assert(s[j] != sep);
                }
            } else {
                assert(split_on(s, sep)[i] == split_on(rest, sep)[i - 1]);
            }
        }
    } else {
    }
}

/// Appends every byte of `src` to `out`.
pub fn push_all(out: &mut Vec<u8>, src: &[u8])
    ensures
        final(out)@ == old(out)@ + src@,
{
    let mut i: usize = 0;
    while i < src.len()
        invariant
            i <= src.len(),
            out@ == old(out)@ + src@.subrange(0, i as int),
        decreases src.len() - i,
    {
        out.push(src[i]);
        i += 1;
    }
    assert(src@.subrange(0, src.len() as int) == src@);
}

/// A copy of the bytes.
pub fn copy_bytes(src: &[u8]) -> (r: Vec<u8>)
    ensures
        r@ == src@,
{
    let mut out: Vec<u8> = Vec::new();
    push_all(&mut out, src);
    out
}

/// Whether two byte strings are equal.
pub fn bytes_eq(a: &[u8], b: &[u8]) -> (r: bool)
    ensures
        r == (a@ == b@),
{
    if a.len() != b.len() {
        return false;
    }
    let mut i: usize = 0;
    while i < a.len()
        invariant
            i <= a.len(),
            a.len() == b.len(),
            forall|j: int| 0 <= j < i ==> a@[j] == b@[j],
        decreases a.len() - i,
    {
        if a[i] != b[i] {
            return false;
        }
        i += 1;
    }
    assert(a@ =~= b@);
    true
}

/// The lower-case form of an ASCII letter; any other byte as it is.
pub fn to_lower_byte(b: u8) -> (r: u8)
    ensures
        r == lower_byte(b),
{
    if 65 <= b && b <= 90 {
        b + 32
    } else {
        b
    }
}

/// The text with its ASCII capitals in lower case.
pub fn to_lower(text: &[u8]) -> (r: Vec<u8>)
    ensures
        r@ == lower_bytes(text@),
{
    let mut out: Vec<u8> = Vec::new();
    let mut i: usize = 0;
    while i < text.len()
        invariant
            i <= text.len(),
            out@ == lower_bytes(text@.subrange(0, i as int)),
        decreases text.len() - i,
    {
        out.push(to_lower_byte(text[i]));
        proof {
            assert(out@ =~= lower_bytes(text@.subrange(0, i + 1)));
        }
        i += 1;
    }
    assert(text@.subrange(0, text.len() as int) =~= text@);
    out
}

/// Whether two texts are the same but for the case of their ASCII letters.
pub fn eq_ignore_case(a: &[u8], b: &[u8]) -> (r: bool)
    ensures
        r == (lower_bytes(a@) == lower_bytes(b@)),
{
    if a.len() != b.len() {
        assert(lower_bytes(a@).len() != lower_bytes(b@).len());
        return false;
    }
    let mut i: usize = 0;
    while i < a.len()
        invariant
            i <= a.len(),
            a.len() == b.len(),
            forall|j: int| 0 <= j < i ==> lower_byte(#[trigger] a@[j]) == lower_byte(b@[j]),
        decreases a.len() - i,
    {
        if to_lower_byte(a[i]) != to_lower_byte(b[i]) {
            assert(lower_bytes(a@)[i as int] != lower_bytes(b@)[i as int]);
            return false;
        }
        i += 1;
    }
    assert(lower_bytes(a@) =~= lower_bytes(b@));
    true
}

/// The pieces of the text between the bytes `sep`.
pub fn split_bytes(text: &[u8], sep: u8) -> (r: Vec<Vec<u8>>)
    ensures
        label_views(r@) == split_on(text@, sep),
{
    let len: usize = text.len();
    let mut out: Vec<Vec<u8>> = Vec::new();
    let mut piece: Vec<u8> = Vec::new();
    let mut start: usize = 0;
    let mut i: usize = 0;
    assert(text@.subrange(0, len as int) =~= text@);
    assert(label_views(out@) + split_on(text@, sep) =~= split_on(text@, sep));
    while i < len
        invariant
            len == text@.len(),
            0 <= start <= i <= len,
            split_on(text@, sep) == label_views(out@) + split_on(
                text@.subrange(start as int, len as int),
                sep,
            ),
            no_byte(text@, sep, start as int, i as int),
            piece@ == text@.subrange(start as int, i as int),
        decreases len - i,
    {
        let ghost tail = text@.subrange(start as int, len as int);
        if text[i] == sep {
            proof {
                assert forall|j: int| 0 <= j < i - start implies #[trigger] tail[j] != sep by {
                    assert(text@[start + j] != sep);
                }
                lemma_first_byte_is(tail, sep, i - start);
                let rest = tail.subrange(i - start + 1, tail.len() as int);
                assert(rest =~= text@.subrange(i + 1, len as int));
                assert(tail.subrange(0, i - start) =~= piece@);
                assert(split_on(tail, sep) == seq![piece@] + split_on(rest, sep));
                assert(label_views(out@.push(piece)) =~= label_views(out@).push(piece@));
                assert(label_views(out@) + (seq![piece@] + split_on(rest, sep)) =~= label_views(
                    out@,
                ).push(piece@) + split_on(rest, sep));
                assert(text@.subrange(i + 1, i + 1) =~= Seq::<u8>::empty());
            }
            out.push(piece);
            piece = Vec::new();
            start = i + 1;
        } else {
            piece.push(text[i]);
            proof {
                assert(piece@ =~= text@.subrange(start as int, i + 1));
            }
        }
        i += 1;
    }
    proof {
        let tail = text@.subrange(start as int, len as int);
        assert forall|j: int| 0 <= j < tail.len() implies #[trigger] tail[j] != sep by {
            assert(text@[start + j] != sep);
        }
        lemma_first_byte_is(tail, sep, tail.len() as int);
        assert(split_on(tail, sep) =~= seq![tail]);
        assert(label_views(out@.push(piece)) =~= label_views(out@).push(piece@));
        assert(label_views(out@) + seq![tail] =~= label_views(out@).push(tail));
    }
    out.push(piece);
    out
}

} // verus!
