//! Domain names: their text form, their labels and their wire form.
//!
//! A name's text is its labels joined by dots, as ASCII bytes; the root is the
//! empty text. On the wire each label is preceded by its length and the name
//! ends with a zero byte; a length byte whose two high bits are set starts a
//! two-byte pointer to the rest of the name elsewhere in the packet.

use crate::error::DnsError;
use crate::text::{
    first_byte, lemma_first_byte, lemma_first_byte_after, lemma_first_byte_is, lemma_split_first,
    lemma_split_pieces, no_byte, push_all, split_on,
};
use vstd::prelude::*;
use vstd::slice::slice_subrange;
use vstd::utf8::{
    decode_utf8, encode_utf8, encode_utf8_decode_utf8, encode_utf8_valid_utf8, is_ascii_chars,
    is_ascii_chars_encode_utf8, valid_utf8,
};

verus! {

/// The byte that separates labels in a name's text.
pub const DOT: u8 = 46;

/// The longest label that the wire format can carry.
pub const MAX_LABEL: usize = 63;

/// How many compression pointers one name may follow.
pub const MAX_JUMPS: usize = 128;

/// Every byte is below 128.
pub open spec fn is_ascii_bytes(s: Seq<u8>) -> bool {
    forall|i: int| 0 <= i < s.len() ==> #[trigger] s[i] < 128
}

/// The characters that a sequence of ASCII bytes spells.
pub open spec fn ascii_chars(s: Seq<u8>) -> Seq<char> {
    Seq::new(s.len(), |i: int| s[i] as char)
}

/// The pieces of `s` between its dots.
pub open spec fn split_dots(s: Seq<u8>) -> Seq<Seq<u8>> {
    split_on(s, DOT)
}

/// The labels joined by dots.
pub open spec fn join_dots(labels: Seq<Seq<u8>>) -> Seq<u8>
    decreases labels.len(),
{
    if labels.len() == 0 {
        Seq::empty()
    } else if labels.len() == 1 {
        labels[0]
    } else {
        join_dots(labels.drop_last()) + seq![DOT] + labels.last()
    }
}

/// The labels of a name given as text: none for the root.
pub open spec fn name_labels(text: Seq<u8>) -> Seq<Seq<u8>> {
    if text.len() == 0 {
        Seq::empty()
    } else {
        split_dots(text)
    }
}

/// A label that the wire format can carry: 1 to 63 ASCII bytes.
pub open spec fn valid_label(label: Seq<u8>) -> bool {
    1 <= label.len() <= MAX_LABEL && is_ascii_bytes(label)
}

/// Every label is one that the wire format can carry.
pub open spec fn valid_labels(labels: Seq<Seq<u8>>) -> bool {
    forall|i: int| 0 <= i < labels.len() ==> valid_label(#[trigger] labels[i])
}

/// A text that names something: the root, or valid labels with single dots
/// between them and none at either end.
pub open spec fn valid_name(text: Seq<u8>) -> bool {
    valid_labels(name_labels(text))
}

/// The labels on the wire, each behind its length, without the final zero.
pub open spec fn label_run(labels: Seq<Seq<u8>>) -> Seq<u8>
    decreases labels.len(),
{
    if labels.len() == 0 {
        Seq::empty()
    } else {
        label_run(labels.drop_last()) + seq![labels.last().len() as u8] + labels.last()
    }
}

/// The uncompressed wire form of a sequence of labels.
pub open spec fn encode_labels(labels: Seq<Seq<u8>>) -> Seq<u8> {
    label_run(labels) + seq![0u8]
}

/// The uncompressed wire form of a name given as text.
pub open spec fn encode_name(text: Seq<u8>) -> Seq<u8> {
    encode_labels(name_labels(text))
}

/// The name that starts at `pos` in the packet `buf`: its labels and the
/// offset just behind it, where the enclosing record goes on. A pointer is
/// followed at most `jumps` times; what it points at supplies the remaining
/// labels. `None` where the bytes run out, a label holds a byte above 127, a
/// length byte starts with bits `01` or `10`, or the pointers do not end.
pub open spec fn parse_name(buf: Seq<u8>, pos: int, jumps: nat) -> Option<(Seq<Seq<u8>>, int)>
    decreases jumps, buf.len() - pos,
{
    if pos < 0 || pos >= buf.len() {
        None
    } else {
        let l = buf[pos] as int;
        if l == 0 {
            Some((Seq::empty(), pos + 1))
        } else if l >= 192 {
            if pos + 1 >= buf.len() || jumps == 0 {
                None
            } else {
                let target = (l - 192) * 256 + buf[pos + 1] as int;
                match parse_name(buf, target, (jumps - 1) as nat) {
                    Some((rest, _)) => Some((rest, pos + 2)),
                    None => None,
                }
            }
        } else if l > MAX_LABEL || pos + 1 + l > buf.len() {
            None
        } else {
            let label = buf.subrange(pos + 1, pos + 1 + l);
            if !is_ascii_bytes(label) {
                None
            } else {
                match parse_name(buf, pos + 1 + l, jumps) {
                    Some((rest, next)) => Some((seq![label] + rest, next)),
                    None => None,
                }
            }
        }
    }
}

/// What a name amounts to when `labels` were read before `tail`, the rest of
/// it, and `end` is where the first pointer stood, if one was followed.
pub open spec fn resume_name(
    labels: Seq<Seq<u8>>,
    end: Option<usize>,
    tail: Option<(Seq<Seq<u8>>, int)>,
) -> Option<(Seq<Seq<u8>>, int)> {
    match tail {
        Some((rest, next)) => Some(
            (
                labels + rest,
                match end {
                    Some(e) => e as int,
                    None => next,
                },
            ),
        ),
        None => None,
    }
}

/// `String::from_utf8` of std: a vector of bytes becomes a `String` exactly
/// when the bytes are valid UTF-8, and the string then holds the characters
/// that they encode. Nothing of this is proved here.
#[verifier::external_body]
pub(crate) fn string_from_utf8(bytes: Vec<u8>) -> (r: Option<String>)
    ensures
        r is Some <==> valid_utf8(bytes@),
        r matches Some(s) ==> s@ == decode_utf8(bytes@),
{
    match String::from_utf8(bytes) {
        Ok(s) => Some(s),
        Err(_) => None,
    }
}

/// Joining one more label puts a dot before it, unless it is the first.
pub proof fn lemma_join_push(labels: Seq<Seq<u8>>, label: Seq<u8>)
    ensures
        join_dots(labels.push(label)) == if labels.len() == 0 {
            label
        } else {
            join_dots(labels) + seq![DOT] + label
        },
{
    let l = labels.push(label);
    assert(l.drop_last() == labels);
    assert(l.last() == label);
}

/// Joining two non-empty lists of labels puts one dot between the two texts.
pub proof fn lemma_join_concat(a: Seq<Seq<u8>>, b: Seq<Seq<u8>>)
    requires
        a.len() > 0,
        b.len() > 0,
    ensures
        join_dots(a + b) == join_dots(a) + seq![DOT] + join_dots(b),
    decreases b.len(),
{
    if b.len() == 1 {
        assert(a + b == a.push(b[0]));
        lemma_join_push(a, b[0]);
    } else {
        let b0 = b.drop_last();
        lemma_join_concat(a, b0);
        assert((a + b).drop_last() == a + b0);
        assert((a + b).last() == b.last());
        assert(join_dots(a + b) == join_dots(a + b0) + seq![DOT] + b.last());
        assert(join_dots(b) == join_dots(b0) + seq![DOT] + b.last());
        assert(join_dots(a + b) == join_dots(a) + seq![DOT] + join_dots(b));
    }
}

/// Joining the pieces of a text gives the text back.
pub proof fn lemma_join_split(s: Seq<u8>)
    ensures
        join_dots(split_dots(s)) == s,
    decreases s.len(),
{
    lemma_first_byte(s, DOT);
    let k = first_byte(s, DOT);
    if 0 <= k < s.len() {
        let head = s.subrange(0, k);
        let rest = s.subrange(k + 1, s.len() as int);
        lemma_join_split(rest);
        lemma_split_pieces(rest, DOT);
        lemma_join_concat(seq![head], split_dots(rest));
        assert(join_dots(seq![head]) == head);
        assert(head + seq![DOT] + rest == s);
    } else {
        assert(join_dots(seq![s]) == s);
    }
}

/// The wire form of a list of labels starts with its first label.
pub proof fn lemma_label_run_front(labels: Seq<Seq<u8>>)
    requires
        labels.len() > 0,
    ensures
        label_run(labels) == seq![labels[0].len() as u8] + labels[0] + label_run(
            labels.drop_first(),
        ),
    decreases labels.len(),
{
    if labels.len() == 1 {
        assert(labels.drop_last() =~= Seq::<Seq<u8>>::empty());
        assert(labels.drop_first() =~= Seq::<Seq<u8>>::empty());
        assert(label_run(labels.drop_last()) =~= Seq::<u8>::empty());
        assert(label_run(labels.drop_first()) =~= Seq::<u8>::empty());
        assert(label_run(labels) =~= seq![labels[0].len() as u8] + labels[0]);
    } else {
        let init = labels.drop_last();
        lemma_label_run_front(init);
        assert(init.drop_first() =~= labels.drop_first().drop_last());
        assert(labels.drop_first().last() == labels.last());
        assert(init[0] == labels[0]);
        assert(label_run(labels.drop_first()) == label_run(init.drop_first()) + seq![
            labels.last().len() as u8,
        ] + labels.last());
        assert(label_run(labels) =~= seq![labels[0].len() as u8] + labels[0] + label_run(
            labels.drop_first(),
        ));
    }
}

/// ASCII bytes are valid UTF-8 and decode to one character per byte.
pub proof fn lemma_ascii_decode(s: Seq<u8>)
    requires
        is_ascii_bytes(s),
    ensures
        valid_utf8(s),
        decode_utf8(s) == ascii_chars(s),
        encode_utf8(ascii_chars(s)) == s,
{
    let chars = ascii_chars(s);
    assert(is_ascii_chars(chars)) by {
        assert forall|i: int| 0 <= i < chars.len() implies '\0' <= #[trigger] chars[i]
            <= '\u{7f}' by {
            assert(s[i] < 128);
        }
    }
    is_ascii_chars_encode_utf8(chars);
    assert(encode_utf8(chars) =~= s) by {
        assert forall|i: int| 0 <= i < s.len() implies encode_utf8(chars)[i] == s[i] by {
            assert(chars[i] as u8 == encode_utf8(chars)[i]);
            assert(s[i] < 128);
        }
    }
    encode_utf8_valid_utf8(chars);
    encode_utf8_decode_utf8(chars);
}

/// The bytes of a name's text: its characters in UTF-8, which for the ASCII
/// names of the wire format is one byte for each character.
pub open spec fn name_text(name: Seq<char>) -> Seq<u8> {
    encode_utf8(name)
}

/// The uncompressed wire form of a name given as text, or `MalformedPacket`
/// where the text is no valid name: a label is empty, longer than 63 bytes or
/// holds a byte above 127.
pub fn name_wire(text: &[u8]) -> (r: Result<Vec<u8>, DnsError>)
    ensures
        match r {
            Ok(v) => valid_name(text@) && v@ == encode_name(text@),
            Err(e) => !valid_name(text@) && e == DnsError::MalformedPacket,
        },
{
    let len: usize = text.len();
    let mut out: Vec<u8> = Vec::new();
    if len == 0 {
        out.push(0);
        assert(label_run(Seq::<Seq<u8>>::empty()) =~= Seq::<u8>::empty());
        assert(out@ =~= encode_name(text@));
        return Ok(out);
    }
    let mut start: usize = 0;
    let mut i: usize = 0;
    let ghost mut done: Seq<Seq<u8>> = Seq::empty();
    assert(text@.subrange(0, len as int) =~= text@);
    assert(done + split_dots(text@) =~= split_dots(text@));
    assert(label_run(done) =~= Seq::<u8>::empty());
    loop
        invariant
            len == text@.len(),
            len > 0,
            0 <= start <= i <= len,
            split_dots(text@) == done + split_dots(text@.subrange(start as int, len as int)),
            no_byte(text@, DOT, start as int, i as int),
            is_ascii_bytes(text@.subrange(start as int, i as int)),
            i - start <= MAX_LABEL,
            valid_labels(done),
            out@ == label_run(done),
        decreases len - i,
    {
        let ghost tail = text@.subrange(start as int, len as int);
        proof {
            lemma_split_first(tail, DOT);
            assert forall|j: int| 0 <= j < i - start implies #[trigger] tail[j] != DOT by {
                assert(text@[start + j] != DOT);
            }
            lemma_first_byte_after(tail, DOT, i - start);
        }
        if i == len || text[i] == DOT {
            let ghost label = text@.subrange(start as int, i as int);
            proof {
                lemma_first_byte_is(tail, DOT, i - start);
                assert(tail.subrange(0, i - start) =~= label);
            }
            if i == start {
                proof {
                    assert(split_dots(text@)[done.len() as int] == split_dots(tail)[0]);
                    assert(!valid_label(label));
                }
                return Err(DnsError::MalformedPacket);
            }
            out.push((i - start) as u8);
            push_all(&mut out, slice_subrange(text, start, i));
            proof {
                assert(done.push(label).drop_last() =~= done);
                assert(done.push(label).last() == label);
                assert(valid_label(label));
            }
            if i == len {
                out.push(0);
                proof {
                    assert(split_dots(tail) =~= seq![tail]);
                    assert(split_dots(text@) =~= done.push(label));
                }
                return Ok(out);
            }
            proof {
                let rest = tail.subrange(i - start + 1, tail.len() as int);
                assert(rest =~= text@.subrange(i + 1, len as int));
                assert(split_dots(tail) == seq![label] + split_dots(rest));
                assert(done + (seq![label] + split_dots(rest)) =~= done.push(label) + split_dots(
                    rest,
                ));
                done = done.push(label);
                assert(text@.subrange(i + 1, i + 1) =~= Seq::<u8>::empty());
            }
            start = i + 1;
            i = i + 1;
        } else {
            if text[i] >= 128 || i - start >= MAX_LABEL {
                proof {
                    assert(text@[i as int] != DOT);
                    assert forall|j: int| 0 <= j < i - start + 1 implies #[trigger] tail[j]
                        != DOT by {
                        assert(text@[start + j] != DOT);
                    }
                    lemma_first_byte_after(tail, DOT, i - start + 1);
                    lemma_first_byte(tail, DOT);
                    let piece = split_dots(tail)[0];
                    assert(split_dots(text@)[done.len() as int] == piece);
                    assert(piece.len() >= i - start + 1);
                    assert(piece[i - start] == text@[i as int]);
                    assert(!valid_label(piece));
                }
                return Err(DnsError::MalformedPacket);
            }
            proof {
                assert(text@.subrange(start as int, i + 1) =~= text@.subrange(
                    start as int,
                    i as int,
                ).push(text@[i as int]));
            }
            i = i + 1;
        }
    }
}

/// The uncompressed wire form of a name: each label behind its length, then
/// a zero byte. `MalformedPacket` where the name has no wire form.
pub fn string_to_bytes(name: &String) -> (r: Result<Vec<u8>, DnsError>)
    ensures
        match r {
            Ok(v) => valid_name(name_text(name@)) && v@ == encode_name(name_text(name@)),
            Err(e) => !valid_name(name_text(name@)) && e == DnsError::MalformedPacket,
        },
{
    name_wire(name.as_str().as_bytes())
}
} // verus!
