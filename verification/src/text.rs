//! Decoding the bytes of a sequence.

use vstd::prelude::*;

verus! {

/// `String::push` of the standard library appends one character to the end
/// of the string and leaves the characters before it as they were.
pub assume_specification[ String::push ](s: &mut String, ch: char)
    ensures
        final(s)@ == old(s)@.push(ch),
;

/// A line feed or a carriage return: the bytes that end a line of sequence.
pub open spec fn is_terminator(b: u8) -> bool {
    b == 0x0a || b == 0x0d
}

/// The sequence that a stretch of file bytes stands for: the line terminators
/// are dropped, and every other byte becomes the character of the same code.
pub open spec fn decoded(bytes: Seq<u8>) -> Seq<char>
    decreases bytes.len(),
{
    if bytes.len() == 0 {
        Seq::empty()
    } else if is_terminator(bytes.last()) {
        decoded(bytes.drop_last())
    } else {
        decoded(bytes.drop_last()).push(bytes.last() as char)
    }
}

/// A decoded sequence holds no line terminator.
pub proof fn lemma_decoded_has_no_terminator(bytes: Seq<u8>)
    ensures
        forall|i: int|
            0 <= i < decoded(bytes).len() ==> decoded(bytes)[i] != '\n' && decoded(bytes)[i]
                != '\r',
    decreases bytes.len(),
{
    if bytes.len() > 0 {
        lemma_decoded_has_no_terminator(bytes.drop_last());
        let b = bytes.last();
        assert((b as char) as u8 == b);
        assert('\n' as u8 == 0x0a && '\r' as u8 == 0x0d);
        let front = decoded(bytes.drop_last());
        assert forall|i: int| 0 <= i < decoded(bytes).len() implies decoded(bytes)[i] != '\n'
            && decoded(bytes)[i] != '\r' by {
            if i < front.len() {
                assert(decoded(bytes)[i] == front[i]);
            } else {
                assert(decoded(bytes)[i] == b as char);
            }
        }
    }
}

/// A decoded sequence is no longer than the bytes it came from.
pub proof fn lemma_decoded_len(bytes: Seq<u8>)
    ensures
        decoded(bytes).len() <= bytes.len(),
    decreases bytes.len(),
{
    if bytes.len() > 0 {
        lemma_decoded_len(bytes.drop_last());
    }
}

/// Decodes the bytes read from a sequence file.
pub fn decode(buf: &[u8]) -> (s: String)
    ensures
        s@ == decoded(buf@),
{
    let mut s = String::new();
    let mut i: usize = 0;
    while i < buf.len()
        invariant
            i <= buf.len(),
            s@ == decoded(buf@.take(i as int)),
        decreases buf.len() - i,
    {
        let b = buf[i];
        proof {
            let next = buf@.take(i + 1);
            assert(next.drop_last() =~= buf@.take(i as int));
            assert(next.last() == b);
        }
        if b != 0x0a && b != 0x0d {
            s.push(b as char);
        }
        i += 1;
    }
    assert(buf@.take(i as int) =~= buf@);
    s
}

} // verus!
