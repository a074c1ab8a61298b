//! Inserting bytes into a source text.

use vstd::prelude::*;
use vstd::string::StringSliceAdditionalSpecFns;

verus! {

/// Appends the bytes of `src` to `out`.
pub fn append_bytes(out: &mut Vec<u8>, src: &[u8])
    ensures
        final(out)@ == old(out)@ + src@,
{
    let ghost start = out@;
    let mut i: usize = 0;
    while i < src.len()
        invariant
            i <= src@.len(),
            out@ == start + src@.take(i as int),
        decreases src@.len() - i,
    {
        out.push(src[i]);
        i = i + 1;
        proof {
            assert(src@.take(i as int) =~= src@.take(i - 1).push(src@[i - 1]));
        }
    }
    proof {
        assert(src@.take(i as int) =~= src@);
    }
}

/// The bytes of `text` with `payload` inserted at byte offset `offset`; every
/// other byte is kept, in order.
pub fn patch(text: &str, offset: usize, payload: &[u8]) -> (r: Vec<u8>)
    requires
        offset <= text.spec_bytes().len(),
    ensures
        r@ == text.spec_bytes().take(offset as int) + payload@ + text.spec_bytes().skip(
            offset as int,
        ),
{
    let bytes = text.as_bytes();
    let mut out: Vec<u8> = Vec::new();
    let ghost t = bytes@;
    let mut i: usize = 0;
    while i < offset
        invariant
            bytes@ == t,
            offset <= t.len(),
            i <= offset,
            out@ == t.take(i as int),
        decreases offset - i,
    {
        out.push(bytes[i]);
        i = i + 1;
        proof {
            assert(t.take(i as int) =~= t.take(i - 1).push(t[i - 1]));
        }
    }
    append_bytes(&mut out, payload);
    let ghost mid = out@;
    while i < bytes.len()
        invariant
            bytes@ == t,
            offset <= i <= t.len(),
            out@ == mid + t.subrange(offset as int, i as int),
        decreases t.len() - i,
    {
        out.push(bytes[i]);
        i = i + 1;
        proof {
            assert(t.subrange(offset as int, i as int) =~= t.subrange(offset as int, i - 1).push(
                t[i - 1],
            ));
        }
    }
    proof {
        assert(t.subrange(offset as int, i as int) =~= t.skip(offset as int));
        assert(out@ =~= t.take(offset as int) + payload@ + t.skip(offset as int));
    }
    out
}

/// Inserting `payload` at `offset` changes no byte of `text`: those before the
/// offset stay where they were, those after it move by the payload's length,
/// and the payload lies between them.
pub proof fn lemma_insertion_keeps_text(text: Seq<u8>, offset: int, payload: Seq<u8>)
    requires
        0 <= offset <= text.len(),
    ensures
        ({
            let r = text.take(offset) + payload + text.skip(offset);
            &&& r.len() == text.len() + payload.len()
            &&& forall|i: int| 0 <= i < offset ==> r[i] == text[i]
            &&& r.subrange(offset, offset + payload.len()) == payload
            &&& forall|i: int| offset <= i < text.len() ==> r[i + payload.len()] == text[i]
        }),
{
    let r = text.take(offset) + payload + text.skip(offset);
    assert(r.subrange(offset, offset + payload.len()) =~= payload);
}

} // verus!
