//! Framing: finding where the header block ends in a byte stream.
use vstd::prelude::*;
use crate::text::push_char;

verus! {

/// The header block terminator CRLF CRLF.
pub open spec fn terminator() -> Seq<u8> {
    seq![13u8, 10u8, 13u8, 10u8]
}

/// `s` ends with CRLF CRLF.
pub open spec fn ends_with_terminator(s: Seq<u8>) -> bool {
    s.len() >= 4 && s.subrange(s.len() - 4, s.len() as int) == terminator()
}

/// `s` is a complete header block: it ends with CRLF CRLF, and no shorter
/// prefix of it does.
pub open spec fn is_header_block(s: Seq<u8>) -> bool {
    &&& ends_with_terminator(s)
    &&& forall|n: int| 0 <= n < s.len() ==> !ends_with_terminator(#[trigger] s.subrange(0, n))
}

/// The text of a header block: each byte read as the character of that code
/// point (Latin-1).
pub open spec fn latin1_text(s: Seq<u8>) -> Seq<char> {
    s.map_values(|b: u8| b as char)
}

/// The length of the header block at the start of `stream`, if the stream
/// holds one: the shortest prefix that ends with CRLF CRLF. The bytes after it
/// are not part of the block.
pub fn header_block_len(stream: &[u8]) -> (r: Option<usize>)
    ensures
        match r {
            Some(n) => n <= stream@.len() && is_header_block(stream@.subrange(0, n as int)),
            None => forall|n: int| 0 <= n <= stream@.len() ==> !ends_with_terminator(#[trigger] stream@.subrange(0, n)),
        },
{
    let mut n: usize = 0;
    while n < stream.len()
        invariant
            n <= stream@.len(),
            forall|m: int| 0 <= m <= n ==> !ends_with_terminator(#[trigger] stream@.subrange(0, m)),
        decreases stream@.len() - n,
    {
        n = n + 1;
        if n >= 4 && stream[n - 4] == 13 && stream[n - 3] == 10 && stream[n - 2] == 13 && stream[n - 1] == 10 {
            proof {
                let p = stream@.subrange(0, n as int);
                assert(p.subrange(p.len() - 4, p.len() as int) =~= terminator());
                assert forall|m: int| 0 <= m < p.len() implies !ends_with_terminator(#[trigger] p.subrange(0, m)) by {
                    assert(p.subrange(0, m) =~= stream@.subrange(0, m));
                }
            }
            return Some(n);
        }
        proof {
            let p = stream@.subrange(0, n as int);
            if ends_with_terminator(p) {
                assert(p.subrange(p.len() - 4, p.len() as int)[0] == stream@[n - 4]);
                assert(p.subrange(p.len() - 4, p.len() as int)[1] == stream@[n - 3]);
                assert(p.subrange(p.len() - 4, p.len() as int)[2] == stream@[n - 2]);
                assert(p.subrange(p.len() - 4, p.len() as int)[3] == stream@[n - 1]);
            }
        }
    }
    None
}

/// A header block followed by any further bytes: the only prefix of the whole
/// that is a header block is the block itself, so framing stops right after
/// it and leaves the further bytes unconsumed.
pub proof fn lemma_framing_stops_at_block(block: Seq<u8>, rest: Seq<u8>)
    requires
        is_header_block(block),
    ensures
        is_header_block((block + rest).subrange(0, block.len() as int)),
        forall|n: int| 0 <= n <= (block + rest).len() && is_header_block(#[trigger] (block + rest).subrange(0, n))
            ==> n == block.len(),
{
    let s = block + rest;
    assert(s.subrange(0, block.len() as int) =~= block);
    assert forall|n: int| 0 <= n <= s.len() && is_header_block(#[trigger] s.subrange(0, n)) implies n == block.len() by {
        if n < block.len() {
            assert(s.subrange(0, n) =~= block.subrange(0, n));
        } else if n > block.len() {
            assert(s.subrange(0, n).subrange(0, block.len() as int) =~= block);
        }
    }
}

/// Reads a header block one byte at a time and tells when it is complete.
#[derive(Debug)]
pub struct HeaderFramer {
    received: Vec<u8>,
    complete: bool,
}

impl HeaderFramer {
    /// The bytes taken so far.
    pub closed spec fn received_spec(&self) -> Seq<u8> {
        self.received@
    }

    /// Whether the bytes taken form a complete header block.
    pub closed spec fn complete_spec(&self) -> bool {
        self.complete
    }

    /// The invariant: the framer is complete exactly when the bytes taken form
    /// a header block, and until then no prefix of them ends with CRLF CRLF.
    pub closed spec fn wf(&self) -> bool {
        &&& self.complete <==> ends_with_terminator(self.received@)
        &&& forall|n: int| 0 <= n < self.received@.len() ==> !ends_with_terminator(#[trigger] self.received@.subrange(0, n))
    }

    /// A framer that has taken nothing.
    pub fn new() -> (r: HeaderFramer)
        ensures
            r.wf(),
            r.received_spec() == Seq::<u8>::empty(),
            !r.complete_spec(),
    {
        HeaderFramer { received: Vec::new(), complete: false }
    }

    /// Whether the header block is complete.
    pub fn is_complete(&self) -> (r: bool)
        requires
            self.wf(),
        ensures
            r == self.complete_spec(),
            r ==> is_header_block(self.received_spec()),
    {
        self.complete
    }

    /// Takes the next byte of the stream; returns whether the header block is
    /// now complete. Once it is, no further byte is to be taken.
    pub fn push(&mut self, byte: u8) -> (done: bool)
        requires
            old(self).wf(),
            !old(self).complete_spec(),
        ensures
            final(self).wf(),
            final(self).received_spec() == old(self).received_spec().push(byte),
            done == final(self).complete_spec(),
            done == ends_with_terminator(final(self).received_spec()),
            done ==> is_header_block(final(self).received_spec()),
    {
        let ghost before = self.received@;
        self.received.push(byte);
        let n = self.received.len();
        proof {
            assert(self.received@.subrange(0, before.len() as int) =~= before);
            assert forall|m: int| 0 <= m < self.received@.len() implies !ends_with_terminator(#[trigger] self.received@.subrange(0, m)) by {
                assert(self.received@.subrange(0, m) =~= before.subrange(0, m) || m == before.len());
                if m < before.len() {
                    assert(self.received@.subrange(0, m) =~= before.subrange(0, m));
                }
            }
        }
        let done = n >= 4 && self.received[n - 4] == 13 && self.received[n - 3] == 10
            && self.received[n - 2] == 13 && self.received[n - 1] == 10;
        proof {
            let p = self.received@;
            if done {
                assert(p.subrange(p.len() - 4, p.len() as int) =~= terminator());
            } else if ends_with_terminator(p) {
                assert(p.subrange(p.len() - 4, p.len() as int)[0] == p[n - 4]);
                assert(p.subrange(p.len() - 4, p.len() as int)[1] == p[n - 3]);
                assert(p.subrange(p.len() - 4, p.len() as int)[2] == p[n - 2]);
                assert(p.subrange(p.len() - 4, p.len() as int)[3] == p[n - 1]);
            }
        }
        self.complete = done;
        done
    }

    /// The bytes taken so far, as text: each byte becomes the character of
    /// that code point.
    pub fn text(&self) -> (r: String)
        ensures
            r@ == latin1_text(self.received_spec()),
    {
        let mut s = String::new();
        let mut i: usize = 0;
        while i < self.received.len()
            invariant
                i <= self.received@.len(),
                s@ == latin1_text(self.received@.subrange(0, i as int)),
            decreases self.received@.len() - i,
        {
            let c = self.received[i] as char;
            push_char(&mut s, c);
            i = i + 1;
            assert(s@ =~= latin1_text(self.received@.subrange(0, i as int)));
        }
        assert(self.received@.subrange(0, i as int) =~= self.received@);
        s
    }
}

} // verus!
