//! The streaming consumer's accumulation buffer: transport reads append
//! bytes, complete values are drained from the front, and the unconsumed
//! remainder waits for the next read.

use vstd::prelude::*;
use crate::value::{RedisValue, ValueModel, elems_view};
use crate::codec::{spec_decode, DecodedSpec, Decoded, copy_range};

verus! {

broadcast use vstd::std_specs::vec::group_vec_axioms;

/// What repeatedly decoding from the front of a buffer yields: every
/// complete value, in arrival order, and the count of bytes they cover
/// together. Draining stops at the first verdict that is not a complete
/// value, whether the remainder is merely incomplete or corrupt.
pub open spec fn spec_drain(s: Seq<u8>) -> (Seq<ValueModel>, int)
    decreases s.len(),
{
    match spec_decode(s) {
        DecodedSpec::Complete(v, c) => if 1 <= c <= s.len() {
            let r = spec_drain(s.skip(c));
            (seq![v] + r.0, c + r.1)
        } else {
            // a complete value always consumes within the buffer
            (seq![v], c)
        },
        DecodedSpec::Incomplete => (Seq::empty(), 0),
        DecodedSpec::Malformed => (Seq::empty(), 0),
    }
}

/// Decodes every complete value at the front of the buffer, in order, and
/// reports how many bytes they covered together; the caller keeps the
/// remainder, which either waits for more bytes or is corrupt.
#[verifier::loop_isolation(false)]
pub fn decode_all(s: &[u8]) -> (r: (Vec<RedisValue>, usize))
    ensures
        elems_view(r.0@) == spec_drain(s@).0,
        r.1 as int == spec_drain(s@).1,
        r.1 <= s@.len(),
{
    let mut vals: Vec<RedisValue> = Vec::new();
    let mut pos: usize = 0;
    proof {
        assert(s@.skip(0) =~= s@);
        assert(elems_view(vals@) =~= Seq::<ValueModel>::empty());
        assert(elems_view(vals@) + spec_drain(s@).0 =~= spec_drain(s@).0);
    }
    loop
        invariant
            pos <= s@.len(),
            spec_drain(s@).0 == elems_view(vals@) + spec_drain(s@.skip(pos as int)).0,
            spec_drain(s@).1 == pos + spec_drain(s@.skip(pos as int)).1,
        decreases s@.len() - pos,
    {
        let rest = &s[pos..s.len()];
        proof {
            assert(rest@ =~= s@.skip(pos as int));
        }
        match RedisValue::decode(rest) {
            Decoded::Complete(v, n) => {
                proof {
                    assert(s@.skip(pos as int).skip(n as int) =~= s@.skip(pos as int + n as int));
                    assert(elems_view(vals@.push(v)) =~= elems_view(vals@) + seq![v@]);
                    let tail = spec_drain(s@.skip(pos as int + n as int));
                    assert(spec_drain(s@.skip(pos as int)).0 =~= seq![v@] + tail.0);
                    assert(elems_view(vals@) + (seq![v@] + tail.0) =~= (elems_view(vals@) + seq![
                        v@,
                    ]) + tail.0);
                }
                vals.push(v);
                pos = pos + n;
            },
            Decoded::Incomplete => {
                proof {
                    assert(elems_view(vals@) + Seq::<ValueModel>::empty() =~= elems_view(vals@));
                }
                return (vals, pos);
            },
            Decoded::Malformed => {
                proof {
                    assert(elems_view(vals@) + Seq::<ValueModel>::empty() =~= elems_view(vals@));
                }
                return (vals, pos);
            },
        }
    }
}

/// The accumulation buffer a byte-stream transport drives: append-only on
/// the transport side, prefix-truncated as complete values are drained.
pub struct StreamBuf {
    buf: Vec<u8>,
}

impl View for StreamBuf {
    type V = Seq<u8>;

    closed spec fn view(&self) -> Seq<u8> {
        self.buf@
    }
}

impl StreamBuf {
    /// An empty accumulation buffer.
    pub fn new() -> (r: StreamBuf)
        ensures
            r@ == Seq::<u8>::empty(),
    {
        StreamBuf { buf: Vec::new() }
    }

    /// Appends the bytes one transport read yielded.
    #[verifier::loop_isolation(false)]
    pub fn feed(&mut self, data: &[u8])
        ensures
            final(self)@ == old(self)@ + data@,
    {
        proof {
            assert(self.buf@ + data@.subrange(0, 0) =~= self.buf@);
        }
        let mut i: usize = 0;
        while i < data.len()
            invariant
                i <= data@.len(),
                self.buf@ == old(self).buf@ + data@.subrange(0, i as int),
            decreases data@.len() - i,
        {
            self.buf.push(data[i]);
            proof {
                assert(data@.subrange(0, i as int + 1) =~= data@.subrange(0, i as int).push(
                    data@[i as int],
                ));
                assert(old(self).buf@ + data@.subrange(0, i as int + 1) =~= (old(self).buf@
                    + data@.subrange(0, i as int)).push(data@[i as int]));
            }
            i = i + 1;
        }
        proof {
            assert(data@.subrange(0, data@.len() as int) =~= data@);
        }
    }

    /// Removes and returns the first complete value, advancing past the
    /// bytes it covered; a buffer that holds no complete value - not yet
    /// whole, or corrupt - is left unchanged.
    pub fn next_value(&mut self) -> (r: Option<RedisValue>)
        ensures
            match r {
                Option::Some(v) => spec_decode(old(self)@) matches DecodedSpec::Complete(m, c)
                    && v@ == m && final(self)@ == old(self)@.skip(c),
                Option::None => {
                    &&& !(spec_decode(old(self)@) is Complete)
                    &&& final(self)@ == old(self)@
                },
            },
    {
        match RedisValue::decode(self.buf.as_slice()) {
            Decoded::Complete(v, n) => {
                let rest = copy_range(self.buf.as_slice(), n, self.buf.len());
                self.buf = rest;
                proof {
                    assert(self.buf@ =~= old(self)@.skip(n as int));
                }
                Option::Some(v)
            },
            Decoded::Incomplete => Option::None,
            Decoded::Malformed => Option::None,
        }
    }
}

} // verus!
