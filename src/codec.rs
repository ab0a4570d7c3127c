//! Length-prefixed framing of the backend byte stream.
//!
//! Each packet is a two-byte length header in the backend's own number
//! encoding, followed by that many payload bytes.
use vstd::prelude::*;

verus! {

/// Number of bytes in a packet's length header.
pub const HEADER_LEN: usize = 2;

/// The number that a two-byte header encodes: each byte is a base-253 digit
/// plus one, least significant first, and a byte of 254 ends the number.
pub open spec fn header_value(b0: u8, b1: u8) -> int {
    if b0 == 254 {
        0
    } else if b1 == 254 {
        b0 - 1
    } else {
        (b0 - 1) + (b1 - 1) * 253
    }
}

/// Relies on eolib::data::decode_number to turn the two header bytes into a
/// number: 254 stops the decode, every earlier byte adds (byte - 1) times
/// 253 to the power of its position.
#[verifier::external_body]
fn decode_header(b0: u8, b1: u8) -> (r: i32)
    ensures
        r == header_value(b0, b1),
{
    eolib::data::decode_number(&[b0, b1])
}

/// The payloads of the complete packets at the front of `s`, in order,
/// leaving out packets of length zero. Decoding stops at an incomplete
/// packet or at a header that encodes a negative length.
pub open spec fn packets(s: Seq<u8>) -> Seq<Seq<u8>>
    decreases s.len(),
{
    if s.len() < 2 {
        seq![]
    } else {
        let n = header_value(s[0], s[1]);
        if n < 0 || s.len() < 2 + n {
            seq![]
        } else if n == 0 {
            packets(s.skip(2))
        } else {
            seq![s.subrange(2, 2 + n)] + packets(s.skip(2 + n))
        }
    }
}

/// What is left of `s` once the complete packets at its front are taken:
/// an incomplete packet, or everything from a header that encodes a
/// negative length.
pub open spec fn remainder(s: Seq<u8>) -> Seq<u8>
    decreases s.len(),
{
    if s.len() < 2 {
        s
    } else {
        let n = header_value(s[0], s[1]);
        if n < 0 || s.len() < 2 + n {
            s
        } else {
            remainder(s.skip(2 + n))
        }
    }
}

/// Whether decoding `s` reaches a header that encodes a negative length:
/// the stream is then out of step and cannot be decoded further.
pub open spec fn desynced(s: Seq<u8>) -> bool
    decreases s.len(),
{
    if s.len() < 2 {
        false
    } else {
        let n = header_value(s[0], s[1]);
        if n < 0 {
            true
        } else if s.len() < 2 + n {
            false
        } else {
            desynced(s.skip(2 + n))
        }
    }
}

/// The views of a sequence of byte vectors.
pub open spec fn views(v: Seq<Vec<u8>>) -> Seq<Seq<u8>> {
    v.map_values(|p: Vec<u8>| p@)
}

/// The bytes of a sequence of chunks, one after another.
pub open spec fn concat(cs: Seq<Seq<u8>>) -> Seq<u8>
    decreases cs.len(),
{
    if cs.len() == 0 {
        seq![]
    } else {
        cs[0] + concat(cs.drop_first())
    }
}

/// The payloads that a decoder holding `p` hands out when the chunks `cs`
/// are fed to it one at a time.
pub open spec fn decode_chunks(p: Seq<u8>, cs: Seq<Seq<u8>>) -> Seq<Seq<u8>>
    decreases cs.len(),
{
    if cs.len() == 0 {
        seq![]
    } else {
        packets(p + cs[0]) + decode_chunks(remainder(p + cs[0]), cs.drop_first())
    }
}

/// A well-formed packet: a header whose number is the length of the rest.
pub open spec fn is_frame(f: Seq<u8>) -> bool {
    f.len() >= 2 && header_value(f[0], f[1]) == f.len() - 2
}

/// The payloads of a sequence of packets, leaving out the empty ones.
pub open spec fn bodies(fs: Seq<Seq<u8>>) -> Seq<Seq<u8>>
    decreases fs.len(),
{
    if fs.len() == 0 {
        seq![]
    } else if fs[0].len() > 2 {
        seq![fs[0].skip(2)] + bodies(fs.drop_first())
    } else {
        bodies(fs.drop_first())
    }
}

/// Decoding a stream in two parts gives what decoding it whole gives: the
/// packets of the first part, then those of its leftover joined to the
/// second part.
pub proof fn lemma_split(a: Seq<u8>, b: Seq<u8>)
    ensures
        packets(a + b) == packets(a) + packets(remainder(a) + b),
        remainder(a + b) == remainder(remainder(a) + b),
        desynced(a + b) == desynced(remainder(a) + b),
    decreases a.len(),
{
    let ab = a + b;
    if a.len() < 2 {
        assert(packets(a) + packets(remainder(a) + b) =~= packets(a + b));
    } else {
        let n = header_value(a[0], a[1]);
        assert(ab[0] == a[0] && ab[1] == a[1]);
        if n < 0 || a.len() < 2 + n {
            assert(packets(a) + packets(remainder(a) + b) =~= packets(a + b));
        } else {
            let rest = a.skip(2 + n);
            assert(ab.skip(2 + n) =~= rest + b);
            assert(ab.subrange(2, 2 + n) =~= a.subrange(2, 2 + n));
            lemma_split(rest, b);
            if n == 0 {
                assert(a.skip(2) =~= rest);
            } else {
                let p = a.subrange(2, 2 + n);
                assert(seq![p] + packets(rest) + packets(remainder(rest) + b)
                    =~= seq![p] + (packets(rest) + packets(remainder(rest) + b)));
            }
        }
    }
}

/// What decoding leaves over decodes to itself.
pub proof fn lemma_remainder_idempotent(s: Seq<u8>)
    ensures
        remainder(remainder(s)) == remainder(s),
    decreases s.len(),
{
    if s.len() >= 2 {
        let n = header_value(s[0], s[1]);
        if n >= 0 && s.len() >= 2 + n {
            lemma_remainder_idempotent(s.skip(2 + n));
        }
    }
}

/// A stream is out of step exactly when what decoding leaves over starts
/// with a header that encodes a negative length.
pub proof fn lemma_desynced_remainder(s: Seq<u8>)
    ensures
        desynced(s) <==> (remainder(s).len() >= 2 && header_value(
            remainder(s)[0],
            remainder(s)[1],
        ) < 0),
    decreases s.len(),
{
    if s.len() >= 2 {
        let n = header_value(s[0], s[1]);
        if n >= 0 && s.len() >= 2 + n {
            lemma_desynced_remainder(s.skip(2 + n));
        }
    }
}

/// Nothing complete is left in what decoding leaves over.
pub proof fn lemma_remainder_has_no_packets(s: Seq<u8>)
    ensures
        packets(remainder(s)) == Seq::<Seq<u8>>::empty(),
    decreases s.len(),
{
    if s.len() >= 2 {
        let n = header_value(s[0], s[1]);
        if n >= 0 && s.len() >= 2 + n {
            lemma_remainder_has_no_packets(s.skip(2 + n));
        }
    }
}

/// However the backend stream is cut into chunks, a decoder fed the chunks
/// one at a time hands out exactly the packets of the whole stream.
pub proof fn lemma_chunking(p: Seq<u8>, cs: Seq<Seq<u8>>)
    requires
        packets(p) == Seq::<Seq<u8>>::empty(),
    ensures
        decode_chunks(p, cs) == packets(p + concat(cs)),
    decreases cs.len(),
{
    if cs.len() == 0 {
        assert(p + concat(cs) =~= p);
    } else {
        let c = cs[0];
        let rest = cs.drop_first();
        lemma_split(p + c, concat(rest));
        assert(p + c + concat(rest) =~= p + concat(cs));
        lemma_remainder_has_no_packets(p + c);
        lemma_chunking(remainder(p + c), rest);
    }
}

/// A stream made of well-formed packets decodes to their payloads, in
/// order, without the empty ones, and leaves nothing over.
pub proof fn lemma_frames(fs: Seq<Seq<u8>>)
    requires
        forall|i: int| 0 <= i < fs.len() ==> is_frame(#[trigger] fs[i]),
    ensures
        packets(concat(fs)) == bodies(fs),
        remainder(concat(fs)) == Seq::<u8>::empty(),
        !desynced(concat(fs)),
    decreases fs.len(),
{
    if fs.len() > 0 {
        let f = fs[0];
        let rest = fs.drop_first();
        assert(is_frame(f));
        let s = concat(fs);
        let n = f.len() - 2;
        assert(s[0] == f[0] && s[1] == f[1]);
        assert(s.skip(2 + n) =~= concat(rest));
        assert(s.subrange(2, 2 + n) =~= f.skip(2));
        assert(forall|i: int| 0 <= i < rest.len() ==> rest[i] == fs[i + 1]);
        lemma_frames(rest);
        if n == 0 {
            assert(s.skip(2) =~= concat(rest));
        }
    }
}

/// A packet whose header encodes zero gives no payload, and decoding goes
/// on with the bytes after it.
pub proof fn lemma_empty_packet(h0: u8, h1: u8, s: Seq<u8>)
    requires
        header_value(h0, h1) == 0,
    ensures
        packets(seq![h0, h1] + s) == packets(s),
        remainder(seq![h0, h1] + s) == remainder(s),
{
    let t = seq![h0, h1] + s;
    assert(t[0] == h0 && t[1] == h1);
    assert(t.skip(2) =~= s);
}

/// When the stream stops partway through a packet, only the complete
/// packets before it are handed out.
pub proof fn lemma_truncated(fs: Seq<Seq<u8>>, f: Seq<u8>, k: int)
    requires
        forall|i: int| 0 <= i < fs.len() ==> is_frame(#[trigger] fs[i]),
        is_frame(f),
        0 <= k < f.len(),
    ensures
        packets(concat(fs) + f.take(k)) == bodies(fs),
{
    let part = f.take(k);
    lemma_frames(fs);
    lemma_split(concat(fs), part);
    assert(Seq::<u8>::empty() + part =~= part);
    if part.len() >= 2 {
        assert(part[0] == f[0] && part[1] == f[1]);
    }
    assert(packets(part) =~= Seq::<Seq<u8>>::empty());
    assert(bodies(fs) + Seq::<Seq<u8>>::empty() =~= bodies(fs));
}

/// Reassembles packets from the backend stream, whatever the chunks it
/// arrives in.
pub struct FrameDecoder {
    pending: Vec<u8>,
}

impl View for FrameDecoder {
    type V = Seq<u8>;

    /// The bytes received but not yet part of a decoded packet.
    closed spec fn view(&self) -> Seq<u8> {
        self.pending@
    }
}

/// Copies `s[from..to]` into a new vector.
fn copy_range(s: &Vec<u8>, from: usize, to: usize) -> (r: Vec<u8>)
    requires
        from <= to <= s.len(),
    ensures
        r@ == s@.subrange(from as int, to as int),
{
    let mut r: Vec<u8> = Vec::new();
    let mut i: usize = from;
    while i < to
        invariant
            from <= i <= to <= s.len(),
            r@ == s@.subrange(from as int, i as int),
        decreases to - i,
    {
        r.push(s[i]);
        i = i + 1;
    }
    r
}

impl FrameDecoder {
    /// Holds what decoding leaves over: an incomplete packet, or the
    /// stream from a header that encodes a negative length.
    pub open spec fn wf(&self) -> bool {
        remainder(self@) == self@
    }

    /// A decoder that has received nothing.
    pub fn new() -> (d: FrameDecoder)
        ensures
            d@ == Seq::<u8>::empty(),
            d.wf(),
    {
        FrameDecoder { pending: Vec::new() }
    }

    /// Number of bytes held back as part of an incomplete packet.
    pub fn pending_len(&self) -> (r: usize)
        ensures
            r == self@.len(),
    {
        self.pending.len()
    }

    /// Whether the stream has reached a header that encodes a negative
    /// length, after which nothing more can be decoded.
    pub fn is_desynced(&self) -> (r: bool)
        requires
            self.wf(),
        ensures
            r == desynced(self@),
    {
        proof {
            lemma_desynced_remainder(self@);
        }
        if self.pending.len() < HEADER_LEN {
            false
        } else {
            decode_header(self.pending[0], self.pending[1]) < 0
        }
    }

    /// Takes the next chunk of the backend stream and returns the payloads of
    /// the packets it completes, in order; packets of length zero give
    /// nothing. Decoding stops at a header that encodes a negative length.
    pub fn feed(&mut self, chunk: &[u8]) -> (out: Vec<Vec<u8>>)
        requires
            old(self).wf(),
        ensures
            final(self).wf(),
            views(out@) == packets(old(self)@ + chunk@),
            final(self)@ == remainder(old(self)@ + chunk@),
    {
        let mut s: Vec<u8> = Vec::new();
        std::mem::swap(&mut s, &mut self.pending);
        let mut k: usize = 0;
        let ghost s0 = s@;
        while k < chunk.len()
            invariant
                k <= chunk.len(),
                s@ == s0 + chunk@.subrange(0, k as int),
                s0 == old(self)@,
            decreases chunk.len() - k,
        {
            s.push(chunk[k]);
            k = k + 1;
        }
        proof {
            assert(chunk@.subrange(0, chunk@.len() as int) =~= chunk@);
        }
        let ghost all = s@;
        let mut out: Vec<Vec<u8>> = Vec::new();
        let mut pos: usize = 0;
        proof {
            assert(all.skip(0) =~= all);
            assert(views(out@) + packets(all) =~= packets(all));
        }
        loop
            invariant
                pos <= s.len(),
                s@ == all,
                all == old(self)@ + chunk@,
                views(out@) + packets(all.skip(pos as int)) == packets(all),
                remainder(all.skip(pos as int)) == remainder(all),
            ensures
                packets(all.skip(pos as int)) == Seq::<Seq<u8>>::empty(),
                remainder(all.skip(pos as int)) == all.skip(pos as int),
            decreases s.len() - pos,
        {
            if s.len() - pos < HEADER_LEN {
                break;
            }
            let ghost t = all.skip(pos as int);
            let n = decode_header(s[pos], s[pos + 1]);
            proof {
                assert(t[0] == s[pos as int] && t[1] == s[pos + 1]);
            }
            if n < 0 {
                break;
            }
            let n = n as usize;
            if s.len() - pos - HEADER_LEN < n {
                break;
            }
            proof {
                assert(t.skip(2 + n as int) =~= all.skip(pos + 2 + n));
            }
            if n > 0 {
                let p = copy_range(&s, pos + HEADER_LEN, pos + HEADER_LEN + n);
                proof {
                    assert(p@ =~= t.subrange(2, 2 + n as int));
                    assert(views(out@.push(p)) =~= views(out@).push(p@));
                    assert(packets(t) == seq![p@] + packets(t.skip(2 + n as int)));
                    assert(views(out@).push(p@) + packets(t.skip(2 + n as int))
                        =~= views(out@) + (seq![p@] + packets(t.skip(2 + n as int))));
                }
                out.push(p);
            }
            pos = pos + HEADER_LEN + n;
        }
        proof {
            assert(views(out@) + Seq::<Seq<u8>>::empty() =~= views(out@));
        }
        self.pending = copy_range(&s, pos, s.len());
        proof {
            assert(self.pending@ =~= all.skip(pos as int));
            lemma_remainder_idempotent(all);
        }
        out
    }
}

} // verus!
