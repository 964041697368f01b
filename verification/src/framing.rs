//! Cutting a byte stream into length-delimited messages.
//!
//! A frame is the payload's length as four bytes, most significant first, followed
//! by the payload.
use vstd::prelude::*;

verus! {

/// The longest payload a frame may carry.
pub const MAX_FRAME: usize = 8_388_608;

/// A length as four bytes, most significant first.
pub open spec fn length_bytes(n: nat) -> Seq<u8> {
    seq![
        (n / 16_777_216 % 256) as u8,
        (n / 65_536 % 256) as u8,
        (n / 256 % 256) as u8,
        (n % 256) as u8,
    ]
}

/// The length that four bytes name.
pub open spec fn length_of(b: Seq<u8>) -> nat {
    (b[0] * 16_777_216 + b[1] * 65_536 + b[2] * 256 + b[3]) as nat
}

/// The frame that carries `payload`.
pub open spec fn framed(payload: Seq<u8>) -> Seq<u8> {
    length_bytes(payload.len()) + payload
}

/// What the front of a buffer holds.
pub enum Front {
    /// Not yet a whole frame.
    Short,
    /// A length beyond [`MAX_FRAME`].
    TooLong,
    /// A frame with this payload.
    Frame(Seq<u8>),
}

/// What the front of `buf` holds.
pub open spec fn front(buf: Seq<u8>) -> Front {
    if buf.len() < 4 {
        Front::Short
    } else if length_of(buf) > MAX_FRAME {
        Front::TooLong
    } else if buf.len() < 4 + length_of(buf) {
        Front::Short
    } else {
        Front::Frame(buf.subrange(4, 4 + length_of(buf) as int))
    }
}

/// Encoding with a fresh `tokio_util::codec::LengthDelimitedCodec` gives the frame
/// that carries the payload, unless the payload is longer than the codec allows.
#[verifier::external_body]
fn codec_encode(payload: &[u8]) -> (r: Option<Vec<u8>>)
    ensures
        match r {
            Some(frame) => payload@.len() <= MAX_FRAME && frame@ == framed(payload@),
            None => payload@.len() > MAX_FRAME,
        },
{
    let mut out = bytes::BytesMut::new();
    let mut codec = tokio_util::codec::LengthDelimitedCodec::new();
    match tokio_util::codec::Encoder::<&[u8]>::encode(&mut codec, payload, &mut out) {
        Ok(()) => Some(out.to_vec()),
        Err(_) => None,
    }
}

/// Decoding with a fresh `tokio_util::codec::LengthDelimitedCodec` gives the
/// payload of the frame at the front of the buffer, nothing if the frame is not
/// whole yet, and an error if its length is more than the codec allows.
#[verifier::external_body]
fn codec_decode(buf: &[u8]) -> (r: Result<Option<Vec<u8>>, ()>)
    ensures
        match front(buf@) {
            Front::Short => r == Ok::<Option<Vec<u8>>, ()>(None),
            Front::TooLong => r == Err::<Option<Vec<u8>>, ()>(()),
            Front::Frame(payload) => r matches Ok(Some(p)) && p@ == payload,
        },
{
    let mut src = bytes::BytesMut::from(buf);
    let mut codec = tokio_util::codec::LengthDelimitedCodec::new();
    match tokio_util::codec::Decoder::decode(&mut codec, &mut src) {
        Ok(Some(frame)) => Ok(Some(frame.to_vec())),
        Ok(None) => Ok(None),
        Err(_) => Err(()),
    }
}

/// The frame that carries `payload`, or `None` if it is too long for one.
pub fn encode_frame(payload: &[u8]) -> (r: Option<Vec<u8>>)
    ensures
        match r {
            Some(frame) => payload@.len() <= MAX_FRAME && frame@ == framed(payload@),
            None => payload@.len() > MAX_FRAME,
        },
{
    codec_encode(payload)
}

/// A stream announced a frame longer than [`MAX_FRAME`].
#[derive(Debug, Clone, Copy, PartialEq, Eq, Structural)]
pub struct FrameTooLong;

/// Collects the bytes of a stream and gives back the payloads of its frames.
#[derive(Debug)]
pub struct FrameDecoder {
    buf: Vec<u8>,
}

impl View for FrameDecoder {
    type V = Seq<u8>;

    closed spec fn view(&self) -> Seq<u8> {
        self.buf@
    }
}

impl FrameDecoder {
    /// Nothing read yet.
    pub fn new() -> (r: FrameDecoder)
        ensures
            r@.len() == 0,
    {
        FrameDecoder { buf: Vec::new() }
    }

    /// Add bytes read from the stream.
    pub fn feed(&mut self, chunk: &[u8])
        ensures
            final(self)@ == old(self)@ + chunk@,
    {
        let mut i: usize = 0;
        let ghost before = self.buf@;
        proof {
            assert(before + chunk@.take(0) =~= before);
        }
        while i < chunk.len()
            invariant
                i <= chunk@.len(),
                self.buf@ == before + chunk@.take(i as int),
            decreases chunk@.len() - i,
        {
            self.buf.push(chunk[i]);
            i += 1;
            proof {
                assert(self.buf@ =~= before + chunk@.take(i as int));
            }
        }
        proof {
            assert(chunk@.take(i as int) =~= chunk@);
        }
    }

    /// Take the next whole payload out of what was read.
    pub fn next(&mut self) -> (r: Result<Option<Vec<u8>>, FrameTooLong>)
        ensures
            match front(old(self)@) {
                Front::Short => r == Ok::<Option<Vec<u8>>, FrameTooLong>(None) && final(self)@
                    == old(self)@,
                Front::TooLong => {
                    &&& r == Err::<Option<Vec<u8>>, FrameTooLong>(FrameTooLong)
                    &&& final(self)@ == old(self)@
                },
                Front::Frame(payload) => (r matches Ok(Some(p)) && p@ == payload) && final(self)@
                    == old(self)@.skip(4 + payload.len() as int),
            },
    {
        match codec_decode(self.buf.as_slice()) {
            Err(_) => Err(FrameTooLong),
            Ok(None) => Ok(None),
            Ok(Some(payload)) => {
                let used: usize = 4 + payload.len();
                let rest = self.buf.split_off(used);
                proof {
                    assert(rest@ =~= old(self)@.skip(used as int));
                }
                self.buf = rest;
                Ok(Some(payload))
            },
        }
    }

    /// Whether a stream that ends here ends between two frames.
    pub fn is_empty(&self) -> (r: bool)
        ensures
            r == (self@.len() == 0),
    {
        self.buf.len() == 0
    }
}

/// The payloads that can be taken out of `buf`, and what is left.
pub open spec fn drained(buf: Seq<u8>) -> (Seq<Seq<u8>>, Seq<u8>)
    decreases buf.len(),
{
    match front(buf) {
        Front::Frame(payload) => {
            let (more, rest) = drained(buf.skip(4 + payload.len() as int));
            (seq![payload] + more, rest)
        },
        _ => (Seq::empty(), buf),
    }
}

/// However a stream is cut into reads, the same payloads come out: taking out what
/// is whole after the first read and then after the second is the same as taking it
/// out of both together.
pub proof fn law_chunking_does_not_matter(a: Seq<u8>, b: Seq<u8>)
    ensures
        drained(a + b).0 == drained(a).0 + drained(drained(a).1 + b).0,
        drained(a + b).1 == drained(drained(a).1 + b).1,
    decreases a.len(),
{
    match front(a) {
        Front::Frame(payload) => {
            let used = 4 + payload.len();
            assert((a + b).subrange(4, used as int) =~= a.subrange(4, used as int));
            assert(front(a + b) == Front::Frame(payload));
            assert((a + b).skip(used as int) =~= a.skip(used as int) + b);
            law_chunking_does_not_matter(a.skip(used as int), b);
            let rest = a.skip(used as int);
            assert(drained(a + b).0 =~= drained(a).0 + drained(drained(a).1 + b).0);
        },
        _ => {
            assert(drained(a).0 + drained(a + b).0 =~= drained(a + b).0);
        },
    }
}

proof fn lemma_length_roundtrip(n: nat, rest: Seq<u8>)
    requires
        n <= MAX_FRAME,
    ensures
        length_of(length_bytes(n) + rest) == n,
{
    let b = length_bytes(n) + rest;
    assert(b[0] == (n / 16_777_216 % 256) as u8);
    assert(b[1] == (n / 65_536 % 256) as u8);
    assert(b[2] == (n / 256 % 256) as u8);
    assert(b[3] == (n % 256) as u8);
}

/// Reading gives back what was written: the payload of a frame is found at the
/// front of any stream that begins with it.
pub proof fn law_a_frame_reads_back(payload: Seq<u8>, rest: Seq<u8>)
    requires
        payload.len() <= MAX_FRAME,
    ensures
        front(framed(payload) + rest) == Front::Frame(payload),
        (framed(payload) + rest).skip(4 + payload.len() as int) == rest,
{
    let buf = framed(payload) + rest;
    assert(buf =~= length_bytes(payload.len()) + (payload + rest));
    lemma_length_roundtrip(payload.len(), payload + rest);
    assert(buf.subrange(4, 4 + payload.len() as int) =~= payload);
    assert(buf.skip(4 + payload.len() as int) =~= rest);
}

/// The frames of several payloads, one after the other.
pub open spec fn framed_all(payloads: Seq<Seq<u8>>) -> Seq<u8>
    decreases payloads.len(),
{
    if payloads.len() == 0 {
        Seq::empty()
    } else {
        framed(payloads[0]) + framed_all(payloads.drop_first())
    }
}

/// A stream of frames gives back exactly its payloads, in order, and leaves
/// nothing over.
pub proof fn law_frames_arrive_in_order(payloads: Seq<Seq<u8>>)
    requires
        forall|i: int| 0 <= i < payloads.len() ==> (#[trigger] payloads[i]).len() <= MAX_FRAME,
    ensures
        drained(framed_all(payloads)) == (payloads, Seq::<u8>::empty()),
    decreases payloads.len(),
{
    if payloads.len() == 0 {
        assert(drained(framed_all(payloads)).0 =~= payloads);
    } else {
        let rest = payloads.drop_first();
        assert forall|i: int| 0 <= i < rest.len() implies (#[trigger] rest[i]).len()
            <= MAX_FRAME by {
            assert(rest[i] == payloads[i + 1]);
        }
        law_frames_arrive_in_order(rest);
        law_a_frame_reads_back(payloads[0], framed_all(rest));
        assert(seq![payloads[0]] + rest =~= payloads);
    }
}

/// A frame on the wire is the length of its payload in four bytes, each worth 256 times
/// the next, and then the payload itself, which may be eight megabytes long.
pub proof fn law_a_frame_on_the_wire(payload: Seq<u8>)
    requires
        payload.len() <= 8_388_608,
    ensures
        ({
            let f = framed(payload);
            &&& f.len() == payload.len() + 4
            &&& f.skip(4) == payload
            &&& ((f[0] * 256 + f[1]) * 256 + f[2]) * 256 + f[3] == payload.len()
        }),
        MAX_FRAME == 8_388_608,
{
    let f = framed(payload);
    lemma_length_roundtrip(payload.len(), payload);
    assert(f.skip(4) =~= payload);
}

/// What is read: nothing before a length is there, nothing before the whole payload is,
/// an error as soon as the length is more than allowed, and else the bytes behind the
/// length, as many as it says.
pub proof fn law_what_is_read(buf: Seq<u8>)
    ensures
        buf.len() < 4 ==> front(buf) == Front::Short,
        buf.len() >= 4 ==> ({
            let n = ((buf[0] * 256 + buf[1]) * 256 + buf[2]) * 256 + buf[3];
            &&& n > 8_388_608 ==> front(buf) == Front::TooLong
            &&& n <= 8_388_608 && buf.len() < 4 + n ==> front(buf) == Front::Short
            &&& n <= 8_388_608 && buf.len() >= 4 + n ==> front(buf) == Front::Frame(
                buf.skip(4).take(n),
            )
        }),
{
    if buf.len() >= 4 {
        let n = ((buf[0] * 256 + buf[1]) * 256 + buf[2]) * 256 + buf[3];
        assert(length_of(buf) == n);
        if buf.len() >= 4 + n {
            assert(buf.skip(4).take(n) =~= buf.subrange(4, 4 + n));
        }
    }
}

} // verus!
