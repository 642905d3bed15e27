//! A bounded byte buffer for network I/O, split into lines on demand.

use std::collections::VecDeque;
use vstd::prelude::*;
use vstd::utf8::{
    char_is_scalar, decode_utf8, encode_scalar, encode_utf8, encode_utf8_decode_utf8,
    encode_utf8_valid_utf8, is_scalar, valid_utf8,
};

verus! {

/// The most bytes a buffer holds.
pub const MAX_BUFFER_SIZE: usize = 1048576usize;

/// What `String::from_utf8_lossy` makes of a byte sequence: its characters,
/// with each invalid part replaced by U+FFFD.
pub uninterp spec fn utf8_lossy(bytes: Seq<u8>) -> Seq<char>;

/// Decodes bytes as UTF-8, replacing invalid sequences
/// (`String::from_utf8_lossy`). The result is a function of the bytes
/// alone, and is their decoding when they are valid UTF-8.
#[verifier::external_body]
fn decode_lossy(bytes: &[u8]) -> (res: String)
    ensures
        res@ == utf8_lossy(bytes@),
        valid_utf8(bytes@) ==> res@ == decode_utf8(bytes@),
{
    String::from_utf8_lossy(bytes).into_owned()
}

/// `s` without its trailing carriage returns (`trim_end_matches('\r')`).
pub open spec fn strip_cr(s: Seq<char>) -> Seq<char>
    decreases s.len(),
{
    if s.len() > 0 && s.last() == '\r' {
        strip_cr(s.drop_last())
    } else {
        s
    }
}

/// The position of the first newline of `b`, if any.
pub open spec fn first_newline(b: Seq<u8>) -> Option<int> {
    if exists|i: int| 0 <= i < b.len() && b[i] == 10u8 {
        Some(choose|i: int| 0 <= i < b.len() && b[i] == 10u8 && forall|j: int| 0 <= j < i ==> b[j] != 10u8)
    } else {
        None
    }
}

/// A line written with its newline, in front of whatever follows, is the
/// first line read back: its bytes come out, and what follows stays.
pub proof fn lemma_line_round_trip(line: Seq<u8>, rest: Seq<u8>)
    requires
        forall|i: int| 0 <= i < line.len() ==> line[i] != 10u8,
    ensures
        first_newline(line.push(10u8) + rest) == Some(line.len() as int),
        (line.push(10u8) + rest).take(line.len() as int) == line,
        (line.push(10u8) + rest).skip(line.len() + 1int) == rest,
{
    let b = line.push(10u8) + rest;
    let n = line.len() as int;
    assert(b[n] == 10u8);
    let c = choose|i: int| 0 <= i < b.len() && b[i] == 10u8 && forall|j: int| 0 <= j < i ==> b[j] != 10u8;
    assert(0 <= n < b.len() && b[n] == 10u8 && forall|j: int| 0 <= j < n ==> b[j] != 10u8) by {
        assert forall|j: int| 0 <= j < n implies b[j] != 10u8 by {
            assert(b[j] == line[j]);
        }
    }
    if c < n {
        assert(b[c] == line[c]);
    }
    if n < c {
        assert(b[n] != 10u8);
    }
    assert(b.take(n) =~= line);
    assert(b.skip(n + 1) =~= rest);
}

/// Only a newline is encoded with the byte of a newline.
pub proof fn lemma_scalar_not_newline(v: u32)
    requires
        is_scalar(v),
        v != 10,
    ensures
        forall|k: int| 0 <= k < encode_scalar(v).len() ==> #[trigger] encode_scalar(v)[k] != 10u8,
{
    let e = encode_scalar(v);
    assert((0x80u8 | ((v & 0x3F) as u8)) != 10u8) by (bit_vector);
    assert((0x80u8 | (((v >> 6u32) & 0x3F) as u8)) != 10u8) by (bit_vector);
    assert((0x80u8 | (((v >> 12u32) & 0x3F) as u8)) != 10u8) by (bit_vector);
    assert((0xC0u8 | (((v >> 6u32) & 0x1F) as u8)) != 10u8) by (bit_vector);
    assert((0xE0u8 | (((v >> 12u32) & 0x0F) as u8)) != 10u8) by (bit_vector);
    assert((0xF0u8 | (((v >> 18u32) & 0x7) as u8)) != 10u8) by (bit_vector);
    assert(v <= 0x7F && v != 10 ==> ((v & 0x7F) as u8) != 10u8) by (bit_vector);
}

/// A text without a newline is encoded without the byte of a newline.
pub proof fn lemma_encode_no_newline(line: Seq<char>)
    requires
        forall|i: int| 0 <= i < line.len() ==> line[i] != '\n',
    ensures
        forall|k: int| 0 <= k < encode_utf8(line).len() ==> #[trigger] encode_utf8(line)[k] != 10u8,
    decreases line.len(),
{
    if line.len() > 0 {
        let rest = line.drop_first();
        lemma_encode_no_newline(rest);
        char_is_scalar(line[0]);
        assert(line[0] as u32 != 10) by {
            assert(line[0] != '\n');
            vstd::utf8::char_u32_cast(line[0], line[0] as u32);
            assert(('\n' as u32) == 10);
            assert((10u32 as char) == '\n');
        }
        lemma_scalar_not_newline(line[0] as u32);
        let a = encode_scalar(line[0] as u32);
        let b = encode_utf8(rest);
        assert(encode_utf8(line) == a + b);
        assert forall|k: int| 0 <= k < encode_utf8(line).len() implies #[trigger] encode_utf8(line)[k] != 10u8 by {
            if k < a.len() {
                assert((a + b)[k] == a[k]);
            } else {
                assert((a + b)[k] == b[k - a.len()]);
            }
        }
    }
}

/// A text without a newline nor a final carriage return, written in UTF-8
/// with its newline in front of whatever follows, is the first line read
/// back: its bytes decode to the text itself, and what follows stays.
pub proof fn lemma_pushed_line_read_back(line: Seq<char>, rest: Seq<u8>)
    requires
        forall|i: int| 0 <= i < line.len() ==> line[i] != '\n',
        line.len() == 0 || line.last() != '\r',
    ensures
        ({
            let bytes = encode_utf8(line);
            let b = bytes.push(10u8) + rest;
            &&& first_newline(b) == Some(bytes.len() as int)
            &&& valid_utf8(b.take(bytes.len() as int))
            &&& strip_cr(decode_utf8(b.take(bytes.len() as int))) == line
            &&& b.skip(bytes.len() + 1int) == rest
        }),
{
    let bytes = encode_utf8(line);
    lemma_encode_no_newline(line);
    lemma_line_round_trip(bytes, rest);
    encode_utf8_valid_utf8(line);
    encode_utf8_decode_utf8(line);
}

/// Why a read was refused.
#[derive(Debug, Clone, Copy, PartialEq, Eq, Structural)]
pub enum BufferError {
    /// The data would not fit: the buffer would exceed its limit.
    OutOfMemory,
}

/// A bounded queue of bytes.
pub struct CircularBuffer {
    buffer: VecDeque<u8>,
}

impl View for CircularBuffer {
    type V = Seq<u8>;

    closed spec fn view(&self) -> Seq<u8> {
        self.buffer@
    }
}

impl CircularBuffer {
    #[verifier::type_invariant]
    spec fn bounded(self) -> bool {
        self.buffer@.len() <= MAX_BUFFER_SIZE
    }

    /// Creates an empty buffer.
    pub fn new() -> (res: CircularBuffer)
        ensures
            res@ == Seq::<u8>::empty(),
    {
        CircularBuffer { buffer: VecDeque::new() }
    }

    /// The number of bytes waiting; never more than `MAX_BUFFER_SIZE`.
    pub fn len(&self) -> (res: usize)
        ensures
            res == self@.len(),
            res <= MAX_BUFFER_SIZE,
    {
        proof {
            use_type_invariant(self);
        }
        self.buffer.len()
    }

    /// Appends data to the buffer. Returns false, and leaves the buffer as
    /// it was, if the data would make it exceed `MAX_BUFFER_SIZE` bytes.
    pub fn push(&mut self, data: &[u8]) -> (res: bool)
        ensures
            res == (old(self)@.len() + data@.len() <= MAX_BUFFER_SIZE),
            final(self)@ == if res {
                old(self)@ + data@
            } else {
                old(self)@
            },
    {
        proof {
            use_type_invariant(&*self);
        }
        if data.len() > MAX_BUFFER_SIZE - self.buffer.len() {
            return false;
        }
        let ghost start = self.buffer@;
        let mut q = VecDeque::new();
        std::mem::swap(&mut q, &mut self.buffer);
        let mut i: usize = 0;
        while i < data.len()
            invariant
                i <= data@.len(),
                start.len() + data@.len() <= MAX_BUFFER_SIZE,
                q@ == start + data@.take(i as int),
            decreases data.len() - i,
        {
            q.push_back(data[i]);
            i = i + 1;
            assert(q@ =~= start + data@.take(i as int));
        }
        assert(data@.take(data@.len() as int) =~= data@);
        self.buffer = q;
        true
    }

    /// Takes in the bytes `chunk` just read from a stream. Returns their
    /// number, or `OutOfMemory` (keeping the buffer as it was) if they would
    /// make the buffer overflow.
    pub fn read_from(&mut self, chunk: &[u8]) -> (res: Result<usize, BufferError>)
        ensures
            match res {
                Ok(n) => {
                    &&& n == chunk@.len()
                    &&& final(self)@ == old(self)@ + chunk@
                },
                Err(e) => {
                    &&& e == BufferError::OutOfMemory
                    &&& chunk@.len() > 0
                    &&& old(self)@.len() + chunk@.len() > MAX_BUFFER_SIZE
                    &&& final(self)@ == old(self)@
                },
            },
    {
        let n = chunk.len();
        if n > 0 {
            if !self.push(chunk) {
                return Err(BufferError::OutOfMemory);
            }
        } else {
            assert(old(self)@ + chunk@ =~= old(self)@);
        }
        Ok(n)
    }

    /// The bytes waiting in the buffer, oldest first.
    pub fn front_bytes(&self) -> (res: Vec<u8>)
        ensures
            res@ == self@,
    {
        let mut v: Vec<u8> = Vec::new();
        let mut i: usize = 0;
        while i < self.buffer.len()
            invariant
                i <= self.buffer@.len(),
                v@ == self.buffer@.take(i as int),
            decreases self.buffer.len() - i,
        {
            v.push(self.buffer[i]);
            i = i + 1;
            assert(v@ =~= self.buffer@.take(i as int));
        }
        assert(self.buffer@.take(self.buffer@.len() as int) =~= self.buffer@);
        v
    }

    /// Records that a stream accepted the first `written` bytes of the
    /// buffer: they leave it. Returns how many bytes left.
    pub fn write_to(&mut self, written: usize) -> (res: usize)
        ensures
            res == if written <= old(self)@.len() {
                written as int
            } else {
                old(self)@.len() as int
            },
            final(self)@ == old(self)@.skip(res as int),
    {
        proof {
            use_type_invariant(&*self);
        }
        let ghost start = self.buffer@;
        let mut q = VecDeque::new();
        std::mem::swap(&mut q, &mut self.buffer);
        let mut k: usize = 0;
        while k < written && q.len() > 0
            invariant
                k <= written,
                k <= start.len(),
                q@ == start.skip(k as int),
                start.len() <= MAX_BUFFER_SIZE,
            decreases written - k,
        {
            q.pop_front();
            k = k + 1;
            assert(q@ =~= start.skip(k as int));
        }
        self.buffer = q;
        k
    }

    /// Extracts a complete line (ending with `\n`) if there is one: the
    /// bytes before the first newline, decoded as UTF-8 (invalid parts
    /// replaced), without trailing carriage returns. The line and its
    /// newline leave the buffer.
    pub fn extract_line(&mut self) -> (res: Option<String>)
        ensures
            match first_newline(old(self)@) {
                Some(pos) => {
                    &&& res is Some
                    &&& res->0@ == strip_cr(utf8_lossy(old(self)@.take(pos)))
                    &&& valid_utf8(old(self)@.take(pos)) ==> res->0@ == strip_cr(decode_utf8(old(self)@.take(pos)))
                    &&& final(self)@ == old(self)@.skip(pos + 1)
                },
                None => {
                    &&& res is None
                    &&& final(self)@ == old(self)@
                },
            },
    {
        proof {
            use_type_invariant(&*self);
        }
        let mut pos: usize = 0;
        while pos < self.buffer.len() && self.buffer[pos] != 10u8
            invariant
                pos <= self.buffer@.len(),
                forall|j: int| 0 <= j < pos ==> self.buffer@[j] != 10u8,
            decreases self.buffer.len() - pos,
        {
            pos = pos + 1;
        }
        if pos == self.buffer.len() {
            assert(!exists|i: int| 0 <= i < self.buffer@.len() && self.buffer@[i] == 10u8);
            return None;
        }
        let ghost start = self.buffer@;
        proof {
            let p = first_newline(start);
            assert(start[pos as int] == 10u8);
            let c = choose|i: int|
                0 <= i < start.len() && start[i] == 10u8 && forall|j: int| 0 <= j < i ==> start[j] != 10u8;
            assert(0 <= c < start.len() && start[c] == 10u8 && forall|j: int| 0 <= j < c ==> start[j] != 10u8) by {
                assert(0 <= pos < start.len() && start[pos as int] == 10u8 && forall|j: int| 0 <= j < pos ==> start[j] != 10u8);
            }
            if c < pos {
                assert(start[c] != 10u8);
            }
            if pos < c {
                assert(start[pos as int] != 10u8);
            }
            assert(p == Some(pos as int));
        }
        let mut line: Vec<u8> = Vec::new();
        let mut q = VecDeque::new();
        std::mem::swap(&mut q, &mut self.buffer);
        let mut k: usize = 0;
        while k < pos
            invariant
                k <= pos < start.len(),
                q@ == start.skip(k as int),
                line@ == start.take(k as int),
                start.len() <= MAX_BUFFER_SIZE,
            decreases pos - k,
        {
            let b = q.pop_front().unwrap();
            line.push(b);
            k = k + 1;
            assert(q@ =~= start.skip(k as int));
            assert(line@ =~= start.take(k as int));
        }
        q.pop_front();
        assert(q@ =~= start.skip(pos + 1));
        self.buffer = q;
        let text = decode_lossy(line.as_slice());
        let cs = crate::text::chars_of(text.as_str());
        let mut end = cs.len();
        assert(cs@.take(end as int) =~= cs@);
        while end > 0 && cs[end - 1] == '\r'
            invariant
                end <= cs@.len(),
                strip_cr(cs@.take(end as int)) == strip_cr(cs@),
            decreases end,
        {
            assert(cs@.take(end as int).drop_last() =~= cs@.take(end - 1));
            end = end - 1;
        }
        let mut out = String::new();
        crate::text::push_chars(&mut out, &cs, 0, end);
        assert(cs@.subrange(0, end as int) =~= cs@.take(end as int));
        assert(strip_cr(cs@.take(end as int)) == cs@.take(end as int));
        Some(out)
    }

    /// Whether the buffer holds no byte.
    pub fn is_empty(&self) -> (res: bool)
        ensures
            res == (self@.len() == 0),
    {
        self.buffer.len() == 0
    }
}

} // verus!
