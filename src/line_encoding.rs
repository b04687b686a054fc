//! The run-length line table of a chunk.
//!
//! The table is a byte buffer of five-byte records `(line: u32 little-endian,
//! count: u8)`; record `(l, c)` attributes line `l` to `c` consecutive bytes of
//! code.
use byteorder::{ByteOrder, LittleEndian};
use vstd::prelude::*;

verus! {

/// Largest number of bytes one record covers.
pub const MAX_RUN: u8 = 255;

/// Size of one record: four bytes of line number and one byte of count.
pub const RECORD_LEN: usize = 5;

/// The little-endian `u32` stored at `b[at..at + 4]`.
pub open spec fn le_u32(b: Seq<u8>, at: int) -> u32 {
    (b[at] as u32) | ((b[at + 1] as u32) << 8u32) | ((b[at + 2] as u32) << 16u32) | ((
    b[at + 3] as u32) << 24u32)
}

/// The four bytes of `n`, least significant first.
pub open spec fn le_bytes(n: u32) -> Seq<u8> {
    seq![
        (n & 0xff) as u8,
        ((n >> 8u32) & 0xff) as u8,
        ((n >> 16u32) & 0xff) as u8,
        ((n >> 24u32) & 0xff) as u8,
    ]
}

/// `count` copies of `line`.
pub open spec fn run(line: u32, count: u8) -> Seq<u32> {
    Seq::new(count as nat, |_i: int| line)
}

/// The line of every byte that a table records, in order.
pub open spec fn decode(buf: Seq<u8>) -> Seq<u32>
    decreases buf.len(),
{
    if buf.len() < 5 {
        seq![]
    } else {
        let n = buf.len() - 5;
        decode(buf.subrange(0, n)) + run(le_u32(buf, n), buf[n + 4])
    }
}

/// The buffer after recording one more byte on `line`: the last record grows
/// when it holds the same line and has room, otherwise a record `(line, 1)`
/// is appended.
pub open spec fn add_bytes(buf: Seq<u8>, line: u32) -> Seq<u8> {
    let n = buf.len() - 5;
    if buf.len() >= 5 && le_u32(buf, n) == line && buf[n + 4] < MAX_RUN {
        buf.update(n + 4, (buf[n + 4] + 1) as u8)
    } else {
        buf + le_bytes(line) + seq![1u8]
    }
}

/// The buffer of a fresh table after recording `lines` in order.
pub open spec fn encode(lines: Seq<u32>) -> Seq<u8>
    decreases lines.len(),
{
    if lines.len() == 0 {
        seq![]
    } else {
        add_bytes(encode(lines.drop_last()), lines.last())
    }
}

/// Relies on byteorder's `LittleEndian::read_u32`: the four bytes at `at`,
/// least significant first.
#[verifier::external_body]
fn read_le_u32(buf: &Vec<u8>, at: usize) -> (r: u32)
    requires
        at + 4 <= buf@.len(),
    ensures
        r == le_u32(buf@, at as int),
{
    LittleEndian::read_u32(&buf[at..])
}

/// Relies on byteorder's `LittleEndian::write_u32`: the bytes of `n`, least
/// significant first.
#[verifier::external_body]
fn write_le_u32(n: u32) -> (r: [u8; 4])
    ensures
        r@ == le_bytes(n),
{
    let mut buf = [0u8; 4];
    LittleEndian::write_u32(&mut buf, n);
    buf
}

proof fn lemma_le_round_trip(n: u32)
    ensures
        le_u32(le_bytes(n), 0) == n,
{
    let b0 = (n & 0xff) as u8;
    let b1 = ((n >> 8u32) & 0xff) as u8;
    let b2 = ((n >> 16u32) & 0xff) as u8;
    let b3 = ((n >> 24u32) & 0xff) as u8;
    assert((b0 as u32) | ((b1 as u32) << 8u32) | ((b2 as u32) << 16u32) | ((b3 as u32) << 24u32)
        == n) by (bit_vector)
        requires
            b0 == (n & 0xff) as u8,
            b1 == ((n >> 8u32) & 0xff) as u8,
            b2 == ((n >> 16u32) & 0xff) as u8,
            b3 == ((n >> 24u32) & 0xff) as u8,
    ;
}

/// Recording one line appends exactly that line to what the table decodes to.
pub proof fn lemma_decode_add(buf: Seq<u8>, line: u32)
    requires
        buf.len() % 5 == 0,
    ensures
        decode(add_bytes(buf, line)) == decode(buf).push(line),
        add_bytes(buf, line).len() % 5 == 0,
{
    let n = buf.len() - 5;
    let nb = add_bytes(buf, line);
    if buf.len() >= 5 && le_u32(buf, n) == line && buf[n + 4] < MAX_RUN {
        assert(nb.subrange(0, n) =~= buf.subrange(0, n));
        assert(le_u32(nb, n) == le_u32(buf, n));
        assert(run(line, nb[n + 4]) =~= run(line, buf[n + 4]).push(line));
        assert(decode(buf) == decode(buf.subrange(0, n)) + run(line, buf[n + 4]));
        assert(decode(nb) =~= decode(buf).push(line));
    } else {
        lemma_le_round_trip(line);
        assert(nb.subrange(0, buf.len() as int) =~= buf);
        assert(le_u32(nb, buf.len() as int) == le_u32(le_bytes(line), 0));
        assert(run(line, 1) =~= seq![line]);
        assert(decode(nb) =~= decode(buf).push(line));
    }
}

/// Round trip of the line table: recording `lines` one by one into a fresh
/// table and reading it back gives `lines`, each at its own index.
pub proof fn lemma_line_table_round_trip(lines: Seq<u32>)
    ensures
        decode(encode(lines)) == lines,
        encode(lines).len() % 5 == 0,
    decreases lines.len(),
{
    if lines.len() > 0 {
        lemma_line_table_round_trip(lines.drop_last());
        lemma_decode_add(encode(lines.drop_last()), lines.last());
        assert(lines.drop_last().push(lines.last()) =~= lines);
    }
}

/// Whole records at the front of the buffer decode to a prefix of what the
/// buffer decodes to.
proof fn lemma_decode_prefix(buf: Seq<u8>, p: int)
    requires
        buf.len() % 5 == 0,
        0 <= p <= buf.len(),
        p % 5 == 0,
    ensures
        decode(buf.subrange(0, p)) == decode(buf).subrange(0, decode(buf.subrange(0, p)).len() as int),
        decode(buf.subrange(0, p)).len() <= decode(buf).len(),
    decreases buf.len(),
{
    if p < buf.len() {
        let n = buf.len() - 5;
        let front = buf.subrange(0, n);
        assert(front.subrange(0, p) =~= buf.subrange(0, p));
        lemma_decode_prefix(front, p);
    } else {
        assert(buf.subrange(0, p) =~= buf);
    }
}

/// A run-length table of the source line of every byte of code.
pub struct LineEncoding {
    buf: Vec<u8>,
}

impl LineEncoding {
    /// The encoded bytes.
    pub closed spec fn bytes(&self) -> Seq<u8> {
        self.buf@
    }

    /// The buffer holds whole records.
    pub open spec fn wf(&self) -> bool {
        self.bytes().len() % 5 == 0
    }

    /// The line of every recorded byte, in order.
    pub open spec fn lines(&self) -> Seq<u32> {
        decode(self.bytes())
    }

    pub fn new() -> (r: Self)
        ensures
            r.wf(),
            r.bytes() == Seq::<u8>::empty(),
            r.lines() == Seq::<u32>::empty(),
    {
        LineEncoding { buf: Vec::new() }
    }

    /// A table over the given bytes, if they are whole records.
    pub fn from_bytes(buf: Vec<u8>) -> (r: Option<Self>)
        ensures
            r.is_some() <==> buf@.len() % 5 == 0,
            r matches Some(e) ==> e.wf() && e.bytes() == buf@,
    {
        if buf.len() % RECORD_LEN == 0 {
            Some(LineEncoding { buf })
        } else {
            None
        }
    }

    /// The encoded bytes.
    pub fn as_bytes(&self) -> (r: &[u8])
        ensures
            r@ == self.bytes(),
    {
        self.buf.as_slice()
    }

    /// Records one more byte of code on `line_number`.
    pub fn add(&mut self, line_number: u32)
        requires
            old(self).wf(),
        ensures
            final(self).wf(),
            final(self).bytes() == add_bytes(old(self).bytes(), line_number),
            final(self).lines() == old(self).lines().push(line_number),
    {
        proof {
            lemma_decode_add(self.bytes(), line_number);
        }
        let len = self.buf.len();
        if len > 0 {
            let count_index = len - 1;
            let line_number_index = count_index - 4;
            let count = self.buf[count_index];
            let last_line_number = read_le_u32(&self.buf, line_number_index);
            if line_number == last_line_number && count < MAX_RUN {
                self.buf.set(count_index, count + 1);
                return;
            }
        }
        let bytes = write_le_u32(line_number);
        self.buf.push(bytes[0]);
        self.buf.push(bytes[1]);
        self.buf.push(bytes[2]);
        self.buf.push(bytes[3]);
        self.buf.push(1);
        assert(self.buf@ =~= old(self).buf@ + le_bytes(line_number) + seq![1u8]);
    }

    /// The line recorded for byte `index` of the code.
    pub fn get(&self, index: usize) -> (r: u32)
        requires
            self.wf(),
            index < self.lines().len(),
        ensures
            r == self.lines()[index as int],
    {
        let ghost buf = self.buf@;
        let len = self.buf.len();
        let mut pos: usize = 0;
        let mut seen: usize = 0;
        loop
            invariant
                buf == self.buf@,
                len == buf.len(),
                buf.len() % 5 == 0,
                pos % 5 == 0,
                pos <= buf.len(),
                seen == decode(buf.subrange(0, pos as int)).len(),
                seen <= index,
                index < decode(buf).len(),
            decreases buf.len() - pos,
        {
            proof {
                if pos == buf.len() {
                    assert(buf.subrange(0, pos as int) =~= buf);
                }
                assert(pos + 5 <= buf.len());
                let q = pos + 5;
                let front = buf.subrange(0, q);
                assert(front.subrange(0, pos as int) =~= buf.subrange(0, pos as int));
                assert(decode(front) == decode(buf.subrange(0, pos as int)) + run(
                    le_u32(buf, pos as int),
                    buf[pos + 4],
                ));
                lemma_decode_prefix(buf, q);
            }
            let line_number = read_le_u32(&self.buf, pos);
            let count = self.buf[pos + 4];
            if index - seen < count as usize {
                proof {
                    let front = buf.subrange(0, pos + 5);
                    assert(decode(front)[index as int] == line_number);
                    assert(decode(buf)[index as int] == decode(front)[index as int]);
                }
                return line_number;
            }
            seen = seen + count as usize;
            pos = pos + RECORD_LEN;
        }
    }
}

} // verus!
