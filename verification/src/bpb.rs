use vstd::prelude::*;
use vstd::utf8::*;

use crate::error::DnsError;
use crate::name::{
    dotted, lemma_dotted_push, lemma_first_dot, lemma_split_first, name_emission, name_text, read_name, split_labels,
    walk_name, NameWalk, lemma_name_roundtrip, name_wire, plain_name,
};

verus! {

/// How many compression pointers one name may follow. A name read from a
/// 512-byte buffer that needs more has visited some pointer target twice, so
/// its pointers lead round in a circle.
pub const MAX_JUMPS: usize = 513;

/// Big-endian value of the two bytes of `s` at `i`.
pub open spec fn be_u16(s: Seq<u8>, i: int) -> int {
    s[i] * 0x100 + s[i + 1]
}

/// Big-endian value of the four bytes of `s` at `i`.
pub open spec fn be_u32(s: Seq<u8>, i: int) -> int {
    s[i] * 0x1000000 + s[i + 1] * 0x10000 + s[i + 2] * 0x100 + s[i + 3]
}

/// The big-endian bytes of a 16-bit value.
pub open spec fn u16_bytes(v: u16) -> Seq<u8> {
    seq![(v / 0x100) as u8, (v % 0x100) as u8]
}

/// The big-endian bytes of a 32-bit value.
pub open spec fn u32_bytes(v: u32) -> Seq<u8> {
    seq![
        (v / 0x1000000) as u8,
        (v / 0x10000 % 0x100) as u8,
        (v / 0x100 % 0x100) as u8,
        (v % 0x100) as u8,
    ]
}

/// Whether `n` bytes from `pos` lie inside the buffer.
pub open spec fn fits(pos: int, n: int) -> bool {
    pos + n <= 512
}

/// Where the cursor stands after `n` bytes were read or written one at a time
/// from `pos`, stopping at the first byte that lies past the buffer's end.
pub open spec fn advance(pos: int, n: int) -> int {
    if pos + n <= 512 {
        pos + n
    } else if pos < 512 {
        512
    } else {
        pos
    }
}

/// `buf` with `w` written from `pos` on, as far as `buf` reaches.
#[verifier::opaque]
pub open spec fn put_bytes(buf: Seq<u8>, pos: int, w: Seq<u8>) -> Seq<u8> {
    Seq::new(
        buf.len(),
        |i: int|
            if pos <= i < pos + w.len() {
                w[i - pos]
            } else {
                buf[i]
            },
    )
}

/// What writing `w` from `pos` returns: `Ok` when all of it fits.
pub open spec fn put_result(pos: int, w: Seq<u8>) -> Result<(), DnsError> {
    if fits(pos, w.len() as int) {
        Ok(())
    } else {
        Err(DnsError::BufferOverflow)
    }
}

/// Bytes to write, and whether writing them ends on a label that is too long.
#[verifier::ext_equal]
pub struct Emission {
    pub bytes: Seq<u8>,
    pub label_too_long: bool,
}

/// Bytes to write, with nothing refused.
pub open spec fn plain(w: Seq<u8>) -> Emission {
    Emission { bytes: w, label_too_long: false }
}

/// `e1` and then, unless a label of `e1` was refused, `e2`.
pub open spec fn chain(e1: Emission, e2: Emission) -> Emission {
    if e1.label_too_long {
        e1
    } else {
        Emission { bytes: e1.bytes + e2.bytes, label_too_long: e2.label_too_long }
    }
}

/// The emissions `es`, one after another, stopping at the first refused label.
pub open spec fn chain_all(es: Seq<Emission>) -> Emission
    decreases es.len(),
{
    if es.len() == 0 {
        plain(seq![])
    } else {
        chain(es[0], chain_all(es.drop_first()))
    }
}

/// What writing `e` from `pos` returns: an overflow when a byte of it lies past
/// the end of the buffer, else the refusal of a label, if there is one.
pub open spec fn emit_result(pos: int, e: Emission) -> Result<(), DnsError> {
    if e.bytes.len() > 0 && !fits(pos, e.bytes.len() as int) {
        Err(DnsError::BufferOverflow)
    } else if e.label_too_long {
        Err(DnsError::LabelTooLong)
    } else {
        Ok(())
    }
}

/// `b1` is `b0` after the bytes `w` were written at its cursor, one at a time,
/// stopping at the end of the buffer.
pub open spec fn wrote(b0: BytePacketBuffer, b1: BytePacketBuffer, w: Seq<u8>) -> bool {
    &&& b1.bytes() == put_bytes(b0.bytes(), b0.cursor(), w)
    &&& b1.cursor() == advance(b0.cursor(), w.len() as int)
}

/// Calls `std::str::from_utf8`, which by its documentation succeeds exactly when
/// the bytes are valid UTF-8, and then holds the characters they encode.
#[verifier::external_body]
fn str_from_utf8(bytes: &[u8]) -> (r: Option<&str>)
    ensures
        r is Some <==> valid_utf8(bytes@),
        r matches Some(s) ==> s@ == decode_utf8(bytes@),
{
    std::str::from_utf8(bytes).ok()
}

/// Calls `String::pop`, which by its documentation removes the last character
/// and returns it, or returns `None` on an empty string.
#[verifier::external_body]
fn string_pop(s: &mut String) -> (r: Option<char>)
    ensures
        old(s)@.len() == 0 ==> r is None && final(s)@ == old(s)@,
        old(s)@.len() > 0 ==> r == Some(old(s)@.last()) && final(s)@ == old(s)@.drop_last(),
{
    s.pop()
}

/// A DNS message held in a fixed 512-byte array, with a cursor into it.
pub struct BytePacketBuffer {
    pub buf: [u8; 512],
    pos: usize,
}

impl BytePacketBuffer {
    /// The cursor position.
    pub closed spec fn cursor(&self) -> int {
        self.pos as int
    }

    /// The buffer contents.
    pub closed spec fn bytes(&self) -> Seq<u8> {
        self.buf@
    }

    /// The cursor is a `usize`, and the contents are 512 bytes long.
    pub broadcast proof fn lemma_buffer_shape(b: BytePacketBuffer)
        ensures
            0 <= #[trigger] b.cursor() <= usize::MAX,
            b.bytes().len() == 512,
    {
    }

    /// Creates a buffer of zero bytes with the cursor at the start.
    pub fn new() -> (b: Self)
        ensures
            b.bytes() == Seq::new(512, |i: int| 0u8),
            b.cursor() == 0,
    {
        let b = BytePacketBuffer { buf: [0u8; 512], pos: 0 };
        assert(b.buf@ =~= Seq::new(512, |i: int| 0u8));
        b
    }

    /// Creates a buffer holding `buf`, received from elsewhere, with the
    /// cursor at the start.
    pub fn from_bytes(buf: [u8; 512]) -> (b: Self)
        ensures
            b.bytes() == buf@,
            b.cursor() == 0,
    {
        BytePacketBuffer { buf, pos: 0 }
    }

    /// Returns the current position in the buffer.
    pub fn position(&self) -> (p: usize)
        ensures
            p == self.cursor(),
    {
        self.pos
    }

    /// Advances the position by `steps`; past the end of the buffer that is an
    /// error, and the position stays advanced.
    pub fn step(&mut self, steps: usize) -> (r: Result<(), DnsError>)
        requires
            old(self).cursor() + steps <= usize::MAX,
        ensures
            final(self).bytes() == old(self).bytes(),
            final(self).cursor() == old(self).cursor() + steps,
            r == (if final(self).cursor() > 512 {
                Err::<(), DnsError>(DnsError::BufferOverflow)
            } else {
                Ok(())
            }),
    {
        self.pos += steps;
        if self.pos > 512 {
            return Err(DnsError::BufferOverflow);
        }
        Ok(())
    }

    /// Moves the position to `pos`, which must not lie past the end.
    pub fn seek(&mut self, pos: usize) -> (r: Result<(), DnsError>)
        ensures
            final(self).bytes() == old(self).bytes(),
            pos > 512 ==> r == Err::<(), DnsError>(DnsError::BufferOverflow)
                && final(self).cursor() == old(self).cursor(),
            pos <= 512 ==> r == Ok::<(), DnsError>(()) && final(self).cursor() == pos,
    {
        if pos > 512 {
            return Err(DnsError::BufferOverflow);
        }
        self.pos = pos;
        Ok(())
    }

    /// Reads the byte at the position and moves past it.
    fn read(&mut self) -> (r: Result<u8, DnsError>)
        ensures
            final(self).bytes() == old(self).bytes(),
            final(self).cursor() == advance(old(self).cursor(), 1),
            r == (if fits(old(self).cursor(), 1) {
                Ok::<u8, DnsError>(old(self).bytes()[old(self).cursor()])
            } else {
                Err(DnsError::BufferOverflow)
            }),
    {
        if self.pos >= 512 {
            return Err(DnsError::BufferOverflow);
        }
        let res = self.buf[self.pos];
        self.pos += 1;
        Ok(res)
    }

    /// Returns the byte at `pos`, leaving the position as it is; an error when
    /// `pos`, or the position, lies past the end.
    fn get(&self, pos: usize) -> (r: Result<u8, DnsError>)
        ensures
            r == (if self.cursor() > 512 || pos >= 512 {
                Err::<u8, DnsError>(DnsError::BufferOverflow)
            } else {
                Ok(self.bytes()[pos as int])
            }),
    {
        if self.pos > 512 || pos >= 512 {
            return Err(DnsError::BufferOverflow);
        }
        Ok(self.buf[pos])
    }

    /// Returns the `len` bytes from `start`, leaving the position as it is.
    fn get_range(&self, start: usize, len: usize) -> (r: Result<&[u8], DnsError>)
        requires
            start + len <= usize::MAX,
        ensures
            start + len > 512 ==> r == Err::<&[u8], DnsError>(DnsError::BufferOverflow),
            start + len <= 512 ==> (r matches Ok(s) && s@ == self.bytes().subrange(
                start as int,
                start + len,
            )),
    {
        if start + len > 512 {
            return Err(DnsError::BufferOverflow);
        }
        Ok(&self.buf[start..start + len])
    }

    /// Reads a big-endian 16-bit value and moves past it.
    pub fn read_u16(&mut self) -> (r: Result<u16, DnsError>)
        ensures
            final(self).bytes() == old(self).bytes(),
            final(self).cursor() == advance(old(self).cursor(), 2),
            fits(old(self).cursor(), 2) ==> (r matches Ok(v) && v == be_u16(
                old(self).bytes(),
                old(self).cursor(),
            )),
            !fits(old(self).cursor(), 2) ==> r == Err::<u16, DnsError>(DnsError::BufferOverflow),
    {
        let hi = self.read()?;
        let lo = self.read()?;
        let v = ((hi as u16) << 8) | (lo as u16);
        assert(((hi as u16) << 8) | (lo as u16) == hi * 0x100 + lo) by (bit_vector);
        Ok(v)
    }

    /// Reads a big-endian 32-bit value and moves past it.
    pub fn read_u32(&mut self) -> (r: Result<u32, DnsError>)
        ensures
            final(self).bytes() == old(self).bytes(),
            final(self).cursor() == advance(old(self).cursor(), 4),
            fits(old(self).cursor(), 4) ==> (r matches Ok(v) && v == be_u32(
                old(self).bytes(),
                old(self).cursor(),
            )),
            !fits(old(self).cursor(), 4) ==> r == Err::<u32, DnsError>(DnsError::BufferOverflow),
    {
        let b0 = self.read()?;
        let b1 = self.read()?;
        let b2 = self.read()?;
        let b3 = self.read()?;
        let v = ((b0 as u32) << 24) | ((b1 as u32) << 16) | ((b2 as u32) << 8) | (b3 as u32);
        assert(((b0 as u32) << 24) | ((b1 as u32) << 16) | ((b2 as u32) << 8) | (b3 as u32)
            == b0 * 0x1000000 + b1 * 0x10000 + b2 * 0x100 + b3) by (bit_vector);
        Ok(v)
    }

    /// Reads a domain name at the position, following compression pointers,
    /// and appends it to `outstr`: each label followed by a dot, the last
    /// character then removed once the name is read whole. On success the
    /// position is just past the name as it stands here: past its zero byte,
    /// or past the two bytes of its first compression pointer, so that what
    /// follows the name is read next.
    pub fn read_qname(&mut self, outstr: &mut String) -> (r: Result<(), DnsError>)
        ensures
            final(self).bytes() == old(self).bytes(),
            final(self).cursor() == read_name(old(self).bytes(), old(self).cursor()).cursor,
            final(outstr)@ == name_text(
                old(outstr)@,
                read_name(old(self).bytes(), old(self).cursor()),
            ),
            r == (match read_name(old(self).bytes(), old(self).cursor()).error {
                None => Ok::<(), DnsError>(()),
                Some(e) => Err(e),
            }),
    {
        let ghost buf = self.bytes();
        let ghost whole = read_name(buf, self.pos as int);
        let ghost mut seen: Seq<Seq<u8>> = seq![];
        let mut jumps_left: usize = MAX_JUMPS;
        let mut jumped = false;
        let mut pos: usize = self.pos;
        proof {
            reveal_strlit(".");
        }
        loop
            invariant
                self.bytes() == buf,
                buf == old(self).bytes(),
                buf.len() == 512,
                self.pos <= 512 || pos == self.pos,
                jumps_left <= MAX_JUMPS,
                whole == read_name(buf, old(self).cursor()),
                ({
                    let rest = walk_name(
                        buf,
                        self.pos as int,
                        jumped,
                        pos as int,
                        jumps_left as nat,
                    );
                    whole == NameWalk {
                        labels: seen + rest.labels,
                        cursor: rest.cursor,
                        error: rest.error,
                    }
                }),
                outstr@ == old(outstr)@ + dotted(seen),
                "."@ == seq!['.'],
            decreases jumps_left, 512 - pos,
        {
            let ghost rest = walk_name(buf, self.pos as int, jumped, pos as int, jumps_left as nat);
            assert(seen + seq![] =~= seen);
            let len = self.get(pos)?;
            if len == 0 {
                if !outstr.as_str().is_empty() {
                    string_pop(outstr);
                }
                if !jumped {
                    self.seek(pos + 1)?;
                }
                return Ok(());
            }
            if (len & 0xC0) == 0xC0 {
                assert((len & 0xC0) == 0xC0 ==> len >= 0xC0) by (bit_vector);
                let b2 = self.get(pos + 1)?;
                let offset = ((((len as u16) ^ 0xC0) << 8) | (b2 as u16)) as usize;
                assert(len >= 0xC0 ==> (((len as u16) ^ 0xC0) << 8) | (b2 as u16) == (len - 0xC0)
                    * 0x100 + b2) by (bit_vector);
                if offset > 512 {
                    return Err(DnsError::BufferOverflow);
                }
                if !jumped {
                    self.seek(pos + 2)?;
                    jumped = true;
                }
                if jumps_left == 0 {
                    return Err(DnsError::PointerLoop);
                }
                jumps_left -= 1;
                pos = offset;
            } else {
                assert((len & 0xC0) != 0xC0 ==> len < 0xC0) by (bit_vector);
                pos += 1;
                let label_bytes = self.get_range(pos, len as usize)?;
                match str_from_utf8(label_bytes) {
                    None => {
                        return Err(DnsError::InvalidUtf8Label);
                    },
                    Some(label) => {
                        outstr.append(label);
                        outstr.append(".");
                        proof {
                            let l = label_bytes@;
                            lemma_dotted_push(seen, l);
                            let rest2 = walk_name(
                                buf,
                                self.pos as int,
                                jumped,
                                pos + len,
                                jumps_left as nat,
                            );
                            assert(seen.push(l) + rest2.labels =~= seen + rest.labels);
                            seen = seen.push(l);
                        }
                    },
                }
                pos += len as usize;
            }
        }
    }

    /// Writes one byte at the position and moves past it.
    pub fn write_u8(&mut self, val: u8) -> (r: Result<(), DnsError>)
        ensures
            wrote(*old(self), *final(self), seq![val]),
            r == put_result(old(self).cursor(), seq![val]),
    {
        reveal(put_bytes);
        if self.pos >= 512 {
            assert(put_bytes(self.bytes(), self.pos as int, seq![val]) =~= self.bytes());
            return Err(DnsError::BufferOverflow);
        }
        self.buf[self.pos] = val;
        self.pos += 1;
        assert(self.bytes() =~= put_bytes(old(self).bytes(), old(self).cursor(), seq![val]));
        Ok(())
    }

    /// Writes a 16-bit value, big-endian, and moves past it.
    pub fn write_u16(&mut self, val: u16) -> (r: Result<(), DnsError>)
        ensures
            wrote(*old(self), *final(self), u16_bytes(val)),
            r == put_result(old(self).cursor(), u16_bytes(val)),
    {
        let ghost b0 = *self;
        let hi = (val >> 8) as u8;
        let lo = (val & 0xFF) as u8;
        assert(hi == (val / 0x100) as u8 && lo == (val % 0x100) as u8) by (bit_vector)
            requires
                hi == (val >> 8) as u8,
                lo == (val & 0xFF) as u8,
        ;
        proof {
            lemma_wrote_nothing(b0);
        }
        let r1 = self.write_u8(hi);
        proof {
            lemma_wrote_then(b0, b0, *self, seq![], seq![hi], seq![lo]);
            assert(seq![] + seq![hi] =~= seq![hi]);
            assert(seq![hi] + seq![lo] =~= u16_bytes(val));
        }
        r1?;
        let ghost b1 = *self;
        let r2 = self.write_u8(lo);
        proof {
            lemma_wrote_then(b0, b1, *self, seq![hi], seq![lo], seq![]);
            assert(seq![hi] + seq![lo] =~= u16_bytes(val));
        }
        r2
    }

    /// Writes a 32-bit value, big-endian, and moves past it.
    pub fn write_u32(&mut self, val: u32) -> (r: Result<(), DnsError>)
        ensures
            wrote(*old(self), *final(self), u32_bytes(val)),
            r == put_result(old(self).cursor(), u32_bytes(val)),
    {
        let ghost b0 = *self;
        let x0 = ((val >> 24) & 0xFF) as u8;
        let x1 = ((val >> 16) & 0xFF) as u8;
        let x2 = ((val >> 8) & 0xFF) as u8;
        let x3 = (val & 0xFF) as u8;
        assert(x0 == (val / 0x1000000) as u8 && x1 == (val / 0x10000 % 0x100) as u8 && x2 == (val
            / 0x100 % 0x100) as u8 && x3 == (val % 0x100) as u8) by (bit_vector)
            requires
                x0 == ((val >> 24) & 0xFF) as u8,
                x1 == ((val >> 16) & 0xFF) as u8,
                x2 == ((val >> 8) & 0xFF) as u8,
                x3 == (val & 0xFF) as u8,
        ;
        let ghost w = u32_bytes(val);
        assert(w =~= seq![x0] + seq![x1] + seq![x2] + seq![x3]);
        proof {
            lemma_wrote_nothing(b0);
        }
        let r0 = self.write_u8(x0);
        proof {
            lemma_wrote_then(b0, b0, *self, seq![], seq![x0], seq![x1, x2, x3]);
            assert(seq![] + seq![x0] =~= seq![x0]);
            assert(seq![x0] + seq![x1, x2, x3] =~= w);
        }
        r0?;
        let ghost b1 = *self;
        let r1 = self.write_u8(x1);
        proof {
            lemma_wrote_then(b0, b1, *self, seq![x0], seq![x1], seq![x2, x3]);
            assert(seq![x0] + seq![x1] + seq![x2, x3] =~= w);
        }
        r1?;
        let ghost b2 = *self;
        let r2 = self.write_u8(x2);
        proof {
            assert(seq![x0] + seq![x1] =~= seq![x0, x1]);
            lemma_wrote_then(b0, b2, *self, seq![x0, x1], seq![x2], seq![x3]);
            assert(seq![x0, x1] + seq![x2] + seq![x3] =~= w);
        }
        r2?;
        let ghost b3 = *self;
        let r3 = self.write_u8(x3);
        proof {
            assert(seq![x0, x1] + seq![x2] =~= seq![x0, x1, x2]);
            lemma_wrote_then(b0, b3, *self, seq![x0, x1, x2], seq![x3], seq![]);
            assert(seq![x0, x1, x2] + seq![x3] =~= w);
        }
        r3
    }

    /// Writes a domain name: each of its '.'-separated labels after a byte that
    /// holds its length, then a zero byte. An empty name is the zero byte alone.
    /// A label longer than 63 bytes is refused before any of it is written.
    pub fn write_qname(&mut self, qname: &str) -> (r: Result<(), DnsError>)
        ensures
            wrote(
                *old(self),
                *final(self),
                name_emission(split_labels(encode_utf8(qname@))).bytes,
            ),
            r == emit_result(old(self).cursor(), name_emission(split_labels(encode_utf8(qname@)))),
    {
        let ghost b0 = *self;
        let bytes = qname.as_bytes();
        let n = bytes.len();
        let ghost all = bytes@;
        let ghost full = name_emission(split_labels(all));
        let ghost mut w: Seq<u8> = seq![];
        let mut start: usize = 0;
        proof {
            lemma_wrote_nothing(b0);
            assert(all.skip(0) =~= all);
            assert(seq![] + full.bytes =~= full.bytes);
        }
        while start < n
            invariant
                n == all.len(),
                all == bytes@,
                start <= n,
                b0.bytes().len() == 512,
                b0.cursor() >= 0,
                full == name_emission(split_labels(all)),
                all == encode_utf8(qname@),
                b0 == *old(self),
                wrote(b0, *self, w),
                fits(b0.cursor(), w.len() as int) || w.len() == 0,
                chain(plain(w), name_emission(split_labels(all.skip(start as int)))) == full,
            decreases n - start,
        {
            let mut end = start;
            while end < n && bytes[end] != 0x2E
                invariant
                    start <= end <= n,
                    n == all.len(),
                    all == bytes@,
                    forall|k: int| start <= k < end ==> all[k] != 0x2E,
                decreases n - end,
            {
                end += 1;
            }
            let ghost label = all.subrange(start as int, end as int);
            let ghost rest_labels = if end == n {
                seq![]
            } else {
                split_labels(all.skip(end + 1))
            };
            let ghost ls = seq![label] + rest_labels;
            proof {
                lemma_split_first(all, start as int, end as int);
                assert(ls[0] == label);
                assert(ls.drop_first() =~= rest_labels);
            }
            let len = end - start;
            if len > 0x3f {
                proof {
                    assert(w + seq![] =~= w);
                }
                return Err(DnsError::LabelTooLong);
            }
            let ghost head = seq![len as u8] + label;
            let ghost tail = name_emission(rest_labels);
            proof {
                lemma_chain_plain(w, head, tail);
            }
            let ghost bl = *self;
            let r0 = self.write_u8(len as u8);
            proof {
                lemma_wrote_then(b0, bl, *self, w, seq![len as u8], label + tail.bytes);
                assert(w + seq![len as u8] + (label + tail.bytes) =~= full.bytes);
            }
            r0?;
            proof {
                w = w + seq![len as u8];
            }
            let mut i = start;
            while i < end
                invariant
                    start <= i <= end <= n,
                    n == all.len(),
                    all == bytes@,
                    b0.bytes().len() == 512,
                    b0.cursor() >= 0,
                    b0 == *old(self),
                    full == name_emission(split_labels(all)),
                    all == encode_utf8(qname@),
                    label == all.subrange(start as int, end as int),
                    wrote(b0, *self, w + all.subrange(start as int, i as int)),
                    fits(b0.cursor(), w.len() + i - start),
                    full.bytes == w + label + tail.bytes,
                    full.label_too_long == tail.label_too_long,
                decreases end - i,
            {
                let ghost bi = *self;
                let ghost done = all.subrange(start as int, i as int);
                let ghost later = all.subrange(i + 1, end as int) + tail.bytes;
                let ri = self.write_u8(bytes[i]);
                proof {
                    lemma_wrote_then(b0, bi, *self, w + done, seq![all[i as int]], later);
                    assert(done + seq![all[i as int]] =~= all.subrange(start as int, i + 1));
                    assert(w + done + seq![all[i as int]] =~= w + all.subrange(start as int, i + 1));
                    assert(w + done + seq![all[i as int]] + later =~= full.bytes);
                }
                ri?;
                i += 1;
            }
            proof {
                w = w + label;
                assert(all.subrange(start as int, end as int) =~= label);
                assert(chain(plain(w), tail) == full);
            }
            start = if end == n {
                n
            } else {
                end + 1
            };
            proof {
                if end == n {
                    assert(all.skip(n as int) =~= seq![]);
                }
            }
        }
        let ghost bz = *self;
        let rz = self.write_u8(0);
        proof {
            assert(all.skip(n as int) =~= seq![]);
            lemma_wrote_then(b0, bz, *self, w, seq![0u8], seq![]);
            assert(w + seq![0u8] + seq![] =~= w + seq![0u8]);
        }
        rz
    }
}

/// Writing nothing leaves a buffer as it is.
pub proof fn lemma_wrote_nothing(b: BytePacketBuffer)
    requires
        b.cursor() >= 0,
        b.bytes().len() == 512,
    ensures
        wrote(b, b, seq![]),
{
    reveal(put_bytes);
    assert(put_bytes(b.bytes(), b.cursor(), seq![]) =~= b.bytes());
}

/// Writing `w1` in full and then `w2` is writing `w1 + w2`; when `w2` does not
/// fit, nothing written after it changes the buffer either.
pub proof fn lemma_wrote_then(
    b0: BytePacketBuffer,
    b1: BytePacketBuffer,
    b2: BytePacketBuffer,
    w1: Seq<u8>,
    w2: Seq<u8>,
    rest: Seq<u8>,
)
    requires
        b0.bytes().len() == 512,
        b0.cursor() >= 0,
        wrote(b0, b1, w1),
        fits(b0.cursor(), w1.len() as int) || w1.len() == 0,
        wrote(b1, b2, w2),
    ensures
        wrote(b0, b2, w1 + w2),
        put_result(b1.cursor(), w2) == put_result(b0.cursor(), w1 + w2),
        !fits(b1.cursor(), w2.len() as int) ==> wrote(b0, b2, w1 + w2 + rest)
            && put_result(b0.cursor(), w1 + w2 + rest) == put_result(b1.cursor(), w2),
{
    reveal(put_bytes);
    let p = b0.cursor();
    if w1.len() == 0 {
        assert(put_bytes(b0.bytes(), p, w1) =~= b0.bytes());
        assert(w1 + w2 =~= w2);
        assert(w1 + w2 + rest =~= w2 + rest);
    }
    assert(put_bytes(put_bytes(b0.bytes(), p, w1), p + w1.len(), w2) =~= put_bytes(
        b0.bytes(),
        p,
        w1 + w2,
    ));
    if !fits(b1.cursor(), w2.len() as int) {
        assert(put_bytes(b0.bytes(), p, w1 + w2 + rest) =~= put_bytes(b0.bytes(), p, w1 + w2));
    }
}


/// `chain` of plain bytes regroups.
pub proof fn lemma_chain_plain(w: Seq<u8>, x: Seq<u8>, e: Emission)
    ensures
        chain(plain(w), chain(plain(x), e)) == chain(plain(w + x), e),
        chain(plain(w), chain(plain(x), e)).bytes == w + x + e.bytes,
{
    assert(w + (x + e.bytes) =~= w + x + e.bytes);
}


/// After `w` was written in full, the buffer holds `w` where it was written.
pub proof fn lemma_wrote_holds(b0: BytePacketBuffer, b1: BytePacketBuffer, w: Seq<u8>)
    requires
        b0.bytes().len() == 512,
        b0.cursor() >= 0,
        wrote(b0, b1, w),
        fits(b0.cursor(), w.len() as int),
    ensures
        b1.bytes().subrange(b0.cursor(), b0.cursor() + w.len()) == w,
        b1.bytes().len() == 512,
        b1.cursor() == b0.cursor() + w.len(),
{
    reveal(put_bytes);
    assert(b1.bytes().subrange(b0.cursor(), b0.cursor() + w.len()) =~= w);
}

/// When the first of two emissions fails, writing it is writing both, and
/// gives the same result.
pub proof fn lemma_emit_first_fails(
    b0: BytePacketBuffer,
    b1: BytePacketBuffer,
    e1: Emission,
    e2: Emission,
)
    requires
        b0.bytes().len() == 512,
        b0.cursor() >= 0,
        wrote(b0, b1, e1.bytes),
        emit_result(b0.cursor(), e1) is Err,
    ensures
        wrote(b0, b1, chain(e1, e2).bytes),
        emit_result(b0.cursor(), chain(e1, e2)) == emit_result(b0.cursor(), e1),
{
    reveal(put_bytes);
    if !e1.label_too_long {
        let p = b0.cursor();
        assert(put_bytes(b0.bytes(), p, e1.bytes + e2.bytes) =~= put_bytes(b0.bytes(), p, e1.bytes));
    }
}

/// Writing one emission with success and then another is writing both.
pub proof fn lemma_emit_chain(
    b0: BytePacketBuffer,
    b1: BytePacketBuffer,
    b2: BytePacketBuffer,
    e1: Emission,
    e2: Emission,
)
    requires
        b0.bytes().len() == 512,
        b0.cursor() >= 0,
        wrote(b0, b1, e1.bytes),
        emit_result(b0.cursor(), e1) is Ok,
        wrote(b1, b2, e2.bytes),
    ensures
        wrote(b0, b2, chain(e1, e2).bytes),
        emit_result(b1.cursor(), e2) == emit_result(b0.cursor(), chain(e1, e2)),
{
    lemma_wrote_then(b0, b1, b2, e1.bytes, e2.bytes, seq![]);
}

/// A plain name written in full at a buffer's cursor reads back, into an
/// empty string, from the same position as the same name, with the cursor
/// just past it.
pub proof fn lemma_qname_roundtrip(name: Seq<char>, b0: BytePacketBuffer, b1: BytePacketBuffer)
    requires
        plain_name(name),
        b0.bytes().len() == 512,
        b0.cursor() >= 0,
        wrote(b0, b1, name_wire(name)),
        fits(b0.cursor(), name_wire(name).len() as int),
    ensures
        read_name(b1.bytes(), b0.cursor()).error is None,
        read_name(b1.bytes(), b0.cursor()).cursor == b0.cursor() + name_wire(name).len(),
        name_text(seq![], read_name(b1.bytes(), b0.cursor())) == name,
{
    lemma_wrote_holds(b0, b1, name_wire(name));
    lemma_name_roundtrip(name, b1.bytes(), b0.cursor());
}

/// `chain` is associative.
pub proof fn lemma_chain_assoc(a: Emission, b: Emission, c: Emission)
    ensures
        chain(chain(a, b), c) == chain(a, chain(b, c)),
{
    assert(a.bytes + b.bytes + c.bytes =~= a.bytes + (b.bytes + c.bytes));
    assert(chain(chain(a, b), c) =~= chain(a, chain(b, c)));
}

/// Writing nothing before an emission changes nothing.
pub proof fn lemma_chain_unit(e: Emission)
    ensures
        chain(plain(seq![]), e) == e,
        chain(e, plain(seq![])) == e,
{
    assert(seq![] + e.bytes =~= e.bytes);
    assert(e.bytes + seq![] =~= e.bytes);
    assert(chain(plain(seq![]), e) =~= e);
    assert(chain(e, plain(seq![])) =~= e);
}

/// The emissions of two sequences, one after the other, are those of their
/// concatenation.
pub proof fn lemma_chain_all_concat(es1: Seq<Emission>, es2: Seq<Emission>)
    ensures
        chain_all(es1 + es2) == chain(chain_all(es1), chain_all(es2)),
    decreases es1.len(),
{
    if es1.len() == 0 {
        assert(es1 + es2 =~= es2);
        lemma_chain_unit(chain_all(es2));
    } else {
        assert((es1 + es2).drop_first() =~= es1.drop_first() + es2);
        lemma_chain_all_concat(es1.drop_first(), es2);
        lemma_chain_assoc(es1[0], chain_all(es1.drop_first()), chain_all(es2));
    }
}

/// Writing the emission at `k` of a sequence after those before it, from the
/// start of the whole.
pub proof fn lemma_emit_step(
    b0: BytePacketBuffer,
    bk: BytePacketBuffer,
    bk1: BytePacketBuffer,
    es: Seq<Emission>,
    k: int,
)
    requires
        b0.bytes().len() == 512,
        b0.cursor() >= 0,
        0 <= k < es.len(),
        wrote(b0, bk, chain_all(es.take(k)).bytes),
        emit_result(b0.cursor(), chain_all(es.take(k))) is Ok,
        wrote(bk, bk1, es[k].bytes),
    ensures
        wrote(b0, bk1, chain_all(es.take(k + 1)).bytes),
        emit_result(bk.cursor(), es[k]) == emit_result(b0.cursor(), chain_all(es.take(k + 1))),
        emit_result(bk.cursor(), es[k]) is Err ==> wrote(b0, bk1, chain_all(es).bytes)
            && emit_result(b0.cursor(), chain_all(es)) == emit_result(bk.cursor(), es[k]),
{
    let pre = es.take(k);
    let one = seq![es[k]];
    assert(es.take(k + 1) =~= pre + one);
    lemma_chain_all_concat(pre, one);
    assert(one.drop_first() =~= Seq::<Emission>::empty());
    assert(chain_all(one.drop_first()) == plain(seq![]));
    assert(chain_all(one) == chain(es[k], plain(seq![])));
    lemma_chain_unit(es[k]);
    assert(chain_all(es.take(k + 1)) == chain(chain_all(pre), es[k]));
    lemma_emit_chain(b0, bk, bk1, chain_all(pre), es[k]);
    if emit_result(bk.cursor(), es[k]) is Err {
        let rest = es.skip(k + 1);
        assert(es =~= es.take(k + 1) + rest);
        lemma_chain_all_concat(es.take(k + 1), rest);
        lemma_emit_first_fails(b0, bk1, chain_all(es.take(k + 1)), chain_all(rest));
    }
}

/// Writing nothing is writing no emission.
pub proof fn lemma_emit_start(b0: BytePacketBuffer, es: Seq<Emission>)
    requires
        b0.bytes().len() == 512,
        b0.cursor() >= 0,
    ensures
        wrote(b0, b0, chain_all(es.take(0)).bytes),
        emit_result(b0.cursor(), chain_all(es.take(0))) is Ok,
{
    assert(es.take(0) =~= Seq::<Emission>::empty());
    lemma_wrote_nothing(b0);
}


/// Where `s` holds `a + b` from `c`, it holds `a` from `c` and `b` after it.
pub proof fn lemma_holds_split(s: Seq<u8>, c: int, a: Seq<u8>, b: Seq<u8>)
    requires
        0 <= c,
        c + a.len() + b.len() <= s.len(),
        s.subrange(c, c + a.len() + b.len()) == a + b,
    ensures
        s.subrange(c, c + a.len()) == a,
        s.subrange(c + a.len(), c + a.len() + b.len()) == b,
{
    let whole = s.subrange(c, c + a.len() + b.len());
    assert forall|k: int| 0 <= k < a.len() implies s.subrange(c, c + a.len())[k] == a[k] by {
        assert(whole[k] == (a + b)[k]);
    }
    assert forall|k: int| 0 <= k < b.len() implies s.subrange(
        c + a.len(),
        c + a.len() + b.len(),
    )[k] == b[k] by {
        assert(whole[a.len() + k] == (a + b)[a.len() + k]);
    }
    assert(s.subrange(c, c + a.len()) =~= a);
    assert(s.subrange(c + a.len(), c + a.len() + b.len()) =~= b);
}

/// Emissions that refuse no label, one after another, refuse none.
pub proof fn lemma_chain_all_accepts(es: Seq<Emission>)
    requires
        forall|k: int| 0 <= k < es.len() ==> !(#[trigger] es[k]).label_too_long,
    ensures
        !chain_all(es).label_too_long,
    decreases es.len(),
{
    if es.len() > 0 {
        assert(!es[0].label_too_long);
        assert forall|k: int| 0 <= k < es.drop_first().len() implies !(
        #[trigger] es.drop_first()[k]).label_too_long by {
            assert(es.drop_first()[k] == es[k + 1]);
        }
        lemma_chain_all_accepts(es.drop_first());
    }
}

/// The last of a sequence of emissions follows the others.
pub proof fn lemma_chain_all_push(es: Seq<Emission>, e: Emission)
    ensures
        chain_all(es.push(e)) == chain(chain_all(es), e),
{
    let one = seq![e];
    assert(es.push(e) =~= es + one);
    lemma_chain_all_concat(es, one);
    assert(one.drop_first() =~= Seq::<Emission>::empty());
    assert(chain_all(one.drop_first()) == plain(seq![]));
    lemma_chain_unit(e);
}

} // verus!
