//! Page buffers: a byte area addressed by position, backed by a `ByteBuffer`.
//!
//! Integers are stored as 4 bytes in big-endian order; strings as their raw
//! UTF-8 bytes, without length prefix.

use bytebuffer::ByteBuffer;
use vstd::prelude::*;
use crate::text::string_from_utf8;
use vstd::math::min;
use vstd::string::StringSliceAdditionalSpecFns;

verus! {

#[verifier::external_type_specification]
#[verifier::external_body]
pub struct ExByteBuffer(bytebuffer::ByteBuffer);

/// The bytes a `ByteBuffer` holds.
pub uninterp spec fn byte_buffer_data(b: ByteBuffer) -> Seq<u8>;

/// The write cursor of a `ByteBuffer`.
pub uninterp spec fn byte_buffer_wpos(b: ByteBuffer) -> nat;

/// The read cursor of a `ByteBuffer`.
pub uninterp spec fn byte_buffer_rpos(b: ByteBuffer) -> nat;

/// Whether a `ByteBuffer` uses big-endian order and has no bit-level cursor
/// pending (its bit cursors are both zero).
pub uninterp spec fn byte_buffer_plain(b: ByteBuffer) -> bool;

// ---------------------------------------------------------------------------
// Byte-level model
// ---------------------------------------------------------------------------

/// The 4 big-endian bytes of a 32-bit word.
pub open spec fn be_bytes(v: u32) -> Seq<u8> {
    seq![
        (v / 0x100_0000) as u8,
        ((v / 0x1_0000) % 0x100) as u8,
        ((v / 0x100) % 0x100) as u8,
        (v % 0x100) as u8,
    ]
}

/// The 32-bit word whose big-endian bytes are the first 4 of `s`.
pub open spec fn be_value(s: Seq<u8>) -> u32 {
    (s[0] as int * 0x100_0000 + s[1] as int * 0x1_0000 + s[2] as int * 0x100 + s[3] as int) as u32
}

/// Writing `bytes` at cursor `at` (with `at <= data.len()`), growing the data
/// with the written bytes when they run past its end.
pub open spec fn spec_write_bytes(data: Seq<u8>, at: int, bytes: Seq<u8>) -> Seq<u8> {
    let end = at + bytes.len();
    data.subrange(0, at) + bytes + (if end < data.len() { data.subrange(end, data.len() as int) } else {
        Seq::<u8>::empty()
    })
}

/// The 4 bytes of `data` starting at `pos`.
pub open spec fn word_at(data: Seq<u8>, pos: int) -> Seq<u8> {
    data.subrange(pos, pos + 4)
}

/// The effect of `Buffer::write_int`: the new state, and whether it
/// succeeded.
pub open spec fn m_write_int(m: BufferView, pos: int, val: i32) -> (BufferView, bool) {
    if pos + 4 <= m.data.len() {
        (BufferView { data: spec_write_bytes(m.data, pos, be_bytes(val as u32)), wpos: 0, rpos: 0 }, true)
    } else {
        (m, false)
    }
}

/// The effect of `Buffer::write_string` writing all of `bytes`: the new
/// state, and whether it succeeded.
pub open spec fn m_write_string(m: BufferView, pos: int, bytes: Seq<u8>) -> (BufferView, bool) {
    if bytes.len() <= m.data.len() {
        let at = min(pos, m.data.len() as int);
        (BufferView { data: spec_write_bytes(m.data, at, bytes), wpos: (at + bytes.len()) as nat, rpos: m.rpos }, true)
    } else {
        (m, false)
    }
}

pub proof fn lemma_be_roundtrip(v: u32)
    ensures
        be_value(be_bytes(v)) == v,
        be_bytes(v).len() == 4,
{
    let b0 = v / 0x100_0000;
    let b1 = (v / 0x1_0000) % 0x100;
    let b2 = (v / 0x100) % 0x100;
    let b3 = v % 0x100;
    assert(b0 * 0x100_0000 + b1 * 0x1_0000 + b2 * 0x100 + b3 == v) by (nonlinear_arith)
        requires
            b0 == v / 0x100_0000,
            b1 == (v / 0x1_0000) % 0x100,
            b2 == (v / 0x100) % 0x100,
            b3 == v % 0x100,
    ;
    assert(b0 < 0x100) by (nonlinear_arith) requires b0 == v / 0x100_0000, v <= 0xffff_ffff;
}

/// Writing an integer and reading it back at the same place gives that
/// integer, and keeps the size of the buffer.
pub proof fn lemma_write_then_read_int(m: BufferView, pos: int, val: i32)
    requires
        0 <= pos,
        pos + 4 <= m.data.len(),
    ensures
        m_write_int(m, pos, val).1,
        m_write_int(m, pos, val).0.data.len() == m.data.len(),
        be_value(word_at(m_write_int(m, pos, val).0.data, pos)) as i32 == val,
{
    let bytes = be_bytes(val as u32);
    lemma_be_roundtrip(val as u32);
    let d = m_write_int(m, pos, val).0.data;
    assert(word_at(d, pos) =~= bytes);
    let u = val as u32;
    assert((u as i32) == val) by (bit_vector)
        requires
            u == val as u32,
    ;
}

/// Writing the whole of a text and reading back as many bytes at the same
/// place gives that text, when it fits in the buffer and the place is
/// within it.
pub proof fn lemma_write_then_read_string(m: BufferView, pos: int, val: Seq<char>)
    requires
        0 <= pos <= m.data.len(),
        vstd::utf8::encode_utf8(val).len() <= m.data.len(),
    ensures
        ({
            let bytes = vstd::utf8::encode_utf8(val);
            let (m2, ok) = m_write_string(m, pos, bytes);
            let at = min(pos, m2.data.len() as int);
            &&& ok
            &&& at + bytes.len() <= m2.data.len()
            &&& vstd::utf8::valid_utf8(m2.data.subrange(at, at + bytes.len()))
            &&& vstd::utf8::decode_utf8(m2.data.subrange(at, at + bytes.len())) == val
        }),
{
    let bytes = vstd::utf8::encode_utf8(val);
    let (m2, ok) = m_write_string(m, pos, bytes);
    let at0 = min(pos, m.data.len() as int);
    assert(m2.data.subrange(at0, at0 + bytes.len()) =~= bytes);
    assert(min(pos, m2.data.len() as int) == at0);
    vstd::utf8::encode_utf8_valid_utf8(val);
    vstd::utf8::encode_utf8_decode_utf8(val);
}

// ---------------------------------------------------------------------------
// Trusted items over `ByteBuffer`
// ---------------------------------------------------------------------------

/// `ByteBuffer::new`: an empty buffer, both cursors at zero, big-endian, no
/// pending bits.
#[verifier::external_body]
fn byte_buffer_new() -> (b: ByteBuffer)
    ensures
        byte_buffer_data(b) == Seq::<u8>::empty(),
        byte_buffer_wpos(b) == 0,
        byte_buffer_rpos(b) == 0,
        byte_buffer_plain(b),
{
    ByteBuffer::new()
}

/// `ByteBuffer::from_vec`: a buffer that holds `v`, the write cursor at its
/// end, the read cursor at zero, big-endian, no pending bits.
#[verifier::external_body]
fn byte_buffer_from_vec(v: Vec<u8>) -> (b: ByteBuffer)
    ensures
        byte_buffer_data(b) == v@,
        byte_buffer_wpos(b) == v@.len(),
        byte_buffer_rpos(b) == 0,
        byte_buffer_plain(b),
{
    ByteBuffer::from_vec(v)
}

/// `ByteBuffer::resize`: appends `size - len` zero bytes; cursors unchanged.
/// It computes `size - len` unchecked, so a smaller size is left out.
#[verifier::external_body]
fn byte_buffer_resize(b: &mut ByteBuffer, size: usize)
    requires
        size >= byte_buffer_data(*old(b)).len(),
    ensures
        byte_buffer_data(*final(b)) == byte_buffer_data(*old(b)) + Seq::new(
            (size - byte_buffer_data(*old(b)).len()) as nat,
            |i: int| 0u8,
        ),
        byte_buffer_wpos(*final(b)) == byte_buffer_wpos(*old(b)),
        byte_buffer_rpos(*final(b)) == byte_buffer_rpos(*old(b)),
        byte_buffer_plain(*final(b)) == byte_buffer_plain(*old(b)),
{
    b.resize(size)
}

/// `ByteBuffer::len`: the number of bytes held.
#[verifier::external_body]
fn byte_buffer_len(b: &ByteBuffer) -> (n: usize)
    ensures
        n == byte_buffer_data(*b).len(),
{
    b.len()
}

/// `ByteBuffer::set_wpos`: the write cursor becomes `min(pos, len)`.
#[verifier::external_body]
fn byte_buffer_set_wpos(b: &mut ByteBuffer, pos: usize)
    ensures
        byte_buffer_data(*final(b)) == byte_buffer_data(*old(b)),
        byte_buffer_wpos(*final(b)) == if pos <= byte_buffer_data(*old(b)).len() {
            pos as nat
        } else {
            byte_buffer_data(*old(b)).len()
        },
        byte_buffer_rpos(*final(b)) == byte_buffer_rpos(*old(b)),
        byte_buffer_plain(*final(b)) == byte_buffer_plain(*old(b)),
{
    b.set_wpos(pos)
}

/// `ByteBuffer::set_rpos`: the read cursor becomes `min(pos, len)`.
#[verifier::external_body]
fn byte_buffer_set_rpos(b: &mut ByteBuffer, pos: usize)
    ensures
        byte_buffer_data(*final(b)) == byte_buffer_data(*old(b)),
        byte_buffer_rpos(*final(b)) == if pos <= byte_buffer_data(*old(b)).len() {
            pos as nat
        } else {
            byte_buffer_data(*old(b)).len()
        },
        byte_buffer_wpos(*final(b)) == byte_buffer_wpos(*old(b)),
        byte_buffer_plain(*final(b)) == byte_buffer_plain(*old(b)),
{
    b.set_rpos(pos)
}

/// `ByteBuffer::reset_cursors`: both cursors back to zero, data unchanged.
#[verifier::external_body]
fn byte_buffer_reset_cursors(b: &mut ByteBuffer)
    ensures
        byte_buffer_data(*final(b)) == byte_buffer_data(*old(b)),
        byte_buffer_wpos(*final(b)) == 0,
        byte_buffer_rpos(*final(b)) == 0,
        byte_buffer_plain(*final(b)) == byte_buffer_plain(*old(b)),
{
    b.reset_cursors()
}

/// `ByteBuffer::write_i32`: on a big-endian buffer with no pending bits,
/// writes the 4 big-endian bytes of `v` at the write cursor (growing the data
/// when needed) and advances the cursor by 4.
#[verifier::external_body]
fn byte_buffer_write_i32(b: &mut ByteBuffer, v: i32)
    requires
        byte_buffer_plain(*old(b)),
        byte_buffer_wpos(*old(b)) <= byte_buffer_data(*old(b)).len(),
        byte_buffer_wpos(*old(b)) + 4 <= usize::MAX,
    ensures
        byte_buffer_data(*final(b)) == spec_write_bytes(
            byte_buffer_data(*old(b)),
            byte_buffer_wpos(*old(b)) as int,
            be_bytes(v as u32),
        ),
        byte_buffer_wpos(*final(b)) == byte_buffer_wpos(*old(b)) + 4,
        byte_buffer_rpos(*final(b)) == byte_buffer_rpos(*old(b)),
        byte_buffer_plain(*final(b)),
{
    b.write_i32(v)
}

/// `ByteBuffer::write_bytes`: on a buffer with no pending bits, writes
/// `bytes` at the write cursor (growing the data when needed) and advances
/// the cursor by their number.
#[verifier::external_body]
fn byte_buffer_write_bytes(b: &mut ByteBuffer, bytes: &[u8])
    requires
        byte_buffer_plain(*old(b)),
        byte_buffer_wpos(*old(b)) <= byte_buffer_data(*old(b)).len(),
        byte_buffer_wpos(*old(b)) + bytes@.len() <= usize::MAX,
    ensures
        byte_buffer_data(*final(b)) == spec_write_bytes(
            byte_buffer_data(*old(b)),
            byte_buffer_wpos(*old(b)) as int,
            bytes@,
        ),
        byte_buffer_wpos(*final(b)) == byte_buffer_wpos(*old(b)) + bytes@.len(),
        byte_buffer_rpos(*final(b)) == byte_buffer_rpos(*old(b)),
        byte_buffer_plain(*final(b)),
{
    b.write_bytes(bytes)
}

/// `std::io::Write::write_all` on a `ByteBuffer`: its `write` hands every
/// byte to `write_bytes` and never fails, so this writes all of `bytes` at
/// the write cursor and returns `Ok` (here `true`).
#[verifier::external_body]
fn byte_buffer_write_all(b: &mut ByteBuffer, bytes: &[u8]) -> (ok: bool)
    requires
        byte_buffer_plain(*old(b)),
        byte_buffer_wpos(*old(b)) <= byte_buffer_data(*old(b)).len(),
        byte_buffer_wpos(*old(b)) + bytes@.len() <= usize::MAX,
    ensures
        ok,
        byte_buffer_data(*final(b)) == spec_write_bytes(
            byte_buffer_data(*old(b)),
            byte_buffer_wpos(*old(b)) as int,
            bytes@,
        ),
        byte_buffer_wpos(*final(b)) == byte_buffer_wpos(*old(b)) + bytes@.len(),
        byte_buffer_rpos(*final(b)) == byte_buffer_rpos(*old(b)),
        byte_buffer_plain(*final(b)),
{
    std::io::Write::write_all(b, bytes).is_ok()
}

/// `ByteBuffer::read_i32`: on a big-endian buffer with no pending bits,
/// fails when fewer than 4 bytes follow the read cursor; otherwise returns
/// the big-endian value of the 4 bytes there and advances the cursor by 4.
#[verifier::external_body]
fn byte_buffer_read_i32(b: &mut ByteBuffer) -> (r: Option<i32>)
    requires
        byte_buffer_plain(*old(b)),
        byte_buffer_rpos(*old(b)) <= byte_buffer_data(*old(b)).len(),
    ensures
        byte_buffer_data(*final(b)) == byte_buffer_data(*old(b)),
        byte_buffer_wpos(*final(b)) == byte_buffer_wpos(*old(b)),
        byte_buffer_plain(*final(b)),
        r is Some <==> byte_buffer_rpos(*old(b)) + 4 <= byte_buffer_data(*old(b)).len(),
        r matches Some(v) ==> v == be_value(
            word_at(byte_buffer_data(*old(b)), byte_buffer_rpos(*old(b)) as int),
        ) as i32,
        byte_buffer_rpos(*final(b)) == if r is Some {
            (byte_buffer_rpos(*old(b)) + 4) as nat
        } else {
            byte_buffer_rpos(*old(b))
        },
{
    b.read_i32().ok()
}

/// `ByteBuffer::read_bytes`: fails when fewer than `size` bytes follow the
/// read cursor; otherwise returns them and advances the cursor by `size`.
/// It computes `rpos + size` unchecked, so an overflowing sum is left out.
#[verifier::external_body]
fn byte_buffer_read_bytes(b: &mut ByteBuffer, size: usize) -> (r: Option<Vec<u8>>)
    requires
        byte_buffer_plain(*old(b)),
        byte_buffer_rpos(*old(b)) <= byte_buffer_data(*old(b)).len(),
        byte_buffer_rpos(*old(b)) + size <= usize::MAX,
    ensures
        byte_buffer_data(*final(b)) == byte_buffer_data(*old(b)),
        byte_buffer_wpos(*final(b)) == byte_buffer_wpos(*old(b)),
        byte_buffer_plain(*final(b)),
        r is Some <==> byte_buffer_rpos(*old(b)) + size <= byte_buffer_data(*old(b)).len(),
        r matches Some(v) ==> v@ == byte_buffer_data(*old(b)).subrange(
            byte_buffer_rpos(*old(b)) as int,
            byte_buffer_rpos(*old(b)) + size,
        ),
        byte_buffer_rpos(*final(b)) == if r is Some {
            (byte_buffer_rpos(*old(b)) + size) as nat
        } else {
            byte_buffer_rpos(*old(b))
        },
{
    b.read_bytes(size).ok()
}

/// `ByteBuffer::as_bytes`: the bytes held.
#[verifier::external_body]
fn byte_buffer_as_bytes(b: &ByteBuffer) -> (s: &[u8])
    ensures
        s@ == byte_buffer_data(*b),
{
    b.as_bytes()
}

// ---------------------------------------------------------------------------
// Buffer
// ---------------------------------------------------------------------------

/// The abstract state of a buffer: its bytes and its two cursors.
pub struct BufferView {
    pub data: Seq<u8>,
    pub wpos: nat,
    pub rpos: nat,
}

/// Why a buffer operation failed.
#[derive(Debug, Clone, Copy, PartialEq, Eq, Structural)]
pub enum BufferError {
    /// The operation would run past the end of the buffer.
    UnexpectedEof,
}

/// A page-sized byte area.
pub struct Buffer {
    buffer: ByteBuffer,
}

/// `check_space`: `Ok` when `lastpos` is at most the length of the buffer.
pub fn check_space(buf: &ByteBuffer, lastpos: usize) -> (r: Result<(), BufferError>)
    ensures
        r is Ok <==> lastpos <= byte_buffer_data(*buf).len(),
{
    if lastpos > byte_buffer_len(buf) {
        return Err(BufferError::UnexpectedEof);
    }
    Ok(())
}

impl Buffer {
    /// Well-formedness: big-endian, no pending bits, cursors within the data.
    pub closed spec fn wf(&self) -> bool {
        &&& byte_buffer_plain(self.buffer)
        &&& byte_buffer_wpos(self.buffer) <= byte_buffer_data(self.buffer).len()
        &&& byte_buffer_rpos(self.buffer) <= byte_buffer_data(self.buffer).len()
    }

    pub closed spec fn view(&self) -> BufferView {
        BufferView {
            data: byte_buffer_data(self.buffer),
            wpos: byte_buffer_wpos(self.buffer),
            rpos: byte_buffer_rpos(self.buffer),
        }
    }

    /// Wraps a big-endian byte buffer without pending bits.
    pub fn new(buffer: ByteBuffer) -> (b: Buffer)
        requires
            byte_buffer_plain(buffer),
            byte_buffer_wpos(buffer) <= byte_buffer_data(buffer).len(),
            byte_buffer_rpos(buffer) <= byte_buffer_data(buffer).len(),
        ensures
            b.view().data == byte_buffer_data(buffer),
            b.view().wpos == byte_buffer_wpos(buffer),
            b.view().rpos == byte_buffer_rpos(buffer),
            b.wf(),
    {
        Buffer { buffer }
    }

    /// A buffer that holds `bytes`, the write cursor at their end and the
    /// read cursor at zero.
    pub fn from_bytes(bytes: Vec<u8>) -> (b: Buffer)
        ensures
            b.view().data == bytes@,
            b.view().wpos == bytes@.len(),
            b.view().rpos == 0,
            b.wf(),
    {
        Buffer::new(byte_buffer_from_vec(bytes))
    }

    /// A buffer of `size` zero bytes, both cursors at zero.
    pub fn with_size(size: usize) -> (b: Buffer)
        ensures
            b.view().data == Seq::new(size as nat, |i: int| 0u8),
            b.view().wpos == 0,
            b.view().rpos == 0,
            b.wf(),
    {
        let mut bb = byte_buffer_new();
        byte_buffer_resize(&mut bb, size);
        assert(byte_buffer_data(bb) =~= Seq::new(size as nat, |i: int| 0u8));
        Buffer { buffer: bb }
    }

    /// The number of bytes held.
    pub fn len(&self) -> (n: usize)
        requires
            self.wf(),
        ensures
            n == self.view().data.len(),
            self.view().wpos <= n,
            self.view().rpos <= n,
    {
        byte_buffer_len(&self.buffer)
    }

    /// The bytes held.
    pub fn as_bytes(&self) -> (s: &[u8])
        requires
            self.wf(),
        ensures
            s@ == self.view().data,
    {
        byte_buffer_as_bytes(&self.buffer)
    }

    /// Writes the big-endian bytes of `val` at `pos` and resets both cursors;
    /// fails, changing nothing, when `pos + 4` exceeds the length.
    pub fn write_int(&mut self, pos: usize, val: i32) -> (r: Result<(), BufferError>)
        requires
            old(self).wf(),
            pos + 4 <= usize::MAX,
        ensures
            final(self).wf(),
            r is Ok <==> pos + 4 <= old(self).view().data.len(),
            r is Ok ==> final(self).view() == (BufferView {
                data: spec_write_bytes(old(self).view().data, pos as int, be_bytes(val as u32)),
                wpos: 0,
                rpos: 0,
            }),
            r is Err ==> final(self).view() == old(self).view(),
            (final(self).view(), r is Ok) == m_write_int(old(self).view(), pos as int, val),
    {
        check_space(&self.buffer, pos + 4)?;
        byte_buffer_set_wpos(&mut self.buffer, pos);
        byte_buffer_write_i32(&mut self.buffer, val);
        byte_buffer_reset_cursors(&mut self.buffer);
        Ok(())
    }

    /// Reads the big-endian 32-bit integer at `pos` (the read cursor moves to
    /// `min(pos, len)` first); fails when fewer than 4 bytes are there.
    pub fn read_int(&mut self, pos: usize) -> (r: Result<i32, BufferError>)
        requires
            old(self).wf(),
        ensures
            final(self).wf(),
            final(self).view().data == old(self).view().data,
            final(self).view().wpos == old(self).view().wpos,
            r is Ok <==> pos + 4 <= old(self).view().data.len(),
            r matches Ok(v) ==> v == be_value(word_at(old(self).view().data, pos as int)) as i32,
            r is Ok ==> final(self).view().rpos == pos + 4,
            r is Err ==> final(self).view().rpos == min(pos as int, old(self).view().data.len() as int),
    {
        byte_buffer_set_rpos(&mut self.buffer, pos);
        match byte_buffer_read_i32(&mut self.buffer) {
            Some(v) => Ok(v),
            None => Err(BufferError::UnexpectedEof),
        }
    }

    /// Writes the first `size` bytes of `val` at `min(pos, len)`, growing the
    /// buffer when they run past its end; the write cursor ends after them.
    /// Fails, changing nothing, when `val` is longer than the whole buffer.
    pub fn write_string(&mut self, pos: usize, val: &str, size: usize) -> (r: Result<(), BufferError>)
        requires
            old(self).wf(),
            size <= val.spec_bytes().len(),
            pos + size <= usize::MAX,
        ensures
            final(self).wf(),
            r is Ok <==> val.spec_bytes().len() <= old(self).view().data.len(),
            r is Ok ==> ({
                let at = min(pos as int, old(self).view().data.len() as int);
                final(self).view() == (BufferView {
                    data: spec_write_bytes(old(self).view().data, at, val.spec_bytes().subrange(0, size as int)),
                    wpos: (at + size) as nat,
                    rpos: old(self).view().rpos,
                })
            }),
            r is Err ==> final(self).view() == old(self).view(),
            size == val.spec_bytes().len() ==> (final(self).view(), r is Ok) == m_write_string(
                old(self).view(),
                pos as int,
                val.spec_bytes(),
            ),
    {
        let bytes = val.as_bytes();
        check_space(&self.buffer, bytes.len())?;
        byte_buffer_set_wpos(&mut self.buffer, pos);
        let part = vstd::slice::slice_subrange(bytes, 0, size);
        proof {
            if size == bytes@.len() {
                assert(part@ =~= bytes@);
            }
        }
        let _ = byte_buffer_write_all(&mut self.buffer, part);
        Ok(())
    }

    /// Reads `size` bytes at `pos` (the read cursor moves to `min(pos, len)`
    /// first): `Err` when fewer are there, `Ok(None)` when they are not
    /// UTF-8, else the string they encode.
    pub fn try_read_string(&mut self, pos: usize, size: usize) -> (r: Result<Option<String>, BufferError>)
        requires
            old(self).wf(),
            pos + size <= usize::MAX,
        ensures
            final(self).wf(),
            final(self).view().data == old(self).view().data,
            final(self).view().wpos == old(self).view().wpos,
            ({
                let at = min(pos as int, old(self).view().data.len() as int);
                &&& r is Ok <==> at + size <= old(self).view().data.len()
                &&& r matches Ok(o) ==> ({
                    let bytes = old(self).view().data.subrange(at, at + size);
                    &&& o is Some <==> vstd::utf8::valid_utf8(bytes)
                    &&& o matches Some(s) ==> s@ == vstd::utf8::decode_utf8(bytes)
                })
            }),
    {
        byte_buffer_set_rpos(&mut self.buffer, pos);
        match byte_buffer_read_bytes(&mut self.buffer, size) {
            Some(bytes) => Ok(string_from_utf8(bytes)),
            None => Err(BufferError::UnexpectedEof),
        }
    }

    /// Reads the string held in the `size` bytes at `pos`; fails when fewer
    /// are there. Bytes that are not UTF-8 are left out by `requires`.
    pub fn read_string(&mut self, pos: usize, size: usize) -> (r: Result<String, BufferError>)
        requires
            old(self).wf(),
            pos + size <= usize::MAX,
            ({
                let at = min(pos as int, old(self).view().data.len() as int);
                at + size <= old(self).view().data.len() ==> vstd::utf8::valid_utf8(
                    old(self).view().data.subrange(at, at + size),
                )
            }),
        ensures
            final(self).wf(),
            final(self).view().data == old(self).view().data,
            final(self).view().wpos == old(self).view().wpos,
            ({
                let at = min(pos as int, old(self).view().data.len() as int);
                &&& r is Ok <==> at + size <= old(self).view().data.len()
                &&& r matches Ok(s) ==> s@ == vstd::utf8::decode_utf8(
                    old(self).view().data.subrange(at, at + size),
                )
            }),
    {
        match self.try_read_string(pos, size) {
            Ok(Some(s)) => Ok(s),
            Ok(None) => Err(BufferError::UnexpectedEof),
            Err(e) => Err(e),
        }
    }

    /// Writes `bytes` at the write cursor, growing the buffer when needed (how
    /// a page read from disk lands in a buffer).
    pub fn write_bytes(&mut self, bytes: &[u8])
        requires
            old(self).wf(),
            old(self).view().wpos + bytes@.len() <= usize::MAX,
        ensures
            final(self).wf(),
            final(self).view() == (BufferView {
                data: spec_write_bytes(old(self).view().data, old(self).view().wpos as int, bytes@),
                wpos: old(self).view().wpos + bytes@.len(),
                rpos: old(self).view().rpos,
            }),
    {
        byte_buffer_write_bytes(&mut self.buffer, bytes);
    }
}

} // verus!
