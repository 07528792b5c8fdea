use vstd::prelude::*;
use vstd::utf8::{valid_utf8, decode_utf8};

use crate::error::WireError;
use crate::varint::{
    MAX_VARINT_LEN, continues, lemma_pow128_positive, lemma_pow128_ten, lemma_value_bound,
    lemma_value_push, pow128, varint_end, varint_value,
};
use crate::wire_type::WireType;

verus! {

/// What reading a varint at `p` of `d` gives: `Ok(None)` at a clean end of
/// input, else the value and the position just past it, or the error.
pub open spec fn decode_varint(d: Seq<u8>, p: int) -> Result<Option<(nat, int)>, WireError> {
    if p >= d.len() {
        Ok(None)
    } else {
        let e = varint_end(d, p);
        if e - p >= MAX_VARINT_LEN {
            Err(WireError::VarintOverflow)
        } else if e >= d.len() {
            Err(WireError::UnexpectedEof)
        } else {
            let v = varint_value(d.subrange(p, e + 1));
            if v > u64::MAX {
                Err(WireError::VarintOverflow)
            } else {
                Ok(Some((v, e + 1)))
            }
        }
    }
}

/// Reading a varint that must be there: a clean end of input is a truncation.
pub open spec fn decode_required(d: Seq<u8>, p: int) -> Result<(nat, int), WireError> {
    match decode_varint(d, p) {
        Ok(Some(r)) => Ok(r),
        Ok(None) => Err(WireError::UnexpectedEof),
        Err(e) => Err(e),
    }
}

/// Reading a length prefix at `p` and then that many bytes: the payload's
/// bounds, or the error.
pub open spec fn decode_delimited(d: Seq<u8>, p: int) -> Result<(int, int), WireError> {
    match decode_required(d, p) {
        Ok((len, n)) => if len > usize::MAX {
            Err(WireError::ValueTooLarge)
        } else if n + len > d.len() {
            Err(WireError::UnexpectedEof)
        } else {
            Ok((n, n + len))
        },
        Err(e) => Err(e),
    }
}

/// Reading a field header at `p`: `Ok(None)` at a clean end of input, else
/// the tag, the wire type and the position just past the header.
pub open spec fn decode_header(d: Seq<u8>, p: int) -> Result<Option<(nat, WireType, int)>, WireError> {
    match decode_varint(d, p) {
        Ok(None) => Ok(None),
        Err(e) => Err(e),
        Ok(Some((h, n))) => if h > usize::MAX {
            Err(WireError::ValueTooLarge)
        } else {
            match WireType::spec_from_code((h % 8) as int) {
                Some(w) => Ok(Some((h / 8, w, n))),
                None => Err(WireError::InvalidWireType),
            }
        },
    }
}

/// A decoding session over a byte buffer: the bytes and a read position.
pub struct InputStream {
    data: Vec<u8>,
    pos: usize,
}

impl InputStream {
    /// The bytes being decoded.
    pub closed spec fn data(&self) -> Seq<u8> {
        self.data@
    }

    /// The index of the next byte to read.
    pub closed spec fn pos(&self) -> int {
        self.pos as int
    }

    pub open spec fn wf(&self) -> bool {
        0 <= self.pos() <= self.data().len()
    }

    pub fn new(bytes: &[u8]) -> (r: InputStream)
        ensures
            r.wf(),
            r.data() == bytes@,
            r.pos() == 0,
    {
        let mut data: Vec<u8> = Vec::with_capacity(bytes.len());
        let mut i: usize = 0;
        while i < bytes.len()
            invariant
                i <= bytes@.len(),
                data@ == bytes@.subrange(0, i as int),
            decreases bytes@.len() - i,
        {
            data.push(bytes[i]);
            i = i + 1;
            assert(data@ =~= bytes@.subrange(0, i as int));
        }
        assert(data@ =~= bytes@);
        InputStream { data, pos: 0 }
    }

    /// Reads the next field header. `Ok(None)` means the input ended cleanly
    /// at a field boundary.
    pub fn read_field(&mut self) -> (r: Result<Option<Field>, WireError>)
        requires
            old(self).wf(),
        ensures
            final(self).wf(),
            final(self).data() == old(self).data(),
            match decode_header(old(self).data(), old(self).pos()) {
                Ok(None) => r == Ok::<Option<Field>, WireError>(None) && final(self).pos() == old(self).pos(),
                Ok(Some((tag, w, n))) => r matches Ok(Some(f)) && f.tag() == tag && f.wire_type() == w
                    && !f.is_consumed() && f.start() == n && final(self).pos() == n,
                Err(e) => r == Err::<Option<Field>, WireError>(e),
            },
            r matches Ok(Some(_)) ==> final(self).pos() > old(self).pos(),
    {
        proof {
            lemma_end_at_least(self.data@, self.pos as int);
        }
        let head = match self.read_usize() {
            Ok(Some(h)) => h,
            Ok(None) => return Ok(None),
            Err(e) => return Err(e),
        };
        let wire_type = match WireType::from_uint(head % 8) {
            Some(w) => w,
            None => return Err(WireError::InvalidWireType),
        };
        Ok(Some(Field { tag: head / 8, wire_type, start: self.pos, consumed: false }))
    }

    fn read_usize(&mut self) -> (r: Result<Option<usize>, WireError>)
        requires
            old(self).wf(),
        ensures
            final(self).wf(),
            final(self).data() == old(self).data(),
            match decode_varint(old(self).data(), old(self).pos()) {
                Ok(None) => r == Ok::<Option<usize>, WireError>(None) && final(self).pos() == old(self).pos(),
                Ok(Some((v, n))) => if v > usize::MAX {
                    r == Err::<Option<usize>, WireError>(WireError::ValueTooLarge)
                } else {
                    r == Ok::<Option<usize>, WireError>(Some(v as usize)) && final(self).pos() == n
                },
                Err(e) => r == Err::<Option<usize>, WireError>(e),
            },
    {
        match self.read_unsigned_varint() {
            Ok(Some(num)) => if num <= usize::MAX as u64 {
                Ok(Some(num as usize))
            } else {
                Err(WireError::ValueTooLarge)
            },
            Ok(None) => Ok(None),
            Err(e) => Err(e),
        }
    }

    fn read_u64(&mut self) -> (r: Result<Option<u64>, WireError>)
        requires
            old(self).wf(),
        ensures
            final(self).wf(),
            final(self).data() == old(self).data(),
            match decode_varint(old(self).data(), old(self).pos()) {
                Ok(None) => r == Ok::<Option<u64>, WireError>(None) && final(self).pos() == old(self).pos(),
                Ok(Some((v, n))) => r == Ok::<Option<u64>, WireError>(Some(v as u64)) && final(self).pos() == n,
                Err(e) => r == Err::<Option<u64>, WireError>(e),
            },
    {
        self.read_unsigned_varint()
    }

    fn read_unsigned_varint(&mut self) -> (r: Result<Option<u64>, WireError>)
        requires
            old(self).wf(),
        ensures
            final(self).wf(),
            final(self).data() == old(self).data(),
            match decode_varint(old(self).data(), old(self).pos()) {
                Ok(None) => r == Ok::<Option<u64>, WireError>(None) && final(self).pos() == old(self).pos(),
                Ok(Some((v, n))) => r == Ok::<Option<u64>, WireError>(Some(v as u64)) && final(self).pos() == n,
                Err(e) => r == Err::<Option<u64>, WireError>(e),
            },
    {
        let ghost d = self.data@;
        let start = self.pos;
        assert(start == old(self).pos());
        let mut ret: u64 = 0;
        let mut i: usize = 0;
        let mut mult: u64 = 1;
        loop
            invariant
                self.data@ == d,
                d == old(self).data@,
                start == old(self).pos,
                i < MAX_VARINT_LEN,
                self.pos == start + i,
                self.pos <= d.len(),
                mult == pow128(i as nat),
                ret == varint_value(d.subrange(start as int, start + i)),
                forall|j: int| start <= j < start + i ==> continues(#[trigger] d[j]),
            decreases MAX_VARINT_LEN - i,
        {
            proof {
                lemma_end_skip(d, start as int, i as int);
                lemma_value_bound(d.subrange(start as int, start + i));
                lemma_pow128_ten();
                lemma_pow128_mono(i as nat, 9);
            }
            if self.pos >= self.data.len() {
                if i == 0 {
                    return Ok(None);
                }
                return Err(WireError::UnexpectedEof);
            }
            let byte = self.data[self.pos];
            self.pos = self.pos + 1;
            let ghost prefix = d.subrange(start as int, start + i);
            proof {
                assert(d.subrange(start as int, start + i + 1) =~= prefix.push(byte));
                lemma_value_push(prefix, byte);
            }
            if i == MAX_VARINT_LEN - 1 && byte > 1 {
                proof {
                    if !continues(byte) {
                        assert(varint_end(d, start + i) == start + i);
                        assert(varint_value(d.subrange(start as int, start + i + 1)) >= 2 * pow128(9)) by (nonlinear_arith)
                            requires
                                varint_value(d.subrange(start as int, start + i + 1)) == ret + (byte % 128) as nat * pow128(9),
                                byte % 128 >= 2,
                        ;
                    } else {
                        lemma_end_at_least(d, start + i + 1);
                    }
                }
                return Err(WireError::VarintOverflow);
            }
            proof {
                if i < 9 {
                    lemma_pow128_mono((i + 1) as nat, 9);
                    assert(pow128((i + 1) as nat) == 128 * pow128(i as nat));
                    assert(ret + (byte % 128) as nat * mult < 128 * mult) by (nonlinear_arith)
                        requires
                            ret < mult,
                            byte % 128 <= 127,
                    ;
                } else {
                    assert((byte % 128) as nat * mult <= mult) by (nonlinear_arith)
                        requires
                            byte % 128 <= 1,
                    ;
                }
            }
            ret = ret + (byte % 128) as u64 * mult;
            if !has_msb(byte) {
                proof {
                    assert(varint_end(d, start + i) == start + i);
                }
                return Ok(Some(ret));
            }
            i = i + 1;
            mult = mult * 128;
        }
    }

    fn read_exact(&mut self, len: usize) -> (r: Result<Vec<u8>, WireError>)
        requires
            old(self).wf(),
        ensures
            final(self).wf(),
            final(self).data() == old(self).data(),
            old(self).pos() + len > old(self).data().len() ==> r == Err::<Vec<u8>, WireError>(WireError::UnexpectedEof)
                && final(self).pos() == old(self).pos(),
            old(self).pos() + len <= old(self).data().len() ==> (r matches Ok(v)
                && v@ == old(self).data().subrange(old(self).pos(), old(self).pos() + len)
                && final(self).pos() == old(self).pos() + len),
    {
        if len > self.data.len() - self.pos {
            return Err(WireError::UnexpectedEof);
        }
        let mut ret: Vec<u8> = Vec::with_capacity(len);
        let start = self.pos;
        while ret.len() < len
            invariant
                self.data@ == old(self).data(),
                start == old(self).pos(),
                start + len <= self.data@.len() <= usize::MAX,
                ret.len() <= len,
                self.pos == start + ret.len(),
                ret@ == self.data@.subrange(start as int, start + ret.len()),
            decreases len - ret.len(),
        {
            let b = self.data[self.pos];
            ret.push(b);
            self.pos = self.pos + 1;
            assert(ret@ =~= self.data@.subrange(start as int, start + ret.len()));
        }
        Ok(ret)
    }

    fn read_length_delimited(&mut self) -> (r: Result<Vec<u8>, WireError>)
        requires
            old(self).wf(),
        ensures
            final(self).wf(),
            final(self).data() == old(self).data(),
            match decode_delimited(old(self).data(), old(self).pos()) {
                Ok((a, b)) => r matches Ok(v) && v@ == old(self).data().subrange(a, b) && final(self).pos() == b,
                Err(e) => r == Err::<Vec<u8>, WireError>(e),
            },
    {
        match self.read_usize() {
            Ok(Some(len)) => self.read_exact(len),
            Ok(None) => Err(WireError::UnexpectedEof),
            Err(e) => Err(e),
        }
    }

    /// Discards up to `n` bytes; returns how many there were.
    fn skip(&mut self, n: usize) -> (r: usize)
        requires
            old(self).wf(),
        ensures
            final(self).wf(),
            final(self).data() == old(self).data(),
            r <= n,
            r == n || final(self).pos() == old(self).data().len(),
            final(self).pos() == old(self).pos() + r,
    {
        let mut i: usize = 0;
        while i < n
            invariant
                self.wf(),
                self.data@ == old(self).data(),
                i <= n,
                self.pos == old(self).pos() + i,
            decreases n - i,
        {
            if self.read_byte().is_none() {
                return i;
            }
            i = i + 1;
        }
        i
    }

    fn read_byte(&mut self) -> (r: Option<u8>)
        requires
            old(self).wf(),
        ensures
            final(self).wf(),
            final(self).data() == old(self).data(),
            old(self).pos() < old(self).data().len() ==> r == Some(old(self).data()[old(self).pos()])
                && final(self).pos() == old(self).pos() + 1,
            old(self).pos() >= old(self).data().len() ==> r is None && final(self).pos() == old(self).pos(),
    {
        if self.pos < self.data.len() {
            let b = self.data[self.pos];
            self.pos = self.pos + 1;
            Some(b)
        } else {
            None
        }
    }
}

/// Skipping bytes that all continue leaves the end of the varint where it was.
proof fn lemma_end_skip(d: Seq<u8>, p: int, k: int)
    requires
        0 <= p,
        0 <= k,
        p + k <= d.len(),
        forall|j: int| p <= j < p + k ==> continues(#[trigger] d[j]),
    ensures
        varint_end(d, p) == varint_end(d, p + k),
    decreases k,
{
    if k > 0 {
        lemma_end_skip(d, p + 1, k - 1);
    }
}

proof fn lemma_end_at_least(d: Seq<u8>, p: int)
    requires
        0 <= p <= d.len(),
    ensures
        varint_end(d, p) >= p,
    decreases d.len() - p,
{
    if p < d.len() && continues(d[p]) {
        lemma_end_at_least(d, p + 1);
    }
}

proof fn lemma_pow128_mono(a: nat, b: nat)
    requires
        a <= b,
    ensures
        pow128(a) <= pow128(b),
    decreases b,
{
    if a < b {
        lemma_pow128_mono(a, (b - 1) as nat);
        lemma_pow128_positive((b - 1) as nat);
    }
}

fn has_msb(byte: u8) -> (r: bool)
    ensures
        r == continues(byte),
{
    byte >= 0x80
}

/// Relies on `String::from_utf8`: it succeeds exactly on valid UTF-8 and then
/// holds the characters those bytes encode.
#[verifier::external_body]
fn utf8_string(bytes: Vec<u8>) -> (r: Option<String>)
    ensures
        r is Some <==> valid_utf8(bytes@),
        r matches Some(s) ==> s@ == decode_utf8(bytes@),
{
    String::from_utf8(bytes).ok()
}

/// One field of the stream, as its header announced it. Its payload can be
/// accessed once: any accessor call consumes the handle.
#[derive(Debug)]
pub struct Field {
    tag: usize,
    wire_type: WireType,
    start: usize,
    consumed: bool,
}

impl Field {
    pub closed spec fn tag(&self) -> nat {
        self.tag as nat
    }

    pub closed spec fn wire_type(&self) -> WireType {
        self.wire_type
    }

    /// The stream position just past this field's header, where its payload
    /// begins.
    pub closed spec fn start(&self) -> int {
        self.start as int
    }

    pub closed spec fn is_consumed(&self) -> bool {
        self.consumed
    }

    pub fn get_tag(&self) -> (r: usize)
        ensures
            r == self.tag(),
    {
        self.tag
    }

    pub fn get_wire_type(&self) -> (r: WireType)
        ensures
            r == self.wire_type(),
    {
        self.wire_type
    }

    /// Reads the payload of a varint field.
    pub fn read_u64(&mut self, input: &mut InputStream) -> (r: Result<u64, WireError>)
        requires
            old(input).wf(),
        ensures
            final(input).wf(),
            final(input).data() == old(input).data(),
            final(self).tag() == old(self).tag(),
            final(self).wire_type() == old(self).wire_type(),
            final(self).is_consumed(),
            old(self).is_consumed() ==> r == Err::<u64, WireError>(WireError::FieldConsumed)
                && *final(input) == *old(input),
            !old(self).is_consumed() && old(input).pos() != old(self).start() ==> r == Err::<u64, WireError>(
                WireError::FieldDetached,
            ) && *final(input) == *old(input),
            final(self).start() == old(self).start(),
            !old(self).is_consumed() && old(input).pos() == old(self).start() && old(self).wire_type() != WireType::Varint ==> r == Err::<u64, WireError>(
                WireError::UnexpectedFieldType,
            ) && *final(input) == *old(input),
            !old(self).is_consumed() && old(input).pos() == old(self).start() && old(self).wire_type() == WireType::Varint ==> match decode_required(
                old(input).data(),
                old(input).pos(),
            ) {
                Ok((v, n)) => r == Ok::<u64, WireError>(v as u64) && final(input).pos() == n,
                Err(e) => r == Err::<u64, WireError>(e),
            },
            r is Ok ==> final(input).pos() >= old(input).pos(),
    {
        proof {
            lemma_end_at_least(input.data@, input.pos as int);
        }
        if self.consumed {
            return Err(WireError::FieldConsumed);
        }
        self.consumed = true;
        if input.pos != self.start {
            return Err(WireError::FieldDetached);
        }
        match self.wire_type {
            WireType::Varint => match input.read_u64() {
                Ok(Some(v)) => Ok(v),
                Ok(None) => Err(WireError::UnexpectedEof),
                Err(e) => Err(e),
            },
            _ => Err(WireError::UnexpectedFieldType),
        }
    }

    /// Reads the payload of a length-delimited field as raw bytes.
    pub fn read_bytes(&mut self, input: &mut InputStream) -> (r: Result<Vec<u8>, WireError>)
        requires
            old(input).wf(),
        ensures
            final(input).wf(),
            final(input).data() == old(input).data(),
            final(self).tag() == old(self).tag(),
            final(self).wire_type() == old(self).wire_type(),
            final(self).is_consumed(),
            old(self).is_consumed() ==> r == Err::<Vec<u8>, WireError>(WireError::FieldConsumed)
                && *final(input) == *old(input),
            !old(self).is_consumed() && old(input).pos() != old(self).start() ==> r == Err::<Vec<u8>, WireError>(
                WireError::FieldDetached,
            ) && *final(input) == *old(input),
            final(self).start() == old(self).start(),
            !old(self).is_consumed() && old(input).pos() == old(self).start() && old(self).wire_type() != WireType::LengthDelimited ==> r == Err::<
                Vec<u8>,
                WireError,
            >(WireError::UnexpectedFieldType) && *final(input) == *old(input),
            !old(self).is_consumed() && old(input).pos() == old(self).start() && old(self).wire_type() == WireType::LengthDelimited ==> match decode_delimited(
                old(input).data(),
                old(input).pos(),
            ) {
                Ok((a, b)) => r matches Ok(v) && v@ == old(input).data().subrange(a, b) && final(input).pos() == b,
                Err(e) => r == Err::<Vec<u8>, WireError>(e),
            },
            r is Ok ==> final(input).pos() >= old(input).pos(),
    {
        proof {
            lemma_end_at_least(input.data@, input.pos as int);
        }
        if self.consumed {
            return Err(WireError::FieldConsumed);
        }
        self.consumed = true;
        if input.pos != self.start {
            return Err(WireError::FieldDetached);
        }
        match self.wire_type {
            WireType::LengthDelimited => input.read_length_delimited(),
            _ => Err(WireError::UnexpectedFieldType),
        }
    }

    /// Reads the payload of a length-delimited field as UTF-8 text.
    pub fn read_string(&mut self, input: &mut InputStream) -> (r: Result<String, WireError>)
        requires
            old(input).wf(),
        ensures
            final(input).wf(),
            final(input).data() == old(input).data(),
            final(self).tag() == old(self).tag(),
            final(self).wire_type() == old(self).wire_type(),
            final(self).is_consumed(),
            old(self).is_consumed() ==> r == Err::<String, WireError>(WireError::FieldConsumed)
                && *final(input) == *old(input),
            !old(self).is_consumed() && old(input).pos() != old(self).start() ==> r == Err::<String, WireError>(
                WireError::FieldDetached,
            ) && *final(input) == *old(input),
            final(self).start() == old(self).start(),
            !old(self).is_consumed() && old(input).pos() == old(self).start() && old(self).wire_type() != WireType::LengthDelimited ==> r == Err::<
                String,
                WireError,
            >(WireError::UnexpectedFieldType) && *final(input) == *old(input),
            !old(self).is_consumed() && old(input).pos() == old(self).start() && old(self).wire_type() == WireType::LengthDelimited ==> match decode_delimited(
                old(input).data(),
                old(input).pos(),
            ) {
                Ok((a, b)) => final(input).pos() == b && if valid_utf8(old(input).data().subrange(a, b)) {
                    r matches Ok(s) && s@ == decode_utf8(old(input).data().subrange(a, b))
                } else {
                    r == Err::<String, WireError>(WireError::InvalidUtf8)
                },
                Err(e) => r == Err::<String, WireError>(e),
            },
            r is Ok ==> final(input).pos() >= old(input).pos(),
    {
        proof {
            lemma_end_at_least(input.data@, input.pos as int);
        }
        let bytes = self.read_bytes(input)?;
        match utf8_string(bytes) {
            Some(s) => Ok(s),
            None => Err(WireError::InvalidUtf8),
        }
    }

    /// Discards the field's payload, leaving the stream at the next header.
    pub fn skip(&mut self, input: &mut InputStream) -> (r: Result<(), WireError>)
        requires
            old(input).wf(),
        ensures
            final(input).wf(),
            final(input).data() == old(input).data(),
            final(self).tag() == old(self).tag(),
            final(self).wire_type() == old(self).wire_type(),
            final(self).is_consumed(),
            old(self).is_consumed() ==> r == Err::<(), WireError>(WireError::FieldConsumed)
                && *final(input) == *old(input),
            !old(self).is_consumed() && old(input).pos() != old(self).start() ==> r == Err::<(), WireError>(
                WireError::FieldDetached,
            ) && *final(input) == *old(input),
            final(self).start() == old(self).start(),
            !old(self).is_consumed() && old(input).pos() == old(self).start() ==> match old(self).wire_type() {
                WireType::Varint => match decode_required(old(input).data(), old(input).pos()) {
                    Ok((v, n)) => r is Ok && final(input).pos() == n,
                    Err(e) => r == Err::<(), WireError>(e),
                },
                WireType::LengthDelimited => match decode_delimited(old(input).data(), old(input).pos()) {
                    Ok((a, b)) => r is Ok && final(input).pos() == b,
                    Err(e) => r == Err::<(), WireError>(e),
                },
                _ => r == Err::<(), WireError>(WireError::UnsupportedWireType) && *final(input) == *old(input),
            },
    {
        if self.consumed {
            return Err(WireError::FieldConsumed);
        }
        self.consumed = true;
        if input.pos != self.start {
            return Err(WireError::FieldDetached);
        }
        match self.wire_type {
            WireType::Varint => match input.read_unsigned_varint() {
                Ok(Some(_)) => Ok(()),
                Ok(None) => Err(WireError::UnexpectedEof),
                Err(e) => Err(e),
            },
            WireType::LengthDelimited => match input.read_usize() {
                Ok(Some(len)) => if input.skip(len) == len {
                    Ok(())
                } else {
                    Err(WireError::UnexpectedEof)
                },
                Ok(None) => Err(WireError::UnexpectedEof),
                Err(e) => Err(e),
            },
            _ => Err(WireError::UnsupportedWireType),
        }
    }
}

} // verus!
