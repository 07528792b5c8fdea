use vstd::prelude::*;
use vstd::string::StringSliceAdditionalSpecFns;

use crate::error::WireError;
use crate::message::{MAX_TAG, Message, MessageField, encode_message, layout, nested_bytes, tags_ok};
use crate::varint::{header_bytes, lemma_varint_bytes, varint_bytes};
use crate::wire_type::WireType;

verus! {

/// The narrow capability a sink provides: take raw bytes. Everything else a
/// pass writes is built on it.
pub trait OutputStreamBackend: Sized {
    /// The bytes this pass has emitted so far.
    spec fn written(&self) -> Seq<u8>;

    /// The nested-message bookkeeping of this pass, which raw writes leave
    /// alone.
    spec fn nested_state(&self) -> (int, Seq<usize>);

    /// Whether this pass, having written `len` bytes and standing at nested
    /// state `state`, writes a nested message field of `size` bytes whose
    /// nested layout is `lay`.
    spec fn accepts(len: nat, state: (int, Seq<usize>), size: nat, lay: Seq<nat>) -> bool;

    /// The nested state after a nested message field with layout `lay`.
    spec fn nested_after(state: (int, Seq<usize>), lay: Seq<nat>) -> (int, Seq<usize>);

    /// Whether this pass, at nested state `state`, can take no nested message
    /// at all.
    spec fn exhausted(state: (int, Seq<usize>)) -> bool;

    /// The number of bytes emitted so far.
    fn written_len(&self) -> (r: usize)
        ensures
            r == self.written().len(),
    ;

    /// Emits `bytes`. It fails, with nothing emitted, only where the total
    /// would no longer fit in `usize`.
    fn write_bytes(&mut self, bytes: &[u8]) -> (r: Result<(), WireError>)
        ensures
            r is Ok <==> old(self).written().len() + bytes@.len() <= usize::MAX,
            r is Ok ==> final(self).written() == old(self).written() + bytes@,
            r is Err ==> r == Err::<(), WireError>(WireError::SizeOverflow),
            final(self).nested_state() == old(self).nested_state(),
    ;

    fn write_byte(&mut self, byte: u8) -> (r: Result<(), WireError>)
        ensures
            r is Ok <==> old(self).written().len() + 1 <= usize::MAX,
            r is Ok ==> final(self).written() == old(self).written().push(byte),
            r is Err ==> r == Err::<(), WireError>(WireError::SizeOverflow),
            final(self).nested_state() == old(self).nested_state(),
    {
        let buf = [byte];
        let r = self.write_bytes(buf.as_slice());
        proof {
            assert(buf@ =~= seq![byte]);
            assert(old(self).written() + seq![byte] =~= old(self).written().push(byte));
        }
        r
    }

    /// Emits `val` as a varint.
    fn write_unsigned_varint(&mut self, val: u64) -> (r: Result<(), WireError>)
        ensures
            r is Ok <==> old(self).written().len() + varint_bytes(val as nat).len() <= usize::MAX,
            r is Ok ==> final(self).written() == old(self).written() + varint_bytes(val as nat),
            r is Err ==> r == Err::<(), WireError>(WireError::SizeOverflow),
            final(self).nested_state() == old(self).nested_state(),
    {
        let ghost target = old(self).written() + varint_bytes(val as nat);
        let mut v: u64 = val;
        loop
            invariant
                target == old(self).written() + varint_bytes(val as nat),
                self.written() + varint_bytes(v as nat) == target,
                self.nested_state() == old(self).nested_state(),
            decreases v,
        {
            let bits = (v % 128) as u8;
            assert(target.len() == self.written().len() + varint_bytes(v as nat).len());
            assert(target.len() == old(self).written().len() + varint_bytes(val as nat).len());
            if v < 128 {
                proof {
                    assert(varint_bytes(v as nat) =~= seq![bits]);
                    assert(self.written() + seq![bits] =~= self.written().push(bits));
                }
                return self.write_byte(bits);
            }
            let ghost before = self.written();
            proof {
                lemma_varint_bytes((v / 128) as nat);
                assert(varint_bytes(v as nat) =~= seq![(bits + 128) as u8] + varint_bytes((v / 128) as nat));
                assert(before.push((bits + 128) as u8) + varint_bytes((v / 128) as nat) =~= before + varint_bytes(
                    v as nat,
                ));
            }
            match self.write_byte(bits + 128) {
                Ok(()) => {},
                Err(e) => return Err(e),
            }
            v = v / 128;
        }
    }

    fn write_usize(&mut self, val: usize) -> (r: Result<(), WireError>)
        ensures
            r is Ok <==> old(self).written().len() + varint_bytes(val as nat).len() <= usize::MAX,
            r is Ok ==> final(self).written() == old(self).written() + varint_bytes(val as nat),
            r is Err ==> r == Err::<(), WireError>(WireError::SizeOverflow),
            final(self).nested_state() == old(self).nested_state(),
    {
        self.write_unsigned_varint(val as u64)
    }

    /// Emits the header of a field.
    fn write_head(&mut self, field: usize, wire_type: WireType) -> (r: Result<(), WireError>)
        requires
            field <= MAX_TAG,
        ensures
            r is Ok <==> old(self).written().len() + header_bytes(field as nat, wire_type).len() <= usize::MAX,
            r is Ok ==> final(self).written() == old(self).written() + header_bytes(field as nat, wire_type),
            r is Err ==> r == Err::<(), WireError>(WireError::SizeOverflow),
            final(self).nested_state() == old(self).nested_state(),
    {
        let bits = field * 8 + wire_type.to_uint();
        self.write_usize(bits)
    }
}

/// The bytes of one length-delimited field.
pub open spec fn delimited_bytes(tag: nat, payload: Seq<u8>) -> Seq<u8> {
    header_bytes(tag, WireType::LengthDelimited) + varint_bytes(payload.len()) + payload
}

/// The bytes of one length-delimited field per payload, in order.
pub open spec fn repeated_bytes(tag: nat, payloads: Seq<Seq<u8>>) -> Seq<u8>
    decreases payloads.len(),
{
    if payloads.len() == 0 {
        Seq::empty()
    } else {
        repeated_bytes(tag, payloads.drop_last()) + delimited_bytes(tag, payloads.last())
    }
}

/// The bytes of a prefix of the payloads are no longer than those of all.
pub proof fn lemma_repeated_prefix(tag: nat, ps: Seq<Seq<u8>>, k: int)
    requires
        0 <= k <= ps.len(),
    ensures
        repeated_bytes(tag, ps.subrange(0, k)).len() <= repeated_bytes(tag, ps).len(),
    decreases ps.len() - k,
{
    if k < ps.len() {
        lemma_repeated_prefix(tag, ps, k + 1);
        assert(ps.subrange(0, k + 1).drop_last() =~= ps.subrange(0, k));
    } else {
        assert(ps.subrange(0, k) =~= ps);
    }
}

/// The bytes of an unsigned integer field holding `val`, if there is one.
pub open spec fn varint_field_bytes(tag: nat, val: Option<u64>) -> Seq<u8> {
    match val {
        Some(v) => header_bytes(tag, WireType::Varint) + varint_bytes(v as nat),
        None => Seq::empty(),
    }
}

/// A number that can be written as a varint field.
pub trait NumField: Sized {
    /// The value written, or `None` for nothing at all.
    spec fn num_value(&self) -> Option<u64>;

    fn write_varint_field<O: OutputStreamBackend>(self, field: usize, out: &mut O) -> (r: Result<(), WireError>)
        requires
            field <= MAX_TAG,
        ensures
            r is Ok <==> self.num_value() is None || old(out).written().len() + varint_field_bytes(
                field as nat,
                self.num_value(),
            ).len() <= usize::MAX,
            r is Ok ==> final(out).written() == old(out).written() + varint_field_bytes(
                field as nat,
                self.num_value(),
            ),
            r is Err ==> r == Err::<(), WireError>(WireError::SizeOverflow),
            final(out).nested_state() == old(out).nested_state(),
    ;
}

/// Writes the header and the value of a varint field.
fn write_u64_field<O: OutputStreamBackend>(field: usize, val: u64, out: &mut O) -> (r: Result<(), WireError>)
    requires
        field <= MAX_TAG,
    ensures
        r is Ok <==> old(out).written().len() + varint_field_bytes(field as nat, Some(val)).len() <= usize::MAX,
        r is Ok ==> final(out).written() == old(out).written() + varint_field_bytes(field as nat, Some(val)),
        r is Err ==> r == Err::<(), WireError>(WireError::SizeOverflow),
        final(out).nested_state() == old(out).nested_state(),
{
    match out.write_head(field, WireType::Varint) {
        Ok(()) => {},
        Err(e) => {
            proof {
                lemma_varint_bytes(val as nat);
            }
            return Err(e);
        },
    }
    let r = out.write_unsigned_varint(val);
    assert(old(out).written() + header_bytes(field as nat, WireType::Varint) + varint_bytes(val as nat)
        =~= old(out).written() + varint_field_bytes(field as nat, Some(val)));
    r
}

impl NumField for u64 {
    open spec fn num_value(&self) -> Option<u64> {
        Some(*self)
    }

    fn write_varint_field<O: OutputStreamBackend>(self, field: usize, out: &mut O) -> (r: Result<(), WireError>) {
        write_u64_field(field, self, out)
    }
}

impl NumField for usize {
    open spec fn num_value(&self) -> Option<u64> {
        Some(*self as u64)
    }

    fn write_varint_field<O: OutputStreamBackend>(self, field: usize, out: &mut O) -> (r: Result<(), WireError>) {
        write_u64_field(field, self as u64, out)
    }
}

impl<F: NumField> NumField for Option<F> {
    open spec fn num_value(&self) -> Option<u64> {
        match self {
            Some(v) => v.num_value(),
            None => None,
        }
    }

    fn write_varint_field<O: OutputStreamBackend>(self, field: usize, out: &mut O) -> (r: Result<(), WireError>) {
        match self {
            Some(v) => v.write_varint_field(field, out),
            None => {
                assert(old(out).written() + Seq::<u8>::empty() =~= old(out).written());
                Ok(())
            },
        }
    }
}

/// The nested layout a message value contributes: its own size first, then
/// those of the messages inside it.
pub open spec fn message_layout(fs: Seq<MessageField>) -> Seq<nat> {
    seq![encode_message(fs).len()] + layout(fs)
}

/// The bytes of one nested message field per message, in order.
pub open spec fn repeated_messages<M: Message>(tag: nat, msgs: Seq<M>) -> Seq<u8>
    decreases msgs.len(),
{
    if msgs.len() == 0 {
        Seq::empty()
    } else {
        repeated_messages(tag, msgs.drop_last()) + nested_bytes(tag, encode_message(msgs.last().spec_fields()))
    }
}

/// The nested state of pass `S` after it wrote each of `msgs` from `state`.
pub open spec fn state_after<S: OutputStreamBackend, M: Message>(state: (int, Seq<usize>), msgs: Seq<M>) -> (
    int,
    Seq<usize>,
)
    decreases msgs.len(),
{
    if msgs.len() == 0 {
        state
    } else {
        S::nested_after(state_after::<S, M>(state, msgs.drop_last()), message_layout(msgs.last().spec_fields()))
    }
}

/// Whether pass `S`, having written `len` bytes and standing at `state`,
/// accepts each of `msgs` in turn as a nested message field.
pub open spec fn repeated_ok<S: OutputStreamBackend, M: Message>(
    len: nat,
    state: (int, Seq<usize>),
    tag: nat,
    msgs: Seq<M>,
) -> bool
    decreases msgs.len(),
{
    msgs.len() == 0 || {
        &&& repeated_ok::<S, M>(len, state, tag, msgs.drop_last())
        &&& S::accepts(
            len + repeated_messages(tag, msgs.drop_last()).len(),
            state_after::<S, M>(state, msgs.drop_last()),
            nested_bytes(tag, encode_message(msgs.last().spec_fields())).len(),
            message_layout(msgs.last().spec_fields()),
        )
    }
}

/// Acceptance of a run of messages means acceptance of each of its prefixes.
pub proof fn lemma_repeated_ok_prefix<S: OutputStreamBackend, M: Message>(
    len: nat,
    state: (int, Seq<usize>),
    tag: nat,
    msgs: Seq<M>,
    k: int,
)
    requires
        0 <= k <= msgs.len(),
        repeated_ok::<S, M>(len, state, tag, msgs),
    ensures
        repeated_ok::<S, M>(len, state, tag, msgs.subrange(0, k)),
    decreases msgs.len() - k,
{
    if k < msgs.len() {
        assert(msgs.subrange(0, msgs.len() - 1) =~= msgs.drop_last());
        lemma_repeated_ok_prefix::<S, M>(len, state, tag, msgs.drop_last(), k);
        assert(msgs.drop_last().subrange(0, k) =~= msgs.subrange(0, k));
    } else {
        assert(msgs.subrange(0, k) =~= msgs);
    }
}

/// The field-writing surface, built on the raw backend. Only nested messages
/// are written differently by the size pass and by the write pass.
pub trait OutputStream: OutputStreamBackend {
    /// Writes a nested message with the given field number; an empty one is
    /// omitted.
    fn write_message_field<M: Message>(&mut self, field: usize, msg: &M) -> (r: Result<(), WireError>)
        requires
            field <= MAX_TAG,
            tags_ok(msg.spec_fields()),
        ensures
            Self::accepts(
                old(self).written().len(),
                old(self).nested_state(),
                nested_bytes(field as nat, encode_message(msg.spec_fields())).len(),
                message_layout(msg.spec_fields()),
            ) ==> r is Ok,
            r is Ok ==> old(self).written().len() + nested_bytes(field as nat, encode_message(msg.spec_fields())).len()
                <= usize::MAX,
            r is Ok ==> final(self).written() == old(self).written() + nested_bytes(
                field as nat,
                encode_message(msg.spec_fields()),
            ),
            r is Ok ==> final(self).nested_state() == Self::nested_after(
                old(self).nested_state(),
                message_layout(msg.spec_fields()),
            ),
            Self::exhausted(old(self).nested_state()) ==> r == Err::<(), WireError>(WireError::InvalidSerializer)
                && final(self).written() == old(self).written() && final(self).nested_state() == old(
                self,
            ).nested_state(),
            r is Err ==> r == Err::<(), WireError>(WireError::InvalidSerializer) || r == Err::<(), WireError>(
                WireError::SizeOverflow,
            ),
    ;

    /// Writes one nested message field per message, in order, stopping at
    /// the first that fails.
    fn write_repeated_message_field<M: Message>(&mut self, field: usize, msgs: &[M]) -> (r: Result<(), WireError>)
        requires
            field <= MAX_TAG,
            forall|i: int| 0 <= i < msgs@.len() ==> tags_ok(#[trigger] msgs@[i].spec_fields()),
        ensures
            repeated_ok::<Self, M>(old(self).written().len(), old(self).nested_state(), field as nat, msgs@)
                ==> r is Ok,
            r is Ok ==> old(self).written().len() + repeated_messages(field as nat, msgs@).len() <= usize::MAX,
            r is Ok ==> final(self).written() == old(self).written() + repeated_messages(field as nat, msgs@),
            r is Ok ==> final(self).nested_state() == state_after::<Self, M>(old(self).nested_state(), msgs@),
            r is Err ==> exists|j: int|
                0 <= j < msgs@.len() && !Self::accepts(
                    old(self).written().len() + repeated_messages(field as nat, msgs@.subrange(0, j)).len(),
                    state_after::<Self, M>(old(self).nested_state(), msgs@.subrange(0, j)),
                    nested_bytes(field as nat, encode_message(#[trigger] msgs@[j].spec_fields())).len(),
                    message_layout(msgs@[j].spec_fields()),
                ),
            r is Err ==> r == Err::<(), WireError>(WireError::InvalidSerializer) || r == Err::<(), WireError>(
                WireError::SizeOverflow,
            ),
    {
        let ghost ok_all = repeated_ok::<Self, M>(old(self).written().len(), old(self).nested_state(), field as nat, msgs@);
        let mut i: usize = 0;
        while i < msgs.len()
            invariant
                field <= MAX_TAG,
                forall|j: int| 0 <= j < msgs@.len() ==> tags_ok(#[trigger] msgs@[j].spec_fields()),
                ok_all == repeated_ok::<Self, M>(old(self).written().len(), old(self).nested_state(), field as nat, msgs@),
                i <= msgs@.len(),
                self.written() == old(self).written() + repeated_messages(field as nat, msgs@.subrange(0, i as int)),
                self.nested_state() == state_after::<Self, M>(old(self).nested_state(), msgs@.subrange(0, i as int)),
            decreases msgs@.len() - i,
        {
            let ghost s = msgs@.subrange(0, i + 1);
            proof {
                assert(s.drop_last() =~= msgs@.subrange(0, i as int));
                assert(s.last() == msgs@[i as int]);
                if ok_all {
                    lemma_repeated_ok_prefix::<Self, M>(
                        old(self).written().len(),
                        old(self).nested_state(),
                        field as nat,
                        msgs@,
                        i + 1,
                    );
                }
            }
            match self.write_message_field(field, &msgs[i]) {
                Ok(()) => {},
                Err(e) => {
                    assert(msgs@[i as int] == s.last());
                    return Err(e);
                },
            }
            proof {
                assert(self.written() =~= old(self).written() + repeated_messages(field as nat, s));
            }
            i = i + 1;
        }
        assert(msgs@.subrange(0, i as int) =~= msgs@);
        let _ = self.written_len();
        Ok(())
    }

    /// Writes an unsigned integer field; a number type decides how.
    fn write_varint_field<F: NumField>(&mut self, field: usize, val: F) -> (r: Result<(), WireError>)
        requires
            field <= MAX_TAG,
        ensures
            r is Ok <==> val.num_value() is None || old(self).written().len() + varint_field_bytes(
                field as nat,
                val.num_value(),
            ).len() <= usize::MAX,
            r is Ok ==> final(self).written() == old(self).written() + varint_field_bytes(
                field as nat,
                val.num_value(),
            ),
            r is Err ==> r == Err::<(), WireError>(WireError::SizeOverflow),
            final(self).nested_state() == old(self).nested_state(),
    {
        val.write_varint_field(field, self)
    }

    /// Writes a length-delimited field of raw bytes.
    fn write_byte_field(&mut self, field: usize, val: &[u8]) -> (r: Result<(), WireError>)
        requires
            field <= MAX_TAG,
        ensures
            r is Ok <==> old(self).written().len() + delimited_bytes(field as nat, val@).len() <= usize::MAX,
            r is Ok ==> final(self).written() == old(self).written() + delimited_bytes(field as nat, val@),
            r is Err ==> r == Err::<(), WireError>(WireError::SizeOverflow),
            final(self).nested_state() == old(self).nested_state(),
    {
        let ghost h = header_bytes(field as nat, WireType::LengthDelimited);
        let ghost l = varint_bytes(val@.len());
        proof { lemma_varint_bytes(val@.len()); }
        match self.write_head(field, WireType::LengthDelimited) {
            Ok(()) => {},
            Err(e) => return Err(e),
        }
        match self.write_usize(val.len()) {
            Ok(()) => {},
            Err(e) => return Err(e),
        }
        let r = self.write_bytes(val);
        assert(old(self).written() + h + l + val@ =~= old(self).written() + delimited_bytes(field as nat, val@));
        r
    }

    fn write_repeated_byte_field(&mut self, field: usize, vals: &[Vec<u8>]) -> (r: Result<(), WireError>)
        requires
            field <= MAX_TAG,
        ensures
            r is Ok <==> old(self).written().len() + repeated_bytes(field as nat, vals@.map_values(|v: Vec<u8>| v@)).len()
                <= usize::MAX,
            r is Ok ==> final(self).written() == old(self).written() + repeated_bytes(
                field as nat,
                vals@.map_values(|v: Vec<u8>| v@),
            ),
            r is Err ==> r == Err::<(), WireError>(WireError::SizeOverflow),
            final(self).nested_state() == old(self).nested_state(),
    {
        let ghost all = vals@.map_values(|v: Vec<u8>| v@);
        let mut i: usize = 0;
        while i < vals.len()
            invariant
                field <= MAX_TAG,
                all == vals@.map_values(|v: Vec<u8>| v@),
                i <= vals@.len(),
                self.written() == old(self).written() + repeated_bytes(field as nat, all.subrange(0, i as int)),
                self.nested_state() == old(self).nested_state(),
            decreases vals@.len() - i,
        {
            proof {
                lemma_repeated_prefix(field as nat, all, i + 1);
                assert(all.subrange(0, i + 1).drop_last() =~= all.subrange(0, i as int));
            }
            match self.write_byte_field(field, vals[i].as_slice()) {
                Ok(()) => {},
                Err(e) => return Err(e),
            }
            proof {
                let s = all.subrange(0, i + 1);
                assert(s.drop_last() =~= all.subrange(0, i as int));
                assert(s.last() == vals@[i as int]@);
                assert(self.written() =~= old(self).written() + repeated_bytes(field as nat, s));
            }
            i = i + 1;
        }
        assert(all.subrange(0, i as int) =~= all);
        let _ = self.written_len();
        Ok(())
    }

    /// Writes a length-delimited field holding the UTF-8 bytes of `val`.
    fn write_str_field(&mut self, field: usize, val: &str) -> (r: Result<(), WireError>)
        requires
            field <= MAX_TAG,
        ensures
            r is Ok <==> old(self).written().len() + delimited_bytes(field as nat, val.spec_bytes()).len() <= usize::MAX,
            r is Ok ==> final(self).written() == old(self).written() + delimited_bytes(field as nat, val.spec_bytes()),
            r is Err ==> r == Err::<(), WireError>(WireError::SizeOverflow),
            final(self).nested_state() == old(self).nested_state(),
    {
        self.write_byte_field(field, val.as_bytes())
    }

    /// Writes a string field when there is a value; nothing otherwise.
    fn write_opt_str_field(&mut self, field: usize, val: Option<&str>) -> (r: Result<(), WireError>)
        requires
            field <= MAX_TAG,
        ensures
            val is None ==> r is Ok && final(self).written() == old(self).written(),
            val matches Some(s) ==> (r is Ok <==> old(self).written().len() + delimited_bytes(field as nat, s.spec_bytes()).len()
                <= usize::MAX),
            val matches Some(s) ==> (r is Ok ==> final(self).written() == old(self).written() + delimited_bytes(
                field as nat,
                s.spec_bytes(),
            )),
            r is Err ==> r == Err::<(), WireError>(WireError::SizeOverflow),
            final(self).nested_state() == old(self).nested_state(),
    {
        match val {
            Some(s) => self.write_str_field(field, s),
            None => Ok(()),
        }
    }

    fn write_repeated_str_field(&mut self, field: usize, vals: &[&str]) -> (r: Result<(), WireError>)
        requires
            field <= MAX_TAG,
        ensures
            r is Ok <==> old(self).written().len() + repeated_bytes(field as nat, vals@.map_values(|v: &str| v.spec_bytes())).len()
                <= usize::MAX,
            r is Ok ==> final(self).written() == old(self).written() + repeated_bytes(
                field as nat,
                vals@.map_values(|v: &str| v.spec_bytes()),
            ),
            r is Err ==> r == Err::<(), WireError>(WireError::SizeOverflow),
            final(self).nested_state() == old(self).nested_state(),
    {
        let ghost all = vals@.map_values(|v: &str| v.spec_bytes());
        let mut i: usize = 0;
        while i < vals.len()
            invariant
                field <= MAX_TAG,
                all == vals@.map_values(|v: &str| v.spec_bytes()),
                i <= vals@.len(),
                self.written() == old(self).written() + repeated_bytes(field as nat, all.subrange(0, i as int)),
                self.nested_state() == old(self).nested_state(),
            decreases vals@.len() - i,
        {
            proof {
                lemma_repeated_prefix(field as nat, all, i + 1);
                assert(all.subrange(0, i + 1).drop_last() =~= all.subrange(0, i as int));
            }
            match self.write_str_field(field, vals[i]) {
                Ok(()) => {},
                Err(e) => return Err(e),
            }
            proof {
                let s = all.subrange(0, i + 1);
                assert(s.drop_last() =~= all.subrange(0, i as int));
                assert(s.last() == vals@[i as int].spec_bytes());
                assert(self.written() =~= old(self).written() + repeated_bytes(field as nat, s));
            }
            i = i + 1;
        }
        assert(all.subrange(0, i as int) =~= all);
        let _ = self.written_len();
        Ok(())
    }
}

} // verus!
