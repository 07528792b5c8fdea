use vstd::prelude::*;

use crate::error::WireError;
use crate::message::{
    MAX_TAG, FieldValue, Message, MessageField, encode_field, encode_message, layout, lemma_encode_one,
    lemma_encode_prefix, lemma_encode_push, lemma_tags_one, lemma_tags_prefix, nested_bytes, tags_ok,
};
use crate::output_stream::{OutputStream, OutputStreamBackend, message_layout};
use crate::output_writer::{OutputWriter, laid_out};

use crate::varint::lemma_varint_bytes;
use crate::wire_type::WireType;

verus! {

broadcast use vstd::seq::axiom_seq_subrange_decreases, vstd::seq::axiom_seq_index_decreases,
    vstd::std_specs::vec::axiom_vec_decreases_to_view;

/// The sizes in a layout list, as numbers.
pub open spec fn sizes_of(s: Seq<usize>) -> Seq<nat> {
    s.map_values(|x: usize| x as nat)
}

/// A running byte count, together with the bytes it stands for.
struct Counter {
    size: usize,
    counted: Ghost<Seq<u8>>,
}

impl Counter {
    #[verifier::type_invariant]
    spec fn inv(self) -> bool {
        self.size == self.counted@.len()
    }
}

/// The size pass: walks a message as the write pass will, counting the bytes
/// instead of emitting them, and records the size of every nested message in
/// depth-first pre-order.
pub struct Serializer {
    counter: Counter,
    nested: Vec<usize>,
}

impl Serializer {
    /// The recorded nested sizes.
    pub closed spec fn nested_sizes(&self) -> Seq<usize> {
        self.nested@
    }

    pub fn new() -> (r: Serializer)
        ensures
            r.written() == Seq::<u8>::empty(),
            r.nested_sizes() == Seq::<usize>::empty(),
            r.nested_state() == (0int, Seq::<usize>::empty()),
    {
        Serializer { counter: Counter { size: 0, counted: Ghost(Seq::empty()) }, nested: Vec::new() }
    }

    /// The number of bytes counted so far.
    pub fn size(&self) -> (r: usize)
        ensures
            r == self.written().len(),
    {
        proof {
            use_type_invariant(&self.counter);
        }
        self.counter.size
    }

    /// Runs the size pass over the fields of `msg`.
    pub fn count_message<M: Message>(&mut self, msg: &M) -> (r: Result<(), WireError>)
        requires
            tags_ok(msg.spec_fields()),
        ensures
            r is Ok <==> old(self).written().len() + encode_message(msg.spec_fields()).len() <= usize::MAX,
            r is Ok ==> final(self).written() == old(self).written() + encode_message(msg.spec_fields()),
            r is Ok ==> sizes_of(final(self).nested_sizes()) == sizes_of(old(self).nested_sizes()) + layout(
                msg.spec_fields(),
            ),
            r is Err ==> r == Err::<(), WireError>(WireError::SizeOverflow),
    {
        let fields = msg.fields();
        self.size_fields(fields)
    }

    /// Writes `msg` to the end of `writer`, using the sizes this size pass
    /// recorded. When they were recorded for this same value from the start,
    /// this succeeds and writes exactly its encoding.
    pub fn serialize<M: Message>(&self, msg: &M, writer: &mut Vec<u8>) -> (r: Result<(), WireError>)
        requires
            tags_ok(msg.spec_fields()),
        ensures
            r is Ok ==> final(writer)@ == old(writer)@ + encode_message(msg.spec_fields()),
            r is Ok && self.written() == encode_message(msg.spec_fields()) ==> final(writer)@.len() == old(
                writer,
            )@.len() + self.written().len(),
            r is Err ==> final(writer)@ == old(writer)@,
            laid_out(self.nested_sizes(), 0, layout(msg.spec_fields())) && encode_message(msg.spec_fields()).len()
                <= usize::MAX ==> r is Ok,
            r is Err ==> r == Err::<(), WireError>(WireError::InvalidSerializer) || r == Err::<(), WireError>(
                WireError::SizeOverflow,
            ),
    {
        let fields = msg.fields();
        let mut out = OutputWriter::new(self.nested.as_slice(), Vec::new());
        match out.emit_fields(fields) {
            Ok(()) => {},
            Err(e) => return Err(e),
        }
        let mut bytes = out.into_bytes();
        assert(bytes@ =~= encode_message(msg.spec_fields()));
        writer.append(&mut bytes);
        Ok(())
    }

    /// Writes `msg` into the front of `dst`, which must hold at least
    /// `size()` bytes; nothing is written where it does not.
    pub fn serialize_into<M: Message>(&self, msg: &M, dst: &mut [u8]) -> (r: Result<(), WireError>)
        requires
            tags_ok(msg.spec_fields()),
        ensures
            self.written().len() > old(dst)@.len() ==> r == Err::<(), WireError>(WireError::BufferTooSmall),
            r is Err ==> final(dst)@ == old(dst)@,
            r is Ok ==> encode_message(msg.spec_fields()).len() <= old(dst)@.len() && final(dst)@ == encode_message(
                msg.spec_fields(),
            ) + old(dst)@.subrange(encode_message(msg.spec_fields()).len() as int, old(dst)@.len() as int),
            self.written().len() <= old(dst)@.len() && laid_out(self.nested_sizes(), 0, layout(msg.spec_fields()))
                && self.written() == encode_message(msg.spec_fields()) ==> r is Ok,
            r is Err ==> r == Err::<(), WireError>(WireError::BufferTooSmall) || r == Err::<(), WireError>(
                WireError::InvalidSerializer,
            ) || r == Err::<(), WireError>(WireError::SizeOverflow),
    {
        if self.size() > dst.len() {
            return Err(WireError::BufferTooSmall);
        }
        let mut bytes: Vec<u8> = Vec::new();
        match self.serialize(msg, &mut bytes) {
            Ok(()) => {},
            Err(e) => return Err(e),
        }
        if bytes.len() > dst.len() {
            return Err(WireError::InvalidSerializer);
        }
        let ghost prior = dst@;
        let mut i: usize = 0;
        while i < bytes.len()
            invariant
                prior == old(dst)@,
                bytes@ == encode_message(msg.spec_fields()),
                bytes@.len() <= dst@.len(),
                dst@.len() == prior.len(),
                i <= bytes@.len(),
                forall|j: int| 0 <= j < i ==> dst@[j] == bytes@[j],
                forall|j: int| i <= j < dst@.len() ==> dst@[j] == prior[j],
            decreases bytes@.len() - i,
        {
            dst[i] = bytes[i];
            i = i + 1;
        }
        assert(dst@ =~= bytes@ + prior.subrange(bytes@.len() as int, prior.len() as int));
        Ok(())
    }

    /// Counts the fields of a message value, in order.
    fn size_fields(&mut self, fs: &Vec<MessageField>) -> (r: Result<(), WireError>)
        requires
            tags_ok(fs@),
        ensures
            r is Ok <==> old(self).written().len() + encode_message(fs@).len() <= usize::MAX,
            r is Ok ==> final(self).written() == old(self).written() + encode_message(fs@),
            r is Ok ==> sizes_of(final(self).nested_sizes()) == sizes_of(old(self).nested_sizes()) + layout(fs@),
            r is Err ==> r == Err::<(), WireError>(WireError::SizeOverflow),
        decreases fs@, 0nat,
    {
        let ghost start = self.written();
        let ghost start_nested = sizes_of(self.nested@);
        let mut i: usize = 0;
        while i < fs.len()
            invariant
                tags_ok(fs@),
                start == old(self).written(),
                start_nested == sizes_of(old(self).nested@),
                i <= fs@.len(),
                self.written() == start + encode_message(fs@.subrange(0, i as int)),
                sizes_of(self.nested@) == start_nested + layout(fs@.subrange(0, i as int)),
            decreases fs@.len() - i,
        {
            let ghost prefix = fs@.subrange(0, i as int);
            let ghost f = fs@[i as int];
            let ghost before = self.written();
            let ghost before_nested = sizes_of(self.nested@);
            proof {
                assert(prefix.push(f) =~= fs@.subrange(0, i + 1));
                lemma_encode_push(prefix, f);
                lemma_tags_prefix(fs@, i + 1);
                lemma_encode_prefix(fs@, i + 1);
                lemma_tags_one(f);
                lemma_encode_one(f);
            }
            let r = match &fs[i].value {
                FieldValue::Varint(v) => {
                    let r = self.write_varint_field(fs[i].tag, *v);
                    proof {
                        if r is Ok {
                            assert(self.written() =~= before + encode_field(f));
                        }
                    }
                    r
                },
                FieldValue::Bytes(b) => {
                    let r = self.write_byte_field(fs[i].tag, b.as_slice());
                    proof {
                        if r is Ok {
                            assert(self.written() =~= before + encode_field(f));
                        }
                    }
                    r
                },
                FieldValue::Message(m) => {
                    proof {
                        assert(decreases_to!(fs@ => f));
                        assert(decreases_to!(f => f.value));
                        assert(decreases_to!(f.value => *m));
                        assert(decreases_to!(*m => m@));
                        assert(decreases_to!(fs@ => m@));
                    }
                    self.size_nested(fs[i].tag, m)
                },
            };
            match r {
                Ok(()) => {},
                Err(e) => return Err(e),
            }
            proof {
                assert(self.written() =~= start + encode_message(fs@.subrange(0, i + 1)));
                assert(sizes_of(self.nested@) =~= start_nested + layout(fs@.subrange(0, i + 1)));
            }
            i = i + 1;
        }
        proof {
            assert(fs@.subrange(0, i as int) =~= fs@);
            use_type_invariant(&self.counter);
        }
        Ok(())
    }

    /// Counts one nested message field: a placeholder is recorded first, the
    /// content counted, and the placeholder then set to the content's size.
    fn size_nested(&mut self, tag: usize, m: &Vec<MessageField>) -> (r: Result<(), WireError>)
        requires
            tag <= MAX_TAG,
            tags_ok(m@),
        ensures
            r is Ok <==> old(self).written().len() + nested_bytes(tag as nat, encode_message(m@)).len() <= usize::MAX,
            r is Ok ==> final(self).written() == old(self).written() + nested_bytes(tag as nat, encode_message(m@)),
            r is Ok ==> sizes_of(final(self).nested_sizes()) == sizes_of(old(self).nested_sizes()) + seq![
                encode_message(m@).len(),
            ] + layout(m@),
            r is Err ==> r == Err::<(), WireError>(WireError::SizeOverflow),
        decreases m@, 1nat,
    {
        proof {
            use_type_invariant(&self.counter);
        }
        let ghost c = encode_message(m@);
        let ghost before = self.written();
        let ghost before_nested = sizes_of(self.nested@);
        let position = self.nested.len();
        let prev_count = self.counter.size;
        self.nested.push(0);
        proof {
            lemma_varint_bytes(c.len());
            assert(sizes_of(self.nested@) =~= before_nested + seq![0nat]);
        }
        let ghost pushed = sizes_of(self.nested@);
        match self.size_fields(m) {
            Ok(()) => {},
            Err(e) => return Err(e),
        }
        proof {
            use_type_invariant(&self.counter);
        }
        assert(sizes_of(self.nested@).len() == self.nested@.len());
        let nested_size = self.counter.size - prev_count;
        assert(nested_size == c.len());
        let ghost filled = sizes_of(self.nested@);
        assert(filled == pushed + layout(m@));
        self.nested.set(position, nested_size);
        proof {
            assert forall|j: int| 0 <= j < self.nested@.len() implies sizes_of(self.nested@)[j] == (before_nested
                + seq![c.len()] + layout(m@))[j] by {
                if j != position {
                    assert(sizes_of(self.nested@)[j] == filled[j]);
                }
            }
            assert(sizes_of(self.nested@) =~= before_nested + seq![c.len()] + layout(m@));
        }
        if nested_size > 0 {
            match self.write_head(tag, WireType::LengthDelimited) {
                Ok(()) => {},
                Err(e) => return Err(e),
            }
            match self.write_usize(nested_size) {
                Ok(()) => {},
                Err(e) => return Err(e),
            }
            proof {
                use_type_invariant(&self.counter);
            }
            let ghost reordered = before + nested_bytes(tag as nat, c);
            self.counter = Counter { size: self.counter.size, counted: Ghost(reordered) };
        } else {
            proof {
                assert(self.written() =~= before + nested_bytes(tag as nat, c));
            }
        }
        Ok(())
    }
}

impl OutputStreamBackend for Serializer {
    closed spec fn written(&self) -> Seq<u8> {
        self.counter.counted@
    }

    closed spec fn nested_state(&self) -> (int, Seq<usize>) {
        (0, self.nested@)
    }

    /// The size pass takes any message whose count still fits.
    open spec fn accepts(len: nat, state: (int, Seq<usize>), size: nat, lay: Seq<nat>) -> bool {
        len + size <= usize::MAX
    }

    /// The size pass appends the message's layout to its list.
    open spec fn nested_after(state: (int, Seq<usize>), lay: Seq<nat>) -> (int, Seq<usize>) {
        (state.0, state.1 + lay.map_values(|x: nat| x as usize))
    }

    open spec fn exhausted(state: (int, Seq<usize>)) -> bool {
        false
    }

    fn written_len(&self) -> (r: usize) {
        self.size()
    }

    fn write_bytes(&mut self, bytes: &[u8]) -> (r: Result<(), WireError>) {
        proof {
            use_type_invariant(&self.counter);
        }
        if bytes.len() > usize::MAX - self.counter.size {
            return Err(WireError::SizeOverflow);
        }
        let ghost counted = self.counter.counted@ + bytes@;
        self.counter = Counter { size: self.counter.size + bytes.len(), counted: Ghost(counted) };
        Ok(())
    }
}

impl OutputStream for Serializer {
    fn write_message_field<M: Message>(&mut self, field: usize, msg: &M) -> (r: Result<(), WireError>) {
        let fields = msg.fields();
        let r = self.size_nested(field, fields);
        proof {
            if r is Ok {
                let lay = message_layout(msg.spec_fields());
                let n0 = old(self).nested@;
                let n1 = self.nested@;
                assert(sizes_of(n1) == sizes_of(n0) + lay);
                assert(n1.len() == n0.len() + lay.len());
                assert forall|j: int| 0 <= j < n1.len() implies n1[j] == (n0 + lay.map_values(|x: nat| x as usize))[j] by {
                    assert(sizes_of(n1)[j] == n1[j] as nat);
                    if j < n0.len() {
                        assert(sizes_of(n0)[j] == n0[j] as nat);
                    } else {
                        assert(lay[j - n0.len()] == n1[j] as nat);
                    }
                }
                assert(n1 =~= n0 + lay.map_values(|x: nat| x as usize));
            }
        }
        r
    }
}

} // verus!
