use vstd::prelude::*;

use crate::error::WireError;
use crate::message::{
    MAX_TAG, FieldValue, Message, MessageField, encode_message, layout, lemma_encode_one,
    lemma_encode_prefix, lemma_encode_push, lemma_layout_prefix, lemma_tags_one, lemma_tags_prefix,
    nested_bytes, tags_ok,
};
use crate::output_stream::{OutputStream, OutputStreamBackend};
use crate::varint::lemma_varint_bytes;
use crate::wire_type::WireType;

verus! {

broadcast use vstd::seq::axiom_seq_subrange_decreases, vstd::seq::axiom_seq_index_decreases,
    vstd::std_specs::vec::axiom_vec_decreases_to_view;

/// Whether the sizes in `sizes` from index `at` on begin with `expected`.
pub open spec fn laid_out(sizes: Seq<usize>, at: int, expected: Seq<nat>) -> bool {
    &&& 0 <= at
    &&& at + expected.len() <= sizes.len()
    &&& forall|j: int| 0 <= j < expected.len() ==> sizes[at + j] as nat == #[trigger] expected[j]
}

/// The write pass: replays a message against a byte buffer, taking the size
/// of each nested message from the list the size pass recorded.
pub struct OutputWriter<'a> {
    curr: usize,
    nested: &'a [usize],
    writer: Vec<u8>,
}

impl<'a> OutputWriter<'a> {
    /// A write pass over `nested`, appending to `writer`.
    pub fn new(nested: &'a [usize], writer: Vec<u8>) -> (r: OutputWriter<'a>)
        ensures
            r.written() == writer@,
            r.nested_state() == (0int, nested@),
    {
        OutputWriter { curr: 0, nested, writer }
    }

    /// The buffer, with all that was written to it.
    pub fn into_bytes(self) -> (r: Vec<u8>)
        ensures
            r@ == self.written(),
    {
        self.writer
    }

    /// Writes the fields of a message value, in order. It succeeds whenever
    /// the sizes ahead of the cursor are those of the value's nested messages
    /// and the output fits.
    pub(crate) fn emit_fields(&mut self, fs: &Vec<MessageField>) -> (r: Result<(), WireError>)
        requires
            tags_ok(fs@),
        ensures
            final(self).nested_state().1 == old(self).nested_state().1,
            r is Ok ==> final(self).written() == old(self).written() + encode_message(fs@),
            r is Ok ==> final(self).nested_state().0 == old(self).nested_state().0 + layout(fs@).len(),
            laid_out(old(self).nested_state().1, old(self).nested_state().0, layout(fs@))
                && old(self).written().len() + encode_message(fs@).len() <= usize::MAX ==> r is Ok,
            r is Err ==> r == Err::<(), WireError>(WireError::InvalidSerializer) || r == Err::<(), WireError>(
                WireError::SizeOverflow,
            ),
        decreases fs@, 0nat,
    {
        let ghost start = self.written();
        let ghost start_curr = self.curr as int;
        let ghost good = laid_out(self.nested@, self.curr as int, layout(fs@)) && start.len() + encode_message(
            fs@,
        ).len() <= usize::MAX;
        let mut i: usize = 0;
        while i < fs.len()
            invariant
                tags_ok(fs@),
                start == old(self).written(),
                start_curr == old(self).curr,
                self.nested@ == old(self).nested@,
                good == (laid_out(self.nested@, start_curr, layout(fs@)) && start.len() + encode_message(fs@).len()
                    <= usize::MAX),
                i <= fs@.len(),
                self.written() == start + encode_message(fs@.subrange(0, i as int)),
                self.curr == start_curr + layout(fs@.subrange(0, i as int)).len(),
            decreases fs@.len() - i,
        {
            let ghost prefix = fs@.subrange(0, i as int);
            let ghost f = fs@[i as int];
            let ghost before = self.written();
            proof {
                assert(prefix.push(f) =~= fs@.subrange(0, i + 1));
                lemma_encode_push(prefix, f);
                lemma_tags_prefix(fs@, i + 1);
                lemma_encode_prefix(fs@, i + 1);
                lemma_layout_prefix(fs@, i + 1);
                lemma_tags_one(f);
                lemma_encode_one(f);
                if good {
                    let lp = layout(prefix);
                    let lf = layout(fs@.subrange(0, i + 1));
                    assert forall|j: int| 0 <= j < (lf.len() - lp.len()) implies self.nested@[self.curr + j] as nat
                        == #[trigger] lf.subrange(lp.len() as int, lf.len() as int)[j] by {
                        assert(lf[lp.len() + j] == layout(fs@)[lp.len() + j]);
                    }
                }
            }
            let r = match &fs[i].value {
                FieldValue::Varint(v) => self.write_varint_field(fs[i].tag, *v),
                FieldValue::Bytes(b) => self.write_byte_field(fs[i].tag, b.as_slice()),
                FieldValue::Message(m) => {
                    proof {
                        assert(decreases_to!(fs@ => f));
                        assert(decreases_to!(f => f.value));
                        assert(decreases_to!(f.value => *m));
                        assert(decreases_to!(*m => m@));
                        let lp = layout(prefix);
                        let lf = layout(fs@.subrange(0, i + 1));
                        assert(lf =~= lp + seq![encode_message(m@).len()] + layout(m@));
                        assert(lf.subrange(lp.len() as int, lf.len() as int) =~= seq![encode_message(m@).len()]
                            + layout(m@));
                    }
                    self.emit_nested(fs[i].tag, m)
                },
            };
            match r {
                Ok(()) => {},
                Err(e) => return Err(e),
            }
            proof {
                assert(self.written() =~= start + encode_message(fs@.subrange(0, i + 1)));
            }
            i = i + 1;
        }
        proof {
            assert(fs@.subrange(0, i as int) =~= fs@);
        }
        Ok(())
    }

    /// Writes one nested message field: the next recorded size is taken; when
    /// it is zero the field is omitted, else the header and that size are
    /// written before the content. The content must come out at that size.
    fn emit_nested(&mut self, tag: usize, m: &Vec<MessageField>) -> (r: Result<(), WireError>)
        requires
            tag <= MAX_TAG,
            tags_ok(m@),
        ensures
            final(self).nested_state().1 == old(self).nested_state().1,
            r is Ok ==> final(self).written() == old(self).written() + nested_bytes(tag as nat, encode_message(m@)),
            r is Ok ==> final(self).nested_state().0 == old(self).nested_state().0 + 1 + layout(m@).len(),
            laid_out(
                old(self).nested_state().1,
                old(self).nested_state().0,
                seq![encode_message(m@).len()] + layout(m@),
            ) && old(self).written().len() + nested_bytes(tag as nat, encode_message(m@)).len() <= usize::MAX
                ==> r is Ok,
            r is Err ==> r == Err::<(), WireError>(WireError::InvalidSerializer) || r == Err::<(), WireError>(
                WireError::SizeOverflow,
            ),
            old(self).nested_state().0 >= old(self).nested_state().1.len() ==> r == Err::<(), WireError>(
                WireError::InvalidSerializer,
            ) && *final(self) == *old(self),
        decreases m@, 1nat,
    {
        let ghost c = encode_message(m@);
        let ghost before = self.written();
        let ghost good = laid_out(self.nested@, self.curr as int, seq![c.len()] + layout(m@)) && before.len()
            + nested_bytes(tag as nat, c).len() <= usize::MAX;
        if self.curr >= self.nested.len() {
            return Err(WireError::InvalidSerializer);
        }
        let size = self.nested[self.curr];
        self.curr = self.curr + 1;
        proof {
            lemma_varint_bytes(c.len());
            if good {
                assert((seq![c.len()] + layout(m@))[0] == c.len());
                assert forall|j: int| 0 <= j < layout(m@).len() implies self.nested@[self.curr + j] as nat
                    == #[trigger] layout(m@)[j] by {
                    assert((seq![c.len()] + layout(m@))[1 + j] == layout(m@)[j]);
                }
            }
        }
        if size > 0 {
            match self.write_head(tag, WireType::LengthDelimited) {
                Ok(()) => {},
                Err(e) => return Err(e),
            }
            match self.write_usize(size) {
                Ok(()) => {},
                Err(e) => return Err(e),
            }
        }
        let ghost after_head = self.written();
        let before_len = self.writer.len();
        match self.emit_fields(m) {
            Ok(()) => {},
            Err(e) => return Err(e),
        }
        if self.writer.len() - before_len != size {
            return Err(WireError::InvalidSerializer);
        }
        assert(self.written() =~= before + nested_bytes(tag as nat, c));
        Ok(())
    }
}

impl<'a> OutputStreamBackend for OutputWriter<'a> {
    closed spec fn written(&self) -> Seq<u8> {
        self.writer@
    }

    closed spec fn nested_state(&self) -> (int, Seq<usize>) {
        (self.curr as int, self.nested@)
    }

    /// The write pass takes a message whose layout the recorded sizes hold
    /// at the cursor, and whose bytes still fit.
    open spec fn accepts(len: nat, state: (int, Seq<usize>), size: nat, lay: Seq<nat>) -> bool {
        laid_out(state.1, state.0, lay) && len + size <= usize::MAX
    }

    /// The write pass moves its cursor past the message's layout.
    open spec fn nested_after(state: (int, Seq<usize>), lay: Seq<nat>) -> (int, Seq<usize>) {
        (state.0 + lay.len(), state.1)
    }

    /// The write pass has no recorded size left.
    open spec fn exhausted(state: (int, Seq<usize>)) -> bool {
        state.0 >= state.1.len()
    }

    fn written_len(&self) -> (r: usize) {
        self.writer.len()
    }

    fn write_bytes(&mut self, bytes: &[u8]) -> (r: Result<(), WireError>) {
        if bytes.len() > usize::MAX - self.writer.len() {
            return Err(WireError::SizeOverflow);
        }
        let ghost start = self.writer@;
        let mut i: usize = 0;
        while i < bytes.len()
            invariant
                start == old(self).writer@,
                self.curr == old(self).curr,
                self.nested == old(self).nested,
                i <= bytes@.len(),
                self.writer@ == start + bytes@.subrange(0, i as int),
            decreases bytes@.len() - i,
        {
            self.writer.push(bytes[i]);
            i = i + 1;
            assert(self.writer@ =~= start + bytes@.subrange(0, i as int));
        }
        assert(bytes@.subrange(0, i as int) =~= bytes@);
        Ok(())
    }
}

impl<'a> OutputStream for OutputWriter<'a> {
    fn write_message_field<M: Message>(&mut self, field: usize, msg: &M) -> (r: Result<(), WireError>) {
        let fields = msg.fields();
        let r = self.emit_nested(field, fields);
        let _ = self.writer.len();
        r
    }
}

} // verus!
