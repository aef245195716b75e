//! The streaming driver and the record iterators.
//!
//! [`AttrIter`] applies the grammar incrementally against a growable buffer
//! of input bytes, tracking the absolute byte offset for diagnostics.
//! [`RawObjectIter`] folds the attribute stream into per-record key-to-value
//! mappings, and [`ObjectIter`] decodes those records into typed objects.
//! The byte source stays outside this library: callers feed chunks of bytes
//! in whenever an iterator reports that it needs more input, and declare the
//! end of the source when nothing is left.

use vstd::prelude::*;

use crate::structured::{spec_object_from_raw, Object, ObjectView, StructureError, StructureErrorView};
use crate::syntax::{
    attribute, begindata, lemma_spec_attribute_bounds, lemma_spec_begindata_bounds, spec_attribute,
    spec_begindata, Parsed, SpecParsed, Value, ValueView,
};
use crate::text::str_eq;
use vstd::slice::slice_index_get;

verus! {

/// A grammar-level failure, with the absolute offset of the first byte at
/// which the input demonstrably cannot match.
#[derive(Debug, Clone, PartialEq, Eq)]
pub struct ParseError {
    pub byte_offset: u64,
}

/// The accumulated mapping of an entry list, later entries overwriting
/// earlier ones.
pub open spec fn entries_map(es: Seq<(String, Value)>) -> Map<Seq<char>, ValueView>
    decreases es.len(),
{
    if es.len() == 0 {
        Map::empty()
    } else {
        entries_map(es.drop_last()).insert(es.last().0@, es.last().1@)
    }
}

/// Pairwise-distinct keys.
pub open spec fn keys_unique(es: Seq<(String, Value)>) -> bool {
    forall|i: int, j: int| 0 <= i < j < es.len() ==> es[i].0@ != es[j].0@
}

proof fn lemma_entries_map_contains(es: Seq<(String, Value)>, k: Seq<char>)
    ensures
        entries_map(es).contains_key(k) <==> exists|i: int|
            0 <= i < es.len() && (#[trigger] es[i].0@) == k,
    decreases es.len(),
{
    if es.len() > 0 {
        lemma_entries_map_contains(es.drop_last(), k);
        assert(forall|i: int| 0 <= i < es.len() - 1 ==> (#[trigger] es.drop_last()[i]) == es[i]);
        if es.last().0@ == k {
            assert(es[es.len() - 1].0@ == k);
        } else {
            if entries_map(es).contains_key(k) {
            } else {
                assert(forall|i: int| 0 <= i < es.len() - 1 ==> (#[trigger] es[i])
                    == es.drop_last()[i]);
            }
        }
    }
}

proof fn lemma_entries_map_value(es: Seq<(String, Value)>, i: int)
    requires
        keys_unique(es),
        0 <= i < es.len(),
    ensures
        entries_map(es).contains_key(es[i].0@),
        entries_map(es)[es[i].0@] == es[i].1@,
    decreases es.len(),
{
    if i < es.len() - 1 {
        assert(forall|x: int| 0 <= x < es.len() - 1 ==> (#[trigger] es.drop_last()[x]) == es[x]);
        lemma_entries_map_value(es.drop_last(), i);
        assert(es.last().0@ != es[i].0@);
    }
}

proof fn lemma_entries_map_remove(es: Seq<(String, Value)>, i: int)
    requires
        keys_unique(es),
        0 <= i < es.len(),
    ensures
        entries_map(es.remove(i)) == entries_map(es).remove(es[i].0@),
    decreases es.len(),
{
    let k = es[i].0@;
    if i == es.len() - 1 {
        assert(es.remove(i) =~= es.drop_last());
        lemma_entries_map_contains(es.drop_last(), k);
        assert(forall|j: int| 0 <= j < es.len() - 1 ==> (#[trigger] es.drop_last()[j]) == es[j]);
        assert(!entries_map(es.drop_last()).contains_key(k));
        assert(entries_map(es).remove(k) =~= entries_map(es.drop_last()));
    } else {
        assert(forall|x: int| 0 <= x < es.len() - 1 ==> (#[trigger] es.drop_last()[x]) == es[x]);
        assert(es.remove(i).drop_last() =~= es.drop_last().remove(i));
        assert(es.remove(i).last() == es.last());
        lemma_entries_map_remove(es.drop_last(), i);
        let lk = es.last().0@;
        let lv = es.last().1@;
        assert(lk != k);
        assert(entries_map(es.drop_last()).remove(k).insert(lk, lv) =~= entries_map(
            es.drop_last(),
        ).insert(lk, lv).remove(k));
        assert(entries_map(es.remove(i)) == entries_map(es.remove(i).drop_last()).insert(
            es.remove(i).last().0@,
            es.remove(i).last().1@,
        ));
    }
}

/// One raw record: a mapping from attribute keys to values.  Keys are
/// unique; inserting an existing key overwrites its value (last write wins).
#[derive(Debug)]
pub struct RawObject {
    entries: Vec<(String, Value)>,
}

impl View for RawObject {
    type V = Map<Seq<char>, ValueView>;

    closed spec fn view(&self) -> Map<Seq<char>, ValueView> {
        entries_map(self.entries@)
    }
}

impl RawObject {
    /// Well-formed: keys are pairwise distinct.  Every constructor
    /// establishes this and every method preserves it.
    pub closed spec fn wf(self) -> bool {
        keys_unique(self.entries@)
    }

    /// An empty record.
    pub fn new() -> (r: RawObject)
        ensures
            r.wf(),
            r@ == Map::<Seq<char>, ValueView>::empty(),
    {
        RawObject { entries: Vec::new() }
    }

    fn find_index(&self, key: &str) -> (r: Option<usize>)
        ensures
            r matches Some(i) ==> i < self.entries@.len() && self.entries@[i as int].0@ == key@,
            r is None ==> forall|i: int|
                0 <= i < self.entries@.len() ==> (#[trigger] self.entries@[i].0@) != key@,
    {
        let n = self.entries.len();
        let mut i: usize = 0;
        while i < n
            invariant
                i <= n,
                n == self.entries@.len(),
                forall|j: int| 0 <= j < i ==> (#[trigger] self.entries@[j].0@) != key@,
            decreases n - i,
        {
            if str_eq(self.entries[i].0.as_str(), key) {
                return Some(i);
            }
            i += 1;
        }
        None
    }

    /// True when the record holds no attributes.
    pub fn is_empty(&self) -> (r: bool)
        ensures
            r == (self@.dom() == Set::<Seq<char>>::empty()),
    {
        proof {
            if self.entries@.len() == 0 {
                assert(self@.dom() =~= Set::<Seq<char>>::empty());
            } else {
                lemma_entries_map_contains(self.entries@, self.entries@[0].0@);
                assert(self@.contains_key(self.entries@[0].0@));
            }
        }
        self.entries.is_empty()
    }

    /// Inserts an attribute; an existing value under the same key is
    /// overwritten.
    pub fn insert(&mut self, key: String, value: Value)
        requires
            old(self).wf(),
        ensures
            final(self).wf(),
            final(self)@ == old(self)@.insert(key@, value@),
    {
        let ghost before = self@;
        let _ = self.remove(key.as_str());
        proof {
            lemma_entries_map_contains(self.entries@, key@);
        }
        let ghost mid = self.entries@;
        self.entries.push((key, value));
        proof {
            assert(self.entries@.drop_last() =~= mid);
            assert(self@ =~= before.insert(key@, value@));
        }
    }

    /// Removes and returns the value stored under `key`, if any.
    pub fn remove(&mut self, key: &str) -> (r: Option<Value>)
        requires
            old(self).wf(),
        ensures
            final(self).wf(),
            final(self)@ == old(self)@.remove(key@),
            r is Some <==> old(self)@.contains_key(key@),
            r matches Some(v) ==> old(self)@[key@] == v@,
    {
        proof {
            lemma_entries_map_contains(self.entries@, key@);
        }
        match self.find_index(key) {
            Some(i) => {
                proof {
                    lemma_entries_map_value(self.entries@, i as int);
                    lemma_entries_map_remove(self.entries@, i as int);
                    assert(forall|x: int, y: int|
                        0 <= x < y < self.entries@.remove(i as int).len() ==> self.entries@.remove(
                            i as int,
                        )[x].0@ != self.entries@.remove(i as int)[y].0@);
                }
                let (_, v) = self.entries.remove(i);
                Some(v)
            },
            None => {
                proof {
                    assert(!old(self)@.contains_key(key@));
                    assert(self@ =~= old(self)@.remove(key@));
                }
                None
            },
        }
    }
}

/// One pull on the attribute stream.
#[derive(Debug, Clone, PartialEq, Eq)]
pub enum AttrStep {
    /// One attribute: its key and its typed value.
    Attr(String, Value),
    /// The buffered bytes are a valid but incomplete prefix: feed more input
    /// or declare the end of the source.
    NeedInput,
    /// The stream has ended; every later pull reports the same.
    End,
    /// The input cannot match the grammar; the stream is poisoned and every
    /// later pull reports `End`.
    Fail(ParseError),
}

/// Specification-level counterpart of [`AttrStep`].
pub enum AttrStepView {
    Attr(Seq<char>, ValueView),
    NeedInput,
    End,
    Fail(int),
}

impl View for AttrStep {
    type V = AttrStepView;

    open spec fn view(&self) -> AttrStepView {
        match self {
            AttrStep::Attr(k, v) => AttrStepView::Attr(k@, v@),
            AttrStep::NeedInput => AttrStepView::NeedInput,
            AttrStep::End => AttrStepView::End,
            AttrStep::Fail(e) => AttrStepView::Fail(e.byte_offset as int),
        }
    }
}

/// Specification-level state of the attribute stream: the buffered bytes not
/// yet consumed, the absolute offset of the first of them, whether the
/// header has been consumed, whether the source has ended, and whether an
/// error has poisoned the stream.
pub struct AttrIterView {
    pub buf: Seq<u8>,
    pub offset: int,
    pub started: bool,
    pub eof: bool,
    pub poisoned: bool,
}

/// Result and successor state of one pull on the attribute stream.
pub struct AttrOutcome {
    pub step: AttrStepView,
    pub state: AttrIterView,
}

/// One pull once the header has been consumed: apply the attribute rule at
/// the front of the buffer.  A match consumes its bytes and advances the
/// offset; an incomplete prefix asks for input, or ends the stream when the
/// source is exhausted; an error carries the absolute offset and poisons the
/// stream.
pub open spec fn spec_attr_pull(st: AttrIterView) -> AttrOutcome {
    match spec_attribute(st.buf) {
        SpecParsed::Found((k, v), n) => AttrOutcome {
            step: AttrStepView::Attr(k, v),
            state: AttrIterView {
                buf: st.buf.subrange(n, st.buf.len() as int),
                offset: st.offset + n,
                ..st
            },
        },
        SpecParsed::Incomplete => if st.eof {
            AttrOutcome { step: AttrStepView::End, state: st }
        } else {
            AttrOutcome { step: AttrStepView::NeedInput, state: st }
        },
        SpecParsed::Failed(k) => AttrOutcome {
            step: AttrStepView::Fail(st.offset + k),
            state: AttrIterView { poisoned: true, ..st },
        },
    }
}

/// One pull on the attribute stream: a poisoned stream only reports `End`;
/// before anything else the `BEGINDATA` header must match; then one
/// attribute is pulled.
pub open spec fn spec_attr_next(st: AttrIterView) -> AttrOutcome {
    if st.poisoned {
        AttrOutcome { step: AttrStepView::End, state: st }
    } else if !st.started {
        match spec_begindata(st.buf) {
            SpecParsed::Found(_, n) => spec_attr_pull(
                AttrIterView {
                    buf: st.buf.subrange(n, st.buf.len() as int),
                    offset: st.offset + n,
                    started: true,
                    ..st
                },
            ),
            SpecParsed::Incomplete => if st.eof {
                AttrOutcome { step: AttrStepView::End, state: st }
            } else {
                AttrOutcome { step: AttrStepView::NeedInput, state: st }
            },
            SpecParsed::Failed(k) => AttrOutcome {
                step: AttrStepView::Fail(st.offset + k),
                state: AttrIterView { poisoned: true, ..st },
            },
        }
    } else {
        spec_attr_pull(st)
    }
}

/// The attribute stream.  It owns a growable buffer of input bytes and
/// applies the grammar incrementally at the buffer's front, tracking the
/// absolute byte offset for diagnostics.  The byte source stays with the
/// caller: `feed` appends the next chunk whenever a pull reports that more
/// input is needed, and `finish` declares the source exhausted.
pub struct AttrIter {
    buf: Vec<u8>,
    offset: u64,
    started: bool,
    eof: bool,
    poisoned: bool,
}

impl View for AttrIter {
    type V = AttrIterView;

    closed spec fn view(&self) -> AttrIterView {
        AttrIterView {
            buf: self.buf@,
            offset: self.offset as int,
            started: self.started,
            eof: self.eof,
            poisoned: self.poisoned,
        }
    }
}

impl AttrIter {
    /// The absolute offset stays representable next to the buffered bytes.
    pub closed spec fn wf(self) -> bool {
        self.offset + self.buf@.len() <= u64::MAX
    }

    /// An empty stream at offset zero, still awaiting its header.
    pub fn new() -> (r: AttrIter)
        ensures
            r.wf(),
            r@ == (AttrIterView {
                buf: Seq::<u8>::empty(),
                offset: 0,
                started: false,
                eof: false,
                poisoned: false,
            }),
    {
        AttrIter { buf: Vec::new(), offset: 0, started: false, eof: false, poisoned: false }
    }

    /// Appends the next chunk of input bytes.
    pub fn feed(&mut self, chunk: &[u8])
        requires
            old(self).wf(),
            !old(self)@.eof,
            old(self)@.offset + old(self)@.buf.len() + chunk@.len() <= u64::MAX,
        ensures
            final(self).wf(),
            final(self)@ == (AttrIterView { buf: old(self)@.buf + chunk@, ..old(self)@ }),
    {
        self.buf.extend_from_slice(chunk);
        proof {
            assert(self.buf@ =~= old(self).buf@ + chunk@);
        }
    }

    /// Declares the byte source exhausted: nothing more will be fed.
    pub fn finish(&mut self)
        requires
            old(self).wf(),
        ensures
            final(self).wf(),
            final(self)@ == (AttrIterView { eof: true, ..old(self)@ }),
    {
        self.eof = true;
    }

    fn consume(&mut self, n: usize)
        requires
            old(self).wf(),
            n <= old(self)@.buf.len(),
        ensures
            final(self).wf(),
            final(self)@ == (AttrIterView {
                buf: old(self)@.buf.subrange(n as int, old(self)@.buf.len() as int),
                offset: old(self)@.offset + n,
                ..old(self)@
            }),
    {
        let len = self.buf.len();
        let mut rest: Vec<u8> = Vec::new();
        let mut i: usize = n;
        while i < len
            invariant
                n <= i <= len,
                len == self.buf@.len(),
                rest@ == self.buf@.subrange(n as int, i as int),
            decreases len - i,
        {
            let b = *slice_index_get(self.buf.as_slice(), i);
            rest.push(b);
            proof {
                assert(rest@ =~= self.buf@.subrange(n as int, i + 1));
            }
            i += 1;
        }
        proof {
            assert(rest@ =~= self.buf@.subrange(n as int, len as int));
        }
        self.buf = rest;
        self.offset = self.offset + (n as u64);
    }

    /// Pulls the next attribute.  The first successful pull also consumes
    /// the `BEGINDATA` header; a stream that has failed once reports only
    /// `End` from then on.
    pub fn next_attr(&mut self) -> (r: AttrStep)
        requires
            old(self).wf(),
        ensures
            final(self).wf(),
            r@ == spec_attr_next(old(self)@).step,
            final(self)@ == spec_attr_next(old(self)@).state,
    {
        if self.poisoned {
            return AttrStep::End;
        }
        if !self.started {
            match begindata(self.buf.as_slice()) {
                Parsed::Found(_, n) => {
                    proof {
                        lemma_spec_begindata_bounds(self.buf@);
                    }
                    self.consume(n);
                    self.started = true;
                },
                Parsed::Incomplete => {
                    return if self.eof {
                        AttrStep::End
                    } else {
                        AttrStep::NeedInput
                    };
                },
                Parsed::Failed(k) => {
                    proof {
                        lemma_spec_begindata_bounds(self.buf@);
                    }
                    let off = self.offset + (k as u64);
                    self.poisoned = true;
                    return AttrStep::Fail(ParseError { byte_offset: off });
                },
            }
        }
        match attribute(self.buf.as_slice()) {
            Parsed::Found(kv, n) => {
                proof {
                    lemma_spec_attribute_bounds(self.buf@);
                }
                self.consume(n);
                let (key, value) = kv;
                AttrStep::Attr(key, value)
            },
            Parsed::Incomplete => {
                if self.eof {
                    AttrStep::End
                } else {
                    AttrStep::NeedInput
                }
            },
            Parsed::Failed(k) => {
                proof {
                    lemma_spec_attribute_bounds(self.buf@);
                }
                let off = self.offset + (k as u64);
                self.poisoned = true;
                AttrStep::Fail(ParseError { byte_offset: off })
            },
        }
    }
}

/// A matched attribute always consumes at least one byte, so pulling it
/// strictly shrinks the buffer.
pub proof fn lemma_spec_attr_progress(st: AttrIterView)
    ensures
        spec_attr_next(st).step matches AttrStepView::Attr(_, _) ==> spec_attr_next(
            st,
        ).state.buf.len() < st.buf.len(),
        spec_attr_next(st).state.buf.len() <= st.buf.len(),
{
    lemma_spec_begindata_bounds(st.buf);
    lemma_spec_attribute_bounds(st.buf);
    if !st.poisoned && !st.started {
        match spec_begindata(st.buf) {
            SpecParsed::Found(_, n) => {
                lemma_spec_attribute_bounds(st.buf.subrange(n, st.buf.len() as int));
            },
            _ => {},
        }
    }
}

/// One pull on the raw-record stream.
#[derive(Debug)]
pub enum RawStep {
    /// One completed record.
    Object(RawObject),
    /// More input is needed; feed or finish the underlying stream.
    NeedInput,
    /// The stream has ended; every later pull reports the same.
    End,
    /// The underlying attribute stream failed; every later pull reports
    /// `End`.
    Fail(ParseError),
}

/// Specification-level counterpart of [`RawStep`].
pub enum RawStepView {
    Object(Map<Seq<char>, ValueView>),
    NeedInput,
    End,
    Fail(int),
}

impl View for RawStep {
    type V = RawStepView;

    open spec fn view(&self) -> RawStepView {
        match self {
            RawStep::Object(o) => RawStepView::Object(o@),
            RawStep::NeedInput => RawStepView::NeedInput,
            RawStep::End => RawStepView::End,
            RawStep::Fail(e) => RawStepView::Fail(e.byte_offset as int),
        }
    }
}

/// Specification-level state of the raw-record stream: the attribute stream,
/// the accumulator of the record in progress, and whether the stream is
/// done.
pub struct RawIterView {
    pub inner: AttrIterView,
    pub acc: Map<Seq<char>, ValueView>,
    pub done: bool,
}

/// Result and successor state of one pull on the raw-record stream.
pub struct RawOutcome {
    pub step: RawStepView,
    pub state: RawIterView,
}

/// One pull on the raw-record stream: attributes are folded into the
/// accumulator until a class-marker attribute arrives while the accumulator
/// is non-empty, which emits the accumulated record and seeds a fresh one
/// with just that attribute.  At the end of the stream a non-empty remainder
/// is emitted once.
pub open spec fn spec_raw_next(st: RawIterView) -> RawOutcome
    decreases st.inner.buf.len(),
{
    if st.done {
        RawOutcome { step: RawStepView::End, state: st }
    } else {
        let ao = spec_attr_next(st.inner);
        match ao.step {
            AttrStepView::Fail(off) => RawOutcome {
                step: RawStepView::Fail(off),
                state: RawIterView { inner: ao.state, acc: st.acc, done: true },
            },
            AttrStepView::NeedInput => RawOutcome {
                step: RawStepView::NeedInput,
                state: RawIterView { inner: ao.state, acc: st.acc, done: false },
            },
            AttrStepView::End => if st.acc.dom() != Set::<Seq<char>>::empty() {
                RawOutcome {
                    step: RawStepView::Object(st.acc),
                    state: RawIterView { inner: ao.state, acc: Map::empty(), done: true },
                }
            } else {
                RawOutcome {
                    step: RawStepView::End,
                    state: RawIterView { inner: ao.state, acc: st.acc, done: true },
                }
            },
            AttrStepView::Attr(k, v) => if k == "CKA_CLASS"@ && st.acc.dom() != Set::<
                Seq<char>,
            >::empty() {
                RawOutcome {
                    step: RawStepView::Object(st.acc),
                    state: RawIterView {
                        inner: ao.state,
                        acc: Map::empty().insert(k, v),
                        done: false,
                    },
                }
            } else if ao.state.buf.len() < st.inner.buf.len() {
                spec_raw_next(RawIterView { inner: ao.state, acc: st.acc.insert(k, v), done: false })
            } else {
                RawOutcome { step: RawStepView::Fail(-1), state: st }
            },
        }
    }
}

/// The raw-record stream never grows its buffer, and an emitted record
/// either consumed bytes or ended the stream.
pub proof fn lemma_spec_raw_progress(st: RawIterView)
    ensures
        spec_raw_next(st).state.inner.buf.len() <= st.inner.buf.len(),
        spec_raw_next(st).step matches RawStepView::Object(_) ==> spec_raw_next(
            st,
        ).state.inner.buf.len() < st.inner.buf.len() || (spec_raw_next(st).state.done && !st.done),
    decreases st.inner.buf.len(),
{
    if !st.done {
        lemma_spec_attr_progress(st.inner);
        let ao = spec_attr_next(st.inner);
        match ao.step {
            AttrStepView::Attr(k, v) => {
                if !(k == "CKA_CLASS"@ && st.acc.dom() != Set::<Seq<char>>::empty()) {
                    lemma_spec_raw_progress(
                        RawIterView { inner: ao.state, acc: st.acc.insert(k, v), done: false },
                    );
                }
            },
            _ => {},
        }
    }
}

/// The raw-record stream: wraps the attribute stream and owns the one
/// mutable accumulator of the record in progress.
pub struct RawObjectIter {
    inner: AttrIter,
    acc: RawObject,
    done: bool,
}

impl View for RawObjectIter {
    type V = RawIterView;

    closed spec fn view(&self) -> RawIterView {
        RawIterView { inner: self.inner@, acc: self.acc@, done: self.done }
    }
}

impl RawObjectIter {
    /// Both the attribute stream and the accumulator are well-formed.
    pub closed spec fn wf(self) -> bool {
        self.inner.wf() && self.acc.wf()
    }

    /// A fresh stream with an empty accumulator.
    pub fn new() -> (r: RawObjectIter)
        ensures
            r.wf(),
            r@.inner == (AttrIterView {
                buf: Seq::<u8>::empty(),
                offset: 0,
                started: false,
                eof: false,
                poisoned: false,
            }),
            r@.acc == Map::<Seq<char>, ValueView>::empty(),
            !r@.done,
    {
        RawObjectIter { inner: AttrIter::new(), acc: RawObject::new(), done: false }
    }

    /// Appends the next chunk of input bytes.
    pub fn feed(&mut self, chunk: &[u8])
        requires
            old(self).wf(),
            !old(self)@.inner.eof,
            old(self)@.inner.offset + old(self)@.inner.buf.len() + chunk@.len() <= u64::MAX,
        ensures
            final(self).wf(),
            final(self)@ == (RawIterView {
                inner: AttrIterView { buf: old(self)@.inner.buf + chunk@, ..old(self)@.inner },
                ..old(self)@
            }),
    {
        self.inner.feed(chunk);
    }

    /// Declares the byte source exhausted.
    pub fn finish(&mut self)
        requires
            old(self).wf(),
        ensures
            final(self).wf(),
            final(self)@ == (RawIterView {
                inner: AttrIterView { eof: true, ..old(self)@.inner },
                ..old(self)@
            }),
    {
        self.inner.finish();
    }

    /// Pulls the next complete raw record.
    pub fn next_object(&mut self) -> (r: RawStep)
        requires
            old(self).wf(),
        ensures
            final(self).wf(),
            r@ == spec_raw_next(old(self)@).step,
            final(self)@ == spec_raw_next(old(self)@).state,
            r matches RawStep::Object(o) ==> o.wf(),
    {
        if self.done {
            return RawStep::End;
        }
        loop
            invariant
                self.wf(),
                !self@.done,
                spec_raw_next(old(self)@) == spec_raw_next(self@),
            decreases self@.inner.buf.len(),
        {
            proof {
                lemma_spec_attr_progress(self@.inner);
            }
            match self.inner.next_attr() {
                AttrStep::Fail(e) => {
                    self.done = true;
                    return RawStep::Fail(e);
                },
                AttrStep::NeedInput => {
                    return RawStep::NeedInput;
                },
                AttrStep::End => {
                    self.done = true;
                    if !self.acc.is_empty() {
                        let mut out = RawObject::new();
                        core::mem::swap(&mut out, &mut self.acc);
                        return RawStep::Object(out);
                    } else {
                        return RawStep::End;
                    }
                },
                AttrStep::Attr(key, value) => {
                    let marker = str_eq(key.as_str(), "CKA_CLASS");
                    if marker && !self.acc.is_empty() {
                        let mut fresh = RawObject::new();
                        fresh.insert(key, value);
                        core::mem::swap(&mut fresh, &mut self.acc);
                        return RawStep::Object(fresh);
                    } else {
                        self.acc.insert(key, value);
                    }
                },
            }
        }
    }
}

/// One pull on the decoded-object stream.
#[derive(Debug)]
pub enum ObjStep {
    /// One decoded certificate or trust record.
    Item(Object),
    /// A record that failed semantic validation.  The stream goes on: the
    /// caller decides whether to stop or skip.
    Bad(StructureError),
    /// More input is needed; feed or finish the underlying stream.
    NeedInput,
    /// The stream has ended; every later pull reports the same.
    End,
    /// The underlying attribute stream failed; every later pull reports
    /// `End`.
    Fail(ParseError),
}

/// Specification-level counterpart of [`ObjStep`].
pub enum ObjStepView {
    Item(ObjectView),
    Bad(StructureErrorView),
    NeedInput,
    End,
    Fail(int),
}

impl View for ObjStep {
    type V = ObjStepView;

    open spec fn view(&self) -> ObjStepView {
        match self {
            ObjStep::Item(o) => ObjStepView::Item(o@),
            ObjStep::Bad(e) => ObjStepView::Bad(e@),
            ObjStep::NeedInput => ObjStepView::NeedInput,
            ObjStep::End => ObjStepView::End,
            ObjStep::Fail(e) => ObjStepView::Fail(e.byte_offset as int),
        }
    }
}

/// Result and successor state of one pull on the decoded-object stream.
pub struct ObjOutcome {
    pub step: ObjStepView,
    pub state: RawIterView,
}

/// One pull on the decoded-object stream: raw records are decoded as they
/// come, and records of unrecognised class are filtered silently rather than
/// reported.
pub open spec fn spec_obj_next(st: RawIterView) -> ObjOutcome
    decreases st.inner.buf.len(), (if st.done { 0int } else { 1int }),
{
    let ro = spec_raw_next(st);
    match ro.step {
        RawStepView::Fail(off) => ObjOutcome { step: ObjStepView::Fail(off), state: ro.state },
        RawStepView::NeedInput => ObjOutcome { step: ObjStepView::NeedInput, state: ro.state },
        RawStepView::End => ObjOutcome { step: ObjStepView::End, state: ro.state },
        RawStepView::Object(m) => match spec_object_from_raw(m) {
            Err(e) => ObjOutcome { step: ObjStepView::Bad(e), state: ro.state },
            Ok(Some(o)) => ObjOutcome { step: ObjStepView::Item(o), state: ro.state },
            Ok(None) => if ro.state.inner.buf.len() < st.inner.buf.len() || (
            ro.state.inner.buf.len() == st.inner.buf.len() && !st.done && ro.state.done) {
                spec_obj_next(ro.state)
            } else {
                ObjOutcome { step: ObjStepView::Fail(-1), state: st }
            },
        },
    }
}

/// Determinism of decoding: two streams in the same state — the same
/// buffered bytes, offset, header progress, source status and accumulator —
/// take the same step to the same successor state.  Decoding identical input
/// bytes twice therefore yields equal structured results.
pub proof fn lemma_decoding_deterministic(a: RawIterView, b: RawIterView)
    requires
        a.inner.buf == b.inner.buf,
        a.inner.offset == b.inner.offset,
        a.inner.started == b.inner.started,
        a.inner.eof == b.inner.eof,
        a.inner.poisoned == b.inner.poisoned,
        a.acc == b.acc,
        a.done == b.done,
    ensures
        spec_obj_next(a) == spec_obj_next(b),
{
    assert(a.inner == b.inner);
    assert(a == b);
}

/// The decoded-object stream: wraps the raw-record stream and decodes each
/// record, filtering records of unrecognised class.
pub struct ObjectIter {
    inner: RawObjectIter,
}

impl View for ObjectIter {
    type V = RawIterView;

    closed spec fn view(&self) -> RawIterView {
        self.inner@
    }
}

impl ObjectIter {
    /// The underlying raw-record stream is well-formed.
    pub closed spec fn wf(self) -> bool {
        self.inner.wf()
    }

    /// A fresh stream.
    pub fn new() -> (r: ObjectIter)
        ensures
            r.wf(),
            r@.inner == (AttrIterView {
                buf: Seq::<u8>::empty(),
                offset: 0,
                started: false,
                eof: false,
                poisoned: false,
            }),
            r@.acc == Map::<Seq<char>, ValueView>::empty(),
            !r@.done,
    {
        ObjectIter { inner: RawObjectIter::new() }
    }

    /// Gives back the underlying raw-record stream.
    pub fn into_inner(self) -> (r: RawObjectIter)
        ensures
            r.wf() == self.wf(),
            r@ == self@,
    {
        self.inner
    }

    /// Appends the next chunk of input bytes.
    pub fn feed(&mut self, chunk: &[u8])
        requires
            old(self).wf(),
            !old(self)@.inner.eof,
            old(self)@.inner.offset + old(self)@.inner.buf.len() + chunk@.len() <= u64::MAX,
        ensures
            final(self).wf(),
            final(self)@ == (RawIterView {
                inner: AttrIterView { buf: old(self)@.inner.buf + chunk@, ..old(self)@.inner },
                ..old(self)@
            }),
    {
        self.inner.feed(chunk);
    }

    /// Declares the byte source exhausted.
    pub fn finish(&mut self)
        requires
            old(self).wf(),
        ensures
            final(self).wf(),
            final(self)@ == (RawIterView {
                inner: AttrIterView { eof: true, ..old(self)@.inner },
                ..old(self)@
            }),
    {
        self.inner.finish();
    }

    /// Pulls the next decoded object.
    pub fn next_decoded(&mut self) -> (r: ObjStep)
        requires
            old(self).wf(),
        ensures
            final(self).wf(),
            r@ == spec_obj_next(old(self)@).step,
            final(self)@ == spec_obj_next(old(self)@).state,
    {
        loop
            invariant
                self.wf(),
                spec_obj_next(old(self)@) == spec_obj_next(self@),
            decreases self@.inner.buf.len(), (if self@.done { 0int } else { 1int }),
        {
            let ghost pre = self@;
            proof {
                lemma_spec_raw_progress(pre);
            }
            match self.inner.next_object() {
                RawStep::Fail(e) => {
                    return ObjStep::Fail(e);
                },
                RawStep::NeedInput => {
                    return ObjStep::NeedInput;
                },
                RawStep::End => {
                    return ObjStep::End;
                },
                RawStep::Object(o) => {
                    match Object::from_raw(o) {
                        Err(e) => {
                            return ObjStep::Bad(e);
                        },
                        Ok(Some(obj)) => {
                            return ObjStep::Item(obj);
                        },
                        Ok(None) => {
                        },
                    }
                },
            }
        }
    }
}

} // verus!
