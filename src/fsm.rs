//! The fragmenting state machine: a resumable pull parser whose every call is
//! one run of its model, `run`, from the state the call starts in.
use vstd::prelude::*;
use crate::buf::Buffer;
use crate::error::{NbtParseError, NbtResult};
use crate::tag::{NbtTag, decode_tag};
use crate::properties::{
    error_is_local, lemma_error_is_local, lemma_fragment_reads_back, lemma_run_keeps_no_end_lists,
    no_end_lists, reads_back,
};
use crate::view::{BeRepr, BeSlice, be_int, be_uint, lemma_be_uint_bound, lemma_pow256_values};

verus! {

/// An enclosing container that the parser returns to once the current value ends.
#[derive(Debug, Clone, Copy, PartialEq, Eq, Structural, PartialOrd, Ord, Hash)]
pub enum Nested {
    /// A list of `tag` elements with `len` elements still to come.
    List { tag: NbtTag, len: usize },
    Compound,
}

/// Progress through the name of the current entry.
#[derive(Debug, Clone, Copy, PartialEq, Eq, Structural, PartialOrd, Ord, Hash)]
pub enum NameState {
    /// The two length bytes of the name are next.
    NoNameLen,
    /// This many bytes of the name are still to come.
    Name(usize),
    /// No name is being read.
    NameComplete,
}

/// Progress through the payload of the current value.
#[derive(Debug, Clone, Copy, PartialEq, Eq, Structural, PartialOrd, Ord, Hash)]
pub enum TagState {
    /// The tag byte of the next entry is next.
    Empty,
    Byte,
    Short,
    Int,
    Long,
    Float,
    Double,
    ByteArrayNoLength,
    ByteArray(usize),
    StringNoLength,
    String(usize),
    ListNoTag,
    ListNoLength(NbtTag),
    List(NbtTag, usize),
}

/// What a call of the parser found: a value, or how many more bytes it needs at least.
#[derive(Debug, Clone, Copy, PartialEq, Eq, Hash)]
pub enum FsmResult<T> {
    /// The buffer must be filled with at least N bytes to continue parsing
    Needs(usize),
    Found(T),
}

impl<T> FsmResult<T> {
    /// Applies `cb` to a found value; passes a request for more bytes on.
    pub fn map_found<U, F: FnOnce(T) -> U>(self, cb: F) -> (r: FsmResult<U>)
        requires
            self matches FsmResult::Found(v) ==> cb.requires((v,)),
        ensures
            match self {
                FsmResult::Found(v) => r matches FsmResult::Found(u) && cb.ensures((v,), u),
                FsmResult::Needs(n) => r == FsmResult::<U>::Needs(n),
            },
    {
        match self {
            FsmResult::Found(val) => FsmResult::Found(cb(val)),
            FsmResult::Needs(needs) => FsmResult::Needs(needs),
        }
    }
}

/// What a fragment carries, with every payload as the bytes it was read from.
pub enum Fragment {
    End,
    CompoundTag,
    Byte(i8),
    Short(i16),
    Int(i32),
    Long(i64),
    /// The IEEE-754 bits of the value.
    Float(u32),
    /// The IEEE-754 bits of the value.
    Double(u64),
    ShortList(Seq<u8>),
    IntList(Seq<u8>),
    LongList(Seq<u8>),
    FloatList(Seq<u8>),
    DoubleList(Seq<u8>),
    Name(Seq<u8>),
    ByteArray(Seq<u8>),
    String(Seq<u8>),
}

/// The whole state of a parser: its input and position, and where it stands in the tree.
pub struct Machine {
    pub bytes: Seq<u8>,
    pub pos: nat,
    pub state: TagState,
    pub name: NameState,
    pub stack: Seq<Nested>,
}

/// What one call of the parser returns.
pub type Outcome = Result<FsmResult<Fragment>, NbtParseError>;

/// The number of bytes after the position.
pub open spec fn avail(m: Machine) -> nat {
    if m.pos <= m.bytes.len() {
        (m.bytes.len() - m.pos) as nat
    } else {
        0
    }
}

/// The next `n` bytes.
pub open spec fn window(m: Machine, n: int) -> Seq<u8> {
    m.bytes.subrange(m.pos as int, m.pos + n)
}

/// `m` with `n` more bytes consumed.
pub open spec fn advance(m: Machine, n: nat) -> Machine {
    Machine { pos: m.pos + n, ..m }
}

/// Leaves the current value: back into the list or compound on top of the stack.
pub open spec fn pop_outer(m: Machine) -> Machine {
    if m.stack.len() > 0 {
        match m.stack.last() {
            Nested::List { tag, len } => Machine {
                state: TagState::List(tag, len),
                stack: m.stack.drop_last(),
                ..m
            },
            Nested::Compound => Machine { state: TagState::Empty, stack: m.stack.drop_last(), ..m },
        }
    } else {
        Machine { state: TagState::Empty, ..m }
    }
}

/// The state in which the payload of a named entry of tag `t` is read.
pub open spec fn entry_state(t: NbtTag) -> TagState {
    match t {
        NbtTag::Byte => TagState::Byte,
        NbtTag::Short => TagState::Short,
        NbtTag::Int => TagState::Int,
        NbtTag::Long => TagState::Long,
        NbtTag::Float => TagState::Float,
        NbtTag::Double => TagState::Double,
        NbtTag::ByteArray => TagState::ByteArrayNoLength,
        NbtTag::String => TagState::StringNoLength,
        NbtTag::List => TagState::ListNoTag,
        NbtTag::IntArray => TagState::ListNoLength(NbtTag::Int),
        NbtTag::LongArray => TagState::ListNoLength(NbtTag::Long),
        _ => TagState::Empty,
    }
}

/// The state in which one element of a list of `t` is read.
pub open spec fn element_state(t: NbtTag) -> TagState {
    match t {
        NbtTag::Compound => TagState::Empty,
        NbtTag::List => TagState::ListNoTag,
        NbtTag::IntArray => TagState::ListNoLength(NbtTag::Int),
        NbtTag::LongArray => TagState::ListNoLength(NbtTag::Long),
        NbtTag::ByteArray => TagState::ByteArrayNoLength,
        _ => TagState::StringNoLength,
    }
}

/// The width of one element of a list of `t` where it is read in bulk, else 0.
pub open spec fn bulk_width(t: NbtTag) -> nat {
    match t {
        NbtTag::Byte => 1,
        NbtTag::Short => 2,
        NbtTag::Int | NbtTag::Float => 4,
        NbtTag::Long | NbtTag::Double => 8,
        _ => 0,
    }
}

/// The fragment for a bulk frame of a list of `t`.
pub open spec fn bulk_fragment(t: NbtTag, b: Seq<u8>) -> Fragment {
    match t {
        NbtTag::Byte => Fragment::ByteArray(b),
        NbtTag::Short => Fragment::ShortList(b),
        NbtTag::Int => Fragment::IntList(b),
        NbtTag::Long => Fragment::LongList(b),
        NbtTag::Float => Fragment::FloatList(b),
        _ => Fragment::DoubleList(b),
    }
}

/// The number of whole elements of width `w` in the next frame of a list with
/// `n` elements left.
pub open spec fn frame_count(n: nat, avail: nat, w: nat) -> nat {
    if n <= avail / w {
        n
    } else {
        avail / w
    }
}

pub open spec fn found(f: Fragment) -> Option<Outcome> {
    Some(Ok(FsmResult::Found(f)))
}

pub open spec fn needs(n: usize) -> Option<Outcome> {
    Some(Ok(FsmResult::Needs(n)))
}

/// A variable-length payload with `n` bytes left, and the fragment it yields.
pub open spec fn frame_step(
    m: Machine,
    n: usize,
    frag: spec_fn(Seq<u8>) -> Fragment,
    rest: spec_fn(usize) -> TagState,
) -> (Option<Outcome>, Machine) {
    let k = if n <= avail(m) {
        n as nat
    } else {
        avail(m)
    };
    if k == 0 {
        (needs(1), m)
    } else {
        (found(frag(window(m, k as int))), Machine { state: rest((n - k) as usize), ..advance(m, k) })
    }
}

/// One step of the name phase, taken while a name is being read.
pub open spec fn name_step(m: Machine) -> (Option<Outcome>, Machine) {
    match m.name {
        NameState::NoNameLen => if avail(m) >= 2 {
            (None, Machine { name: NameState::Name(be_uint(window(m, 2)) as usize), ..advance(m, 2) })
        } else {
            (needs(2), m)
        },
        NameState::Name(n) => if n == 0 {
            (found(Fragment::Name(Seq::empty())), Machine { name: NameState::NameComplete, ..m })
        } else {
            let k = if n <= avail(m) {
                n as nat
            } else {
                avail(m)
            };
            if k == 0 {
                (needs(1), m)
            } else {
                (
                    found(Fragment::Name(window(m, k as int))),
                    Machine { name: NameState::Name((n - k) as usize), ..advance(m, k) },
                )
            }
        },
        NameState::NameComplete => (None, m),
    }
}

/// A fixed-width scalar of `w` bytes: the value, then back to the enclosing container.
pub open spec fn scalar_step(m: Machine, w: usize, f: Fragment) -> (Option<Outcome>, Machine) {
    if avail(m) >= w {
        (found(f), pop_outer(advance(m, w as nat)))
    } else {
        (needs(w), m)
    }
}

/// A signed 32-bit length prefix, then `next(len)`; a negative one is an error.
pub open spec fn length_step(m: Machine, next: spec_fn(usize) -> TagState) -> (
    Option<Outcome>,
    Machine,
) {
    if avail(m) >= 4 {
        let v = be_int(window(m, 4));
        if v < 0 {
            (Some(Err(NbtParseError::InvalidLen(v as i32))), advance(m, 4))
        } else {
            (None, Machine { state: next(v as usize), ..advance(m, 4) })
        }
    } else {
        (needs(4), m)
    }
}

/// One step of the list phase: state `List(t, n)`.
pub open spec fn list_step(m: Machine, t: NbtTag, n: usize) -> (Option<Outcome>, Machine) {
    if n == 0 {
        (None, pop_outer(m))
    } else if bulk_width(t) > 0 {
        let w = bulk_width(t);
        let k = frame_count(n as nat, avail(m), w);
        if k == 0 {
            (needs(w as usize), m)
        } else {
            (
                found(bulk_fragment(t, window(m, (k * w) as int))),
                Machine { state: TagState::List(t, (n - k) as usize), ..advance(m, k * w) },
            )
        }
    } else if t == NbtTag::End {
        // elements of tag `End` are malformed; such a list is closed before its
        // length is read, so this state is never entered
        (Some(Err(NbtParseError::InvalidTag(0))), m)
    } else {
        let below = m.stack.push(Nested::List { tag: t, len: (n - 1) as usize });
        let stack = if t == NbtTag::Compound {
            below.push(Nested::Compound)
        } else {
            below
        };
        (
            None,
            Machine { state: element_state(t), name: NameState::NameComplete, stack: stack, ..m },
        )
    }
}

/// One step of the payload phase.
pub open spec fn tag_step(m: Machine) -> (Option<Outcome>, Machine) {
    match m.state {
        TagState::Empty => if avail(m) >= 1 {
            let m1 = advance(m, 1);
            match decode_tag(m.bytes[m.pos as int]) {
                Err(e) => (Some(Err(e)), m1),
                Ok(NbtTag::End) => (found(Fragment::End), pop_outer(m1)),
                Ok(NbtTag::Compound) => (
                    found(Fragment::CompoundTag),
                    Machine {
                        state: TagState::Empty,
                        name: NameState::NoNameLen,
                        stack: m.stack.push(Nested::Compound),
                        ..m1
                    },
                ),
                Ok(t) => (None, Machine { state: entry_state(t), name: NameState::NoNameLen, ..m1 }),
            }
        } else {
            (needs(1), m)
        },
        TagState::Byte => scalar_step(m, 1, Fragment::Byte(be_int(window(m, 1)) as i8)),
        TagState::Short => scalar_step(m, 2, Fragment::Short(be_int(window(m, 2)) as i16)),
        TagState::Int => scalar_step(m, 4, Fragment::Int(be_int(window(m, 4)) as i32)),
        TagState::Long => scalar_step(m, 8, Fragment::Long(be_int(window(m, 8)) as i64)),
        TagState::Float => scalar_step(m, 4, Fragment::Float(be_uint(window(m, 4)) as u32)),
        TagState::Double => scalar_step(m, 8, Fragment::Double(be_uint(window(m, 8)) as u64)),
        TagState::StringNoLength => if avail(m) >= 2 {
            (None, Machine { state: TagState::String(be_uint(window(m, 2)) as usize), ..advance(m, 2) })
        } else {
            (needs(2), m)
        },
        TagState::String(n) => if n == 0 {
            (found(Fragment::String(Seq::empty())), pop_outer(m))
        } else {
            frame_step(m, n, |b| Fragment::String(b), |r| TagState::String(r))
        },
        TagState::ByteArrayNoLength => length_step(m, |v| TagState::ByteArray(v)),
        TagState::ByteArray(n) => if n == 0 {
            (found(Fragment::ByteArray(Seq::empty())), pop_outer(m))
        } else {
            frame_step(m, n, |b| Fragment::ByteArray(b), |r| TagState::ByteArray(r))
        },
        TagState::ListNoTag => if avail(m) >= 1 {
            let m1 = advance(m, 1);
            match decode_tag(m.bytes[m.pos as int]) {
                Err(e) => (Some(Err(e)), m1),
                Ok(t) => (None, Machine { state: TagState::ListNoLength(t), ..m1 }),
            }
        } else {
            (needs(1), m)
        },
        TagState::ListNoLength(t) => if t == NbtTag::End {
            (found(Fragment::End), pop_outer(m))
        } else {
            length_step(m, |v| TagState::List(t, v))
        },
        TagState::List(t, n) => list_step(m, t, n),
    }
}

/// One step of the parser: the name first, then the payload.  `None` where it
/// goes on without returning.
pub open spec fn step(m: Machine) -> (Option<Outcome>, Machine) {
    if m.name == NameState::NameComplete {
        tag_step(m)
    } else {
        name_step(m)
    }
}

/// Orders the payload states for the steps that consume nothing.
pub open spec fn rank(s: TagState) -> nat {
    match s {
        TagState::List(_, _) => 1,
        _ => 0,
    }
}

/// Steps until the parser returns: what one call of the parser returns, and
/// the state it leaves.
pub open spec fn run(m: Machine) -> (Outcome, Machine)
    decreases avail(m), rank(m.state), m.stack.len(),
{
    let (o, next) = step(m);
    match o {
        Some(out) => (out, next),
        None => run(next),
    }
}

/// A step that does not return either consumes input, or leaves a list state,
/// or closes an enclosing container.
pub proof fn lemma_step_progress(m: Machine)
    requires
        step(m).0 is None,
    ensures
        ({
            let n = step(m).1;
            ||| avail(n) < avail(m)
            ||| avail(n) == avail(m) && rank(n.state) < rank(m.state)
            ||| avail(n) == avail(m) && rank(n.state) == rank(m.state) && n.stack.len()
                < m.stack.len()
        }),
{
}

/// A step reads forward in the same input.
pub proof fn lemma_step_consumes(m: Machine)
    requires
        m.pos <= m.bytes.len(),
    ensures
        step(m).1.bytes == m.bytes,
        m.pos <= step(m).1.pos <= m.bytes.len(),
{
    if m.name == NameState::NameComplete {
        if let TagState::List(t, n) = m.state {
            let w = bulk_width(t);
            if n > 0 && w > 0 {
                let k = frame_count(n as nat, avail(m), w);
                let a = avail(m);
                assert(k * w <= a) by (nonlinear_arith)
                    requires
                        k <= a / w,
                        w >= 1,
                ;
            }
        }
    }
}

/// Running to the next return reads forward in the same input.
pub proof fn lemma_run_consumes(m: Machine)
    requires
        m.pos <= m.bytes.len(),
    ensures
        run(m).1.bytes == m.bytes,
        m.pos <= run(m).1.pos <= m.bytes.len(),
    decreases avail(m), rank(m.state), m.stack.len(),
{
    lemma_step_consumes(m);
    if step(m).0 is None {
        lemma_step_progress(m);
        lemma_run_consumes(step(m).1);
    }
}

/// A fragment of the linearised tree, borrowing its payload from the input.
#[derive(Debug, Clone, Copy, PartialEq)]
pub enum NbtFragment<'s> {
    End,
    CompoundTag,
    Byte(i8),
    Short(i16),
    Int(i32),
    Long(i64),
    /// The IEEE-754 bits of the value (`f32::from_bits` gives it back).
    Float(u32),
    /// The IEEE-754 bits of the value (`f64::from_bits` gives it back).
    Double(u64),
    ShortListFrame(BeSlice<'s, i16>),
    IntListFrame(BeSlice<'s, i32>),
    LongListFrame(BeSlice<'s, i64>),
    /// The IEEE-754 bits of the values.
    FloatListFrame(BeSlice<'s, u32>),
    /// The IEEE-754 bits of the values.
    DoubleListFrame(BeSlice<'s, u64>),
    /// A name is represented by one or more non-empty frames followed by an empty one
    NameFrame(&'s [u8]),
    /// An array is represented by one or more non-empty frames followed by an empty one
    ByteArrayFrame(&'s [u8]),
    /// A string is represented by one or more non-empty frames followed by an empty one
    StringFrame(&'s [u8]),
}

impl<'s> NbtFragment<'s> {
    pub open spec fn model(&self) -> Fragment {
        match *self {
            NbtFragment::End => Fragment::End,
            NbtFragment::CompoundTag => Fragment::CompoundTag,
            NbtFragment::Byte(v) => Fragment::Byte(v),
            NbtFragment::Short(v) => Fragment::Short(v),
            NbtFragment::Int(v) => Fragment::Int(v),
            NbtFragment::Long(v) => Fragment::Long(v),
            NbtFragment::Float(v) => Fragment::Float(v),
            NbtFragment::Double(v) => Fragment::Double(v),
            NbtFragment::ShortListFrame(v) => Fragment::ShortList(v.raw()),
            NbtFragment::IntListFrame(v) => Fragment::IntList(v.raw()),
            NbtFragment::LongListFrame(v) => Fragment::LongList(v.raw()),
            NbtFragment::FloatListFrame(v) => Fragment::FloatList(v.raw()),
            NbtFragment::DoubleListFrame(v) => Fragment::DoubleList(v.raw()),
            NbtFragment::NameFrame(b) => Fragment::Name(b@),
            NbtFragment::ByteArrayFrame(b) => Fragment::ByteArray(b@),
            NbtFragment::StringFrame(b) => Fragment::String(b@),
        }
    }
}

/// What a call of the parser returned, over the fragment's model.
pub open spec fn outcome_of<'s>(r: NbtResult<FsmResult<NbtFragment<'s>>>) -> Outcome {
    match r {
        Ok(FsmResult::Found(f)) => Ok(FsmResult::Found(f.model())),
        Ok(FsmResult::Needs(n)) => Ok(FsmResult::Needs(n)),
        Err(e) => Err(e),
    }
}

pub open spec fn step_outcome<'s>(r: Option<NbtResult<FsmResult<NbtFragment<'s>>>>) -> Option<
    Outcome,
> {
    match r {
        Some(x) => Some(outcome_of(x)),
        None => None,
    }
}

/// A fixed-width read of `w` bytes that gives `v`, or asks for `w` bytes.
pub open spec fn captured<T>(m: Machine, m2: Machine, r: FsmResult<T>, w: nat, v: T) -> bool {
    if avail(m) >= w {
        r == FsmResult::Found(v) && m2 == advance(m, w)
    } else {
        r == FsmResult::<T>::Needs(w as usize) && m2 == m
    }
}

/// A resumable pull parser for NBT that yields fragments borrowed from its input.
#[derive(Debug, Clone, PartialEq)]
pub struct NbtFsm<'d> {
    buffer: Buffer<'d>,
    state: TagState,
    namestate: NameState,
    stack: Vec<Nested>,
}

impl<'d> Default for NbtFsm<'d> {
    fn default() -> (r: Self)
        ensures
            r.wf(),
            r.model() == (Machine {
                bytes: Seq::empty(),
                pos: 0,
                state: TagState::Empty,
                name: NameState::NameComplete,
                stack: Seq::empty(),
            }),
    {
        NbtFsm::new()
    }
}

type Step<'d> = Option<NbtResult<FsmResult<NbtFragment<'d>>>>;

impl<'d> NbtFsm<'d> {
    /// The parser's input, position, and place in the tree.
    pub closed spec fn model(&self) -> Machine {
        Machine {
            bytes: self.buffer.bytes(),
            pos: self.buffer.pos(),
            state: self.state,
            name: self.namestate,
            stack: self.stack@,
        }
    }

    /// The position never passes the end of the input.
    pub closed spec fn wf(&self) -> bool {
        self.buffer.wf()
    }

    /// A parser at the start of a stream, with no input yet.
    pub fn new() -> (r: Self)
        ensures
            r.wf(),
            r.model() == (Machine {
                bytes: Seq::empty(),
                pos: 0,
                state: TagState::Empty,
                name: NameState::NameComplete,
                stack: Seq::empty(),
            }),
    {
        let empty: &[u8] = &[];
        let r = NbtFsm {
            buffer: Buffer::new(empty),
            state: TagState::Empty,
            namestate: NameState::NameComplete,
            stack: Vec::new(),
        };
        assert(r.model().bytes =~= Seq::<u8>::empty());
        r
    }

    /// The same parser, reading from the start of `data` from now on.
    pub fn with_data<'new>(self, data: &'new [u8]) -> (r: NbtFsm<'new>)
        ensures
            r.wf(),
            r.model() == (Machine { bytes: data@, pos: 0, ..self.model() }),
    {
        let NbtFsm { stack, state, namestate, .. } = self;
        NbtFsm { buffer: Buffer::new(data), state, stack, namestate }
    }

    /// The number of bytes of the current input absorbed so far.
    pub fn consumed(&self) -> (r: usize)
        requires
            self.wf(),
        ensures
            r == self.model().pos,
    {
        self.buffer.consumed().len()
    }

    /// Where the state is `List`, records it on the stack.
    fn push_state(&mut self)
        ensures
            final(self).model() == (match old(self).state {
                TagState::List(tag, len) => Machine {
                    stack: old(self).model().stack.push(Nested::List { tag, len }),
                    ..old(self).model()
                },
                _ => old(self).model(),
            }),
            final(self).buffer == old(self).buffer,
    {
        if let TagState::List(tag, len) = self.state {
            self.stack.push(Nested::List { tag, len });
        }
    }

    fn pop_outer(&mut self)
        ensures
            final(self).model() == pop_outer(old(self).model()),
            final(self).buffer == old(self).buffer,
    {
        match self.stack.pop() {
            Some(Nested::List { tag, len }) => {
                self.state = TagState::List(tag, len);
            },
            _ => {
                self.state = TagState::Empty;
            },
        }
    }

    /// As many whole `T`s as are available, up to `len`, consumed as one view.
    fn read_array<T: BeRepr>(&mut self, len: usize) -> (r: BeSlice<'d, T>)
        requires
            old(self).wf(),
        ensures
            final(self).wf(),
            ({
                let m = old(self).model();
                let k = frame_count(len as nat, avail(m), T::width());
                &&& r.raw() == window(m, (k * T::width()) as int)
                &&& r@.len() == k
                &&& final(self).model() == advance(m, k * T::width())
            }),
    {
        let w = T::bytes();
        let has = self.buffer.available().len() / w;
        let k = if len <= has {
            len
        } else {
            has
        };
        proof {
            let a = avail(self.model()) as int;
            assert(k * w <= a) by (nonlinear_arith)
                requires
                    k <= a / (w as int),
                    w >= 1,
                    a >= 0,
            ;
            vstd::arithmetic::div_mod::lemma_mod_multiples_basic(k as int, w as int);
            vstd::arithmetic::div_mod::lemma_div_multiples_vanish(k as int, w as int);
            assert(w * k == k * w) by (nonlinear_arith);
        }
        let data = self.buffer.consume(k * w).unwrap();
        BeSlice::from_exact(data)
    }

    /// The next `LEN` bytes, or how many are needed.
    fn consume_arr<const LEN: usize>(&mut self) -> (r: FsmResult<&'d [u8]>)
        requires
            old(self).wf(),
        ensures
            final(self).wf(),
            if avail(old(self).model()) >= LEN {
                &&& r is Found
                &&& r->Found_0@ == window(old(self).model(), LEN as int)
                &&& final(self).model() == advance(old(self).model(), LEN as nat)
            } else {
                &&& r == FsmResult::<&'d [u8]>::Needs(LEN)
                &&& final(self).model() == old(self).model()
            },
    {
        match self.buffer.consume_arr::<LEN>() {
            Some(data) => FsmResult::Found(data),
            None => FsmResult::Needs(LEN),
        }
    }

    /// The IEEE-754 bits of a big-endian double.
    fn capture_double(&mut self) -> (r: FsmResult<u64>)
        requires
            old(self).wf(),
        ensures
            final(self).wf(),
            captured(
                old(self).model(),
                final(self).model(),
                r,
                8,
                be_uint(window(old(self).model(), 8)) as u64,
            ),
    {
        match self.consume_arr::<8>() {
            FsmResult::Found(be) => FsmResult::Found(u64::read_be(be)),
            FsmResult::Needs(n) => FsmResult::Needs(n),
        }
    }

    /// The IEEE-754 bits of a big-endian float.
    fn capture_float(&mut self) -> (r: FsmResult<u32>)
        requires
            old(self).wf(),
        ensures
            final(self).wf(),
            captured(
                old(self).model(),
                final(self).model(),
                r,
                4,
                be_uint(window(old(self).model(), 4)) as u32,
            ),
    {
        match self.consume_arr::<4>() {
            FsmResult::Found(be) => FsmResult::Found(u32::read_be(be)),
            FsmResult::Needs(n) => FsmResult::Needs(n),
        }
    }

    /// A big-endian `i64`.
    fn capture_long(&mut self) -> (r: FsmResult<i64>)
        requires
            old(self).wf(),
        ensures
            final(self).wf(),
            captured(
                old(self).model(),
                final(self).model(),
                r,
                8,
                be_int(window(old(self).model(), 8)) as i64,
            ),
    {
        match self.consume_arr::<8>() {
            FsmResult::Found(be) => FsmResult::Found(i64::read_be(be)),
            FsmResult::Needs(n) => FsmResult::Needs(n),
        }
    }

    /// A big-endian `i32`.
    fn capture_int(&mut self) -> (r: FsmResult<i32>)
        requires
            old(self).wf(),
        ensures
            final(self).wf(),
            captured(
                old(self).model(),
                final(self).model(),
                r,
                4,
                be_int(window(old(self).model(), 4)) as i32,
            ),
    {
        match self.consume_arr::<4>() {
            FsmResult::Found(be) => FsmResult::Found(i32::read_be(be)),
            FsmResult::Needs(n) => FsmResult::Needs(n),
        }
    }

    /// A big-endian `i16`.
    fn capture_short(&mut self) -> (r: FsmResult<i16>)
        requires
            old(self).wf(),
        ensures
            final(self).wf(),
            captured(
                old(self).model(),
                final(self).model(),
                r,
                2,
                be_int(window(old(self).model(), 2)) as i16,
            ),
    {
        match self.consume_arr::<2>() {
            FsmResult::Found(be) => FsmResult::Found(i16::read_be(be)),
            FsmResult::Needs(n) => FsmResult::Needs(n),
        }
    }

    /// A big-endian unsigned 16-bit length.
    fn capture_len16(&mut self) -> (r: FsmResult<u16>)
        requires
            old(self).wf(),
        ensures
            final(self).wf(),
            captured(
                old(self).model(),
                final(self).model(),
                r,
                2,
                be_uint(window(old(self).model(), 2)) as u16,
            ),
    {
        match self.consume_arr::<2>() {
            FsmResult::Found(be) => FsmResult::Found(u16::read_be(be)),
            FsmResult::Needs(n) => FsmResult::Needs(n),
        }
    }

    /// One byte as an `i8`.
    fn capture_byte(&mut self) -> (r: FsmResult<i8>)
        requires
            old(self).wf(),
        ensures
            final(self).wf(),
            captured(
                old(self).model(),
                final(self).model(),
                r,
                1,
                be_int(window(old(self).model(), 1)) as i8,
            ),
    {
        match self.consume_arr::<1>() {
            FsmResult::Found(be) => FsmResult::Found(i8::read_be(be)),
            FsmResult::Needs(n) => FsmResult::Needs(n),
        }
    }

    /// A tag byte, decoded.
    fn capture_tag(&mut self) -> (r: NbtResult<FsmResult<NbtTag>>)
        requires
            old(self).wf(),
        ensures
            final(self).wf(),
            ({
                let m = old(self).model();
                if avail(m) >= 1 {
                    &&& final(self).model() == advance(m, 1)
                    &&& r == match decode_tag(m.bytes[m.pos as int]) {
                        Ok(t) => Ok(FsmResult::Found(t)),
                        Err(e) => NbtResult::<FsmResult<NbtTag>>::Err(e),
                    }
                } else {
                    &&& final(self).model() == m
                    &&& r == NbtResult::<FsmResult<NbtTag>>::Ok(FsmResult::Needs(1))
                }
            }),
    {
        let be = match self.consume_arr::<1>() {
            FsmResult::Found(be) => be,
            FsmResult::Needs(n) => return Ok(FsmResult::Needs(n)),
        };
        match NbtTag::try_from(be[0]) {
            Ok(tag) => Ok(FsmResult::Found(tag)),
            Err(e) => Err(e),
        }
    }

    /// One step of the name phase.
    fn name_step(&mut self) -> (r: Step<'d>)
        requires
            old(self).wf(),
        ensures
            final(self).wf(),
            (step_outcome(r), final(self).model()) == name_step(old(self).model()),
    {
        match self.namestate {
            NameState::NameComplete => None,
            NameState::NoNameLen => {
                let len = match self.capture_len16() {
                    FsmResult::Found(len) => len,
                    FsmResult::Needs(n) => return Some(Ok(FsmResult::Needs(n))),
                };
                proof {
                    lemma_be_uint_bound(window(old(self).model(), 2));
                    lemma_pow256_values();
                }
                self.namestate = NameState::Name(len as usize);
                None
            },
            NameState::Name(len) => {
                if len == 0 {
                    self.namestate = NameState::NameComplete;
                    let empty: &'d [u8] = &[];
                    proof {
                        assert(empty@ =~= Seq::<u8>::empty());
                    }
                    return Some(Ok(FsmResult::Found(NbtFragment::NameFrame(empty))));
                }
                let bytes = self.read_array::<u8>(len).raw_bytes();
                if bytes.is_empty() {
                    return Some(Ok(FsmResult::Needs(1)));
                }
                self.namestate = NameState::Name(len - bytes.len());
                Some(Ok(FsmResult::Found(NbtFragment::NameFrame(bytes))))
            },
        }
    }

    /// One step of the payload phase.
    fn tag_step(&mut self) -> (r: Step<'d>)
        requires
            old(self).wf(),
            old(self).namestate == NameState::NameComplete,
        ensures
            final(self).wf(),
            (step_outcome(r), final(self).model()) == tag_step(old(self).model()),
    {
        match self.state {
            TagState::Empty => {
                let tag = match self.capture_tag() {
                    Ok(FsmResult::Found(tag)) => tag,
                    Ok(FsmResult::Needs(n)) => return Some(Ok(FsmResult::Needs(n))),
                    Err(e) => return Some(Err(e)),
                };
                let state = match tag {
                    NbtTag::End => {
                        self.pop_outer();
                        return Some(Ok(FsmResult::Found(NbtFragment::End)));
                    },
                    NbtTag::Compound => {
                        self.stack.push(Nested::Compound);
                        self.state = TagState::Empty;
                        self.namestate = NameState::NoNameLen;
                        return Some(Ok(FsmResult::Found(NbtFragment::CompoundTag)));
                    },
                NbtTag::Byte => TagState::Byte,
                NbtTag::Short => TagState::Short,
                NbtTag::Int => TagState::Int,
                NbtTag::Long => TagState::Long,
                NbtTag::Float => TagState::Float,
                NbtTag::Double => TagState::Double,
                NbtTag::ByteArray => TagState::ByteArrayNoLength,
                NbtTag::String => TagState::StringNoLength,
                NbtTag::List => TagState::ListNoTag,
                NbtTag::IntArray => TagState::ListNoLength(NbtTag::Int),
                NbtTag::LongArray => TagState::ListNoLength(NbtTag::Long),
                };
                self.state = state;
                self.namestate = NameState::NoNameLen;
                None
            },
            TagState::Byte => {
                let r = self.capture_byte();
                if let FsmResult::Found(_) = r {
                    self.pop_outer();
                }
                let wrap = |v: i8| -> (f: NbtFragment<'d>)
                    ensures
                        f == NbtFragment::Byte(v),
                    {
                        NbtFragment::Byte(v)
                    };
                Some(Ok(r.map_found(wrap)))
            },
            TagState::Short => {
                let r = self.capture_short();
                if let FsmResult::Found(_) = r {
                    self.pop_outer();
                }
                let wrap = |v: i16| -> (f: NbtFragment<'d>)
                    ensures
                        f == NbtFragment::Short(v),
                    {
                        NbtFragment::Short(v)
                    };
                Some(Ok(r.map_found(wrap)))
            },
            TagState::Int => {
                let r = self.capture_int();
                if let FsmResult::Found(_) = r {
                    self.pop_outer();
                }
                let wrap = |v: i32| -> (f: NbtFragment<'d>)
                    ensures
                        f == NbtFragment::Int(v),
                    {
                        NbtFragment::Int(v)
                    };
                Some(Ok(r.map_found(wrap)))
            },
            TagState::Long => {
                let r = self.capture_long();
                if let FsmResult::Found(_) = r {
                    self.pop_outer();
                }
                let wrap = |v: i64| -> (f: NbtFragment<'d>)
                    ensures
                        f == NbtFragment::Long(v),
                    {
                        NbtFragment::Long(v)
                    };
                Some(Ok(r.map_found(wrap)))
            },
            TagState::Float => {
                let r = self.capture_float();
                if let FsmResult::Found(_) = r {
                    self.pop_outer();
                }
                let wrap = |v: u32| -> (f: NbtFragment<'d>)
                    ensures
                        f == NbtFragment::Float(v),
                    {
                        NbtFragment::Float(v)
                    };
                Some(Ok(r.map_found(wrap)))
            },
            TagState::Double => {
                let r = self.capture_double();
                if let FsmResult::Found(_) = r {
                    self.pop_outer();
                }
                let wrap = |v: u64| -> (f: NbtFragment<'d>)
                    ensures
                        f == NbtFragment::Double(v),
                    {
                        NbtFragment::Double(v)
                    };
                Some(Ok(r.map_found(wrap)))
            },
            TagState::StringNoLength => {
                let len = match self.capture_len16() {
                    FsmResult::Found(len) => len,
                    FsmResult::Needs(n) => return Some(Ok(FsmResult::Needs(n))),
                };
                proof {
                    lemma_be_uint_bound(window(old(self).model(), 2));
                    lemma_pow256_values();
                }
                self.state = TagState::String(len as usize);
                None
            },
            TagState::String(len) => {
                if len == 0 {
                    self.pop_outer();
                    let empty: &'d [u8] = &[];
                    proof {
                        assert(empty@ =~= Seq::<u8>::empty());
                    }
                    return Some(Ok(FsmResult::Found(NbtFragment::StringFrame(empty))));
                }
                let view = self.read_array::<u8>(len).raw_bytes();
                if view.is_empty() {
                    return Some(Ok(FsmResult::Needs(1)));
                }
                self.state = TagState::String(len - view.len());
                Some(Ok(FsmResult::Found(NbtFragment::StringFrame(view))))
            },
            TagState::ByteArrayNoLength => {
                let len = match self.capture_int() {
                    FsmResult::Found(len) => len,
                    FsmResult::Needs(n) => return Some(Ok(FsmResult::Needs(n))),
                };
                proof {
                    lemma_be_uint_bound(window(old(self).model(), 4));
                    lemma_pow256_values();
                }
                if len < 0 {
                    return Some(Err(NbtParseError::InvalidLen(len)));
                }
                self.state = TagState::ByteArray(len as usize);
                None
            },
            TagState::ByteArray(len) => {
                if len == 0 {
                    self.pop_outer();
                    let empty: &'d [u8] = &[];
                    proof {
                        assert(empty@ =~= Seq::<u8>::empty());
                    }
                    return Some(Ok(FsmResult::Found(NbtFragment::ByteArrayFrame(empty))));
                }
                let view = self.read_array::<u8>(len).raw_bytes();
                if view.is_empty() {
                    return Some(Ok(FsmResult::Needs(1)));
                }
                self.state = TagState::ByteArray(len - view.len());
                Some(Ok(FsmResult::Found(NbtFragment::ByteArrayFrame(view))))
            },
            TagState::ListNoTag => {
                let tag = match self.capture_tag() {
                    Ok(FsmResult::Found(tag)) => tag,
                    Ok(FsmResult::Needs(n)) => return Some(Ok(FsmResult::Needs(n))),
                    Err(e) => return Some(Err(e)),
                };
                self.state = TagState::ListNoLength(tag);
                None
            },
            TagState::ListNoLength(NbtTag::End) => {
                self.pop_outer();
                Some(Ok(FsmResult::Found(NbtFragment::End)))
            },
            TagState::ListNoLength(tag) => {
                let len = match self.capture_int() {
                    FsmResult::Found(len) => len,
                    FsmResult::Needs(n) => return Some(Ok(FsmResult::Needs(n))),
                };
                proof {
                    lemma_be_uint_bound(window(old(self).model(), 4));
                    lemma_pow256_values();
                }
                if len < 0 {
                    return Some(Err(NbtParseError::InvalidLen(len)));
                }
                self.state = TagState::List(tag, len as usize);
                None
            },
            TagState::List(tag, len) => self.list_step(tag, len),
        }
    }

    /// One step of the list phase: an element, a bulk frame, or the end of the list.
    #[verifier::rlimit(30)]
    fn list_step(&mut self, tag: NbtTag, len: usize) -> (r: Step<'d>)
        requires
            old(self).wf(),
            old(self).namestate == NameState::NameComplete,
            old(self).state == TagState::List(tag, len),
        ensures
            final(self).wf(),
            (step_outcome(r), final(self).model()) == list_step(old(self).model(), tag, len),
    {
        if len == 0 {
            self.pop_outer();
            return None;
        }
        match tag {
            NbtTag::End => Some(Err(NbtParseError::InvalidTag(0))),
            NbtTag::Byte => {
                let view = self.read_array::<u8>(len).raw_bytes();
                if view.is_empty() {
                    return Some(Ok(FsmResult::Needs(1)));
                }
                self.state = TagState::List(NbtTag::Byte, len - view.len());
                Some(Ok(FsmResult::Found(NbtFragment::ByteArrayFrame(view))))
            },
            NbtTag::Short => {
                let view = self.read_array::<i16>(len);
                if view.is_empty() {
                    return Some(Ok(FsmResult::Needs(2)));
                }
                self.state = TagState::List(NbtTag::Short, len - view.len());
                Some(Ok(FsmResult::Found(NbtFragment::ShortListFrame(view))))
            },
            NbtTag::Int => {
                let view = self.read_array::<i32>(len);
                if view.is_empty() {
                    return Some(Ok(FsmResult::Needs(4)));
                }
                self.state = TagState::List(NbtTag::Int, len - view.len());
                Some(Ok(FsmResult::Found(NbtFragment::IntListFrame(view))))
            },
            NbtTag::Long => {
                let view = self.read_array::<i64>(len);
                if view.is_empty() {
                    return Some(Ok(FsmResult::Needs(8)));
                }
                self.state = TagState::List(NbtTag::Long, len - view.len());
                Some(Ok(FsmResult::Found(NbtFragment::LongListFrame(view))))
            },
            NbtTag::Float => {
                let view = self.read_array::<u32>(len);
                if view.is_empty() {
                    return Some(Ok(FsmResult::Needs(4)));
                }
                self.state = TagState::List(NbtTag::Float, len - view.len());
                Some(Ok(FsmResult::Found(NbtFragment::FloatListFrame(view))))
            },
            NbtTag::Double => {
                let view = self.read_array::<u64>(len);
                if view.is_empty() {
                    return Some(Ok(FsmResult::Needs(8)));
                }
                self.state = TagState::List(NbtTag::Double, len - view.len());
                Some(Ok(FsmResult::Found(NbtFragment::DoubleListFrame(view))))
            },
            _ => {
                self.state = TagState::List(tag, len - 1);
                self.push_state();
                self.state = match tag {
                    NbtTag::Compound => TagState::Empty,
                    NbtTag::List => TagState::ListNoTag,
                    NbtTag::IntArray => TagState::ListNoLength(NbtTag::Int),
                    NbtTag::LongArray => TagState::ListNoLength(NbtTag::Long),
                    NbtTag::ByteArray => TagState::ByteArrayNoLength,
                    _ => TagState::StringNoLength,
                };
                if tag == NbtTag::Compound {
                    self.stack.push(Nested::Compound);
                }
                self.namestate = NameState::NameComplete;
                None
            },
        }
    }

    /// One step: the name first, then the payload.
    fn step(&mut self) -> (r: Step<'d>)
        requires
            old(self).wf(),
        ensures
            final(self).wf(),
            (step_outcome(r), final(self).model()) == step(old(self).model()),
    {
        match self.namestate {
            NameState::NameComplete => self.tag_step(),
            _ => self.name_step(),
        }
    }

    /// The next fragment, or how many more bytes are needed to go on, or the
    /// error in the input.
    pub fn next_fragment(&mut self) -> (r: NbtResult<FsmResult<NbtFragment<'d>>>)
        requires
            old(self).wf(),
        ensures
            final(self).wf(),
            (outcome_of(r), final(self).model()) == run(old(self).model()),
            final(self).model().bytes == old(self).model().bytes,
            old(self).model().pos <= final(self).model().pos <= final(self).model().bytes.len(),
            outcome_of(r) matches Ok(FsmResult::Found(f)) ==> reads_back(f, final(self).model()),
            no_end_lists(old(self).model()) ==> {
                &&& no_end_lists(final(self).model())
                &&& error_is_local(old(self).model().pos, outcome_of(r), final(self).model())
            },
    {
        let ghost m0 = self.model();
        loop
            invariant
                self.wf(),
                m0 == old(self).model(),
                m0.pos <= m0.bytes.len(),
                run(self.model()) == run(m0),
            decreases avail(self.model()), rank(self.state), self.stack@.len(),
        {
            let ghost before = self.model();
            let r = self.step();
            match r {
                Some(out) => {
                    proof {
                        assert(run(before) == (outcome_of(out), self.model()));
                        lemma_run_consumes(m0);
                        lemma_fragment_reads_back(m0);
                        if no_end_lists(m0) {
                            lemma_run_keeps_no_end_lists(m0);
                            lemma_error_is_local(m0);
                        }

                    }
                    return out;
                },
                None => {
                    proof {
                        lemma_step_progress(before);
                    }
                },
            }
        }
    }
}

} // verus!
