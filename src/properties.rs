//! Laws of the parser, stated over its model: errors are local, and how the
//! input is cut into chunks does not change what the parser finds.
use vstd::prelude::*;
use crate::error::NbtParseError;
use crate::fsm::{
    advance, avail, bulk_fragment, bulk_width, frame_count, list_step, lemma_run_consumes,
    lemma_step_consumes, lemma_step_progress, pop_outer, rank, run, step, tag_step, window, Fragment, FsmResult,
    Machine, NameState, Nested, Outcome, TagState,
};
use crate::tag::{NbtTag, decode_tag};
use crate::view::{be_int, be_uint, lemma_be_uint_bound, lemma_pow256_values};

verus! {

/// A list of `End` elements: never entered, since such a list is closed at once.
pub open spec fn lists_end(s: TagState) -> bool {
    match s {
        TagState::List(t, _) => t == NbtTag::End,
        _ => false,
    }
}

/// An enclosing list of `End` elements.
pub open spec fn nested_lists_end(n: Nested) -> bool {
    match n {
        Nested::List { tag, .. } => tag == NbtTag::End,
        _ => false,
    }
}

/// No list of `End` elements is open, in the state or on the stack.
pub open spec fn no_end_lists(m: Machine) -> bool {
    &&& !lists_end(m.state)
    &&& forall|i: int| 0 <= i < m.stack.len() ==> !nested_lists_end(#[trigger] m.stack[i])
}

/// An error names what was just consumed: a tag byte outside `0..=12`, or a
/// negative 32-bit length.
pub open spec fn error_is_local(start: nat, o: Outcome, n: Machine) -> bool {
    match o {
        Err(NbtParseError::InvalidTag(b)) => {
            &&& start + 1 <= n.pos <= n.bytes.len()
            &&& n.bytes[n.pos - 1] == b
            &&& decode_tag(b) is Err
        },
        Err(NbtParseError::InvalidLen(v)) => {
            &&& start + 4 <= n.pos <= n.bytes.len()
            &&& be_int(n.bytes.subrange(n.pos - 4, n.pos as int)) == v
            &&& v < 0
        },
        _ => true,
    }
}

/// A step never opens a list of `End` elements.
pub proof fn lemma_step_keeps_no_end_lists(m: Machine)
    requires
        no_end_lists(m),
    ensures
        no_end_lists(step(m).1),
{
    let n = step(m).1;
    assert forall|i: int| 0 <= i < n.stack.len() implies !nested_lists_end(#[trigger] n.stack[i]) by {
        if i < m.stack.len() <= n.stack.len() {
            assert(n.stack.subrange(0, m.stack.len() as int) =~= m.stack);
        }
    }
}

/// Whatever a call returns, the parser still has no list of `End` elements open.
pub proof fn lemma_run_keeps_no_end_lists(m: Machine)
    requires
        no_end_lists(m),
    ensures
        no_end_lists(run(m).1),
    decreases avail(m), rank(m.state), m.stack.len(),
{
    lemma_step_keeps_no_end_lists(m);
    if step(m).0 is None {
        lemma_step_progress(m);
        lemma_run_keeps_no_end_lists(step(m).1);
    }
}

proof fn lemma_step_error_is_local(m: Machine)
    requires
        m.pos <= m.bytes.len(),
        no_end_lists(m),
    ensures
        step(m).0 matches Some(o) ==> error_is_local(m.pos, o, step(m).1),
{
    let n = step(m).1;
    if let Some(Err(NbtParseError::InvalidLen(v))) = step(m).0 {
        lemma_be_uint_bound(window(m, 4));
        lemma_pow256_values();
        assert(n.pos == m.pos + 4);
        assert(n.bytes.subrange(n.pos - 4, n.pos as int) =~= window(m, 4));
    }
}

/// Error locality: a call that fails names the tag byte or the length word that
/// it consumed last, and consumed it in this call.
pub proof fn lemma_error_is_local(m: Machine)
    requires
        m.pos <= m.bytes.len(),
        no_end_lists(m),
    ensures
        error_is_local(m.pos, run(m).0, run(m).1),
    decreases avail(m), rank(m.state), m.stack.len(),
{
    lemma_step_error_is_local(m);
    lemma_step_consumes(m);
    if step(m).0 is None {
        lemma_step_progress(m);
        lemma_step_keeps_no_end_lists(m);
        lemma_error_is_local(step(m).1);
    }
}

/// `m` with `more` bytes appended to its input.
pub open spec fn extend(m: Machine, more: Seq<u8>) -> Machine {
    Machine { bytes: m.bytes + more, ..m }
}

/// The payload bytes that a fragment carries; empty for the others.
pub open spec fn payload(f: Fragment) -> Seq<u8> {
    match f {
        Fragment::ShortList(b) => b,
        Fragment::IntList(b) => b,
        Fragment::LongList(b) => b,
        Fragment::FloatList(b) => b,
        Fragment::DoubleList(b) => b,
        Fragment::Name(b) => b,
        Fragment::ByteArray(b) => b,
        Fragment::String(b) => b,
        _ => Seq::empty(),
    }
}

/// An outcome that does not depend on how much input is available: an error,
/// or a fragment that carries no payload bytes.
pub open spec fn is_atomic(o: Outcome) -> bool {
    match o {
        Ok(FsmResult::Found(f)) => payload(f).len() == 0,
        Ok(FsmResult::Needs(_)) => false,
        Err(_) => true,
    }
}

proof fn lemma_window_extend(m: Machine, more: Seq<u8>, w: int)
    requires
        0 <= w,
        m.pos + w <= m.bytes.len(),
    ensures
        window(extend(m, more), w) == window(m, w),
        extend(m, more).bytes[m.pos as int] == m.bytes[m.pos as int] || w == 0,
{
    assert(window(extend(m, more), w) =~= window(m, w));
}

proof fn lemma_windows_extend(m: Machine, more: Seq<u8>)
    requires
        m.pos <= m.bytes.len(),
    ensures
        avail(extend(m, more)) == avail(m) + more.len(),
        avail(m) >= 1 ==> window(extend(m, more), 1) == window(m, 1) && extend(m, more).bytes[m.pos
            as int] == m.bytes[m.pos as int],
        avail(m) >= 2 ==> window(extend(m, more), 2) == window(m, 2),
        avail(m) >= 4 ==> window(extend(m, more), 4) == window(m, 4),
        avail(m) >= 8 ==> window(extend(m, more), 8) == window(m, 8),
{
    if avail(m) >= 1 {
        lemma_window_extend(m, more, 1);
    }
    if avail(m) >= 2 {
        lemma_window_extend(m, more, 2);
    }
    if avail(m) >= 4 {
        lemma_window_extend(m, more, 4);
    }
    if avail(m) >= 8 {
        lemma_window_extend(m, more, 8);
    }
}

proof fn lemma_list_step_extend(m: Machine, more: Seq<u8>, t: NbtTag, n: usize)
    requires
        m.pos <= m.bytes.len(),
        list_step(m, t, n).0 matches Some(o) ==> is_atomic(o),
    ensures
        list_step(extend(m, more), t, n) == (
            list_step(m, t, n).0,
            extend(list_step(m, t, n).1, more),
        ),
{
    lemma_windows_extend(m, more);
    let w = bulk_width(t);
    if n > 0 && w > 0 {
        let k = frame_count(n as nat, avail(m), w);
        let a = avail(m);
        if k > 0 {
            assert(1 <= k * w <= a) by (nonlinear_arith)
                requires
                    1 <= k <= a / w,
                    w >= 1,
            ;
            assert(payload(bulk_fragment(t, window(m, (k * w) as int))).len() > 0);
        }
    }
}

#[verifier::rlimit(60)]
proof fn lemma_tag_step_extend(m: Machine, more: Seq<u8>)
    requires
        m.pos <= m.bytes.len(),
        tag_step(m).0 matches Some(o) ==> is_atomic(o),
    ensures
        tag_step(extend(m, more)) == (tag_step(m).0, extend(tag_step(m).1, more)),
{
    lemma_windows_extend(m, more);
    if let TagState::List(t, n) = m.state {
        lemma_list_step_extend(m, more, t, n);
    }
}

proof fn lemma_step_extend(m: Machine, more: Seq<u8>)
    requires
        m.pos <= m.bytes.len(),
        step(m).0 matches Some(o) ==> is_atomic(o),
    ensures
        step(extend(m, more)) == (step(m).0, extend(step(m).1, more)),
{
    lemma_windows_extend(m, more);
    if m.name == NameState::NameComplete {
        lemma_tag_step_extend(m, more);
    }
}

/// Appending bytes to the input changes nothing in a call that returns an
/// error or a fragment without payload bytes (a scalar, a compound opening, an
/// `End`, an empty sentinel): the same outcome, and the same state at the same
/// position.
pub proof fn lemma_more_input_same_outcome(m: Machine, more: Seq<u8>)
    requires
        m.pos <= m.bytes.len(),
        is_atomic(run(m).0),
    ensures
        run(extend(m, more)) == (run(m).0, extend(run(m).1, more)),
    decreases avail(m), rank(m.state), m.stack.len(),
{
    lemma_step_extend(m, more);
    if step(m).0 is None {
        lemma_step_progress(m);
        lemma_step_consumes(m);
        lemma_more_input_same_outcome(step(m).1, more);
    }
}

/// Two fragments of the same kind, whatever their payloads.
pub open spec fn same_kind(a: Fragment, b: Fragment) -> bool {
    match (a, b) {
        (Fragment::ShortList(_), Fragment::ShortList(_)) => true,
        (Fragment::IntList(_), Fragment::IntList(_)) => true,
        (Fragment::LongList(_), Fragment::LongList(_)) => true,
        (Fragment::FloatList(_), Fragment::FloatList(_)) => true,
        (Fragment::DoubleList(_), Fragment::DoubleList(_)) => true,
        (Fragment::Name(_), Fragment::Name(_)) => true,
        (Fragment::ByteArray(_), Fragment::ByteArray(_)) => true,
        (Fragment::String(_), Fragment::String(_)) => true,
        _ => false,
    }
}

/// `b` starts with `a`.
pub open spec fn is_prefix(a: Seq<u8>, b: Seq<u8>) -> bool {
    a.len() <= b.len() && b.subrange(0, a.len() as int) == a
}

/// `o2` is the frame `o` with possibly more payload bytes.
pub open spec fn grows_to(o: Outcome, o2: Outcome) -> bool {
    match (o, o2) {
        (Ok(FsmResult::Found(f)), Ok(FsmResult::Found(g))) => same_kind(f, g) && is_prefix(
            payload(f),
            payload(g),
        ),
        _ => false,
    }
}

/// A frame of payload bytes, and the same with possibly more bytes.
pub open spec fn frame_grows(o: Option<Outcome>, o2: Option<Outcome>) -> bool {
    match (o, o2) {
        (Some(a), Some(b)) => grows_to(a, b),
        _ => false,
    }
}

/// Returns a frame whose payload is not empty.
pub open spec fn found_payload(o: Option<Outcome>) -> bool {
    o matches Some(Ok(FsmResult::Found(f))) && payload(f).len() > 0
}

proof fn lemma_window_prefix(m: Machine, more: Seq<u8>, k: int, k2: int)
    requires
        0 <= k <= k2,
        m.pos + k <= m.bytes.len(),
        m.pos + k2 <= m.bytes.len() + more.len(),
    ensures
        is_prefix(window(m, k), window(extend(m, more), k2)),
{
    assert(window(extend(m, more), k2).subrange(0, k) =~= window(m, k));
}

proof fn lemma_list_frame_grows(m: Machine, more: Seq<u8>, t: NbtTag, n: usize)
    requires
        m.pos <= m.bytes.len(),
        found_payload(list_step(m, t, n).0),
    ensures
        frame_grows(list_step(m, t, n).0, list_step(extend(m, more), t, n).0),
{
    let w = bulk_width(t);
    let a = avail(m);
    let a2 = avail(extend(m, more));
    assert(a2 == a + more.len());
    if n > 0 && w > 0 {
        let k = frame_count(n as nat, a, w);
        let k2 = frame_count(n as nat, a2, w);
        vstd::arithmetic::div_mod::lemma_div_is_ordered(a as int, a2 as int, w as int);
        assert(k * w <= a) by (nonlinear_arith)
            requires
                k <= a / w,
                w >= 1,
        ;
        assert(k2 * w <= a2) by (nonlinear_arith)
            requires
                k2 <= a2 / w,
                w >= 1,
        ;
        assert(k * w <= k2 * w) by (nonlinear_arith)
            requires
                k <= k2,
                w >= 1,
        ;
        lemma_window_prefix(m, more, (k * w) as int, (k2 * w) as int);
    }
}

proof fn lemma_frame_grows(m: Machine, more: Seq<u8>)
    requires
        m.pos <= m.bytes.len(),
        found_payload(step(m).0),
    ensures
        frame_grows(step(m).0, step(extend(m, more)).0),
{
    let a = avail(m);
    let e = extend(m, more);
    assert(avail(e) == a + more.len());
    match (m.name, m.state) {
        (NameState::Name(n), _) => {
            let k = if n <= a { n as nat } else { a };
            let k2 = if n <= avail(e) { n as nat } else { avail(e) };
            lemma_window_prefix(m, more, k as int, k2 as int);
        },
        (NameState::NameComplete, TagState::String(n)) => {
            let k = if n <= a { n as nat } else { a };
            let k2 = if n <= avail(e) { n as nat } else { avail(e) };
            lemma_window_prefix(m, more, k as int, k2 as int);
        },
        (NameState::NameComplete, TagState::ByteArray(n)) => {
            let k = if n <= a { n as nat } else { a };
            let k2 = if n <= avail(e) { n as nat } else { avail(e) };
            lemma_window_prefix(m, more, k as int, k2 as int);
        },
        (NameState::NameComplete, TagState::List(t, n)) => {
            lemma_list_frame_grows(m, more, t, n);
        },
        _ => {},
    }
}

/// Appending bytes to the input lets a call that returned a payload frame
/// return a frame of the same kind that starts with the same bytes, and may
/// hold more.
pub proof fn lemma_more_input_frame_grows(m: Machine, more: Seq<u8>)
    requires
        m.pos <= m.bytes.len(),
        found_payload(Some(run(m).0)),
    ensures
        grows_to(run(m).0, run(extend(m, more)).0),
    decreases avail(m), rank(m.state), m.stack.len(),
{
    if step(m).0 is None {
        lemma_step_extend(m, more);
        lemma_step_progress(m);
        lemma_step_consumes(m);
        lemma_more_input_frame_grows(step(m).1, more);
    } else {
        lemma_frame_grows(m, more);
    }
}

/// The bytes after the position.
pub open spec fn unread(m: Machine) -> Seq<u8> {
    m.bytes.subrange(m.pos as int, m.bytes.len() as int)
}

/// Two parsers at the same point of the tree with the same bytes left to read,
/// wherever their positions stand.
pub open spec fn same_unread(m1: Machine, m2: Machine) -> bool {
    &&& m1.pos <= m1.bytes.len()
    &&& m2.pos <= m2.bytes.len()
    &&& m1.state == m2.state
    &&& m1.name == m2.name
    &&& m1.stack == m2.stack
    &&& unread(m1) == unread(m2)
}

proof fn lemma_same_unread_windows(m1: Machine, m2: Machine)
    requires
        same_unread(m1, m2),
    ensures
        avail(m1) == avail(m2),
        forall|k: int| 0 <= k <= avail(m1) ==> #[trigger] window(m1, k) == window(m2, k),
        avail(m1) >= 1 ==> m1.bytes[m1.pos as int] == m2.bytes[m2.pos as int],
{
    assert(unread(m1).len() == avail(m1));
    assert(unread(m2).len() == avail(m2));
    assert forall|k: int| 0 <= k <= avail(m1) implies #[trigger] window(m1, k) == window(m2, k) by {
        assert(window(m1, k) =~= unread(m1).subrange(0, k));
        assert(window(m2, k) =~= unread(m2).subrange(0, k));
    }
    if avail(m1) >= 1 {
        assert(m1.bytes[m1.pos as int] == unread(m1)[0]);
        assert(m2.bytes[m2.pos as int] == unread(m2)[0]);
    }
}

proof fn lemma_advance_same_unread(m1: Machine, m2: Machine, k: nat)
    requires
        same_unread(m1, m2),
        k <= avail(m1),
    ensures
        same_unread(advance(m1, k), advance(m2, k)),
{
    assert(unread(m1).len() == avail(m1));
    assert(unread(m2).len() == avail(m2));
    assert(unread(advance(m1, k)) =~= unread(m1).subrange(k as int, avail(m1) as int));
    assert(unread(advance(m2, k)) =~= unread(m2).subrange(k as int, avail(m2) as int));
}

/// The step outcomes agree, and the states after them agree on what is left
/// and on how far each moved.
pub open spec fn steps_agree(
    m1: Machine,
    m2: Machine,
    r1: (Option<Outcome>, Machine),
    r2: (Option<Outcome>, Machine),
) -> bool {
    &&& r1.0 == r2.0
    &&& same_unread(r1.1, r2.1)
    &&& r1.1.pos - m1.pos == r2.1.pos - m2.pos
}

#[verifier::rlimit(60)]
proof fn lemma_tag_step_same_unread(m1: Machine, m2: Machine)
    requires
        same_unread(m1, m2),
    ensures
        steps_agree(m1, m2, tag_step(m1), tag_step(m2)),
{
    lemma_same_unread_windows(m1, m2);
    let a = avail(m1);
    assert(same_unread(pop_outer(m1), pop_outer(m2)));
    if a >= 1 {
        lemma_advance_same_unread(m1, m2, 1);
        assert(same_unread(pop_outer(advance(m1, 1)), pop_outer(advance(m2, 1))));
    }
    if a >= 2 {
        lemma_advance_same_unread(m1, m2, 2);
        assert(same_unread(pop_outer(advance(m1, 2)), pop_outer(advance(m2, 2))));
    }
    if a >= 4 {
        lemma_advance_same_unread(m1, m2, 4);
        assert(same_unread(pop_outer(advance(m1, 4)), pop_outer(advance(m2, 4))));
    }
    if a >= 8 {
        lemma_advance_same_unread(m1, m2, 8);
        assert(same_unread(pop_outer(advance(m1, 8)), pop_outer(advance(m2, 8))));
    }
    match m1.state {
        TagState::String(n) | TagState::ByteArray(n) => {
            let k = if n <= a { n as nat } else { a };
            lemma_advance_same_unread(m1, m2, k);
        },
        TagState::List(t, n) => {
            let w = bulk_width(t);
            if n > 0 && w > 0 {
                let k = frame_count(n as nat, a, w);
                assert(k * w <= a) by (nonlinear_arith)
                    requires
                        k <= a / w,
                        w >= 1,
                ;
                lemma_advance_same_unread(m1, m2, k * w);
            }
        },
        _ => {},
    }
}

proof fn lemma_step_same_unread(m1: Machine, m2: Machine)
    requires
        same_unread(m1, m2),
    ensures
        steps_agree(m1, m2, step(m1), step(m2)),
{
    lemma_same_unread_windows(m1, m2);
    if m1.name == NameState::NameComplete {
        lemma_tag_step_same_unread(m1, m2);
    } else {
        let a = avail(m1);
        if a >= 2 {
            lemma_advance_same_unread(m1, m2, 2);
        }
        if let NameState::Name(n) = m1.name {
            let k = if n <= a { n as nat } else { a };
            lemma_advance_same_unread(m1, m2, k);
        }
    }
}

/// What a call returns depends only on the bytes not yet consumed: dropping
/// the consumed prefix of the input (as a caller does before attaching its
/// next window) changes neither the outcome nor how much the call consumes.
pub proof fn lemma_only_unread_bytes_matter(m1: Machine, m2: Machine)
    requires
        same_unread(m1, m2),
    ensures
        run(m1).0 == run(m2).0,
        same_unread(run(m1).1, run(m2).1),
        run(m1).1.pos - m1.pos == run(m2).1.pos - m2.pos,
    decreases avail(m1), rank(m1.state), m1.stack.len(),
{
    lemma_step_same_unread(m1, m2);
    lemma_same_unread_windows(m1, m2);
    if step(m1).0 is None {
        lemma_step_progress(m1);
        lemma_step_consumes(m1);
        lemma_step_consumes(m2);
        lemma_only_unread_bytes_matter(step(m1).1, step(m2).1);
    }
}

/// A call that asks for more input is a pause: with more bytes appended, the
/// parser goes on from the state that call left exactly as it would have from
/// the state before it.
pub proof fn lemma_needs_is_a_pause(m: Machine, more: Seq<u8>)
    requires
        m.pos <= m.bytes.len(),
        run(m).0 is Ok && run(m).0->Ok_0 is Needs,
    ensures
        run(extend(m, more)) == run(extend(run(m).1, more)),
    decreases avail(m), rank(m.state), m.stack.len(),
{
    if step(m).0 is None {
        lemma_step_extend(m, more);
        lemma_step_progress(m);
        lemma_step_consumes(m);
        lemma_needs_is_a_pause(step(m).1, more);
    }
}

/// The fragment re-encodes to the bytes that end at the position of `n`: a
/// scalar is read from the last bytes of its width, a payload frame is the
/// last bytes themselves.
pub open spec fn reads_back(f: Fragment, n: Machine) -> bool {
    let p = n.pos as int;
    match f {
        Fragment::Byte(v) => p >= 1 && be_int(n.bytes.subrange(p - 1, p)) == v,
        Fragment::Short(v) => p >= 2 && be_int(n.bytes.subrange(p - 2, p)) == v,
        Fragment::Int(v) => p >= 4 && be_int(n.bytes.subrange(p - 4, p)) == v,
        Fragment::Long(v) => p >= 8 && be_int(n.bytes.subrange(p - 8, p)) == v,
        Fragment::Float(v) => p >= 4 && be_uint(n.bytes.subrange(p - 4, p)) == v,
        Fragment::Double(v) => p >= 8 && be_uint(n.bytes.subrange(p - 8, p)) == v,
        _ => payload(f).len() <= p && n.bytes.subrange(p - payload(f).len(), p) == payload(f),
    }
}

proof fn lemma_tail_is_window(m: Machine, n: Machine)
    requires
        m.pos <= n.pos <= m.bytes.len(),
        n.bytes == m.bytes,
    ensures
        n.bytes.subrange(n.pos - (n.pos - m.pos), n.pos as int) == window(m, n.pos - m.pos),
        n.bytes.subrange(n.pos as int, n.pos as int) == Seq::<u8>::empty(),
{
    assert(n.bytes.subrange(n.pos - (n.pos - m.pos), n.pos as int) =~= window(m, n.pos - m.pos));
    assert(n.bytes.subrange(n.pos as int, n.pos as int) =~= Seq::<u8>::empty());
}

proof fn lemma_scalar_bounds(m: Machine)
    ensures
        avail(m) >= 1 ==> be_uint(window(m, 1)) < 0x100,
        avail(m) >= 2 ==> be_uint(window(m, 2)) < 0x1_0000,
        avail(m) >= 4 ==> be_uint(window(m, 4)) < 0x1_0000_0000,
        avail(m) >= 8 ==> be_uint(window(m, 8)) < 0x1_0000_0000_0000_0000,
{
    lemma_pow256_values();
    if avail(m) >= 1 {
        lemma_be_uint_bound(window(m, 1));
    }
    if avail(m) >= 2 {
        lemma_be_uint_bound(window(m, 2));
    }
    if avail(m) >= 4 {
        lemma_be_uint_bound(window(m, 4));
    }
    if avail(m) >= 8 {
        lemma_be_uint_bound(window(m, 8));
    }
}

#[verifier::rlimit(60)]
proof fn lemma_tag_step_reads_back(m: Machine)
    requires
        m.pos <= m.bytes.len(),
        tag_step(m).1.bytes == m.bytes,
        m.pos <= tag_step(m).1.pos <= m.bytes.len(),
    ensures
        tag_step(m).0 matches Some(Ok(FsmResult::Found(f))) ==> reads_back(f, tag_step(m).1),
{
    lemma_pow256_values();
    lemma_scalar_bounds(m);
    lemma_tail_is_window(m, tag_step(m).1);
    let a = avail(m);
    if let TagState::List(t, c) = m.state {
        let w = bulk_width(t);
        if c > 0 && w > 0 {
            let k = frame_count(c as nat, a, w);
            assert(k * w <= a) by (nonlinear_arith)
                requires
                    k <= a / w,
                    w >= 1,
            ;
        }
    }
}

proof fn lemma_step_reads_back(m: Machine)
    requires
        m.pos <= m.bytes.len(),
    ensures
        step(m).0 matches Some(Ok(FsmResult::Found(f))) ==> reads_back(f, step(m).1),
{
    lemma_step_consumes(m);
    if m.name == NameState::NameComplete {
        lemma_tag_step_reads_back(m);
    } else {
        lemma_tail_is_window(m, step(m).1);
    }
}

/// Every fragment re-encodes to the input it was read from: the bytes that
/// end where the call left the parser.
pub proof fn lemma_fragment_reads_back(m: Machine)
    requires
        m.pos <= m.bytes.len(),
    ensures
        run(m).0 matches Ok(FsmResult::Found(f)) ==> reads_back(f, run(m).1),
    decreases avail(m), rank(m.state), m.stack.len(),
{
    lemma_step_reads_back(m);
    if step(m).0 is None {
        lemma_step_progress(m);
        lemma_step_consumes(m);
        lemma_fragment_reads_back(step(m).1);
    }
}

/// Asking for more input loses nothing: after a call that returned `Needs`,
/// attaching the bytes it left unread followed by `more` (as a caller sliding
/// its window does) makes the next call return what it would have returned had
/// `more` been there from the start, and consume as much.
pub proof fn lemma_reattach_after_needs(m: Machine, more: Seq<u8>)
    requires
        m.pos <= m.bytes.len(),
        run(m).0 is Ok && run(m).0->Ok_0 is Needs,
    ensures
        ({
            let n = run(m).1;
            let attached = Machine { bytes: unread(n) + more, pos: 0, ..n };
            let whole = run(extend(m, more));
            &&& run(attached).0 == whole.0
            &&& same_unread(run(attached).1, whole.1)
            &&& run(attached).1.pos == whole.1.pos - n.pos
        }),
{
    let n = run(m).1;
    lemma_run_consumes(m);
    lemma_needs_is_a_pause(m, more);
    let attached = Machine { bytes: unread(n) + more, pos: 0, ..n };
    let e = extend(n, more);
    assert(unread(e) =~= unread(attached));
    lemma_only_unread_bytes_matter(attached, e);
}

} // verus!
