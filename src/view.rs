//! Big-endian scalars, and a zero-copy view of bytes as a sequence of them.
use vstd::prelude::*;
use core::marker::PhantomData;

verus! {

/// `256^n`.
pub open spec fn pow256(n: nat) -> nat
    decreases n,
{
    if n == 0 {
        1
    } else {
        256 * pow256((n - 1) as nat)
    }
}

/// The unsigned number whose big-endian bytes are `s`.
pub open spec fn be_uint(s: Seq<u8>) -> nat
    decreases s.len(),
{
    if s.len() == 0 {
        0
    } else {
        (be_uint(s.drop_last()) * 256 + s.last()) as nat
    }
}

/// The two's-complement number whose big-endian bytes are `s`.
pub open spec fn be_int(s: Seq<u8>) -> int {
    if be_uint(s) * 2 >= pow256(s.len()) {
        be_uint(s) - pow256(s.len())
    } else {
        be_uint(s) as int
    }
}

/// Powers of 256 grow with the exponent.
pub proof fn lemma_pow256_mono(a: nat, b: nat)
    requires
        a <= b,
    ensures
        1 <= pow256(a) <= pow256(b),
    decreases b,
{
    if b > 0 {
        if b > a {
            lemma_pow256_mono(a, (b - 1) as nat);
        } else {
            lemma_pow256_mono(0, (b - 1) as nat);
        }
    }
}

/// `n` bytes hold a number below `256^n`.
pub proof fn lemma_be_uint_bound(s: Seq<u8>)
    ensures
        be_uint(s) < pow256(s.len()),
    decreases s.len(),
{
    if s.len() > 0 {
        lemma_be_uint_bound(s.drop_last());
        let p = pow256((s.len() - 1) as nat);
        let u = be_uint(s.drop_last());
        assert(u * 256 + s.last() < p * 256) by (nonlinear_arith)
            requires
                u < p,
                s.last() < 256,
        ;
    }
}

/// The powers of 256 that the fixed-width types use.
pub proof fn lemma_pow256_values()
    ensures
        pow256(1) == 0x100,
        pow256(2) == 0x1_0000,
        pow256(4) == 0x1_0000_0000,
        pow256(8) == 0x1_0000_0000_0000_0000,
        pow256(15) == 0x100_0000_0000_0000_0000_0000_0000_0000,
        pow256(16) == 0x1_0000_0000_0000_0000_0000_0000_0000_0000,
{
    reveal_with_fuel(pow256, 17);
}

/// Reads the big-endian unsigned number held in at most sixteen bytes.
fn read_be_uint(data: &[u8]) -> (r: u128)
    requires
        data@.len() <= 16,
    ensures
        r == be_uint(data@),
{
    let mut acc: u128 = 0;
    let mut i: usize = 0;
    while i < data.len()
        invariant
            i <= data@.len() <= 16,
            acc == be_uint(data@.subrange(0, i as int)),
        decreases data@.len() - i,
    {
        proof {
            let pre = data@.subrange(0, i as int);
            lemma_be_uint_bound(pre);
            lemma_pow256_mono(i as nat, 15);
            lemma_pow256_values();
            let p = pow256(i as nat);
            assert(acc * 256 + 255 < 0x1_0000_0000_0000_0000_0000_0000_0000_0000) by (nonlinear_arith)
                requires
                    acc < p,
                    p <= 0x100_0000_0000_0000_0000_0000_0000_0000,
            ;
            assert(data@.subrange(0, i + 1).drop_last() =~= pre);
        }
        acc = acc * 256 + data[i] as u128;
        i = i + 1;
    }
    assert(data@.subrange(0, i as int) =~= data@);
    acc
}

/// A fixed-width scalar that can be read from big-endian bytes.
pub trait BeRepr: Sized + Copy {
    /// The number of bytes one value takes.
    spec fn width() -> nat;

    /// The value whose big-endian encoding is `bytes`.
    spec fn decode(bytes: Seq<u8>) -> Self;

    /// A value takes at least one and at most sixteen bytes.
    proof fn lemma_width()
        ensures
            1 <= Self::width() <= 16,
    ;

    /// The number of bytes one value takes.
    fn bytes() -> (n: usize)
        ensures
            n == Self::width(),
            1 <= n <= 16,
    ;

    /// Reads one value from exactly `Self::bytes()` big-endian bytes.
    fn read_be(data: &[u8]) -> (r: Self)
        requires
            data@.len() == Self::width(),
        ensures
            r == Self::decode(data@),
    ;
}

impl BeRepr for u8 {
    open spec fn width() -> nat {
        1
    }

    open spec fn decode(bytes: Seq<u8>) -> u8 {
        be_uint(bytes) as u8
    }

    fn bytes() -> (n: usize) {
        1
    }

    proof fn lemma_width() {
    }

    fn read_be(data: &[u8]) -> (r: u8) {
        let u = read_be_uint(data);
        proof {
            lemma_be_uint_bound(data@);
            lemma_pow256_values();
        }
        u as u8
    }
}

impl BeRepr for u16 {
    open spec fn width() -> nat {
        2
    }

    open spec fn decode(bytes: Seq<u8>) -> u16 {
        be_uint(bytes) as u16
    }

    fn bytes() -> (n: usize) {
        2
    }

    proof fn lemma_width() {
    }

    fn read_be(data: &[u8]) -> (r: u16) {
        let u = read_be_uint(data);
        proof {
            lemma_be_uint_bound(data@);
            lemma_pow256_values();
        }
        u as u16
    }
}

impl BeRepr for u32 {
    open spec fn width() -> nat {
        4
    }

    open spec fn decode(bytes: Seq<u8>) -> u32 {
        be_uint(bytes) as u32
    }

    fn bytes() -> (n: usize) {
        4
    }

    proof fn lemma_width() {
    }

    fn read_be(data: &[u8]) -> (r: u32) {
        let u = read_be_uint(data);
        proof {
            lemma_be_uint_bound(data@);
            lemma_pow256_values();
        }
        u as u32
    }
}

impl BeRepr for u64 {
    open spec fn width() -> nat {
        8
    }

    open spec fn decode(bytes: Seq<u8>) -> u64 {
        be_uint(bytes) as u64
    }

    fn bytes() -> (n: usize) {
        8
    }

    proof fn lemma_width() {
    }

    fn read_be(data: &[u8]) -> (r: u64) {
        let u = read_be_uint(data);
        proof {
            lemma_be_uint_bound(data@);
            lemma_pow256_values();
        }
        u as u64
    }
}

impl BeRepr for u128 {
    open spec fn width() -> nat {
        16
    }

    open spec fn decode(bytes: Seq<u8>) -> u128 {
        be_uint(bytes) as u128
    }

    fn bytes() -> (n: usize) {
        16
    }

    proof fn lemma_width() {
    }

    fn read_be(data: &[u8]) -> (r: u128) {
        let u = read_be_uint(data);
        proof {
            lemma_be_uint_bound(data@);
            lemma_pow256_values();
        }
        u as u128
    }
}

impl BeRepr for i8 {
    open spec fn width() -> nat {
        1
    }

    open spec fn decode(bytes: Seq<u8>) -> i8 {
        be_int(bytes) as i8
    }

    fn bytes() -> (n: usize) {
        1
    }

    proof fn lemma_width() {
    }

    fn read_be(data: &[u8]) -> (r: i8) {
        let u = read_be_uint(data);
        proof {
            lemma_be_uint_bound(data@);
            lemma_pow256_values();
        }
        if u >= 0x80 {
            (u as i16 - 0x100) as i8
        } else {
            u as i8
        }
    }
}

impl BeRepr for i16 {
    open spec fn width() -> nat {
        2
    }

    open spec fn decode(bytes: Seq<u8>) -> i16 {
        be_int(bytes) as i16
    }

    fn bytes() -> (n: usize) {
        2
    }

    proof fn lemma_width() {
    }

    fn read_be(data: &[u8]) -> (r: i16) {
        let u = read_be_uint(data);
        proof {
            lemma_be_uint_bound(data@);
            lemma_pow256_values();
        }
        if u >= 0x8000 {
            (u as i32 - 0x10000) as i16
        } else {
            u as i16
        }
    }
}

impl BeRepr for i32 {
    open spec fn width() -> nat {
        4
    }

    open spec fn decode(bytes: Seq<u8>) -> i32 {
        be_int(bytes) as i32
    }

    fn bytes() -> (n: usize) {
        4
    }

    proof fn lemma_width() {
    }

    fn read_be(data: &[u8]) -> (r: i32) {
        let u = read_be_uint(data);
        proof {
            lemma_be_uint_bound(data@);
            lemma_pow256_values();
        }
        if u >= 0x80000000 {
            (u as i64 - 0x100000000) as i32
        } else {
            u as i32
        }
    }
}

impl BeRepr for i64 {
    open spec fn width() -> nat {
        8
    }

    open spec fn decode(bytes: Seq<u8>) -> i64 {
        be_int(bytes) as i64
    }

    fn bytes() -> (n: usize) {
        8
    }

    proof fn lemma_width() {
    }

    fn read_be(data: &[u8]) -> (r: i64) {
        let u = read_be_uint(data);
        proof {
            lemma_be_uint_bound(data@);
            lemma_pow256_values();
        }
        if u >= 0x8000000000000000 {
            (u as i128 - 0x10000000000000000) as i64
        } else {
            u as i64
        }
    }
}

impl BeRepr for i128 {
    open spec fn width() -> nat {
        16
    }

    open spec fn decode(bytes: Seq<u8>) -> i128 {
        be_int(bytes) as i128
    }

    fn bytes() -> (n: usize) {
        16
    }

    proof fn lemma_width() {
    }

    fn read_be(data: &[u8]) -> (r: i128) {
        let u = read_be_uint(data);
        proof {
            lemma_be_uint_bound(data@);
            lemma_pow256_values();
        }
        if u >= 0x80000000000000000000000000000000 {
            (u - 0x80000000000000000000000000000000) as i128 - i128::MAX - 1
        } else {
            u as i128
        }
    }
}

/// The values read from consecutive `T`-sized big-endian windows of `s`, left to right.
pub open spec fn decode_all<T: BeRepr>(s: Seq<u8>) -> Seq<T> {
    Seq::new(
        (s.len() / T::width()) as nat,
        |i: int| T::decode(s.subrange(i * T::width(), i * T::width() + T::width())),
    )
}

/// Reads whole values from the front of `data` into the front of `dst`, as
/// many as both hold; returns how many.
pub fn copy_slice<T: BeRepr>(data: &[u8], dst: &mut [T]) -> (written: usize)
    ensures
        written == (if data@.len() / T::width() <= old(dst)@.len() {
            data@.len() / T::width()
        } else {
            old(dst)@.len()
        }),
        final(dst)@ == decode_all::<T>(data@).subrange(0, written as int) + old(
            dst,
        )@.subrange(written as int, old(dst)@.len() as int),
{
    let w = T::bytes();
    let total = data.len();
    let n = total / w;
    let count = if n <= dst.len() {
        n
    } else {
        dst.len()
    };
    let mut i: usize = 0;
    while i < count
        invariant
            w == T::width(),
            1 <= w,
            total == data@.len(),
            n == data@.len() / T::width(),
            count <= n,
            count <= old(dst)@.len(),
            i <= count,
            dst@.len() == old(dst)@.len(),
            forall|j: int| 0 <= j < i ==> #[trigger] dst@[j] == decode_all::<T>(data@)[j],
            forall|j: int| i <= j < old(dst)@.len() ==> #[trigger] dst@[j] == old(dst)@[j],
        decreases count - i,
    {
        proof {
            let d = total as int;
            assert(i * w + w <= d) by (nonlinear_arith)
                requires
                    i < count <= n,
                    n == d / (w as int),
                    w == T::width(),
                    w >= 1,
                    d >= 0,
            ;
        }
        let window = vstd::slice::slice_subrange(data, i * w, i * w + w);
        dst[i] = T::read_be(window);
        i = i + 1;
    }
    assert(dst@ =~= decode_all::<T>(data@).subrange(0, count as int) + old(
        dst,
    )@.subrange(count as int, old(dst)@.len() as int));
    count
}

/// The windows between the `a`-th and the `b`-th decode to the values between them.
pub proof fn lemma_decode_all_subrange<T: BeRepr>(s: Seq<u8>, a: int, b: int)
    requires
        T::width() >= 1,
        s.len() % T::width() == 0,
        0 <= a <= b <= s.len() / T::width(),
    ensures
        a * T::width() <= b * T::width() <= s.len(),
        decode_all::<T>(s.subrange(a * T::width(), b * T::width())) =~= decode_all::<T>(
            s,
        ).subrange(a, b),
{
    let w = T::width() as int;
    let n = s.len() / T::width();
    vstd::arithmetic::div_mod::lemma_fundamental_div_mod(s.len() as int, w);
    assert(a * w <= b * w <= n * w) by (nonlinear_arith)
        requires
            0 <= a <= b <= n,
            w >= 1,
    ;
    let t = s.subrange(a * w, b * w);
    assert(t.len() == (b - a) * w) by (nonlinear_arith)
        requires
            t.len() == b * w - a * w,
    ;
    vstd::arithmetic::div_mod::lemma_div_multiples_vanish(b - a, w);
    assert(t.len() / T::width() == b - a);
    assert forall|i: int| 0 <= i < b - a implies #[trigger] t.subrange(i * w, i * w + w) == s.subrange(
        (a + i) * w,
        (a + i) * w + w,
    ) by {
        assert((a + i) * w == a * w + i * w) by (nonlinear_arith);
        assert(i * w + w <= (b - a) * w) by (nonlinear_arith)
            requires
                0 <= i < b - a,
                w >= 1,
        ;
        assert(t.subrange(i * w, i * w + w) =~= s.subrange(a * w + i * w, a * w + i * w + w));
    }
}

/// Bytes that are a whole number of `T`s decode to that many values.
pub proof fn lemma_whole<T: BeRepr>(s: Seq<u8>)
    requires
        T::width() >= 1,
        s.len() % T::width() == 0,
    ensures
        s.len() == decode_all::<T>(s).len() * T::width(),
{
    let n = s.len() as int;
    let w = T::width() as int;
    vstd::arithmetic::div_mod::lemma_fundamental_div_mod(n, w);
    assert(n == (n / w) * w) by (nonlinear_arith)
        requires
            n == w * (n / w) + n % w,
            n % w == 0,
    ;
}

/// One step from the front: the first value, and what is left.
pub open spec fn next_of<T>(s: Seq<T>) -> (Option<T>, Seq<T>) {
    if s.len() == 0 {
        (None, s)
    } else {
        (Some(s[0]), s.drop_first())
    }
}

/// One step from the back: the last value, and what is left.
pub open spec fn next_back_of<T>(s: Seq<T>) -> (Option<T>, Seq<T>) {
    if s.len() == 0 {
        (None, s)
    } else {
        (Some(s.last()), s.drop_last())
    }
}

/// The `n`-th value from the front, and what is left after it.
pub open spec fn nth_of<T>(s: Seq<T>, n: nat) -> (Option<T>, Seq<T>) {
    if n < s.len() {
        (Some(s[n as int]), s.subrange(n as int + 1, s.len() as int))
    } else {
        (None, Seq::empty())
    }
}

/// The `n`-th value from the back, and what is left before it.
pub open spec fn nth_back_of<T>(s: Seq<T>, n: nat) -> (Option<T>, Seq<T>) {
    if n < s.len() {
        (Some(s[s.len() - 1 - n]), s.subrange(0, s.len() - 1 - n))
    } else {
        (None, Seq::empty())
    }
}

/// What is left after `k` steps from the front.
pub open spec fn skip_front<T>(s: Seq<T>, k: nat) -> Seq<T>
    decreases k,
{
    if k == 0 {
        s
    } else {
        skip_front(next_of(s).1, (k - 1) as nat)
    }
}

/// The values that steps from the front yield until there are none.
pub open spec fn drain_front<T>(s: Seq<T>) -> Seq<T>
    decreases s.len(),
{
    if s.len() == 0 {
        Seq::empty()
    } else {
        seq![s[0]] + drain_front(s.drop_first())
    }
}

/// The values that steps from the back yield until there are none.
pub open spec fn drain_back<T>(s: Seq<T>) -> Seq<T>
    decreases s.len(),
{
    if s.len() == 0 {
        Seq::empty()
    } else {
        seq![s.last()] + drain_back(s.drop_last())
    }
}

/// Iterating a view from the front yields the values read from consecutive
/// `T`-sized big-endian windows of its bytes, left to right.
pub proof fn lemma_iteration_reads_windows<T: BeRepr>(bytes: Seq<u8>)
    requires
        bytes.len() % T::width() == 0,
    ensures
        drain_front(decode_all::<T>(bytes)).len() * T::width() == bytes.len(),
        forall|i: int|
            0 <= i < drain_front(decode_all::<T>(bytes)).len() ==> #[trigger] drain_front(
                decode_all::<T>(bytes),
            )[i] == T::decode(bytes.subrange(i * T::width(), (i + 1) * T::width())),
{
    T::lemma_width();
    let v = decode_all::<T>(bytes);
    lemma_drain_front(v);
    lemma_whole::<T>(bytes);
    assert forall|i: int| 0 <= i < v.len() implies #[trigger] v[i] == T::decode(
        bytes.subrange(i * T::width(), (i + 1) * T::width()),
    ) by {
        assert((i + 1) * T::width() == i * T::width() + T::width()) by (nonlinear_arith);
    }
}

/// Steps from the front yield the values in order.
pub proof fn lemma_drain_front<T>(s: Seq<T>)
    ensures
        drain_front(s) == s,
    decreases s.len(),
{
    if s.len() > 0 {
        lemma_drain_front(s.drop_first());
        assert(seq![s[0]] + s.drop_first() =~= s);
    }
}

/// Steps from the back yield the values in reverse order.
pub proof fn lemma_drain_back<T>(s: Seq<T>)
    ensures
        drain_back(s) == s.reverse(),
    decreases s.len(),
{
    if s.len() > 0 {
        lemma_drain_back(s.drop_last());
        assert(drain_back(s) =~= s.reverse());
    }
}

/// Taking the `k`-th value agrees with stepping `k` times and taking one.
pub proof fn lemma_nth_is_skip_then_next<T>(s: Seq<T>, k: nat)
    ensures
        nth_of(s, k) == next_of(skip_front(s, k)),
    decreases k,
{
    if s.len() == 0 {
        lemma_skip_empty::<T>(k);
        assert(s =~= Seq::<T>::empty());
    } else if k > 0 {
        lemma_nth_is_skip_then_next(s.drop_first(), (k - 1) as nat);
        if k < s.len() {
            assert(s.drop_first().subrange(k as int, s.len() - 1) =~= s.subrange(
                k as int + 1,
                s.len() as int,
            ));
        }
    } else {
        assert(s.subrange(1, s.len() as int) =~= s.drop_first());
    }
}

proof fn lemma_skip_empty<T>(k: nat)
    ensures
        skip_front(Seq::<T>::empty(), k) == Seq::<T>::empty(),
    decreases k,
{
    if k > 0 {
        lemma_skip_empty::<T>((k - 1) as nat);
    }
}

/// A zero-copy view of borrowed bytes as a sequence of big-endian `T`s.
#[derive(Debug)]
pub struct BeSlice<'s, T: BeRepr> {
    data: &'s [u8],
    _repr: PhantomData<T>,
}

impl<'s, T: BeRepr> Clone for BeSlice<'s, T> {
    fn clone(&self) -> (r: Self)
        ensures
            r == *self,
    {
        *self
    }
}

impl<'s, T: BeRepr> Copy for BeSlice<'s, T> {

}

impl<'s, T: BeRepr> View for BeSlice<'s, T> {
    type V = Seq<T>;

    open spec fn view(&self) -> Seq<T> {
        decode_all::<T>(self.raw())
    }
}

impl<'s, T: BeRepr> BeSlice<'s, T> {
    #[verifier::type_invariant]
    closed spec fn inv(self) -> bool {
        &&& T::width() >= 1
        &&& self.data@.len() % T::width() == 0
    }

    /// The bytes under the view.
    pub closed spec fn raw(&self) -> Seq<u8> {
        self.data@
    }

    /// A view of `data`, which must hold a whole number of `T`s.
    pub(crate) fn from_exact(data: &'s [u8]) -> (r: Self)
        requires
            data@.len() % T::width() == 0,
        ensures
            r.raw() == data@,
    {
        proof {
            T::lemma_width();
        }
        BeSlice { data, _repr: PhantomData }
    }

    /// A view of `data`, or `None` where its length is not a multiple of the width of `T`.
    pub fn new(data: &'s [u8]) -> (r: Option<Self>)
        ensures
            r is Some <==> data@.len() % T::width() == 0,
            r is Some ==> r->0.raw() == data@,
    {
        let w = T::bytes();
        if data.len() % w != 0 {
            return None;
        }
        Some(BeSlice { data, _repr: PhantomData })
    }

    /// The number of `T`s in the view.
    pub fn len(&self) -> (r: usize)
        ensures
            r == self@.len(),
    {
        self.data.len() / T::bytes()
    }

    pub fn is_empty(&self) -> (r: bool)
        ensures
            r == (self@.len() == 0),
    {
        proof {
            use_type_invariant(self);
            lemma_whole::<T>(self.raw());
            let n = self@.len();
            let w = T::width();
            assert(n * w == 0 <==> n == 0) by (nonlinear_arith)
                requires
                    w >= 1,
            ;
        }
        self.data.is_empty()
    }

    /// The bytes under the view.
    pub fn raw_bytes(&self) -> (r: &'s [u8])
        ensures
            r@ == self.raw(),
    {
        self.data
    }

    /// The `idx`-th value, read from its big-endian bytes.
    pub fn get_unchecked(&self, idx: usize) -> (r: T)
        requires
            idx < self@.len(),
        ensures
            r == self@[idx as int],
    {
        proof {
            use_type_invariant(self);
            lemma_whole::<T>(self.raw());
            lemma_decode_all_subrange::<T>(self.raw(), idx as int, idx + 1);
            assert((idx + 1) * T::width() == idx * T::width() + T::width()) by (nonlinear_arith);
        }
        let w = T::bytes();
        let total = self.data.len();
        assert(idx * w + w <= total);
        let offset = idx * w;
        let window = vstd::slice::slice_subrange(self.data, offset, offset + w);
        T::read_be(window)
    }

    /// The `idx`-th value, or `None` past the end.
    pub fn get(&self, idx: usize) -> (r: Option<T>)
        ensures
            r == (if idx < self@.len() {
                Some(self@[idx as int])
            } else {
                None
            }),
    {
        if self.len() <= idx {
            return None;
        }
        Some(self.get_unchecked(idx))
    }

    /// An iterator over the values, from either end.
    pub fn iter(&self) -> (r: BeIterator<'s, T>)
        ensures
            r@ == self@,
    {
        BeIterator(*self)
    }

    /// The view of the values from the `a`-th up to the `b`-th.
    fn slice(&self, a: usize, b: usize) -> (r: Self)
        requires
            a <= b <= self@.len(),
        ensures
            r@ == self@.subrange(a as int, b as int),
    {
        proof {
            use_type_invariant(self);
            lemma_whole::<T>(self.raw());
            lemma_decode_all_subrange::<T>(self.raw(), a as int, b as int);
            let w = T::width() as int;
            assert((b - a) * w == b * w - a * w) by (nonlinear_arith);
            vstd::arithmetic::div_mod::lemma_mod_multiples_basic(b - a, w);
        }
        let w = T::bytes();
        let total = self.data.len();
        assert(a * w <= b * w <= total);
        let data = vstd::slice::slice_subrange(self.data, a * w, b * w);
        BeSlice { data, _repr: PhantomData }
    }
}

impl<'s, T: BeRepr> PartialEq for BeSlice<'s, T> {
    fn eq(&self, other: &Self) -> (r: bool) {
        if self.data.len() != other.data.len() {
            return false;
        }
        let mut i: usize = 0;
        while i < self.data.len()
            invariant
                i <= self.data@.len() == other.data@.len(),
                forall|j: int| 0 <= j < i ==> self.data@[j] == other.data@[j],
            decreases self.data@.len() - i,
        {
            if self.data[i] != other.data[i] {
                return false;
            }
            i = i + 1;
        }
        assert(self.data@ =~= other.data@);
        true
    }
}

impl<'s, T: BeRepr> vstd::std_specs::cmp::PartialEqSpecImpl for BeSlice<'s, T> {
    open spec fn obeys_eq_spec() -> bool {
        true
    }

    open spec fn eq_spec(&self, other: &Self) -> bool {
        self.raw() == other.raw()
    }
}

/// Iterates over the values of a [`BeSlice`] from the front and from the back.
#[derive(Debug)]
pub struct BeIterator<'s, T: BeRepr>(BeSlice<'s, T>);

impl<'s, T: BeRepr> View for BeIterator<'s, T> {
    type V = Seq<T>;

    /// The values not yet yielded, in order.
    open spec fn view(&self) -> Seq<T> {
        self.remaining()@
    }
}

impl<'s, T: BeRepr> BeIterator<'s, T> {
    pub closed spec fn remaining(&self) -> BeSlice<'s, T> {
        self.0
    }

    /// The first value left, which then leaves.
    pub fn next(&mut self) -> (r: Option<T>)
        ensures
            (r, final(self)@) == next_of(old(self)@),
    {
        let n = self.0.len();
        if n == 0 {
            return None;
        }
        let v = self.0.get_unchecked(0);
        self.0 = self.0.slice(1, n);
        Some(v)
    }

    /// The number of values left, as a lower and an upper bound.
    pub fn size_hint(&self) -> (r: (usize, Option<usize>))
        ensures
            r.0 == self@.len(),
            r.1 == Some(self@.len() as usize),
    {
        let n = self.0.len();
        (n, Some(n))
    }

    /// The `n`-th value left; it and all values before it leave.
    pub fn nth(&mut self, n: usize) -> (r: Option<T>)
        ensures
            (r, final(self)@) == nth_of(old(self)@, n as nat),
    {
        let len = self.0.len();
        let next = self.0.get(n);
        let consumed = if n < len {
            n + 1
        } else {
            len
        };
        self.0 = self.0.slice(consumed, len);
        next
    }

    /// The number of values left.
    pub fn len(&self) -> (r: usize)
        ensures
            r == self@.len(),
    {
        self.0.len()
    }

    /// The last value left, which then leaves.
    pub fn next_back(&mut self) -> (r: Option<T>)
        ensures
            (r, final(self)@) == next_back_of(old(self)@),
    {
        let n = self.0.len();
        if n == 0 {
            return None;
        }
        let v = self.0.get_unchecked(n - 1);
        self.0 = self.0.slice(0, n - 1);
        Some(v)
    }

    /// The `n`-th value left counting from the back; it and all values after it leave.
    pub fn nth_back(&mut self, n: usize) -> (r: Option<T>)
        ensures
            (r, final(self)@) == nth_back_of(old(self)@, n as nat),
    {
        let len = self.0.len();
        if n < len {
            let idx = len - 1 - n;
            let v = self.0.get_unchecked(idx);
            self.0 = self.0.slice(0, idx);
            Some(v)
        } else {
            self.0 = self.0.slice(0, 0);
            None
        }
    }
}

} // verus!
