//! Big-endian integers on the wire, and a byte cursor over a slice.
use vstd::prelude::*;

verus! {

/// `256^n`.
pub open spec fn pow256(n: nat) -> nat
    decreases n,
{
    if n == 0 {
        1
    } else {
        256 * pow256((n - 1) as nat)
    }
}

/// The unsigned number that a byte string spells, most significant byte first.
pub open spec fn be_value(s: Seq<u8>) -> nat
    decreases s.len(),
{
    if s.len() == 0 {
        0
    } else {
        be_value(s.drop_last()) * 256 + s.last() as nat
    }
}

/// The `n` bytes that spell `v` big-endian (`v` taken modulo `256^n`).
pub open spec fn be_bytes(v: nat, n: nat) -> Seq<u8>
    decreases n,
{
    if n == 0 {
        Seq::empty()
    } else {
        be_bytes(v / 256, (n - 1) as nat).push((v % 256) as u8)
    }
}

pub proof fn lemma_pow256_values()
    ensures
        pow256(1) == 0x100,
        pow256(2) == 0x1_0000,
        pow256(4) == 0x1_0000_0000,
        pow256(8) == 0x1_0000_0000_0000_0000,
{
    reveal_with_fuel(pow256, 9);
}

pub proof fn lemma_pow256_mono(a: nat, b: nat)
    requires
        a <= b,
    ensures
        1 <= pow256(a) <= pow256(b),
    decreases b,
{
    if b > a {
        lemma_pow256_mono(a, (b - 1) as nat);
    } else if a > 0 {
        lemma_pow256_mono(0, (a - 1) as nat);
    }
}

pub proof fn lemma_be_bytes_len(v: nat, n: nat)
    ensures
        be_bytes(v, n).len() == n,
    decreases n,
{
    if n > 0 {
        lemma_be_bytes_len(v / 256, (n - 1) as nat);
    }
}

/// Spelling a number that fits in `n` bytes and reading it back gives the number.
pub proof fn lemma_be_round_trip(v: nat, n: nat)
    requires
        v < pow256(n),
    ensures
        be_value(be_bytes(v, n)) == v,
        be_bytes(v, n).len() == n,
    decreases n,
{
    lemma_be_bytes_len(v, n);
    if n > 0 {
        let p = pow256((n - 1) as nat);
        assert(v / 256 < p) by (nonlinear_arith)
            requires
                v < 256 * p,
        ;
        lemma_be_round_trip(v / 256, (n - 1) as nat);
        let s = be_bytes(v, n);
        assert(s.drop_last() =~= be_bytes(v / 256, (n - 1) as nat));
        assert((v / 256) * 256 + v % 256 == v) by (nonlinear_arith);
    }
}

pub proof fn lemma_be_value_bound(s: Seq<u8>)
    ensures
        be_value(s) < pow256(s.len()),
    decreases s.len(),
{
    if s.len() > 0 {
        lemma_be_value_bound(s.drop_last());
        let a = be_value(s.drop_last());
        let p = pow256((s.len() - 1) as nat);
        let b = s.last() as nat;
        assert(a * 256 + b < 256 * p) by (nonlinear_arith)
            requires
                a < p,
                b < 256,
        ;
    }
}

/// A fixed-width integer type as it travels on the wire: `width()` bytes, big-endian,
/// signed types in two's complement.
pub trait WireInt: Sized + Copy {
    spec fn width() -> nat;

    /// The unsigned number that the wire carries for this value.
    spec fn to_wire(self) -> nat;

    /// The value that the unsigned number `v` stands for.
    spec fn from_wire(v: nat) -> Self;

    proof fn lemma_width()
        ensures
            1 <= Self::width() <= 8,
    ;

    proof fn lemma_wire(x: Self)
        ensures
            x.to_wire() < pow256(Self::width()),
            Self::from_wire(x.to_wire()) == x,
    ;

    proof fn lemma_wire_inverse(v: nat)
        requires
            v < pow256(Self::width()),
        ensures
            Self::from_wire(v).to_wire() == v,
    ;

    fn exec_width() -> (w: usize)
        ensures
            w == Self::width(),
    ;

    fn decode_wire(v: u64) -> (r: Self)
        requires
            v < pow256(Self::width()),
        ensures
            r == Self::from_wire(v as nat),
    ;

    fn encode_wire(self) -> (r: u64)
        ensures
            r == self.to_wire(),
    ;
}

impl WireInt for u8 {
    open spec fn width() -> nat {
        1
    }

    open spec fn to_wire(self) -> nat {
        self as nat
    }

    open spec fn from_wire(v: nat) -> u8 {
        v as u8
    }

    proof fn lemma_width() {
    }

    proof fn lemma_wire(x: u8) {
        lemma_pow256_values();
    }

    proof fn lemma_wire_inverse(v: nat) {
        lemma_pow256_values();
    }

    fn exec_width() -> (w: usize) {
        1
    }

    fn decode_wire(v: u64) -> (r: u8) {
        proof {
            lemma_pow256_values();
        }
        v as u8
    }

    fn encode_wire(self) -> (r: u64) {
        self as u64
    }
}

impl WireInt for u16 {
    open spec fn width() -> nat {
        2
    }

    open spec fn to_wire(self) -> nat {
        self as nat
    }

    open spec fn from_wire(v: nat) -> u16 {
        v as u16
    }

    proof fn lemma_width() {
    }

    proof fn lemma_wire(x: u16) {
        lemma_pow256_values();
    }

    proof fn lemma_wire_inverse(v: nat) {
        lemma_pow256_values();
    }

    fn exec_width() -> (w: usize) {
        2
    }

    fn decode_wire(v: u64) -> (r: u16) {
        proof {
            lemma_pow256_values();
        }
        v as u16
    }

    fn encode_wire(self) -> (r: u64) {
        self as u64
    }
}

impl WireInt for u32 {
    open spec fn width() -> nat {
        4
    }

    open spec fn to_wire(self) -> nat {
        self as nat
    }

    open spec fn from_wire(v: nat) -> u32 {
        v as u32
    }

    proof fn lemma_width() {
    }

    proof fn lemma_wire(x: u32) {
        lemma_pow256_values();
    }

    proof fn lemma_wire_inverse(v: nat) {
        lemma_pow256_values();
    }

    fn exec_width() -> (w: usize) {
        4
    }

    fn decode_wire(v: u64) -> (r: u32) {
        proof {
            lemma_pow256_values();
        }
        v as u32
    }

    fn encode_wire(self) -> (r: u64) {
        self as u64
    }
}

impl WireInt for u64 {
    open spec fn width() -> nat {
        8
    }

    open spec fn to_wire(self) -> nat {
        self as nat
    }

    open spec fn from_wire(v: nat) -> u64 {
        v as u64
    }

    proof fn lemma_width() {
    }

    proof fn lemma_wire(x: u64) {
        lemma_pow256_values();
    }

    proof fn lemma_wire_inverse(v: nat) {
        lemma_pow256_values();
    }

    fn exec_width() -> (w: usize) {
        8
    }

    fn decode_wire(v: u64) -> (r: u64) {
        v
    }

    fn encode_wire(self) -> (r: u64) {
        self
    }
}

impl WireInt for i16 {
    open spec fn width() -> nat {
        2
    }

    open spec fn to_wire(self) -> nat {
        if self < 0 {
            (self + 0x1_0000) as nat
        } else {
            self as nat
        }
    }

    open spec fn from_wire(v: nat) -> i16 {
        if v >= 0x8000 {
            (v - 0x1_0000) as i16
        } else {
            v as i16
        }
    }

    proof fn lemma_width() {
    }

    proof fn lemma_wire(x: i16) {
        lemma_pow256_values();
    }

    proof fn lemma_wire_inverse(v: nat) {
        lemma_pow256_values();
    }

    fn exec_width() -> (w: usize) {
        2
    }

    fn decode_wire(v: u64) -> (r: i16) {
        proof {
            lemma_pow256_values();
        }
        if v >= 0x8000 {
            (v as i64 - 0x1_0000) as i16
        } else {
            v as i16
        }
    }

    fn encode_wire(self) -> (r: u64) {
        if self < 0 {
            (self as i64 + 0x1_0000) as u64
        } else {
            self as u64
        }
    }
}

impl WireInt for i32 {
    open spec fn width() -> nat {
        4
    }

    open spec fn to_wire(self) -> nat {
        if self < 0 {
            (self + 0x1_0000_0000) as nat
        } else {
            self as nat
        }
    }

    open spec fn from_wire(v: nat) -> i32 {
        if v >= 0x8000_0000 {
            (v - 0x1_0000_0000) as i32
        } else {
            v as i32
        }
    }

    proof fn lemma_width() {
    }

    proof fn lemma_wire(x: i32) {
        lemma_pow256_values();
    }

    proof fn lemma_wire_inverse(v: nat) {
        lemma_pow256_values();
    }

    fn exec_width() -> (w: usize) {
        4
    }

    fn decode_wire(v: u64) -> (r: i32) {
        proof {
            lemma_pow256_values();
        }
        if v >= 0x8000_0000 {
            (v as i64 - 0x1_0000_0000) as i32
        } else {
            v as i32
        }
    }

    fn encode_wire(self) -> (r: u64) {
        if self < 0 {
            (self as i64 + 0x1_0000_0000) as u64
        } else {
            self as u64
        }
    }
}

/// The bytes that carry `x`.
pub open spec fn int_bytes<I: WireInt>(x: I) -> Seq<u8> {
    be_bytes(x.to_wire(), I::width())
}

/// Reads one integer off the front of `s`, if `s` is long enough.
pub open spec fn take_int<I: WireInt>(s: Seq<u8>) -> Option<(I, Seq<u8>)> {
    if s.len() >= I::width() {
        Some((I::from_wire(be_value(s.take(I::width() as int))), s.skip(I::width() as int)))
    } else {
        None
    }
}

/// What a cursor result over `s` means: the value read and the bytes still unread.
pub open spec fn unread<T>(s: Seq<u8>, r: Option<(T, usize)>) -> Option<(T, Seq<u8>)> {
    match r {
        Some((v, p)) => Some((v, s.skip(p as int))),
        None => None,
    }
}

/// A cursor result over `s` that started at `pos` never moves back or past the end.
pub open spec fn moved_forward<T>(s: Seq<u8>, pos: usize, r: Option<(T, usize)>) -> bool {
    match r {
        Some((_, p)) => pos <= p <= s.len(),
        None => true,
    }
}

pub proof fn lemma_take_int<I: WireInt>(x: I, rest: Seq<u8>)
    ensures
        int_bytes(x).len() == I::width(),
        take_int::<I>(int_bytes(x) + rest) == Some((x, rest)),
{
    I::lemma_wire(x);
    lemma_be_round_trip(x.to_wire(), I::width());
    let s = int_bytes(x) + rest;
    assert(s.take(I::width() as int) =~= int_bytes(x));
    assert(s.skip(I::width() as int) =~= rest);
}

pub proof fn lemma_be_bytes_of_value(t: Seq<u8>)
    ensures
        be_bytes(be_value(t), t.len()) == t,
    decreases t.len(),
{
    if t.len() > 0 {
        let a = be_value(t.drop_last());
        let b = t.last() as nat;
        assert((a * 256 + b) / 256 == a && (a * 256 + b) % 256 == b) by (nonlinear_arith)
            requires
                b < 256,
        ;
        lemma_be_bytes_of_value(t.drop_last());
        assert(be_bytes(be_value(t), t.len()) =~= t);
    }
}

/// Whatever `take_int` reads, it reads from the front of its input as the bytes that
/// carry the value.
pub proof fn lemma_take_int_sound<I: WireInt>(s: Seq<u8>)
    requires
        take_int::<I>(s) is Some,
    ensures
        s == int_bytes(take_int::<I>(s).unwrap().0) + take_int::<I>(s).unwrap().1,
{
    let w = I::width();
    let t = s.take(w as int);
    lemma_be_value_bound(t);
    I::lemma_wire_inverse(be_value(t));
    lemma_be_bytes_of_value(t);
    assert(s =~= t + s.skip(w as int));
}

/// The number spelled by `s[pos..pos + n]`.
fn read_be(s: &[u8], pos: usize, n: usize) -> (r: u64)
    requires
        pos + n <= s@.len(),
        n <= 8,
    ensures
        r as nat == be_value(s@.subrange(pos as int, pos + n)),
{
    let len = s.len();
    let mut acc: u64 = 0;
    let mut i: usize = 0;
    while i < n
        invariant
            len == s@.len(),
            i <= n <= 8,
            pos + n <= s@.len(),
            acc as nat == be_value(s@.subrange(pos as int, pos + i)),
        decreases n - i,
    {
        proof {
            lemma_be_value_bound(s@.subrange(pos as int, pos + i));
            lemma_pow256_mono((i + 1) as nat, 8);
            lemma_pow256_values();
            assert(s@.subrange(pos as int, pos + i + 1).drop_last() =~= s@.subrange(
                pos as int,
                pos + i,
            ));
            let p = pow256(i as nat);
            let a = acc as nat;
            let b = s[pos + i as int] as nat;
            assert(a * 256 + b < 256 * p) by (nonlinear_arith)
                requires
                    a < p,
                    b < 256,
            ;
            assert(pow256((i + 1) as nat) == 256 * p);
        }
        acc = acc * 256 + s[pos + i] as u64;
        i = i + 1;
    }
    acc
}

/// Reads one integer at `pos`; `None` when fewer than its width of bytes remain.
pub fn read_int<I: WireInt>(s: &[u8], pos: usize) -> (r: Option<(I, usize)>)
    requires
        pos <= s@.len(),
    ensures
        moved_forward(s@, pos, r),
        unread(s@, r) == take_int::<I>(s@.skip(pos as int)),
{
    let w = I::exec_width();
    proof {
        I::lemma_width();
    }
    if s.len() - pos < w {
        None
    } else {
        let v = read_be(s, pos, w);
        proof {
            lemma_be_value_bound(s@.subrange(pos as int, pos + w));
            assert(s@.skip(pos as int).take(w as int) =~= s@.subrange(pos as int, pos + w));
            assert(s@.skip(pos as int).skip(w as int) =~= s@.skip(pos + w));
        }
        Some((I::decode_wire(v), pos + w))
    }
}

/// Appends the bytes that carry `x`.
pub fn write_int<I: WireInt>(out: &mut Vec<u8>, x: I)
    ensures
        final(out)@ == old(out)@ + int_bytes(x),
{
    let w = I::exec_width();
    let v = x.encode_wire();
    proof {
        I::lemma_width();
    }
    write_be(out, v, w);
}

/// Appends `bytes`.
pub fn append_bytes(out: &mut Vec<u8>, bytes: &[u8])
    ensures
        final(out)@ == old(out)@ + bytes@,
{
    let ghost start = out@;
    let mut i: usize = 0;
    while i < bytes.len()
        invariant
            i <= bytes@.len(),
            out@ == start + bytes@.take(i as int),
        decreases bytes@.len() - i,
    {
        out.push(bytes[i]);
        proof {
            assert(bytes@.take(i + 1) =~= bytes@.take(i as int).push(bytes@[i as int]));
        }
        i = i + 1;
    }
    proof {
        assert(bytes@.take(i as int) =~= bytes@);
    }
}

fn write_be(out: &mut Vec<u8>, v: u64, n: usize)
    ensures
        final(out)@ == old(out)@ + be_bytes(v as nat, n as nat),
    decreases n,
{
    if n > 0 {
        write_be(out, v / 256, n - 1);
        out.push((v % 256) as u8);
        proof {
            assert(out@ =~= old(out)@ + be_bytes(v as nat, n as nat));
        }
    } else {
        proof {
            assert(old(out)@ + be_bytes(v as nat, 0) =~= old(out)@);
        }
    }
}

} // verus!
