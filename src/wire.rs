//! Big-endian integers on the wire, and the conversions of wire records.
use vstd::prelude::*;

verus! {

/// The number that big-endian bytes write.
pub open spec fn be_value(b: Seq<u8>) -> nat
    decreases b.len(),
{
    if b.len() == 0 {
        0
    } else {
        be_value(b.drop_last()) * 256 + b.last() as nat
    }
}

/// `n` in `width` big-endian bytes (the low `width` bytes of `n`).
pub open spec fn be_bytes(n: nat, width: nat) -> Seq<u8>
    decreases width,
{
    if width == 0 {
        Seq::empty()
    } else {
        be_bytes(n / 256, (width - 1) as nat).push((n % 256) as u8)
    }
}

pub open spec fn pow256(width: nat) -> nat
    decreases width,
{
    if width == 0 {
        1
    } else {
        256 * pow256((width - 1) as nat)
    }
}

/// Writing a number in big-endian bytes and reading them back gives it
/// again, when it fits in the width.
pub proof fn lemma_be_round_trip(n: nat, width: nat)
    requires
        n < pow256(width),
    ensures
        be_bytes(n, width).len() == width,
        be_value(be_bytes(n, width)) == n,
    decreases width,
{
    if width > 0 {
        let w1 = (width - 1) as nat;
        assert(n / 256 < pow256(w1)) by (nonlinear_arith)
            requires
                n < 256 * pow256(w1),
        ;
        lemma_be_round_trip(n / 256, w1);
        assert(be_bytes(n, width).drop_last() =~= be_bytes(n / 256, w1));
        assert((n / 256) * 256 + n % 256 == n) by (nonlinear_arith);
    }
}

pub fn read_u16(b: &[u8], at: usize) -> (r: u16)
    requires
        at + 2 <= b.len(),
    ensures
        r as nat == be_value(b@.subrange(at as int, at + 2)),
{
    proof {
        reveal_with_fuel(be_value, 3);
    }
    let ghost s = b@.subrange(at as int, at + 2);
    assert(s.drop_last().drop_last() =~= Seq::<u8>::empty());
    assert(s.drop_last() =~= seq![b@[at as int]]);
    (b[at] as u16) * 256 + b[at + 1] as u16
}

pub fn read_u32(b: &[u8], at: usize) -> (r: u32)
    requires
        at + 4 <= b.len(),
    ensures
        r as nat == be_value(b@.subrange(at as int, at + 4)),
{
    proof {
        reveal_with_fuel(be_value, 5);
    }
    let ghost s = b@.subrange(at as int, at + 4);
    assert(s.drop_last().drop_last().drop_last().drop_last() =~= Seq::<u8>::empty());
    assert(s.drop_last().drop_last().drop_last() =~= seq![b@[at as int]]);
    assert(s.drop_last().drop_last() =~= seq![b@[at as int], b@[at + 1]]);
    assert(s.drop_last() =~= seq![b@[at as int], b@[at + 1], b@[at + 2]]);
    let a0 = b[at] as u32;
    let a1 = a0 * 256 + b[at + 1] as u32;
    let a2 = a1 * 256 + b[at + 2] as u32;
    a2 * 256 + b[at + 3] as u32
}

pub fn read_u64(b: &[u8], at: usize) -> (r: u64)
    requires
        at + 8 <= b.len(),
    ensures
        r as nat == be_value(b@.subrange(at as int, at + 8)),
{
    let mut acc: u64 = 0;
    let mut k: usize = 0;
    assert(b@.subrange(at as int, at as int) =~= Seq::<u8>::empty());
    while k < 8
        invariant
            at + 8 <= b.len(),
            k <= 8,
            acc as nat == be_value(b@.subrange(at as int, at + k)),
            acc < pow256(k as nat),
        decreases 8 - k,
    {
        proof {
            reveal_with_fuel(pow256, 9);
        }
        assert(b@.subrange(at as int, at + k + 1).drop_last() =~= b@.subrange(at as int, at + k));
        acc = acc * 256 + b[at + k] as u64;
        k = k + 1;
    }
    acc
}

pub fn push_u8s(out: &mut Vec<u8>, b: &[u8])
    ensures
        final(out)@ == old(out)@ + b@,
{
    let ghost start = out@;
    let mut j: usize = 0;
    while j < b.len()
        invariant
            j <= b.len(),
            out@ == start + b@.subrange(0, j as int),
        decreases b.len() - j,
    {
        out.push(b[j]);
        assert(b@.subrange(0, j + 1) =~= b@.subrange(0, j as int).push(b@[j as int]));
        j = j + 1;
    }
    assert(b@.subrange(0, j as int) =~= b@);
}

/// Appends the low `width` bytes of `n`, most significant first.
fn push_be(out: &mut Vec<u8>, n: u64, width: usize)
    requires
        width <= 8,
    ensures
        final(out)@ == old(out)@ + be_bytes(n as nat, width as nat),
    decreases width,
{
    if width > 0 {
        push_be(out, n / 256, width - 1);
        out.push((n % 256) as u8);
    }
}

pub fn push_u16(out: &mut Vec<u8>, n: u16)
    ensures
        final(out)@ == old(out)@ + be_bytes(n as nat, 2),
{
    push_be(out, n as u64, 2);
}

pub fn push_u32(out: &mut Vec<u8>, n: u32)
    ensures
        final(out)@ == old(out)@ + be_bytes(n as nat, 4),
{
    push_be(out, n as u64, 4);
}

pub fn push_u64(out: &mut Vec<u8>, n: u64)
    ensures
        final(out)@ == old(out)@ + be_bytes(n as nat, 8),
{
    push_be(out, n, 8);
}

/// A record written to the wire.
pub trait ToByte {
    /// The bytes of the record.
    spec fn wire(&self) -> Seq<u8>;

    fn to_be_bytes(&self) -> (r: Vec<u8>)
        ensures
            r@ == self.wire(),
    ;
}

/// A record read from the wire.
pub trait FromByte: Sized {
    /// `r` is what `bytes` read as: a record, or `None` where they are no
    /// such record.
    spec fn read_as(bytes: Seq<u8>, r: Option<Self>) -> bool;

    fn from_be_bytes(bytes: &[u8]) -> (r: Option<Self>)
        ensures
            Self::read_as(bytes@, r),
    ;
}

} // verus!
