//! Bencoding: a spec decoder over bytes, the executable decoder proved equal
//! to it, and the encoder.
use vstd::prelude::*;

use crate::Error;

verus! {

pub const INTEGER_START: u8 = 105;
pub const LIST_START: u8 = 108;
pub const DICTIONARY_START: u8 = 100;
pub const END: u8 = 101;
pub const COLON: u8 = 58;
pub const MINUS: u8 = 45;

pub open spec fn is_digit(b: u8) -> bool {
    48 <= b <= 57
}

/// How many decimal digits start at `i`.
pub open spec fn digit_run(s: Seq<u8>, i: int) -> nat
    decreases s.len() - i,
{
    if 0 <= i < s.len() && is_digit(s[i]) {
        1 + digit_run(s, i + 1)
    } else {
        0
    }
}

/// The number that a run of decimal digits writes.
pub open spec fn digits_value(d: Seq<u8>) -> nat
    decreases d.len(),
{
    if d.len() == 0 {
        0
    } else {
        digits_value(d.drop_last()) * 10 + (d.last() - 48) as nat
    }
}

/// A natural number at `i`: at least one digit, and no leading zero unless
/// it is `0` itself. Gives the number and the position after it.
pub open spec fn canonical_nat(s: Seq<u8>, i: int) -> Option<(nat, int)> {
    let k = digit_run(s, i);
    if k == 0 || (k > 1 && s[i] == 48) {
        None
    } else {
        Some((digits_value(s.subrange(i, i + k)), i + k))
    }
}

proof fn lemma_digit_run_exact(s: Seq<u8>, i: int, j: int)
    requires
        0 <= i <= j <= s.len(),
        forall|k: int| i <= k < j ==> is_digit(#[trigger] s[k]),
        j == s.len() || !is_digit(s[j]),
    ensures
        digit_run(s, i) == j - i,
    decreases j - i,
{
    if i < j {
        lemma_digit_run_exact(s, i + 1, j);
    }
}

proof fn lemma_digits_value_monotone(s: Seq<u8>, i: int, m: int, k: int)
    requires
        0 <= i <= m <= k <= s.len(),
    ensures
        digits_value(s.subrange(i, m)) <= digits_value(s.subrange(i, k)),
    decreases k - m,
{
    if m < k {
        lemma_digits_value_monotone(s, i, m, k - 1);
        assert(s.subrange(i, k).drop_last() =~= s.subrange(i, k - 1));
    }
}

/// Reads a canonical natural number at `i` that is at most `bound`.
pub fn get_natural(s: &[u8], i: usize, bound: u64) -> (r: Option<(u64, usize)>)
    ensures
        match r {
            Some((n, j)) => canonical_nat(s@, i as int) == Some((n as nat, j as int)) && n <= bound,
            None => match canonical_nat(s@, i as int) {
                Some((n, _)) => n > bound,
                None => true,
            },
        },
        canonical_nat(s@, i as int) matches Some((n, j)) ==> i < j <= s.len(),
{
    if i > s.len() {
        return None;
    }
    proof {
        lemma_digit_run_bound(s@, i as int);
    }
    let mut j: usize = i;
    let mut acc: u64 = 0;
    assert(s@.subrange(i as int, i as int) =~= Seq::<u8>::empty());
    while j < s.len() && s[j] >= 48 && s[j] <= 57
        invariant
            i <= j <= s.len(),
            forall|k: int| i <= k < j ==> is_digit(#[trigger] s@[k]),
            acc as nat == digits_value(s@.subrange(i as int, j as int)),
            acc <= bound,
        decreases s.len() - j,
    {
        let next: u128 = acc as u128 * 10 + (s[j] - 48) as u128;
        assert(s@.subrange(i as int, j + 1).drop_last() =~= s@.subrange(i as int, j as int));
        if next > bound as u128 {
            proof {
                let full = i + digit_run(s@, i as int);
                assert forall|k: int| j < k < full implies is_digit(#[trigger] s@[k]) by {
                    lemma_digit_run_digits(s@, i as int, k);
                }
                lemma_digit_run_at_least(s@, i as int, j as int + 1);
                lemma_digit_run_bound(s@, i as int);
                lemma_digits_value_monotone(s@, i as int, j + 1, full);
            }
            return None;
        }
        acc = next as u64;
        j = j + 1;
    }
    proof {
        lemma_digit_run_exact(s@, i as int, j as int);
    }
    if j == i || (j - i > 1 && s[i] == 48) {
        None
    } else {
        Some((acc, j))
    }
}

proof fn lemma_digit_run_digits(s: Seq<u8>, i: int, k: int)
    requires
        0 <= i <= k < i + digit_run(s, i),
    ensures
        is_digit(s[k]),
        k < s.len(),
    decreases k - i,
{
    if i < k {
        lemma_digit_run_digits(s, i + 1, k);
    }
}

proof fn lemma_digit_run_bound(s: Seq<u8>, i: int)
    requires
        0 <= i <= s.len(),
    ensures
        i + digit_run(s, i) <= s.len(),
    decreases s.len() - i,
{
    if i < s.len() {
        lemma_digit_run_bound(s, i + 1);
    }
}

proof fn lemma_digit_run_at_least(s: Seq<u8>, i: int, j: int)
    requires
        0 <= i <= j <= s.len(),
        forall|k: int| i <= k < j ==> is_digit(#[trigger] s[k]),
    ensures
        i + digit_run(s, i) >= j,
    decreases j - i,
{
    if i < j {
        lemma_digit_run_at_least(s, i + 1, j);
    }
}


/// The mathematical model of a bencoded value.
pub enum Bencode {
    Int(int),
    Bytes(Seq<u8>),
    List(Seq<Bencode>),
    /// Entries in the order in which they stand in the source.
    Dict(Seq<(Seq<u8>, Bencode)>),
    /// The value of a `pieces` key: 20-byte digests.
    Pieces(Seq<Seq<u8>>),
    /// The value of a `peers` key: 6-byte compact peer entries.
    Peers(Seq<Seq<u8>>),
}

/// A bencoded value. Byte strings hold raw octets; a dictionary keeps its
/// entries in the order of the source.
#[derive(Debug)]
pub enum Value {
    Number(i64),
    Str(Vec<u8>),
    Dict(Vec<Entry>),
    List(Vec<Value>),
    Hashes(Vec<[u8; 20]>),
    Peers(Vec<[u8; 6]>),
}

/// One dictionary entry: a byte-string key and its value.
#[derive(Debug)]
pub struct Entry {
    pub key: Vec<u8>,
    pub value: Value,
}

impl View for Value {
    type V = Bencode;

    open spec fn view(&self) -> Bencode
        decreases self,
    {
        match self {
            Value::Number(n) => Bencode::Int(*n as int),
            Value::Str(b) => Bencode::Bytes(b@),
            Value::Dict(d) => {
                let keys = Seq::new(d.len() as nat, |k: int| d@[k].key@);
                let vals = Seq::new(
                    d.len() as nat,
                    |k: int|
                        if 0 <= k < d.len() {
                            d@[k].value.view()
                        } else {
                            Bencode::Int(0)
                        },
                );
                Bencode::Dict(Seq::new(d.len() as nat, |k: int| (keys[k], vals[k])))
            },
            Value::List(l) => Bencode::List(
                Seq::new(
                    l.len() as nat,
                    |k: int|
                        if 0 <= k < l.len() {
                            l@[k].view()
                        } else {
                            Bencode::Int(0)
                        },
                ),
            ),
            Value::Hashes(h) => Bencode::Pieces(Seq::new(h.len() as nat, |k: int| h@[k]@)),
            Value::Peers(p) => Bencode::Peers(Seq::new(p.len() as nat, |k: int| p@[k]@)),
        }
    }
}

/// The views of a sequence of values.
pub open spec fn views(l: Seq<Value>) -> Seq<Bencode> {
    Seq::new(l.len(), |k: int| l[k]@)
}

/// The views of a sequence of dictionary entries.
pub open spec fn entry_views(d: Seq<Entry>) -> Seq<(Seq<u8>, Bencode)> {
    Seq::new(d.len(), |k: int| (d[k].key@, d[k].value@))
}

/// `b` cut into consecutive pieces of `w` bytes.
pub open spec fn chunks(b: Seq<u8>, w: nat) -> Seq<Seq<u8>>
    recommends
        w > 0,
{
    Seq::new(b.len() / w, |k: int| b.subrange(k * w, k * w + w))
}

pub open spec fn pieces_key() -> Seq<u8> {
    seq![112u8, 105, 101, 99, 101, 115]
}

pub open spec fn peers_key() -> Seq<u8> {
    seq![112u8, 101, 101, 114, 115]
}

/// An integer `i<n>e` at `i`: a signed number, then `e`.
pub open spec fn spec_int(s: Seq<u8>, i: int) -> Option<(Bencode, int)> {
    if !(0 <= i < s.len() && s[i] == INTEGER_START) {
        None
    } else {
        match spec_signed(s, i + 1) {
            Some((n, j)) => if j < s.len() && s[j] == END {
                Some((Bencode::Int(n), j + 1))
            } else {
                None
            },
            None => None,
        }
    }
}

/// A byte string `<n>:<n bytes>` at `i`: its bytes and the position after it.
pub open spec fn spec_bytes(s: Seq<u8>, i: int) -> Option<(Seq<u8>, int)> {
    match canonical_nat(s, i) {
        Some((n, j)) => if j < s.len() && s[j] == COLON && j + 1 + n <= s.len() {
            Some((s.subrange(j + 1, j + 1 + n), j + 1 + n))
        } else {
            None
        },
        None => None,
    }
}

/// The value of a dictionary entry with key `key` at `j`: a byte string
/// under `pieces` or `peers` is read as digests or compact peers.
pub open spec fn spec_field(s: Seq<u8>, j: int, key: Seq<u8>) -> Option<(Bencode, int)>
    decreases s.len() - j, 2nat,
{
    if 0 <= j < s.len() && is_digit(s[j]) && key == pieces_key() {
        match spec_bytes(s, j) {
            Some((b, k)) => if b.len() % 20 == 0 {
                Some((Bencode::Pieces(chunks(b, 20)), k))
            } else {
                None
            },
            None => None,
        }
    } else if 0 <= j < s.len() && is_digit(s[j]) && key == peers_key() {
        match spec_bytes(s, j) {
            Some((b, k)) => if b.len() % 6 == 0 {
                Some((Bencode::Peers(chunks(b, 6)), k))
            } else {
                None
            },
            None => None,
        }
    } else {
        spec_value(s, j)
    }
}

/// The value whose encoding starts at `i`, and the position after it.
pub open spec fn spec_value(s: Seq<u8>, i: int) -> Option<(Bencode, int)>
    decreases s.len() - i, 0nat,
{
    if !(0 <= i < s.len()) {
        None
    } else if s[i] == INTEGER_START {
        spec_int(s, i)
    } else if s[i] == LIST_START {
        match spec_items(s, i + 1) {
            Some((vs, j)) => Some((Bencode::List(vs), j)),
            None => None,
        }
    } else if s[i] == DICTIONARY_START {
        match spec_entries(s, i + 1) {
            Some((es, j)) => Some((Bencode::Dict(es), j)),
            None => None,
        }
    } else {
        match spec_bytes(s, i) {
            Some((b, j)) => Some((Bencode::Bytes(b), j)),
            None => None,
        }
    }
}

/// The items of a list from `i` up to and past its `e`.
pub open spec fn spec_items(s: Seq<u8>, i: int) -> Option<(Seq<Bencode>, int)>
    decreases s.len() - i, 1nat,
{
    if !(0 <= i < s.len()) {
        None
    } else if s[i] == END {
        Some((Seq::empty(), i + 1))
    } else {
        match spec_value(s, i) {
            Some((v, j)) => if i < j <= s.len() {
                match spec_items(s, j) {
                    Some((vs, k)) => Some((seq![v] + vs, k)),
                    None => None,
                }
            } else {
                None
            },
            None => None,
        }
    }
}

/// The entries of a dictionary from `i` up to and past its `e`.
pub open spec fn spec_entries(s: Seq<u8>, i: int) -> Option<(Seq<(Seq<u8>, Bencode)>, int)>
    decreases s.len() - i, 1nat,
{
    if !(0 <= i < s.len()) {
        None
    } else if s[i] == END {
        Some((Seq::empty(), i + 1))
    } else {
        match spec_bytes(s, i) {
            Some((key, j)) => if i < j <= s.len() {
                match spec_field(s, j, key) {
                    Some((v, m)) => if j < m <= s.len() {
                        match spec_entries(s, m) {
                            Some((es, e)) => Some((seq![(key, v)] + es, e)),
                            None => None,
                        }
                    } else {
                        None
                    },
                    None => None,
                }
            } else {
                None
            },
            None => None,
        }
    }
}


/// `r` is the executable outcome of the spec parse `spec`: `Ok` exactly when
/// the spec parse succeeds, with the same value and end; else `Malformed`.
pub open spec fn decoded(r: Result<(Value, usize), Error>, spec: Option<(Bencode, int)>) -> bool {
    match r {
        Ok((v, j)) => spec == Some((v@, j as int)),
        Err(e) => spec is None && e == Error::Malformed,
    }
}

/// A signed number at `i`: an optional `-`, then a canonical natural, up
/// to the first byte that is no digit; `-0` is refused, and the value must
/// fit in 64 signed bits. Gives the value and the position after it.
pub open spec fn spec_signed(s: Seq<u8>, i: int) -> Option<(int, int)> {
    let neg = 0 <= i < s.len() && s[i] == MINUS;
    let start = if neg { i + 1 } else { i };
    match canonical_nat(s, start) {
        Some((n, j)) => if !(neg && n == 0) && (if neg {
            n <= 0x8000_0000_0000_0000
        } else {
            n <= 0x7fff_ffff_ffff_ffff
        }) {
            Some((if neg { -n } else { n as int }, j))
        } else {
            None
        },
        None => None,
    }
}

/// Reads a signed number at `i`: an optional `-` and the digits up to the
/// first byte that is no digit.
pub fn get_next_number(s: &[u8], i: usize) -> (r: Option<(i64, usize)>)
    ensures
        match r {
            Some((n, j)) => spec_signed(s@, i as int) == Some((n as int, j as int)),
            None => spec_signed(s@, i as int) is None,
        },
{
    let neg = i < s.len() && s[i] == MINUS;
    let start = if neg { i + 1 } else { i };
    let bound: u64 = if neg { 0x8000_0000_0000_0000 } else { 0x7fff_ffff_ffff_ffff };
    match get_natural(s, start, bound) {
        Some((n, j)) => {
            if neg && n == 0 {
                None
            } else if !neg {
                Some((n as i64, j))
            } else if n == 0x8000_0000_0000_0000 {
                Some((i64::MIN, j))
            } else {
                Some((-(n as i64), j))
            }
        },
        None => None,
    }
}

/// Reads an integer `i<n>e` at `i`.
pub fn parse_number(s: &[u8], i: usize) -> (r: Result<(Value, usize), Error>)
    requires
        i < s.len(),
        s@[i as int] == INTEGER_START,
    ensures
        decoded(r, spec_int(s@, i as int)),
{
    match get_next_number(s, i + 1) {
        Some((n, j)) => {
            if j < s.len() && s[j] == END {
                Ok((Value::Number(n), j + 1))
            } else {
                Err(Error::Malformed)
            }
        },
        None => Err(Error::Malformed),
    }
}

/// Reads a byte string `<n>:<bytes>` at `i`.
pub fn get_string(s: &[u8], i: usize) -> (r: Result<(Vec<u8>, usize), Error>)
    ensures
        match r {
            Ok((b, j)) => spec_bytes(s@, i as int) == Some((b@, j as int)),
            Err(e) => spec_bytes(s@, i as int) is None && e == Error::Malformed,
        },
{
    match get_natural(s, i, s.len() as u64) {
        Some((n, j)) => {
            if j < s.len() && s[j] == COLON && n as usize <= s.len() - (j + 1) {
                let start = j + 1;
                let end = start + n as usize;
                let b = vstd::slice::slice_to_vec(vstd::slice::slice_subrange(s, start, end));
                Ok((b, end))
            } else {
                Err(Error::Malformed)
            }
        },
        None => Err(Error::Malformed),
    }
}

fn copy_hash(b: &[u8], at: usize) -> (r: [u8; 20])
    requires
        at + 20 <= b.len(),
    ensures
        r@ == b@.subrange(at as int, at + 20),
{
    let r = [
        b[at], b[at + 1], b[at + 2], b[at + 3], b[at + 4], b[at + 5], b[at + 6], b[at + 7],
        b[at + 8], b[at + 9], b[at + 10], b[at + 11], b[at + 12], b[at + 13], b[at + 14],
        b[at + 15], b[at + 16], b[at + 17], b[at + 18], b[at + 19],
    ];
    assert(r@ =~= b@.subrange(at as int, at + 20));
    r
}

fn copy_peer(b: &[u8], at: usize) -> (r: [u8; 6])
    requires
        at + 6 <= b.len(),
    ensures
        r@ == b@.subrange(at as int, at + 6),
{
    let r = [b[at], b[at + 1], b[at + 2], b[at + 3], b[at + 4], b[at + 5]];
    assert(r@ =~= b@.subrange(at as int, at + 6));
    r
}


pub(crate) fn key_is(k: &Vec<u8>, lit: &[u8]) -> (r: bool)
    ensures
        r == (k@ == lit@),
{
    if k.len() != lit.len() {
        return false;
    }
    let mut j: usize = 0;
    while j < k.len()
        invariant
            k.len() == lit.len(),
            j <= k.len(),
            forall|m: int| 0 <= m < j ==> k@[m] == lit@[m],
        decreases k.len() - j,
    {
        if k[j] != lit[j] {
            return false;
        }
        j = j + 1;
    }
    assert(k@ =~= lit@);
    true
}

/// Reads a byte string at `i` whose length is a multiple of 20, as digests.
pub fn parse_hashes(s: &[u8], i: usize) -> (r: Result<(Vec<[u8; 20]>, usize), Error>)
    ensures
        match r {
            Ok((h, j)) => spec_bytes(s@, i as int) matches Some((b, k)) && b.len() % 20 == 0
                && h.len() * 20 == b.len() && Seq::new(h.len() as nat, |m: int| h@[m]@) == chunks(
                b,
                20,
            ) && j == k,
            Err(e) => e == Error::Malformed && match spec_bytes(s@, i as int) {
                Some((b, _)) => b.len() % 20 != 0,
                None => true,
            },
        },
{
    let (b, end) = get_string(s, i)?;
    if b.len() % 20 != 0 {
        return Err(Error::Malformed);
    }
    let mut out: Vec<[u8; 20]> = Vec::new();
    let mut at: usize = 0;
    while at < b.len()
        invariant
            b.len() % 20 == 0,
            at % 20 == 0,
            at <= b.len(),
            out.len() == at / 20,
            forall|m: int| 0 <= m < out.len() ==> (#[trigger] out@[m])@ == b@.subrange(m * 20, m * 20 + 20),
        decreases b.len() - at,
    {
        out.push(copy_hash(b.as_slice(), at));
        at = at + 20;
    }
    assert(Seq::new(out.len() as nat, |m: int| out@[m]@) =~= chunks(b@, 20));
    Ok((out, end))
}

/// Reads a byte string at `i` whose length is a multiple of 6, as compact
/// peer entries.
pub fn parse_peers(s: &[u8], i: usize) -> (r: Result<(Vec<[u8; 6]>, usize), Error>)
    ensures
        match r {
            Ok((p, j)) => spec_bytes(s@, i as int) matches Some((b, k)) && b.len() % 6 == 0
                && p.len() * 6 == b.len() && Seq::new(p.len() as nat, |m: int| p@[m]@) == chunks(
                b,
                6,
            ) && j == k,
            Err(e) => e == Error::Malformed && match spec_bytes(s@, i as int) {
                Some((b, _)) => b.len() % 6 != 0,
                None => true,
            },
        },
{
    let (b, end) = get_string(s, i)?;
    if b.len() % 6 != 0 {
        return Err(Error::Malformed);
    }
    let mut out: Vec<[u8; 6]> = Vec::new();
    let mut at: usize = 0;
    while at < b.len()
        invariant
            b.len() % 6 == 0,
            at % 6 == 0,
            at <= b.len(),
            out.len() == at / 6,
            forall|m: int| 0 <= m < out.len() ==> (#[trigger] out@[m])@ == b@.subrange(m * 6, m * 6 + 6),
        decreases b.len() - at,
    {
        out.push(copy_peer(b.as_slice(), at));
        at = at + 6;
    }
    assert(Seq::new(out.len() as nat, |m: int| out@[m]@) =~= chunks(b@, 6));
    Ok((out, end))
}

/// Reads the value of a dictionary entry whose key is `key`.
pub(crate) fn parse_field(s: &[u8], j: usize, key: &Vec<u8>) -> (r: Result<(Value, usize), Error>)
    ensures
        decoded(r, spec_field(s@, j as int, key@)),
    decreases s.len() - j, 2nat,
{
    let digit = j < s.len() && s[j] >= 48 && s[j] <= 57;
    let pieces: [u8; 6] = [112, 105, 101, 99, 101, 115];
    let peers: [u8; 5] = [112, 101, 101, 114, 115];
    assert(pieces@ =~= pieces_key());
    assert(peers@ =~= peers_key());
    if digit && key_is(key, pieces.as_slice()) {
        let (h, k) = parse_hashes(s, j)?;
        let v = Value::Hashes(h);
        Ok((v, k))
    } else if digit && key_is(key, peers.as_slice()) {
        let (p, k) = parse_peers(s, j)?;
        Ok((Value::Peers(p), k))
    } else {
        parse_next(s, j)
    }
}

/// Reads the value whose encoding starts at `i`.
pub fn parse_next(s: &[u8], i: usize) -> (r: Result<(Value, usize), Error>)
    ensures
        decoded(r, spec_value(s@, i as int)),
    decreases s.len() - i, 1nat,
{
    if i >= s.len() {
        Err(Error::Malformed)
    } else if s[i] == INTEGER_START {
        parse_number(s, i)
    } else if s[i] == LIST_START {
        parse_list(s, i)
    } else if s[i] == DICTIONARY_START {
        parse_dictionary(s, i)
    } else {
        let (b, j) = get_string(s, i)?;
        Ok((Value::Str(b), j))
    }
}

/// Reads a list `l<items>e` at `i`.
pub fn parse_list(s: &[u8], i: usize) -> (r: Result<(Value, usize), Error>)
    requires
        i < s.len(),
        s@[i as int] == LIST_START,
    ensures
        decoded(r, spec_value(s@, i as int)),
    decreases s.len() - i, 0nat,
{
    let mut items: Vec<Value> = Vec::new();
    let mut j: usize = i + 1;
    assert(views(items@) + Seq::<Bencode>::empty() =~= Seq::<Bencode>::empty());
    loop
        invariant
            i < j <= s.len(),
            s@[i as int] == LIST_START,
            spec_items(s@, i + 1) == (match spec_items(s@, j as int) {
                Some((vs, k)) => Some((views(items@) + vs, k)),
                None => None,
            }),
        decreases s.len() - j,
    {
        proof {
            lemma_value_list(s@, i as int);
        }
        if j >= s.len() {
            assert(spec_items(s@, j as int) is None);
            return Err(Error::Malformed);
        }
        if s[j] == END {
            assert(views(items@) + Seq::<Bencode>::empty() =~= views(items@));
            proof {
                lemma_view_list(items);
            }
            let v = Value::List(items);
            return Ok((v, j + 1));
        }
        let (v, k) = match parse_next(s, j) {
            Ok(p) => p,
            Err(e) => {
                assert(spec_items(s@, j as int) is None);
                return Err(e);
            },
        };
        if k <= j || k > s.len() {
            assert(spec_items(s@, j as int) is None);
            return Err(Error::Malformed);
        }
        let ghost before = views(items@);
        items.push(v);
        assert(views(items@) =~= before.push(v@));
        proof {
            match spec_items(s@, k as int) {
                Some((vs, e)) => {
                    assert(before + (seq![v@] + vs) =~= views(items@) + vs);
                },
                None => {},
            }
        }
        j = k;
    }
}

/// Reads a dictionary `d<key value ...>e` at `i`, keeping the entries in the
/// order of the source.
pub fn parse_dictionary(s: &[u8], i: usize) -> (r: Result<(Value, usize), Error>)
    requires
        i < s.len(),
        s@[i as int] == DICTIONARY_START,
    ensures
        decoded(r, spec_value(s@, i as int)),
    decreases s.len() - i, 0nat,
{
    let mut entries: Vec<Entry> = Vec::new();
    let mut j: usize = i + 1;
    assert(entry_views(entries@) + Seq::<(Seq<u8>, Bencode)>::empty() =~= Seq::<(Seq<u8>, Bencode)>::empty());
    loop
        invariant
            i < j <= s.len(),
            s@[i as int] == DICTIONARY_START,
            spec_entries(s@, i + 1) == (match spec_entries(s@, j as int) {
                Some((es, k)) => Some((entry_views(entries@) + es, k)),
                None => None,
            }),
        decreases s.len() - j,
    {
        proof {
            lemma_value_dict(s@, i as int);
        }
        if j >= s.len() {
            assert(spec_entries(s@, j as int) is None);
            return Err(Error::Malformed);
        }
        if s[j] == END {
            assert(entry_views(entries@) + Seq::<(Seq<u8>, Bencode)>::empty() =~= entry_views(entries@));
            proof {
                lemma_view_dict(entries);
            }
            let v = Value::Dict(entries);
            return Ok((v, j + 1));
        }
        let (key, m) = match get_string(s, j) {
            Ok(p) => p,
            Err(e) => {
                assert(spec_entries(s@, j as int) is None);
                return Err(e);
            },
        };
        if m <= j || m > s.len() {
            assert(spec_entries(s@, j as int) is None);
            return Err(Error::Malformed);
        }
        let (v, k) = match parse_field(s, m, &key) {
            Ok(p) => p,
            Err(e) => {
                assert(spec_entries(s@, j as int) is None);
                return Err(e);
            },
        };
        if k <= m || k > s.len() {
            assert(spec_entries(s@, j as int) is None);
            return Err(Error::Malformed);
        }
        let ghost before = entry_views(entries@);
        let ghost kv = (key@, v@);
        entries.push(Entry { key, value: v });
        assert(entry_views(entries@) =~= before.push(kv));
        proof {
            match spec_entries(s@, k as int) {
                Some((es, e)) => {
                    assert(before + (seq![kv] + es) =~= entry_views(entries@) + es);
                },
                None => {},
            }
        }
        j = k;
    }
}



pub(crate) proof fn lemma_view_list(l: Vec<Value>)
    ensures
        Value::List(l)@ == Bencode::List(views(l@)),
{
    let v = Value::List(l);
    assert(v@->List_0 =~= views(l@));
}

pub(crate) proof fn lemma_view_dict(d: Vec<Entry>)
    ensures
        Value::Dict(d)@ == Bencode::Dict(entry_views(d@)),
{
    let v = Value::Dict(d);
    assert(v@->Dict_0 =~= entry_views(d@));
}

proof fn lemma_value_list(s: Seq<u8>, i: int)
    requires
        0 <= i < s.len(),
        s[i] == LIST_START,
    ensures
        spec_value(s, i) == (match spec_items(s, i + 1) {
            Some((vs, j)) => Some((Bencode::List(vs), j)),
            None => None,
        }),
{
}

proof fn lemma_value_dict(s: Seq<u8>, i: int)
    requires
        0 <= i < s.len(),
        s[i] == DICTIONARY_START,
    ensures
        spec_value(s, i) == (match spec_entries(s, i + 1) {
            Some((es, j)) => Some((Bencode::Dict(es), j)),
            None => None,
        }),
{
}


/// The decimal digits of `n`, most significant first, without leading zeros.
pub open spec fn nat_digits(n: nat) -> Seq<u8>
    decreases n,
{
    if n < 10 {
        seq![(48 + n) as u8]
    } else {
        nat_digits(n / 10).push((48 + n % 10) as u8)
    }
}

/// The decimal text of an integer, with `-` before a negative one.
pub open spec fn int_digits(n: int) -> Seq<u8> {
    if n < 0 {
        seq![MINUS] + nat_digits((-n) as nat)
    } else {
        nat_digits(n as nat)
    }
}

/// The encoding of a byte string: its length, `:`, its bytes.
pub open spec fn encode_bytes(b: Seq<u8>) -> Seq<u8> {
    nat_digits(b.len()) + seq![COLON] + b
}

/// The byte strings of `ps`, one after the other.
pub open spec fn flatten(ps: Seq<Seq<u8>>) -> Seq<u8>
    decreases ps.len(),
{
    if ps.len() == 0 {
        Seq::empty()
    } else {
        flatten(ps.drop_last()) + ps.last()
    }
}

/// The canonical encoding of a value: integers without leading zeros, and
/// dictionary entries by key in strictly ascending byte order, the first
/// entry of a repeated key only.
pub open spec fn spec_encode(v: Bencode) -> Seq<u8>
    decreases v,
{
    match v {
        Bencode::Int(n) => seq![INTEGER_START] + int_digits(n) + seq![END],
        Bencode::Bytes(b) => encode_bytes(b),
        Bencode::List(vs) => seq![LIST_START] + encode_items(vs) + seq![END],
        Bencode::Dict(es) => seq![DICTIONARY_START] + concat_ordered(
            encoded_entries(es),
            canonical_order(keys_of(es), es.len()),
        ) + seq![END],
        Bencode::Pieces(ps) => encode_bytes(flatten(ps)),
        Bencode::Peers(ps) => encode_bytes(flatten(ps)),
    }
}

pub open spec fn encode_items(vs: Seq<Bencode>) -> Seq<u8>
    decreases vs,
{
    if vs.len() == 0 {
        Seq::empty()
    } else {
        encode_items(vs.drop_last()) + spec_encode(vs.last())
    }
}

/// Each entry's key and the encoding of its value.
pub open spec fn encoded_entries(es: Seq<(Seq<u8>, Bencode)>) -> Seq<(Seq<u8>, Seq<u8>)>
    decreases es,
{
    if es.len() == 0 {
        Seq::empty()
    } else {
        encoded_entries(es.drop_last()).push((es.last().0, spec_encode(es.last().1)))
    }
}

/// The entries in the order held, each key then its value.
pub open spec fn encode_entries(es: Seq<(Seq<u8>, Bencode)>) -> Seq<u8>
    decreases es,
{
    if es.len() == 0 {
        Seq::empty()
    } else {
        encode_entries(es.drop_last()) + encode_bytes(es.last().0) + spec_encode(es.last().1)
    }
}


/// Appends the decimal digits of `n`.
pub fn push_decimal(n: u64, out: &mut Vec<u8>)
    ensures
        final(out)@ == old(out)@ + nat_digits(n as nat),
    decreases n,
{
    if n >= 10 {
        push_decimal(n / 10, out);
    }
    out.push(48 + (n % 10) as u8);
    proof {
        if n >= 10 {
            assert(nat_digits(n as nat) == nat_digits((n / 10) as nat).push((48 + n % 10) as u8));
        }
    }
}

/// Appends `i<n>e`.
pub fn encode_number(number: i64, out: &mut Vec<u8>)
    ensures
        final(out)@ == old(out)@ + spec_encode(Bencode::Int(number as int)),
{
    out.push(INTEGER_START);
    if number < 0 {
        out.push(MINUS);
        let magnitude: u64 = (0 - (number as i128)) as u64;
        push_decimal(magnitude, out);
    } else {
        push_decimal(number as u64, out);
    }
    out.push(END);
}

/// Appends `<length>:<bytes>`.
pub fn encode_string(string: &[u8], out: &mut Vec<u8>)
    ensures
        final(out)@ == old(out)@ + encode_bytes(string@),
{
    push_decimal(string.len() as u64, out);
    out.push(COLON);
    let mut j: usize = 0;
    let ghost start = out@;
    while j < string.len()
        invariant
            j <= string.len(),
            out@ == start + string@.subrange(0, j as int),
        decreases string.len() - j,
    {
        out.push(string[j]);
        assert(string@.subrange(0, j + 1) =~= string@.subrange(0, j as int).push(string@[j as int]));
        j = j + 1;
    }
    assert(string@.subrange(0, j as int) =~= string@);
}

fn flat_hashes<const N: usize>(h: &Vec<[u8; N]>) -> (r: Vec<u8>)
    ensures
        r@ == flatten(Seq::new(h.len() as nat, |m: int| h@[m]@)),
{
    let mut r: Vec<u8> = Vec::new();
    let mut k: usize = 0;
    while k < h.len()
        invariant
            k <= h.len(),
            r@ == flatten(Seq::new(k as nat, |m: int| h@[m]@)),
        decreases h.len() - k,
    {
        let ghost before = r@;
        let item: &[u8; N] = &h[k];
        let mut j: usize = 0;
        while j < N
            invariant
                j <= N,
                item@.len() == N,
                r@ == before + item@.subrange(0, j as int),
            decreases N - j,
        {
            r.push(item[j]);
            assert(item@.subrange(0, j + 1) =~= item@.subrange(0, j as int).push(item@[j as int]));
            j = j + 1;
        }
        assert(item@.subrange(0, N as int) =~= item@);
        assert(Seq::new((k + 1) as nat, |m: int| h@[m]@).drop_last() =~= Seq::new(k as nat, |m: int| h@[m]@));
        k = k + 1;
    }
    r
}

/// Appends the digests as one byte string.
pub fn encode_hashes(hashes: &Vec<[u8; 20]>, out: &mut Vec<u8>)
    ensures
        final(out)@ == old(out)@ + spec_encode(Value::Hashes(*hashes)@),
{
    let flat = flat_hashes(hashes);
    encode_string(flat.as_slice(), out);
}

/// Appends the compact peers as one byte string.
pub fn encode_peers(peers: &Vec<[u8; 6]>, out: &mut Vec<u8>)
    ensures
        final(out)@ == old(out)@ + spec_encode(Value::Peers(*peers)@),
{
    let flat = flat_hashes(peers);
    encode_string(flat.as_slice(), out);
}


/// Appends `l<items>e`.
pub fn encode_list(l: &Vec<Value>, out: &mut Vec<u8>)
    ensures
        final(out)@ == old(out)@ + spec_encode(Bencode::List(views(l@))),
    decreases l, 0nat,
{
    out.push(LIST_START);
    let ghost start = out@;
    let mut k: usize = 0;
    while k < l.len()
        invariant
            k <= l.len(),
            out@ == start + encode_items(views(l@.subrange(0, k as int))),
        decreases l.len() - k,
    {
        assert(decreases_to!(l => l[k as int]));
        encode_into(&l[k], out);
        assert(views(l@.subrange(0, k + 1)).drop_last() =~= views(l@.subrange(0, k as int)));
        k = k + 1;
    }
    assert(l@.subrange(0, k as int) =~= l@);
    out.push(END);
}

pub open spec fn order_view(order: Seq<usize>) -> Seq<int> {
    Seq::new(order.len(), |m: int| order[m] as int)
}

/// The order in which a dictionary's entries are written: by key, strictly
/// ascending, the first entry of each key only.
fn dictionary_order(d: &Vec<Entry>) -> (r: Vec<usize>)
    ensures
        order_view(r@) == canonical_order(keys_of(entry_views(d@)), d.len() as nat),
        forall|m: int| 0 <= m < r.len() ==> #[trigger] r@[m] < d.len(),
{
    let ghost ks = keys_of(entry_views(d@));
    let mut order: Vec<usize> = Vec::new();
    let mut k: usize = 0;
    assert(order_view(order@) =~= Seq::<int>::empty());
    while k < d.len()
        invariant
            k <= d.len(),
            ks == keys_of(entry_views(d@)),
            ks.len() == d.len(),
            order_view(order@) == canonical_order(ks, k as nat),
            forall|m: int| 0 <= m < order.len() ==> #[trigger] order@[m] < k,
        decreases d.len() - k,
    {
        assert(ks[k as int] == d@[k as int].key@);
        let mut pos: usize = 0;
        while pos < order.len() && key_less(d[order[pos]].key.as_slice(), d[k].key.as_slice())
            invariant
                k < d.len(),
                ks == keys_of(entry_views(d@)),
                ks.len() == d.len(),
                ks[k as int] == d@[k as int].key@,
                pos <= order.len(),
                forall|m: int| 0 <= m < order.len() ==> #[trigger] order@[m] < k,
                forall|j: int|
                    0 <= j < pos ==> bytes_less(
                        #[trigger] ks[order_view(order@)[j]],
                        ks[k as int],
                    ),
            decreases order.len() - pos,
        {
            assert(ks[order@[pos as int] as int] == d@[order@[pos as int] as int].key@);
            pos = pos + 1;
        }
        let ghost q = order_view(order@);
        if pos < order.len() {
            assert(ks[order@[pos as int] as int] == d@[order@[pos as int] as int].key@);
        }
        proof {
            lemma_insert_at(q, ks, k as int, pos as int);
        }
        if pos < order.len() && key_is(&d[order[pos]].key, d[k].key.as_slice()) {
        } else {
            order.insert(pos, k);
            assert(order_view(order@) =~= q.subrange(0, pos as int) + seq![k as int] + q.subrange(
                pos as int,
                q.len() as int,
            ));
        }
        k = k + 1;
    }
    order
}

/// Appends `d<key value ...>e`: the entries by key in strictly ascending
/// byte order, and of entries with the same key only the first.
pub fn encode_dictionary(d: &Vec<Entry>, out: &mut Vec<u8>)
    ensures
        final(out)@ == old(out)@ + spec_encode(Bencode::Dict(entry_views(d@))),
    decreases d, 0nat,
{
    out.push(DICTIONARY_START);
    let ghost start = out@;
    let ghost ev = entry_views(d@);
    let ghost ps = encoded_entries(ev);
    let order = dictionary_order(d);
    let ghost co = order_view(order@);
    let mut m: usize = 0;
    assert(co.subrange(0, 0) =~= Seq::<int>::empty());
    while m < order.len()
        invariant
            m <= order.len(),
            co == order_view(order@),
            ev == entry_views(d@),
            ps == encoded_entries(ev),
            forall|j: int| 0 <= j < order.len() ==> #[trigger] order@[j] < d.len(),
            out@ == start + concat_ordered(ps, co.subrange(0, m as int)),
        decreases order.len() - m,
    {
        let o = order[m];
        assert(order@[m as int] < d.len());
        let e = &d[o];
        encode_string(e.key.as_slice(), out);
        assert(decreases_to!(d => d[o as int].value));
        encode_into(&e.value, out);
        proof {
            lemma_encoded_entry(ev, o as int);
            assert(co.subrange(0, m + 1).drop_last() =~= co.subrange(0, m as int));
            assert(co.subrange(0, m + 1).last() == o as int);
        }
        m = m + 1;
    }
    assert(co.subrange(0, m as int) =~= co);
    out.push(END);
}

/// Appends the encoding of `v`.
pub fn encode_into(v: &Value, out: &mut Vec<u8>)
    ensures
        final(out)@ == old(out)@ + spec_encode(v@),
    decreases v, 1nat,
{
    match v {
        Value::Number(n) => encode_number(*n, out),
        Value::Str(b) => encode_string(b.as_slice(), out),
        Value::Dict(d) => {
            proof {
                lemma_view_dict(*d);
            }
            encode_dictionary(d, out)
        },
        Value::List(l) => {
            proof {
                lemma_view_list(*l);
            }
            encode_list(l, out)
        },
        Value::Hashes(h) => encode_hashes(h, out),
        Value::Peers(p) => encode_peers(p, out),
    }
}

/// The encoding of a value.
pub fn encode_value(value: Value) -> (r: Vec<u8>)
    ensures
        r@ == spec_encode(value@),
{
    let mut out: Vec<u8> = Vec::new();
    encode_into(&value, &mut out);
    assert(out@ =~= Seq::<u8>::empty() + spec_encode(value@));
    out
}


/// Not a digest array nor a compact peer list: those stand only under their
/// keys.
pub open spec fn plain(v: Bencode) -> bool {
    !(v is Pieces) && !(v is Peers)
}

/// What may stand under a key: digests under `pieces`, compact peers under
/// `peers` (or a value that is no byte string), anything plain elsewhere.
pub open spec fn field_ok(k: Seq<u8>, v: Bencode) -> bool {
    if k == pieces_key() {
        v is Pieces || v is Int || v is List || v is Dict
    } else if k == peers_key() {
        v is Peers || v is Int || v is List || v is Dict
    } else {
        plain(v)
    }
}

/// A value that the decoder can give and the encoder keeps: integers in 64
/// signed bits, digests of 20 bytes, peers of 6, each where its key allows
/// it, and dictionary keys in strictly ascending order.
pub open spec fn well_formed(v: Bencode) -> bool
    decreases v,
{
    match v {
        Bencode::Int(n) => i64::MIN <= n <= i64::MAX,
        Bencode::Bytes(_) => true,
        Bencode::List(vs) => forall|k: int|
            0 <= k < vs.len() ==> plain(#[trigger] vs[k]) && well_formed(vs[k]),
        Bencode::Dict(es) => keys_ascend(keys_of(es)) && forall|k: int|
            0 <= k < es.len() ==> field_ok((#[trigger] es[k]).0, es[k].1) && well_formed(es[k].1),
        Bencode::Pieces(ps) => forall|k: int| 0 <= k < ps.len() ==> (#[trigger] ps[k]).len() == 20,
        Bencode::Peers(ps) => forall|k: int| 0 <= k < ps.len() ==> (#[trigger] ps[k]).len() == 6,
    }
}

proof fn lemma_nat_digits(n: nat)
    ensures
        nat_digits(n).len() >= 1,
        forall|k: int| 0 <= k < nat_digits(n).len() ==> is_digit(#[trigger] nat_digits(n)[k]),
        digits_value(nat_digits(n)) == n,
        n >= 1 ==> nat_digits(n)[0] != 48,
        nat_digits(n).len() > 1 ==> n >= 10,
    decreases n,
{
    if n < 10 {
        let d = nat_digits(n);
        assert(d.drop_last() =~= Seq::<u8>::empty());
        assert(digits_value(d.drop_last()) == 0);
        assert(d.last() == (48 + n) as u8);
        assert(digits_value(d) == digits_value(d.drop_last()) * 10 + (d.last() - 48) as nat);
    } else {
        lemma_nat_digits(n / 10);
        let d = nat_digits(n);
        assert(d.drop_last() =~= nat_digits(n / 10));
        assert(d[0] == nat_digits(n / 10)[0]);
        assert(d.last() == (48 + n % 10) as u8);
        assert((d.last() - 48) as nat == n % 10);
        assert((n / 10) * 10 + n % 10 == n);
        assert(digits_value(d) == digits_value(d.drop_last()) * 10 + (d.last() - 48) as nat);
    }
}

proof fn lemma_canonical_nat_at(s: Seq<u8>, i: int, n: nat)
    requires
        0 <= i,
        i + nat_digits(n).len() <= s.len(),
        s.subrange(i, i + nat_digits(n).len()) == nat_digits(n),
        i + nat_digits(n).len() == s.len() || !is_digit(s[i + nat_digits(n).len()]),
    ensures
        canonical_nat(s, i) == Some((n, i + nat_digits(n).len())),
{
    let d = nat_digits(n);
    lemma_nat_digits(n);
    assert forall|k: int| i <= k < i + d.len() implies is_digit(#[trigger] s[k]) by {
        assert(s[k] == s.subrange(i, i + d.len())[k - i]);
    }
    lemma_digit_run_exact(s, i, i + d.len());
    if d.len() > 1 {
        assert(s[i] == d[0]);
    }
}

proof fn lemma_bytes_at(b: Seq<u8>, s: Seq<u8>, i: int)
    requires
        0 <= i,
        i + encode_bytes(b).len() <= s.len(),
        s.subrange(i, i + encode_bytes(b).len()) == encode_bytes(b),
    ensures
        spec_bytes(s, i) == Some((b, i + encode_bytes(b).len())),
        is_digit(s[i]),
{
    let d = nat_digits(b.len());
    lemma_nat_digits(b.len());
    let e = encode_bytes(b);
    assert(s.subrange(i, i + d.len()) =~= d) by {
        assert forall|k: int| 0 <= k < d.len() implies s.subrange(i, i + d.len())[k] == d[k] by {
            assert(s[i + k] == e[k]);
        }
    }
    assert(s[i + d.len()] == e[d.len() as int]);
    lemma_canonical_nat_at(s, i, b.len());
    assert(s.subrange(i + d.len() + 1, i + d.len() + 1 + b.len()) =~= b) by {
        assert forall|k: int| 0 <= k < b.len() implies s.subrange(
            i + d.len() + 1,
            i + d.len() + 1 + b.len(),
        )[k] == b[k] by {
            assert(s[i + d.len() + 1 + k] == e[d.len() + 1 + k]);
        }
    }
    assert(s[i] == e[0]);
}

proof fn lemma_int_at(n: int, s: Seq<u8>, i: int)
    requires
        i64::MIN <= n <= i64::MAX,
        0 <= i,
        i + spec_encode(Bencode::Int(n)).len() <= s.len(),
        s.subrange(i, i + spec_encode(Bencode::Int(n)).len()) == spec_encode(Bencode::Int(n)),
    ensures
        spec_value(s, i) == Some((Bencode::Int(n), i + spec_encode(Bencode::Int(n)).len())),
{
    let e = spec_encode(Bencode::Int(n));
    let m: nat = if n < 0 { (-n) as nat } else { n as nat };
    let d = nat_digits(m);
    lemma_nat_digits(m);
    let start = if n < 0 { i + 2 } else { i + 1 };
    assert(s[i] == e[0]);
    if n < 0 {
        assert(s[i + 1] == e[1]);
    } else {
        assert(s[i + 1] == e[1]);
        assert(e[1] == d[0]);
    }
    assert(s.subrange(start, start + d.len()) =~= d) by {
        assert forall|k: int| 0 <= k < d.len() implies s.subrange(start, start + d.len())[k]
            == d[k] by {
            assert(s[start + k] == e[start - i + k]);
        }
    }
    assert(s[start + d.len()] == e[start - i + d.len()]);
    lemma_canonical_nat_at(s, start, m);
}

proof fn lemma_encode_nonempty(v: Bencode)
    ensures
        spec_encode(v).len() > 0,
        spec_encode(v)[0] != END,
        spec_encode(v)[0] == INTEGER_START || spec_encode(v)[0] == LIST_START || spec_encode(v)[0]
            == DICTIONARY_START || is_digit(spec_encode(v)[0]),
        (v is Bytes || v is Pieces || v is Peers) <==> is_digit(spec_encode(v)[0]),
{
    match v {
        Bencode::Bytes(b) => {
            lemma_nat_digits(b.len());
        },
        Bencode::Pieces(ps) => {
            lemma_nat_digits(flatten(ps).len());
        },
        Bencode::Peers(ps) => {
            lemma_nat_digits(flatten(ps).len());
        },
        _ => {},
    }
}

proof fn lemma_encode_items_front(vs: Seq<Bencode>)
    requires
        vs.len() > 0,
    ensures
        encode_items(vs) == spec_encode(vs[0]) + encode_items(vs.drop_first()),
    decreases vs.len(),
{
    if vs.len() == 1 {
        assert(vs.drop_last() =~= Seq::<Bencode>::empty());
        assert(vs.drop_first() =~= Seq::<Bencode>::empty());
        assert(encode_items(vs) =~= spec_encode(vs[0]) + encode_items(vs.drop_first()));
    } else {
        lemma_encode_items_front(vs.drop_last());
        assert(vs.drop_last().drop_first() =~= vs.drop_first().drop_last());
        assert(vs.drop_first().last() == vs.last());
        assert(encode_items(vs) =~= spec_encode(vs[0]) + encode_items(vs.drop_first()));
    }
}

proof fn lemma_encode_entries_front(es: Seq<(Seq<u8>, Bencode)>)
    requires
        es.len() > 0,
    ensures
        encode_entries(es) == encode_bytes(es[0].0) + spec_encode(es[0].1) + encode_entries(
            es.drop_first(),
        ),
    decreases es.len(),
{
    if es.len() == 1 {
        assert(es.drop_last() =~= Seq::<(Seq<u8>, Bencode)>::empty());
        assert(es.drop_first() =~= Seq::<(Seq<u8>, Bencode)>::empty());
        assert(encode_entries(es) =~= encode_bytes(es[0].0) + spec_encode(es[0].1)
            + encode_entries(es.drop_first()));
    } else {
        lemma_encode_entries_front(es.drop_last());
        assert(es.drop_last().drop_first() =~= es.drop_first().drop_last());
        assert(es.drop_first().last() == es.last());
        assert(encode_entries(es) =~= encode_bytes(es[0].0) + spec_encode(es[0].1)
            + encode_entries(es.drop_first()));
    }
}

proof fn lemma_chunks_flatten(ps: Seq<Seq<u8>>, w: nat)
    requires
        w > 0,
        forall|k: int| 0 <= k < ps.len() ==> (#[trigger] ps[k]).len() == w,
    ensures
        flatten(ps).len() == ps.len() * w,
        chunks(flatten(ps), w) == ps,
    decreases ps.len(),
{
    if ps.len() == 0 {
        assert(chunks(flatten(ps), w) =~= ps);
    } else {
        let init = ps.drop_last();
        lemma_chunks_flatten(init, w);
        let f = flatten(ps);
        let fi = flatten(init);
        assert(f == fi + ps.last());
        assert(f.len() == ps.len() * w) by (nonlinear_arith)
            requires
                f.len() == fi.len() + w,
                fi.len() == init.len() * w,
                init.len() + 1 == ps.len(),
        ;
        assert(f.len() / w == ps.len()) by (nonlinear_arith)
            requires
                f.len() == ps.len() * w,
                w > 0,
        ;
        assert forall|k: int| 0 <= k < ps.len() implies #[trigger] f.subrange(k * w, k * w + w)
            == ps[k] by {
            if k < init.len() {
                assert(k * w + w <= init.len() * w) by (nonlinear_arith)
                    requires
                        k < init.len(),
                        w > 0,
                ;
                assert(0 <= k * w) by (nonlinear_arith)
                    requires
                        0 <= k,
                        w > 0,
                ;
                assert(f.subrange(k * w, k * w + w) =~= fi.subrange(k * w, k * w + w));
                assert(chunks(fi, w)[k] == fi.subrange(k * w, k * w + w));
                assert(init.len() * w / w == init.len()) by (nonlinear_arith)
                    requires
                        w > 0,
                ;
            } else {
                assert(k * w == fi.len()) by (nonlinear_arith)
                    requires
                        k == init.len(),
                        fi.len() == init.len() * w,
                ;
                assert(f.subrange(k * w, k * w + w) =~= ps.last());
            }
        }
        assert(chunks(f, w) =~= ps);
    }
}

/// Wherever the encoding of a well-formed value stands in a buffer, with any
/// bytes before and after it, decoding at its start gives the value back and
/// ends right after the encoding.
pub proof fn lemma_round_trip_at(v: Bencode, s: Seq<u8>, i: int)
    requires
        well_formed(v),
        plain(v),
        0 <= i,
        i + spec_encode(v).len() <= s.len(),
        s.subrange(i, i + spec_encode(v).len()) == spec_encode(v),
    ensures
        spec_value(s, i) == Some((v, i + spec_encode(v).len())),
    decreases v, 0nat,
{
    let e = spec_encode(v);
    lemma_encode_nonempty(v);
    assert(s[i] == e[0]);
    match v {
        Bencode::Int(n) => {
            lemma_int_at(n, s, i);
        },
        Bencode::Bytes(b) => {
            lemma_bytes_at(b, s, i);
        },
        Bencode::List(vs) => {
            let body = encode_items(vs);
            assert(s.subrange(i + 1, i + 1 + body.len() + 1) =~= body + seq![END]) by {
                assert forall|k: int| 0 <= k < body.len() + 1 implies s.subrange(
                    i + 1,
                    i + 1 + body.len() + 1,
                )[k] == (body + seq![END])[k] by {
                    assert(s[i + 1 + k] == e[1 + k]);
                }
            }
            lemma_items_at(vs, s, i + 1);
        },
        Bencode::Dict(es) => {
            lemma_sorted_dict_encoding(es);
            let body = encode_entries(es);
            assert(s.subrange(i + 1, i + 1 + body.len() + 1) =~= body + seq![END]) by {
                assert forall|k: int| 0 <= k < body.len() + 1 implies s.subrange(
                    i + 1,
                    i + 1 + body.len() + 1,
                )[k] == (body + seq![END])[k] by {
                    assert(s[i + 1 + k] == e[1 + k]);
                }
            }
            lemma_entries_at(es, s, i + 1);
        },
        _ => {},
    }
}

proof fn lemma_items_at(vs: Seq<Bencode>, s: Seq<u8>, i: int)
    requires
        forall|k: int| 0 <= k < vs.len() ==> plain(#[trigger] vs[k]) && well_formed(vs[k]),
        0 <= i,
        i + encode_items(vs).len() + 1 <= s.len(),
        s.subrange(i, i + encode_items(vs).len() + 1) == encode_items(vs) + seq![END],
    ensures
        spec_items(s, i) == Some((vs, i + encode_items(vs).len() + 1)),
    decreases vs, 0nat,
{
    let body = encode_items(vs);
    if vs.len() == 0 {
        assert(s[i] == (body + seq![END])[0]);
        assert(vs =~= Seq::<Bencode>::empty());
    } else {
        lemma_encode_items_front(vs);
        let v0 = vs[0];
        let rest = vs.drop_first();
        let e0 = spec_encode(v0);
        lemma_encode_nonempty(v0);
        assert(s.subrange(i, i + e0.len()) =~= e0) by {
            assert forall|k: int| 0 <= k < e0.len() implies s.subrange(i, i + e0.len())[k]
                == e0[k] by {
                assert(s[i + k] == s.subrange(i, i + body.len() + 1)[k]);
                assert((body + seq![END])[k] == body[k]);
            }
        }
        assert(s[i] == s.subrange(i, i + e0.len())[0]);
        lemma_round_trip_at(v0, s, i);
        let j = i + e0.len();
        let rb = encode_items(rest);
        assert(s.subrange(j, j + rb.len() + 1) =~= rb + seq![END]) by {
            assert forall|k: int| 0 <= k < rb.len() + 1 implies s.subrange(j, j + rb.len() + 1)[k]
                == (rb + seq![END])[k] by {
                assert(s[j + k] == (body + seq![END])[e0.len() + k]);
            }
        }
        assert forall|k: int| 0 <= k < rest.len() implies plain(#[trigger] rest[k]) && well_formed(
            rest[k],
        ) by {
            assert(rest[k] == vs[k + 1]);
        }
        lemma_items_at(rest, s, j);
        assert(seq![v0] + rest =~= vs);
    }
}

proof fn lemma_field_at(key: Seq<u8>, v: Bencode, s: Seq<u8>, j: int)
    requires
        field_ok(key, v),
        well_formed(v),
        0 <= j,
        j + spec_encode(v).len() <= s.len(),
        s.subrange(j, j + spec_encode(v).len()) == spec_encode(v),
    ensures
        spec_field(s, j, key) == Some((v, j + spec_encode(v).len())),
    decreases v, 1nat,
{
    let e = spec_encode(v);
    lemma_encode_nonempty(v);
    assert(s[j] == e[0]);
    match v {
        Bencode::Pieces(ps) => {
            lemma_bytes_at(flatten(ps), s, j);
            lemma_chunks_flatten(ps, 20);
        },
        Bencode::Peers(ps) => {
            lemma_bytes_at(flatten(ps), s, j);
            lemma_chunks_flatten(ps, 6);
            assert(pieces_key() != peers_key()) by {
                assert(pieces_key()[1] != peers_key()[1]);
            }
        },
        _ => {
            lemma_round_trip_at(v, s, j);
        },
    }
}

proof fn lemma_entries_at(es: Seq<(Seq<u8>, Bencode)>, s: Seq<u8>, i: int)
    requires
        forall|k: int|
            0 <= k < es.len() ==> field_ok((#[trigger] es[k]).0, es[k].1) && well_formed(es[k].1),
        0 <= i,
        i + encode_entries(es).len() + 1 <= s.len(),
        s.subrange(i, i + encode_entries(es).len() + 1) == encode_entries(es) + seq![END],
    ensures
        spec_entries(s, i) == Some((es, i + encode_entries(es).len() + 1)),
    decreases es, 0nat,
{
    let body = encode_entries(es);
    if es.len() == 0 {
        assert(s[i] == (body + seq![END])[0]);
        assert(es =~= Seq::<(Seq<u8>, Bencode)>::empty());
    } else {
        lemma_encode_entries_front(es);
        let (k0, v0) = es[0];
        let rest = es.drop_first();
        let kb = encode_bytes(k0);
        let e0 = spec_encode(v0);
        assert(s.subrange(i, i + kb.len()) =~= kb) by {
            assert forall|k: int| 0 <= k < kb.len() implies s.subrange(i, i + kb.len())[k]
                == kb[k] by {
                assert(s[i + k] == (body + seq![END])[k]);
            }
        }
        lemma_bytes_at(k0, s, i);
        lemma_nat_digits(k0.len());
        assert(kb[0] == nat_digits(k0.len())[0]);
        let j = i + kb.len();
        assert(s.subrange(j, j + e0.len()) =~= e0) by {
            assert forall|k: int| 0 <= k < e0.len() implies s.subrange(j, j + e0.len())[k]
                == e0[k] by {
                assert(s[j + k] == (body + seq![END])[kb.len() + k]);
            }
        }
        assert(decreases_to!(es => es[0]));
        lemma_field_at(k0, v0, s, j);
        lemma_encode_nonempty(v0);
        let m = j + e0.len();
        let rb = encode_entries(rest);
        assert(s.subrange(m, m + rb.len() + 1) =~= rb + seq![END]) by {
            assert forall|k: int| 0 <= k < rb.len() + 1 implies s.subrange(m, m + rb.len() + 1)[k]
                == (rb + seq![END])[k] by {
                assert(s[m + k] == (body + seq![END])[kb.len() + e0.len() + k]);
            }
        }
        assert forall|k: int| 0 <= k < rest.len() implies field_ok((#[trigger] rest[k]).0, rest[k].1)
            && well_formed(rest[k].1) by {
            assert(rest[k] == es[k + 1]);
        }
        lemma_entries_at(rest, s, m);
        assert(seq![(k0, v0)] + rest =~= es);
    }
}

/// Decoding the encoding of a well-formed value gives the value back, and
/// reads the whole encoding (the case of a buffer that holds just it).
pub proof fn lemma_round_trip(v: Bencode)
    requires
        well_formed(v),
        plain(v),
    ensures
        spec_value(spec_encode(v), 0) == Some((v, spec_encode(v).len() as int)),
{
    let e = spec_encode(v);
    assert(e.subrange(0, e.len() as int) =~= e);
    lemma_round_trip_at(v, e, 0);
}


/// Decodes the value at `*cursor` and moves the cursor past it; on failure
/// the cursor stays where it was.
pub fn decode(content: &[u8], cursor: &mut usize) -> (r: Result<Value, Error>)
    ensures
        match r {
            Ok(v) => spec_value(content@, *old(cursor) as int) == Some((v@, *final(cursor) as int)),
            Err(e) => e == Error::Malformed && spec_value(content@, *old(cursor) as int) is None
                && *final(cursor) == *old(cursor),
        },
{
    match parse_next(content, *cursor) {
        Ok((v, end)) => {
            *cursor = end;
            Ok(v)
        },
        Err(e) => Err(e),
    }
}

/// Decodes a buffer that holds exactly one value.
pub fn decode_all(content: &[u8]) -> (r: Result<Value, Error>)
    ensures
        match r {
            Ok(v) => spec_value(content@, 0) == Some((v@, content.len() as int)),
            Err(e) => e == Error::Malformed && !(spec_value(content@, 0) matches Some((_, end))
                && end == content.len()),
        },
{
    let (v, end) = parse_next(content, 0)?;
    if end != content.len() {
        return Err(Error::Malformed);
    }
    Ok(v)
}


/// Whether byte string `a` sorts strictly before `b`, byte by byte, a
/// proper prefix first.
pub open spec fn bytes_less(a: Seq<u8>, b: Seq<u8>) -> bool
    decreases a.len(),
{
    if a.len() == 0 {
        b.len() > 0
    } else if b.len() == 0 {
        false
    } else if a[0] != b[0] {
        a[0] < b[0]
    } else {
        bytes_less(a.drop_first(), b.drop_first())
    }
}

/// Every dictionary, at every depth, has its keys in strictly ascending
/// order.
pub open spec fn sorted_keys(v: Bencode) -> bool
    decreases v,
{
    match v {
        Bencode::List(vs) => all_sorted(vs),
        Bencode::Dict(es) => keys_ascending(es) && values_sorted(es),
        _ => true,
    }
}

pub open spec fn all_sorted(vs: Seq<Bencode>) -> bool
    decreases vs,
{
    if vs.len() == 0 {
        true
    } else {
        all_sorted(vs.drop_last()) && sorted_keys(vs.last())
    }
}

pub open spec fn values_sorted(es: Seq<(Seq<u8>, Bencode)>) -> bool
    decreases es,
{
    if es.len() == 0 {
        true
    } else {
        values_sorted(es.drop_last()) && sorted_keys(es.last().1)
    }
}

/// Each key sorts strictly before the next.
pub open spec fn keys_ascending(es: Seq<(Seq<u8>, Bencode)>) -> bool {
    forall|k: int| 0 <= k < es.len() - 1 ==> bytes_less(#[trigger] es[k].0, es[k + 1].0)
}

proof fn lemma_all_sorted_prefix(vs: Seq<Bencode>, k: int)
    requires
        0 <= k <= vs.len(),
        all_sorted(vs),
    ensures
        all_sorted(vs.subrange(0, k)),
    decreases vs.len() - k,
{
    if k < vs.len() {
        lemma_all_sorted_prefix(vs, k + 1);
        assert(vs.subrange(0, k + 1).drop_last() =~= vs.subrange(0, k));
    } else {
        assert(vs.subrange(0, k) =~= vs);
    }
}

proof fn lemma_values_sorted_prefix(es: Seq<(Seq<u8>, Bencode)>, k: int)
    requires
        0 <= k <= es.len(),
        values_sorted(es),
    ensures
        values_sorted(es.subrange(0, k)),
    decreases es.len() - k,
{
    if k < es.len() {
        lemma_values_sorted_prefix(es, k + 1);
        assert(es.subrange(0, k + 1).drop_last() =~= es.subrange(0, k));
    } else {
        assert(es.subrange(0, k) =~= es);
    }
}

/// Whether `a` sorts strictly before `b`.
pub fn key_less(a: &[u8], b: &[u8]) -> (r: bool)
    ensures
        r == bytes_less(a@, b@),
{
    let mut k: usize = 0;
    assert(a@.subrange(0, a.len() as int) =~= a@);
    assert(b@.subrange(0, b.len() as int) =~= b@);
    while k < a.len() && k < b.len() && a[k] == b[k]
        invariant
            k <= a.len(),
            k <= b.len(),
            bytes_less(a@, b@) == bytes_less(a@.subrange(k as int, a.len() as int), b@.subrange(k as int, b.len() as int)),
        decreases a.len() - k,
    {
        assert(a@.subrange(k as int, a.len() as int).drop_first() =~= a@.subrange(k + 1, a.len() as int));
        assert(b@.subrange(k as int, b.len() as int).drop_first() =~= b@.subrange(k + 1, b.len() as int));
        k = k + 1;
    }
    if k == a.len() {
        k < b.len()
    } else if k == b.len() {
        false
    } else {
        a[k] < b[k]
    }
}

fn items_sorted(l: &Vec<Value>) -> (r: bool)
    ensures
        r == all_sorted(views(l@)),
    decreases l, 0nat,
{
    let mut k: usize = 0;
    assert(views(l@.subrange(0, 0)) =~= Seq::<Bencode>::empty());
    while k < l.len()
        invariant
            k <= l.len(),
            all_sorted(views(l@.subrange(0, k as int))),
        decreases l.len() - k,
    {
        assert(decreases_to!(l => l[k as int]));
        assert(views(l@.subrange(0, k + 1)).drop_last() =~= views(l@.subrange(0, k as int)));
        if !is_sorted(&l[k]) {
            proof {
                if all_sorted(views(l@)) {
                    lemma_all_sorted_prefix(views(l@), k + 1);
                    assert(views(l@).subrange(0, k + 1) =~= views(l@.subrange(0, k + 1)));
                }
            }
            return false;
        }
        k = k + 1;
    }
    assert(l@.subrange(0, k as int) =~= l@);
    true
}

fn entries_sorted(d: &Vec<Entry>) -> (r: bool)
    ensures
        r == (keys_ascending(entry_views(d@)) && values_sorted(entry_views(d@))),
    decreases d, 0nat,
{
    let mut k: usize = 0;
    assert(entry_views(d@.subrange(0, 0)) =~= Seq::<(Seq<u8>, Bencode)>::empty());
    while k < d.len()
        invariant
            k <= d.len(),
            values_sorted(entry_views(d@.subrange(0, k as int))),
            forall|m: int|
                0 <= m < k && m + 1 < d.len() ==> bytes_less(
                    #[trigger] entry_views(d@)[m].0,
                    entry_views(d@)[m + 1].0,
                ),
        decreases d.len() - k,
    {
        assert(decreases_to!(d => d[k as int].value));
        assert(entry_views(d@.subrange(0, k + 1)).drop_last() =~= entry_views(
            d@.subrange(0, k as int),
        ));
        if !is_sorted(&d[k].value) {
            proof {
                if values_sorted(entry_views(d@)) {
                    lemma_values_sorted_prefix(entry_views(d@), k + 1);
                    assert(entry_views(d@).subrange(0, k + 1) =~= entry_views(d@.subrange(0, k + 1)));
                }
            }
            return false;
        }
        if k + 1 < d.len() && !key_less(d[k].key.as_slice(), d[k + 1].key.as_slice()) {
            assert(!bytes_less(entry_views(d@)[k as int].0, entry_views(d@)[k + 1].0));
            return false;
        }
        k = k + 1;
    }
    assert(d@.subrange(0, k as int) =~= d@);
    true
}

/// Whether every dictionary of `v` has its keys in ascending order.
pub fn is_sorted(v: &Value) -> (r: bool)
    ensures
        r == sorted_keys(v@),
    decreases v, 1nat,
{
    match v {
        Value::List(l) => {
            proof {
                lemma_view_list(*l);
            }
            items_sorted(l)
        },
        Value::Dict(d) => {
            proof {
                lemma_view_dict(*d);
            }
            entries_sorted(d)
        },
        _ => true,
    }
}

/// Decodes a buffer that holds exactly one value, in strict mode: a
/// dictionary whose keys are out of order is malformed too.
pub fn decode_strict(content: &[u8]) -> (r: Result<Value, Error>)
    ensures
        match r {
            Ok(v) => spec_value(content@, 0) == Some((v@, content.len() as int)) && sorted_keys(v@),
            Err(e) => e == Error::Malformed && !(spec_value(content@, 0) matches Some((w, end))
                && end == content.len() && sorted_keys(w)),
        },
{
    let v = decode_all(content)?;
    if !is_sorted(&v) {
        return Err(Error::Malformed);
    }
    Ok(v)
}


/// The keys of some entries.
pub open spec fn keys_of<A>(es: Seq<(Seq<u8>, A)>) -> Seq<Seq<u8>> {
    Seq::new(es.len(), |m: int| es[m].0)
}

/// Each key sorts strictly before the next.
pub open spec fn keys_ascend(ks: Seq<Seq<u8>>) -> bool {
    forall|m: int| 0 <= m < ks.len() - 1 ==> bytes_less(#[trigger] ks[m], ks[m + 1])
}

/// `q`, an order of entries, with entry `i` put in place by its key; a key
/// already there keeps its earlier entry.
pub open spec fn insert_index(q: Seq<int>, ks: Seq<Seq<u8>>, i: int) -> Seq<int>
    decreases q.len(),
{
    if q.len() == 0 {
        seq![i]
    } else if ks[q[0]] == ks[i] {
        q
    } else if bytes_less(ks[i], ks[q[0]]) {
        seq![i] + q
    } else {
        seq![q[0]] + insert_index(q.drop_first(), ks, i)
    }
}

/// The order in which the first `n` entries are encoded: by key, strictly
/// ascending, the first entry of each key only.
pub open spec fn canonical_order(ks: Seq<Seq<u8>>, n: nat) -> Seq<int>
    decreases n,
{
    if n == 0 {
        Seq::empty()
    } else {
        insert_index(canonical_order(ks, (n - 1) as nat), ks, n - 1)
    }
}

/// The entries of `ps` in the order `order`, each key then its value.
pub open spec fn concat_ordered(ps: Seq<(Seq<u8>, Seq<u8>)>, order: Seq<int>) -> Seq<u8>
    decreases order.len(),
{
    if order.len() == 0 {
        Seq::empty()
    } else {
        concat_ordered(ps, order.drop_last()) + encode_bytes(ps[order.last()].0) + ps[order.last()].1
    }
}

proof fn lemma_less_irreflexive(a: Seq<u8>, b: Seq<u8>)
    requires
        bytes_less(a, b),
    ensures
        a != b,
        !bytes_less(b, a),
    decreases a.len(),
{
    if a.len() > 0 && b.len() > 0 && a[0] == b[0] {
        lemma_less_irreflexive(a.drop_first(), b.drop_first());
        if a == b {
            assert(a.drop_first() == b.drop_first());
        }
    }
}

proof fn lemma_less_total(a: Seq<u8>, b: Seq<u8>)
    requires
        a != b,
    ensures
        bytes_less(a, b) || bytes_less(b, a),
    decreases a.len(),
{
    if a.len() == 0 && b.len() == 0 {
        assert(a =~= b);
    } else if a.len() > 0 && b.len() > 0 && a[0] == b[0] {
        if a.drop_first() == b.drop_first() {
            assert(a =~= seq![a[0]] + a.drop_first());
            assert(b =~= seq![b[0]] + b.drop_first());
        }
        lemma_less_total(a.drop_first(), b.drop_first());
    }
}

proof fn lemma_less_transitive(a: Seq<u8>, b: Seq<u8>, c: Seq<u8>)
    requires
        bytes_less(a, b),
        bytes_less(b, c),
    ensures
        bytes_less(a, c),
    decreases a.len(),
{
    if a.len() > 0 && b.len() > 0 && c.len() > 0 && a[0] == b[0] && b[0] == c[0] {
        lemma_less_transitive(a.drop_first(), b.drop_first(), c.drop_first());
    }
}

proof fn lemma_ascend_pairwise(ks: Seq<Seq<u8>>, i: int, j: int)
    requires
        keys_ascend(ks),
        0 <= i < j < ks.len(),
    ensures
        bytes_less(ks[i], ks[j]),
    decreases j - i,
{
    if j > i + 1 {
        lemma_ascend_pairwise(ks, i, j - 1);
        lemma_less_transitive(ks[i], ks[j - 1], ks[j]);
    }
}

/// Where a scan stops: every key before `pos` sorts below key `i`, and the
/// one at `pos` (if any) does not.
pub open spec fn scan_stop(q: Seq<int>, ks: Seq<Seq<u8>>, i: int, pos: int) -> bool {
    &&& 0 <= pos <= q.len()
    &&& forall|j: int| 0 <= j < pos ==> bytes_less(#[trigger] ks[q[j]], ks[i])
    &&& pos < q.len() ==> !bytes_less(ks[q[pos]], ks[i])
}

proof fn lemma_insert_at(q: Seq<int>, ks: Seq<Seq<u8>>, i: int, pos: int)
    requires
        scan_stop(q, ks, i, pos),
    ensures
        insert_index(q, ks, i) == (if pos < q.len() && ks[q[pos]] == ks[i] {
            q
        } else {
            q.subrange(0, pos) + seq![i] + q.subrange(pos, q.len() as int)
        }),
    decreases q.len(),
{
    if q.len() == 0 {
        assert(seq![i] =~= q.subrange(0, pos) + seq![i] + q.subrange(pos, q.len() as int));
    } else if pos == 0 {
        if ks[q[0]] != ks[i] {
            lemma_less_total(ks[q[0]], ks[i]);
            assert(q.subrange(0, 0) + seq![i] + q.subrange(0, q.len() as int) =~= seq![i] + q);
        }
    } else {
        lemma_less_irreflexive(ks[q[0]], ks[i]);
        let r = q.drop_first();
        assert forall|j: int| 0 <= j < pos - 1 implies bytes_less(#[trigger] ks[r[j]], ks[i]) by {
            assert(r[j] == q[j + 1]);
        }
        lemma_insert_at(r, ks, i, pos - 1);
        if pos < q.len() && ks[q[pos]] == ks[i] {
            assert(seq![q[0]] + r =~= q);
        } else {
            assert(seq![q[0]] + (r.subrange(0, pos - 1) + seq![i] + r.subrange(pos - 1, r.len() as int))
                =~= q.subrange(0, pos) + seq![i] + q.subrange(pos, q.len() as int));
        }
    }
}

proof fn lemma_insert_ascends(q: Seq<int>, ks: Seq<Seq<u8>>, i: int)
    requires
        keys_ascend(Seq::new(q.len(), |m: int| ks[q[m]])),
    ensures
        keys_ascend(Seq::new(insert_index(q, ks, i).len(), |m: int| ks[insert_index(q, ks, i)[m]])),
        insert_index(q, ks, i).len() > 0,
        ks[insert_index(q, ks, i)[0]] == ks[i] || (q.len() > 0 && ks[insert_index(q, ks, i)[0]]
            == ks[q[0]]),
    decreases q.len(),
{
    let r = insert_index(q, ks, i);
    let kq = Seq::new(q.len(), |m: int| ks[q[m]]);
    let kr = Seq::new(r.len(), |m: int| ks[r[m]]);
    if q.len() == 0 {
    } else if ks[q[0]] == ks[i] {
        assert(kr =~= kq);
    } else if bytes_less(ks[i], ks[q[0]]) {
        assert(r == seq![i] + q);
        assert forall|m: int| 0 <= m < kr.len() - 1 implies bytes_less(#[trigger] kr[m], kr[m + 1]) by {
            if m == 0 {
                assert(kr[0] == ks[i] && kr[1] == ks[q[0]]);
            } else {
                assert(kr[m] == kq[m - 1] && kr[m + 1] == kq[m]);
            }
        }
    } else {
        lemma_less_total(ks[q[0]], ks[i]);
        let t = q.drop_first();
        let kt = Seq::new(t.len(), |m: int| ks[t[m]]);
        assert forall|m: int| 0 <= m < kt.len() - 1 implies bytes_less(#[trigger] kt[m], kt[m + 1]) by {
            assert(kt[m] == kq[m + 1] && kt[m + 1] == kq[m + 2]);
        }
        lemma_insert_ascends(t, ks, i);
        let u = insert_index(t, ks, i);
        let ku = Seq::new(u.len(), |m: int| ks[u[m]]);
        assert(r == seq![q[0]] + u);
        assert forall|m: int| 0 <= m < kr.len() - 1 implies bytes_less(#[trigger] kr[m], kr[m + 1]) by {
            if m == 0 {
                assert(kr[0] == ks[q[0]]);
                assert(kr[1] == ks[u[0]]);
                if ks[u[0]] != ks[i] {
                    assert(t.len() > 0);
                    assert(ks[u[0]] == ks[t[0]]);
                    assert(kq[0] == ks[q[0]]);
                    assert(kq[1] == ks[t[0]]);
                    assert(bytes_less(kq[0], kq[1]));
                }
            } else {
                assert(kr[m] == ku[m - 1] && kr[m + 1] == ku[m]);
            }
        }
    }
}

/// The keys of every encoded dictionary strictly ascend.
pub proof fn lemma_canonical_keys_ascend(ks: Seq<Seq<u8>>, n: nat)
    requires
        n <= ks.len(),
    ensures
        keys_ascend(
            Seq::new(
                canonical_order(ks, n).len(),
                |m: int| ks[canonical_order(ks, n)[m]],
            ),
        ),
        forall|m: int|
            0 <= m < canonical_order(ks, n).len() ==> 0 <= #[trigger] canonical_order(ks, n)[m] < n,
    decreases n,
{
    if n > 0 {
        lemma_canonical_keys_ascend(ks, (n - 1) as nat);
        let q = canonical_order(ks, (n - 1) as nat);
        lemma_insert_ascends(q, ks, n - 1);
        lemma_insert_members(q, ks, n - 1);
    }
}

proof fn lemma_insert_members(q: Seq<int>, ks: Seq<Seq<u8>>, i: int)
    ensures
        forall|m: int|
            0 <= m < insert_index(q, ks, i).len() ==> (#[trigger] insert_index(q, ks, i)[m] == i
                || exists|j: int| 0 <= j < q.len() && q[j] == insert_index(q, ks, i)[m]),
    decreases q.len(),
{
    if q.len() > 0 && ks[q[0]] != ks[i] && !bytes_less(ks[i], ks[q[0]]) {
        lemma_insert_members(q.drop_first(), ks, i);
        let u = insert_index(q.drop_first(), ks, i);
        assert forall|m: int| 0 <= m < insert_index(q, ks, i).len() implies (#[trigger] insert_index(
            q,
            ks,
            i,
        )[m] == i || exists|j: int| 0 <= j < q.len() && q[j] == insert_index(q, ks, i)[m]) by {
            if m == 0 {
                assert(q[0] == insert_index(q, ks, i)[0]);
            } else {
                assert(insert_index(q, ks, i)[m] == u[m - 1]);
                if u[m - 1] != i {
                    let j = choose|j: int| 0 <= j < q.len() - 1 && q.drop_first()[j] == u[m - 1];
                    assert(q[j + 1] == u[m - 1]);
                }
            }
        }
    } else if q.len() > 0 && !(ks[q[0]] == ks[i]) {
        assert forall|m: int| 0 <= m < insert_index(q, ks, i).len() implies (#[trigger] insert_index(
            q,
            ks,
            i,
        )[m] == i || exists|j: int| 0 <= j < q.len() && q[j] == insert_index(q, ks, i)[m]) by {
            if m > 0 {
                assert(q[m - 1] == insert_index(q, ks, i)[m]);
            }
        }
    } else if q.len() > 0 {
        assert forall|m: int| 0 <= m < insert_index(q, ks, i).len() implies (#[trigger] insert_index(
            q,
            ks,
            i,
        )[m] == i || exists|j: int| 0 <= j < q.len() && q[j] == insert_index(q, ks, i)[m]) by {
            assert(q[m] == insert_index(q, ks, i)[m]);
        }
    }
}

/// Entries whose keys already ascend are encoded in the order held.
pub proof fn lemma_sorted_order_kept(ks: Seq<Seq<u8>>, n: nat)
    requires
        n <= ks.len(),
        keys_ascend(ks),
    ensures
        canonical_order(ks, n) == Seq::new(n, |m: int| m),
    decreases n,
{
    if n > 0 {
        lemma_sorted_order_kept(ks, (n - 1) as nat);
        let q = Seq::new((n - 1) as nat, |m: int| m);
        assert forall|j: int| 0 <= j < q.len() implies bytes_less(#[trigger] ks[q[j]], ks[n - 1]) by {
            lemma_ascend_pairwise(ks, j, n - 1);
        }
        lemma_insert_at(q, ks, n - 1, q.len() as int);
        assert(q.subrange(0, q.len() as int) + seq![n - 1] + q.subrange(q.len() as int, q.len() as int)
            =~= Seq::new(n, |m: int| m));
    }
}

proof fn lemma_encoded_entry(es: Seq<(Seq<u8>, Bencode)>, o: int)
    requires
        0 <= o < es.len(),
    ensures
        encoded_entries(es).len() == es.len(),
        encoded_entries(es)[o] == (es[o].0, spec_encode(es[o].1)),
    decreases es.len(),
{
    if o < es.len() - 1 {
        lemma_encoded_entry(es.drop_last(), o);
    } else if es.len() > 1 {
        lemma_encoded_entry(es.drop_last(), 0);
    } else {
        assert(encoded_entries(es.drop_last()).len() == 0);
    }
}

proof fn lemma_encode_in_order(es: Seq<(Seq<u8>, Bencode)>, n: nat)
    requires
        n <= es.len(),
    ensures
        concat_ordered(encoded_entries(es), Seq::new(n, |m: int| m)) == encode_entries(
            es.subrange(0, n as int),
        ),
    decreases n,
{
    if n > 0 {
        lemma_encode_in_order(es, (n - 1) as nat);
        assert(Seq::new(n, |m: int| m).drop_last() =~= Seq::new((n - 1) as nat, |m: int| m));
        assert(es.subrange(0, n as int).drop_last() =~= es.subrange(0, n - 1));
        lemma_encoded_entry(es, n - 1);
    } else {
        assert(es.subrange(0, 0) =~= Seq::<(Seq<u8>, Bencode)>::empty());
    }
}

/// A dictionary whose keys already ascend is encoded entry by entry in the
/// order held.
pub proof fn lemma_sorted_dict_encoding(es: Seq<(Seq<u8>, Bencode)>)
    requires
        keys_ascend(keys_of(es)),
    ensures
        spec_encode(Bencode::Dict(es)) == seq![DICTIONARY_START] + encode_entries(es) + seq![END],
{
    lemma_sorted_order_kept(keys_of(es), es.len());
    lemma_encode_in_order(es, es.len());
    assert(es.subrange(0, es.len() as int) =~= es);
}

} // verus!
