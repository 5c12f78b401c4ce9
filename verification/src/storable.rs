//! The value-encoding contract consumed by the containers that sit on a
//! store: a round-trippable byte serialisation, and a size bound for
//! fixed-width slot layouts. Unsigned integers encode as fixed-width
//! big-endian bytes, so byte-wise lexicographic comparison of encodings
//! matches numeric order.
use vstd::prelude::*;

use vstd::arithmetic::div_mod::lemma_div_denominator;
use vstd::slice::slice_to_vec;
use vstd::utf8::encode_utf8;
use vstd::utf8::encode_utf8_decode_utf8;
use vstd::utf8::encode_utf8_valid_utf8;
use vstd::utf8::valid_utf8;

verus! {

/// `256^n`: the number of values a big-endian encoding of `n` bytes can hold.
pub open spec fn pow256(n: nat) -> nat
    decreases n,
{
    if n == 0 {
        1
    } else {
        256 * pow256((n - 1) as nat)
    }
}

/// The big-endian, fixed-width encoding of `v` in `n` bytes; the most
/// significant byte comes first. Bits of `v` above `256^n` are discarded.
pub open spec fn be_bytes(v: nat, n: nat) -> Seq<u8>
    decreases n,
{
    if n == 0 {
        Seq::empty()
    } else {
        be_bytes(v / 256, (n - 1) as nat).push((v % 256) as u8)
    }
}

/// The value a big-endian byte sequence stands for.
pub open spec fn be_value(b: Seq<u8>) -> nat
    decreases b.len(),
{
    if b.len() == 0 {
        0
    } else {
        (be_value(b.drop_last()) * 256 + b.last()) as nat
    }
}

/// Strict lexicographic order on byte sequences of equal length.
pub open spec fn lex_less(a: Seq<u8>, b: Seq<u8>) -> bool
    decreases a.len(),
{
    if a.len() == 0 || b.len() == 0 {
        false
    } else if a.first() < b.first() {
        true
    } else if a.first() == b.first() {
        lex_less(a.drop_first(), b.drop_first())
    } else {
        false
    }
}

pub proof fn lemma_pow256_pos(n: nat)
    ensures
        pow256(n) >= 1,
    decreases n,
{
    if n > 0 {
        lemma_pow256_pos((n - 1) as nat);
    }
}

pub proof fn lemma_be_bytes_len(v: nat, n: nat)
    ensures
        be_bytes(v, n).len() == n,
    decreases n,
{
    if n > 0 {
        lemma_be_bytes_len(v / 256, (n - 1) as nat);
    }
}

/// A sequence of `n` bytes never stands for a value of `256^n` or more.
pub proof fn lemma_be_value_bound(b: Seq<u8>)
    ensures
        be_value(b) < pow256(b.len()),
    decreases b.len(),
{
    if b.len() == 0 {
    } else {
        lemma_be_value_bound(b.drop_last());
        let q = be_value(b.drop_last());
        let p = pow256((b.len() - 1) as nat);
        assert(q * 256 + b.last() < 256 * p) by (nonlinear_arith)
            requires
                q < p,
                b.last() < 256,
        ;
    }
}

/// Decoding inverts encoding: every value below `256^n` comes back from
/// its `n`-byte big-endian form.
pub proof fn lemma_be_round_trip(v: nat, n: nat)
    requires
        v < pow256(n),
    ensures
        be_value(be_bytes(v, n)) == v,
    decreases n,
{
    if n == 0 {
    } else {
        let m = (n - 1) as nat;
        assert(v / 256 < pow256(m)) by (nonlinear_arith)
            requires
                v < 256 * pow256(m),
                pow256(m) >= 1,
        {
            lemma_pow256_pos(m);
        }
        lemma_pow256_pos(m);
        lemma_be_round_trip(v / 256, m);
        let b = be_bytes(v, n);
        lemma_be_bytes_len(v / 256, m);
        assert(b.drop_last() =~= be_bytes(v / 256, m));
    }
}

/// Encoding inverts decoding: every byte sequence is the big-endian form
/// of the value it stands for.
pub proof fn lemma_be_bytes_of_value(b: Seq<u8>)
    ensures
        be_bytes(be_value(b), b.len()) == b,
    decreases b.len(),
{
    if b.len() == 0 {
        assert(be_bytes(be_value(b), b.len()) =~= b);
    } else {
        let q = be_value(b.drop_last());
        let v = be_value(b);
        assert(v == q * 256 + b.last());
        assert(v / 256 == q && v % 256 == b.last()) by (nonlinear_arith)
            requires
                v == q * 256 + b.last(),
                0 <= q,
                0 <= b.last() < 256,
        ;
        lemma_be_bytes_of_value(b.drop_last());
        assert(be_bytes(v, b.len()) =~= b);
    }
}

proof fn lemma_lex_less_push(a: Seq<u8>, b: Seq<u8>, p: u8, q: u8)
    requires
        a.len() == b.len(),
    ensures
        lex_less(a.push(p), b.push(q)) <==> (lex_less(a, b) || (a == b && p < q)),
    decreases a.len(),
{
    reveal_with_fuel(lex_less, 3);
    if a.len() == 0 {
        assert(a =~= b);
        assert(a == b);
        assert(a.push(p).first() == p);
        assert(b.push(q).first() == q);
        assert(a.push(p).drop_first() =~= Seq::<u8>::empty());
        assert(b.push(q).drop_first() =~= Seq::<u8>::empty());
    } else {
        assert(a.push(p).first() == a.first());
        assert(b.push(q).first() == b.first());
        assert(a.push(p).drop_first() =~= a.drop_first().push(p));
        assert(b.push(q).drop_first() =~= b.drop_first().push(q));
        lemma_lex_less_push(a.drop_first(), b.drop_first(), p, q);
        if a.first() == b.first() {
            if a.drop_first() == b.drop_first() {
                assert forall|i: int| 0 <= i < a.len() implies a[i] == b[i] by {
                    if i > 0 {
                        assert(a.drop_first()[i - 1] == a[i]);
                        assert(b.drop_first()[i - 1] == b[i]);
                    }
                }
                assert(a =~= b);
                assert(a == b);
            }
            if a == b {
                assert(a.drop_first() == b.drop_first());
            }
        }
    }
}

/// Big-endian encodings of equal width preserve numeric order under
/// byte-wise lexicographic comparison.
pub proof fn lemma_be_preserves_order(x: nat, y: nat, n: nat)
    requires
        x < y,
        y < pow256(n),
    ensures
        lex_less(be_bytes(x, n), be_bytes(y, n)),
    decreases n,
{
    if n == 0 {
        lemma_pow256_pos(n);
    } else {
        let m = (n - 1) as nat;
        lemma_pow256_pos(m);
        lemma_be_bytes_len(x / 256, m);
        lemma_be_bytes_len(y / 256, m);
        lemma_lex_less_push(be_bytes(x / 256, m), be_bytes(y / 256, m), (x % 256) as u8, (y % 256) as u8);
        if x / 256 == y / 256 {
            assert(x % 256 < y % 256);
        } else {
            assert(x / 256 < y / 256);
            assert(y / 256 < pow256(m)) by (nonlinear_arith)
                requires
                    y < 256 * pow256(m),
                    pow256(m) >= 1,
            ;
            lemma_be_preserves_order(x / 256, y / 256, m);
        }
    }
}

proof fn lemma_be_bytes_index(v: nat, n: nat, j: int)
    requires
        0 <= j < n,
    ensures
        be_bytes(v, n)[j] == ((v / pow256((n - 1 - j) as nat)) % 256) as u8,
    decreases n,
{
    lemma_be_bytes_len(v, n);
    lemma_be_bytes_len(v / 256, (n - 1) as nat);
    if j == n - 1 {
        assert(pow256(0) == 1);
        assert(v / pow256(0) == v);
    } else {
        lemma_be_bytes_index(v / 256, (n - 1) as nat, j);
        let k = (n - 2 - j) as nat;
        lemma_pow256_pos(k);
        lemma_div_denominator(v as int, 256, pow256(k) as int);
        assert(256 * pow256(k) == pow256((k + 1) as nat));
        assert((n - 1 - j) as nat == (k + 1) as nat);
    }
}

/// `pow256(16)` is one past `u128::MAX`: sixteen bytes hold exactly the
/// values of a 128-bit integer.
proof fn lemma_pow256_16()
    ensures
        pow256(8) == 0x10000000000000000,
        pow256(16) == 0x100000000000000000000000000000000,
{
    reveal_with_fuel(pow256, 17);
}

proof fn lemma_pow256_increases(a: nat, b: nat)
    requires
        a <= b,
    ensures
        pow256(a) <= pow256(b),
    decreases b,
{
    if a < b {
        lemma_pow256_increases(a, (b - 1) as nat);
        lemma_pow256_pos((b - 1) as nat);
    }
}

/// Writes `v` in big-endian form into `n` bytes.
fn be_encode(v: u128, n: usize) -> (r: Vec<u8>)
    ensures
        r@ == be_bytes(v as nat, n as nat),
{
    let mut out: Vec<u8> = vec![0u8; n];
    let mut x: u128 = v;
    let mut i: usize = n;
    proof {
        assert(pow256(0) == 1);
        assert(v as nat / pow256(0) == v as nat);
    }
    while i > 0
        invariant
            i <= n,
            out@.len() == n,
            x as nat == (v as nat) / pow256((n - i) as nat),
            forall|j: int| i <= j < n ==> out@[j] == be_bytes(v as nat, n as nat)[j],
        decreases i,
    {
        i = i - 1;
        out.set(i, (x % 256) as u8);
        proof {
            lemma_be_bytes_index(v as nat, n as nat, i as int);
            let k = (n - i - 1) as nat;
            lemma_pow256_pos(k);
            lemma_div_denominator(v as int, pow256(k) as int, 256);
            assert(pow256(k) * 256 == pow256((k + 1) as nat));
        }
        x = x / 256;
    }
    proof {
        lemma_be_bytes_len(v as nat, n as nat);
        assert(out@ =~= be_bytes(v as nat, n as nat));
    }
    out
}

/// Reads the value that up to sixteen big-endian bytes stand for.
fn be_decode(b: &[u8]) -> (r: u128)
    requires
        b@.len() <= 16,
    ensures
        r as nat == be_value(b@),
{
    let n = b.len();
    let mut acc: u128 = 0;
    let mut i: usize = 0;
    while i < n
        invariant
            i <= n,
            n == b@.len(),
            n <= 16,
            acc as nat == be_value(b@.subrange(0, i as int)),
            (acc as nat) < pow256(i as nat),
        decreases n - i,
    {
        proof {
            lemma_pow256_increases(i as nat, 15);
            lemma_pow256_16();
            let p = pow256(i as nat);
            assert((acc as nat) * 256 + 255 < 256 * p) by (nonlinear_arith)
                requires
                    (acc as nat) < p,
                    p >= 1,
            ;
            lemma_pow256_increases((i + 1) as nat, 16);
            assert(256 * p == pow256((i + 1) as nat));
        }
        let byte = b[i];
        acc = acc * 256 + (byte as u128);
        proof {
            assert(b@.subrange(0, i + 1).drop_last() =~= b@.subrange(0, i as int));
            assert(b@.subrange(0, i + 1).last() == b@[i as int]);
        }
        i = i + 1;
    }
    proof {
        assert(b@.subrange(0, n as int) =~= b@);
    }
    acc
}

/// Relies on `String::from_utf8`: on bytes that are valid UTF-8 it returns
/// `Ok` with the string those bytes encode.
#[verifier::external_body]
fn string_from_utf8(bytes: Vec<u8>) -> (r: String)
    requires
        valid_utf8(bytes@),
    ensures
        encode_utf8(r@) == bytes@,
{
    String::from_utf8(bytes).unwrap()
}

/// A value that a container can put into a store and take back out: its
/// byte encoding determines the value, so decoding what was encoded gives
/// the value back.
///
/// Decoding assumes the bytes came from a matching encode or from
/// uncorrupted persisted state; malformed bytes are a contract violation,
/// not a runtime condition.
pub trait Storable: Sized + View {
    /// The byte encoding of this value.
    spec fn encoded(&self) -> Seq<u8>;

    /// The byte sequences that decode to a value.
    spec fn is_encoding(b: Seq<u8>) -> bool;

    /// Converts an element into bytes.
    fn to_bytes(&self) -> (r: Vec<u8>)
        ensures
            r@ == self.encoded(),
            Self::is_encoding(self.encoded()),
    ;

    /// Converts bytes into an element: the one whose encoding the bytes
    /// are, so encoding after decoding, and decoding after encoding, both
    /// lead back to where they started.
    fn from_bytes(bytes: Vec<u8>) -> (r: Self)
        requires
            Self::is_encoding(bytes@),
        ensures
            r.encoded() == bytes@,
            forall|v: Self| v.encoded() == bytes@ ==> v@ == r@,
    ;
}

/// A `Storable` value whose encoding never runs past a bound known ahead
/// of time, as containers with fixed-width slots require.
pub trait BoundedStorable: Storable {
    /// The maximum size, in bytes, of the type when serialized.
    spec fn spec_max_size() -> u32;

    /// No value of the type encodes to more than `spec_max_size` bytes.
    proof fn lemma_encoded_len(v: Self)
        ensures
            v.encoded().len() <= Self::spec_max_size(),
    ;

    /// The maximum size, in bytes, of the type when serialized.
    fn max_size() -> (r: u32)
        ensures
            r == Self::spec_max_size(),
    ;
}

impl Storable for () {
    open spec fn encoded(&self) -> Seq<u8> {
        Seq::empty()
    }

    open spec fn is_encoding(b: Seq<u8>) -> bool {
        b.len() == 0
    }

    fn to_bytes(&self) -> (r: Vec<u8>) {
        Vec::new()
    }

    fn from_bytes(bytes: Vec<u8>) -> (r: Self) {
        proof {
            assert(Seq::<u8>::empty() =~= bytes@);
        }
    }
}

impl BoundedStorable for () {
    open spec fn spec_max_size() -> u32 {
        0
    }

    proof fn lemma_encoded_len(v: Self) {
    }

    fn max_size() -> (r: u32) {
        0
    }
}

impl Storable for Vec<u8> {
    open spec fn encoded(&self) -> Seq<u8> {
        self@
    }

    open spec fn is_encoding(b: Seq<u8>) -> bool {
        true
    }

    fn to_bytes(&self) -> (r: Vec<u8>) {
        slice_to_vec(self.as_slice())
    }

    fn from_bytes(bytes: Vec<u8>) -> (r: Self) {
        bytes
    }
}

impl Storable for String {
    open spec fn encoded(&self) -> Seq<u8> {
        encode_utf8(self@)
    }

    open spec fn is_encoding(b: Seq<u8>) -> bool {
        valid_utf8(b)
    }

    fn to_bytes(&self) -> (r: Vec<u8>) {
        proof {
            encode_utf8_valid_utf8(self@);
        }
        slice_to_vec(self.as_str().as_bytes())
    }

    fn from_bytes(bytes: Vec<u8>) -> (r: Self) {
        let ghost b = bytes@;
        let s = string_from_utf8(bytes);
        proof {
            assert forall|v: String| v.encoded() == b implies v@ == s@ by {
                encode_utf8_decode_utf8(v@);
                encode_utf8_decode_utf8(s@);
            }
        }
        s
    }
}

impl Storable for u128 {
    open spec fn encoded(&self) -> Seq<u8> {
        be_bytes(*self as nat, 16)
    }

    open spec fn is_encoding(b: Seq<u8>) -> bool {
        b.len() == 16
    }

    fn to_bytes(&self) -> (r: Vec<u8>) {
        proof {
            lemma_be_bytes_len(*self as nat, 16);
        }
        be_encode(*self, 16)
    }

    fn from_bytes(bytes: Vec<u8>) -> (r: Self) {
        let x = be_decode(bytes.as_slice());
        proof {
            lemma_be_value_bound(bytes@);
            lemma_pow256_16();
            lemma_be_bytes_of_value(bytes@);
            assert forall|v: u128| v.encoded() == bytes@ implies v@ == x@ by {
                lemma_be_round_trip(v as nat, 16);
            }
        }
        x
    }
}

impl BoundedStorable for u128 {
    open spec fn spec_max_size() -> u32 {
        16
    }

    proof fn lemma_encoded_len(v: Self) {
        lemma_be_bytes_len(v as nat, 16);
    }

    fn max_size() -> (r: u32) {
        16
    }
}

impl Storable for u64 {
    open spec fn encoded(&self) -> Seq<u8> {
        be_bytes(*self as nat, 8)
    }

    open spec fn is_encoding(b: Seq<u8>) -> bool {
        b.len() == 8
    }

    fn to_bytes(&self) -> (r: Vec<u8>) {
        proof {
            lemma_be_bytes_len(*self as nat, 8);
        }
        be_encode(*self as u128, 8)
    }

    fn from_bytes(bytes: Vec<u8>) -> (r: Self) {
        let x = be_decode(bytes.as_slice());
        proof {
            lemma_be_value_bound(bytes@);
            lemma_pow256_16();
            lemma_be_bytes_of_value(bytes@);
            assert forall|v: u64| v.encoded() == bytes@ implies v@ == (x as u64)@ by {
                lemma_be_round_trip(v as nat, 8);
            }
        }
        x as u64
    }
}

impl BoundedStorable for u64 {
    open spec fn spec_max_size() -> u32 {
        8
    }

    proof fn lemma_encoded_len(v: Self) {
        lemma_be_bytes_len(v as nat, 8);
    }

    fn max_size() -> (r: u32) {
        8
    }
}

impl Storable for u32 {
    open spec fn encoded(&self) -> Seq<u8> {
        be_bytes(*self as nat, 4)
    }

    open spec fn is_encoding(b: Seq<u8>) -> bool {
        b.len() == 4
    }

    fn to_bytes(&self) -> (r: Vec<u8>) {
        proof {
            lemma_be_bytes_len(*self as nat, 4);
        }
        be_encode(*self as u128, 4)
    }

    fn from_bytes(bytes: Vec<u8>) -> (r: Self) {
        let x = be_decode(bytes.as_slice());
        proof {
            lemma_be_value_bound(bytes@);
            reveal_with_fuel(pow256, 5);
            lemma_be_bytes_of_value(bytes@);
            assert forall|v: u32| v.encoded() == bytes@ implies v@ == (x as u32)@ by {
                lemma_be_round_trip(v as nat, 4);
            }
        }
        x as u32
    }
}

impl BoundedStorable for u32 {
    open spec fn spec_max_size() -> u32 {
        4
    }

    proof fn lemma_encoded_len(v: Self) {
        lemma_be_bytes_len(v as nat, 4);
    }

    fn max_size() -> (r: u32) {
        4
    }
}

impl Storable for u16 {
    open spec fn encoded(&self) -> Seq<u8> {
        be_bytes(*self as nat, 2)
    }

    open spec fn is_encoding(b: Seq<u8>) -> bool {
        b.len() == 2
    }

    fn to_bytes(&self) -> (r: Vec<u8>) {
        proof {
            lemma_be_bytes_len(*self as nat, 2);
        }
        be_encode(*self as u128, 2)
    }

    fn from_bytes(bytes: Vec<u8>) -> (r: Self) {
        let x = be_decode(bytes.as_slice());
        proof {
            lemma_be_value_bound(bytes@);
            reveal_with_fuel(pow256, 3);
            lemma_be_bytes_of_value(bytes@);
            assert forall|v: u16| v.encoded() == bytes@ implies v@ == (x as u16)@ by {
                lemma_be_round_trip(v as nat, 2);
            }
        }
        x as u16
    }
}

impl BoundedStorable for u16 {
    open spec fn spec_max_size() -> u32 {
        2
    }

    proof fn lemma_encoded_len(v: Self) {
        lemma_be_bytes_len(v as nat, 2);
    }

    fn max_size() -> (r: u32) {
        2
    }
}

impl Storable for u8 {
    open spec fn encoded(&self) -> Seq<u8> {
        be_bytes(*self as nat, 1)
    }

    open spec fn is_encoding(b: Seq<u8>) -> bool {
        b.len() == 1
    }

    fn to_bytes(&self) -> (r: Vec<u8>) {
        proof {
            lemma_be_bytes_len(*self as nat, 1);
        }
        be_encode(*self as u128, 1)
    }

    fn from_bytes(bytes: Vec<u8>) -> (r: Self) {
        let x = be_decode(bytes.as_slice());
        proof {
            lemma_be_value_bound(bytes@);
            reveal_with_fuel(pow256, 2);
            lemma_be_bytes_of_value(bytes@);
            assert forall|v: u8| v.encoded() == bytes@ implies v@ == (x as u8)@ by {
                lemma_be_round_trip(v as nat, 1);
            }
        }
        x as u8
    }
}

impl BoundedStorable for u8 {
    open spec fn spec_max_size() -> u32 {
        1
    }

    proof fn lemma_encoded_len(v: Self) {
        lemma_be_bytes_len(v as nat, 1);
    }

    fn max_size() -> (r: u32) {
        1
    }
}

} // verus!
