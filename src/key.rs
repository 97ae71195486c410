use vstd::prelude::*;
use vstd::slice::slice_to_vec;
use vstd::utf8::encode_utf8;

verus! {

/// The number of values that fit in `width` bytes.
pub open spec fn byte_range(width: nat) -> nat
    decreases width,
{
    if width == 0 {
        1
    } else {
        256 * byte_range((width - 1) as nat)
    }
}

/// Big-endian bytes of `v`, taken as an unsigned number of `width` bytes.
pub open spec fn be_bytes(v: nat, width: nat) -> Seq<u8>
    decreases width,
{
    if width == 0 {
        Seq::empty()
    } else {
        be_bytes(v / 256, (width - 1) as nat).push((v % 256) as u8)
    }
}

/// The order in which the engine keeps keys: byte by byte, and a proper
/// prefix before every longer key that it starts.
pub open spec fn key_lt(a: Seq<u8>, b: Seq<u8>) -> bool
    decreases a.len(),
{
    if b.len() == 0 {
        false
    } else if a.len() == 0 {
        true
    } else if a[0] != b[0] {
        a[0] < b[0]
    } else {
        key_lt(a.drop_first(), b.drop_first())
    }
}

/// A value that can stand as the key of a record: it has one byte encoding.
pub trait KeyBytes {
    /// The bytes the engine indexes this key by.
    spec fn key_bytes(&self) -> Seq<u8>;

    fn to_key_bytes(&self) -> (r: Vec<u8>)
        ensures
            r@ == self.key_bytes(),
    ;
}

fn be_encode(v: u64, width: usize) -> (r: Vec<u8>)
    ensures
        r@ == be_bytes(v as nat, width as nat),
    decreases width,
{
    if width == 0 {
        Vec::new()
    } else {
        let mut r = be_encode(v / 256, width - 1);
        r.push((v % 256) as u8);
        r
    }
}

impl KeyBytes for u8 {
    open spec fn key_bytes(&self) -> Seq<u8> {
        be_bytes(*self as nat, 1)
    }

    fn to_key_bytes(&self) -> (r: Vec<u8>) {
        be_encode(*self as u64, 1)
    }
}

impl KeyBytes for u16 {
    open spec fn key_bytes(&self) -> Seq<u8> {
        be_bytes(*self as nat, 2)
    }

    fn to_key_bytes(&self) -> (r: Vec<u8>) {
        be_encode(*self as u64, 2)
    }
}

impl KeyBytes for u32 {
    open spec fn key_bytes(&self) -> Seq<u8> {
        be_bytes(*self as nat, 4)
    }

    fn to_key_bytes(&self) -> (r: Vec<u8>) {
        be_encode(*self as u64, 4)
    }
}

impl KeyBytes for u64 {
    open spec fn key_bytes(&self) -> Seq<u8> {
        be_bytes(*self as nat, 8)
    }

    fn to_key_bytes(&self) -> (r: Vec<u8>) {
        be_encode(*self, 8)
    }
}

impl KeyBytes for String {
    open spec fn key_bytes(&self) -> Seq<u8> {
        encode_utf8(self@)
    }

    fn to_key_bytes(&self) -> (r: Vec<u8>) {
        slice_to_vec(self.as_str().as_bytes())
    }
}

impl KeyBytes for Vec<u8> {
    open spec fn key_bytes(&self) -> Seq<u8> {
        self@
    }

    fn to_key_bytes(&self) -> (r: Vec<u8>) {
        self.clone()
    }
}

/// A key value staged for conversion into the bytes the engine indexes by.
pub struct Key<T> {
    value: T,
}

impl<T> Key<T> {
    pub closed spec fn spec_value(&self) -> T {
        self.value
    }

    /// Wraps `value` as a key.
    pub fn from(value: T) -> (r: Key<T>)
        ensures
            r.spec_value() == value,
    {
        Key { value }
    }

    pub fn value(&self) -> (r: &T)
        ensures
            *r == self.spec_value(),
    {
        &self.value
    }
}

impl<T: KeyBytes> KeyBytes for Key<T> {
    open spec fn key_bytes(&self) -> Seq<u8> {
        self.spec_value().key_bytes()
    }

    fn to_key_bytes(&self) -> (r: Vec<u8>) {
        self.value.to_key_bytes()
    }
}

/// Values of one width that differ never share an encoding.
pub proof fn lemma_be_bytes_injective(v: nat, w: nat, width: nat)
    requires
        v < byte_range(width),
        w < byte_range(width),
        be_bytes(v, width) == be_bytes(w, width),
    ensures
        v == w,
    decreases width,
{
    if width > 0 {
        let a = be_bytes(v / 256, (width - 1) as nat);
        let b = be_bytes(w / 256, (width - 1) as nat);
        assert(a == be_bytes(v, width).drop_last());
        assert(b == be_bytes(w, width).drop_last());
        assert(be_bytes(v, width).last() == (v % 256) as u8);
        assert(be_bytes(w, width).last() == (w % 256) as u8);
        assert(v / 256 < byte_range((width - 1) as nat)) by (nonlinear_arith)
            requires
                v < 256 * byte_range((width - 1) as nat),
        ;
        assert(w / 256 < byte_range((width - 1) as nat)) by (nonlinear_arith)
            requires
                w < 256 * byte_range((width - 1) as nat),
        ;
        lemma_be_bytes_injective(v / 256, w / 256, (width - 1) as nat);
    }
}

/// No key comes before itself.
pub proof fn lemma_key_lt_irreflexive(a: Seq<u8>)
    ensures
        !key_lt(a, a),
    decreases a.len(),
{
    if a.len() > 0 {
        lemma_key_lt_irreflexive(a.drop_first());
    }
}

/// The key order is transitive.
pub proof fn lemma_key_lt_transitive(a: Seq<u8>, b: Seq<u8>, c: Seq<u8>)
    requires
        key_lt(a, b),
        key_lt(b, c),
    ensures
        key_lt(a, c),
    decreases a.len(),
{
    if a.len() > 0 && a[0] == b[0] && b[0] == c[0] {
        lemma_key_lt_transitive(a.drop_first(), b.drop_first(), c.drop_first());
    }
}

/// Of two different keys, one comes before the other.
pub proof fn lemma_key_lt_total(a: Seq<u8>, b: Seq<u8>)
    requires
        a != b,
    ensures
        key_lt(a, b) || key_lt(b, a),
    decreases a.len(),
{
    if a.len() > 0 && b.len() > 0 && a[0] == b[0] {
        if a.drop_first() == b.drop_first() {
            assert(a =~= seq![a[0]] + a.drop_first());
            assert(b =~= seq![b[0]] + b.drop_first());
        }
        lemma_key_lt_total(a.drop_first(), b.drop_first());
    } else if a.len() == 0 && b.len() == 0 {
        assert(a =~= b);
    }
}

/// The keys after `a` are exactly those not before `a` followed by a zero
/// byte, the least key after `a`.
pub proof fn lemma_key_after(a: Seq<u8>, j: Seq<u8>)
    ensures
        key_lt(a, j) <==> !key_lt(j, a.push(0)),
    decreases a.len(),
{
    if a.len() > 0 && j.len() > 0 {
        assert(a.push(0)[0] == a[0]);
        assert(a.push(0).drop_first() =~= a.drop_first().push(0));
        lemma_key_after(a.drop_first(), j.drop_first());
    } else if a.len() == 0 {
        assert(a.push(0) =~= seq![0u8]);
        if j.len() > 0 {
            assert(seq![0u8].drop_first().len() == 0);
            assert(!key_lt(j.drop_first(), seq![0u8].drop_first()));
            assert(!key_lt(j, seq![0u8]));
        }
    }
}

/// The encoding of a `width`-byte number is `width` bytes long.
pub proof fn lemma_be_bytes_len(v: nat, width: nat)
    ensures
        be_bytes(v, width).len() == width,
    decreases width,
{
    if width > 0 {
        lemma_be_bytes_len(v / 256, (width - 1) as nat);
    }
}

/// Between keys of one length that end in one byte each, the order is that of
/// the leading parts, and of the last bytes where those are equal.
pub proof fn lemma_key_lt_push(a: Seq<u8>, b: Seq<u8>, x: u8, y: u8)
    requires
        a.len() == b.len(),
    ensures
        key_lt(a.push(x), b.push(y)) <==> key_lt(a, b) || (a == b && x < y),
    decreases a.len(),
{
    if a.len() == 0 {
        assert(a.push(x) =~= seq![x]);
        assert(b.push(y) =~= seq![y]);
        assert(a =~= b);
        assert(seq![x].drop_first().len() == 0);
        assert(seq![y].drop_first().len() == 0);
        assert(!key_lt(seq![x].drop_first(), seq![y].drop_first()));
    } else {
        assert(a.push(x)[0] == a[0]);
        assert(b.push(y)[0] == b[0]);
        assert(a.push(x).drop_first() =~= a.drop_first().push(x));
        assert(b.push(y).drop_first() =~= b.drop_first().push(y));
        lemma_key_lt_push(a.drop_first(), b.drop_first(), x, y);
        if a[0] == b[0] && a.drop_first() == b.drop_first() {
            assert(a =~= seq![a[0]] + a.drop_first());
            assert(b =~= seq![b[0]] + b.drop_first());
        }
    }
}

/// Fixed-width big-endian encoding keeps numeric order: in the engine's key
/// order, smaller numbers come first.
pub proof fn lemma_be_bytes_order(v: nat, w: nat, width: nat)
    requires
        v < byte_range(width),
        w < byte_range(width),
    ensures
        v < w <==> key_lt(be_bytes(v, width), be_bytes(w, width)),
    decreases width,
{
    if width == 0 {
        lemma_key_lt_irreflexive(Seq::empty());
    } else {
        let n = (width - 1) as nat;
        assert(v / 256 < byte_range(n)) by (nonlinear_arith)
            requires
                v < 256 * byte_range(n),
        ;
        assert(w / 256 < byte_range(n)) by (nonlinear_arith)
            requires
                w < 256 * byte_range(n),
        ;
        lemma_be_bytes_order(v / 256, w / 256, n);
        lemma_be_bytes_len(v / 256, n);
        lemma_be_bytes_len(w / 256, n);
        lemma_key_lt_push(be_bytes(v / 256, n), be_bytes(w / 256, n), (v % 256) as u8, (w % 256) as u8);
        if be_bytes(v / 256, n) == be_bytes(w / 256, n) {
            lemma_be_bytes_injective(v / 256, w / 256, n);
        }
        assert(v < w <==> (v / 256 < w / 256 || (v / 256 == w / 256 && v % 256 < w % 256))) by (nonlinear_arith);
    }
}

/// The key encoding is a function of the value: equal keys give equal bytes,
/// whenever and however often they are encoded.
pub proof fn lemma_key_bytes_deterministic<K: KeyBytes>(a: K, b: K)
    requires
        a == b,
    ensures
        a.key_bytes() == b.key_bytes(),
{
}

/// Two `u32` keys are in the engine's key order as they are as numbers, and
/// different keys never share bytes.
pub proof fn lemma_u32_key_order(a: u32, b: u32)
    ensures
        a < b <==> key_lt(a.key_bytes(), b.key_bytes()),
        a.key_bytes() == b.key_bytes() ==> a == b,
{
    reveal_with_fuel(byte_range, 5);
    assert(byte_range(4) == 0x1_0000_0000);
    lemma_be_bytes_order(a as nat, b as nat, 4);
    if a.key_bytes() == b.key_bytes() {
        lemma_be_bytes_injective(a as nat, b as nat, 4);
    }
}

/// Two `u64` keys are in the engine's key order as they are as numbers, and
/// different keys never share bytes.
pub proof fn lemma_u64_key_order(a: u64, b: u64)
    ensures
        a < b <==> key_lt(a.key_bytes(), b.key_bytes()),
        a.key_bytes() == b.key_bytes() ==> a == b,
{
    reveal_with_fuel(byte_range, 9);
    assert(byte_range(8) == 0x1_0000_0000_0000_0000);
    lemma_be_bytes_order(a as nat, b as nat, 8);
    if a.key_bytes() == b.key_bytes() {
        lemma_be_bytes_injective(a as nat, b as nat, 8);
    }
}

} // verus!
