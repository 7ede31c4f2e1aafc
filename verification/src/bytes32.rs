//! 256-bit values (digests and public keys) held as two 128-bit halves, and
//! the 64-byte secret key that signs with them.
//!
//! The halves are the big-endian readings of the first and the last sixteen
//! bytes, so comparing `(hi, lo)` pairs orders two values exactly as comparing
//! their byte strings lexicographically does.

use vstd::prelude::*;

verus! {

/// A 32-byte string, read as two big-endian 128-bit integers.
#[derive(Clone, Copy, Debug, PartialEq, Eq, Structural, Hash)]
pub struct Bytes32 {
    pub hi: u128,
    pub lo: u128,
}

/// The canonical hash of a message, or the fingerprint of a set of them.
pub type HashVal = Bytes32;

/// An Ed25519 public key.
pub type PublicKey = Bytes32;

/// An Ed25519 secret key: the 32-byte seed followed by the 32-byte public key.
#[derive(Clone, Copy, Debug)]
pub struct SecretKey {
    pub bytes: [u8; 64],
}

/// The integer whose big-endian digits are `s`, kept to its low 128 bits.
pub open spec fn be_word(s: Seq<u8>) -> u128
    decreases s.len(),
{
    if s.len() == 0 {
        0
    } else {
        (be_word(s.drop_last()) << 8) | (s.last() as u128)
    }
}

/// Byte `i` (0 is the most significant) of the big-endian writing of `w`.
pub open spec fn word_byte(w: u128, i: int) -> u8 {
    ((w >> (((15 - i) * 8) as u128)) & 0xff) as u8
}

/// The sixteen bytes that write `w` in big-endian order.
pub open spec fn word_bytes(w: u128) -> Seq<u8> {
    Seq::new(16, |i: int| word_byte(w, i))
}

/// Reads the sixteen bytes from `start` on as a big-endian integer.
fn read_word(b: &[u8; 32], start: usize) -> (w: u128)
    requires
        start + 16 <= 32,
    ensures
        w == be_word(b@.subrange(start as int, start + 16)),
{
    let mut w: u128 = 0;
    let mut i: usize = 0;
    while i < 16
        invariant
            i <= 16,
            start + 16 <= 32,
            w == be_word(b@.subrange(start as int, start + i)),
        decreases 16 - i,
    {
        proof {
            let next = b@.subrange(start as int, start + i + 1);
            assert(next.drop_last() =~= b@.subrange(start as int, start + i));
            assert(next.last() == b@[start + i]);
        }
        w = (w << 8) | (b[start + i] as u128);
        i += 1;
    }
    w
}

/// Writes `w` to the sixteen bytes from `start` on, the most significant
/// first.
fn write_word(out: &mut [u8; 32], start: usize, w: u128)
    requires
        start + 16 <= 32,
    ensures
        forall|j: int| 0 <= j < 16 ==> final(out)@[start + j] == word_byte(w, j),
        forall|j: int| 0 <= j < 32 && !(start <= j < start + 16) ==> final(out)@[j] == old(out)@[j],
{
    let mut i: usize = 0;
    while i < 16
        invariant
            i <= 16,
            start + 16 <= 32,
            forall|j: int| 0 <= j < i ==> out@[start + j] == word_byte(w, j),
            forall|j: int| 0 <= j < 32 && !(start <= j < start + i) ==> out@[j] == old(out)@[j],
        decreases 16 - i,
    {
        let shift: u128 = ((15 - i) * 8) as u128;
        let low: u128 = (w >> shift) & 0xff;
        assert(low < 256) by (bit_vector)
            requires
                low == (w >> shift) & 0xff,
        ;
        out[start + i] = low as u8;
        i += 1;
    }
}

/// Writes `w` as sixteen bytes, the most significant first.
pub fn word_to_bytes(w: u128) -> (b: Vec<u8>)
    ensures
        b@ == word_bytes(w),
{
    let mut b: Vec<u8> = Vec::new();
    let mut i: usize = 0;
    while i < 16
        invariant
            i <= 16,
            b@.len() == i,
            forall|j: int| 0 <= j < i ==> b@[j] == word_byte(w, j),
        decreases 16 - i,
    {
        let shift: u128 = ((15 - i) * 8) as u128;
        let low: u128 = (w >> shift) & 0xff;
        assert(low < 256) by (bit_vector)
            requires
                low == (w >> shift) & 0xff,
        ;
        b.push(low as u8);
        i += 1;
    }
    assert(b@ =~= word_bytes(w));
    b
}

impl Bytes32 {
    /// The value whose 32 bytes are all zero.
    pub open spec fn zero() -> Bytes32 {
        Bytes32 { hi: 0, lo: 0 }
    }

    /// The value that the 32 bytes `s` write.
    pub open spec fn from_seq(s: Seq<u8>) -> Bytes32 {
        Bytes32 { hi: be_word(s.subrange(0, 16)), lo: be_word(s.subrange(16, 32)) }
    }

    /// The 32 bytes that write this value.
    pub open spec fn to_seq(self) -> Seq<u8> {
        word_bytes(self.hi) + word_bytes(self.lo)
    }

    /// Strictly below `other` in the order of the byte strings.
    pub open spec fn lt(self, other: Bytes32) -> bool {
        self.hi < other.hi || (self.hi == other.hi && self.lo < other.lo)
    }

    /// Bitwise exclusive or.
    pub open spec fn xor_spec(self, other: Bytes32) -> Bytes32 {
        Bytes32 { hi: self.hi ^ other.hi, lo: self.lo ^ other.lo }
    }

    /// Reads a value from its 32 bytes.
    pub fn from_bytes(b: &[u8; 32]) -> (r: Bytes32)
        ensures
            r == Bytes32::from_seq(b@),
    {
        Bytes32 { hi: read_word(b, 0), lo: read_word(b, 16) }
    }

    /// Writes the value as its 32 bytes.
    pub fn to_bytes(&self) -> (b: [u8; 32])
        ensures
            b@ == self.to_seq(),
    {
        let mut b: [u8; 32] = [0u8; 32];
        write_word(&mut b, 0, self.hi);
        write_word(&mut b, 16, self.lo);
        assert(b@ =~= self.to_seq());
        b
    }

    /// The value whose 32 bytes are all zero.
    pub fn all_zero() -> (r: Bytes32)
        ensures
            r == Bytes32::zero(),
    {
        Bytes32 { hi: 0, lo: 0 }
    }

    /// Whether this value comes strictly before `other`.
    pub fn less_than(&self, other: &Bytes32) -> (r: bool)
        ensures
            r == self.lt(*other),
    {
        self.hi < other.hi || (self.hi == other.hi && self.lo < other.lo)
    }

    /// The bitwise exclusive or of the two values.
    pub fn xor(&self, other: &Bytes32) -> (r: Bytes32)
        ensures
            r == self.xor_spec(*other),
    {
        Bytes32 { hi: self.hi ^ other.hi, lo: self.lo ^ other.lo }
    }
}

/// `s` comes before `t` in the dictionary order of byte strings of one
/// length: at the first place where they differ, `s` has the smaller byte.
pub open spec fn lex_lt(s: Seq<u8>, t: Seq<u8>) -> bool {
    exists|i: int|
        0 <= i < s.len() && (#[trigger] s[i]) < t[i] && forall|j: int|
            0 <= j < i ==> (#[trigger] s[j]) == t[j]
}

/// Up to sixteen bytes are read without loss: two strings of one length give
/// the same integer only if they are the same, and the smaller integer only
/// if they come first in dictionary order.
proof fn lemma_word_order(s: Seq<u8>, t: Seq<u8>)
    requires
        s.len() == t.len(),
        s.len() <= 16,
    ensures
        be_word(s) == be_word(t) <==> s == t,
        be_word(s) < be_word(t) <==> lex_lt(s, t),
        1 <= s.len() < 16 ==> be_word(s) <= (u128::MAX >> ((8 * (16 - s.len())) as u128))
            && be_word(t) <= (u128::MAX >> ((8 * (16 - s.len())) as u128)),
    decreases s.len(),
{
    let n = s.len() as int;
    if n == 0 {
        assert(s =~= t);
    } else {
        let sf = s.drop_last();
        let tf = t.drop_last();
        let a: u128 = s.last() as u128;
        let c: u128 = t.last() as u128;
        let x = be_word(sf);
        let y = be_word(tf);
        lemma_word_order(sf, tf);
        assert(s =~= sf.push(s.last()));
        assert(t =~= tf.push(t.last()));
        if n == 1 {
            assert(x == 0 && y == 0);
            assert(sf =~= tf);
            assert((((0u128 << 8) | a) < ((0u128 << 8) | c)) <==> a < c) by (bit_vector)
                requires
                    a < 256,
                    c < 256,
            ;
            assert((((0u128 << 8) | a) == ((0u128 << 8) | c)) <==> a == c) by (bit_vector)
                requires
                    a < 256,
                    c < 256,
            ;
            assert(((0u128 << 8) | a) <= (u128::MAX >> 120u128)) by (bit_vector)
                requires
                    a < 256,
            ;
            assert(((0u128 << 8) | c) <= (u128::MAX >> 120u128)) by (bit_vector)
                requires
                    c < 256,
            ;
        } else {
            let room: u128 = (8 * (16 - (n - 1))) as u128;
            assert(sf.len() == n - 1);
            assert(x <= (u128::MAX >> room) && y <= (u128::MAX >> room));
            assert(x < y ==> ((x << 8) | a) < ((y << 8) | c)) by (bit_vector)
                requires
                    8 <= room <= 120,
                    x <= (u128::MAX >> room),
                    y <= (u128::MAX >> room),
                    a < 256,
                    c < 256,
            ;
            assert(x == y ==> ((((x << 8) | a) < ((y << 8) | c)) <==> a < c)) by (bit_vector)
                requires
                    8 <= room <= 120,
                    x <= (u128::MAX >> room),
                    y <= (u128::MAX >> room),
                    a < 256,
                    c < 256,
            ;
            assert(x == y ==> ((((x << 8) | a) == ((y << 8) | c)) <==> a == c)) by (bit_vector)
                requires
                    8 <= room <= 120,
                    x <= (u128::MAX >> room),
                    y <= (u128::MAX >> room),
                    a < 256,
                    c < 256,
            ;
            assert(y < x ==> ((y << 8) | c) < ((x << 8) | a)) by (bit_vector)
                requires
                    8 <= room <= 120,
                    x <= (u128::MAX >> room),
                    y <= (u128::MAX >> room),
                    a < 256,
                    c < 256,
            ;
            if n < 16 {
                let less: u128 = (room - 8) as u128;
                assert(((x << 8) | a) <= (u128::MAX >> less)) by (bit_vector)
                    requires
                        16 <= room <= 120,
                        less == room - 8,
                        x <= (u128::MAX >> room),
                        a < 256,
                ;
                assert(((y << 8) | c) <= (u128::MAX >> less)) by (bit_vector)
                    requires
                        16 <= room <= 120,
                        less == room - 8,
                        y <= (u128::MAX >> room),
                        c < 256,
                ;
            }
        }
        if s == t {
            assert(sf == tf);
        }
        assert(lex_lt(s, t) <==> (lex_lt(sf, tf) || (sf == tf && a < c))) by {
            if lex_lt(sf, tf) {
                let i = choose|i: int|
                    0 <= i < sf.len() && (#[trigger] sf[i]) < tf[i] && forall|j: int|
                        0 <= j < i ==> (#[trigger] sf[j]) == tf[j];
                assert(s[i] < t[i]);
                assert forall|j: int| 0 <= j < i implies (#[trigger] s[j]) == t[j] by {
                    assert(sf[j] == tf[j]);
                }
            }
            if sf == tf && a < c {
                assert(s[n - 1] < t[n - 1]);
                assert forall|j: int| 0 <= j < n - 1 implies (#[trigger] s[j]) == t[j] by {
                    assert(sf[j] == tf[j]);
                }
            }
            if lex_lt(s, t) {
                let i = choose|i: int|
                    0 <= i < s.len() && (#[trigger] s[i]) < t[i] && forall|j: int|
                        0 <= j < i ==> (#[trigger] s[j]) == t[j];
                if i < n - 1 {
                    assert(sf[i] < tf[i]);
                    assert forall|j: int| 0 <= j < i implies (#[trigger] sf[j]) == tf[j] by {
                        assert(s[j] == t[j]);
                    }
                } else {
                    assert forall|j: int| 0 <= j < n - 1 implies sf[j] == tf[j] by {
                        assert(s[j] == t[j]);
                    }
                    assert(sf =~= tf);
                }
            }
        }
    }
}

/// The order of the values is the dictionary order of their 32 bytes, and
/// two 32-byte strings write the same value only if they are the same.
pub proof fn law_order_is_byte_order(s: Seq<u8>, t: Seq<u8>)
    requires
        s.len() == 32,
        t.len() == 32,
    ensures
        Bytes32::from_seq(s).lt(Bytes32::from_seq(t)) <==> lex_lt(s, t),
        Bytes32::from_seq(s) == Bytes32::from_seq(t) <==> s == t,
{
    let (sh, sl) = (s.subrange(0, 16), s.subrange(16, 32));
    let (th, tl) = (t.subrange(0, 16), t.subrange(16, 32));
    lemma_word_order(sh, th);
    lemma_word_order(sl, tl);
    if sh == th && sl == tl {
        assert(s =~= sh + sl);
        assert(t =~= th + tl);
    }
    assert(lex_lt(s, t) <==> (lex_lt(sh, th) || (sh == th && lex_lt(sl, tl)))) by {
        if lex_lt(sh, th) {
            let i = choose|i: int|
                0 <= i < sh.len() && (#[trigger] sh[i]) < th[i] && forall|j: int|
                    0 <= j < i ==> (#[trigger] sh[j]) == th[j];
            assert(s[i] < t[i]);
            assert forall|j: int| 0 <= j < i implies (#[trigger] s[j]) == t[j] by {
                assert(sh[j] == th[j]);
            }
        }
        if sh == th && lex_lt(sl, tl) {
            let i = choose|i: int|
                0 <= i < sl.len() && (#[trigger] sl[i]) < tl[i] && forall|j: int|
                    0 <= j < i ==> (#[trigger] sl[j]) == tl[j];
            assert(s[i + 16] < t[i + 16]);
            assert forall|j: int| 0 <= j < i + 16 implies (#[trigger] s[j]) == t[j] by {
                if j < 16 {
                    assert(sh[j] == th[j]);
                } else {
                    assert(sl[j - 16] == tl[j - 16]);
                }
            }
        }
        if lex_lt(s, t) {
            let i = choose|i: int|
                0 <= i < s.len() && (#[trigger] s[i]) < t[i] && forall|j: int|
                    0 <= j < i ==> (#[trigger] s[j]) == t[j];
            if i < 16 {
                assert(sh[i] < th[i]);
                assert forall|j: int| 0 <= j < i implies (#[trigger] sh[j]) == th[j] by {
                    assert(s[j] == t[j]);
                }
            } else {
                assert forall|j: int| 0 <= j < 16 implies sh[j] == th[j] by {
                    assert(s[j] == t[j]);
                }
                assert(sh =~= th);
                assert(sl[i - 16] < tl[i - 16]);
                assert forall|j: int| 0 <= j < i - 16 implies (#[trigger] sl[j]) == tl[j] by {
                    assert(s[j + 16] == t[j + 16]);
                }
            }
        }
    }
}

/// The first `k` bytes of the writing of `w` read as the top `k` bytes of
/// `w`.
proof fn lemma_read_written(w: u128, k: int)
    requires
        1 <= k <= 16,
    ensures
        be_word(word_bytes(w).take(k)) == w >> ((8 * (16 - k)) as u128),
    decreases k,
{
    let s = word_bytes(w).take(k);
    let shift: u128 = (8 * (16 - k)) as u128;
    let byte: u128 = s.last() as u128;
    assert(s.last() == word_byte(w, k - 1));
    assert(byte == (w >> shift) & 0xff) by (bit_vector)
        requires
            byte == ((((w >> shift) & 0xff) as u8) as u128),
    ;
    if k == 1 {
        assert(s.drop_last() =~= Seq::<u8>::empty());
        assert(be_word(s.drop_last()) == 0);
        assert(((0u128 << 8) | ((w >> 120u128) & 0xff)) == w >> 120u128) by (bit_vector);
    } else {
        assert(s.drop_last() =~= word_bytes(w).take(k - 1));
        lemma_read_written(w, k - 1);
        let above: u128 = w >> ((shift + 8) as u128);
        assert(((above << 8) | ((w >> shift) & 0xff)) == w >> shift) by (bit_vector)
            requires
                shift <= 112,
                above == w >> ((shift + 8) as u128),
        ;
    }
}

/// The exclusive or of two values is the exclusive or of their bytes, place
/// by place.
pub proof fn law_xor_is_bytewise(x: Bytes32, y: Bytes32, i: int)
    requires
        0 <= i < 32,
    ensures
        x.xor_spec(y).to_seq()[i] == x.to_seq()[i] ^ y.to_seq()[i],
{
    let (a, b) = if i < 16 {
        (x.hi, y.hi)
    } else {
        (x.lo, y.lo)
    };
    let place = if i < 16 {
        i
    } else {
        i - 16
    };
    let shift: u128 = ((15 - place) * 8) as u128;
    let mixed: u8 = (((a ^ b) >> shift) & 0xff) as u8;
    let left: u8 = ((a >> shift) & 0xff) as u8;
    let right: u8 = ((b >> shift) & 0xff) as u8;
    assert(mixed == left ^ right) by (bit_vector)
        requires
            shift <= 120,
            mixed == ((((a ^ b) >> shift) & 0xff) as u8),
            left == (((a >> shift) & 0xff) as u8),
            right == (((b >> shift) & 0xff) as u8),
    ;
    assert(x.xor_spec(y).to_seq()[i] == word_byte(a ^ b, place));
    assert(x.to_seq()[i] == word_byte(a, place));
    assert(y.to_seq()[i] == word_byte(b, place));
}

/// Writing a value and reading the bytes gives the value back.
pub proof fn law_read_what_was_written(x: Bytes32)
    ensures
        x.to_seq().len() == 32,
        Bytes32::from_seq(x.to_seq()) == x,
{
    let s = x.to_seq();
    assert(s.subrange(0, 16) =~= word_bytes(x.hi).take(16));
    assert(s.subrange(16, 32) =~= word_bytes(x.lo).take(16));
    lemma_read_written(x.hi, 16);
    lemma_read_written(x.lo, 16);
    let (hi, lo) = (x.hi, x.lo);
    assert(hi >> 0u128 == hi) by (bit_vector);
    assert(lo >> 0u128 == lo) by (bit_vector);
}

/// Reading 32 bytes and writing the value gives the bytes back.
pub proof fn law_write_what_was_read(s: Seq<u8>)
    requires
        s.len() == 32,
    ensures
        Bytes32::from_seq(s).to_seq() == s,
{
    let x = Bytes32::from_seq(s);
    law_read_what_was_written(x);
    law_order_is_byte_order(x.to_seq(), s);
}

} // verus!
