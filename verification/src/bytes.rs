//! Big-endian byte strings and the numbers that they stand for.

use vstd::arithmetic::power::pow;
use vstd::prelude::*;

verus! {

/// The number that a big-endian byte string stands for.
pub open spec fn be_value(s: Seq<u8>) -> nat
    decreases s.len(),
{
    if s.len() == 0 {
        0
    } else {
        be_value(s.drop_last()) * 256 + s.last() as nat
    }
}

/// The shortest big-endian byte string for a number (zero is the empty string).
pub open spec fn minimal_be(n: nat) -> Seq<u8>
    decreases n,
{
    if n == 0 {
        Seq::empty()
    } else {
        minimal_be(n / 256).push((n % 256) as u8)
    }
}

/// The big-endian byte string of exactly `len` bytes for a number, taken modulo `256^len`.
pub open spec fn be_bytes(n: nat, len: nat) -> Seq<u8>
    decreases len,
{
    if len == 0 {
        Seq::empty()
    } else {
        be_bytes(n / 256, (len - 1) as nat).push((n % 256) as u8)
    }
}

/// A byte string without its leading zeros.
pub open spec fn trim_zeros(s: Seq<u8>) -> Seq<u8>
    decreases s.len(),
{
    if s.len() > 0 && s[0] == 0 {
        trim_zeros(s.drop_first())
    } else {
        s
    }
}

/// `len` zero bytes.
pub open spec fn zeros(len: nat) -> Seq<u8> {
    Seq::new(len, |i: int| 0u8)
}

/// Zeros stand for zero.
pub proof fn lemma_be_value_zeros(len: nat)
    ensures
        be_value(zeros(len)) == 0,
    decreases len,
{
    if len > 0 {
        assert(zeros(len).drop_last() =~= zeros((len - 1) as nat));
        lemma_be_value_zeros((len - 1) as nat);
    }
}

/// A number below `256^k` needs no more than `k` bytes.
pub proof fn lemma_be_value_bound(s: Seq<u8>)
    ensures
        be_value(s) < pow(256, s.len()),
    decreases s.len(),
{
    reveal(pow);
    if s.len() > 0 {
        lemma_be_value_bound(s.drop_last());
        assert(pow(256, s.len()) == 256 * pow(256, (s.len() - 1) as nat));
    }
}

/// The value of a concatenation.
pub proof fn lemma_be_value_concat(a: Seq<u8>, b: Seq<u8>)
    ensures
        be_value(a + b) == be_value(a) * pow(256, b.len()) + be_value(b),
    decreases b.len(),
{
    reveal(pow);
    if b.len() == 0 {
        assert(a + b =~= a);
        assert(pow(256, 0) == 1);
    } else {
        let c = b.drop_last();
        lemma_be_value_concat(a, c);
        assert((a + b).drop_last() =~= a + c);
        assert(pow(256, b.len()) == 256 * pow(256, c.len()));
        let p = pow(256, c.len());
        let v = be_value(a) as int;
        assert(v * (256 * p) == (v * p) * 256) by (nonlinear_arith);
    }
}

/// Leading zeros do not count.
pub proof fn lemma_be_value_trim(s: Seq<u8>)
    ensures
        be_value(trim_zeros(s)) == be_value(s),
        trim_zeros(s).len() <= s.len(),
        trim_zeros(s).len() > 0 ==> trim_zeros(s)[0] != 0,
    decreases s.len(),
{
    if s.len() > 0 && s[0] == 0 {
        lemma_be_value_trim(s.drop_first());
        assert(s =~= seq![0u8] + s.drop_first());
        lemma_be_value_concat(seq![0u8], s.drop_first());
        assert(be_value(seq![0u8]) == 0) by {
            assert(seq![0u8] =~= zeros(1));
            lemma_be_value_zeros(1);
        }
        assert(0 * pow(256, s.drop_first().len()) == 0);
    }
}

/// A byte string that does not start with zero is the shortest one for its value.
pub proof fn lemma_minimal_be_unique(s: Seq<u8>)
    requires
        s.len() > 0 ==> s[0] != 0,
    ensures
        minimal_be(be_value(s)) == s,
        s.len() > 0 ==> be_value(s) > 0,
    decreases s.len(),
{
    if s.len() > 0 {
        let t = s.drop_last();
        lemma_minimal_be_unique(t);
        let v = be_value(s);
        assert(v == be_value(t) * 256 + s.last() as nat);
        assert(v / 256 == be_value(t) && v % 256 == s.last() as nat);
        if t.len() == 0 {
            assert(s.last() == s[0]);
        }
        assert(minimal_be(v) =~= t.push(s.last()));
        assert(t.push(s.last()) =~= s);
    } else {
        assert(s =~= Seq::<u8>::empty());
    }
}

/// The shortest byte string of a value is the byte string without its leading zeros.
pub proof fn lemma_minimal_be_is_trim(s: Seq<u8>)
    ensures
        minimal_be(be_value(s)) == trim_zeros(s),
{
    lemma_be_value_trim(s);
    lemma_minimal_be_unique(trim_zeros(s));
}

/// The length of a byte string of a given length.
pub proof fn lemma_be_bytes_len(n: nat, len: nat)
    ensures
        be_bytes(n, len).len() == len,
    decreases len,
{
    if len > 0 {
        lemma_be_bytes_len(n / 256, (len - 1) as nat);
    }
}

/// Reading a number back from its bytes.
pub proof fn lemma_be_value_of_be_bytes(n: nat, len: nat)
    requires
        n < pow(256, len),
    ensures
        be_value(be_bytes(n, len)) == n,
    decreases len,
{
    reveal(pow);
    if len > 0 {
        let p = pow(256, (len - 1) as nat);
        assert(pow(256, len) == 256 * p);
        assert(n / 256 < p);
        lemma_be_value_of_be_bytes(n / 256, (len - 1) as nat);
        let s = be_bytes(n, len);
        assert(s.drop_last() =~= be_bytes(n / 256, (len - 1) as nat));
    }
}

/// A byte string is the big-endian form of its value.
pub proof fn lemma_be_bytes_of_be_value(s: Seq<u8>)
    ensures
        be_bytes(be_value(s), s.len()) == s,
    decreases s.len(),
{
    if s.len() > 0 {
        let t = s.drop_last();
        lemma_be_bytes_of_be_value(t);
        let v = be_value(s);
        assert(v / 256 == be_value(t) && v % 256 == s.last() as nat);
        assert(be_bytes(v, s.len()) =~= s);
    } else {
        assert(s =~= Seq::<u8>::empty());
    }
}

} // verus!
