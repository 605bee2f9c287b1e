//! The mathematical model: bytes and byte sequences read as big-endian bit
//! strings, the numeric value of a bit string, and the specification of the
//! prefix-preserving increment.

use vstd::prelude::*;

verus! {

use vstd::arithmetic::power2::pow2;

/// The `i`th bit of a byte, bit 0 being the most significant bit.
pub open spec fn byte_bit(w: u8, i: int) -> bool {
    (w >> ((7 - i) as u8)) & 1u8 == 1u8
}

/// A byte read as a big-endian string of 8 bits.
pub open spec fn byte_bits(w: u8) -> Seq<bool> {
    Seq::new(8, |i: int| byte_bit(w, i))
}

/// A sequence of bytes read as one big-endian bit string: byte 0 holds the
/// most significant bits.
pub open spec fn bytes_bits(s: Seq<u8>) -> Seq<bool> {
    Seq::new(s.len() * 8, |i: int| byte_bit(s[i / 8], i % 8))
}

/// The numeric value of a big-endian bit string.
pub open spec fn bits_value(s: Seq<bool>) -> nat
    decreases s.len(),
{
    if s.len() == 0 {
        0
    } else {
        2 * bits_value(s.drop_last()) + if s.last() {
            1nat
        } else {
            0nat
        }
    }
}

/// The big-endian bit string of length `len` holding the value `v % pow2(len)`.
pub open spec fn value_bits(v: nat, len: nat) -> Seq<bool>
    decreases len,
{
    if len == 0 {
        Seq::empty()
    } else {
        value_bits(v / 2, (len - 1) as nat).push(v % 2 == 1)
    }
}

/// All bits at index `ndx` or beyond are false.
pub open spec fn false_from(s: Seq<bool>, ndx: int) -> bool {
    forall|i: int| ndx <= i < s.len() ==> !s[i]
}

/// All bits at index `ndx` or beyond are true.
pub open spec fn true_from(s: Seq<bool>, ndx: int) -> bool {
    forall|i: int| ndx <= i < s.len() ==> s[i]
}

/// The two bit strings agree on every index below `p`.
pub open spec fn agree_below(a: Seq<bool>, b: Seq<bool>, p: int) -> bool {
    forall|i: int| 0 <= i < p ==> a[i] == b[i]
}

/// The length of the longest common leading run of `a` and `b`, capped at
/// `max_len`.
pub open spec fn shared_prefix(a: Seq<bool>, b: Seq<bool>, max_len: nat) -> nat
    decreases max_len,
{
    if max_len == 0 {
        0
    } else if a[0] == b[0] {
        1 + shared_prefix(a.drop_first(), b.drop_first(), (max_len - 1) as nat)
    } else {
        0
    }
}

/// Incrementing the bits from `prefix` on overflows exactly when they are
/// all true.
pub open spec fn inc_overflow(s: Seq<bool>, prefix: int) -> bool {
    true_from(s, prefix)
}

/// The bit string after incrementing from the right while keeping the first
/// `prefix` bits: the suffix is replaced by its successor modulo
/// `pow2(suffix length)`, so an all-true suffix wraps to all false.
pub open spec fn inc_bits(s: Seq<bool>, prefix: int) -> Seq<bool> {
    s.take(prefix) + value_bits(
        bits_value(s.skip(prefix)) + 1,
        (s.len() - prefix) as nat,
    )
}

/// The smaller of two lengths.
pub open spec fn min_nat(a: nat, b: nat) -> nat {
    if a <= b {
        a
    } else {
        b
    }
}

/// `a` is a (not necessarily proper) prefix of `b`.
pub open spec fn is_prefix_of(a: Seq<bool>, b: Seq<bool>) -> bool {
    a.len() <= b.len() && a == b.take(a.len() as int)
}

/// The subset relation on bit strings read as sets of extensions: a string
/// is greater than any of its proper prefixes, and strings where neither
/// is a prefix of the other are incomparable.
pub open spec fn subset_ordering(a: Seq<bool>, b: Seq<bool>) -> Option<core::cmp::Ordering> {
    if a == b {
        Some(core::cmp::Ordering::Equal)
    } else if is_prefix_of(a, b) {
        Some(core::cmp::Ordering::Greater)
    } else if is_prefix_of(b, a) {
        Some(core::cmp::Ordering::Less)
    } else {
        None
    }
}

/// The lexicographic order on bit strings: a proper prefix sorts before
/// its extensions, and otherwise the first differing bit decides, false
/// before true.
pub open spec fn lex_ordering(a: Seq<bool>, b: Seq<bool>) -> core::cmp::Ordering {
    if a == b {
        core::cmp::Ordering::Equal
    } else if is_prefix_of(a, b) {
        core::cmp::Ordering::Less
    } else if is_prefix_of(b, a) {
        core::cmp::Ordering::Greater
    } else if a[shared_prefix(a, b, min_nat(a.len(), b.len())) as int] {
        core::cmp::Ordering::Greater
    } else {
        core::cmp::Ordering::Less
    }
}

/// How the shared prefix length decides prefix-hood and equality: it
/// reaches a string's length exactly when that string is a prefix of the
/// other, and it reaches both exactly on equality; otherwise both strings
/// hold the shared prefix length as an index, and differ there.
pub proof fn lemma_ordering_char(a: Seq<bool>, b: Seq<bool>)
    ensures
        (shared_prefix(a, b, min_nat(a.len(), b.len())) == a.len()) <==> is_prefix_of(a, b),
        (shared_prefix(a, b, min_nat(a.len(), b.len())) == b.len()) <==> is_prefix_of(b, a),
        (a == b) <==> (is_prefix_of(a, b) && is_prefix_of(b, a)),
        shared_prefix(a, b, min_nat(a.len(), b.len())) < a.len() && shared_prefix(
            a,
            b,
            min_nat(a.len(), b.len()),
        ) < b.len() ==> a[shared_prefix(a, b, min_nat(a.len(), b.len())) as int] != b[shared_prefix(
            a,
            b,
            min_nat(a.len(), b.len()),
        ) as int],
{
    let m = min_nat(a.len(), b.len());
    let s = shared_prefix(a, b, m);
    lemma_shared_prefix_props(a, b, m);
    if s == a.len() {
        assert(a =~= b.take(a.len() as int));
    }
    if s == b.len() {
        assert(b =~= a.take(b.len() as int));
    }
    if is_prefix_of(a, b) {
        assert(agree_below(a, b, a.len() as int)) by {
            assert forall|i: int| 0 <= i < a.len() implies a[i] == b[i] by {
                assert(b.take(a.len() as int)[i] == b[i]);
            }
        }
        lemma_shared_prefix_unique(a, b, m, a.len() as int);
    }
    if is_prefix_of(b, a) {
        assert(agree_below(a, b, b.len() as int)) by {
            assert forall|i: int| 0 <= i < b.len() implies a[i] == b[i] by {
                assert(a.take(b.len() as int)[i] == a[i]);
            }
        }
        lemma_shared_prefix_unique(a, b, m, b.len() as int);
    }
    if is_prefix_of(a, b) && is_prefix_of(b, a) {
        assert(a =~= b);
    }
    if a == b {
        assert(is_prefix_of(a, b)) by {
            assert(a =~= b.take(a.len() as int));
        }
    }
}

/// A bit string's value is below `pow2` of its length.
pub proof fn lemma_bits_value_bound(s: Seq<bool>)
    ensures
        bits_value(s) < pow2(s.len()),
    decreases s.len(),
{
    if s.len() == 0 {
        vstd::arithmetic::power2::lemma2_to64();
    } else {
        lemma_bits_value_bound(s.drop_last());
        vstd::arithmetic::power2::lemma_pow2_unfold(s.len());
    }
}

/// Concatenation in bit strings is place-value addition.
pub proof fn lemma_bits_value_concat(a: Seq<bool>, b: Seq<bool>)
    ensures
        bits_value(a + b) == bits_value(a) * pow2(b.len()) + bits_value(b),
    decreases b.len(),
{
    if b.len() == 0 {
        assert(a + b =~= a);
        vstd::arithmetic::power2::lemma2_to64();
        assert(bits_value(a) * pow2(b.len()) == bits_value(a)) by (nonlinear_arith)
            requires
                pow2(b.len()) == 1,
        ;
    } else {
        assert((a + b).drop_last() =~= a + b.drop_last());
        assert((a + b).last() == b.last());
        lemma_bits_value_concat(a, b.drop_last());
        vstd::arithmetic::power2::lemma_pow2_unfold(b.len());
        let x = bits_value(a);
        let p = pow2(b.drop_last().len());
        let v = bits_value(b.drop_last());
        let last: nat = if b.last() {
            1nat
        } else {
            0nat
        };
        assert(bits_value(a + b) == 2 * (x * p + v) + last);
        assert(bits_value(b) == 2 * v + last);
        assert(pow2(b.len()) == 2 * p);
        assert(x * pow2(b.len()) + bits_value(b) == 2 * (x * p + v) + last) by (nonlinear_arith)
            requires
                pow2(b.len()) == 2 * p,
                bits_value(b) == 2 * v + last,
        ;
    }
}

/// A bit string splits at any point into its leading and trailing parts.
pub proof fn lemma_bits_value_split(s: Seq<bool>, p: int)
    requires
        0 <= p <= s.len(),
    ensures
        bits_value(s) == bits_value(s.take(p)) * pow2((s.len() - p) as nat) + bits_value(
            s.skip(p),
        ),
        bits_value(s.take(p)) == bits_value(s) / pow2((s.len() - p) as nat),
        bits_value(s.skip(p)) == bits_value(s) % pow2((s.len() - p) as nat),
{
    assert(s =~= s.take(p) + s.skip(p));
    lemma_bits_value_concat(s.take(p), s.skip(p));
    lemma_bits_value_bound(s.skip(p));
    vstd::arithmetic::power2::lemma_pow2_pos((s.len() - p) as nat);
    vstd::arithmetic::div_mod::lemma_fundamental_div_mod_converse(
        bits_value(s) as int,
        pow2((s.len() - p) as nat) as int,
        bits_value(s.take(p)) as int,
        bits_value(s.skip(p)) as int,
    );
}

/// An all-true bit string holds the largest value of its length, and no
/// other string does.
pub proof fn lemma_bits_value_all_true(s: Seq<bool>)
    ensures
        true_from(s, 0) <==> bits_value(s) == pow2(s.len()) - 1,
    decreases s.len(),
{
    if s.len() == 0 {
        vstd::arithmetic::power2::lemma2_to64();
    } else {
        lemma_bits_value_all_true(s.drop_last());
        lemma_bits_value_bound(s.drop_last());
        vstd::arithmetic::power2::lemma_pow2_unfold(s.len());
        if true_from(s, 0) {
            assert(true_from(s.drop_last(), 0));
        }
        if bits_value(s) == pow2(s.len()) - 1 {
            assert(true_from(s.drop_last(), 0));
            assert forall|i: int| 0 <= i < s.len() implies s[i] by {
                if i < s.len() - 1 {
                    assert(s.drop_last()[i]);
                }
            }
        }
    }
}

/// An all-false bit string holds the value zero, and no other string does.
pub proof fn lemma_bits_value_all_false(s: Seq<bool>)
    ensures
        false_from(s, 0) <==> bits_value(s) == 0,
    decreases s.len(),
{
    if s.len() != 0 {
        lemma_bits_value_all_false(s.drop_last());
        if false_from(s, 0) {
            assert(false_from(s.drop_last(), 0));
        }
        if bits_value(s) == 0 {
            assert(false_from(s.drop_last(), 0));
            assert forall|i: int| 0 <= i < s.len() implies !s[i] by {
                if i < s.len() - 1 {
                    assert(!s.drop_last()[i]);
                }
            }
        }
    }
}

/// Bit strings of one length with one value are equal.
pub proof fn lemma_bits_value_injective(a: Seq<bool>, b: Seq<bool>)
    requires
        a.len() == b.len(),
        bits_value(a) == bits_value(b),
    ensures
        a == b,
    decreases a.len(),
{
    if a.len() == 0 {
        assert(a =~= b);
    } else {
        lemma_bits_value_injective(a.drop_last(), b.drop_last());
        assert(a =~= a.drop_last().push(a.last()));
        assert(b =~= b.drop_last().push(b.last()));
        assert(a.drop_last().push(a.last()) =~= b.drop_last().push(b.last()));
    }
}

/// `value_bits` writes out a value below `pow2(len)` exactly, and reduces
/// any larger value modulo `pow2(len)`.
pub proof fn lemma_value_bits(v: nat, len: nat)
    ensures
        value_bits(v, len).len() == len,
        bits_value(value_bits(v, len)) == v % pow2(len),
    decreases len,
{
    vstd::arithmetic::power2::lemma_pow2_pos(len);
    if len == 0 {
        vstd::arithmetic::power2::lemma2_to64();
    } else {
        lemma_value_bits(v / 2, (len - 1) as nat);
        vstd::arithmetic::power2::lemma_pow2_unfold(len);
        vstd::arithmetic::power2::lemma_pow2_pos((len - 1) as nat);
        let s = value_bits(v, len);
        let m = pow2((len - 1) as nat);
        assert(s.drop_last() =~= value_bits(v / 2, (len - 1) as nat));
        assert(bits_value(s) == 2 * ((v / 2) % m) + v % 2);
        vstd::arithmetic::div_mod::lemma_mod_breakdown(v as int, 2, m as int);
    }
}

/// The first `n` bits of a byte hold its value shifted down by `8 - n`.
pub proof fn lemma_byte_take_value(w: u8, n: int)
    requires
        0 <= n <= 8,
    ensures
        bits_value(byte_bits(w).take(n)) == (w as nat) / pow2((8 - n) as nat),
    decreases n,
{
    vstd::arithmetic::power2::lemma2_to64();
    if n == 0 {
        assert(byte_bits(w).take(0) =~= Seq::<bool>::empty());
        vstd::arithmetic::div_mod::lemma_basic_div(w as int, 256);
    } else {
        lemma_byte_take_value(w, n - 1);
        let k = (8 - n) as nat;
        let s = byte_bits(w).take(n);
        assert(s.drop_last() =~= byte_bits(w).take(n - 1));
        assert(s.last() == byte_bit(w, n - 1));
        vstd::bits::lemma_u8_shr_is_div(w, k as u8);
        vstd::bits::lemma_u8_low_bits_mask_is_mod(w >> (k as u8), 1);
        vstd::bits::lemma_low_bits_mask_values();
        let q = (w as nat) / pow2(k);
        assert((w >> (k as u8)) & 1u8 == q % 2);
        assert(byte_bit(w, n - 1) == (q % 2 == 1));
        vstd::arithmetic::power2::lemma_pow2_unfold((k + 1) as nat);
        vstd::arithmetic::power2::lemma_pow2_pos(k);
        vstd::arithmetic::div_mod::lemma_div_denominator(w as int, pow2(k) as int, 2);
        vstd::arithmetic::div_mod::lemma_fundamental_div_mod(q as int, 2);
        assert(bits_value(s) == 2 * ((w as nat) / pow2((k + 1) as nat)) + q % 2);
        assert((w as nat) / pow2((k + 1) as nat) == q / 2);
    }
}

/// A byte's 8 bits hold exactly its value.
pub proof fn lemma_byte_bits_value(w: u8)
    ensures
        bits_value(byte_bits(w)) == w as nat,
{
    lemma_byte_take_value(w, 8);
    assert(byte_bits(w).take(8) =~= byte_bits(w));
    vstd::arithmetic::power2::lemma2_to64();
}

/// `shared_prefix` is bounded by `max_len`, the strings agree below it, and
/// when it is below `max_len` they differ exactly there.
pub proof fn lemma_shared_prefix_props(a: Seq<bool>, b: Seq<bool>, max_len: nat)
    requires
        max_len <= a.len(),
        max_len <= b.len(),
    ensures
        shared_prefix(a, b, max_len) <= max_len,
        agree_below(a, b, shared_prefix(a, b, max_len) as int),
        shared_prefix(a, b, max_len) < max_len ==> a[shared_prefix(a, b, max_len) as int] != b[
            shared_prefix(a, b, max_len) as int
        ],
    decreases max_len,
{
    if max_len != 0 && a[0] == b[0] {
        lemma_shared_prefix_props(a.drop_first(), b.drop_first(), (max_len - 1) as nat);
        let r = shared_prefix(a, b, max_len) as int;
        assert forall|i: int| 0 <= i < r implies a[i] == b[i] by {
            if i >= 1 {
                assert(a.drop_first()[i - 1] == b.drop_first()[i - 1]);
            }
        }
        if r < max_len {
            assert(a.drop_first()[r - 1] != b.drop_first()[r - 1]);
        }
    }
}

/// Any length with the three properties of `lemma_shared_prefix_props` is
/// the shared prefix length.
pub proof fn lemma_shared_prefix_unique(a: Seq<bool>, b: Seq<bool>, max_len: nat, r: int)
    requires
        max_len <= a.len(),
        max_len <= b.len(),
        0 <= r <= max_len,
        agree_below(a, b, r),
        r < max_len ==> a[r] != b[r],
    ensures
        r == shared_prefix(a, b, max_len),
{
    lemma_shared_prefix_props(a, b, max_len);
    let q = shared_prefix(a, b, max_len) as int;
    if r < q {
        assert(a[r] == b[r]);
    }
    if q < r {
        assert(a[q] == b[q]);
    }
}

/// The shared prefix length does not depend on the order of its arguments.
pub proof fn lemma_shared_prefix_sym(a: Seq<bool>, b: Seq<bool>, max_len: nat)
    requires
        max_len <= a.len(),
        max_len <= b.len(),
    ensures
        shared_prefix(a, b, max_len) == shared_prefix(b, a, max_len),
{
    lemma_shared_prefix_props(a, b, max_len);
    lemma_shared_prefix_unique(b, a, max_len, shared_prefix(a, b, max_len) as int);
}

/// The increment overflows exactly when the bits from `prefix` on hold the
/// largest value of their length.
pub proof fn lemma_inc_overflow_value(s: Seq<bool>, prefix: int)
    requires
        0 <= prefix <= s.len(),
    ensures
        inc_overflow(s, prefix) <==> bits_value(s.skip(prefix)) + 1 == pow2(
            (s.len() - prefix) as nat,
        ),
{
    lemma_bits_value_all_true(s.skip(prefix));
    assert(true_from(s, prefix) <==> true_from(s.skip(prefix), 0)) by {
        if true_from(s, prefix) {
            assert forall|i: int| 0 <= i < s.skip(prefix).len() implies s.skip(prefix)[i] by {
                assert(s[i + prefix]);
            }
        }
        if true_from(s.skip(prefix), 0) {
            assert forall|i: int| prefix <= i < s.len() implies s[i] by {
                assert(s.skip(prefix)[i - prefix]);
            }
        }
    }
}

/// What the increment does, bit for bit: the first `prefix` bits stay, and
/// the rest step to the successor of their value, modulo wrap-around.
pub proof fn lemma_inc_bits_props(s: Seq<bool>, prefix: int)
    requires
        0 <= prefix <= s.len(),
    ensures
        inc_bits(s, prefix).len() == s.len(),
        inc_bits(s, prefix).take(prefix) == s.take(prefix),
        bits_value(inc_bits(s, prefix).skip(prefix)) == (bits_value(s.skip(prefix)) + 1) % pow2(
            (s.len() - prefix) as nat,
        ),
        inc_overflow(s, prefix) ==> false_from(inc_bits(s, prefix), prefix),
        !inc_overflow(s, prefix) ==> bits_value(inc_bits(s, prefix).skip(prefix)) == bits_value(
            s.skip(prefix),
        ) + 1,
{
    let n = (s.len() - prefix) as nat;
    let t = value_bits(bits_value(s.skip(prefix)) + 1, n);
    lemma_value_bits(bits_value(s.skip(prefix)) + 1, n);
    assert(inc_bits(s, prefix).take(prefix) =~= s.take(prefix));
    assert(inc_bits(s, prefix).skip(prefix) =~= t);
    lemma_inc_overflow_value(s, prefix);
    lemma_bits_value_bound(s.skip(prefix));
    if inc_overflow(s, prefix) {
        vstd::arithmetic::power2::lemma_pow2_pos(n);
        vstd::arithmetic::div_mod::lemma_mod_self_0(pow2(n) as int);
        lemma_bits_value_all_false(t);
        assert forall|i: int| prefix <= i < s.len() implies !inc_bits(s, prefix)[i] by {
            assert(!t[i - prefix]);
        }
    } else {
        vstd::arithmetic::div_mod::lemma_small_mod(bits_value(s.skip(prefix)) + 1, pow2(n));
    }
}

/// Bit, byte and word indices line up: a bit index splits the same way
/// whether it is read byte-first or word-first, for words of `b` bytes.
pub proof fn lemma_index_split(i: int, b: int)
    requires
        0 <= i,
        0 < b,
    ensures
        (i / 8) / b == i / (8 * b),
        (i % (8 * b)) % 8 == i % 8,
        (i % (8 * b)) / 8 == (i / 8) % b,
{
    vstd::arithmetic::div_mod::lemma_div_denominator(i, 8, b);
    vstd::arithmetic::div_mod::lemma_mod_breakdown(i, 8, b);
    let a = (i / 8) % b;
    let r = i % 8;
    vstd::arithmetic::div_mod::lemma_mod_bound(i / 8, b);
    vstd::arithmetic::div_mod::lemma_fundamental_div_mod_converse(8 * a + r, 8, a, r);
}

/// Eight bits of a byte sequence, starting at a byte boundary, are the bits
/// of that byte.
pub proof fn lemma_bytes_bits_byte(s: Seq<u8>, j: int)
    requires
        0 <= j < s.len(),
    ensures
        bytes_bits(s).subrange(8 * j, 8 * j + 8) == byte_bits(s[j]),
{
    assert forall|k: int| 0 <= k < 8 implies bytes_bits(s).subrange(8 * j, 8 * j + 8)[k]
        == byte_bits(s[j])[k] by {
        vstd::arithmetic::div_mod::lemma_fundamental_div_mod_converse(8 * j + k, 8, j, k);
        assert(bytes_bits(s)[8 * j + k] == byte_bit(s[(8 * j + k) / 8], (8 * j + k) % 8));
    }
    assert(bytes_bits(s).subrange(8 * j, 8 * j + 8) =~= byte_bits(s[j]));
}

/// A carry that is absorbed inside the window `[lo, hi)`: bits before `lo`
/// stay, the window's value steps by one, the bits from `hi` on flip from
/// all true to all false. Together that is the increment of the whole
/// string protected below `prefix`, and it does not overflow.
pub proof fn lemma_inc_parts(olds: Seq<bool>, news: Seq<bool>, prefix: int, lo: int, hi: int)
    requires
        olds.len() == news.len(),
        0 <= prefix <= lo < hi <= olds.len(),
        agree_below(olds, news, lo),
        bits_value(news.subrange(lo, hi)) == bits_value(olds.subrange(lo, hi)) + 1,
        true_from(olds, hi),
        false_from(news, hi),
    ensures
        !inc_overflow(olds, prefix),
        news == inc_bits(olds, prefix),
{
    let a = olds.skip(prefix);
    let b = news.skip(prefix);
    let k1 = lo - prefix;
    let k2 = hi - prefix;
    let t = (olds.len() - hi) as nat;
    assert(a.take(k2).take(k1) =~= b.take(k2).take(k1)) by {
        assert forall|i: int| 0 <= i < k1 implies a[i] == b[i] by {
            assert(olds[i + prefix] == news[i + prefix]);
        }
    }
    assert(a.take(k2).skip(k1) =~= olds.subrange(lo, hi));
    assert(b.take(k2).skip(k1) =~= news.subrange(lo, hi));
    lemma_bits_value_split(a.take(k2), k1);
    lemma_bits_value_split(b.take(k2), k1);
    assert(bits_value(b.take(k2)) == bits_value(a.take(k2)) + 1);
    assert(a.skip(k2) =~= olds.skip(hi));
    assert(b.skip(k2) =~= news.skip(hi));
    assert(true_from(olds.skip(hi), 0)) by {
        assert forall|i: int| 0 <= i < olds.skip(hi).len() implies olds.skip(hi)[i] by {
            assert(olds[i + hi]);
        }
    }
    assert(false_from(news.skip(hi), 0)) by {
        assert forall|i: int| 0 <= i < news.skip(hi).len() implies !news.skip(hi)[i] by {
            assert(!news[i + hi]);
        }
    }
    lemma_bits_value_all_true(olds.skip(hi));
    lemma_bits_value_all_false(news.skip(hi));
    lemma_bits_value_split(a, k2);
    lemma_bits_value_split(b, k2);
    vstd::arithmetic::power2::lemma_pow2_pos(t);
    assert(bits_value(a) == bits_value(a.take(k2)) * pow2(t) + pow2(t) - 1);
    assert(bits_value(b) == (bits_value(a.take(k2)) + 1) * pow2(t));
    assert((bits_value(a.take(k2)) + 1) * pow2(t) == bits_value(a.take(k2)) * pow2(t) + pow2(
        t,
    )) by (nonlinear_arith);
    assert(bits_value(b) == bits_value(a) + 1);
    lemma_bits_value_bound(b);
    lemma_inc_overflow_value(olds, prefix);
    assert(!inc_overflow(olds, prefix));
    lemma_inc_bits_props(olds, prefix);
    lemma_bits_value_injective(news.skip(prefix), inc_bits(olds, prefix).skip(prefix));
    assert(news =~= inc_bits(olds, prefix)) by {
        assert forall|i: int| 0 <= i < news.len() implies news[i] == inc_bits(olds, prefix)[i] by {
            if i < prefix {
                assert(inc_bits(olds, prefix).take(prefix)[i] == olds.take(prefix)[i]);
            } else {
                assert(news.skip(prefix)[i - prefix] == inc_bits(olds, prefix).skip(prefix)[i
                    - prefix]);
            }
        }
    }
}

/// A carry that runs into the protected prefix: all free bits were true and
/// are now false, the prefix stays, and overflow is reported.
pub proof fn lemma_inc_wrap(olds: Seq<bool>, news: Seq<bool>, prefix: int)
    requires
        olds.len() == news.len(),
        0 <= prefix <= olds.len(),
        agree_below(olds, news, prefix),
        true_from(olds, prefix),
        false_from(news, prefix),
    ensures
        inc_overflow(olds, prefix),
        news == inc_bits(olds, prefix),
{
    lemma_inc_bits_props(olds, prefix);
    assert(news =~= inc_bits(olds, prefix)) by {
        assert forall|i: int| 0 <= i < news.len() implies news[i] == inc_bits(olds, prefix)[i] by {
            if i < prefix {
                assert(inc_bits(olds, prefix).take(prefix)[i] == olds.take(prefix)[i]);
            } else {
                assert(!news[i]);
                assert(!inc_bits(olds, prefix)[i]);
            }
        }
    }
}

} // verus!
