//! The laws of the bit-string operations, stated over the specification
//! model: iterating the increment cycles through all values of the free
//! suffix, the protected prefix never moves, the shared prefix length is
//! symmetric and exact, the bulk tail operations are idempotent with their
//! queries, and containment is a bound on the shared prefix length.

use vstd::prelude::*;

verus! {

use vstd::arithmetic::power2::pow2;
use crate::bits::{
    agree_below,
    is_prefix_of,
    lemma_ordering_char,
    lex_ordering,
    min_nat,
    subset_ordering,
    bits_value,
    false_from,
    inc_bits,
    inc_overflow,
    lemma_bits_value_all_false,
    lemma_bits_value_bound,
    lemma_bits_value_injective,
    lemma_inc_bits_props,
    lemma_inc_overflow_value,
    lemma_shared_prefix_props,
    lemma_shared_prefix_sym,
    shared_prefix,
    true_from,
};

/// The bit string after `n` increments that all protect the first
/// `prefix` bits.
pub open spec fn inc_iter(s: Seq<bool>, prefix: int, n: nat) -> Seq<bool>
    decreases n,
{
    if n == 0 {
        s
    } else {
        inc_bits(inc_iter(s, prefix, (n - 1) as nat), prefix)
    }
}

/// After `n` increments the prefix still stands, and the free suffix
/// holds its starting value advanced by `n`, modulo wrap-around.
pub proof fn lemma_inc_iter_props(s: Seq<bool>, prefix: int, n: nat)
    requires
        0 <= prefix <= s.len(),
    ensures
        inc_iter(s, prefix, n).len() == s.len(),
        inc_iter(s, prefix, n).take(prefix) == s.take(prefix),
        bits_value(inc_iter(s, prefix, n).skip(prefix)) == (bits_value(s.skip(prefix)) + n) % pow2(
            (s.len() - prefix) as nat,
        ),
    decreases n,
{
    let m = pow2((s.len() - prefix) as nat);
    let v0 = bits_value(s.skip(prefix));
    vstd::arithmetic::power2::lemma_pow2_pos((s.len() - prefix) as nat);
    if n == 0 {
        lemma_bits_value_bound(s.skip(prefix));
        vstd::arithmetic::div_mod::lemma_small_mod(v0, m);
    } else {
        lemma_inc_iter_props(s, prefix, (n - 1) as nat);
        let t = inc_iter(s, prefix, (n - 1) as nat);
        lemma_inc_bits_props(t, prefix);
        vstd::arithmetic::div_mod::lemma_add_mod_noop(v0 as int + n - 1, 1, m as int);
        if m == 1 {
            assert(bits_value(inc_bits(t, prefix).skip(prefix)) == (bits_value(t.skip(prefix))
                + 1) % m);
        } else {
            vstd::arithmetic::div_mod::lemma_small_mod(1, m);
        }
    }
}

/// The cycle law of the increment: after exactly `pow2` of the free
/// suffix length many increments, any starting value comes back, and a
/// step overflows exactly when it leaves the all-true suffix — so a walk
/// that starts at the all-false suffix overflows exactly on its last
/// step.
pub proof fn lemma_inc_cycle(s: Seq<bool>, prefix: int)
    requires
        0 <= prefix <= s.len(),
    ensures
        inc_iter(s, prefix, pow2((s.len() - prefix) as nat)) == s,
        forall|k: nat|
            k < pow2((s.len() - prefix) as nat) ==> (inc_overflow(
                #[trigger] inc_iter(s, prefix, k),
                prefix,
            ) <==> (bits_value(s.skip(prefix)) + k) % pow2((s.len() - prefix) as nat) == pow2(
                (s.len() - prefix) as nat,
            ) - 1),
        false_from(s, prefix) ==> forall|k: nat|
            k < pow2((s.len() - prefix) as nat) ==> (inc_overflow(
                #[trigger] inc_iter(s, prefix, k),
                prefix,
            ) <==> k == pow2((s.len() - prefix) as nat) - 1),
{
    let m = pow2((s.len() - prefix) as nat);
    let v0 = bits_value(s.skip(prefix));
    vstd::arithmetic::power2::lemma_pow2_pos((s.len() - prefix) as nat);
    lemma_bits_value_bound(s.skip(prefix));
    lemma_inc_iter_props(s, prefix, m);
    let t = inc_iter(s, prefix, m);
    assert((v0 + m) % m == v0) by {
        vstd::arithmetic::div_mod::lemma_mod_multiples_vanish(1, v0 as int, m as int);
        vstd::arithmetic::div_mod::lemma_small_mod(v0, m);
    }
    lemma_bits_value_injective(t.skip(prefix), s.skip(prefix));
    assert(t =~= s) by {
        assert forall|i: int| 0 <= i < s.len() implies t[i] == s[i] by {
            if i < prefix {
                assert(t.take(prefix)[i] == s.take(prefix)[i]);
            } else {
                assert(t.skip(prefix)[i - prefix] == s.skip(prefix)[i - prefix]);
            }
        }
    }
    assert forall|k: nat| k < m implies (inc_overflow(#[trigger] inc_iter(s, prefix, k), prefix)
        <==> (v0 + k) % m == m - 1) by {
        lemma_inc_iter_props(s, prefix, k);
        let u = inc_iter(s, prefix, k);
        lemma_inc_overflow_value(u, prefix);
    }
    if false_from(s, prefix) {
        assert(false_from(s.skip(prefix), 0)) by {
            assert forall|i: int| 0 <= i < s.skip(prefix).len() implies !s.skip(prefix)[i] by {
                assert(!s[i + prefix]);
            }
        }
        lemma_bits_value_all_false(s.skip(prefix));
        assert forall|k: nat| k < m implies (inc_overflow(
            #[trigger] inc_iter(s, prefix, k),
            prefix,
        ) <==> k == m - 1) by {
            assert((0 + k) % m == k) by {
                vstd::arithmetic::div_mod::lemma_small_mod(k, m);
            }
        }
    }
}

/// Prefix preservation: an increment protected below `prefix` never
/// changes the bits before `prefix`, whether or not it overflows.
pub proof fn lemma_inc_preserves_prefix(s: Seq<bool>, prefix: int)
    requires
        0 <= prefix <= s.len(),
    ensures
        inc_bits(s, prefix).take(prefix) == s.take(prefix),
        agree_below(inc_bits(s, prefix), s, prefix),
{
    lemma_inc_bits_props(s, prefix);
    assert forall|i: int| 0 <= i < prefix implies inc_bits(s, prefix)[i] == s[i] by {
        assert(inc_bits(s, prefix).take(prefix)[i] == s.take(prefix)[i]);
    }
}

/// The shared prefix length is symmetric, bounded by `max_len`, the
/// strings agree on every index below it, and when it is below `max_len`
/// they differ exactly there.
pub proof fn lemma_shared_prefix_law(a: Seq<bool>, b: Seq<bool>, max_len: nat)
    requires
        max_len <= a.len(),
        max_len <= b.len(),
    ensures
        shared_prefix(a, b, max_len) == shared_prefix(b, a, max_len),
        shared_prefix(a, b, max_len) <= max_len,
        agree_below(a, b, shared_prefix(a, b, max_len) as int),
        shared_prefix(a, b, max_len) < max_len ==> a[shared_prefix(a, b, max_len) as int] != b[
            shared_prefix(a, b, max_len) as int
        ],
{
    lemma_shared_prefix_props(a, b, max_len);
    lemma_shared_prefix_sym(a, b, max_len);
}

/// Tail idempotence: after forcing every bit from `k` on to one value,
/// the matching query holds.
pub proof fn lemma_tail_set_queried(s: Seq<bool>, t: Seq<bool>, k: int, value: bool)
    requires
        0 <= k,
        s.len() == t.len(),
        forall|i: int|
            0 <= i < t.len() ==> t[i] == (if value {
                i >= k || s[i]
            } else {
                i < k && s[i]
            }),
    ensures
        value ==> true_from(t, k),
        !value ==> false_from(t, k),
{
    assert forall|i: int| k <= i < t.len() implies t[i] == value by {
        assert(t[i] == (if value {
            i >= k || s[i]
        } else {
            i < k && s[i]
        }));
    }
}

/// Setting every bit true and then every bit false leaves the all-false
/// string, the one `new_all_false` describes.
pub proof fn lemma_tail_set_round_trip(s: Seq<bool>, t: Seq<bool>, u: Seq<bool>)
    requires
        s.len() == t.len(),
        t.len() == u.len(),
        forall|i: int| 0 <= i < t.len() ==> t[i] == (i >= 0 || s[i]),
        forall|i: int| 0 <= i < u.len() ==> u[i] == (i < 0 && t[i]),
    ensures
        false_from(u, 0),
        u == Seq::new(u.len(), |i: int| false),
{
    assert forall|i: int| 0 <= i < u.len() implies !u[i] by {
        assert(u[i] == (i < 0 && t[i]));
    }
    assert(u =~= Seq::new(u.len(), |i: int| false));
}

/// Containment law: two strings share a prefix of length `p` exactly
/// when their shared prefix length reaches `p`.
pub proof fn lemma_containment(a: Seq<bool>, b: Seq<bool>, max_len: nat, p: int)
    requires
        max_len <= a.len(),
        max_len <= b.len(),
        0 <= p <= max_len,
    ensures
        agree_below(a, b, p) <==> shared_prefix(a, b, max_len) >= p,
{
    lemma_shared_prefix_props(a, b, max_len);
    let s = shared_prefix(a, b, max_len);
    if agree_below(a, b, p) && s < p {
        assert(a[s as int] == b[s as int]);
    }
}

/// The lexicographic order holds between `a` and `b` at witness index
/// `s`: they agree below `s`, and there either `a` ends while `b` goes
/// on, or `a` carries false where `b` carries true.
pub open spec fn lex_less_at(a: Seq<bool>, b: Seq<bool>, s: int) -> bool {
    &&& 0 <= s <= a.len()
    &&& s <= b.len()
    &&& agree_below(a, b, s)
    &&& ((s == a.len() && s < b.len()) || (s < a.len() && s < b.len() && !a[s] && b[s]))
}

/// `lex_ordering` says `Less` exactly when some index witnesses it.
pub proof fn lemma_lex_less_char(a: Seq<bool>, b: Seq<bool>)
    ensures
        (lex_ordering(a, b) == core::cmp::Ordering::Less) <==> exists|s: int| lex_less_at(a, b, s),
{
    let m = min_nat(a.len(), b.len());
    let sp = shared_prefix(a, b, m) as int;
    lemma_ordering_char(a, b);
    lemma_shared_prefix_props(a, b, m);
    if lex_ordering(a, b) == core::cmp::Ordering::Less {
        if a != b && is_prefix_of(a, b) {
            assert(agree_below(a, b, a.len() as int)) by {
                assert forall|i: int| 0 <= i < a.len() implies a[i] == b[i] by {
                    assert(b.take(a.len() as int)[i] == b[i]);
                }
            }
            if a.len() == b.len() {
                assert(a =~= b);
            }
            assert(lex_less_at(a, b, a.len() as int));
        } else {
            assert(lex_less_at(a, b, sp));
        }
    }
    if exists|s: int| lex_less_at(a, b, s) {
        let s = choose|s: int| lex_less_at(a, b, s);
        if s == a.len() && s < b.len() {
            assert(is_prefix_of(a, b)) by {
                assert(a =~= b.take(a.len() as int));
            }
            assert(a.len() != b.len());
            if a == b {
                assert(a.len() == b.len());
            }
            assert(!is_prefix_of(b, a));
        } else {
            crate::bits::lemma_shared_prefix_unique(a, b, m, s);
            assert(sp == s);
            assert(!is_prefix_of(a, b));
            assert(!is_prefix_of(b, a));
            if a == b {
                assert(a[s] == b[s]);
            }
        }
    }
}

/// The lexicographic ordering is a strict total order: `Equal` means
/// equality, `Less` one way is `Greater` the other, a proper prefix
/// sorts before its extensions, and among strings where neither is a
/// prefix of the other, the one with false at the first differing bit
/// sorts first.
pub proof fn lemma_lex_ordering_laws(a: Seq<bool>, b: Seq<bool>)
    ensures
        (lex_ordering(a, b) == core::cmp::Ordering::Equal) <==> a == b,
        (lex_ordering(a, b) == core::cmp::Ordering::Less) <==> (lex_ordering(b, a)
            == core::cmp::Ordering::Greater),
        (is_prefix_of(a, b) && a != b) ==> lex_ordering(a, b) == core::cmp::Ordering::Less,
        (!is_prefix_of(a, b) && !is_prefix_of(b, a)) ==> (lex_ordering(a, b)
            == core::cmp::Ordering::Less <==> !a[shared_prefix(
            a,
            b,
            min_nat(a.len(), b.len()),
        ) as int]),
{
    let m = min_nat(a.len(), b.len());
    lemma_ordering_char(a, b);
    lemma_ordering_char(b, a);
    lemma_shared_prefix_props(a, b, m);
    crate::bits::lemma_shared_prefix_sym(a, b, m);
    assert(min_nat(b.len(), a.len()) == m);
    assert(shared_prefix(b, a, min_nat(b.len(), a.len())) == shared_prefix(a, b, m));
    let s = shared_prefix(a, b, m) as int;
    if !is_prefix_of(a, b) && !is_prefix_of(b, a) {
        assert(s < a.len() && s < b.len());
        assert(a[s] != b[s]);
        assert(a != b);
    }
    if is_prefix_of(a, b) && a != b {
        assert(!is_prefix_of(b, a));
    }
    if is_prefix_of(b, a) && a != b {
        assert(!is_prefix_of(a, b));
    }
}

/// The lexicographic ordering is transitive.
pub proof fn lemma_lex_transitive(a: Seq<bool>, b: Seq<bool>, c: Seq<bool>)
    requires
        lex_ordering(a, b) == core::cmp::Ordering::Less,
        lex_ordering(b, c) == core::cmp::Ordering::Less,
    ensures
        lex_ordering(a, c) == core::cmp::Ordering::Less,
{
    lemma_lex_less_char(a, b);
    lemma_lex_less_char(b, c);
    lemma_lex_less_char(a, c);
    let s1 = choose|s: int| lex_less_at(a, b, s);
    let s2 = choose|s: int| lex_less_at(b, c, s);
    if s1 < s2 {
        assert(agree_below(a, c, s1)) by {
            assert forall|i: int| 0 <= i < s1 implies a[i] == c[i] by {
                assert(a[i] == b[i]);
                assert(b[i] == c[i]);
            }
        }
        if s1 < a.len() {
            assert(b[s1] == c[s1]);
        }
        assert(lex_less_at(a, c, s1));
    } else if s2 < s1 {
        assert(agree_below(a, c, s2)) by {
            assert forall|i: int| 0 <= i < s2 implies a[i] == c[i] by {
                assert(a[i] == b[i]);
                assert(b[i] == c[i]);
            }
        }
        assert(s2 < b.len());
        assert(a[s2] == b[s2]);
        assert(lex_less_at(a, c, s2));
    } else {
        assert(agree_below(a, c, s1)) by {
            assert forall|i: int| 0 <= i < s1 implies a[i] == c[i] by {
                assert(a[i] == b[i]);
                assert(b[i] == c[i]);
            }
        }
        if s1 == a.len() && s1 < b.len() {
            assert(s1 < c.len());
        } else {
            assert(b[s1]);
            assert(s2 < b.len());
        }
        assert(lex_less_at(a, c, s1));
    }
}

/// `subset_cmp` finds the strings incomparable exactly when neither is a
/// prefix of the other.
pub proof fn lemma_subset_none(a: Seq<bool>, b: Seq<bool>)
    ensures
        (subset_ordering(a, b) is None) <==> (!is_prefix_of(a, b) && !is_prefix_of(b, a)),
{
    lemma_ordering_char(a, b);
}

} // verus!
