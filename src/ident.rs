//! Short identifiers: their length grows with the number of stored entries,
//! their letters are drawn at random.

use vstd::prelude::*;

verus! {

/// The alphabet identifiers are drawn from: lower, then upper case letters.
pub const LETTERS: &'static str = "abcdefghijklmnopqrstuvwxyzABCDEFGHIJKLMNOPQRSTUVWXYZ";

/// `floor(log52(n))` for `n >= 1`, and zero below.
pub open spec fn log52_floor(n: nat) -> nat
    decreases n,
{
    if n < 52 {
        0
    } else {
        1 + log52_floor(n / 52)
    }
}

/// The identifier length for a store of `count` entries.
pub open spec fn id_len(count: nat) -> nat {
    log52_floor(count + 1) + 1
}

pub open spec fn is_letter(c: char) -> bool {
    ('a' <= c && c <= 'z') || ('A' <= c && c <= 'Z')
}

/// `floor(log52(count + 1)) + 1`.
pub fn id_length(count: u64) -> (r: usize)
    ensures
        r as nat == id_len(count as nat),
{
    let mut n: u128 = count as u128 + 1;
    let mut k: usize = 1;
    proof {
        lemma_log52_bound(count as nat + 1);
    }
    while n >= 52
        invariant
            1 <= n <= count as nat + 1,
            k as nat + log52_floor(n as nat) == id_len(count as nat),
            log52_floor(count as nat + 1) <= 12,
        decreases n,
    {
        n = n / 52;
        k = k + 1;
    }
    k
}

pub open spec fn pow52(k: nat) -> nat
    decreases k,
{
    if k == 0 {
        1
    } else {
        52 * pow52((k - 1) as nat)
    }
}

proof fn lemma_log52_below(n: nat, k: nat)
    requires
        1 <= k,
        n < pow52(k),
    ensures
        log52_floor(n) < k,
    decreases k,
{
    if n >= 52 {
        let p = pow52((k - 1) as nat);
        if k == 1 {
            assert(pow52(1) == 52 * pow52(0));
        } else {
            assert(n / 52 < p) by (nonlinear_arith)
                requires n < 52 * p;
            lemma_log52_below(n / 52, (k - 1) as nat);
        }
    }
}

proof fn lemma_log52_bound(n: nat)
    requires
        n <= u64::MAX as nat + 1,
    ensures
        log52_floor(n) <= 12,
{
    reveal_with_fuel(pow52, 13);
    lemma_log52_below(n, 12);
}

/// The identifier length is 1 for up to 50 stored entries and 2 from 52 up
/// to 2702; it never shrinks as the store grows.
pub proof fn lemma_id_length_tiers(count: nat, more: nat)
    ensures
        count <= 50 ==> id_len(count) == 1,
        52 <= count <= 2702 ==> id_len(count) == 2,
        count <= more ==> id_len(count) <= id_len(more),
{
    if 52 <= count <= 2702 {
        assert((count + 1) / 52 < 52) by (nonlinear_arith)
            requires count + 1 <= 2703;
        assert(log52_floor(((count + 1) / 52) as nat) == 0);
    }
    if count <= more {
        lemma_log52_monotone(count + 1, more + 1);
    }
}

proof fn lemma_log52_monotone(a: nat, b: nat)
    requires
        a <= b,
    ensures
        log52_floor(a) <= log52_floor(b),
    decreases b,
{
    if a >= 52 {
        assert(a / 52 <= b / 52) by (nonlinear_arith)
            requires a <= b;
        lemma_log52_monotone(a / 52, b / 52);
    }
}

/// Relies on random_string's `generate`: exactly `length` characters, each
/// drawn from `charset` (it panics on an empty charset).
#[verifier::external_body]
fn random_from(length: usize, charset: &str) -> (r: String)
    requires
        charset@.len() > 0,
    ensures
        r@.len() == length,
        forall|i: int| 0 <= i < r@.len() ==> charset@.contains(#[trigger] r@[i]),
{
    random_string::generate(length, charset)
}

/// A fresh random identifier for a store of `count` entries: `id_len(count)`
/// letters.
pub fn generate_id(count: u64) -> (r: String)
    ensures
        r@.len() == id_len(count as nat),
        forall|i: int| 0 <= i < r@.len() ==> is_letter(#[trigger] r@[i]),
{
    let len = id_length(count);
    proof {
        reveal_strlit("abcdefghijklmnopqrstuvwxyzABCDEFGHIJKLMNOPQRSTUVWXYZ");
    }
    let r = random_from(len, LETTERS);
    proof {
        assert forall|i: int| 0 <= i < r@.len() implies is_letter(#[trigger] r@[i]) by {
            assert(LETTERS@.contains(r@[i]));
            let j = choose|j: int| 0 <= j < LETTERS@.len() && LETTERS@[j] == r@[i];
            assert(is_letter(LETTERS@[j]));
        }
    }
    r
}

} // verus!
