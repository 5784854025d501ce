use vstd::prelude::*;

verus! {

pub open spec fn is_digit(c: u8) -> bool {
    48 <= c <= 57
}

/// The index of the first byte at or after `i` that is not an ASCII digit.
pub open spec fn digit_end(s: Seq<u8>, i: int) -> int
    decreases s.len() - i,
{
    if i < 0 || i >= s.len() || !is_digit(s[i]) {
        i
    } else {
        digit_end(s, i + 1)
    }
}

/// The number that a run of ASCII digits spells in decimal.
pub open spec fn digits_value(d: Seq<u8>) -> int
    decreases d.len(),
{
    if d.len() == 0 {
        0
    } else {
        digits_value(d.drop_last()) * 10 + (d.last() - 48)
    }
}

/// A nonempty digit run without a redundant leading zero.
pub open spec fn canonical_digits(d: Seq<u8>) -> bool {
    &&& d.len() > 0
    &&& d[0] == 48 ==> d.len() == 1
}

/// The decimal digits of a natural number, without leading zeros.
pub open spec fn nat_text(n: nat) -> Seq<u8>
    decreases n,
{
    if n < 10 {
        seq![(n + 48) as u8]
    } else {
        nat_text(n / 10).push(((n % 10) + 48) as u8)
    }
}

/// The decimal text of an integer, with a minus sign when it is negative.
pub open spec fn int_text(n: int) -> Seq<u8> {
    if n < 0 {
        seq![45u8] + nat_text((-n) as nat)
    } else {
        nat_text(n as nat)
    }
}

pub proof fn lemma_digit_end_bounds(s: Seq<u8>, i: int)
    requires
        0 <= i <= s.len(),
    ensures
        i <= digit_end(s, i) <= s.len(),
        forall|j: int| i <= j < digit_end(s, i) ==> is_digit(#[trigger] s[j]),
        digit_end(s, i) < s.len() ==> !is_digit(s[digit_end(s, i)]),
    decreases s.len() - i,
{
    if i < s.len() && is_digit(s[i]) {
        lemma_digit_end_bounds(s, i + 1);
    }
}

pub proof fn lemma_digits_step(s: Seq<u8>, a: int, j: int)
    requires
        0 <= a <= j < s.len(),
    ensures
        digits_value(s.subrange(a, j + 1)) == digits_value(s.subrange(a, j)) * 10 + (s[j] - 48),
{
    assert(s.subrange(a, j + 1).drop_last() =~= s.subrange(a, j));
}

pub proof fn lemma_digits_nonneg(d: Seq<u8>)
    requires
        forall|j: int| 0 <= j < d.len() ==> is_digit(#[trigger] d[j]),
    ensures
        digits_value(d) >= 0,
    decreases d.len(),
{
    if d.len() > 0 {
        lemma_digits_nonneg(d.drop_last());
    }
}

/// A longer digit run never spells a smaller number.
pub proof fn lemma_digits_monotone(s: Seq<u8>, a: int, j: int, k: int)
    requires
        0 <= a <= j <= k <= s.len(),
        forall|m: int| a <= m < k ==> is_digit(#[trigger] s[m]),
    ensures
        digits_value(s.subrange(a, j)) <= digits_value(s.subrange(a, k)),
    decreases k - j,
{
    if j < k {
        lemma_digits_monotone(s, a, j, k - 1);
        lemma_digits_step(s, a, k - 1);
        assert forall|m: int| 0 <= m < s.subrange(a, k - 1).len() implies is_digit(
            #[trigger] s.subrange(a, k - 1)[m],
        ) by {
            assert(s.subrange(a, k - 1)[m] == s[a + m]);
        }
        lemma_digits_nonneg(s.subrange(a, k - 1));
    }
}

/// A canonical digit run is the text of the number it spells.
pub proof fn lemma_canonical_text(d: Seq<u8>)
    requires
        canonical_digits(d),
        forall|j: int| 0 <= j < d.len() ==> is_digit(#[trigger] d[j]),
    ensures
        digits_value(d) >= 0,
        nat_text(digits_value(d) as nat) == d,
        d.len() > 1 ==> digits_value(d) >= 10,
    decreases d.len(),
{
    lemma_digits_nonneg(d);
    if d.len() == 1 {
        assert(d.drop_last() =~= Seq::<u8>::empty());
        assert(digits_value(d.drop_last()) == 0);
        assert(d.last() == d[0]);
        assert(digits_value(d) == d[0] - 48);
        assert(nat_text(digits_value(d) as nat) == seq![d[0]]);
        assert(nat_text(digits_value(d) as nat) =~= d);
    } else {
        let p = d.drop_last();
        assert(canonical_digits(p)) by {
            assert(p[0] == d[0]);
        }
        lemma_canonical_text(p);
        if p.len() == 1 {
            assert(p[0] != 48);
        }
        let n = digits_value(d);
        let q = digits_value(p);
        assert(n / 10 == q && n % 10 == d.last() - 48) by (nonlinear_arith)
            requires
                n == q * 10 + (d.last() - 48),
                48 <= d.last() <= 57,
                q >= 0,
        ;
        assert(q >= 1);
        assert(nat_text(n as nat) =~= d);
    }
}

} // verus!

verus! {

/// The text of a number is a canonical digit run that spells it.
pub proof fn lemma_nat_text(n: nat)
    ensures
        canonical_digits(nat_text(n)),
        forall|j: int| 0 <= j < nat_text(n).len() ==> is_digit(#[trigger] nat_text(n)[j]),
        digits_value(nat_text(n)) == n,
    decreases n,
{
    let t = nat_text(n);
    if n < 10 {
        assert(t.drop_last() =~= Seq::<u8>::empty());
        assert(digits_value(t.drop_last()) == 0);
    } else {
        let p = nat_text(n / 10);
        lemma_nat_text(n / 10);
        assert(t.drop_last() =~= p);
        assert(t[0] == p[0]);
        assert(n == (n / 10) * 10 + n % 10);
        if n / 10 < 10 {
            assert(p[0] == ((n / 10) + 48) as u8);
        } else {
            lemma_nat_text(n / 10 / 10);
            assert(p == nat_text(n / 10 / 10).push((((n / 10) % 10) + 48) as u8));
            assert(p.len() > 1);
        }
    }
}

/// The digit run that starts a text ends where the text ends.
pub proof fn lemma_digit_end_text(t: Seq<u8>, rest: Seq<u8>, i: int)
    requires
        0 <= i <= t.len(),
        forall|j: int| 0 <= j < t.len() ==> is_digit(#[trigger] t[j]),
        rest.len() > 0,
        !is_digit(rest[0]),
    ensures
        digit_end(t + rest, i) == t.len(),
    decreases t.len() - i,
{
    if i < t.len() {
        assert((t + rest)[i] == t[i]);
        lemma_digit_end_text(t, rest, i + 1);
    } else {
        assert((t + rest)[i] == rest[0]);
    }
}

} // verus!
