//! Byte strings: comparison, case folding, trimming and decimal numbers.

use vstd::prelude::*;
use crate::order::{Order, Ranked};

verus! {

/// A fresh vector holding the bytes of `s`.
pub fn copy_bytes(s: &[u8]) -> (v: Vec<u8>)
    ensures
        v@ == s@,
{
    let mut v: Vec<u8> = Vec::new();
    let mut i: usize = 0;
    while i < s.len()
        invariant
            0 <= i <= s.len(),
            v@ == s@.subrange(0, i as int),
        decreases s.len() - i,
    {
        v.push(s[i]);
        proof {
            assert(v@ =~= s@.subrange(0, i + 1));
        }
        i += 1;
    }
    proof {
        assert(s@.subrange(0, s@.len() as int) =~= s@);
    }
    v
}

/// Appends the bytes of `s` to `out`.
pub fn append_bytes(out: &mut Vec<u8>, s: &[u8])
    ensures
        final(out)@ == old(out)@ + s@,
{
    let mut i: usize = 0;
    while i < s.len()
        invariant
            0 <= i <= s.len(),
            out@ == old(out)@ + s@.subrange(0, i as int),
        decreases s.len() - i,
    {
        out.push(s[i]);
        proof {
            assert(out@ =~= old(out)@ + s@.subrange(0, i + 1));
        }
        i += 1;
    }
    proof {
        assert(s@.subrange(0, s@.len() as int) =~= s@);
    }
}

/// Whether two byte strings are the same.
pub fn same_bytes(a: &[u8], b: &[u8]) -> (r: bool)
    ensures
        r == (a@ == b@),
{
    if a.len() != b.len() {
        return false;
    }
    let mut i: usize = 0;
    while i < a.len()
        invariant
            0 <= i <= a.len(),
            a.len() == b.len(),
            forall|k: int| 0 <= k < i ==> a@[k] == b@[k],
        decreases a.len() - i,
    {
        if a[i] != b[i] {
            return false;
        }
        i += 1;
    }
    proof {
        assert(a@ =~= b@);
    }
    true
}

/// Lexicographic order of byte strings: the first differing byte decides,
/// and a proper prefix comes first.
pub open spec fn lex_rank(a: Seq<u8>, b: Seq<u8>) -> Order
    decreases a.len(),
{
    if a.len() == 0 {
        if b.len() == 0 {
            Order::Equal
        } else {
            Order::Less
        }
    } else if b.len() == 0 {
        Order::Greater
    } else if a[0] < b[0] {
        Order::Less
    } else if a[0] > b[0] {
        Order::Greater
    } else {
        lex_rank(a.drop_first(), b.drop_first())
    }
}

/// Byte strings rank equal exactly when they are the same.
pub proof fn lemma_lex_equal(a: Seq<u8>, b: Seq<u8>)
    ensures
        lex_rank(a, b) == Order::Equal <==> a == b,
    decreases a.len(),
{
    if a.len() == 0 || b.len() == 0 {
        if a.len() == 0 && b.len() == 0 {
            assert(a =~= b);
        }
    } else if a[0] == b[0] {
        lemma_lex_equal(a.drop_first(), b.drop_first());
        if a.drop_first() == b.drop_first() {
            assert(a =~= seq![a[0]] + a.drop_first());
            assert(b =~= seq![b[0]] + b.drop_first());
        }
    }
}

/// Exchanging the sides flips the lexicographic outcome.
pub proof fn lemma_lex_flip(a: Seq<u8>, b: Seq<u8>)
    ensures
        lex_rank(b, a) == lex_rank(a, b).flip(),
    decreases a.len(),
{
    if a.len() != 0 && b.len() != 0 && a[0] == b[0] {
        lemma_lex_flip(a.drop_first(), b.drop_first());
    }
}

/// Lexicographic order is transitive, strictly so when one link is strict.
pub proof fn lemma_lex_transitive(a: Seq<u8>, b: Seq<u8>, c: Seq<u8>)
    requires
        lex_rank(a, b) != Order::Greater,
        lex_rank(b, c) != Order::Greater,
    ensures
        lex_rank(a, c) != Order::Greater,
        (lex_rank(a, b) == Order::Less || lex_rank(b, c) == Order::Less) ==> lex_rank(a, c)
            == Order::Less,
    decreases a.len(),
{
    if a.len() != 0 && b.len() != 0 && c.len() != 0 && a[0] == b[0] && b[0] == c[0] {
        lemma_lex_transitive(a.drop_first(), b.drop_first(), c.drop_first());
    }
}

/// Computes the lexicographic order of two byte strings.
pub fn compare_bytes(a: &[u8], b: &[u8]) -> (o: Order)
    ensures
        o == lex_rank(a@, b@),
{
    let mut i: usize = 0;
    proof {
        assert(a@.skip(0) =~= a@);
        assert(b@.skip(0) =~= b@);
    }
    while i < a.len() && i < b.len()
        invariant
            0 <= i <= a.len(),
            i <= b.len(),
            lex_rank(a@, b@) == lex_rank(a@.skip(i as int), b@.skip(i as int)),
        decreases a.len() - i,
    {
        proof {
            assert(a@.skip(i as int).drop_first() =~= a@.skip(i + 1));
            assert(b@.skip(i as int).drop_first() =~= b@.skip(i + 1));
        }
        if a[i] < b[i] {
            return Order::Less;
        }
        if a[i] > b[i] {
            return Order::Greater;
        }
        i += 1;
    }
    if i < b.len() {
        Order::Less
    } else if i < a.len() {
        Order::Greater
    } else {
        Order::Equal
    }
}

/// The lower-case form of an ASCII letter; any other byte unchanged.
pub open spec fn lower(b: u8) -> u8 {
    if 0x41 <= b <= 0x5a {
        (b + 0x20) as u8
    } else {
        b
    }
}

/// A byte string with its ASCII letters in lower case.
pub open spec fn folded(s: Seq<u8>) -> Seq<u8> {
    Seq::new(s.len(), |i: int| lower(s[i]))
}

/// Order of byte strings without regard to the case of ASCII letters.
pub open spec fn fold_rank(a: Seq<u8>, b: Seq<u8>) -> Order {
    lex_rank(folded(a), folded(b))
}

/// Computes `lower`.
pub fn to_lower(b: u8) -> (r: u8)
    ensures
        r == lower(b),
{
    if 0x41 <= b && b <= 0x5a {
        b + 0x20
    } else {
        b
    }
}

/// Computes the order of two byte strings without regard to ASCII case.
pub fn compare_folded(a: &[u8], b: &[u8]) -> (o: Order)
    ensures
        o == fold_rank(a@, b@),
{
    let ghost fa = folded(a@);
    let ghost fb = folded(b@);
    let mut i: usize = 0;
    proof {
        assert(fa.skip(0) =~= fa);
        assert(fb.skip(0) =~= fb);
    }
    while i < a.len() && i < b.len()
        invariant
            0 <= i <= a.len(),
            i <= b.len(),
            fa == folded(a@),
            fb == folded(b@),
            lex_rank(fa, fb) == lex_rank(fa.skip(i as int), fb.skip(i as int)),
        decreases a.len() - i,
    {
        proof {
            assert(fa.skip(i as int).drop_first() =~= fa.skip(i + 1));
            assert(fb.skip(i as int).drop_first() =~= fb.skip(i + 1));
        }
        let x = to_lower(a[i]);
        let y = to_lower(b[i]);
        if x < y {
            return Order::Less;
        }
        if x > y {
            return Order::Greater;
        }
        i += 1;
    }
    if i < b.len() {
        Order::Less
    } else if i < a.len() {
        Order::Greater
    } else {
        Order::Equal
    }
}

/// Whether two byte strings are the same but for the case of ASCII letters.
pub fn same_folded(a: &[u8], b: &[u8]) -> (r: bool)
    ensures
        r == (folded(a@) == folded(b@)),
{
    proof {
        lemma_lex_equal(folded(a@), folded(b@));
    }
    match compare_folded(a, b) {
        Order::Equal => true,
        _ => false,
    }
}

/// The white space of ASCII: tab, line feed, vertical tab, form feed,
/// carriage return and space.
pub open spec fn is_space(b: u8) -> bool {
    (0x09 <= b <= 0x0d) || b == 0x20
}

/// The number of white-space bytes at the start of `s`.
pub open spec fn leading_spaces(s: Seq<u8>) -> nat
    decreases s.len(),
{
    if s.len() > 0 && is_space(s[0]) {
        1 + leading_spaces(s.drop_first())
    } else {
        0
    }
}

/// The number of white-space bytes at the end of `s`.
pub open spec fn trailing_spaces(s: Seq<u8>) -> nat
    decreases s.len(),
{
    if s.len() > 0 && is_space(s.last()) {
        1 + trailing_spaces(s.drop_last())
    } else {
        0
    }
}

/// `s` without the white space at its end.
pub open spec fn trimmed_end(s: Seq<u8>) -> Seq<u8> {
    s.subrange(0, s.len() - trailing_spaces(s))
}

/// `s` without the white space at its start.
pub open spec fn trimmed_start(s: Seq<u8>) -> Seq<u8> {
    s.subrange(leading_spaces(s) as int, s.len() as int)
}

/// `s` without the white space at both ends.
pub open spec fn trimmed(s: Seq<u8>) -> Seq<u8> {
    trimmed_start(trimmed_end(s))
}

/// A count `n` of leading bytes that are all white space and are followed by
/// none is the number of leading spaces.
pub proof fn lemma_leading_spaces_is(s: Seq<u8>, n: int)
    requires
        0 <= n <= s.len(),
        forall|i: int| 0 <= i < n ==> is_space(#[trigger] s[i]),
        n < s.len() ==> !is_space(s[n]),
    ensures
        leading_spaces(s) == n,
    decreases s.len(),
{
    if n > 0 {
        let t = s.drop_first();
        assert(is_space(s[0]));
        assert forall|i: int| 0 <= i < n - 1 implies is_space(#[trigger] t[i]) by {
            assert(t[i] == s[i + 1]);
        }
        if n - 1 < t.len() {
            assert(t[n - 1] == s[n]);
        }
        lemma_leading_spaces_is(t, n - 1);
    }
}

/// A count `n` of trailing bytes that are all white space and are preceded
/// by none is the number of trailing spaces.
pub proof fn lemma_trailing_spaces_is(s: Seq<u8>, n: int)
    requires
        0 <= n <= s.len(),
        forall|i: int| s.len() - n <= i < s.len() ==> is_space(#[trigger] s[i]),
        n < s.len() ==> !is_space(s[s.len() - n - 1]),
    ensures
        trailing_spaces(s) == n,
    decreases s.len(),
{
    if n > 0 {
        let t = s.drop_last();
        assert(is_space(s[s.len() - 1]));
        assert forall|i: int| t.len() - (n - 1) <= i < t.len() implies is_space(#[trigger] t[i]) by {
            assert(t[i] == s[i]);
        }
        if n - 1 < t.len() {
            assert(t[t.len() - (n - 1) - 1] == s[s.len() - n - 1]);
        }
        lemma_trailing_spaces_is(t, n - 1);
    }
}

/// Computes `is_space`.
pub fn byte_is_space(b: u8) -> (r: bool)
    ensures
        r == is_space(b),
{
    (0x09 <= b && b <= 0x0d) || b == 0x20
}

/// The length of `s` without the white space at its end.
pub fn trimmed_end_len(s: &[u8]) -> (n: usize)
    ensures
        n == s@.len() - trailing_spaces(s@),
{
    let mut n: usize = s.len();
    while n > 0 && byte_is_space(s[n - 1])
        invariant
            0 <= n <= s.len(),
            forall|i: int| n <= i < s.len() ==> is_space(#[trigger] s@[i]),
        decreases n,
    {
        n -= 1;
    }
    proof {
        lemma_trailing_spaces_is(s@, s@.len() - n);
    }
    n
}

/// The part of `s` between the white space at its two ends.
pub fn trim(s: &[u8]) -> (r: &[u8])
    ensures
        r@ == trimmed(s@),
{
    let end = trimmed_end_len(s);
    let mut start: usize = 0;
    while start < end && byte_is_space(s[start])
        invariant
            0 <= start <= end <= s.len(),
            forall|i: int| 0 <= i < start ==> is_space(#[trigger] s@[i]),
        decreases end - start,
    {
        start += 1;
    }
    proof {
        let t = trimmed_end(s@);
        assert(t.len() == end);
        assert forall|i: int| 0 <= i < start implies is_space(#[trigger] t[i]) by {
            assert(t[i] == s@[i]);
        }
        if start < end {
            assert(t[start as int] == s@[start as int]);
        }
        lemma_leading_spaces_is(t, start as int);
        assert(trimmed(s@) =~= s@.subrange(start as int, end as int));
    }
    &s[start..end]
}

/// Whether `b` is a digit of the given base (at most ten).
pub open spec fn is_digit(base: nat, b: u8) -> bool {
    0x30 <= b < 0x30 + base
}

/// Whether `s` holds digits of the given base only.
pub open spec fn all_digits(base: nat, s: Seq<u8>) -> bool {
    forall|i: int| 0 <= i < s.len() ==> is_digit(base, #[trigger] s[i])
}

/// The number that the digits `s` write in the given base, most
/// significant digit first.
pub open spec fn number_of(base: nat, s: Seq<u8>) -> nat
    decreases s.len(),
{
    if s.len() == 0 {
        0
    } else {
        number_of(base, s.drop_last()) * base + (s.last() - 0x30) as nat
    }
}

/// The digits of `n` in the given base, most significant first, without
/// leading zeros; zero is the single digit `0`.
pub open spec fn digits_of(base: nat, n: nat) -> Seq<u8>
    recommends
        2 <= base <= 10,
    decreases n,
    when base >= 2
{
    if n < base {
        seq![(0x30 + n) as u8]
    } else {
        proof {
            assert(n / base < n) by (nonlinear_arith)
                requires
                    base >= 2,
                    n >= base,
            ;
        }
        digits_of(base, n / base).push((0x30 + n % base) as u8)
    }
}

/// The `k`-th power of `base`.
pub open spec fn power(base: nat, k: nat) -> nat
    decreases k,
{
    if k == 0 {
        1
    } else {
        base * power(base, (k - 1) as nat)
    }
}

/// Writing a number and reading it back gives the number; what is written
/// is a non-empty run of digits.
pub proof fn lemma_digits_round_trip(base: nat, n: nat)
    requires
        2 <= base <= 10,
    ensures
        digits_of(base, n).len() >= 1,
        all_digits(base, digits_of(base, n)),
        number_of(base, digits_of(base, n)) == n,
    decreases n,
{
    if n < base {
        let d = digits_of(base, n);
        assert(d.drop_last() =~= Seq::<u8>::empty());
        assert(number_of(base, d.drop_last()) == 0);
        assert(number_of(base, d.drop_last()) * base == 0) by (nonlinear_arith)
            requires
                number_of(base, d.drop_last()) == 0,
        ;
    } else {
        assert(n % base < base && n / base < n && n == (n / base) * base + n % base)
            by (nonlinear_arith)
            requires
                base >= 2,
                n >= base,
        ;
        lemma_digits_round_trip(base, n / base);
        let head = digits_of(base, n / base);
        let d = digits_of(base, n);
        assert(d.drop_last() =~= head);
        assert(d.last() == (0x30 + n % base) as u8);
        assert forall|i: int| 0 <= i < d.len() implies is_digit(base, #[trigger] d[i]) by {
            if i < head.len() {
                assert(d[i] == head[i]);
            }
        }
    }
}

/// A number below the `k`-th power of the base is written in at most `k`
/// digits.
pub proof fn lemma_digits_width(base: nat, n: nat, k: nat)
    requires
        2 <= base <= 10,
        k >= 1,
        n < power(base, k),
    ensures
        digits_of(base, n).len() <= k,
    decreases k,
{
    if n >= base {
        assert(power(base, 1) == base) by {
            reveal_with_fuel(power, 2);
            assert(base * 1 == base);
        }
        assert(k >= 2);
        assert(n / base < power(base, (k - 1) as nat)) by (nonlinear_arith)
            requires
                base >= 2,
                n < base * power(base, (k - 1) as nat),
        ;
        lemma_digits_width(base, n / base, (k - 1) as nat);
    }
}

/// Appends the digits of `n` in the given base to `out`.
pub fn push_number(out: &mut Vec<u8>, base: u64, n: u64)
    requires
        2 <= base <= 10,
    ensures
        final(out)@ == old(out)@ + digits_of(base as nat, n as nat),
    decreases n,
{
    if n < base {
        out.push(0x30u8 + (n as u8));
        proof {
            assert(out@ =~= old(out)@ + digits_of(base as nat, n as nat));
        }
    } else {
        proof {
            assert(n / base < n && n % base < base) by (nonlinear_arith)
                requires
                    base >= 2,
                    n >= base,
            ;
        }
        push_number(out, base, n / base);
        out.push(0x30u8 + ((n % base) as u8));
        proof {
            assert(out@ =~= old(out)@ + digits_of(base as nat, n as nat));
        }
    }
}

/// The decimal digits of `n`.
pub fn decimal(n: u64) -> (v: Vec<u8>)
    ensures
        v@ == digits_of(10, n as nat),
{
    let mut v: Vec<u8> = Vec::new();
    push_number(&mut v, 10, n);
    proof {
        assert(Seq::<u8>::empty() + digits_of(10, n as nat) =~= digits_of(10, n as nat));
    }
    v
}

/// What a run of decimal digits reads as, where it is one and the number
/// fits in 64 bits.
pub open spec fn digits_value(s: Seq<u8>) -> Option<u64> {
    if s.len() > 0 && all_digits(10, s) && number_of(10, s) <= u64::MAX {
        Some(number_of(10, s) as u64)
    } else {
        None
    }
}

/// What a text reads as an unsigned decimal number: digits, which one `+`
/// may precede, and nothing else; the number must fit in 64 bits.
pub open spec fn unsigned_value(s: Seq<u8>) -> Option<u64> {
    if s.len() > 0 && s[0] == 0x2b {
        digits_value(s.drop_first())
    } else {
        digits_value(s)
    }
}

/// Reads a run of decimal digits.
pub fn parse_digits(s: &[u8]) -> (r: Option<u64>)
    ensures
        r == digits_value(s@),
{
    if s.len() == 0 {
        return None;
    }
    let mut acc: u64 = 0;
    let mut i: usize = 0;
    proof {
        assert(s@.subrange(0, 0) =~= Seq::<u8>::empty());
    }
    while i < s.len()
        invariant
            0 <= i <= s.len(),
            all_digits(10, s@.subrange(0, i as int)),
            acc == number_of(10, s@.subrange(0, i as int)),
        decreases s.len() - i,
    {
        let b = s[i];
        let ghost prefix = s@.subrange(0, i as int);
        let ghost next = s@.subrange(0, i + 1);
        proof {
            assert(next.drop_last() =~= prefix);
            assert(next.last() == b);
        }
        if b < 0x30 || b > 0x39 {
            proof {
                assert(!is_digit(10, s@[i as int]));
            }
            return None;
        }
        let d: u64 = (b - 0x30) as u64;
        if acc > (u64::MAX - d) / 10 {
            proof {
                assert(number_of(10, next) > u64::MAX);
                lemma_number_grows(s@, i + 1);
            }
            return None;
        }
        acc = acc * 10 + d;
        proof {
            assert forall|k: int| 0 <= k < next.len() implies is_digit(10, #[trigger] next[k]) by {
                if k < i {
                    assert(next[k] == prefix[k]);
                }
            }
        }
        i += 1;
    }
    proof {
        assert(s@.subrange(0, s@.len() as int) =~= s@);
    }
    Some(acc)
}

/// A run of decimal digits reads as no less than any of its prefixes,
/// provided the rest are digits.
pub proof fn lemma_number_grows(s: Seq<u8>, k: int)
    requires
        0 <= k <= s.len(),
    ensures
        all_digits(10, s) ==> number_of(10, s.subrange(0, k)) <= number_of(10, s),
    decreases s.len() - k,
{
    if k < s.len() && all_digits(10, s) {
        let a = s.subrange(0, k);
        let b = s.subrange(0, k + 1);
        assert(b.drop_last() =~= a);
        assert(is_digit(10, s[k]));
        assert(number_of(10, a) <= number_of(10, b));
        lemma_number_grows(s, k + 1);
    } else if k == s.len() {
        assert(s.subrange(0, k) =~= s);
    }
}

/// Reads an unsigned decimal number.
pub fn parse_unsigned(s: &[u8]) -> (r: Option<u64>)
    ensures
        r == unsigned_value(s@),
{
    if s.len() > 0 && s[0] == 0x2b {
        proof {
            assert(s@.subrange(1, s@.len() as int) =~= s@.drop_first());
        }
        parse_digits(&s[1..s.len()])
    } else {
        parse_digits(s)
    }
}

/// The place of the first byte `b` in `s`, or the length of `s` where it
/// holds none.
pub open spec fn index_of(s: Seq<u8>, b: u8) -> int
    decreases s.len(),
{
    if s.len() == 0 || s[0] == b {
        0
    } else {
        1 + index_of(s.drop_first(), b)
    }
}

/// `index_of` is within bounds, no byte before it is `b`, and the byte at
/// it is.
pub proof fn lemma_index_of(s: Seq<u8>, b: u8)
    ensures
        0 <= index_of(s, b) <= s.len(),
        forall|i: int| 0 <= i < index_of(s, b) ==> #[trigger] s[i] != b,
        index_of(s, b) < s.len() ==> s[index_of(s, b)] == b,
    decreases s.len(),
{
    if s.len() == 0 || s[0] == b {
    } else {
        let t = s.drop_first();
        lemma_index_of(t, b);
        assert forall|i: int| 0 <= i < index_of(s, b) implies #[trigger] s[i] != b by {
            if i > 0 {
                assert(s[i] == t[i - 1]);
            }
        }
        if index_of(s, b) < s.len() {
            assert(s[index_of(s, b)] == t[index_of(t, b)]);
        }
    }
}

/// A place before which no byte is `b` and at which one is, or which is
/// the end, is `index_of`.
pub proof fn lemma_index_of_is(s: Seq<u8>, b: u8, n: int)
    requires
        0 <= n <= s.len(),
        forall|i: int| 0 <= i < n ==> #[trigger] s[i] != b,
        n < s.len() ==> s[n] == b,
    ensures
        index_of(s, b) == n,
    decreases s.len(),
{
    if n > 0 {
        let t = s.drop_first();
        assert(s[0] != b);
        assert forall|i: int| 0 <= i < n - 1 implies #[trigger] t[i] != b by {
            assert(t[i] == s[i + 1]);
        }
        if n - 1 < t.len() {
            assert(t[n - 1] == s[n]);
        }
        lemma_index_of_is(t, b, n - 1);
    }
}

/// Finds the first byte `b` in `s` at or after `from`.
pub fn find_byte(s: &[u8], from: usize, b: u8) -> (r: usize)
    requires
        from <= s.len(),
    ensures
        r == from + index_of(s@.skip(from as int), b),
        from <= r <= s.len(),
{
    let mut i: usize = from;
    while i < s.len() && s[i] != b
        invariant
            from <= i <= s.len(),
            forall|k: int| from <= k < i ==> #[trigger] s@[k] != b,
        decreases s.len() - i,
    {
        i += 1;
    }
    proof {
        let t = s@.skip(from as int);
        assert forall|k: int| 0 <= k < i - from implies #[trigger] t[k] != b by {
            assert(t[k] == s@[from + k]);
        }
        lemma_index_of_is(t, b, i - from);
    }
    i
}

impl Ranked for Vec<u8> {
    /// Byte strings are ranked lexicographically.
    open spec fn rank(x: Seq<u8>, y: Seq<u8>) -> Order {
        lex_rank(x, y)
    }

    proof fn rank_reflexive(x: Seq<u8>) {
        lemma_lex_equal(x, x);
    }

    proof fn rank_antisymmetric(x: Seq<u8>, y: Seq<u8>) {
        lemma_lex_flip(x, y);
    }

    proof fn rank_transitive(x: Seq<u8>, y: Seq<u8>, z: Seq<u8>) {
        lemma_lex_transitive(x, y, z);
    }

    fn compare(&self, other: &Self) -> (o: Order) {
        proof {
            assert(self.deep_view() =~= self@);
            assert(other.deep_view() =~= other@);
        }
        compare_bytes(self.as_slice(), other.as_slice())
    }
}

/// The number of bytes at the start of `s` that are no white space.
pub open spec fn word_len(s: Seq<u8>) -> nat
    decreases s.len(),
{
    if s.len() > 0 && !is_space(s[0]) {
        1 + word_len(s.drop_first())
    } else {
        0
    }
}

/// The length of the first word is within the text; it is a run of bytes
/// that are no white space, and white space or the end follows it.
pub proof fn lemma_word_len(s: Seq<u8>)
    ensures
        word_len(s) <= s.len(),
        forall|i: int| 0 <= i < word_len(s) ==> !is_space(#[trigger] s[i]),
        word_len(s) < s.len() ==> is_space(s[word_len(s) as int]),
    decreases s.len(),
{
    if s.len() > 0 && !is_space(s[0]) {
        let t = s.drop_first();
        lemma_word_len(t);
        assert forall|i: int| 0 <= i < word_len(s) implies !is_space(#[trigger] s[i]) by {
            if i > 0 {
                assert(s[i] == t[i - 1]);
            }
        }
        if word_len(s) < s.len() {
            assert(s[word_len(s) as int] == t[word_len(t) as int]);
        }
    }
}

/// A count of leading bytes that are no white space, with white space or
/// the end after them, is the length of the first word.
pub proof fn lemma_word_len_is(s: Seq<u8>, n: int)
    requires
        0 <= n <= s.len(),
        forall|i: int| 0 <= i < n ==> !is_space(#[trigger] s[i]),
        n < s.len() ==> is_space(s[n]),
    ensures
        word_len(s) == n,
    decreases s.len(),
{
    if n > 0 {
        let t = s.drop_first();
        assert(!is_space(s[0]));
        assert forall|i: int| 0 <= i < n - 1 implies !is_space(#[trigger] t[i]) by {
            assert(t[i] == s[i + 1]);
        }
        if n - 1 < t.len() {
            assert(t[n - 1] == s[n]);
        }
        lemma_word_len_is(t, n - 1);
    }
}

/// The words of a text: its runs of bytes that are no white space.
pub open spec fn words(s: Seq<u8>) -> Seq<Seq<u8>>
    decreases s.len(),
{
    let a = leading_spaces(s);
    if a >= s.len() {
        Seq::empty()
    } else {
        let t = s.skip(a as int);
        let n = word_len(t);
        if n == 0 {
            Seq::empty()
        } else {
            proof {
                lemma_word_len(t);
            }
            seq![t.subrange(0, n as int)] + words(t.skip(n as int))
        }
    }
}

/// Cuts a text into its words.
pub fn split_words(s: &[u8]) -> (r: Vec<Vec<u8>>)
    ensures
        r.deep_view() == words(s@),
{
    let mut out: Vec<Vec<u8>> = Vec::new();
    let mut pos: usize = 0;
    proof {
        assert(s@.skip(0) =~= s@);
        assert(out.deep_view() + words(s@.skip(0)) =~= words(s@));
    }
    while pos < s.len()
        invariant
            0 <= pos <= s.len(),
            out.deep_view() + words(s@.skip(pos as int)) == words(s@),
        decreases s.len() - pos,
    {
        let ghost rest = s@.skip(pos as int);
        let ghost before = out.deep_view();
        let mut start = pos;
        while start < s.len() && byte_is_space(s[start])
            invariant
                pos <= start <= s.len(),
                forall|k: int| pos <= k < start ==> is_space(#[trigger] s@[k]),
            decreases s.len() - start,
        {
            start += 1;
        }
        proof {
            assert forall|k: int| 0 <= k < start - pos implies is_space(#[trigger] rest[k]) by {
                assert(rest[k] == s@[pos + k]);
            }
            if start < s.len() {
                assert(rest[start - pos] == s@[start as int]);
            }
            lemma_leading_spaces_is(rest, start - pos);
        }
        if start >= s.len() {
            proof {
                assert(words(rest) =~= Seq::<Seq<u8>>::empty());
                assert(s@.skip(s@.len() as int) =~= Seq::<u8>::empty());
                assert(words(s@.skip(s@.len() as int)) =~= Seq::<Seq<u8>>::empty());
            }
            pos = s.len();
        } else {
            let mut end = start;
            while end < s.len() && !byte_is_space(s[end])
                invariant
                    start <= end <= s.len(),
                    forall|k: int| start <= k < end ==> !is_space(#[trigger] s@[k]),
                decreases s.len() - end,
            {
                end += 1;
            }
            let word = copy_bytes(&s[start..end]);
            out.push(word);
            proof {
                let t = rest.skip(start - pos);
                assert(t =~= s@.skip(start as int));
                assert forall|k: int| 0 <= k < end - start implies !is_space(#[trigger] t[k]) by {
                    assert(t[k] == s@[start + k]);
                }
                if end < s.len() {
                    assert(t[end - start] == s@[end as int]);
                }
                lemma_word_len_is(t, end - start);
                assert(t.subrange(0, end - start) =~= s@.subrange(start as int, end as int));
                assert(t.skip(end - start) =~= s@.skip(end as int));
                assert(word.deep_view() =~= word@);
                assert(out.deep_view() =~= before.push(word@));
                assert(before.push(word@) + words(s@.skip(end as int)) =~= before + words(rest));
            }
            pos = end;
        }
    }
    proof {
        assert(s@.skip(pos as int) =~= Seq::<u8>::empty());
        assert(out.deep_view() + Seq::<Seq<u8>>::empty() =~= out.deep_view());
    }
    out
}

/// The pieces of a text between the bytes `b`; a text without `b` is one
/// piece.
pub open spec fn split_on(s: Seq<u8>, b: u8) -> Seq<Seq<u8>>
    decreases s.len(),
{
    let n = index_of(s, b);
    if n >= s.len() {
        seq![s]
    } else {
        proof {
            lemma_index_of(s, b);
        }
        seq![s.subrange(0, n)] + split_on(s.skip(n + 1), b)
    }
}

/// Cuts a text at the bytes `b`.
pub fn split_bytes(s: &[u8], b: u8) -> (r: Vec<Vec<u8>>)
    ensures
        r.deep_view() == split_on(s@, b),
{
    let mut out: Vec<Vec<u8>> = Vec::new();
    let mut pos: usize = 0;
    let mut done = false;
    proof {
        assert(s@.skip(0) =~= s@);
        assert(out.deep_view() + split_on(s@.skip(0), b) =~= split_on(s@, b));
    }
    while !done
        invariant
            0 <= pos <= s.len(),
            !done ==> out.deep_view() + split_on(s@.skip(pos as int), b) == split_on(s@, b),
            done ==> out.deep_view() == split_on(s@, b),
        decreases s.len() - pos + (if done { 0int } else { 1int }),
    {
        let ghost rest = s@.skip(pos as int);
        let ghost before = out.deep_view();
        let end = find_byte(s, pos, b);
        let piece = copy_bytes(&s[pos..end]);
        out.push(piece);
        proof {
            lemma_index_of(rest, b);
            assert(rest.subrange(0, end - pos) =~= s@.subrange(pos as int, end as int));
            assert(piece.deep_view() =~= piece@);
            assert(out.deep_view() =~= before.push(piece@));
        }
        if end < s.len() {
            proof {
                assert(rest.skip(end - pos + 1) =~= s@.skip(end + 1));
                assert(before.push(piece@) + split_on(s@.skip(end + 1), b) =~= before + split_on(
                    rest,
                    b,
                ));
            }
            pos = end + 1;
        } else {
            proof {
                assert(rest =~= s@.subrange(pos as int, end as int));
                assert(before.push(piece@) =~= before + split_on(rest, b));
            }
            done = true;
        }
    }
    out
}

/// The items one after the other, with `sep` between every two.
pub open spec fn joined(items: Seq<Seq<u8>>, sep: Seq<u8>) -> Seq<u8>
    decreases items.len(),
{
    if items.len() == 0 {
        Seq::empty()
    } else if items.len() == 1 {
        items[0]
    } else {
        joined(items.drop_last(), sep) + sep + items.last()
    }
}

/// Joins the items with `sep` between every two.
pub fn join_bytes(items: &Vec<Vec<u8>>, sep: &[u8]) -> (r: Vec<u8>)
    ensures
        r@ == joined(items.deep_view(), sep@),
{
    let mut out: Vec<u8> = Vec::new();
    let ghost all = items.deep_view();
    let mut i: usize = 0;
    proof {
        assert(all.subrange(0, 0) =~= Seq::<Seq<u8>>::empty());
    }
    while i < items.len()
        invariant
            0 <= i <= items.len(),
            all == items.deep_view(),
            out@ == joined(all.subrange(0, i as int), sep@),
        decreases items.len() - i,
    {
        let ghost before = out@;
        if i > 0 {
            append_bytes(&mut out, sep);
        }
        append_bytes(&mut out, items[i].as_slice());
        proof {
            let next = all.subrange(0, i + 1);
            assert(next.drop_last() =~= all.subrange(0, i as int));
            assert(items@[i as int].deep_view() =~= items@[i as int]@);
            assert(next.last() == items@[i as int]@);
            if i == 0 {
                assert(out@ =~= next[0]);
            }
        }
        i += 1;
    }
    proof {
        assert(all.subrange(0, all.len() as int) =~= all);
    }
    out
}

} // verus!
