//! Exact decimal amounts.
//!
//! Monetary amounts are never held as binary floating point: an amount
//! is a sign, an unscaled integer mantissa and a decimal scale, so that
//! the value is `(-1)^neg * mantissa / 10^scale`. Text such as `19.99`
//! parses to mantissa `1999`, scale `2`, and renders back exactly.

use vstd::prelude::*;

verus! {

/// An exact decimal number: `(-1)^neg * mantissa / 10^scale`.
#[derive(Clone, Copy, PartialEq, Eq, Structural, Debug)]
pub struct Decimal {
    pub neg: bool,
    pub mantissa: u128,
    pub scale: u32,
}

/// Greatest number of decimal digit positions an amount may carry;
/// `10^38 - 1` is the largest mantissa that fits this bound (and fits `u128`).
pub const MAX_DIGITS: u32 = 38;

pub open spec fn pow10(k: nat) -> nat
    decreases k,
{
    if k == 0 {
        1
    } else {
        10 * pow10((k - 1) as nat)
    }
}

impl Decimal {
    /// Well-formed amounts carry no negative zero, a mantissa of at
    /// most `MAX_DIGITS` digits, and a scale that leaves room for at
    /// least one integer digit within `MAX_DIGITS` positions.
    pub open spec fn wf(self) -> bool {
        &&& (self.neg ==> self.mantissa > 0)
        &&& (self.mantissa as nat) < pow10(MAX_DIGITS as nat)
        &&& self.scale < MAX_DIGITS
    }
}

pub open spec fn is_digit_char(c: char) -> bool {
    ||| c == '0'
    ||| c == '1'
    ||| c == '2'
    ||| c == '3'
    ||| c == '4'
    ||| c == '5'
    ||| c == '6'
    ||| c == '7'
    ||| c == '8'
    ||| c == '9'
}

/// Numeric value of a decimal digit character.
pub open spec fn digit_of(c: char) -> nat {
    if c == '0' {
        0
    } else if c == '1' {
        1
    } else if c == '2' {
        2
    } else if c == '3' {
        3
    } else if c == '4' {
        4
    } else if c == '5' {
        5
    } else if c == '6' {
        6
    } else if c == '7' {
        7
    } else if c == '8' {
        8
    } else {
        9
    }
}

/// Decimal digit character for a value below ten.
pub open spec fn digit_char(d: nat) -> char {
    if d == 0 {
        '0'
    } else if d == 1 {
        '1'
    } else if d == 2 {
        '2'
    } else if d == 3 {
        '3'
    } else if d == 4 {
        '4'
    } else if d == 5 {
        '5'
    } else if d == 6 {
        '6'
    } else if d == 7 {
        '7'
    } else if d == 8 {
        '8'
    } else {
        '9'
    }
}

pub open spec fn all_digits(s: Seq<char>) -> bool {
    forall|i: int| 0 <= i < s.len() ==> is_digit_char(#[trigger] s[i])
}

/// Value of a digit string read most-significant first.
pub open spec fn digits_val(s: Seq<char>) -> nat
    decreases s.len(),
{
    if s.len() == 0 {
        0
    } else {
        10 * digits_val(s.drop_last()) + digit_of(s.last())
    }
}

/// Index of the first `'.'`, or the length when there is none.
pub open spec fn find_dot(s: Seq<char>) -> int
    decreases s.len(),
{
    if s.len() == 0 {
        0
    } else if s[0] == '.' {
        0
    } else {
        1 + find_dot(s.skip(1))
    }
}

pub proof fn lemma_find_dot(s: Seq<char>)
    ensures
        0 <= find_dot(s) <= s.len(),
        forall|j: int| 0 <= j < find_dot(s) ==> s[j] != '.',
        find_dot(s) < s.len() ==> s[find_dot(s)] == '.',
    decreases s.len(),
{
    if s.len() == 0 {
    } else if s[0] == '.' {
    } else {
        lemma_find_dot(s.skip(1));
        assert forall|j: int| 0 <= j < find_dot(s) implies s[j] != '.' by {
            if j > 0 {
                assert(s.skip(1)[j - 1] != '.');
            }
        }
    }
}

/// The first dot is wherever a dot stands with none before it.
pub proof fn lemma_find_dot_at(s: Seq<char>, i: int)
    requires
        0 <= i < s.len(),
        s[i] == '.',
        forall|j: int| 0 <= j < i ==> s[j] != '.',
    ensures
        find_dot(s) == i,
{
    lemma_find_dot(s);
    if find_dot(s) < i {
        assert(s[find_dot(s)] == '.');
    } else if find_dot(s) > i {
        assert(s[i] != '.');
    }
}

/// A digit string holds no dot, so the first dot is at its end.
pub proof fn lemma_find_dot_none(s: Seq<char>)
    requires
        all_digits(s),
    ensures
        find_dot(s) == s.len(),
{
    lemma_find_dot(s);
    if find_dot(s) < s.len() {
        assert(is_digit_char(s[find_dot(s)]));
    }
}

/// What a piece of amount text denotes: `None` where the text is not
/// `['-'] digits ['.' digits]` with both digit runs nonempty, or where
/// it carries more than `MAX_DIGITS` digit positions.
pub open spec fn spec_parse_amount(s: Seq<char>) -> Option<Decimal> {
    let neg = s.len() > 0 && s[0] == '-';
    let body = if neg {
        s.skip(1)
    } else {
        s
    };
    let k = find_dot(body);
    if body.len() == 0 {
        None
    } else if k == body.len() {
        if all_digits(body) && body.len() <= MAX_DIGITS {
            Some(mk_decimal(neg, digits_val(body), 0))
        } else {
            None
        }
    } else {
        if 0 < k && k + 1 < body.len() && all_digits(body.take(k)) && all_digits(
            body.skip(k + 1),
        ) && body.len() - 1 <= MAX_DIGITS {
            Some(
                mk_decimal(
                    neg,
                    digits_val(body.take(k) + body.skip(k + 1)),
                    (body.len() - k - 1) as nat,
                ),
            )
        } else {
            None
        }
    }
}

/// Normalises a parsed sign, mantissa and scale (no negative zero).
pub open spec fn mk_decimal(neg: bool, m: nat, scale: nat) -> Decimal {
    Decimal { neg: neg && m > 0, mantissa: m as u128, scale: scale as u32 }
}

pub proof fn lemma_pow10_le(j: nat, k: nat)
    requires
        j <= k,
    ensures
        pow10(j) <= pow10(k),
        pow10(j) >= 1,
    decreases k,
{
    if k > 0 {
        if j == k {
            lemma_pow10_le(0, (k - 1) as nat);
        } else {
            lemma_pow10_le(j, (k - 1) as nat);
        }
    }
}

/// `10^MAX_DIGITS` written out, so that mantissas are known to fit `u128`.
pub proof fn lemma_pow10_max()
    ensures
        pow10(MAX_DIGITS as nat) == 100000000000000000000000000000000000000nat,
{
    assert(pow10(0) == 1);
    assert(pow10(1) == 10);
    assert(pow10(2) == 100);
    assert(pow10(3) == 1000);
    assert(pow10(4) == 10000);
    assert(pow10(5) == 100000);
    assert(pow10(6) == 1000000);
    assert(pow10(7) == 10000000);
    assert(pow10(8) == 100000000);
    assert(pow10(9) == 1000000000);
    assert(pow10(10) == 10000000000);
    assert(pow10(11) == 100000000000);
    assert(pow10(12) == 1000000000000);
    assert(pow10(13) == 10000000000000);
    assert(pow10(14) == 100000000000000);
    assert(pow10(15) == 1000000000000000);
    assert(pow10(16) == 10000000000000000);
    assert(pow10(17) == 100000000000000000);
    assert(pow10(18) == 1000000000000000000);
    assert(pow10(19) == 10000000000000000000);
    assert(pow10(20) == 100000000000000000000);
    assert(pow10(21) == 1000000000000000000000);
    assert(pow10(22) == 10000000000000000000000);
    assert(pow10(23) == 100000000000000000000000);
    assert(pow10(24) == 1000000000000000000000000);
    assert(pow10(25) == 10000000000000000000000000);
    assert(pow10(26) == 100000000000000000000000000);
    assert(pow10(27) == 1000000000000000000000000000);
    assert(pow10(28) == 10000000000000000000000000000);
    assert(pow10(29) == 100000000000000000000000000000);
    assert(pow10(30) == 1000000000000000000000000000000);
    assert(pow10(31) == 10000000000000000000000000000000);
    assert(pow10(32) == 100000000000000000000000000000000);
    assert(pow10(33) == 1000000000000000000000000000000000);
    assert(pow10(34) == 10000000000000000000000000000000000);
    assert(pow10(35) == 100000000000000000000000000000000000);
    assert(pow10(36) == 1000000000000000000000000000000000000);
    assert(pow10(37) == 10000000000000000000000000000000000000);
    assert(pow10(38) == 100000000000000000000000000000000000000);
}

pub proof fn lemma_digits_val_push(p: Seq<char>, c: char)
    ensures
        digits_val(p.push(c)) == 10 * digits_val(p) + digit_of(c),
{
    assert(p.push(c).drop_last() =~= p);
    assert(p.push(c).last() == c);
}

fn char_is_digit(c: char) -> (b: bool)
    ensures
        b == is_digit_char(c),
{
    c == '0' || c == '1' || c == '2' || c == '3' || c == '4' || c == '5' || c == '6' || c == '7'
        || c == '8' || c == '9'
}

fn char_digit_value(c: char) -> (d: u128)
    requires
        is_digit_char(c),
    ensures
        d == digit_of(c),
        d < 10,
{
    if c == '0' {
        0
    } else if c == '1' {
        1
    } else if c == '2' {
        2
    } else if c == '3' {
        3
    } else if c == '4' {
        4
    } else if c == '5' {
        5
    } else if c == '6' {
        6
    } else if c == '7' {
        7
    } else if c == '8' {
        8
    } else {
        9
    }
}

/// Parses amount text of the shape `['-'] digits ['.' digits]` into an
/// exact decimal; `None` on any other text, and on amounts of more than
/// `MAX_DIGITS` digit positions.
pub fn parse_amount(s: &str) -> (r: Option<Decimal>)
    ensures
        r == spec_parse_amount(s@),
        r matches Some(d) ==> d.wf(),
{
    let n = s.unicode_len();
    let neg = n > 0 && s.get_char(0) == '-';
    let start: usize = if neg {
        1
    } else {
        0
    };
    let ghost body = s@.skip(start as int);
    proof {
        if !neg {
            assert(body =~= s@);
        }
        lemma_find_dot(body);
    }
    if start >= n {
        return None;
    }
    let mut i = start;
    let mut m: u128 = 0;
    let mut count: usize = 0;
    loop
        invariant
            n == s@.len(),
            body == s@.skip(start as int),
            neg == (s@.len() > 0 && s@[0] == '-'),
            start == (if neg { 1int } else { 0int }),
            start < n,
            start <= i <= n,
            count == i - start,
            count <= MAX_DIGITS,
            forall|j: int| 0 <= j < count ==> is_digit_char(#[trigger] body[j]),
            m == digits_val(body.take(count as int)),
            (m as nat) < pow10(count as nat),
        ensures
            start <= i <= n,
            count == i - start,
            count <= MAX_DIGITS,
            forall|j: int| 0 <= j < count ==> is_digit_char(#[trigger] body[j]),
            m == digits_val(body.take(count as int)),
            (m as nat) < pow10(count as nat),
            i == n || !is_digit_char(body[count as int]),
        decreases n - i,
    {
        if i >= n {
            break ;
        }
        let c = s.get_char(i);
        proof {
            assert(c == body[count as int]);
        }
        if !char_is_digit(c) {
            break ;
        }
        if count >= MAX_DIGITS as usize {
            proof {
                lemma_find_dot(body);
                let k = find_dot(body);
                assert(forall|j: int| 0 <= j <= count ==> is_digit_char(#[trigger] body[j]));
                if k <= count {
                    assert(is_digit_char(body[k]));
                    assert(false);
                }
                if k == body.len() {
                    assert(body.len() > MAX_DIGITS);
                } else {
                    assert(body.len() - 1 >= k > MAX_DIGITS);
                }
                let sneg = s@.len() > 0 && s@[0] == '-';
                assert(sneg == neg);
                let sbody = if sneg {
                    s@.skip(1)
                } else {
                    s@
                };
                assert(sbody == body);
                assert(find_dot(sbody) == k);
                assert(spec_parse_amount(s@) is None);
            }
            return None;
        }
        let d = char_digit_value(c);
        proof {
            lemma_digits_val_push(body.take(count as int), c);
            assert(body.take(count as int).push(c) =~= body.take(count as int + 1));
            assert(pow10((count + 1) as nat) == 10 * pow10(count as nat));
            lemma_pow10_le(count as nat + 1, MAX_DIGITS as nat);
            lemma_pow10_max();
        }
        m = 10 * m + d;
        i = i + 1;
        count = count + 1;
    }
    proof {
        assert(body.len() == n - start);
    }
    if count == 0 {
        proof {
            let k = find_dot(body);
            assert(!is_digit_char(body[0]));
            if k == body.len() {
                assert(!all_digits(body));
            } else if k > 0 {
                assert(body[0] != '.');
                assert(body.take(k)[0] == body[0]);
                assert(!all_digits(body.take(k)));
            }
        }
        return None;
    }
    if i >= n {
        proof {
            assert(forall|j: int| 0 <= j < body.len() ==> is_digit_char(#[trigger] body[j]));
            lemma_find_dot_none(body);
            assert(body.take(count as int) =~= body);
            lemma_pow10_le(count as nat, MAX_DIGITS as nat);
        }
        return Some(Decimal { neg: neg && m > 0, mantissa: m, scale: 0 });
    }
    let c = s.get_char(i);
    proof {
        assert(c == body[count as int]);
    }
    if c != '.' {
        proof {
            let k = find_dot(body);
            assert(!is_digit_char(body[count as int]));
            assert(body[count as int] != '.');
            if k <= count {
                if k < count {
                    assert(is_digit_char(body[k]));
                }
                assert(false);
            }
            if k == body.len() {
                assert(!all_digits(body));
            } else {
                assert(body.take(k)[count as int] == body[count as int]);
                assert(!all_digits(body.take(k)));
            }
        }
        return None;
    }
    let ghost k: int = count as int;
    proof {
        lemma_find_dot_at(body, k);
    }
    i = i + 1;
    let mut fcount: usize = 0;
    loop
        invariant
            n == s@.len(),
            body == s@.skip(start as int),
            neg == (s@.len() > 0 && s@[0] == '-'),
            start == (if neg { 1int } else { 0int }),
            start < n,
            body.len() == n - start,
            k == find_dot(body),
            0 < k <= MAX_DIGITS,
            body[k] == '.',
            i == start + 1 + k + fcount,
            i <= n,
            count == k + fcount,
            k + fcount <= MAX_DIGITS,
            forall|j: int| 0 <= j < k ==> is_digit_char(#[trigger] body[j]),
            forall|j: int| k < j < k + 1 + fcount ==> is_digit_char(#[trigger] body[j]),
            m == digits_val(body.take(k) + body.subrange(k + 1, k + 1 + fcount)),
            (m as nat) < pow10((k + fcount) as nat),
        ensures
            i == n,
            i == start + 1 + k + fcount,
            count == k + fcount,
            k + fcount <= MAX_DIGITS,
            forall|j: int| 0 <= j < k ==> is_digit_char(#[trigger] body[j]),
            forall|j: int| k < j < k + 1 + fcount ==> is_digit_char(#[trigger] body[j]),
            m == digits_val(body.take(k) + body.subrange(k + 1, k + 1 + fcount)),
            (m as nat) < pow10((k + fcount) as nat),
        decreases n - i,
    {
        if i >= n {
            break ;
        }
        let c2 = s.get_char(i);
        proof {
            assert(c2 == body[k + 1 + fcount]);
        }
        if !char_is_digit(c2) {
            proof {
                assert(body.skip(k + 1)[fcount as int] == body[k + 1 + fcount]);
                assert(!all_digits(body.skip(k + 1)));
                let sneg = s@.len() > 0 && s@[0] == '-';
                assert(sneg == neg);
                let sbody = if sneg {
                    s@.skip(1)
                } else {
                    s@
                };
                assert(sbody == body);
                assert(find_dot(sbody) == k);
                assert(k < sbody.len());
                assert(spec_parse_amount(s@) is None);
            }
            return None;
        }
        if count >= MAX_DIGITS as usize {
            proof {
                assert(body.len() >= k + 1 + fcount + 1);
                assert(body.len() - 1 > MAX_DIGITS);
                let sneg = s@.len() > 0 && s@[0] == '-';
                assert(sneg == neg);
                let sbody = if sneg {
                    s@.skip(1)
                } else {
                    s@
                };
                assert(sbody == body);
                assert(find_dot(sbody) == k);
                assert(spec_parse_amount(s@) is None);
            }
            return None;
        }
        let d = char_digit_value(c2);
        proof {
            let pre = body.take(k) + body.subrange(k + 1, k + 1 + fcount);
            lemma_digits_val_push(pre, c2);
            assert(pre.push(c2) =~= body.take(k) + body.subrange(k + 1, k + 2 + fcount));
            assert(pow10((k + fcount + 1) as nat) == 10 * pow10((k + fcount) as nat));
            lemma_pow10_le((k + fcount + 1) as nat, MAX_DIGITS as nat);
            lemma_pow10_max();
        }
        m = 10 * m + d;
        i = i + 1;
        fcount = fcount + 1;
        count = count + 1;
    }
    if fcount == 0 {
        proof {
            assert(body.len() == k + 1);
        }
        return None;
    }
    proof {
        assert(body.len() == k + 1 + fcount);
        assert(body.skip(k + 1) =~= body.subrange(k + 1, k + 1 + fcount));
        assert(all_digits(body.take(k))) by {
            assert(forall|j: int| 0 <= j < k ==> body.take(k)[j] == body[j]);
        }
        assert(all_digits(body.skip(k + 1))) by {
            assert(forall|j: int|
                0 <= j < body.skip(k + 1).len() ==> #[trigger] body.skip(k + 1)[j] == body[k + 1
                    + j]);
        }
        lemma_pow10_le((k + fcount) as nat, MAX_DIGITS as nat);
    }
    Some(Decimal { neg: neg && m > 0, mantissa: m, scale: fcount as u32 })
}

/// Decimal digit string of `n`, most significant digit first, no
/// leading zero (a single `'0'` for zero).
pub open spec fn spec_digits(n: nat) -> Seq<char>
    decreases n,
{
    if n < 10 {
        seq![digit_char(n)]
    } else {
        spec_digits(n / 10).push(digit_char(n % 10))
    }
}

pub open spec fn zeros(k: nat) -> Seq<char>
    decreases k,
{
    if k == 0 {
        Seq::empty()
    } else {
        seq!['0'] + zeros((k - 1) as nat)
    }
}

/// Digit string of `n`, left-padded with zeros to at least `w` places.
pub open spec fn padded_digits(n: nat, w: nat) -> Seq<char> {
    let d = spec_digits(n);
    if d.len() >= w {
        d
    } else {
        zeros((w - d.len()) as nat) + d
    }
}

/// Canonical text of an amount: sign, integer digits, and a fractional
/// part of exactly `scale` digits when the scale is nonzero.
pub open spec fn spec_render(d: Decimal) -> Seq<char> {
    let digs = padded_digits(d.mantissa as nat, (d.scale + 1) as nat);
    let body = if d.scale == 0 {
        digs
    } else {
        digs.take(digs.len() - d.scale) + seq!['.'] + digs.skip(digs.len() - d.scale)
    };
    if d.neg {
        seq!['-'] + body
    } else {
        body
    }
}

fn char_of_digit(d: u128) -> (c: char)
    requires
        d < 10,
    ensures
        c == digit_char(d as nat),
        is_digit_char(c),
{
    if d == 0 {
        '0'
    } else if d == 1 {
        '1'
    } else if d == 2 {
        '2'
    } else if d == 3 {
        '3'
    } else if d == 4 {
        '4'
    } else if d == 5 {
        '5'
    } else if d == 6 {
        '6'
    } else if d == 7 {
        '7'
    } else if d == 8 {
        '8'
    } else {
        '9'
    }
}

fn push_char(out: &mut String, c: char)
    requires
        is_digit_char(c) || c == '.' || c == '-',
    ensures
        final(out)@ == old(out)@.push(c),
{
    if c == '-' {
        out.append("-");
    } else if c == '.' {
        out.append(".");
    } else if c == '0' {
        out.append("0");
    } else if c == '1' {
        out.append("1");
    } else if c == '2' {
        out.append("2");
    } else if c == '3' {
        out.append("3");
    } else if c == '4' {
        out.append("4");
    } else if c == '5' {
        out.append("5");
    } else if c == '6' {
        out.append("6");
    } else if c == '7' {
        out.append("7");
    } else if c == '8' {
        out.append("8");
    } else {
        out.append("9");
    }
    proof {
        reveal_strlit("-");
        reveal_strlit(".");
        reveal_strlit("0");
        reveal_strlit("1");
        reveal_strlit("2");
        reveal_strlit("3");
        reveal_strlit("4");
        reveal_strlit("5");
        reveal_strlit("6");
        reveal_strlit("7");
        reveal_strlit("8");
        reveal_strlit("9");
        assert(out@ =~= old(out)@.push(c));
    }
}

/// Renders an exact decimal as canonical amount text: what parsing
/// gives back unchanged (see `lemma_render_parse_amount`).
pub fn render_amount(d: &Decimal) -> (r: String)
    requires
        d.wf(),
    ensures
        r@ == spec_render(*d),
{
    let ghost n0 = d.mantissa as nat;
    let mut digs: Vec<char> = Vec::new();
    let mut m: u128 = d.mantissa;
    let c0 = char_of_digit(m % 10);
    digs.push(c0);
    proof {
        if n0 < 10 {
            assert(spec_digits(n0) =~= digs@);
        } else {
            assert(spec_digits(n0) =~= spec_digits((m / 10) as nat) + digs@);
        }
    }
    m = m / 10;
    while m > 0
        invariant
            digs@.len() >= 1,
            all_digits(digs@),
            spec_digits(n0) == (if m == 0 {
                digs@
            } else {
                spec_digits(m as nat) + digs@
            }),
        decreases m,
    {
        let c = char_of_digit(m % 10);
        let ghost pre = digs@;
        proof {
            if m >= 10 {
                assert(spec_digits(m as nat) == spec_digits((m / 10) as nat).push(
                    digit_char((m % 10) as nat),
                ));
                assert(spec_digits(m as nat) + pre =~= spec_digits((m / 10) as nat) + (seq![
                    digit_char((m % 10) as nat),
                ] + pre));
            } else {
                assert(spec_digits(m as nat) =~= seq![digit_char((m % 10) as nat)]);
                assert(spec_digits(m as nat) + pre =~= seq![digit_char((m % 10) as nat)] + pre);
            }
        }
        digs.insert(0, c);
        proof {
            assert(digs@ =~= seq![digit_char((m % 10) as nat)] + pre);
        }
        m = m / 10;
    }
    proof {
        assert(digs@ == spec_digits(n0));
        assert(zeros(0) + digs@ =~= digs@);
    }
    let width = (d.scale as usize) + 1;
    while digs.len() < width
        invariant
            width == d.scale + 1,
            digs@.len() >= 1,
            all_digits(digs@),
            digs@.len() >= spec_digits(n0).len(),
            digs@ == zeros((digs@.len() - spec_digits(n0).len()) as nat) + spec_digits(n0),
            digs@.len() == spec_digits(n0).len() || (spec_digits(n0).len() < width && digs@.len()
                <= width),
        decreases width - digs@.len(),
    {
        let ghost pre = digs@;
        digs.insert(0, '0');
        proof {
            let j = (pre.len() - spec_digits(n0).len()) as nat;
            assert(zeros(j + 1) =~= seq!['0'] + zeros(j));
            assert(digs@ =~= seq!['0'] + pre);
            assert(zeros(j + 1) + spec_digits(n0) =~= seq!['0'] + (zeros(j) + spec_digits(n0)));
        }
    }
    proof {
        assert(digs@ == padded_digits(n0, (d.scale + 1) as nat));
    }
    let l = digs.len();
    let scale = d.scale as usize;
    let ghost digsv = digs@;
    let ghost bodyv = if d.scale == 0 {
        digsv
    } else {
        digsv.take(digsv.len() - d.scale) + seq!['.'] + digsv.skip(digsv.len() - d.scale)
    };
    let mut out = String::new();
    if d.neg {
        push_char(&mut out, '-');
    }
    let ghost sign = if d.neg {
        seq!['-']
    } else {
        Seq::<char>::empty()
    };
    proof {
        assert(out@ =~= sign);
        assert(sign + bodyv.take(0) =~= sign);
    }
    let mut t: usize = 0;
    while t < l
        invariant
            t <= l,
            l == digsv.len(),
            l >= 1,
            scale == d.scale,
            scale < l || scale == 0,
            digs@ == digsv,
            all_digits(digsv),
            bodyv == (if d.scale == 0 {
                digsv
            } else {
                digsv.take(digsv.len() - d.scale) + seq!['.'] + digsv.skip(digsv.len() - d.scale)
            }),
            sign == (if d.neg {
                seq!['-']
            } else {
                Seq::<char>::empty()
            }),
            out@ == sign + bodyv.take(
                t + (if scale > 0 && t > l - scale {
                    1int
                } else {
                    0int
                }),
            ),
        decreases l - t,
    {
        if scale > 0 && t == l - scale {
            proof {
                assert(bodyv[t as int] == '.');
                assert(bodyv.take(t + 1) =~= bodyv.take(t as int).push('.'));
                assert(sign + bodyv.take(t + 1) =~= (sign + bodyv.take(t as int)).push('.'));
            }
            push_char(&mut out, '.');
        }
        let ghost dotted: int = if scale > 0 && t >= l - scale {
            1
        } else {
            0
        };
        proof {
            if t < l - scale || scale == 0 {
                assert(bodyv[t as int] == digsv[t as int]);
            } else {
                assert(bodyv[t + 1] == digsv[t as int]);
            }
            assert(bodyv.take(t + dotted + 1) =~= bodyv.take(t + dotted).push(
                bodyv[t + dotted],
            ));
            assert(sign + bodyv.take(t + dotted + 1) =~= (sign + bodyv.take(t + dotted)).push(
                bodyv[t + dotted],
            ));
        }
        let ch = digs[t];
        push_char(&mut out, ch);
        t = t + 1;
    }
    proof {
        if scale == 0 {
            assert(bodyv.take(l as int) =~= bodyv);
        } else {
            assert(bodyv.take(l + 1) =~= bodyv);
        }
        assert(out@ == sign + bodyv);
        assert(spec_render(*d) == sign + bodyv);
    }
    out
}

pub proof fn lemma_spec_digits_all(n: nat)
    ensures
        spec_digits(n).len() >= 1,
        all_digits(spec_digits(n)),
    decreases n,
{
    if n < 10 {
        assert(is_digit_char(digit_char(n)));
    } else {
        lemma_spec_digits_all(n / 10);
        assert(is_digit_char(digit_char(n % 10)));
        assert forall|i: int| 0 <= i < spec_digits(n).len() implies is_digit_char(
            #[trigger] spec_digits(n)[i],
        ) by {
            if i < spec_digits(n / 10).len() {
                assert(spec_digits(n)[i] == spec_digits(n / 10)[i]);
            }
        }
    }
}

pub proof fn lemma_zeros_all(k: nat)
    ensures
        zeros(k).len() == k,
        forall|i: int| 0 <= i < k ==> zeros(k)[i] == '0',
    decreases k,
{
    if k > 0 {
        lemma_zeros_all((k - 1) as nat);
    }
}

pub proof fn lemma_digits_val_zeros(k: nat)
    ensures
        digits_val(zeros(k)) == 0,
    decreases k,
{
    lemma_zeros_all(k);
    if k > 0 {
        lemma_zeros_all((k - 1) as nat);
        assert(zeros(k).drop_last() =~= zeros((k - 1) as nat));
        assert(zeros(k).last() == '0');
        lemma_digits_val_zeros((k - 1) as nat);
    }
}

/// Leading zeros do not change the value of a digit string.
pub proof fn lemma_digits_val_zero_prefix(k: nat, s: Seq<char>)
    ensures
        digits_val(zeros(k) + s) == digits_val(s),
    decreases s.len(),
{
    if s.len() == 0 {
        assert(zeros(k) + s =~= zeros(k));
        lemma_digits_val_zeros(k);
    } else {
        assert((zeros(k) + s).drop_last() =~= zeros(k) + s.drop_last());
        assert((zeros(k) + s).last() == s.last());
        lemma_digits_val_zero_prefix(k, s.drop_last());
    }
}

/// Reading back the digit string of `n` yields `n`.
pub proof fn lemma_digits_val_of_digits(n: nat)
    ensures
        digits_val(spec_digits(n)) == n,
    decreases n,
{
    if n < 10 {
        let s = spec_digits(n);
        assert(s == seq![digit_char(n)]);
        assert(s.len() == 1);
        assert(s.drop_last() =~= Seq::<char>::empty());
        assert(digits_val(s.drop_last()) == 0);
        assert(s.last() == digit_char(n));
        assert(digit_of(digit_char(n)) == n);
        assert(digits_val(s) == 10 * 0 + n);
    } else {
        lemma_digits_val_of_digits(n / 10);
        lemma_digits_val_push(spec_digits(n / 10), digit_char(n % 10));
        assert(n % 10 < 10) by (nonlinear_arith);
        assert(digit_of(digit_char(n % 10)) == n % 10);
        assert(digits_val(spec_digits(n)) == 10 * (n / 10) + n % 10);
        assert(n == 10 * (n / 10) + n % 10) by (nonlinear_arith);
    }
}

/// A number below `10^k` needs at most `k` digits.
pub proof fn lemma_spec_digits_len(n: nat, k: nat)
    requires
        k >= 1,
        n < pow10(k),
    ensures
        spec_digits(n).len() <= k,
    decreases n,
{
    if n < 10 {
    } else {
        assert(pow10(0) == 1);
        assert(pow10(1) == 10);
        if k == 1 {
            assert(false);
        }
        assert(pow10(k) == 10 * pow10((k - 1) as nat));
        assert(n / 10 < pow10((k - 1) as nat)) by {
            if n / 10 >= pow10((k - 1) as nat) {
                assert(n >= 10 * (n / 10)) by (nonlinear_arith);
                assert(10 * (n / 10) >= 10 * pow10((k - 1) as nat)) by (nonlinear_arith)
                    requires
                        n / 10 >= pow10((k - 1) as nat),
                ;
            }
        }
        lemma_spec_digits_len(n / 10, (k - 1) as nat);
    }
}

/// Round trip: the canonical text of a well-formed amount parses back
/// to exactly that amount, so no precision is lost between a value and
/// its display form.
pub proof fn lemma_render_parse_amount(d: Decimal)
    requires
        d.wf(),
    ensures
        spec_parse_amount(spec_render(d)) == Some(d),
{
    let n0 = d.mantissa as nat;
    let dl = spec_digits(n0);
    let w = (d.scale + 1) as nat;
    let digs = padded_digits(n0, w);
    let pad = if dl.len() >= w {
        0nat
    } else {
        (w - dl.len()) as nat
    };
    lemma_spec_digits_all(n0);
    lemma_zeros_all(pad);
    assert(digs =~= zeros(pad) + dl);
    assert(all_digits(digs)) by {
        assert forall|i: int| 0 <= i < digs.len() implies is_digit_char(#[trigger] digs[i]) by {
            if i < pad {
                assert(digs[i] == '0');
            } else {
                assert(digs[i] == dl[i - pad]);
            }
        }
    }
    lemma_digits_val_zero_prefix(pad, dl);
    lemma_digits_val_of_digits(n0);
    assert(digits_val(digs) == n0);
    lemma_pow10_le(1, MAX_DIGITS as nat);
    lemma_spec_digits_len(n0, MAX_DIGITS as nat);
    assert(digs.len() <= MAX_DIGITS);
    assert(digs.len() >= w);
    let body = if d.scale == 0 {
        digs
    } else {
        digs.take(digs.len() - d.scale) + seq!['.'] + digs.skip(digs.len() - d.scale)
    };
    let r = spec_render(d);
    assert(body.len() >= 1);
    assert(is_digit_char(body[0]) || body[0] == '.') by {
        if d.scale > 0 {
            if digs.len() - d.scale > 0 {
                assert(body[0] == digs.take(digs.len() - d.scale)[0]);
            }
        }
    }
    assert(body[0] != '-');
    let rneg = r.len() > 0 && r[0] == '-';
    let rbody = if rneg {
        r.skip(1)
    } else {
        r
    };
    assert(rneg == d.neg) by {
        if d.neg {
            assert(r[0] == (seq!['-'] + body)[0]);
        }
    }
    assert(rbody =~= body);
    if d.scale == 0 {
        lemma_find_dot_none(body);
        assert(spec_parse_amount(r) == Some(mk_decimal(d.neg, digits_val(body), 0)));
        assert(mk_decimal(d.neg, digits_val(body), 0) == d);
    } else {
        let kk = digs.len() - d.scale;
        assert(1 <= kk < digs.len());
        assert(body[kk] == '.') by {
            assert(body.len() == digs.len() + 1);
        }
        assert forall|j: int| 0 <= j < kk implies body[j] != '.' by {
            assert(body[j] == digs.take(kk)[j]);
            assert(is_digit_char(digs[j]));
        }
        lemma_find_dot_at(body, kk);
        assert(body.take(kk) =~= digs.take(kk));
        assert(body.skip(kk + 1) =~= digs.skip(kk));
        assert(all_digits(body.take(kk))) by {
            assert(forall|j: int| 0 <= j < kk ==> #[trigger] body.take(kk)[j] == digs[j]);
        }
        assert(all_digits(body.skip(kk + 1))) by {
            assert(forall|j: int|
                0 <= j < body.skip(kk + 1).len() ==> #[trigger] body.skip(kk + 1)[j] == digs[j
                    + kk]);
        }
        assert(body.take(kk) + body.skip(kk + 1) =~= digs);
        assert(body.len() - 1 == digs.len() <= MAX_DIGITS);
        assert(kk + 1 < body.len());
        assert(body.len() - kk - 1 == d.scale);
        assert(spec_parse_amount(r) == Some(
            mk_decimal(d.neg, digits_val(digs), d.scale as nat),
        ));
        assert(mk_decimal(d.neg, digits_val(digs), d.scale as nat) == d);
    }
}

} // verus!
