use vstd::prelude::*;

verus! {

/// The decimal digit character for `d < 10`.
pub open spec fn digit(d: nat) -> char {
    if d == 0 {
        '0'
    } else if d == 1 {
        '1'
    } else if d == 2 {
        '2'
    } else if d == 3 {
        '3'
    } else if d == 4 {
        '4'
    } else if d == 5 {
        '5'
    } else if d == 6 {
        '6'
    } else if d == 7 {
        '7'
    } else if d == 8 {
        '8'
    } else {
        '9'
    }
}

pub open spec fn is_digit(c: char) -> bool {
    '0' <= c && c <= '9'
}

pub open spec fn digit_value(c: char) -> nat {
    (c as int - '0' as int) as nat
}

/// `n` written in decimal, without leading zeros.
pub open spec fn dec(n: nat) -> Seq<char>
    decreases n,
{
    if n < 10 {
        seq![digit(n)]
    } else {
        dec(n / 10).push(digit(n % 10))
    }
}

/// The number that a string of decimal digits denotes.
pub open spec fn value_of(s: Seq<char>) -> nat
    decreases s.len(),
{
    if s.len() == 0 {
        0
    } else {
        value_of(s.drop_last()) * 10 + digit_value(s.last())
    }
}

/// A quantity in hundredths written with two decimals, as `{:.2}` writes it.
pub open spec fn fixed2(c: nat) -> Seq<char> {
    dec(c / 100) + seq!['.', digit((c / 10) % 10), digit(c % 10)]
}

pub proof fn lemma_digit(d: nat)
    requires
        d < 10,
    ensures
        is_digit(digit(d)),
        digit_value(digit(d)) == d,
{
}

/// Decimal text is made of digits only and reads back as the number.
pub proof fn lemma_dec(n: nat)
    ensures
        dec(n).len() >= 1,
        forall|i: int| 0 <= i < dec(n).len() ==> is_digit(#[trigger] dec(n)[i]),
        value_of(dec(n)) == n,
    decreases n,
{
    if n < 10 {
        lemma_digit(n);
        assert(dec(n).drop_last() =~= Seq::<char>::empty());
        assert(value_of(dec(n)) == value_of(Seq::<char>::empty()) * 10 + digit_value(digit(n)));
    } else {
        lemma_dec(n / 10);
        lemma_digit(n % 10);
        assert(dec(n).drop_last() =~= dec(n / 10));
        assert((n / 10) * 10 + n % 10 == n) by (nonlinear_arith);
        assert(dec(n).last() == digit(n % 10));
        assert(value_of(dec(n)) == value_of(dec(n / 10)) * 10 + digit_value(digit(n % 10)));
    }
}

/// Reading a prefix of a digit string never gives more than the whole.
pub proof fn lemma_value_prefix(s: Seq<char>, k: int)
    requires
        0 <= k <= s.len(),
        forall|i: int| 0 <= i < s.len() ==> is_digit(#[trigger] s[i]),
    ensures
        value_of(s.take(k)) <= value_of(s),
    decreases s.len(),
{
    if k < s.len() {
        let p = s.drop_last();
        assert(p.take(k) =~= s.take(k));
        lemma_value_prefix(p, k);
    } else {
        assert(s.take(k) =~= s);
    }
}

/// Decimal text has a leading zero only when it is the single digit zero.
pub proof fn lemma_dec_no_leading_zero(n: nat)
    ensures
        dec(n).len() > 1 ==> dec(n)[0] != '0',
        dec(n).len() > 1 ==> n >= 10,
    decreases n,
{
    if n >= 10 {
        lemma_dec_no_leading_zero(n / 10);
        lemma_dec(n / 10);
        if n / 10 < 10 {
            assert(dec(n / 10)[0] == digit(n / 10));
        } else {
            lemma_dec(n / 100);
            assert(dec(n / 10).len() > 1);
        }
        assert(dec(n)[0] == dec(n / 10)[0]);
    }
}

pub open spec fn all_digits(s: Seq<char>) -> bool {
    forall|i: int| 0 <= i < s.len() ==> is_digit(#[trigger] s[i])
}

/// A digit string without a superfluous leading zero is the decimal text of its value.
pub proof fn lemma_canonical_is_dec(s: Seq<char>)
    requires
        s.len() >= 1,
        all_digits(s),
        s.len() > 1 ==> s[0] != '0',
    ensures
        dec(value_of(s)) == s,
        s.len() > 1 ==> value_of(s) >= 10,
    decreases s.len(),
{
    let c = s.last();
    assert(is_digit(c));
    let d = digit_value(c);
    assert(digit(d) == c);
    if s.len() == 1 {
        assert(s.drop_last() =~= Seq::<char>::empty());
        assert(value_of(Seq::<char>::empty()) == 0);
        assert(value_of(s) == d);
        assert(dec(d) =~= s);
    } else {
        let p = s.drop_last();
        assert(p[0] == s[0]);
        lemma_canonical_is_dec(p);
        let vp = value_of(p);
        if p.len() == 1 {
            assert(p.drop_last() =~= Seq::<char>::empty());
            assert(value_of(Seq::<char>::empty()) == 0);
            assert(p.last() == p[0]);
            assert(vp == digit_value(p[0]));
            assert(vp >= 1);
        }
        assert(vp >= 1);
        let v = vp * 10 + d;
        assert(value_of(s) == v);
        assert(v / 10 == vp && v % 10 == d) by (nonlinear_arith)
            requires
                v == vp * 10 + d,
                d < 10,
        ;
        assert(dec(v) =~= p.push(c));
        assert(s =~= p.push(c));
    }
}

/// Largest whole part that a quantity in hundredths can have in a `u64`.
pub const MAX_WHOLE: u64 = 184467440737095516;

/// `fixed2(v)` stands in `s` at `start`.
pub open spec fn fixed2_at(s: Seq<char>, start: int, v: nat) -> bool {
    start + fixed2(v).len() <= s.len() && s.subrange(start, start + fixed2(v).len()) == fixed2(v)
}

proof fn lemma_fixed2_at(s: Seq<char>, start: int, v: u64)
    requires
        0 <= start,
        fixed2_at(s, start, v as nat),
    ensures
        ({
            let w = dec(v as nat / 100);
            &&& w.len() >= 1
            &&& all_digits(w)
            &&& value_of(w) == v / 100
            &&& w.len() > 1 ==> s[start] != '0'
            &&& s.subrange(start, start + w.len()) == w
            &&& s[start + w.len()] == '.'
            &&& s[start + w.len() + 1] == digit(((v / 10) % 10) as nat)
            &&& s[start + w.len() + 2] == digit((v % 10) as nat)
            &&& fixed2(v as nat).len() == w.len() + 3
        }),
        v == (v / 100) * 100 + ((v / 10) % 10) * 10 + v % 10,
        v / 100 <= MAX_WHOLE,
        v / 100 == MAX_WHOLE ==> ((v / 10) % 10) * 10 + v % 10 <= 15,
{
    let w = dec(v as nat / 100);
    let f = fixed2(v as nat);
    lemma_dec(v as nat / 100);
    lemma_dec_no_leading_zero(v as nat / 100);
    let sub = s.subrange(start, start + f.len());
    assert(sub[0] == s[start]);
    assert(sub.take(w.len() as int) =~= w);
    assert(s.subrange(start, start + w.len()) =~= sub.take(w.len() as int));
    assert(sub[w.len() as int] == s[start + w.len()]);
    assert(sub[w.len() as int + 1] == s[start + w.len() + 1]);
    assert(sub[w.len() as int + 2] == s[start + w.len() + 2]);
    assert(v == (v / 100) * 100 + ((v / 10) % 10) * 10 + v % 10) by (nonlinear_arith);
    assert(v / 100 <= MAX_WHOLE) by (nonlinear_arith)
        requires
            v <= u64::MAX,
    ;
    assert(v / 100 == MAX_WHOLE ==> ((v / 10) % 10) * 10 + v % 10 <= 15) by (nonlinear_arith)
        requires
            v <= u64::MAX,
            v == (v / 100) * 100 + ((v / 10) % 10) * 10 + v % 10,
    ;
}

/// Reads a quantity in hundredths written with two decimals at `start` of `s`.
/// It returns the value and the position after it exactly when the text there
/// begins with the two-decimal form of a `u64`.
pub fn parse_fixed2(s: &str, start: usize) -> (r: Option<(u64, usize)>)
    requires
        start <= s@.len(),
    ensures
        r matches Some((v, e)) ==> start < e <= s@.len() && e == start + fixed2(v as nat).len()
            && fixed2_at(s@, start as int, v as nat),
        forall|v: u64| #[trigger]
            fixed2_at(s@, start as int, v as nat) ==> r == Some(
                (v, (start + fixed2(v as nat).len()) as usize),
            ),
{
    let len = s.unicode_len();
    let mut i: usize = start;
    let mut acc: u64 = 0;
    let mut overflow = false;
    while i < len
        invariant_except_break
            !overflow,
        invariant
            len == s@.len(),
            start <= i <= len,
            all_digits(s@.subrange(start as int, i as int)),
            acc == value_of(s@.subrange(start as int, i as int)),
            acc <= MAX_WHOLE,
        ensures
            start <= i <= len,
            all_digits(s@.subrange(start as int, i as int)),
            acc == value_of(s@.subrange(start as int, i as int)),
            acc <= MAX_WHOLE,
            !overflow ==> i == len || !is_digit(s@[i as int]),
            overflow ==> i < len && is_digit(s@[i as int]) && value_of(
                s@.subrange(start as int, i + 1),
            ) > MAX_WHOLE,
        decreases len - i,
    {
        let c = s.get_char(i);
        if !('0' <= c && c <= '9') {
            break;
        }
        let d = (c as u32 - '0' as u32) as u64;
        assert(s@.subrange(start as int, i + 1).drop_last() =~= s@.subrange(start as int, i as int));
        if acc > (MAX_WHOLE - d) / 10 {
            assert(acc * 10 + d > MAX_WHOLE) by (nonlinear_arith)
                requires
                    acc > (MAX_WHOLE - d) / 10,
                    d < 10,
            ;
            overflow = true;
            break;
        } else {
            assert(acc * 10 + d <= MAX_WHOLE) by (nonlinear_arith)
                requires
                    acc <= (MAX_WHOLE - d) / 10,
                    d < 10,
            ;
            acc = acc * 10 + d;
            i = i + 1;
            assert(all_digits(s@.subrange(start as int, i as int)));
        }
    }
    let ghost whole = s@.subrange(start as int, i as int);
    proof {
        assert forall|v: u64| #[trigger]
            fixed2_at(s@, start as int, v as nat) implies !overflow && i == start + dec(
                v as nat / 100,
            ).len() && acc == v / 100 by {
            let w = dec(v as nat / 100);
            lemma_fixed2_at(s@, start as int, v);
            assert forall|k: int| 0 <= k < w.len() implies s@[start + k] == w[k] by {
                assert(s@.subrange(start as int, start + w.len())[k] == s@[start + k]);
            }
            if start + w.len() < i {
                assert(whole[w.len() as int] == s@[start + w.len()]);
            }
            if i < start + w.len() || overflow {
                assert(i < start + w.len());
                let t = s@.subrange(start as int, i + 1);
                assert(t =~= w.take(i + 1 - start));
                lemma_value_prefix(w, i + 1 - start);
            }
            assert(whole =~= w);
        }
    }
    if overflow || i == start || len - i < 3 {
        return None;
    }
    let lead = s.get_char(start);
    let dot = s.get_char(i);
    let c1 = s.get_char(i + 1);
    let c2 = s.get_char(i + 2);
    if (i > start + 1 && lead == '0') || dot != '.' || !('0' <= c1 && c1 <= '9') || !('0' <= c2
        && c2 <= '9') {
        proof {
            assert forall|v: u64| #[trigger] fixed2_at(s@, start as int, v as nat) implies false by {
                lemma_fixed2_at(s@, start as int, v);
                lemma_digit(((v / 10) % 10) as nat);
                lemma_digit((v % 10) as nat);
            }
        }
        return None;
    }
    let d1 = (c1 as u32 - '0' as u32) as u64;
    let d2 = (c2 as u32 - '0' as u32) as u64;
    if acc == MAX_WHOLE && d1 * 10 + d2 > 15 {
        proof {
            assert forall|v: u64| #[trigger] fixed2_at(s@, start as int, v as nat) implies false by {
                lemma_fixed2_at(s@, start as int, v);
                lemma_digit(((v / 10) % 10) as nat);
                lemma_digit((v % 10) as nat);
                assert(digit(digit_value(c1)) == c1);
                assert(digit(digit_value(c2)) == c2);
            }
        }
        return None;
    }
    assert(acc * 100 + d1 * 10 + d2 <= u64::MAX) by (nonlinear_arith)
        requires
            acc <= MAX_WHOLE,
            acc == MAX_WHOLE ==> d1 * 10 + d2 <= 15,
            d1 < 10,
            d2 < 10,
    ;
    let v = acc * 100 + d1 * 10 + d2;
    proof {
        lemma_canonical_is_dec(whole);
        assert(v / 100 == acc && (v / 10) % 10 == d1 && v % 10 == d2) by (nonlinear_arith)
            requires
                v == acc * 100 + d1 * 10 + d2,
                d1 < 10,
                d2 < 10,
        ;
        assert(digit(d1 as nat) == c1);
        assert(digit(d2 as nat) == c2);
        assert(s@.subrange(start as int, i + 3) =~= fixed2(v as nat));
        assert forall|u: u64| #[trigger] fixed2_at(s@, start as int, u as nat) implies u == v by {
            lemma_fixed2_at(s@, start as int, u);
            lemma_digit(((u / 10) % 10) as nat);
            lemma_digit((u % 10) as nat);
        }
    }
    Some((v, i + 3))
}

/// Relies on String::push: appends one character at the end.
#[verifier::external_body]
pub(crate) fn push_char(s: &mut String, c: char)
    ensures
        final(s)@ == old(s)@.push(c),
{
    s.push(c)
}

pub fn digit_char(d: u64) -> (c: char)
    requires
        d < 10,
    ensures
        c == digit(d as nat),
{
    if d == 0 {
        '0'
    } else if d == 1 {
        '1'
    } else if d == 2 {
        '2'
    } else if d == 3 {
        '3'
    } else if d == 4 {
        '4'
    } else if d == 5 {
        '5'
    } else if d == 6 {
        '6'
    } else if d == 7 {
        '7'
    } else if d == 8 {
        '8'
    } else {
        '9'
    }
}

/// Appends `n` in decimal.
pub fn push_dec(s: &mut String, n: u64)
    ensures
        final(s)@ == old(s)@ + dec(n as nat),
    decreases n,
{
    if n >= 10 {
        push_dec(s, n / 10);
    }
    push_char(s, digit_char(n % 10));
    assert(final(s)@ =~= old(s)@ + dec(n as nat));
}

/// Appends a quantity in hundredths with two decimals.
pub fn push_fixed2(s: &mut String, c: u64)
    ensures
        final(s)@ == old(s)@ + fixed2(c as nat),
{
    push_dec(s, c / 100);
    push_char(s, '.');
    push_char(s, digit_char((c / 10) % 10));
    push_char(s, digit_char(c % 10));
    assert(final(s)@ =~= old(s)@ + fixed2(c as nat));
}

/// A quantity in hundredths as text with two decimals.
pub fn fixed2_text(c: u64) -> (r: String)
    ensures
        r@ == fixed2(c as nat),
{
    let mut s = String::new();
    push_fixed2(&mut s, c);
    assert(s@ =~= fixed2(c as nat));
    s
}

} // verus!
