//! Exact base-ten digit-string arithmetic.
//!
//! A magnitude is carried as a vector of decimal digits, most significant
//! first.  The spec functions here give each digit string its integer
//! meaning, and the executable helpers (multiply by a small factor,
//! increment, divide by a small divisor, normalisation) are proved against
//! that meaning.

use vstd::prelude::*;

verus! {

/// Every element of the string is a decimal digit.
pub open spec fn digits_ok(s: Seq<u8>) -> bool {
    forall|i: int| 0 <= i < s.len() ==> s[i] < 10
}

/// Ten to the power `e`.
pub open spec fn pow10(e: nat) -> int
    decreases e,
{
    if e == 0 {
        1
    } else {
        10 * pow10((e - 1) as nat)
    }
}

/// Two to the power `e`.
pub open spec fn pow2(e: nat) -> int
    decreases e,
{
    if e == 0 {
        1
    } else {
        2 * pow2((e - 1) as nat)
    }
}

/// The integer denoted by a most-significant-first digit string.
pub open spec fn digits_int(s: Seq<u8>) -> int
    decreases s.len(),
{
    if s.len() == 0 {
        0
    } else {
        digits_int(s.drop_last()) * 10 + s.last()
    }
}

/// A digit string always denotes a number that is not negative.
pub proof fn lemma_digits_nonneg(s: Seq<u8>)
    ensures
        digits_int(s) >= 0,
    decreases s.len(),
{
    if s.len() > 0 {
        lemma_digits_nonneg(s.drop_last());
    }
}

/// The canonical digit string of `n`: no leading zeros, empty for zero.
pub open spec fn nat_digits(n: nat) -> Seq<u8>
    decreases n,
{
    if n == 0 {
        Seq::empty()
    } else {
        nat_digits(n / 10).push((n % 10) as u8)
    }
}

/// The number of digits in the canonical string of `n`.
pub open spec fn ndigits(n: nat) -> nat {
    nat_digits(n).len()
}

/// Drop trailing zero digits.
pub open spec fn strip0(s: Seq<u8>) -> Seq<u8>
    decreases s.len(),
{
    if s.len() > 0 && s.last() == 0 {
        strip0(s.drop_last())
    } else {
        s
    }
}

/// The number of leading zero digits.
pub open spec fn lead0(s: Seq<u8>) -> nat
    decreases s.len(),
{
    if s.len() > 0 && s[0] == 0 {
        1 + lead0(s.skip(1))
    } else {
        0
    }
}

/// The digit string after adding one at the last place.
pub open spec fn inc_digits_spec(s: Seq<u8>) -> Seq<u8>
    decreases s.len(),
{
    if s.len() == 0 {
        seq![1u8]
    } else if s.last() < 9 {
        s.update(s.len() - 1, (s.last() + 1) as u8)
    } else {
        inc_digits_spec(s.drop_last()).push(0)
    }
}

pub proof fn lemma_pow10_pos(e: nat)
    ensures
        pow10(e) >= 1,
    decreases e,
{
    if e > 0 {
        lemma_pow10_pos((e - 1) as nat);
    }
}

pub proof fn lemma_pow10_adds(a: nat, b: nat)
    ensures
        pow10(a + b) == pow10(a) * pow10(b),
    decreases a,
{
    if a == 0 {
    } else {
        lemma_pow10_adds((a - 1) as nat, b);
        assert(pow10(a + b) == 10 * pow10((a + b - 1) as nat));
        assert(10 * (pow10((a - 1) as nat) * pow10(b)) == (10 * pow10((a - 1) as nat)) * pow10(b))
            by (nonlinear_arith);
    }
}

pub proof fn lemma_pow10_mono(a: nat, b: nat)
    requires
        a <= b,
    ensures
        pow10(a) <= pow10(b),
    decreases b,
{
    if a < b {
        lemma_pow10_mono(a, (b - 1) as nat);
        lemma_pow10_pos((b - 1) as nat);
    }
}

/// The denoted integer is below ten to the length.
pub proof fn lemma_digits_bound(s: Seq<u8>)
    requires
        digits_ok(s),
    ensures
        digits_int(s) < pow10(s.len()),
    decreases s.len(),
{
    if s.len() > 0 {
        lemma_digits_bound(s.drop_last());
    }
}

/// With a nonzero leading digit the denoted integer reaches ten to the
/// length less one.
pub proof fn lemma_digits_first(s: Seq<u8>)
    requires
        digits_ok(s),
        s.len() > 0,
        s[0] != 0,
    ensures
        digits_int(s) >= pow10((s.len() - 1) as nat),
    decreases s.len(),
{
    if s.len() == 1 {
        assert(s.drop_last() =~= Seq::<u8>::empty());
        assert(digits_int(Seq::<u8>::empty()) == 0);
        assert(s.last() == s[0]);
    } else {
        let t = s.drop_last();
        lemma_digits_first(t);
        lemma_digits_nonneg(t);
        let p = pow10((s.len() - 2) as nat);
        assert(digits_int(t) * 10 >= p * 10) by (nonlinear_arith)
            requires
                digits_int(t) >= p,
        ;
        assert(pow10((s.len() - 1) as nat) == 10 * p);
    }
}

/// The value of a one-digit string.
pub proof fn lemma_digits_single(d: u8)
    ensures
        digits_int(seq![d]) == d,
{
    assert(seq![d].drop_last() =~= Seq::<u8>::empty());
    assert(digits_int(seq![d]) == digits_int(seq![d].drop_last()) * 10 + d);
}

pub proof fn lemma_digits_push(s: Seq<u8>, d: u8)
    ensures
        digits_int(s.push(d)) == digits_int(s) * 10 + d,
{
    assert(s.push(d).drop_last() =~= s);
}

/// Splitting a digit string splits its integer meaning.
pub proof fn lemma_digits_split(s: Seq<u8>, k: int)
    requires
        0 <= k <= s.len(),
    ensures
        digits_int(s) == digits_int(s.take(k)) * pow10((s.len() - k) as nat) + digits_int(
            s.skip(k),
        ),
    decreases s.len() - k,
{
    if k == s.len() {
        assert(s.take(k) =~= s);
        assert(s.skip(k) =~= Seq::<u8>::empty());
    } else {
        let n = s.len() as int;
        let t = s.drop_last();
        lemma_digits_split(t, k);
        let tv = digits_int(s.take(k));
        let av = digits_int(t.skip(k));
        let p = pow10((n - 1 - k) as nat);
        assert(t.take(k) =~= s.take(k));
        assert(digits_int(t) == tv * p + av);
        assert(digits_int(s) == digits_int(t) * 10 + s.last());
        assert(s.skip(k).drop_last() =~= t.skip(k));
        assert(s.skip(k).len() > 0);
        assert(s.skip(k).last() == s.last());
        assert(digits_int(s.skip(k)) == av * 10 + s.last());
        assert(pow10((n - k) as nat) == 10 * p);
        assert((tv * p + av) * 10 + s.last() == tv * (10 * p) + (av * 10 + s.last()))
            by (nonlinear_arith);
        assert(digits_int(s) == tv * (10 * p) + digits_int(s.skip(k)));
    }
}

/// A digit string of zeros denotes zero.
pub proof fn lemma_digits_zeros(s: Seq<u8>)
    requires
        forall|i: int| 0 <= i < s.len() ==> s[i] == 0,
    ensures
        digits_int(s) == 0,
    decreases s.len(),
{
    if s.len() > 0 {
        lemma_digits_zeros(s.drop_last());
    }
}

/// The canonical digit string of `n` denotes `n`, has digits only, and has
/// no leading zero.
pub proof fn lemma_nat_digits(n: nat)
    ensures
        digits_ok(nat_digits(n)),
        digits_int(nat_digits(n)) == n,
        n > 0 ==> nat_digits(n).len() > 0 && nat_digits(n)[0] != 0,
        n == 0 ==> nat_digits(n).len() == 0,
    decreases n,
{
    if n > 0 {
        lemma_nat_digits(n / 10);
        let s = nat_digits(n / 10);
        lemma_digits_push(s, (n % 10) as u8);
        if n / 10 == 0 {
            assert(nat_digits(n) =~= seq![(n % 10) as u8]);
            assert(n % 10 != 0);
        }
    }
}

/// A digit string without a leading zero is the canonical string of its
/// integer meaning.
pub proof fn lemma_digits_unique(s: Seq<u8>)
    requires
        digits_ok(s),
        s.len() > 0 ==> s[0] != 0,
    ensures
        nat_digits(digits_int(s) as nat) == s,
    decreases s.len(),
{
    lemma_digits_nonneg(s);
    if s.len() == 0 {
    } else if s.len() == 1 {
        let d = s[0];
        assert(s.drop_last() =~= Seq::<u8>::empty());
        assert(digits_int(Seq::<u8>::empty()) == 0);
        assert(digits_int(s) == d);
        assert((d as nat) / 10 == 0 && (d as nat) % 10 == d);
        assert(nat_digits(0nat) == Seq::<u8>::empty());
        assert(nat_digits(d as nat) =~= Seq::<u8>::empty().push(d));
        assert(s =~= Seq::<u8>::empty().push(d));
    } else {
        let t = s.drop_last();
        let n = digits_int(s) as nat;
        lemma_digits_first(t);
        lemma_digits_nonneg(t);
        lemma_pow10_pos((t.len() - 1) as nat);
        assert(n == digits_int(t) * 10 + s.last());
        assert(digits_int(t) >= 1);
        assert(n / 10 == digits_int(t) && n % 10 == s.last()) by (nonlinear_arith)
            requires
                n == digits_int(t) * 10 + s.last(),
                0 <= s.last() < 10,
                digits_int(t) >= 0,
        ;
        lemma_digits_unique(t);
        assert(nat_digits(n) == nat_digits(n / 10).push((n % 10) as u8));
        assert(nat_digits(n) == t.push(s.last()));
        assert(t.push(s.last()) =~= s);
    }
}

/// Stripping trailing zeros divides the integer meaning by a power of ten.
pub proof fn lemma_strip0(s: Seq<u8>)
    ensures
        strip0(s).len() <= s.len(),
        digits_int(s) == digits_int(strip0(s)) * pow10((s.len() - strip0(s).len()) as nat),
        strip0(s).len() > 0 ==> strip0(s).last() != 0,
        digits_ok(s) ==> digits_ok(strip0(s)),
        s.len() > 0 && s[0] != 0 ==> (strip0(s).len() > 0 && strip0(s)[0] != 0),
        strip0(s) == s.take(strip0(s).len() as int),
    decreases s.len(),
{
    assert(s.take(s.len() as int) =~= s);
    if s.len() > 0 && s.last() == 0 {
        let t = s.drop_last();
        lemma_strip0(t);
        let z = (t.len() - strip0(t).len()) as nat;
        assert(digits_int(s) == digits_int(t) * 10);
        assert((digits_int(strip0(t)) * pow10(z)) * 10 == digits_int(strip0(t)) * (pow10(z) * 10))
            by (nonlinear_arith);
        assert(pow10(z + 1) == pow10(z) * 10) by {
            lemma_pow10_adds(z, 1);
        }
        assert(t.take(strip0(t).len() as int) =~= s.take(strip0(s).len() as int));
    }
}

/// Adding one at the last place adds one to the integer meaning.
pub proof fn lemma_inc_digits(s: Seq<u8>)
    requires
        digits_ok(s),
    ensures
        digits_ok(inc_digits_spec(s)),
        digits_int(inc_digits_spec(s)) == digits_int(s) + 1,
        s.len() <= inc_digits_spec(s).len() <= s.len() + 1,
        inc_digits_spec(s).len() == s.len() + 1 ==> inc_digits_spec(s)[0] == 1,
        s.len() > 0 && inc_digits_spec(s).len() == s.len() + 1 ==> inc_digits_spec(s).last() == 0,
        s.len() > 0 && s[0] != 0 ==> inc_digits_spec(s)[0] != 0,
    decreases s.len(),
{
    if s.len() == 0 {
        assert(digits_int(seq![1u8]) == digits_int(seq![1u8].drop_last()) * 10 + 1);
        assert(seq![1u8].drop_last() =~= Seq::<u8>::empty());
    } else if s.last() < 9 {
        let r = s.update(s.len() - 1, (s.last() + 1) as u8);
        assert(r.drop_last() =~= s.drop_last());
        assert(r.last() == s.last() + 1);
    } else {
        lemma_inc_digits(s.drop_last());
        let t = inc_digits_spec(s.drop_last());
        lemma_digits_push(t, 0);
        if s.len() > 0 && s[0] != 0 {
            if t.len() == s.drop_last().len() + 1 {
            } else {
                if s.len() == 1 {
                    assert(s.drop_last().len() == 0);
                    assert(t.len() == 1);
                } else {
                    assert(s.drop_last()[0] == s[0]);
                }
            }
        }
    }
}

/// The digits of a machine integer, most significant first.
pub fn u64_digits(m: u64) -> (v: Vec<u8>)
    ensures
        v@ == nat_digits(m as nat),
{
    let mut out: Vec<u8> = Vec::new();
    let mut x: u64 = m;
    proof {
        assert(nat_digits(m as nat) =~= nat_digits(x as nat) + out@);
    }
    while x > 0
        invariant
            digits_ok(out@),
            nat_digits(m as nat) =~= nat_digits(x as nat) + out@,
        decreases x,
    {
        let d: u8 = (x % 10) as u8;
        proof {
            assert(nat_digits(x as nat) == nat_digits((x as nat) / 10).push(d));
            assert(nat_digits((x as nat) / 10) + out@.insert(0, d) =~= nat_digits(x as nat)
                + out@);
            assert((x as nat) / 10 == (x / 10) as nat);
        }
        out.insert(0, d);
        x = x / 10;
    }
    proof {
        assert(nat_digits(0nat) =~= Seq::<u8>::empty());
        assert(Seq::<u8>::empty() + out@ =~= out@);
        assert(nat_digits(m as nat) =~= out@);
    }
    out
}

/// Multiply a digit string by a small factor.
pub fn mul_small(v: &Vec<u8>, f: u8) -> (r: Vec<u8>)
    requires
        digits_ok(v@),
        2 <= f <= 5,
    ensures
        digits_ok(r@),
        digits_int(r@) == f * digits_int(v@),
        v@.len() <= r@.len() <= v@.len() + 1,
        r@.len() == v@.len() + 1 ==> r@[0] != 0,
{
    let n = v.len();
    let mut out: Vec<u8> = Vec::new();
    let mut carry: u8 = 0;
    let mut k: usize = 0;
    proof {
        assert(v@.skip(n as int) =~= Seq::<u8>::empty());
        assert(digits_int(Seq::<u8>::empty()) == 0);
        assert(pow10(0) == 1);
        assert(f * 0 == 0);
    }
    while k < n
        invariant
            k <= n,
            n == v@.len(),
            digits_ok(v@),
            2 <= f <= 5,
            digits_ok(out@),
            out@.len() == k,
            carry <= 4,
            f * digits_int(v@.skip(n - k)) == carry * pow10(k as nat) + digits_int(out@),
        decreases n - k,
    {
        let idx = n - k - 1;
        let d: u8 = v[idx];
        proof {
            assert(v@[idx as int] < 10);
            assert(f * d <= 45) by (nonlinear_arith)
                requires
                    f <= 5,
                    d < 10,
            ;
        }
        let t: u8 = f * d + carry;
        let nd: u8 = t % 10;
        let nc: u8 = t / 10;
        proof {
            let tail = v@.skip(n - k);
            let tail2 = v@.skip(n - k - 1);
            assert(tail2 =~= seq![d] + tail);
            lemma_digits_split(tail2, 1);
            assert(tail2.take(1) =~= seq![d]);
            assert(tail2.skip(1) =~= tail);
            lemma_digits_single(d);
            assert(digits_int(tail2) == d * pow10(k as nat) + digits_int(tail));
            assert(f * digits_int(tail2) == (f * d) * pow10(k as nat) + f * digits_int(tail))
                by (nonlinear_arith)
                requires
                    digits_int(tail2) == d * pow10(k as nat) + digits_int(tail),
            ;
            assert(f * d == t - carry);
            assert(t == nc * 10 + nd);
            assert((t - carry) * pow10(k as nat) + carry * pow10(k as nat) == t * pow10(k as nat))
                by (nonlinear_arith);
            assert(t * pow10(k as nat) == nc * (10 * pow10(k as nat)) + nd * pow10(k as nat))
                by (nonlinear_arith)
                requires
                    t == nc * 10 + nd,
            ;
            assert(pow10((k + 1) as nat) == 10 * pow10(k as nat));
            let out2 = out@.insert(0, nd);
            assert(out2 =~= seq![nd] + out@);
            lemma_digits_split(out2, 1);
            assert(out2.take(1) =~= seq![nd]);
            assert(out2.skip(1) =~= out@);
            lemma_digits_single(nd);
            assert(digits_int(out2) == nd * pow10(k as nat) + digits_int(out@));
        }
        out.insert(0, nd);
        carry = nc;
        k = k + 1;
    }
    proof {
        assert(v@.skip(0) =~= v@);
    }
    if carry > 0 {
        proof {
            let out2 = out@.insert(0, carry);
            assert(out2 =~= seq![carry] + out@);
            lemma_digits_split(out2, 1);
            assert(out2.take(1) =~= seq![carry]);
            assert(out2.skip(1) =~= out@);
            lemma_digits_single(carry);
        }
        out.insert(0, carry);
    }
    out
}

/// Add one at the last place of a digit string.
pub fn inc_digits(v: Vec<u8>) -> (r: Vec<u8>)
    requires
        digits_ok(v@),
    ensures
        r@ == inc_digits_spec(v@),
{
    let mut out = v;
    let ghost orig = out@;
    let mut i: usize = out.len();
    proof {
        assert(out@.take(i as int) =~= orig);
        assert(out@.skip(i as int) =~= Seq::<u8>::empty());
        assert(inc_digits_spec(orig) =~= inc_digits_spec(out@.take(i as int)) + out@.skip(
            i as int,
        ));
    }
    while i > 0
        invariant
            orig == v@,
            i <= out@.len(),
            out@.len() == orig.len(),
            digits_ok(orig),
            out@.take(i as int) == orig.take(i as int),
            inc_digits_spec(orig) == inc_digits_spec(out@.take(i as int)) + out@.skip(i as int),
            forall|j: int| i <= j < out@.len() ==> out@[j] == 0,
        decreases i,
    {
        let d: u8 = out[i - 1];
        proof {
            assert(out@.take(i as int)[i - 1] == out@[i - 1]);
            assert(orig.take(i as int)[i - 1] == orig[i - 1]);
            assert(d == orig[i - 1]);
            assert(orig[i - 1] < 10);
        }
        let ghost prev = out@;
        if d < 9 {
            out.set(i - 1, d + 1);
            proof {
                let pre = orig.take(i as int);
                assert(pre.last() == d);
                assert(inc_digits_spec(pre) == pre.update(i - 1, (d + 1) as u8));
                assert(out@.skip(i as int) =~= prev.skip(i as int));
                assert(inc_digits_spec(pre) + prev.skip(i as int) =~= out@);
            }
            return out;
        }
        out.set(i - 1, 0);
        proof {
            let pre = orig.take(i as int);
            assert(pre.last() == 9);
            assert(inc_digits_spec(pre) == inc_digits_spec(pre.drop_last()).push(0));
            assert(pre.drop_last() =~= orig.take(i - 1));
            assert(out@.take(i - 1) =~= orig.take(i - 1));
            assert(out@.skip(i as int) =~= prev.skip(i as int));
            assert(inc_digits_spec(orig.take(i - 1)).push(0) + prev.skip(i as int)
                =~= inc_digits_spec(orig.take(i - 1)) + out@.skip(i - 1));
        }
        i = i - 1;
    }
    let ghost prev = out@;
    proof {
        assert(out@.take(0) =~= Seq::<u8>::empty());
        assert(out@.skip(0) =~= out@);
        assert(inc_digits_spec(Seq::<u8>::empty()) =~= seq![1u8]);
        assert(inc_digits_spec(orig) =~= seq![1u8] + prev);
    }
    out.insert(0, 1);
    proof {
        assert(out@ =~= seq![1u8] + prev);
    }
    out
}

/// Divide a digit string by a small divisor; quotient digits and remainder.
pub fn div_digits(v: &Vec<u8>, d: u64) -> (r: (Vec<u8>, u64))
    requires
        digits_ok(v@),
        1 <= d <= 1000000,
    ensures
        digits_ok(r.0@),
        r.0@.len() == v@.len(),
        r.1 < d,
        digits_int(r.0@) * d + r.1 == digits_int(v@),
{
    let n = v.len();
    let mut q: Vec<u8> = Vec::new();
    let mut rem: u64 = 0;
    let mut i: usize = 0;
    proof {
        assert(v@.take(0) =~= Seq::<u8>::empty());
        assert(digits_int(Seq::<u8>::empty()) == 0);
        assert(0 * (d as int) == 0);
    }
    while i < n
        invariant
            i <= n,
            n == v@.len(),
            digits_ok(v@),
            1 <= d <= 1000000,
            digits_ok(q@),
            q@.len() == i,
            rem < d,
            digits_int(q@) * d + rem == digits_int(v@.take(i as int)),
        decreases n - i,
    {
        let dig: u8 = v[i];
        let t: u64 = rem * 10 + dig as u64;
        let qd: u64 = t / d;
        let nr: u64 = t % d;
        proof {
            assert(v@.take(i + 1).drop_last() =~= v@.take(i as int));
            assert(v@.take(i + 1).last() == dig);
            assert(digits_int(v@.take(i + 1)) == digits_int(v@.take(i as int)) * 10 + dig);
            assert(t == qd * d + nr && nr < d) by (nonlinear_arith)
                requires
                    d >= 1,
                    t == rem * 10 + dig,
                    qd == t / d,
                    nr == t % d,
            ;
            assert(qd < 10) by (nonlinear_arith)
                requires
                    d >= 1,
                    rem < d,
                    dig < 10,
                    t == rem * 10 + dig,
                    qd == t / d,
            ;
            lemma_digits_push(q@, qd as u8);
            assert((digits_int(q@) * 10 + qd) * d == (digits_int(q@) * d) * 10 + qd * d)
                by (nonlinear_arith);
        }
        q.push(qd as u8);
        rem = nr;
        i = i + 1;
    }
    proof {
        assert(v@.take(n as int) =~= v@);
    }
    (q, rem)
}

/// The character for one decimal digit.
pub open spec fn digit_char(d: u8) -> char {
    if d == 0 {
        '0'
    } else if d == 1 {
        '1'
    } else if d == 2 {
        '2'
    } else if d == 3 {
        '3'
    } else if d == 4 {
        '4'
    } else if d == 5 {
        '5'
    } else if d == 6 {
        '6'
    } else if d == 7 {
        '7'
    } else if d == 8 {
        '8'
    } else {
        '9'
    }
}

/// The one-character string for one decimal digit.
pub fn digit_str(d: u8) -> (s: &'static str)
    requires
        d < 10,
    ensures
        s@ =~= seq![digit_char(d)],
{
    proof {
        reveal_strlit("0");
        reveal_strlit("1");
        reveal_strlit("2");
        reveal_strlit("3");
        reveal_strlit("4");
        reveal_strlit("5");
        reveal_strlit("6");
        reveal_strlit("7");
        reveal_strlit("8");
        reveal_strlit("9");
    }
    if d == 0 {
        "0"
    } else if d == 1 {
        "1"
    } else if d == 2 {
        "2"
    } else if d == 3 {
        "3"
    } else if d == 4 {
        "4"
    } else if d == 5 {
        "5"
    } else if d == 6 {
        "6"
    } else if d == 7 {
        "7"
    } else if d == 8 {
        "8"
    } else {
        "9"
    }
}

} // verus!
