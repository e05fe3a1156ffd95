//! Human-readable time features.
//!
//! A duration is a signed count of seconds.  Short durations (under a
//! minute) are displayed as an auto-scaled decimal quantity with the `s`
//! suffix; longer ones are decomposed into weeks, days, hours, minutes and
//! seconds, of which at most a configured number of leading parts are
//! shown.

use vstd::prelude::*;
use vstd::arithmetic::div_mod::lemma_fundamental_div_mod_converse;
use vstd::string::StringExecFns;

use crate::digits::digit_char;
use crate::digits::digit_str;
use crate::digits::digits_int;
use crate::digits::digits_ok;
use crate::digits::div_digits;
use crate::digits::lemma_digits_first;
use crate::digits::lemma_digits_nonneg;
use crate::digits::lemma_digits_split;
use crate::digits::lemma_digits_unique;
use crate::digits::lemma_digits_zeros;
use crate::digits::lemma_nat_digits;
use crate::digits::lemma_pow10_mono;
use crate::digits::nat_digits;
use crate::digits::ndigits;
use crate::digits::pow10;
use crate::digits::u64_digits;
use crate::num::dig_at;
use crate::num::mant;
use crate::num::norm_v;
use crate::num::normalize;
use crate::num::render_fixed_spec;
use crate::num::wf;
use crate::num::Num;
use crate::num::NumClass;
use crate::num::NumV;
use crate::quantity::auto_text;
use crate::quantity::Quantity;
use crate::scale::Decimal;

verus! {

/// A duration value every operation here can work on.
pub open spec fn dur_wf(v: NumV) -> bool {
    &&& wf(v)
    &&& -0x40_0000_0000 <= v.exp <= 0x100_0000
    &&& v.digits.len() <= 0x100_0000
}

/// Whether a finite value is below one minute in magnitude.
pub open spec fn lt60(v: NumV) -> bool {
    v.digits.len() == 0 || v.exp <= 1 || (v.exp == 2 && v.digits[0] < 6)
}

/// The whole-second part of the magnitude.
pub open spec fn dur_int(v: NumV) -> int {
    if v.exp <= 0 {
        0
    } else if v.exp >= v.digits.len() {
        mant(v) * pow10((v.exp - v.digits.len()) as nat)
    } else {
        digits_int(v.digits.take(v.exp))
    }
}

/// The number of digits below one second.
pub open spec fn frac_len(v: NumV) -> nat {
    if v.digits.len() - v.exp >= 0 {
        (v.digits.len() - v.exp) as nat
    } else {
        0
    }
}

/// The sub-second digits of the magnitude.
pub open spec fn frac_seq(v: NumV) -> Seq<u8> {
    Seq::new(frac_len(v), |j: int| dig_at(v.digits, v.exp + j))
}

/// Whether the signed value exceeds the positive threshold `c`.
pub open spec fn gt_c(v: NumV, c: int) -> bool {
    !v.neg && (dur_int(v) > c || (dur_int(v) == c && v.digits.len() > v.exp))
}

/// The seconds slot of the decomposition: the whole seconds left after
/// weeks, days, hours and minutes are taken out.
pub open spec fn secs_rem(v: NumV) -> int {
    ((((dur_int(v) % 604800) % 86400) % 3600) % 60)
}

/// The seconds part as an exact number: the leftover whole seconds with
/// every sub-second digit behind them, under the sign of the duration.
pub open spec fn secs_num(v: NumV) -> NumV {
    norm_v(
        v.neg,
        nat_digits(secs_rem(v) as nat) + frac_seq(v),
        ndigits(secs_rem(v) as nat) as int,
    )
}

/// Whether another part may still be written.
pub open spec fn keep_going_spec(parts: int, written: int) -> bool {
    parts <= 0 || written < parts
}

/// The separator before a part: a space, between parts, in full wording.
pub open spec fn part_sep(written: int, compact: bool) -> Seq<char> {
    if written > 0 && !compact {
        " "@
    } else {
        Seq::empty()
    }
}

/// The unit marker after a part's number.
pub open spec fn part_unit(compact: bool, short: Seq<char>, long: Seq<char>) -> Seq<char> {
    if compact {
        short
    } else {
        " "@ + long
    }
}

/// One written part.
pub open spec fn part_text(
    txt: Seq<char>,
    short: Seq<char>,
    long: Seq<char>,
    compact: bool,
    written: int,
) -> Seq<char> {
    part_sep(written, compact) + txt + part_unit(compact, short, long)
}

/// One stage of the decomposition: append the part when it is due and the
/// part budget allows, else pass the text through.
pub open spec fn stage(
    acc: (Seq<char>, int),
    cond: bool,
    txt: Seq<char>,
    short: Seq<char>,
    long: Seq<char>,
    compact: bool,
    parts: int,
) -> (Seq<char>, int) {
    if keep_going_spec(parts, acc.1) && cond {
        (acc.0 + part_text(txt, short, long, compact, acc.1), acc.1 + 1)
    } else {
        acc
    }
}

/// The characters of a digit string.
pub open spec fn chars_of(s: Seq<u8>) -> Seq<char> {
    Seq::new(s.len(), |i: int| digit_char(s[i]))
}

/// The plain decimal text of a whole number.
pub open spec fn uint_chars(x: int) -> Seq<char> {
    if x <= 0 {
        "0"@
    } else {
        chars_of(nat_digits(x as nat))
    }
}

/// The full text of a duration.
///
/// A value under a minute (or one that is not finite) is displayed as an
/// auto-scaled decimal quantity with the `s` suffix, glued to its unit in
/// compact mode.  Anything else is decomposed into weeks, days, hours,
/// minutes and seconds; each of the larger parts appears only when the
/// whole duration exceeds one of its units, whole-numbered, and the
/// seconds part carries two fraction digits; at most `parts` parts are
/// written when `parts` is positive.
pub open spec fn duration_text(v: NumV, compact: bool, parts: int) -> Seq<char> {
    if !(v.class is Finite) || lt60(v) {
        auto_text::<Decimal>(v, 4, "s"@, !compact, false)
    } else {
        let i0 = dur_int(v);
        let r1 = i0 % 604800;
        let r2 = r1 % 86400;
        let r3 = r2 % 3600;
        let a1 = stage(
            (Seq::empty(), 0),
            gt_c(v, 604800),
            uint_chars(i0 / 604800),
            "w"@,
            "weeks"@,
            compact,
            parts,
        );
        let a2 = stage(a1, gt_c(v, 86400), uint_chars(r1 / 86400), "d"@, "days"@, compact, parts);
        let a3 = stage(a2, gt_c(v, 3600), uint_chars(r2 / 3600), "h"@, "hours"@, compact, parts);
        let a4 = stage(a3, gt_c(v, 60), uint_chars(r3 / 60), "m"@, "minutes"@, compact, parts);
        let a5 = stage(
            a4,
            true,
            render_fixed_spec(secs_num(v), 2),
            "s"@,
            "seconds"@,
            compact,
            parts,
        );
        a5.0
    }
}

/// Human-displayable durations.
///
/// There are two settings to tweak on a displayable duration: whether it
/// is full ("3 hours 2 minutes 3.42 seconds") or compact ("3h2m3.42s"),
/// and how many parts are displayed (with 2 parts, "5h32m10.50s" becomes
/// "5h32m").  The default is compact display with 3 parts.
#[derive(Debug)]
pub struct HumanDuration {
    pub seconds: Num,
    pub compact: bool,
    pub parts: i32,
}

impl HumanDuration {
    /// Create a new readable duration from a count of seconds.
    pub fn new_from_secs(seconds: Num) -> (r: HumanDuration)
        ensures
            r.seconds@ == seconds@,
            r.compact == true,
            r.parts == 3,
    {
        HumanDuration { seconds, compact: true, parts: 3 }
    }

    /// Set whether display is compact.
    pub fn compact(self, compact: bool) -> (r: HumanDuration)
        ensures
            r.seconds@ == self.seconds@,
            r.compact == compact,
            r.parts == self.parts,
    {
        HumanDuration { compact, ..self }
    }

    /// Set the number of parts to display (0 for all).
    pub fn parts(self, parts: i32) -> (r: HumanDuration)
        ensures
            r.seconds@ == self.seconds@,
            r.compact == self.compact,
            r.parts == parts,
    {
        HumanDuration { parts, ..self }
    }

    /// Render this duration to text.
    pub fn render(&self) -> (s: String)
        requires
            dur_wf(self.seconds@),
        ensures
            s@ == duration_text(self.seconds@, self.compact, self.parts as int),
    {
        let fin: bool = match self.seconds.class {
            NumClass::Finite => true,
            _ => false,
        };
        let small: bool = fin && (self.seconds.digits.len() == 0 || self.seconds.exp <= 1 || (
        self.seconds.exp == 2 && self.seconds.digits[0] < 6));
        if !fin || small {
            let q = Quantity::<Decimal>::new(self.seconds.duplicate()).suffix("s").space(
                !self.compact,
            );
            let out = q.render();
            proof {
                assert(out@ == auto_text::<Decimal>(
                    self.seconds@,
                    4,
                    "s"@,
                    !self.compact,
                    false,
                ));
            }
            return out;
        }
        let iv = int_digits(&self.seconds);
        let ghost v = self.seconds@;
        let ghost i0 = dur_int(v);
        let (wq, r1) = div_digits(&iv, 604800);
        proof {
            lemma_digits_nonneg(wq@);
            lemma_fundamental_div_mod_converse(i0, 604800, digits_int(wq@), r1 as int);
        }
        let r2: u64 = r1 % 86400;
        let r3: u64 = r2 % 3600;
        let mi: u64 = r3 / 60;
        let si: u64 = r3 % 60;
        let mut pw = PartWriter::new(self.parts, self.compact);
        let ghost a0 = (Seq::<char>::empty(), 0int);
        if pw.keep_going() && gt_int(&self.seconds, &iv, 604800) {
            let ws = uint_string(&wq);
            pw.put_part(ws.as_str(), "w", "weeks");
        }
        let ghost a1 = stage(
            a0,
            gt_c(v, 604800),
            uint_chars(i0 / 604800),
            "w"@,
            "weeks"@,
            self.compact,
            self.parts as int,
        );
        proof {
            assert((pw.out@, pw.written as int) == a1);
        }
        if pw.keep_going() && gt_int(&self.seconds, &iv, 86400) {
            let ds = u64_string(r1 / 86400);
            pw.put_part(ds.as_str(), "d", "days");
        }
        let ghost a2 = stage(
            a1,
            gt_c(v, 86400),
            uint_chars((i0 % 604800) / 86400),
            "d"@,
            "days"@,
            self.compact,
            self.parts as int,
        );
        proof {
            assert((pw.out@, pw.written as int) == a2);
        }
        if pw.keep_going() && gt_int(&self.seconds, &iv, 3600) {
            let hs = u64_string(r2 / 3600);
            pw.put_part(hs.as_str(), "h", "hours");
        }
        let ghost a3 = stage(
            a2,
            gt_c(v, 3600),
            uint_chars(((i0 % 604800) % 86400) / 3600),
            "h"@,
            "hours"@,
            self.compact,
            self.parts as int,
        );
        proof {
            assert((pw.out@, pw.written as int) == a3);
        }
        if pw.keep_going() && gt_int(&self.seconds, &iv, 60) {
            let ms = u64_string(mi);
            pw.put_part(ms.as_str(), "m", "minutes");
        }
        let ghost a4 = stage(
            a3,
            gt_c(v, 60),
            uint_chars((((i0 % 604800) % 86400) % 3600) / 60),
            "m"@,
            "minutes"@,
            self.compact,
            self.parts as int,
        );
        proof {
            assert((pw.out@, pw.written as int) == a4);
        }
        if pw.keep_going() {
            let sn = self.make_secs(si);
            let st = sn.render_fixed(2);
            pw.put_part(st.as_str(), "s", "seconds");
        }
        proof {
            let a5 = stage(
                a4,
                true,
                render_fixed_spec(secs_num(v), 2),
                "s"@,
                "seconds"@,
                self.compact,
                self.parts as int,
            );
            assert((pw.out@, pw.written as int) == a5);
        }
        pw.out
    }

    /// The seconds part of this duration as an exact number.
    fn make_secs(&self, si: u64) -> (r: Num)
        requires
            dur_wf(self.seconds@),
            self.seconds@.class is Finite,
            !lt60(self.seconds@),
            si < 60,
            si as int == secs_rem(self.seconds@),
        ensures
            wf(r@),
            r@ == secs_num(self.seconds@),
            -0x2_0000_0000 <= r@.exp <= 0x2_0000_0000,
            r@.digits.len() <= 0x2_0000_0000,
    {
        let ghost v = self.seconds@;
        let mut raw = u64_digits(si);
        let ilen: usize = raw.len();
        proof {
            lemma_nat_digits(si as nat);
            crate::num::lemma_ndigits_u64(si);
            assert(raw@ + Seq::new(0nat, |j: int| dig_at(v.digits, v.exp + j)) =~= raw@);
        }
        let dlen: usize = self.seconds.digits.len();
        let ex: usize = self.seconds.exp as usize;
        let fl: usize = if dlen > ex {
            dlen - ex
        } else {
            0
        };
        let mut j: usize = 0;
        while j < fl
            invariant
                j <= fl,
                v == self.seconds@,
                dur_wf(v),
                v.class is Finite,
                2 <= v.exp <= 0x100_0000,
                ex == v.exp,
                dlen == v.digits.len(),
                fl == frac_len(v),
                ilen == nat_digits(si as nat).len(),
                digits_ok(raw@),
                raw@ == nat_digits(si as nat) + Seq::new(
                    j as nat,
                    |x: int| dig_at(v.digits, v.exp + x),
                ),
        decreases fl - j,
        {
            let pos: usize = ex + j;
            let d: u8 = if pos < dlen {
                self.seconds.digits[pos]
            } else {
                0
            };
            proof {
                assert(d == dig_at(v.digits, v.exp + j));
                assert(d < 10) by {
                    if pos < dlen {
                        assert(v.digits[pos as int] < 10);
                    }
                }
                assert(nat_digits(si as nat) + Seq::new(
                    (j + 1) as nat,
                    |x: int| dig_at(v.digits, v.exp + x),
                ) =~= (nat_digits(si as nat) + Seq::new(
                    j as nat,
                    |x: int| dig_at(v.digits, v.exp + x),
                )).push(d));
            }
            raw.push(d);
            j = j + 1;
        }
        proof {
            assert(raw@ =~= nat_digits(si as nat) + frac_seq(v));
        }
        let r = normalize(self.seconds.neg, raw, ilen as i64);
        r
    }
}

/// Make a duration displayable.
pub fn duration(secs: Num) -> (r: HumanDuration)
    ensures
        r.seconds@ == secs@,
        r.compact == true,
        r.parts == 3,
{
    HumanDuration::new_from_secs(secs)
}

/// Create a duration from a count of seconds.
pub fn seconds(secs: Num) -> (r: HumanDuration)
    ensures
        r.seconds@ == secs@,
        r.compact == true,
        r.parts == 3,
{
    HumanDuration::new_from_secs(secs)
}

/// Collects the written parts of a decomposed duration.
pub struct PartWriter {
    pub out: String,
    pub parts: i32,
    pub written: i32,
    pub compact: bool,
}

impl PartWriter {
    /// An empty writer with the given part budget.
    pub fn new(parts: i32, compact: bool) -> (r: PartWriter)
        ensures
            r.out@ == Seq::<char>::empty(),
            r.parts == parts,
            r.written == 0,
            r.compact == compact,
    {
        PartWriter { out: String::new(), parts, written: 0, compact }
    }

    /// Whether another part may still be written.
    pub fn keep_going(&self) -> (r: bool)
        ensures
            r == keep_going_spec(self.parts as int, self.written as int),
    {
        self.parts <= 0 || self.written < self.parts
    }

    /// Write one part: its number, then its unit, separated from what came
    /// before by a space in full wording.
    pub fn put_part(&mut self, txt: &str, short: &str, long: &str)
        requires
            0 <= old(self).written < 1000,
        ensures
            final(self).out@ == old(self).out@ + part_text(
                txt@,
                short@,
                long@,
                old(self).compact,
                old(self).written as int,
            ),
            final(self).written == old(self).written + 1,
            final(self).parts == old(self).parts,
            final(self).compact == old(self).compact,
    {
        if self.written > 0 && !self.compact {
            self.out.append(" ");
        }
        self.out.append(txt);
        if self.compact {
            self.out.append(short);
        } else {
            self.out.append(" ");
            self.out.append(long);
        }
        self.written = self.written + 1;
        proof {
            assert(self.out@ =~= old(self).out@ + part_text(
                txt@,
                short@,
                long@,
                old(self).compact,
                old(self).written as int,
            ));
        }
    }
}

/// The whole-second digits of a duration, one digit per second power.
fn int_digits(v: &Num) -> (iv: Vec<u8>)
    requires
        wf(v@),
        v@.class is Finite,
        1 <= v@.exp <= 0x100_0000,
        v@.digits.len() <= 0x100_0000,
    ensures
        digits_ok(iv@),
        iv@.len() == v@.exp,
        digits_int(iv@) == dur_int(v@),
        v@.digits.len() > 0 ==> iv@[0] != 0,
{
    let e: usize = v.exp as usize;
    let dlen: usize = v.digits.len();
    let mut out: Vec<u8> = Vec::new();
    let mut i: usize = 0;
    while i < e
        invariant
            i <= e,
            e == v@.exp,
            dlen == v@.digits.len(),
            wf(v@),
            digits_ok(out@),
            out@.len() == i,
            out@ == Seq::new(i as nat, |x: int| dig_at(v@.digits, x)),
        decreases e - i,
    {
        let d: u8 = if i < dlen {
            v.digits[i]
        } else {
            0
        };
        proof {
            assert(d == dig_at(v@.digits, i as int));
            assert(d < 10) by {
                if i < dlen {
                    assert(v@.digits[i as int] < 10);
                }
            }
            assert(Seq::new((i + 1) as nat, |x: int| dig_at(v@.digits, x)) =~= Seq::new(
                i as nat,
                |x: int| dig_at(v@.digits, x),
            ).push(d));
        }
        out.push(d);
        i = i + 1;
    }
    proof {
        if v@.exp >= v@.digits.len() {
            lemma_digits_split(out@, dlen as int);
            assert(out@.take(dlen as int) =~= v@.digits);
            lemma_digits_zeros(out@.skip(dlen as int));
            assert(digits_int(out@) == mant(v@) * pow10((v@.exp - v@.digits.len()) as nat)
                + digits_int(out@.skip(dlen as int)));
        } else {
            assert(out@ =~= v@.digits.take(v@.exp));
        }
        if v@.digits.len() > 0 {
            assert(out@[0] == v@.digits[0]);
        }
    }
    out
}

/// Whether the signed duration exceeds the positive threshold `c`.
fn gt_int(v: &Num, iv: &Vec<u8>, c: u64) -> (r: bool)
    requires
        wf(v@),
        v@.class is Finite,
        1 <= v@.exp <= 0x100_0000,
        v@.digits.len() <= 0x100_0000,
        digits_ok(iv@),
        iv@.len() == v@.exp,
        digits_int(iv@) == dur_int(v@),
        v@.digits.len() > 0 ==> iv@[0] != 0,
        60 <= c < 1000000,
    ensures
        r == gt_c(v@, c as int),
{
    if v.neg {
        return false;
    }
    proof {
        assert(v@.digits.len() > 0) by {
            if v@.digits.len() == 0 {
                assert(v@.exp == 0);
            }
        }
        lemma_digits_nonneg(iv@);
    }
    if iv.len() > 6 {
        proof {
            lemma_digits_first(iv@);
            lemma_pow10_mono(6, (iv@.len() - 1) as nat);
            assert(pow10(0) == 1);
            assert(pow10(1) == 10);
            assert(pow10(2) == 100);
            assert(pow10(3) == 1000);
            assert(pow10(4) == 10000);
            assert(pow10(5) == 100000);
            assert(pow10(6) == 1000000);
        }
        return true;
    }
    let n = iv.len();
    let mut acc: u64 = 0;
    let mut i: usize = 0;
    proof {
        assert(iv@.take(0) =~= Seq::<u8>::empty());
        assert(pow10(0) == 1);
    }
    while i < n
        invariant
            i <= n,
            n == iv@.len(),
            n <= 6,
            digits_ok(iv@),
            acc == digits_int(iv@.take(i as int)),
            acc < pow10(i as nat),
            pow10(i as nat) <= 1000000,
        decreases n - i,
    {
        proof {
            assert(iv@[i as int] < 10);
            assert(iv@.take(i + 1).drop_last() =~= iv@.take(i as int));
            assert(iv@.take(i + 1).last() == iv@[i as int]);
            assert(pow10((i + 1) as nat) == 10 * pow10(i as nat));
            lemma_pow10_mono((i + 1) as nat, 6);
            assert(pow10(6) == 1000000) by {
                assert(pow10(0) == 1);
                assert(pow10(1) == 10);
                assert(pow10(2) == 100);
                assert(pow10(3) == 1000);
                assert(pow10(4) == 10000);
                assert(pow10(5) == 100000);
            }
        }
        acc = acc * 10 + (iv[i] as u64);
        i = i + 1;
    }
    proof {
        assert(iv@.take(n as int) =~= iv@);
    }
    let frac: bool = v.digits.len() > (v.exp as usize);
    acc > c || (acc == c && frac)
}

/// The plain decimal text of a digit string's number.
fn uint_string(ds: &Vec<u8>) -> (s: String)
    requires
        digits_ok(ds@),
    ensures
        s@ == uint_chars(digits_int(ds@)),
{
    let mut i: usize = 0;
    let n = ds.len();
    proof {
        assert(ds@.skip(0) =~= ds@);
    }
    while i < n && ds[i] == 0
        invariant
            i <= n,
            n == ds@.len(),
            digits_ok(ds@),
            forall|x: int| 0 <= x < i ==> ds@[x] == 0,
            digits_int(ds@) == digits_int(ds@.skip(i as int)),
        decreases n - i,
    {
        proof {
            let cur = ds@.skip(i as int);
            lemma_digits_split(cur, 1);
            assert(cur.take(1) =~= seq![0u8]);
            crate::digits::lemma_digits_single(0u8);
            assert(digits_int(cur) == digits_int(cur.skip(1)));
            assert(ds@.skip(i as int).skip(1) =~= ds@.skip(i + 1));
        }
        i = i + 1;
    }
    proof {
        lemma_digits_nonneg(ds@.skip(i as int));
    }
    if i == n {
        proof {
            assert(ds@.skip(n as int) =~= Seq::<u8>::empty());
            assert(digits_int(ds@) == 0);
        }
        return String::from_str("0");
    }
    proof {
        lemma_digits_unique(ds@.skip(i as int));
        lemma_digits_first(ds@.skip(i as int));
        crate::digits::lemma_pow10_pos((ds@.skip(i as int).len() - 1) as nat);
        assert(nat_digits(digits_int(ds@) as nat) == ds@.skip(i as int));
    }
    let mut out = String::new();
    let start = i;
    let mut j: usize = start;
    while j < n
        invariant
            start <= j <= n,
            n == ds@.len(),
            digits_ok(ds@),
            out@ == chars_of(ds@.skip(start as int)).take(j - start),
        decreases n - j,
    {
        proof {
            assert(ds@[j as int] < 10);
            assert(chars_of(ds@.skip(start as int)).take(j - start + 1) =~= chars_of(
                ds@.skip(start as int),
            ).take(j - start).push(digit_char(ds@[j as int])));
        }
        let cs = digit_str(ds[j]);
        out.append(cs);
        j = j + 1;
    }
    proof {
        assert(chars_of(ds@.skip(start as int)).take(n - start) =~= chars_of(
            ds@.skip(start as int),
        ));
    }
    out
}

/// Rendering a duration is a pure function of its configuration: two
/// renderings of the same configured duration are the same text.
pub proof fn lemma_duration_repeatable(d: &HumanDuration, a: Seq<char>, b: Seq<char>)
    requires
        a == duration_text(d.seconds@, d.compact, d.parts as int),
        b == duration_text(d.seconds@, d.compact, d.parts as int),
    ensures
        a == b,
{
}

/// The plain decimal text of a machine integer.
fn u64_string(x: u64) -> (s: String)
    ensures
        s@ == uint_chars(x as int),
{
    let ds = u64_digits(x);
    proof {
        lemma_nat_digits(x as nat);
    }
    uint_string(&ds)
}

} // verus!
