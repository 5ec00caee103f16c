//! Balanced base-five numerals: digits worth 2, 1, 0, -1 and -2, written
//! `2 1 0 - =`, summed over fuel amounts and written back out.

use vstd::prelude::*;
use vstd::string::StrSliceExecFns;

use crate::text::push_char;

verus! {

/// The value of one balanced base-five digit.
pub open spec fn snafu_digit_val(c: char) -> int {
    if c == '2' {
        2
    } else if c == '1' {
        1
    } else if c == '0' {
        0
    } else if c == '-' {
        -1
    } else {
        -2
    }
}

/// The five digit characters.
pub open spec fn is_snafu_digit(c: char) -> bool {
    c == '2' || c == '1' || c == '0' || c == '-' || c == '='
}

/// Powers of five.
pub open spec fn pow5(n: nat) -> int
    decreases n,
{
    if n == 0 {
        1
    } else {
        5 * pow5((n - 1) as nat)
    }
}

/// The value of a numeral, most significant digit first.
pub open spec fn snafu_val(s: Seq<char>) -> int
    decreases s.len(),
{
    if s.len() == 0 {
        0
    } else {
        snafu_val(s.drop_last()) * 5 + snafu_digit_val(s.last())
    }
}

/// The value of a digit string stored least significant digit first.
pub open spec fn snafu_val_lsd(s: Seq<char>) -> int
    decreases s.len(),
{
    if s.len() == 0 {
        0
    } else {
        snafu_digit_val(s[0]) + 5 * snafu_val_lsd(s.drop_first())
    }
}

/// Appending a less significant digit to an lsd-first digit string adds it
/// scaled by the next power of five.
proof fn lemma_lsd_push(s: Seq<char>, c: char)
    ensures
        snafu_val_lsd(s.push(c)) == snafu_val_lsd(s) + snafu_digit_val(c) * pow5(s.len()),
    decreases s.len(),
{
    let p = s.push(c);
    assert(p.len() == s.len() + 1);
    assert(p[0] == if s.len() == 0 { c } else { s[0] });
    assert(snafu_val_lsd(p) == snafu_digit_val(p[0]) + 5 * snafu_val_lsd(p.drop_first()));
    if s.len() == 0 {
        assert(p.drop_first() =~= Seq::<char>::empty());
        assert(snafu_val_lsd(p.drop_first()) == 0);
        assert(pow5(0) == 1);
    } else {
        assert(p.drop_first() =~= s.drop_first().push(c));
        lemma_lsd_push(s.drop_first(), c);
        assert(pow5(s.len()) == 5 * pow5((s.len() - 1) as nat));
        assert(snafu_digit_val(c) * pow5(s.len()) == 5 * (snafu_digit_val(c) * pow5(
            (s.len() - 1) as nat,
        ))) by (nonlinear_arith)
            requires
                pow5(s.len()) == 5 * pow5((s.len() - 1) as nat),
        ;
        assert(snafu_val_lsd(s) == snafu_digit_val(s[0]) + 5 * snafu_val_lsd(s.drop_first()));
    }
}

/// A digit string read most significant first denotes the same value as its
/// element-wise reverse read least significant first.
proof fn lemma_rev_val(s: Seq<char>, d: Seq<char>)
    requires
        s.len() == d.len(),
        forall|k: int| 0 <= k < s.len() ==> s[k] == d[s.len() - 1 - k],
    ensures
        snafu_val(s) == snafu_val_lsd(d),
    decreases s.len(),
{
    if s.len() > 0 {
        assert(s.last() == d[0]);
        lemma_rev_val(s.drop_last(), d.drop_first());
    }
}

/// One fuel amount, as parsed from its numeral.
#[derive(Debug)]
pub struct Snafu {
    val: i64,
}

impl Snafu {
    pub closed spec fn spec_val(&self) -> int {
        self.val as int
    }

    /// Parse a numeral of at most 27 digits (every such value fits in 64
    /// bits).
    pub fn new(line: &str) -> (r: Self)
        requires
            line@.len() <= 27,
            forall|i: int| 0 <= i < line@.len() ==> is_snafu_digit(line@[i]),
        ensures
            r.spec_val() == snafu_val(line@),
    {
        let n = line.unicode_len();
        let mut val: i64 = 0;
        let mut i: usize = 0;
        proof {
            lemma_pow5_27();
        }
        while i < n
            invariant
                n == line@.len(),
                n <= 27,
                i <= n,
                forall|k: int| 0 <= k < n ==> is_snafu_digit(line@[k]),
                val == snafu_val(line@.subrange(0, i as int)),
                2 * val <= pow5(i as nat) - 1,
                2 * val >= 1 - pow5(i as nat),
                pow5(27) == 7450580596923828125,
            decreases n - i,
        {
            let c = line.get_char(i);
            let d: i64 = if c == '2' {
                2
            } else if c == '1' {
                1
            } else if c == '0' {
                0
            } else if c == '-' {
                -1
            } else {
                -2
            };
            proof {
                let pre = line@.subrange(0, i as int);
                let cur = line@.subrange(0, i + 1 as int);
                assert(cur.drop_last() =~= pre);
                assert(cur.last() == line@[i as int]);
                lemma_pow5_mono(i as nat, 26);
                assert(pow5((i + 1) as nat) == 5 * pow5(i as nat));
                assert(pow5(27) == 5 * pow5(26));
                lemma_pow5_pos(i as nat);
            }
            val = val * 5 + d;
            i = i + 1;
        }
        proof {
            assert(line@.subrange(0, n as int) =~= line@);
        }
        Self { val }
    }

    /// Wrap an already-computed value.
    pub fn from_val(val: i64) -> (r: Self)
        ensures
            r.spec_val() == val,
    {
        Self { val }
    }

    /// Write the value out as a numeral.  A positive value yields digits
    /// denoting exactly that value; zero and negative values yield the empty
    /// string.
    pub fn get_string(&self) -> (r: String)
        ensures
            self.spec_val() >= 0 ==> snafu_val(r@) == self.spec_val(),
            self.spec_val() <= 0 ==> r@.len() == 0,
            forall|k: int| 0 <= k < r@.len() ==> is_snafu_digit(r@[k]),
    {
        let mut number = self.val;
        let mut digits: Vec<char> = Vec::new();
        while number > 0
            invariant
                self.val > 0 ==> {
                    &&& number >= 0
                    &&& self.val == number * pow5(digits@.len()) + snafu_val_lsd(digits@)
                },
                self.val <= 0 ==> (number == self.val && digits@.len() == 0),
                forall|k: int| 0 <= k < digits@.len() ==> is_snafu_digit(digits@[k]),
            decreases number,
        {
            let remainder = number % 5;
            let ch = match remainder {
                0 => '0',
                1 => '1',
                2 => '2',
                3 => '=',
                _ => '-',
            };
            let q = number / 5;
            let ghost dv = snafu_digit_val(ch);
            let ghost len0 = digits@.len();
            proof {
                lemma_lsd_push(digits@, ch);
                lemma_pow5_pos(len0);
                assert(number == 5 * (if remainder >= 3 {
                    q + 1int
                } else {
                    q as int
                }) + dv);
                assert((5 * (if remainder >= 3 {
                    q + 1int
                } else {
                    q as int
                }) + dv) * pow5(len0) == (if remainder >= 3 {
                    q + 1int
                } else {
                    q as int
                }) * pow5((len0 + 1) as nat) + dv * pow5(len0)) by (nonlinear_arith)
                    requires
                        pow5((len0 + 1) as nat) == 5 * pow5(len0),
                ;
            }
            digits.push(ch);
            number = if remainder >= 3 {
                q + 1
            } else {
                q
            };
            proof {
                assert(number >= 0) by (nonlinear_arith)
                    requires
                        number == (if remainder >= 3 {
                            q + 1int
                        } else {
                            q as int
                        }),
                        q >= 0,
                ;
            }
        }
        let mut result = String::new();
        let m = digits.len();
        let mut j: usize = m;
        while j > 0
            invariant
                m == digits@.len(),
                j <= m,
                result@.len() == m - j,
                forall|k: int| 0 <= k < result@.len() ==> result@[k] == digits@[m - 1 - k],
                forall|k: int| 0 <= k < digits@.len() ==> is_snafu_digit(digits@[k]),
            decreases j,
        {
            j = j - 1;
            let c = digits[j];
            push_char(&mut result, c);
        }
        proof {
            lemma_rev_val(result@, digits@);
        }
        result
    }
}

/// Powers of five are positive.
proof fn lemma_pow5_pos(n: nat)
    ensures
        pow5(n) >= 1,
    decreases n,
{
    if n > 0 {
        lemma_pow5_pos((n - 1) as nat);
    }
}

/// Powers of five grow with the exponent.
proof fn lemma_pow5_mono(a: nat, b: nat)
    requires
        a <= b,
    ensures
        pow5(a) <= pow5(b),
    decreases b,
{
    if a < b {
        lemma_pow5_mono(a, (b - 1) as nat);
        lemma_pow5_pos((b - 1) as nat);
    }
}

/// The largest power of five whose numerals this module accepts.
proof fn lemma_pow5_27()
    ensures
        pow5(27) == 7450580596923828125,
{
    reveal_with_fuel(pow5, 28);
}

/// All the fuel amounts to sum.
#[derive(Debug)]
pub struct Puzzle {
    amount_fuel: Vec<Snafu>,
}

/// The values of a list of fuel amounts.
pub open spec fn sum_vals(s: Seq<Snafu>) -> int
    decreases s.len(),
{
    if s.len() == 0 {
        0
    } else {
        sum_vals(s.drop_last()) + s.last().spec_val()
    }
}

/// Every partial sum of the list stays within 64 bits.
pub open spec fn sums_fit(s: Seq<Snafu>) -> bool
    decreases s.len(),
{
    if s.len() == 0 {
        true
    } else {
        sums_fit(s.drop_last()) && i64::MIN <= sum_vals(s) <= i64::MAX
    }
}

impl Puzzle {
    pub closed spec fn spec_fuel(&self) -> Seq<Snafu> {
        self.amount_fuel@
    }

    pub fn new() -> (r: Self)
        ensures
            r.spec_fuel() == Seq::<Snafu>::empty(),
    {
        Self { amount_fuel: Vec::new() }
    }

    /// Parse one numeral and add it to the list.
    pub fn add_line(&mut self, line: &str)
        requires
            line@.len() <= 27,
            forall|i: int| 0 <= i < line@.len() ==> is_snafu_digit(line@[i]),
        ensures
            final(self).spec_fuel().len() == old(self).spec_fuel().len() + 1,
            final(self).spec_fuel().drop_last() == old(self).spec_fuel(),
            final(self).spec_fuel().last().spec_val() == snafu_val(line@),
    {
        self.amount_fuel.push(Snafu::new(line));
        proof {
            assert(self.amount_fuel@.drop_last() =~= old(self).amount_fuel@);
        }
    }

    /// The total fuel, written out as a numeral.
    pub fn total_string(&self) -> (r: String)
        requires
            sums_fit(self.spec_fuel()),
        ensures
            sum_vals(self.spec_fuel()) >= 0 ==> snafu_val(r@) == sum_vals(self.spec_fuel()),
            sum_vals(self.spec_fuel()) <= 0 ==> r@.len() == 0,
    {
        let mut total: i64 = 0;
        let n = self.amount_fuel.len();
        let mut i: usize = 0;
        while i < n
            invariant
                n == self.spec_fuel().len(),
                i <= n,
                sums_fit(self.spec_fuel()),
                total == sum_vals(self.spec_fuel().subrange(0, i as int)),
            decreases n - i,
        {
            proof {
                lemma_sums_fit_prefix(self.spec_fuel(), i + 1);
                assert(self.spec_fuel().subrange(0, i + 1 as int).drop_last() =~= self.spec_fuel(

                ).subrange(0, i as int));
                assert(self.spec_fuel().subrange(0, i + 1 as int).last() == self.spec_fuel()[i as int]);
            }
            total = total + self.amount_fuel[i].val;
            i = i + 1;
        }
        proof {
            assert(self.spec_fuel().subrange(0, n as int) =~= self.spec_fuel());
        }
        let snafu = Snafu::from_val(total);
        snafu.get_string()
    }
}

/// Every prefix of a list whose partial sums fit also has fitting sums.
proof fn lemma_sums_fit_prefix(s: Seq<Snafu>, k: int)
    requires
        sums_fit(s),
        0 <= k <= s.len(),
    ensures
        sums_fit(s.subrange(0, k)),
    decreases s.len(),
{
    if k < s.len() {
        assert(s.drop_last() =~= s.subrange(0, s.len() - 1));
        lemma_sums_fit_prefix(s.subrange(0, s.len() - 1), k);
        assert(s.subrange(0, s.len() - 1).subrange(0, k) =~= s.subrange(0, k));
    } else {
        assert(s.subrange(0, k) =~= s);
    }
}

} // verus!
