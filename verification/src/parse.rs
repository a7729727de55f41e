use crate::chars::{
    all_digit_chars, all_le9, digit_val, digits_val, is_ascii_alpha, is_ascii_alpha_exec,
    is_digit_char, lemma_digits_match, lemma_pow10_adds, lemma_pow10_increases, lemma_pow10_pos,
    lemma_val_u8_first, pow10, trim_spec, trimmed, val_u8,
};
use crate::duration::{max_duration_nanos, Duration};
use vstd::arithmetic::div_mod::{
    lemma_basic_div, lemma_div_is_ordered, lemma_div_pos_is_pos, lemma_hoist_over_denominator,
};
use vstd::prelude::*;

verus! {

/// The recognized unit suffixes of a duration term.
#[derive(Clone, Copy, PartialEq, Eq, Structural, Debug)]
pub enum SnoozeUnit {
    Seconds,
    Minutes,
    Hours,
    Days,
}

impl SnoozeUnit {
    /// Seconds per unit.
    pub open spec fn multiplier(self) -> int {
        match self {
            SnoozeUnit::Seconds => 1,
            SnoozeUnit::Minutes => 60,
            SnoozeUnit::Hours => 3600,
            SnoozeUnit::Days => 86400,
        }
    }

    /// The unit's scale in nanoseconds, split as `c * 10^p` so the digit
    /// arithmetic can work one decimal position at a time.
    fn scale(&self) -> (r: (u64, usize))
        ensures
            1 <= r.0 <= 864,
            9 <= r.1 <= 11,
            self.multiplier() * 1_000_000_000 == r.0 * pow10(r.1 as nat),
    {
        proof {
            lemma_pow10_concrete();
        }
        match self {
            SnoozeUnit::Seconds => (1, 9),
            SnoozeUnit::Minutes => (6, 10),
            SnoozeUnit::Hours => (36, 11),
            SnoozeUnit::Days => (864, 11),
        }
    }
}

/// The unit a trailing letter denotes, if any.
fn unit_of_char(c: char) -> (r: Option<SnoozeUnit>)
    ensures
        match r {
            Some(u) => unit_mult(c) == u.multiplier(),
            None => unit_mult(c) == 0,
        },
{
    if c == 's' {
        Some(SnoozeUnit::Seconds)
    } else if c == 'm' {
        Some(SnoozeUnit::Minutes)
    } else if c == 'h' {
        Some(SnoozeUnit::Hours)
    } else if c == 'd' {
        Some(SnoozeUnit::Days)
    } else {
        None
    }
}

/// Seconds per unit letter; zero marks an unrecognized letter.
pub open spec fn unit_mult(c: char) -> int {
    if c == 's' {
        1
    } else if c == 'm' {
        60
    } else if c == 'h' {
        3600
    } else if c == 'd' {
        86400
    } else {
        0
    }
}

/// Index of the first `.` in the sequence, or its length if there is none.
pub open spec fn first_dot(s: Seq<char>) -> int
    decreases s.len(),
{
    if s.len() == 0 {
        0
    } else if s[0] == '.' {
        0
    } else {
        1 + first_dot(s.skip(1))
    }
}

pub proof fn lemma_first_dot_at(s: Seq<char>, i: int)
    requires
        0 <= i <= s.len(),
        forall|k: int| 0 <= k < i ==> s[k] != '.',
        i == s.len() || s[i] == '.',
    ensures
        first_dot(s) == i,
    decreases i,
{
    if i == 0 {
    } else {
        assert(s[0] != '.');
        let t = s.skip(1);
        assert(forall|k: int| 0 <= k < i - 1 ==> t[k] != '.');
        assert(i - 1 == t.len() || t[i - 1] == '.');
        lemma_first_dot_at(t, i - 1);
    }
}

/// The digit characters before the first dot.
pub open spec fn int_digits(s: Seq<char>) -> Seq<char> {
    s.take(first_dot(s))
}

/// The digit characters after the first dot.
pub open spec fn frac_digits(s: Seq<char>) -> Seq<char> {
    if first_dot(s) == s.len() {
        Seq::empty()
    } else {
        s.skip(first_dot(s) + 1)
    }
}

/// A numeric body: decimal digits with at most one point and at least one
/// digit.
pub open spec fn valid_body(s: Seq<char>) -> bool {
    &&& all_digit_chars(int_digits(s))
    &&& all_digit_chars(frac_digits(s))
    &&& int_digits(s).len() + frac_digits(s).len() >= 1
}

/// A leading plus sign is accepted and ignored.
pub open spec fn strip_plus(s: Seq<char>) -> Seq<char> {
    if s.len() > 0 && s[0] == '+' {
        s.skip(1)
    } else {
        s
    }
}

/// The exact number of whole nanoseconds a numeric body denotes under a
/// unit multiplier: the value times the multiplier, in nanoseconds,
/// truncated toward zero.
pub open spec fn term_nanos_exact(body: Seq<char>, mult: int) -> int {
    digits_val(int_digits(body) + frac_digits(body)) * mult * 1_000_000_000 / pow10(
        frac_digits(body).len(),
    )
}

/// What a single duration term means.
///
/// The term is trimmed of surrounding white space; an empty term denotes
/// zero nanoseconds. A trailing ASCII letter must be one of `s`, `m`, `h`,
/// `d`; without one the unit is seconds. The rest must be a decimal number,
/// whose value in nanoseconds (exact, truncated) this returns; `None` marks
/// an invalid term.
pub open spec fn parse_term_spec(s: Seq<char>) -> Option<int> {
    let t = trim_spec(s);
    if t.len() == 0 {
        Some(0int)
    } else {
        let unit_is_letter = is_ascii_alpha(t.last());
        let mult = if unit_is_letter {
            unit_mult(t.last())
        } else {
            1int
        };
        let body = strip_plus(
            if unit_is_letter {
                t.drop_last()
            } else {
                t
            },
        );
        if mult != 0 && valid_body(body) {
            Some(term_nanos_exact(body, mult))
        } else {
            None
        }
    }
}

/// Saturation at the largest nanosecond count a single term can carry.
pub open spec fn sat_u64(n: int) -> int {
    if n > u64::MAX {
        u64::MAX as int
    } else {
        n
    }
}

pub proof fn lemma_pow10_concrete()
    ensures
        pow10(9) == 1_000_000_000,
        pow10(10) == 10_000_000_000,
        pow10(11) == 100_000_000_000,
        pow10(19) == 10_000_000_000_000_000_000,
        pow10(20) == 100_000_000_000_000_000_000,
{
    assert(pow10(0) == 1);
    assert(pow10(1) == 10);
    assert(pow10(2) == 100);
    assert(pow10(3) == 1000);
    assert(pow10(4) == 10000);
    assert(pow10(5) == 100000);
    assert(pow10(6) == 1000000);
    assert(pow10(7) == 10000000);
    assert(pow10(8) == 100000000);
    assert(pow10(9) == 1000000000);
    assert(pow10(10) == 10000000000);
    assert(pow10(11) == 100000000000);
    assert(pow10(12) == 1000000000000);
    assert(pow10(13) == 10000000000000);
    assert(pow10(14) == 100000000000000);
    assert(pow10(15) == 1000000000000000);
    assert(pow10(16) == 10000000000000000);
    assert(pow10(17) == 100000000000000000);
    assert(pow10(18) == 1000000000000000000);
    assert(pow10(19) == 10000000000000000000);
    assert(pow10(20) == 100000000000000000000);
}

fn pow10_u128(e: usize) -> (r: u128)
    requires
        e <= 20,
    ensures
        r as int == pow10(e as nat),
{
    let mut r: u128 = 1;
    let mut i: usize = 0;
    while i < e
        invariant
            i <= e <= 20,
            r as int == pow10(i as nat),
        decreases e - i,
    {
        proof {
            lemma_pow10_concrete();
            lemma_pow10_increases(i as nat, 19);
        }
        r = r * 10;
        i += 1;
    }
    r
}

/// Core of the parser's arithmetic: the digits (most significant first,
/// the last `k` of them fractional) scaled by `cmul * 10^p`, truncated to
/// whole units, saturated at `u64::MAX`.
///
/// Works digit by digit from the least significant end, as a long
/// multiplication by `cmul`, discarding the `k` fractional output digits
/// and saturating as soon as an output digit lands at a weight beyond
/// `10^19`, so the result is exact for inputs of any length.
#[verifier::spinoff_prover]
#[verifier::rlimit(100)]
fn digits_to_nanos_sat(ds: &Vec<u8>, k: usize, cmul: u64, p: usize) -> (r: u64)
    requires
        all_le9(ds@),
        k <= ds@.len(),
        1 <= cmul <= 864,
        9 <= p <= 11,
    ensures
        r as int == sat_u64(cmul * val_u8(ds@) * pow10(p as nat) / pow10(k as nat)),
{
    let l = ds.len();
    let mut j: usize = 0;
    let mut carry: u64 = 0;
    let mut acc: u128 = 0;
    let mut sat: bool = false;
    let mut under: usize = if k > p {
        k - p
    } else {
        0
    };
    let mut qv: usize = if k > p {
        0
    } else {
        p - k
    };
    let ghost mut emitted: int = 0;
    proof {
        assert(ds@.subrange(l as int, l as int) =~= Seq::<u8>::empty());
        lemma_pow10_pos(p as nat);
        lemma_pow10_pos(k as nat);
        lemma_basic_div(0, pow10(k as nat));
        lemma_pow10_concrete();
    }
    while j < l
        invariant
            all_le9(ds@),
            k <= l == ds@.len(),
            1 <= cmul <= 864,
            9 <= p <= 11,
            j <= l,
            carry < cmul,
            0 <= emitted < pow10((p + j) as nat),
            cmul * val_u8(ds@.subrange(l - j, l as int)) * pow10(p as nat) == carry * pow10(
                (p + j) as nat,
            ) + emitted,
            under == if k > p + j {
                k - p - j
            } else {
                0int
            },
            qv == if p + j >= k {
                if p + j - k >= 20 {
                    20int
                } else {
                    p + j - k
                }
            } else {
                0int
            },
            !sat ==> acc as int == emitted / pow10(k as nat),
            !sat ==> emitted / pow10(k as nat) < pow10(20),
            sat ==> emitted / pow10(k as nat) > u64::MAX,
            sat ==> qv == 20,
        decreases l - j,
    {
        let d = ds[l - 1 - j];
        assert(d <= 9);
        proof {
            assert((d as int) * (cmul as int) <= 9 * 864) by (nonlinear_arith)
                requires
                    0 <= d <= 9,
                    0 <= cmul <= 864,
            {
            }
        }
        let t = (d as u64) * cmul + carry;
        let od = t % 10;
        let newcarry = t / 10;
        let ghost pos = (p + j) as nat;
        let ghost new_emitted = od * pow10(pos) + emitted;
        proof {
            lemma_pow10_pos(pos);
            lemma_pow10_pos(k as nat);
            // value of the one-longer suffix
            let s_old = ds@.subrange(l - j, l as int);
            let s_new = ds@.subrange(l - 1 - j, l as int);
            assert(s_new.skip(1) =~= s_old);
            assert(s_new[0] == d);
            lemma_val_u8_first(s_new);
            assert(s_new.len() - 1 == j);
            lemma_pow10_adds(j as nat, p as nat);
            // push the new digit through the multiplication
            assert(cmul * val_u8(s_new) * pow10(p as nat) == (cmul * d) * pow10(pos) + carry
                * pow10(pos) + emitted) by (nonlinear_arith)
                requires
                    val_u8(s_new) == d * pow10(j as nat) + val_u8(s_old),
                    cmul * val_u8(s_old) * pow10(p as nat) == carry * pow10(pos) + emitted,
                    pow10(pos) == pow10(j as nat) * pow10(p as nat),
            {
            }
            assert(t == cmul * d + carry) by (nonlinear_arith)
                requires
                    t == (d as int) * (cmul as int) + carry,
            {
            }
            assert(t == 10 * newcarry + od) by {
                vstd::arithmetic::div_mod::lemma_fundamental_div_mod(t as int, 10);
            };
            assert((cmul * d) * pow10(pos) + carry * pow10(pos) == (10 * newcarry + od) * pow10(
                pos,
            )) by (nonlinear_arith)
                requires
                    t == cmul * d + carry,
                    t == 10 * newcarry + od,
            {
            }
            assert((10 * newcarry + od) * pow10(pos) == newcarry * (10 * pow10(pos)) + od * pow10(
                pos,
            )) by (nonlinear_arith);
            assert(10 * pow10(pos) == pow10((pos + 1) as nat));
            assert(cmul * val_u8(s_new) * pow10(p as nat) == newcarry * pow10((p + j + 1) as nat)
                + new_emitted);
            assert(od * pow10(pos) >= 0) by (nonlinear_arith)
                requires
                    od >= 0,
                    pow10(pos) > 0,
            {
            }
            // carry stays below the multiplier
            assert(newcarry < cmul) by (nonlinear_arith)
                requires
                    t == cmul * d + carry,
                    d <= 9,
                    carry < cmul,
                    newcarry == t / 10,
                    od == t % 10,
                    t == 10 * newcarry + od,
                    0 <= od < 10,
            {
            }
            // the emitted value keeps one digit per position
            assert(od * pow10(pos) + emitted < pow10((pos + 1) as nat)) by (nonlinear_arith)
                requires
                    0 <= od <= 9,
                    0 <= emitted < pow10(pos),
                    pow10((pos + 1) as nat) == 10 * pow10(pos),
            {
            }
        }
        if under > 0 {
            proof {
                // the new digit still lands below the discarded weight
                lemma_pow10_increases((pos + 1) as nat, k as nat);
                lemma_basic_div(new_emitted, pow10(k as nat));
                lemma_basic_div(emitted, pow10(k as nat));
            }
            under -= 1;
        } else {
            assert(p + j >= k);
            let ghost q = (p + j - k) as nat;
            proof {
                // od * 10^pos spread over the kept weight
                lemma_pow10_adds(q, k as nat);
                assert(od * pow10(pos) == (od * pow10(q)) * pow10(k as nat)) by (nonlinear_arith)
                    requires
                        pow10(pos) == pow10(q) * pow10(k as nat),
                {
                }
                lemma_hoist_over_denominator(emitted, od * pow10(q), pow10(k as nat) as nat);
                assert(new_emitted / pow10(k as nat) == emitted / pow10(k as nat) + od * pow10(q));
            }
            if qv >= 20 {
                if od > 0 {
                    proof {
                        // a nonzero digit beyond the top weight saturates
                        lemma_pow10_pos(q);
                        lemma_pow10_concrete();
                        lemma_pow10_increases(20, q);
                        assert(od * pow10(q) >= pow10(q)) by (nonlinear_arith)
                            requires
                                od >= 1,
                                pow10(q) > 0,
                        {
                        }
                        lemma_div_pos_is_pos(emitted, pow10(k as nat));
                        if sat {
                            lemma_div_is_ordered(emitted, new_emitted, pow10(k as nat));
                        }
                    }
                    sat = true;
                } else {
                    proof {
                        if sat {
                            lemma_div_is_ordered(emitted, new_emitted, pow10(k as nat));
                        }
                    }
                }
            } else {
                let w = pow10_u128(qv);
                proof {
                    lemma_pow10_concrete();
                    lemma_pow10_increases(qv as nat, 19);
                    lemma_pow10_pos(qv as nat);
                    assert(od * (w as int) <= 9 * pow10(19)) by (nonlinear_arith)
                        requires
                            0 <= od <= 9,
                            0 < w as int <= pow10(19),
                    {
                    }
                    assert(od * pow10(q) <= 9 * pow10(19)) by (nonlinear_arith)
                        requires
                            0 <= od <= 9,
                            0 < pow10(q) <= pow10(19),
                    {
                    }
                    // the kept quotient keeps one digit per kept position
                    lemma_pow10_pos(k as nat);
                    lemma_pow10_pos(q);
                    vstd::arithmetic::div_mod::lemma_div_is_ordered(
                        emitted,
                        pow10(pos) - 1,
                        pow10(k as nat),
                    );
                    lemma_pow10_adds(q, k as nat);
                    let pk = pow10(k as nat);
                    let pq = pow10(q);
                    lemma_hoist_over_denominator(pk - 1, pq - 1, pk as nat);
                    assert((pq - 1) * pk == pq * pk - pk) by (nonlinear_arith);
                    assert((pk - 1) + (pq - 1) * pk == pq * pk - 1);
                    lemma_basic_div(pk - 1, pk);
                    assert((pq * pk - 1) / pk == pq - 1);
                    assert(emitted / pow10(k as nat) <= pow10(q) - 1);
                    assert(od * pow10(q) + emitted / pow10(k as nat) < (od + 1) * pow10(q))
                        by (nonlinear_arith)
                        requires
                            emitted / pow10(k as nat) <= pow10(q) - 1,
                            pow10(q) > 0,
                    {
                    }
                    assert((od + 1) * pow10(q) <= 10 * pow10(q)) by (nonlinear_arith)
                        requires
                            od <= 9,
                            pow10(q) > 0,
                    {
                    }
                    assert(10 * pow10(q) == pow10((q + 1) as nat));
                    lemma_pow10_increases((q + 1) as nat, 20);
                    if sat {
                        lemma_div_is_ordered(emitted, new_emitted, pow10(k as nat));
                    }
                }
                acc = acc + (od as u128) * w;
                qv += 1;
            }
        }
        carry = newcarry;
        proof {
            emitted = new_emitted;
        }
        j += 1;
    }
    proof {
        assert(ds@.subrange(0, l as int) =~= ds@);
    }
    let ghost q_total = cmul * val_u8(ds@) * pow10(p as nat) / pow10(k as nat);
    let ghost qf = (p + l - k) as nat;
    proof {
        lemma_pow10_pos(k as nat);
        lemma_pow10_adds(qf, k as nat);
        assert(carry * pow10((p + l) as nat) == (carry * pow10(qf)) * pow10(k as nat))
            by (nonlinear_arith)
            requires
                pow10((p + l) as nat) == pow10(qf) * pow10(k as nat),
        {
        }
        lemma_hoist_over_denominator(emitted, carry * pow10(qf), pow10(k as nat) as nat);
        assert(q_total == emitted / pow10(k as nat) + carry * pow10(qf));
        lemma_div_pos_is_pos(emitted, pow10(k as nat));
        lemma_pow10_pos(qf);
        lemma_pow10_concrete();
    }
    if carry > 0 {
        if qv >= 20 {
            proof {
                lemma_pow10_increases(20, qf);
                assert(carry * pow10(qf) >= pow10(qf)) by (nonlinear_arith)
                    requires
                        carry >= 1,
                        pow10(qf) > 0,
                {
                }
            }
            sat = true;
        } else {
            assert(!sat);
            let w = pow10_u128(qv);
            proof {
                lemma_pow10_increases(qv as nat, 19);
                assert(carry * pow10(qf) <= 864 * pow10(19)) by (nonlinear_arith)
                    requires
                        0 < carry <= 864,
                        0 < pow10(qf) <= pow10(19),
                {
                }
            }
            acc = acc + (carry as u128) * w;
        }
    }
    if sat {
        assert(q_total > u64::MAX);
        u64::MAX
    } else {
        if acc > 0xFFFF_FFFF_FFFF_FFFFu128 {
            u64::MAX
        } else {
            acc as u64
        }
    }
}

/// Parse one duration term.
///
/// Returns the term's duration, saturated at `u64::MAX` nanoseconds, or
/// `None` exactly when the term is invalid; a blank term is the zero
/// duration.
#[verifier::rlimit(60)]
#[verifier::loop_isolation(false)]
pub fn parse_pause_arg(input: &str) -> (r: Option<Duration>)
    ensures
        match r {
            Some(d) => {
                &&& d.wf()
                &&& parse_term_spec(input@) is Some
                &&& d.total_nanos() == sat_u64(parse_term_spec(input@)->Some_0)
            },
            None => parse_term_spec(input@) is None,
        },
{
    let t = trimmed(input);
    let n = t.unicode_len();
    if n == 0 {
        return Some(Duration::zero());
    }
    let last = t.get_char(n - 1);
    let cmul: u64;
    let p: usize;
    let body: &str;
    let body_len: usize;
    let ghost mult: int;
    if is_ascii_alpha_exec(last) {
        let unit = match unit_of_char(last) {
            Some(u) => u,
            None => {
                assert(unit_mult(t@.last()) == 0);
                return None;
            },
        };
        let sc = unit.scale();
        cmul = sc.0;
        p = sc.1;
        proof {
            mult = unit_mult(t@.last());
        }
        body = t.substring_char(0, n - 1);
        body_len = n - 1;
        proof {
            assert(body@ =~= t@.drop_last());
        }
    } else {
        cmul = 1;
        p = 9;
        proof {
            mult = 1;
        }
        body = t;
        body_len = n;
    }
    proof {
        lemma_pow10_concrete();
        assert(mult * 1_000_000_000 == cmul * pow10(p as nat));
    }
    let num: &str;
    let num_len: usize;
    if body_len > 0 && body.get_char(0) == '+' {
        num = body.substring_char(1, body_len);
        num_len = body_len - 1;
        proof {
            assert(num@ =~= strip_plus(body@));
        }
    } else {
        num = body;
        num_len = body_len;
        proof {
            assert(num@ =~= strip_plus(body@));
        }
    }
    let ghost bodyv = strip_plus(
        if is_ascii_alpha(t@.last()) {
            t@.drop_last()
        } else {
            t@
        },
    );
    proof {
        assert(num@ == bodyv);
    }
    // find the first decimal point
    let mut i: usize = 0;
    let mut dot: Option<usize> = None;
    while i < num_len
        invariant
            i <= num_len == num@.len(),
            match dot {
                Some(d) => 0 <= d < i && num@[d as int] == '.' && forall|k: int|
                    0 <= k < d ==> num@[k] != '.',
                None => forall|k: int| 0 <= k < i ==> num@[k] != '.',
            },
        decreases num_len - i,
    {
        if num.get_char(i) == '.' && dot.is_none() {
            dot = Some(i);
        }
        i += 1;
    }
    let di: usize = match dot {
        Some(d) => d,
        None => num_len,
    };
    proof {
        lemma_first_dot_at(num@, di as int);
    }
    let ghost intd = int_digits(num@);
    let ghost fracd = frac_digits(num@);
    proof {
        assert(intd =~= num@.take(di as int));
        if di < num_len {
            assert(fracd =~= num@.skip(di as int + 1));
        } else {
            assert(fracd =~= Seq::<char>::empty());
        }
    }
    // collect the digit values, integer part then fractional part
    let mut ds: Vec<u8> = Vec::new();
    let mut j: usize = 0;
    while j < di
        invariant
            j <= di <= num_len == num@.len(),
            intd == num@.take(di as int),
            ds@.len() == j,
            forall|k: int| 0 <= k < j ==> is_digit_char(#[trigger] num@[k]),
            forall|k: int| 0 <= k < j ==> #[trigger] ds@[k] == digit_val(num@[k]),
            all_le9(ds@),
        decreases di - j,
    {
        let c = num.get_char(j);
        let u = c as u32;
        if u < 48 || u > 57 {
            proof {
                assert(0 <= j < intd.len());
                assert(!is_digit_char(intd[j as int]));
                assert(!all_digit_chars(intd));
                assert(!valid_body(bodyv));
                assert(parse_term_spec(input@) is None);
            }
            return None;
        }
        ds.push((u - 48) as u8);
        j += 1;
    }
    let ghost ipv = ds@;
    proof {
        assert(all_digit_chars(intd));
        lemma_digits_match(intd, ipv);
    }
    let mut k: usize = 0;
    if di < num_len {
        let mut j2: usize = di + 1;
        while j2 < num_len
            invariant
                di < num_len == num@.len(),
                di + 1 <= j2 <= num_len,
                fracd == num@.skip(di as int + 1),
                k == j2 - di - 1,
                ds@.len() == di + k,
                ds@.take(di as int) == ipv,
                forall|k2: int| di < k2 < j2 ==> is_digit_char(#[trigger] num@[k2]),
                forall|k2: int| 0 <= k2 < k ==> #[trigger] ds@[di + k2] == digit_val(
                    num@[di + 1 + k2],
                ),
                all_le9(ds@),
            decreases num_len - j2,
        {
            let c = num.get_char(j2);
            let u = c as u32;
            if u < 48 || u > 57 {
                proof {
                    assert(0 <= j2 - di - 1 < fracd.len());
                    assert(fracd[j2 - di - 1] == num@[j2 as int]);
                    assert(!is_digit_char(fracd[j2 - di - 1]));
                    assert(!all_digit_chars(fracd));
                    assert(!valid_body(bodyv));
                    assert(parse_term_spec(input@) is None);
                }
                return None;
            }
            ds.push((u - 48) as u8);
            k += 1;
            j2 += 1;
            proof {
                assert(ds@.take(di as int) =~= ipv);
            }
        }
    }
    if ds.len() == 0 {
        assert(intd.len() + fracd.len() == 0);
        assert(!valid_body(bodyv));
        return None;
    }
    let ghost fpv = ds@.skip(di as int);
    proof {
        assert(all_digit_chars(fracd));
        assert(fracd.len() == fpv.len());
        assert forall|k2: int| 0 <= k2 < fpv.len() implies #[trigger] fpv[k2] == digit_val(
            fracd[k2],
        ) by {
            assert(fpv[k2] == ds@[di + k2]);
            assert(fracd[k2] == num@[di + 1 + k2]);
        }
        lemma_digits_match(fracd, fpv);
        assert(valid_body(bodyv));
        // the collected digits are exactly both parts in order
        assert(ds@ =~= ipv + fpv);
        lemma_val_u8_concat(ipv, fpv);
        lemma_digits_val_concat(intd, fracd);
        assert(val_u8(ds@) == digits_val(intd + fracd));
    }
    let nanos = digits_to_nanos_sat(&ds, k, cmul, p);
    proof {
        assert(fracd.len() == k);
        assert(cmul * val_u8(ds@) * pow10(p as nat) == digits_val(intd + fracd) * mult
            * 1_000_000_000) by (nonlinear_arith)
            requires
                val_u8(ds@) == digits_val(intd + fracd),
                mult * 1_000_000_000 == cmul * pow10(p as nat),
        {
        }
        assert(term_nanos_exact(bodyv, mult) == cmul * val_u8(ds@) * pow10(p as nat) / pow10(
            k as nat,
        ));
        assert(parse_term_spec(input@) == Some(term_nanos_exact(bodyv, mult)));
    }
    Some(Duration::from_nanos(nanos))
}

/// Concatenation splits a digit value at a power of ten.
proof fn lemma_val_u8_concat(a: Seq<u8>, b: Seq<u8>)
    ensures
        val_u8(a + b) == val_u8(a) * pow10(b.len() as nat) + val_u8(b),
    decreases b.len(),
{
    if b.len() == 0 {
        assert(a + b =~= a);
        assert(pow10(0) == 1);
        assert(val_u8(a) * 1 == val_u8(a)) by (nonlinear_arith);
    } else {
        let bd = b.drop_last();
        lemma_val_u8_concat(a, bd);
        assert((a + b).drop_last() =~= a + bd);
        assert((a + b).last() == b.last());
        assert(val_u8(a + b) == val_u8(a + bd) * 10 + b.last());
        assert((val_u8(a) * pow10(bd.len() as nat) + val_u8(bd)) * 10 + b.last() == val_u8(a) * (10
            * pow10(bd.len() as nat)) + (val_u8(bd) * 10 + b.last())) by (nonlinear_arith);
        assert(10 * pow10(bd.len() as nat) == pow10(b.len() as nat));
        assert(val_u8(b) == val_u8(bd) * 10 + b.last());
    }
}

/// Same splitting for digit characters.
proof fn lemma_digits_val_concat(a: Seq<char>, b: Seq<char>)
    ensures
        digits_val(a + b) == digits_val(a) * pow10(b.len() as nat) + digits_val(b),
    decreases b.len(),
{
    if b.len() == 0 {
        assert(a + b =~= a);
        assert(pow10(0) == 1);
        assert(digits_val(a) * 1 == digits_val(a)) by (nonlinear_arith);
    } else {
        let bd = b.drop_last();
        lemma_digits_val_concat(a, bd);
        assert((a + b).drop_last() =~= a + bd);
        assert((a + b).last() == b.last());
        assert(digits_val(a + b) == digits_val(a + bd) * 10 + digit_val(b.last()));
        assert((digits_val(a) * pow10(bd.len() as nat) + digits_val(bd)) * 10 + digit_val(b.last())
            == digits_val(a) * (10 * pow10(bd.len() as nat)) + (digits_val(bd) * 10 + digit_val(
            b.last(),
        ))) by (nonlinear_arith);
        assert(10 * pow10(bd.len() as nat) == pow10(b.len() as nat));
        assert(digits_val(b) == digits_val(bd) * 10 + digit_val(b.last()));
    }
}

/// What a whole argument list means: the saturated terms added up, `None`
/// as soon as one term is invalid or the running sum leaves the
/// representable range.
pub open spec fn sum_terms_spec(args: Seq<Seq<char>>) -> Option<int>
    decreases args.len(),
{
    if args.len() == 0 {
        Some(0int)
    } else {
        match sum_terms_spec(args.drop_last()) {
            Some(acc) => match parse_term_spec(args.last()) {
                Some(n) => if acc + sat_u64(n) <= max_duration_nanos() {
                    Some(acc + sat_u64(n))
                } else {
                    None
                },
                None => None,
            },
            None => None,
        }
    }
}

pub open spec fn arg_views(args: Seq<&str>) -> Seq<Seq<char>> {
    args.map_values(|a: &str| a@)
}

/// Once a prefix fails, the whole list fails.
proof fn lemma_sum_none_sticks(v: Seq<Seq<char>>, m: int)
    requires
        0 <= m <= v.len(),
        sum_terms_spec(v.take(m)) is None,
    ensures
        sum_terms_spec(v) is None,
    decreases v.len() - m,
{
    if m == v.len() {
        assert(v.take(m) =~= v);
    } else {
        assert(v.take(m + 1).drop_last() =~= v.take(m));
        lemma_sum_none_sticks(v, m + 1);
    }
}

/// Parse and add up a whole argument list.
///
/// `None` exactly when some term is invalid, the sum leaves the
/// representable range, or the sum is zero — an empty list and a list of
/// blank terms both end at zero and are rejected.
pub fn sum_pause_args(args: &[&str]) -> (r: Option<Duration>)
    ensures
        match r {
            Some(d) => {
                &&& d.wf()
                &&& sum_terms_spec(arg_views(args@)) == Some(d.total_nanos())
                &&& d.total_nanos() > 0
            },
            None => sum_terms_spec(arg_views(args@)) is None || sum_terms_spec(arg_views(args@))
                == Some(0int),
        },
{
    let ghost v = arg_views(args@);
    let mut acc = Duration::zero();
    let mut i: usize = 0;
    proof {
        assert(v.take(0) =~= Seq::<Seq<char>>::empty());
    }
    while i < args.len()
        invariant
            i <= args@.len() == v.len(),
            v == arg_views(args@),
            acc.wf(),
            sum_terms_spec(v.take(i as int)) == Some(acc.total_nanos()),
        decreases args@.len() - i,
    {
        let a: &str = args[i];
        proof {
            assert(v[i as int] == a@);
            assert(v.take(i as int + 1).drop_last() =~= v.take(i as int));
            assert(v.take(i as int + 1).last() == v[i as int]);
        }
        match parse_pause_arg(a) {
            Some(d) => {
                match acc.checked_add(&d) {
                    Some(s) => {
                        acc = s;
                    },
                    None => {
                        proof {
                            lemma_sum_none_sticks(v, i as int + 1);
                        }
                        return None;
                    },
                }
            },
            None => {
                proof {
                    lemma_sum_none_sticks(v, i as int + 1);
                }
                return None;
            },
        }
        i += 1;
    }
    proof {
        assert(v.take(i as int) =~= v);
    }
    if acc.is_zero() {
        None
    } else {
        Some(acc)
    }
}

} // verus!
