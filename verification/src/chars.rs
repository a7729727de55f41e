use vstd::prelude::*;

verus! {

/// Ten to the given power.
pub open spec fn pow10(e: nat) -> int
    decreases e,
{
    if e == 0 {
        1
    } else {
        10 * pow10((e - 1) as nat)
    }
}

pub proof fn lemma_pow10_pos(e: nat)
    ensures
        pow10(e) >= 1,
    decreases e,
{
    if e > 0 {
        lemma_pow10_pos((e - 1) as nat);
    }
}

pub proof fn lemma_pow10_adds(a: nat, b: nat)
    ensures
        pow10(a + b) == pow10(a) * pow10(b),
    decreases a,
{
    if a == 0 {
    } else {
        lemma_pow10_adds((a - 1) as nat, b);
        assert(10 * (pow10((a - 1) as nat) * pow10(b)) == (10 * pow10((a - 1) as nat)) * pow10(b))
            by (nonlinear_arith);
    }
}

pub proof fn lemma_pow10_increases(a: nat, b: nat)
    requires
        a <= b,
    ensures
        pow10(a) <= pow10(b),
    decreases b,
{
    if a < b {
        lemma_pow10_increases(a, (b - 1) as nat);
        lemma_pow10_pos((b - 1) as nat);
    }
}

/// The characters with the Unicode `White_Space` property, the set that
/// `str::trim` removes at either end.
pub open spec fn is_space_char(c: char) -> bool {
    let u = c as int;
    ||| (0x09 <= u <= 0x0D)
    ||| u == 0x20
    ||| u == 0x85
    ||| u == 0xA0
    ||| u == 0x1680
    ||| (0x2000 <= u <= 0x200A)
    ||| u == 0x2028
    ||| u == 0x2029
    ||| u == 0x202F
    ||| u == 0x205F
    ||| u == 0x3000
}

/// An ASCII decimal digit.
pub open spec fn is_digit_char(c: char) -> bool {
    48 <= c as int <= 57
}

/// The numeric value of an ASCII decimal digit.
pub open spec fn digit_val(c: char) -> int {
    c as int - 48
}

/// An ASCII letter.
pub open spec fn is_ascii_alpha(c: char) -> bool {
    (97 <= c as int <= 122) || (65 <= c as int <= 90)
}

pub open spec fn all_digit_chars(s: Seq<char>) -> bool {
    forall|i: int| 0 <= i < s.len() ==> is_digit_char(#[trigger] s[i])
}

/// The number denoted by a sequence of decimal digit characters, most
/// significant first.
pub open spec fn digits_val(s: Seq<char>) -> int
    decreases s.len(),
{
    if s.len() == 0 {
        0
    } else {
        digits_val(s.drop_last()) * 10 + digit_val(s.last())
    }
}

/// Every element is a digit value, at most nine.
pub open spec fn all_le9(s: Seq<u8>) -> bool {
    forall|i: int| 0 <= i < s.len() ==> #[trigger] s[i] <= 9
}

/// The number denoted by a sequence of digit values, most significant first.
pub open spec fn val_u8(s: Seq<u8>) -> int
    decreases s.len(),
{
    if s.len() == 0 {
        0
    } else {
        val_u8(s.drop_last()) * 10 + s.last()
    }
}

/// Splitting off the most significant digit.
pub proof fn lemma_val_u8_first(s: Seq<u8>)
    requires
        s.len() > 0,
    ensures
        val_u8(s) == s[0] * pow10((s.len() - 1) as nat) + val_u8(s.skip(1)),
    decreases s.len(),
{
    if s.len() == 1 {
        assert(s.drop_last() =~= Seq::<u8>::empty());
        assert(s.skip(1) =~= Seq::<u8>::empty());
        assert(pow10(0) == 1);
    } else {
        let d = s.drop_last();
        lemma_val_u8_first(d);
        assert(d.skip(1) =~= s.skip(1).drop_last());
        assert(d[0] == s[0]);
        assert(s.skip(1).last() == s.last());
        lemma_pow10_pos((d.len() - 1) as nat);
        assert(val_u8(s) == (s[0] * pow10((d.len() - 1) as nat) + val_u8(d.skip(1))) * 10
            + s.last());
        assert((s[0] * pow10((d.len() - 1) as nat)) * 10 == s[0] * (10 * pow10((d.len() - 1) as nat)))
            by (nonlinear_arith);
        assert(val_u8(s) == s[0] * pow10(d.len() as nat) + (val_u8(d.skip(1)) * 10 + s.last()));
    }
}

/// Digit characters and their values denote the same number.
pub proof fn lemma_digits_match(cs: Seq<char>, vs: Seq<u8>)
    requires
        cs.len() == vs.len(),
        all_digit_chars(cs),
        forall|i: int| 0 <= i < cs.len() ==> #[trigger] vs[i] == digit_val(cs[i]),
    ensures
        val_u8(vs) == digits_val(cs),
    decreases cs.len(),
{
    if cs.len() > 0 {
        let cd = cs.drop_last();
        let vd = vs.drop_last();
        assert(forall|i: int| 0 <= i < cd.len() ==> #[trigger] vd[i] == digit_val(cd[i]));
        lemma_digits_match(cd, vd);
        assert(vs.last() == digit_val(cs.last()));
    }
}

/// The prefix of a string that `str::trim_start` would keep removing.
pub open spec fn trim_start_spec(s: Seq<char>) -> Seq<char>
    decreases s.len(),
{
    if s.len() > 0 && is_space_char(s[0]) {
        trim_start_spec(s.skip(1))
    } else {
        s
    }
}

pub open spec fn trim_end_spec(s: Seq<char>) -> Seq<char>
    decreases s.len(),
{
    if s.len() > 0 && is_space_char(s.last()) {
        trim_end_spec(s.drop_last())
    } else {
        s
    }
}

/// What `str::trim` leaves: the string with leading and trailing white space
/// removed.
pub open spec fn trim_spec(s: Seq<char>) -> Seq<char> {
    trim_end_spec(trim_start_spec(s))
}

pub proof fn lemma_trim_start_skip(s: Seq<char>, a: int)
    requires
        0 <= a <= s.len(),
        forall|k: int| 0 <= k < a ==> is_space_char(#[trigger] s[k]),
        a == s.len() || !is_space_char(s[a]),
    ensures
        trim_start_spec(s) == s.skip(a),
    decreases a,
{
    if a == 0 {
        assert(s.skip(0) =~= s);
    } else {
        assert(is_space_char(s[0]));
        let t = s.skip(1);
        assert(forall|k: int| 0 <= k < a - 1 ==> is_space_char(#[trigger] t[k]));
        assert(a - 1 == t.len() || !is_space_char(t[a - 1]));
        lemma_trim_start_skip(t, a - 1);
        assert(t.skip(a - 1) =~= s.skip(a));
    }
}

pub proof fn lemma_trim_end_take(s: Seq<char>, e: int)
    requires
        0 <= e <= s.len(),
        forall|k: int| e <= k < s.len() ==> is_space_char(#[trigger] s[k]),
        e == 0 || !is_space_char(s[e - 1]),
    ensures
        trim_end_spec(s) == s.take(e),
    decreases s.len(),
{
    if e == s.len() {
        if s.len() > 0 && is_space_char(s.last()) {
            assert(!is_space_char(s[e - 1]));
            assert(false);
        }
        assert(s.take(e) =~= s);
    } else {
        assert(is_space_char(s.last()));
        let d = s.drop_last();
        assert(forall|k: int| e <= k < d.len() ==> is_space_char(#[trigger] d[k]));
        lemma_trim_end_take(d, e);
        assert(d.take(e) =~= s.take(e));
    }
}

/// `str::trim` as a verified function.
///
/// Scans for the first and last characters outside the Unicode white-space
/// set and returns the span between them.
pub fn trimmed<'a>(input: &'a str) -> (t: &'a str)
    ensures
        t@ == trim_spec(input@),
{
    let n = input.unicode_len();
    let mut a: usize = 0;
    while a < n && is_space_exec(input.get_char(a))
        invariant
            a <= n,
            n == input@.len(),
            forall|k: int| 0 <= k < a ==> is_space_char(#[trigger] input@[k]),
        decreases n - a,
    {
        a += 1;
    }
    proof {
        lemma_trim_start_skip(input@, a as int);
    }
    if a == n {
        proof {
            assert(input@.skip(n as int) =~= Seq::<char>::empty());
        }
        let t = input.substring_char(n, n);
        proof {
            assert(t@ =~= Seq::<char>::empty());
        }
        return t;
    }
    let mut b: usize = n;
    while is_space_exec(input.get_char(b - 1))
        invariant
            a < b <= n,
            n == input@.len(),
            !is_space_char(input@[a as int]),
            forall|k: int| b <= k < n ==> is_space_char(#[trigger] input@[k]),
        decreases b,
    {
        b -= 1;
    }
    proof {
        let s = input@.skip(a as int);
        let e = b - a;
        assert(forall|k: int| e <= k < s.len() ==> is_space_char(#[trigger] s[k]));
        assert(!is_space_char(s[e - 1]));
        lemma_trim_end_take(s, e as int);
        assert(s.take(e as int) =~= input@.subrange(a as int, b as int));
    }
    input.substring_char(a, b)
}

/// Executable mirror of `is_space_char`.
pub fn is_space_exec(c: char) -> (b: bool)
    ensures
        b == is_space_char(c),
{
    let u = c as u32;
    (0x09 <= u && u <= 0x0D) || u == 0x20 || u == 0x85 || u == 0xA0 || u == 0x1680 || (0x2000 <= u
        && u <= 0x200A) || u == 0x2028 || u == 0x2029 || u == 0x202F || u == 0x205F || u == 0x3000
}

/// Executable mirror of `is_ascii_alpha`.
pub fn is_ascii_alpha_exec(c: char) -> (b: bool)
    ensures
        b == is_ascii_alpha(c),
{
    let u = c as u32;
    (97 <= u && u <= 122) || (65 <= u && u <= 90)
}

} // verus!
