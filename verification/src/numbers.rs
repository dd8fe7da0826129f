//! Decimal integers read from text, the way `str::parse` reads them.
use vstd::prelude::*;

verus! {

/// `c` is one of the ASCII digits `0` to `9`.
pub open spec fn is_digit(c: char) -> bool {
    48 <= (c as u32) <= 57
}

/// Every character of `d` is a digit.
pub open spec fn all_digits(d: Seq<char>) -> bool {
    forall|i: int| 0 <= i < d.len() ==> is_digit(#[trigger] d[i])
}

/// The value of the decimal digits `d`, most significant first.
pub open spec fn digits_value(d: Seq<char>) -> int
    decreases d.len(),
{
    if d.len() == 0 {
        0
    } else {
        digits_value(d.drop_last()) * 10 + ((d.last() as u32) - 48)
    }
}

/// The digits after an optional leading `+`.
pub open spec fn unsigned_digits(s: Seq<char>) -> Seq<char> {
    if s.len() > 0 && s[0] == '+' {
        s.drop_first()
    } else {
        s
    }
}

/// What `str::parse::<u32>` gives for text `s`: an optional `+` and then at
/// least one ASCII digit, with a value that fits.
pub open spec fn parse_u32(s: Seq<char>) -> Option<u32> {
    let d = unsigned_digits(s);
    if d.len() > 0 && all_digits(d) && digits_value(d) <= u32::MAX {
        Some(digits_value(d) as u32)
    } else {
        None
    }
}

/// What `str::parse::<i32>` gives for text `s`: an optional sign and then at
/// least one ASCII digit, with a value that fits.
pub open spec fn parse_i32(s: Seq<char>) -> Option<i32> {
    if s.len() > 0 && s[0] == '-' {
        let d = s.drop_first();
        if d.len() > 0 && all_digits(d) && digits_value(d) <= 0x8000_0000 {
            Some((-digits_value(d)) as i32)
        } else {
            None
        }
    } else {
        let d = unsigned_digits(s);
        if d.len() > 0 && all_digits(d) && digits_value(d) <= i32::MAX {
            Some(digits_value(d) as i32)
        } else {
            None
        }
    }
}

/// Reading one more digit can only make the value larger.
proof fn lemma_digits_value_grows(d: Seq<char>, k: int)
    requires
        all_digits(d),
        0 <= k <= d.len(),
    ensures
        digits_value(d.take(k)) <= digits_value(d),
        0 <= digits_value(d.take(k)),
    decreases d.len() - k,
{
    if k < d.len() {
        lemma_digits_value_grows(d, k + 1);
        assert(d.take(k + 1).drop_last() =~= d.take(k));
        assert(is_digit(d[k]));
        assert(d.take(k + 1).last() == d[k]);
        lemma_digits_value_nonneg(d.take(k));
    } else {
        assert(d.take(k) =~= d);
        lemma_digits_value_nonneg(d);
    }
}

/// Digits have a non-negative value.
proof fn lemma_digits_value_nonneg(d: Seq<char>)
    requires
        all_digits(d),
    ensures
        0 <= digits_value(d),
    decreases d.len(),
{
    if d.len() > 0 {
        assert(all_digits(d.drop_last())) by {
            assert forall|i: int| 0 <= i < d.drop_last().len() implies is_digit(#[trigger] d.drop_last()[i]) by {
                assert(d.drop_last()[i] == d[i]);
            }
        }
        lemma_digits_value_nonneg(d.drop_last());
        assert(is_digit(d[d.len() - 1]));
    }
}

/// The value of the digits `s[from..to]`, or `None` when some character is
/// not a digit, there are none, or the value exceeds `limit`.
fn read_digits(s: &Vec<char>, from: usize, to: usize, limit: u64) -> (r: Option<u64>)
    requires
        from <= to <= s@.len(),
        limit <= 0x1_0000_0000,
    ensures
        ({
            let d = s@.subrange(from as int, to as int);
            r == if d.len() > 0 && all_digits(d) && digits_value(d) <= limit {
                Some(digits_value(d) as u64)
            } else {
                None::<u64>
            }
        }),
        r matches Some(v) ==> v <= limit && v as int == digits_value(s@.subrange(from as int, to as int)),
{
    let ghost d = s@.subrange(from as int, to as int);
    if from == to {
        return None;
    }
    let mut value: u64 = 0;
    let mut k = from;
    assert(d.take(0) =~= Seq::<char>::empty());
    while k < to
        invariant
            from <= k <= to <= s@.len(),
            d == s@.subrange(from as int, to as int),
            limit <= 0x1_0000_0000,
            all_digits(d.take(k - from)),
            value == digits_value(d.take(k - from)),
            value <= limit,
        decreases to - k,
    {
        let c = s[k];
        let u = c as u32;
        if u < 48 || u > 57 {
            assert(d[k - from] == c);
            assert(!all_digits(d));
            return None;
        }
        let digit = (u - 48) as u64;
        proof {
            assert(d.take(k - from + 1).drop_last() =~= d.take(k - from));
            assert(d.take(k - from + 1).last() == c);
            assert(all_digits(d.take(k - from + 1))) by {
                assert forall|i: int| 0 <= i < d.take(k - from + 1).len() implies is_digit(#[trigger] d.take(k - from + 1)[i]) by {
                    if i < k - from {
                        assert(d.take(k - from + 1)[i] == d.take(k - from)[i]);
                    }
                }
            }
        }
        value = value * 10 + digit;
        k = k + 1;
        if value > limit {
            proof {
                if all_digits(d) {
                    lemma_digits_value_grows(d, k - from);
                }
            }
            return None;
        }
    }
    assert(d.take(to - from) =~= d);
    proof {
        lemma_digits_value_nonneg(d);
    }
    Some(value)
}

/// Reads `s[from..to]` as `str::parse::<u32>` does.
pub fn read_u32(s: &Vec<char>, from: usize, to: usize) -> (r: Option<u32>)
    requires
        from <= to <= s@.len(),
    ensures
        r == parse_u32(s@.subrange(from as int, to as int)),
{
    let ghost t = s@.subrange(from as int, to as int);
    let start = if from < to && s[from] == '+' { from + 1 } else { from };
    proof {
        assert(s@.subrange(start as int, to as int) =~= unsigned_digits(t));
    }
    match read_digits(s, start, to, 0xFFFF_FFFF) {
        Some(v) => Some(v as u32),
        None => None,
    }
}

/// Reads `s[from..to]` as `str::parse::<i32>` does.
pub fn read_i32(s: &Vec<char>, from: usize, to: usize) -> (r: Option<i32>)
    requires
        from <= to <= s@.len(),
    ensures
        r == parse_i32(s@.subrange(from as int, to as int)),
{
    let ghost t = s@.subrange(from as int, to as int);
    if from < to && s[from] == '-' {
        assert(s@.subrange(from + 1, to as int) =~= t.drop_first());
        match read_digits(s, from + 1, to, 0x8000_0000) {
            Some(v) => {
                let wide = v as i64;
                let negated: i64 = 0 - wide;
                Some(negated as i32)
            },
            None => None,
        }
    } else {
        let start = if from < to && s[from] == '+' { from + 1 } else { from };
        proof {
            assert(s@.subrange(start as int, to as int) =~= unsigned_digits(t));
        }
        match read_digits(s, start, to, 0x7FFF_FFFF) {
            Some(v) => Some(v as i32),
            None => None,
        }
    }
}

/// The ASCII digit for `d`, which is below ten.
pub open spec fn digit_char(d: int) -> char {
    (d + 48) as char
}

/// The decimal digits of `n`, most significant first, without leading zeros.
pub open spec fn decimal(n: nat) -> Seq<char>
    decreases n,
{
    if n < 10 {
        seq![digit_char(n as int)]
    } else {
        decimal(n / 10).push(digit_char((n % 10) as int))
    }
}

/// `digits` padded on the left with zeros to at least `width` characters.
pub open spec fn zero_padded(digits: Seq<char>, width: nat) -> Seq<char> {
    if digits.len() >= width {
        digits
    } else {
        Seq::new((width - digits.len()) as nat, |i: int| '0') + digits
    }
}

/// The decimal digits of `n` are digits and read back as `n`.
pub(crate) proof fn lemma_decimal_reads_back(n: nat)
    ensures
        all_digits(decimal(n)),
        digits_value(decimal(n)) == n,
        decimal(n).len() > 0,
    decreases n,
{
    if n >= 10 {
        lemma_decimal_reads_back(n / 10);
        let d = decimal(n);
        assert(d.drop_last() =~= decimal(n / 10));
        assert((digit_char((n % 10) as int) as u32) == n % 10 + 48);
        assert(n == (n / 10) * 10 + n % 10);
        assert(d.last() == digit_char((n % 10) as int));
        assert(digits_value(d) == digits_value(decimal(n / 10)) * 10 + (n % 10));
        assert(all_digits(d)) by {
            assert forall|i: int| 0 <= i < d.len() implies is_digit(#[trigger] d[i]) by {
                if i < d.len() - 1 {
                    assert(d[i] == decimal(n / 10)[i]);
                }
            }
        }
    } else {
        assert(seq![digit_char(n as int)].drop_last() =~= Seq::<char>::empty());
        assert((digit_char(n as int) as u32) == n + 48);
        assert(digits_value(Seq::<char>::empty()) == 0);
    }
}

/// Leading zeros do not change the value of digits.
pub(crate) proof fn lemma_leading_zeros(width: nat, d: Seq<char>)
    requires
        all_digits(d),
    ensures
        all_digits(zero_padded(d, width)),
        digits_value(zero_padded(d, width)) == digits_value(d),
        zero_padded(d, width).len() >= d.len(),
{
    if d.len() < width {
        let z = Seq::new((width - d.len()) as nat, |i: int| '0');
        lemma_zeros_prefix(z, d);
        assert(all_digits(z + d)) by {
            assert forall|i: int| 0 <= i < (z + d).len() implies is_digit(#[trigger] (z + d)[i]) by {
                if i >= z.len() {
                    assert((z + d)[i] == d[i - z.len()]);
                }
            }
        }
    }
}

/// Digits after zeros read as the digits alone.
proof fn lemma_zeros_prefix(z: Seq<char>, d: Seq<char>)
    requires
        forall|i: int| 0 <= i < z.len() ==> z[i] == '0',
    ensures
        digits_value(z + d) == digits_value(d),
    decreases d.len(),
{
    if d.len() == 0 {
        assert(z + d =~= z);
        lemma_zeros_value(z);
    } else {
        assert((z + d).drop_last() =~= z + d.drop_last());
        lemma_zeros_prefix(z, d.drop_last());
    }
}

/// Zeros read as zero.
proof fn lemma_zeros_value(z: Seq<char>)
    requires
        forall|i: int| 0 <= i < z.len() ==> z[i] == '0',
    ensures
        digits_value(z) == 0,
    decreases z.len(),
{
    if z.len() > 0 {
        lemma_zeros_value(z.drop_last());
        assert(z[z.len() - 1] == '0');
    }
}

/// The decimal digits of `n`.
pub fn decimal_chars(n: u32) -> (v: Vec<char>)
    ensures
        v@ == decimal(n as nat),
    decreases n,
{
    if n < 10 {
        let mut v: Vec<char> = Vec::new();
        v.push(((n + 48) as u8) as char);
        proof {
            assert(v@ =~= decimal(n as nat));
        }
        v
    } else {
        let mut v = decimal_chars(n / 10);
        v.push((((n % 10) + 48) as u8) as char);
        v
    }
}

/// `digits` padded on the left with zeros to at least `width` characters.
pub fn pad_zeros(digits: &Vec<char>, width: usize) -> (v: Vec<char>)
    ensures
        v@ == zero_padded(digits@, width as nat),
{
    let mut v: Vec<char> = Vec::new();
    if digits.len() < width {
        let fill = width - digits.len();
        for i in 0..fill
            invariant
                v@ == Seq::new(i as nat, |k: int| '0'),
        {
            v.push('0');
            assert(v@ =~= Seq::new((i + 1) as nat, |k: int| '0'));
        }
    }
    let start = v.len();
    for i in 0..digits.len()
        invariant
            start == v@.len() - i,
            v@ == v@.take(start as int) + digits@.take(i as int),
            forall|k: int| 0 <= k < start ==> v@[k] == '0',
            start == (if digits@.len() < width { width - digits@.len() } else { 0 }),
    {
        v.push(digits[i]);
        assert(v@ =~= v@.take(start as int) + digits@.take(i + 1));
    }
    assert(digits@.take(digits@.len() as int) =~= digits@);
    assert(v@ =~= zero_padded(digits@, width as nat));
    v
}

} // verus!
