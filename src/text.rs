use vstd::prelude::*;

verus! {

/// The index of the first `sep` in `s[from..end]`, or `end` where there is none.
pub open spec fn first_sep(s: Seq<u8>, from: int, end: int, sep: u8) -> int
    decreases end - from,
{
    if from >= end {
        end
    } else if s[from] == sep {
        from
    } else {
        first_sep(s, from + 1, end, sep)
    }
}

/// The ranges of the `sep`-separated fields of `s[from..end]`, in order.
/// There is always at least one field; fields may be empty.
pub open spec fn fields(s: Seq<u8>, from: int, end: int, sep: u8) -> Seq<(int, int)>
    decreases end - from + 1,
{
    let e = first_sep(s, from, end, sep);
    if from > end || e >= end || e < from {
        seq![(from, end)]
    } else {
        seq![(from, e)] + fields(s, e + 1, end, sep)
    }
}

pub proof fn lemma_first_sep_bounds(s: Seq<u8>, from: int, end: int, sep: u8)
    requires
        from <= end,
    ensures
        from <= first_sep(s, from, end, sep) <= end,
        first_sep(s, from, end, sep) < end ==> s[first_sep(s, from, end, sep)] == sep,
        forall|i: int| from <= i < first_sep(s, from, end, sep) ==> s[i] != sep,
    decreases end - from,
{
    if from < end && s[from] != sep {
        lemma_first_sep_bounds(s, from + 1, end, sep);
    }
}

/// Finds the first `sep` in `s[from..end]`.
pub fn find_sep(s: &[u8], from: usize, end: usize, sep: u8) -> (r: usize)
    requires
        from <= end <= s@.len(),
    ensures
        r == first_sep(s@, from as int, end as int, sep),
        from <= r <= end,
{
    let mut i = from;
    proof {
        lemma_first_sep_bounds(s@, from as int, end as int, sep);
    }
    while i < end
        invariant
            from <= i <= end,
            end <= s@.len(),
            first_sep(s@, i as int, end as int, sep) == first_sep(
                s@,
                from as int,
                end as int,
                sep,
            ),
        decreases end - i,
    {
        if s[i] == sep {
            return i;
        }
        i = i + 1;
    }
    i
}

pub open spec fn is_digit(b: u8) -> bool {
    48 <= b <= 57
}

pub open spec fn hex_digit_value(b: u8) -> int {
    if 48 <= b <= 57 {
        b - 48
    } else if 97 <= b <= 102 {
        b - 87
    } else if 65 <= b <= 70 {
        b - 55
    } else {
        -1
    }
}

/// The value of the decimal digits `s[a..b]`.
pub open spec fn dec_value(s: Seq<u8>, a: int, b: int) -> int
    decreases b - a,
{
    if b <= a {
        0
    } else {
        dec_value(s, a, b - 1) * 10 + (s[b - 1] - 48)
    }
}

/// The value of the hexadecimal digits `s[a..b]`.
pub open spec fn hex_value(s: Seq<u8>, a: int, b: int) -> int
    decreases b - a,
{
    if b <= a {
        0
    } else {
        hex_value(s, a, b - 1) * 16 + hex_digit_value(s[b - 1])
    }
}

pub open spec fn all_digits(s: Seq<u8>, a: int, b: int) -> bool {
    forall|i: int| a <= i < b ==> is_digit(#[trigger] s[i])
}

pub open spec fn all_hex(s: Seq<u8>, a: int, b: int) -> bool {
    forall|i: int| a <= i < b ==> hex_digit_value(#[trigger] s[i]) >= 0
}

/// A decimal number of at least one digit, up to `limit`.
pub open spec fn dec_number_ok(s: Seq<u8>, a: int, b: int, limit: int) -> bool {
    a < b && all_digits(s, a, b) && dec_value(s, a, b) <= limit
}

pub proof fn lemma_dec_nonneg(s: Seq<u8>, a: int, b: int)
    requires
        all_digits(s, a, b),
    ensures
        dec_value(s, a, b) >= 0,
    decreases b - a,
{
    if a < b {
        lemma_dec_nonneg(s, a, b - 1);
    }
}

/// Reads the decimal number `s[a..b]` if it has at least one digit and is
/// at most `limit`.
pub fn parse_dec(s: &[u8], a: usize, b: usize, limit: u32) -> (r: Option<u32>)
    requires
        a <= b <= s@.len(),
    ensures
        r == (if dec_number_ok(s@, a as int, b as int, limit as int) {
            Some(dec_value(s@, a as int, b as int) as u32)
        } else {
            None::<u32>
        }),
        r matches Some(v) ==> v as int == dec_value(s@, a as int, b as int),
{
    if a == b {
        return None;
    }
    // `v` holds the value read so far, clamped above every `u32`.
    let ceiling: u64 = 10_000_000_000;
    let mut v: u64 = 0;
    let mut i = a;
    while i < b
        invariant
            a <= i <= b,
            b <= s@.len(),
            ceiling == 10_000_000_000,
            all_digits(s@, a as int, i as int),
            v == if dec_value(s@, a as int, i as int) > ceiling {
                ceiling as int
            } else {
                dec_value(s@, a as int, i as int)
            },
        decreases b - i,
    {
        let c = s[i];
        if c < 48 || c > 57 {
            return None;
        }
        proof {
            lemma_dec_nonneg(s@, a as int, i as int);
        }
        let d = (c - 48) as u64;
        v = if v > 1_000_000_000 {
            ceiling
        } else {
            let w = v * 10 + d;
            if w > ceiling {
                ceiling
            } else {
                w
            }
        };
        i = i + 1;
    }
    proof {
        lemma_dec_nonneg(s@, a as int, b as int);
    }
    if v > limit as u64 {
        None
    } else {
        Some(v as u32)
    }
}

/// Reads the hexadecimal group `s[a..b]` of one to four digits.
pub fn parse_hex_group(s: &[u8], a: usize, b: usize) -> (r: Option<u16>)
    requires
        a <= b <= s@.len(),
    ensures
        r == (if a < b && b - a <= 4 && all_hex(s@, a as int, b as int) {
            Some(hex_value(s@, a as int, b as int) as u16)
        } else {
            None::<u16>
        }),
{
    if a == b || b - a > 4 {
        return None;
    }
    let mut v: u32 = 0;
    let mut i = a;
    while i < b
        invariant
            a <= i <= b,
            b - a <= 4,
            b <= s@.len(),
            all_hex(s@, a as int, i as int),
            v == hex_value(s@, a as int, i as int),
            v < pow16((i - a) as nat),
        decreases b - i,
    {
        let c = s[i];
        let d: u32 = if 48 <= c && c <= 57 {
            (c - 48) as u32
        } else if 97 <= c && c <= 102 {
            (c - 87) as u32
        } else if 65 <= c && c <= 70 {
            (c - 55) as u32
        } else {
            return None;
        };
        proof {
            assert(pow16((i + 1 - a) as nat) == 16 * pow16((i - a) as nat));
            reveal_with_fuel(pow16, 5);
            assert(pow16(4) == 65536);
        }
        v = v * 16 + d;
        i = i + 1;
    }
    Some(v as u16)
}

pub open spec fn pow16(n: nat) -> int
    decreases n,
{
    if n == 0 {
        1
    } else {
        16 * pow16((n - 1) as nat)
    }
}

} // verus!
