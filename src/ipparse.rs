use vstd::prelude::*;

use crate::text::{
    all_hex, dec_number_ok, dec_value, fields, find_sep, first_sep, hex_value,
    lemma_first_sep_bounds, parse_dec, parse_hex_group,
};

verus! {

pub const DOT: u8 = 46;

pub const COLON: u8 = 58;

/// One dotted-quad field: a decimal number up to 255 without a leading zero.
pub open spec fn octet_ok(s: Seq<u8>, a: int, b: int) -> bool {
    dec_number_ok(s, a, b, 255) && (b - a == 1 || s[a] != 48)
}

/// The four octets written in `s[a..b]` as a dotted quad.
pub open spec fn parse_v4(s: Seq<u8>, a: int, b: int) -> Option<Seq<u8>> {
    let f = fields(s, a, b, DOT);
    if f.len() == 4 && forall|i: int| 0 <= i < 4 ==> octet_ok(s, #[trigger] f[i].0, f[i].1) {
        Some(Seq::new(4, |i: int| dec_value(s, f[i].0, f[i].1) as u8))
    } else {
        None
    }
}

/// One group of an IPv6 address: one to four hexadecimal digits.
pub open spec fn group_ok(s: Seq<u8>, a: int, b: int) -> bool {
    a < b && b - a <= 4 && all_hex(s, a, b)
}

/// `s[a..b]` is empty or a `:`-separated list of groups. Where `tail`
/// holds, the last field may instead be a dotted quad.
#[verifier::opaque]
pub open spec fn groups_ok(s: Seq<u8>, a: int, b: int, tail: bool) -> bool {
    a == b || {
        let f = fields(s, a, b, COLON);
        &&& forall|i: int| 0 <= i < f.len() - 1 ==> group_ok(s, #[trigger] f[i].0, f[i].1)
        &&& (group_ok(s, f.last().0, f.last().1) || (tail && parse_v4(
            s,
            f.last().0,
            f.last().1,
        ) is Some))
    }
}

/// The words of the last field `s[a..b]` of a group list: one group, or a
/// dotted quad that stands for two.
pub open spec fn tail_words(s: Seq<u8>, a: int, b: int) -> Seq<u16> {
    if group_ok(s, a, b) {
        seq![hex_value(s, a, b) as u16]
    } else {
        match parse_v4(s, a, b) {
            Some(o) => seq![(o[0] * 256 + o[1]) as u16, (o[2] * 256 + o[3]) as u16],
            None => Seq::empty(),
        }
    }
}

/// The words of the groups in `s[a..b]`.
#[verifier::opaque]
pub open spec fn group_values(s: Seq<u8>, a: int, b: int) -> Seq<u16> {
    if a == b {
        Seq::empty()
    } else {
        let f = fields(s, a, b, COLON);
        Seq::new((f.len() - 1) as nat, |i: int| hex_value(s, f[i].0, f[i].1) as u16) + tail_words(
            s,
            f.last().0,
            f.last().1,
        )
    }
}

/// The index of the first `::` in `s[a..b]`, or `b`.
pub open spec fn double_colon(s: Seq<u8>, a: int, b: int) -> int
    decreases b - a,
{
    if a + 1 >= b {
        b
    } else if s[a] == COLON && s[a + 1] == COLON {
        a
    } else {
        double_colon(s, a + 1, b)
    }
}

/// The eight 16-bit words written in `s[a..b]`: colon-separated groups,
/// where one `::` may stand for one or more zero groups, and the last two
/// groups of the address may be written as a dotted quad.
pub open spec fn parse_v6(s: Seq<u8>, a: int, b: int) -> Option<Seq<u16>> {
    let d = double_colon(s, a, b);
    if d < b {
        let l = group_values(s, a, d);
        let r = group_values(s, d + 2, b);
        if groups_ok(s, a, d, false) && groups_ok(s, d + 2, b, true) && l.len() + r.len() <= 7 {
            Some(l + Seq::new((8 - l.len() - r.len()) as nat, |i: int| 0u16) + r)
        } else {
            None
        }
    } else if a < b && groups_ok(s, a, b, true) && group_values(s, a, b).len() == 8 {
        Some(group_values(s, a, b))
    } else {
        None
    }
}

/// The sixteen octets of eight words, most significant byte first.
pub open spec fn words_to_octets(w: Seq<u16>) -> Seq<u8> {
    Seq::new(
        16,
        |i: int|
            if i % 2 == 0 {
                (w[i / 2] / 256) as u8
            } else {
                (w[i / 2] % 256) as u8
            },
    )
}

proof fn lemma_fields_step(s: Seq<u8>, pos: int, end: int, sep: u8)
    requires
        0 <= pos <= end,
    ensures
        first_sep(s, pos, end, sep) < end ==> fields(s, pos, end, sep) == seq![
            (pos, first_sep(s, pos, end, sep)),
        ] + fields(s, first_sep(s, pos, end, sep) + 1, end, sep),
        first_sep(s, pos, end, sep) >= end ==> fields(s, pos, end, sep) == seq![(pos, end)],
        fields(s, pos, end, sep).len() >= 1,
{
    lemma_first_sep_bounds(s, pos, end, sep);
}

/// Reads the dotted quad `s[a..b]`.
pub fn parse_ipv4(s: &[u8], a: usize, b: usize) -> (r: Option<[u8; 4]>)
    requires
        a <= b <= s@.len(),
    ensures
        match r {
            Some(o) => parse_v4(s@, a as int, b as int) == Some(o@),
            None => parse_v4(s@, a as int, b as int) is None,
        },
{
    let ghost f = fields(s@, a as int, b as int, DOT);
    let ghost mut done: Seq<(int, int)> = Seq::empty();
    let mut out: Vec<u8> = Vec::new();
    let mut pos = a;
    loop
        invariant
            a <= pos <= b,
            b <= s@.len(),
            f == fields(s@, a as int, b as int, DOT),
            f == done + fields(s@, pos as int, b as int, DOT),
            out@.len() == done.len(),
            done.len() <= 4,
            forall|i: int| 0 <= i < done.len() ==> octet_ok(s@, #[trigger] done[i].0, done[i].1),
            forall|i: int|
                0 <= i < done.len() ==> out@[i] == dec_value(s@, #[trigger] done[i].0, done[i].1)
                    as u8,
        decreases b - pos,
    {
        let e = find_sep(s, pos, b, DOT);
        proof {
            lemma_fields_step(s@, pos as int, b as int, DOT);
        }
        if out.len() >= 4 {
            proof {
                assert(f.len() > 4);
            }
            return None;
        }
        let v = match parse_dec(s, pos, e, 255) {
            Some(v) => v,
            None => {
                proof {
                    assert(f[done.len() as int] == (pos as int, e as int));
                    assert(!octet_ok(s@, f[done.len() as int].0, f[done.len() as int].1));
                }
                return None;
            },
        };
        if e - pos > 1 && s[pos] == 48 {
            proof {
                assert(f[done.len() as int] == (pos as int, e as int));
                assert(!octet_ok(s@, f[done.len() as int].0, f[done.len() as int].1));
            }
            return None;
        }
        proof {
            assert(v as int == dec_value(s@, pos as int, e as int));
            assert(0 <= v <= 255);
        }
        out.push(v as u8);
        proof {
            done = done.push((pos as int, e as int));
        }
        if e == b {
            proof {
                assert(f =~= done);
            }
            if out.len() != 4 {
                return None;
            }
            let r = [out[0], out[1], out[2], out[3]];
            proof {
                assert(r@ =~= Seq::new(4, |i: int| dec_value(s@, f[i].0, f[i].1) as u8));
            }
            return Some(r);
        }
        proof {
            assert(f =~= done + fields(s@, e as int + 1, b as int, DOT));
        }
        pos = e + 1;
    }
}

/// Reads the groups of `s[a..b]`, which is empty or a `:`-separated list;
/// where `tail` holds, its last field may be a dotted quad.
pub fn parse_groups(s: &[u8], a: usize, b: usize, tail: bool) -> (r: Option<Vec<u16>>)
    requires
        a <= b <= s@.len(),
    ensures
        match r {
            Some(v) => groups_ok(s@, a as int, b as int, tail) && v@ == group_values(
                s@,
                a as int,
                b as int,
            ),
            None => !groups_ok(s@, a as int, b as int, tail),
        },
{
    proof {
        reveal(groups_ok);
        reveal(group_values);
    }
    let mut out: Vec<u16> = Vec::new();
    if a == b {
        proof {
            assert(out@ =~= group_values(s@, a as int, b as int));
        }
        return Some(out);
    }
    let ghost f = fields(s@, a as int, b as int, COLON);
    let ghost mut done: Seq<(int, int)> = Seq::empty();
    let mut pos = a;
    loop
        invariant
            a < b,
            a <= pos <= b,
            b <= s@.len(),
            f == fields(s@, a as int, b as int, COLON),
            f == done + fields(s@, pos as int, b as int, COLON),
            out@.len() == done.len(),
            forall|i: int| 0 <= i < done.len() ==> group_ok(s@, #[trigger] done[i].0, done[i].1),
            forall|i: int|
                0 <= i < done.len() ==> out@[i] == hex_value(s@, #[trigger] done[i].0, done[i].1)
                    as u16,
        decreases b - pos,
    {
        let e = find_sep(s, pos, b, COLON);
        proof {
            reveal(groups_ok);
            reveal(group_values);
            lemma_fields_step(s@, pos as int, b as int, COLON);
        }
        if e == b {
            // the last field
            let ghost k = done.len() as int;
            proof {
                assert(f =~= done.push((pos as int, b as int)));
                assert(f.last() == (pos as int, b as int));
                assert(f.len() - 1 == k);
            }
            let ghost head = out@;
            match parse_hex_group(s, pos, e) {
                Some(v) => {
                    out.push(v);
                },
                None => {
                    if !tail {
                        proof {
                            assert(!group_ok(s@, f.last().0, f.last().1));
                            assert(a != b);
                            assert(!groups_ok(s@, a as int, b as int, tail));
                        }
                        return None;
                    }
                    match parse_ipv4(s, pos, e) {
                        Some(o) => {
                            out.push((o[0] as u16) * 256 + o[1] as u16);
                            out.push((o[2] as u16) * 256 + o[3] as u16);
                        },
                        None => {
                            proof {
                                assert(!group_ok(s@, f.last().0, f.last().1));
                                assert(parse_v4(s@, f.last().0, f.last().1) is None);
                                assert(!groups_ok(s@, a as int, b as int, tail));
                            }
                            return None;
                        },
                    }
                },
            }
            proof {
                assert(head =~= Seq::new(
                    (f.len() - 1) as nat,
                    |i: int| hex_value(s@, f[i].0, f[i].1) as u16,
                ));
                assert(out@ =~= head + tail_words(s@, pos as int, b as int));
                assert(out@ =~= group_values(s@, a as int, b as int));
            }
            return Some(out);
        }
        let v = match parse_hex_group(s, pos, e) {
            Some(v) => v,
            None => {
                proof {
                    let k = done.len() as int;
                    assert(f[k] == (pos as int, e as int));
                    assert(f.len() > k + 1);
                    assert(!group_ok(s@, f[k].0, f[k].1));
                }
                return None;
            },
        };
        out.push(v);
        proof {
            done = done.push((pos as int, e as int));
            assert(f =~= done + fields(s@, e as int + 1, b as int, COLON));
        }
        pos = e + 1;
    }
}

/// Finds the first `::` in `s[a..b]`.
fn find_double_colon(s: &[u8], a: usize, b: usize) -> (r: usize)
    requires
        a <= b <= s@.len(),
    ensures
        r == double_colon(s@, a as int, b as int),
        a <= r <= b,
        r < b ==> r + 2 <= b,
{
    let mut i = a;
    while i < b
        invariant
            a <= i <= b,
            b <= s@.len(),
            double_colon(s@, i as int, b as int) == double_colon(s@, a as int, b as int),
        decreases b - i,
    {
        if i + 1 < b && s[i] == COLON && s[i + 1] == COLON {
            return i;
        }
        i = i + 1;
    }
    b
}

/// Reads the IPv6 address `s[a..b]` into its sixteen octets.
pub fn parse_ipv6(s: &[u8], a: usize, b: usize) -> (r: Option<[u8; 16]>)
    requires
        a <= b <= s@.len(),
    ensures
        match r {
            Some(o) => parse_v6(s@, a as int, b as int) matches Some(w) && o@ == words_to_octets(
                w,
            ),
            None => parse_v6(s@, a as int, b as int) is None,
        },
{
    let d = find_double_colon(s, a, b);
    let mut words: Vec<u16> = Vec::new();
    if d < b {
        let l = match parse_groups(s, a, d, false) {
            Some(l) => l,
            None => return None,
        };
        let r = match parse_groups(s, d + 2, b, true) {
            Some(r) => r,
            None => return None,
        };
        if l.len() > 7 || r.len() > 7 - l.len() {
            return None;
        }
        let zeros = 8 - l.len() - r.len();
        let mut i: usize = 0;
        while i < l.len()
            invariant
                i <= l@.len(),
                words@ =~= l@.take(i as int),
            decreases l@.len() - i,
        {
            words.push(l[i]);
            i = i + 1;
        }
        let mut i: usize = 0;
        while i < zeros
            invariant
                i <= zeros,
                words@ =~= l@ + Seq::new(i as nat, |j: int| 0u16),
            decreases zeros - i,
        {
            words.push(0);
            i = i + 1;
        }
        let mut i: usize = 0;
        while i < r.len()
            invariant
                i <= r@.len(),
                words@ =~= l@ + Seq::new(zeros as nat, |j: int| 0u16) + r@.take(i as int),
            decreases r@.len() - i,
        {
            words.push(r[i]);
            i = i + 1;
        }
        proof {
            assert(r@.take(r@.len() as int) =~= r@);
        }
    } else {
        if a == b {
            return None;
        }
        words = match parse_groups(s, a, b, true) {
            Some(w) => w,
            None => return None,
        };
        if words.len() != 8 {
            return None;
        }
    }
    let ghost w = words@;
    assert(w.len() == 8);
    let o = [
        (words[0] / 256) as u8,
        (words[0] % 256) as u8,
        (words[1] / 256) as u8,
        (words[1] % 256) as u8,
        (words[2] / 256) as u8,
        (words[2] % 256) as u8,
        (words[3] / 256) as u8,
        (words[3] % 256) as u8,
        (words[4] / 256) as u8,
        (words[4] % 256) as u8,
        (words[5] / 256) as u8,
        (words[5] % 256) as u8,
        (words[6] / 256) as u8,
        (words[6] % 256) as u8,
        (words[7] / 256) as u8,
        (words[7] % 256) as u8,
    ];
    proof {
        assert(o@ =~= words_to_octets(w));
    }
    Some(o)
}

} // verus!
