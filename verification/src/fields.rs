//! Formatting of the metadata fields of a detailed listing line: the
//! type/permission column, the human-readable size, the owner column and
//! the timestamp.

use vstd::arithmetic::div_mod::{
    lemma_div_by_multiple, lemma_div_is_ordered, lemma_fundamental_div_mod,
};
use vstd::prelude::*;

use crate::digits::{dec_digits, dec_signed, format_i64, format_u64, lemma_dec_digits_len};
use crate::style::{with_style, Style};

verus! {

/// `k` space characters.
pub open spec fn spaces(k: nat) -> Seq<u8> {
    Seq::new(k, |i: int| ' ' as u8)
}

/// Append `k` spaces to a byte vector.
pub fn push_spaces(v: &mut Vec<u8>, k: usize)
    ensures
        final(v)@ == old(v)@ + spaces(k as nat),
{
    let mut i: usize = 0;
    while i < k
        invariant
            i <= k,
            v@ == old(v)@ + spaces(i as nat),
        decreases k - i,
    {
        v.push(' ' as u8);
        proof {
            assert(v@ =~= old(v)@ + spaces((i + 1) as nat));
        }
        i = i + 1;
    }
}

/// Append `(style, byte)` pairs for a run of bytes under one style.
pub fn push_run(pairs: &mut Vec<(Style, u8)>, s: Style, bytes: &[u8])
    ensures
        final(pairs)@ == old(pairs)@ + with_style(s, bytes@),
{
    let n = bytes.len();
    let mut i: usize = 0;
    while i < n
        invariant
            i <= n,
            n == bytes@.len(),
            pairs@ == old(pairs)@ + with_style(s, bytes@.subrange(0, i as int)),
        decreases n - i,
    {
        pairs.push((s, bytes[i]));
        proof {
            assert(pairs@ =~= old(pairs)@ + with_style(s, bytes@.subrange(0, i + 1 as int)));
        }
        i = i + 1;
    }
    proof {
        assert(bytes@.subrange(0, n as int) =~= bytes@);
    }
}

/// File-type bits of a mode mask.
pub open spec fn file_type_bits(mode: u32) -> u32 {
    mode & 0xF000
}

/// Whether the mode names a directory.
pub open spec fn is_dir_mode(mode: u32) -> bool {
    file_type_bits(mode) == 0x4000u32
}

/// The type character of the permission column and its style: `d` in bold
/// blue for a directory, `l` in cyan for a symbolic link, `.` in white for
/// anything else.
pub open spec fn type_item(mode: u32) -> (Style, u8) {
    if file_type_bits(mode) == 0x4000u32 {
        (Style::BlueBold, 'd' as u8)
    } else if file_type_bits(mode) == 0xA000u32 {
        (Style::Cyan, 'l' as u8)
    } else {
        (Style::White, '.' as u8)
    }
}

/// One permission character: the given letter in the given style when the
/// bit is set, else a gray `-`.
pub open spec fn perm_item(mode: u32, bit: u32, set_style: Style, letter: u8) -> (Style, u8) {
    if mode & bit != 0 {
        (set_style, letter)
    } else {
        (Style::Gray, '-' as u8)
    }
}

/// The ten styled characters of the type+permission column, followed by
/// its separator space (which keeps the style of the last character):
/// type, then owner r/w/x in bold yellow/red/green, then group and other
/// r/w/x in plain yellow/red/green; unset bits are gray dashes.
pub open spec fn perm_items(mode: u32) -> Seq<(Style, u8)> {
    seq![
        type_item(mode),
        perm_item(mode, 256, Style::YellowBold, 'r' as u8),
        perm_item(mode, 128, Style::RedBold, 'w' as u8),
        perm_item(mode, 64, Style::GreenBold, 'x' as u8),
        perm_item(mode, 32, Style::Yellow, 'r' as u8),
        perm_item(mode, 16, Style::Red, 'w' as u8),
        perm_item(mode, 8, Style::Green, 'x' as u8),
        perm_item(mode, 4, Style::Yellow, 'r' as u8),
        perm_item(mode, 2, Style::Red, 'w' as u8),
        perm_item(mode, 1, Style::Green, 'x' as u8),
    ]
}

/// The type character of the permission column, as a value.
fn type_pair(mode: u32) -> (r: (Style, u8))
    ensures
        r == type_item(mode),
{
    let tb = mode & 0xF000;
    if tb == 0x4000 {
        (Style::BlueBold, 'd' as u8)
    } else if tb == 0xA000 {
        (Style::Cyan, 'l' as u8)
    } else {
        (Style::White, '.' as u8)
    }
}

/// One permission character, as a value.
fn perm_pair(mode: u32, bit: u32, set_style: Style, letter: u8) -> (r: (Style, u8))
    ensures
        r == perm_item(mode, bit, set_style, letter),
{
    if mode & bit != 0 {
        (set_style, letter)
    } else {
        (Style::Gray, '-' as u8)
    }
}

/// Append the pairs of the type+permission column for `mode`.
pub fn push_perm_pairs(pairs: &mut Vec<(Style, u8)>, mode: u32)
    ensures
        final(pairs)@ == old(pairs)@ + perm_items(mode),
{
    pairs.push(type_pair(mode));
    pairs.push(perm_pair(mode, 256, Style::YellowBold, 'r' as u8));
    pairs.push(perm_pair(mode, 128, Style::RedBold, 'w' as u8));
    pairs.push(perm_pair(mode, 64, Style::GreenBold, 'x' as u8));
    pairs.push(perm_pair(mode, 32, Style::Yellow, 'r' as u8));
    pairs.push(perm_pair(mode, 16, Style::Red, 'w' as u8));
    pairs.push(perm_pair(mode, 8, Style::Green, 'x' as u8));
    pairs.push(perm_pair(mode, 4, Style::Yellow, 'r' as u8));
    pairs.push(perm_pair(mode, 2, Style::Red, 'w' as u8));
    pairs.push(perm_pair(mode, 1, Style::Green, 'x' as u8));
    proof {
        assert(pairs@ =~= old(pairs)@ + perm_items(mode));
    }
}

/// The type+permission column is a pure function of the mode bits: always
/// ten characters, the type character (`d` bold blue for a directory, `l`
/// cyan for a symbolic link, `.` white otherwise) followed by the nine
/// permission bits in owner/group/other r-w-x order, each rendering its
/// letter in its documented color when set (owner bits bold) and a gray
/// `-` when clear.
pub proof fn lemma_perm_column_pure(mode: u32)
    ensures
        perm_items(mode).len() == 10,
        perm_items(mode)[0] == if mode & 0xF000 == 0x4000u32 {
            (Style::BlueBold, 'd' as u8)
        } else if mode & 0xF000 == 0xA000u32 {
            (Style::Cyan, 'l' as u8)
        } else {
            (Style::White, '.' as u8)
        },
        perm_items(mode)[1] == if mode & 256 != 0 {
            (Style::YellowBold, 'r' as u8)
        } else {
            (Style::Gray, '-' as u8)
        },
        perm_items(mode)[2] == if mode & 128 != 0 {
            (Style::RedBold, 'w' as u8)
        } else {
            (Style::Gray, '-' as u8)
        },
        perm_items(mode)[3] == if mode & 64 != 0 {
            (Style::GreenBold, 'x' as u8)
        } else {
            (Style::Gray, '-' as u8)
        },
        perm_items(mode)[4] == if mode & 32 != 0 {
            (Style::Yellow, 'r' as u8)
        } else {
            (Style::Gray, '-' as u8)
        },
        perm_items(mode)[5] == if mode & 16 != 0 {
            (Style::Red, 'w' as u8)
        } else {
            (Style::Gray, '-' as u8)
        },
        perm_items(mode)[6] == if mode & 8 != 0 {
            (Style::Green, 'x' as u8)
        } else {
            (Style::Gray, '-' as u8)
        },
        perm_items(mode)[7] == if mode & 4 != 0 {
            (Style::Yellow, 'r' as u8)
        } else {
            (Style::Gray, '-' as u8)
        },
        perm_items(mode)[8] == if mode & 2 != 0 {
            (Style::Red, 'w' as u8)
        } else {
            (Style::Gray, '-' as u8)
        },
        perm_items(mode)[9] == if mode & 1 != 0 {
            (Style::Green, 'x' as u8)
        } else {
            (Style::Gray, '-' as u8)
        },
{
}

/// Ten times the size divided by `div`, rounded to the nearest integer
/// (half rounds up), in exact integer arithmetic.
pub open spec fn scaled_tenths(size: nat, div: nat) -> nat
    recommends
        div > 0,
{
    (10 * size + div / 2) / div
}

/// A unit-scaled size field: `D.D`, ` DD` or `DDD` (by magnitude of the
/// quotient), then the unit letter.
pub open spec fn scaled_field(size: nat, div: nat, suffix: u8) -> Seq<u8> {
    let d = dec_digits(scaled_tenths(size, div));
    if size < 10 * div {
        seq![d[0], '.' as u8, d[1], suffix]
    } else if size < 100 * div {
        seq![' ' as u8, d[0], d[1], suffix]
    } else {
        seq![d[0], d[1], d[2], suffix]
    }
}

/// The size column: four spaces for a directory; `G`/`M`/`K` scaled fields
/// above 2^30, 1,000,000 and 1,000 bytes respectively (binary divisors,
/// partly decimal cutoffs, as the source tool has them); otherwise the
/// byte count right-justified in four characters.
pub open spec fn size_field(size: u64, dir: bool) -> Seq<u8> {
    if dir {
        spaces(4)
    } else if size > 0x40000000 {
        scaled_field(size as nat, 0x40000000, 'G' as u8)
    } else if size > 1000000 {
        scaled_field(size as nat, 0x100000, 'M' as u8)
    } else if size > 1000 {
        scaled_field(size as nat, 1024, 'K' as u8)
    } else {
        spaces((4 - dec_digits(size as nat).len()) as nat) + dec_digits(size as nat)
    }
}

/// Append a unit-scaled size field.
fn push_scaled(v: &mut Vec<u8>, size: u64, div: u64, suffix: u8)
    requires
        10 * size + div / 2 >= 10 * div,
        div == 0x40000000 || div == 0x100000 || div == 1024,
    ensures
        final(v)@ == old(v)@ + scaled_field(size as nat, div as nat, suffix),
{
    let t128: u128 = (10 * (size as u128) + ((div / 2) as u128)) / (div as u128);
    proof {
        let s = size as int;
        let d = div as int;
        let top = 10 * s + d / 2;
        lemma_fundamental_div_mod(top, d);
        assert(top / d < 0x10000000000000000) by (nonlinear_arith)
            requires
                top == d * (top / d) + top % d,
                0 <= top % d < d,
                top < 0x10000000000000000 * d,
                d >= 1024,
        ;
        lemma_div_is_ordered(10 * d, top, d);
        lemma_div_by_multiple(10, d);
        assert(top / d >= 10);
    }
    let t = t128 as u64;
    let d = format_u64(t);
    proof {
        lemma_dec_digits_len(t as nat);
    }
    let ghost pre = v@;
    if size < 10 * div {
        v.push(d[0]);
        v.push('.' as u8);
        v.push(d[1]);
    } else if size < 100 * div {
        proof {
            lemma_div_is_ordered(100 * (div as int), 10 * (size as int) + (div as int) / 2, div as int);
            lemma_div_by_multiple(100, div as int);
        }
        v.push(' ' as u8);
        v.push(d[0]);
        v.push(d[1]);
    } else {
        proof {
            lemma_div_is_ordered(1000 * (div as int), 10 * (size as int) + (div as int) / 2, div as int);
            lemma_div_by_multiple(1000, div as int);
        }
        v.push(d[0]);
        v.push(d[1]);
        v.push(d[2]);
    }
    v.push(suffix);
    proof {
        assert(v@ =~= pre + scaled_field(size as nat, div as nat, suffix));
    }
}

/// The size column as bytes.
pub fn size_field_bytes(size: u64, dir: bool) -> (r: Vec<u8>)
    ensures
        r@ == size_field(size, dir),
{
    let mut v: Vec<u8> = Vec::new();
    if dir {
        push_spaces(&mut v, 4);
        proof {
            assert(v@ =~= size_field(size, dir));
        }
    } else if size > 0x40000000 {
        push_scaled(&mut v, size, 0x40000000, 'G' as u8);
        proof {
            assert(v@ =~= size_field(size, dir));
        }
    } else if size > 1000000 {
        push_scaled(&mut v, size, 0x100000, 'M' as u8);
        proof {
            assert(v@ =~= size_field(size, dir));
        }
    } else if size > 1000 {
        push_scaled(&mut v, size, 1024, 'K' as u8);
        proof {
            assert(v@ =~= size_field(size, dir));
        }
    } else {
        let digits = format_u64(size);
        proof {
            lemma_dec_digits_len(size as nat);
        }
        push_spaces(&mut v, 4 - digits.len());
        let mut digits = digits;
        v.append(&mut digits);
        proof {
            assert(v@ =~= size_field(size, dir));
        }
    }
    v
}

/// Local calendar fields of a timestamp, as a clock collaborator reports
/// them: `year` counts from 1900 (like `tm_year`), `month` from 0.
pub struct LocalTime {
    pub year: i32,
    pub month: u32,
    pub day: i32,
    pub hour: i32,
    pub minute: i32,
}

/// Three-letter month abbreviation for month numbers 0 through 11; any
/// other month renders as `???`.
pub open spec fn month_name(month: u32) -> Seq<u8> {
    if month == 0 {
        seq!['J' as u8, 'a' as u8, 'n' as u8]
    } else if month == 1 {
        seq!['F' as u8, 'e' as u8, 'b' as u8]
    } else if month == 2 {
        seq!['M' as u8, 'a' as u8, 'r' as u8]
    } else if month == 3 {
        seq!['A' as u8, 'p' as u8, 'r' as u8]
    } else if month == 4 {
        seq!['M' as u8, 'a' as u8, 'y' as u8]
    } else if month == 5 {
        seq!['J' as u8, 'u' as u8, 'n' as u8]
    } else if month == 6 {
        seq!['J' as u8, 'u' as u8, 'l' as u8]
    } else if month == 7 {
        seq!['A' as u8, 'u' as u8, 'g' as u8]
    } else if month == 8 {
        seq!['S' as u8, 'e' as u8, 'p' as u8]
    } else if month == 9 {
        seq!['O' as u8, 'c' as u8, 't' as u8]
    } else if month == 10 {
        seq!['N' as u8, 'o' as u8, 'v' as u8]
    } else if month == 11 {
        seq!['D' as u8, 'e' as u8, 'c' as u8]
    } else {
        seq!['?' as u8, '?' as u8, '?' as u8]
    }
}

/// Abbreviated month name used in the timestamp field.
pub fn month_abbr(month: u32) -> (r: [u8; 3])
    ensures
        r@ == month_name(month),
{
    let r: [u8; 3] = if month == 0 {
        ['J' as u8, 'a' as u8, 'n' as u8]
    } else if month == 1 {
        ['F' as u8, 'e' as u8, 'b' as u8]
    } else if month == 2 {
        ['M' as u8, 'a' as u8, 'r' as u8]
    } else if month == 3 {
        ['A' as u8, 'p' as u8, 'r' as u8]
    } else if month == 4 {
        ['M' as u8, 'a' as u8, 'y' as u8]
    } else if month == 5 {
        ['J' as u8, 'u' as u8, 'n' as u8]
    } else if month == 6 {
        ['J' as u8, 'u' as u8, 'l' as u8]
    } else if month == 7 {
        ['A' as u8, 'u' as u8, 'g' as u8]
    } else if month == 8 {
        ['S' as u8, 'e' as u8, 'p' as u8]
    } else if month == 9 {
        ['O' as u8, 'c' as u8, 't' as u8]
    } else if month == 10 {
        ['N' as u8, 'o' as u8, 'v' as u8]
    } else if month == 11 {
        ['D' as u8, 'e' as u8, 'c' as u8]
    } else {
        ['?' as u8, '?' as u8, '?' as u8]
    };
    proof {
        assert(r@ =~= month_name(month));
    }
    r
}

/// A number space-padded on the left to at least two characters.
pub open spec fn two_wide(n: int) -> Seq<u8> {
    let d = dec_signed(n);
    if d.len() < 2 {
        seq![' ' as u8] + d
    } else {
        d
    }
}

/// The timestamp column: month abbreviation, space, two-wide day, space,
/// then `HH:MM` (hour space-padded, minute zero-padded) when the entry's
/// year is the current year, else a space and the four-digit year.
pub open spec fn time_field(t: LocalTime, current_year: i32) -> Seq<u8> {
    let head = month_name(t.month) + seq![' ' as u8] + two_wide(t.day as int) + seq![' ' as u8];
    if t.year == current_year {
        let m = dec_signed(t.minute as int);
        let minute_part = if m.len() < 2 {
            seq!['0' as u8] + m
        } else {
            m
        };
        head + two_wide(t.hour as int) + seq![':' as u8] + minute_part
    } else {
        head + seq![' ' as u8] + dec_signed(t.year + 1900)
    }
}

/// The timestamp column as bytes.
pub fn time_field_bytes(t: &LocalTime, current_year: i32) -> (r: Vec<u8>)
    requires
        t.year != current_year ==> t.year <= i32::MAX - 1900,
    ensures
        r@ == time_field(*t, current_year),
{
    let mut v: Vec<u8> = Vec::new();
    let month = month_abbr(t.month);
    v.push(month[0]);
    v.push(month[1]);
    v.push(month[2]);
    v.push(' ' as u8);
    let mut day = format_i64(t.day as i64);
    if day.len() < 2 {
        v.push(' ' as u8);
    }
    v.append(&mut day);
    v.push(' ' as u8);
    if t.year == current_year {
        let mut hour = format_i64(t.hour as i64);
        if hour.len() < 2 {
            v.push(' ' as u8);
        }
        v.append(&mut hour);
        v.push(':' as u8);
        let mut minute = format_i64(t.minute as i64);
        if minute.len() < 2 {
            v.push('0' as u8);
        }
        v.append(&mut minute);
    } else {
        v.push(' ' as u8);
        let mut year = format_i64((t.year + 1900) as i64);
        v.append(&mut year);
    }
    proof {
        assert(v@ =~= time_field(*t, current_year));
    }
    v
}

} // verus!
