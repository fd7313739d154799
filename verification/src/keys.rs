//! Webhook keys: lowercase hexadecimal numbers. A new key is the hash of the
//! number that the last key in the routes file spells.
use vstd::prelude::*;
use std::collections::hash_map::DefaultHasher;
use std::hash::Hasher;
use vstd::std_specs::hash::DefaultHasherAdditionalSpecFns;
use crate::route::{lemma_lines_after_write, line_body, line_of, route_is_clean, RouteView};
use crate::text::{
    at_line_start, field_sep_at, has_field_sep, lemma_lines_append_line, lemma_split_fields_prefix,
    strip_cr, chars_of, lemma_split_fields_nonempty, lines, push_char, split_fields,
    split_fields_exec, split_lines, views,
};

verus! {

/// The sixteen hexadecimal digits, lowercase.
pub open spec fn hex_chars() -> Seq<char> {
    seq!['0', '1', '2', '3', '4', '5', '6', '7', '8', '9', 'a', 'b', 'c', 'd', 'e', 'f']
}

/// The lowercase hexadecimal numeral of `n`, without leading zeros
/// (`format!("{:x}", n)`).
pub open spec fn hex_digits(n: nat) -> Seq<char>
    decreases n,
{
    if n < 16 {
        seq![hex_chars()[n as int]]
    } else {
        hex_digits(n / 16).push(hex_chars()[(n % 16) as int])
    }
}

/// The value of a hexadecimal digit, in either case.
pub open spec fn hex_digit_value(c: char) -> Option<nat> {
    if '0' <= c && c <= '9' {
        Some((c as nat - '0' as nat) as nat)
    } else if 'a' <= c && c <= 'f' {
        Some((c as nat - 'a' as nat + 10) as nat)
    } else if 'A' <= c && c <= 'F' {
        Some((c as nat - 'A' as nat + 10) as nat)
    } else {
        None
    }
}

/// Whether every character of `s` is a hexadecimal digit.
pub open spec fn all_hex_digits(s: Seq<char>) -> bool {
    forall|i: int| 0 <= i < s.len() ==> #[trigger] hex_digit_value(s[i]) is Some
}

/// The number that a sequence of hexadecimal digits spells.
pub open spec fn digits_value(s: Seq<char>) -> nat
    decreases s.len(),
{
    if s.len() == 0 {
        0
    } else {
        digits_value(s.drop_last()) * 16 + hex_digit_value(s.last())->0
    }
}

/// A numeral without the `'+'` that may lead it.
pub open spec fn unsigned_digits(s: Seq<char>) -> Seq<char> {
    if s.len() > 0 && s[0] == '+' {
        s.drop_first()
    } else {
        s
    }
}

/// What `usize::from_str_radix(s, 16)` accepts: an optional `'+'` and then
/// at least one hexadecimal digit, spelling a number that fits in `usize`.
pub open spec fn parse_hex_usize(s: Seq<char>) -> Option<nat> {
    let d = unsigned_digits(s);
    if d.len() > 0 && all_hex_digits(d) && digits_value(d) <= usize::MAX {
        Some(digits_value(d))
    } else {
        None
    }
}

/// Whether `s` is the lowercase hexadecimal numeral of some `u64`: the shape
/// of every key that [`hash_int`] makes.
pub open spec fn is_hex_key(s: Seq<char>) -> bool {
    exists|h: u64| s == hex_digits(h as nat)
}

/// The number from which the next key is made: 1 for a file without lines,
/// else the number that the first field of the last line spells; `Err(3)`
/// when that field is not a hexadecimal `usize`.
pub open spec fn key_seed(c: Seq<char>) -> Result<usize, u8> {
    let ls = lines(c);
    if ls.len() == 0 {
        Ok(1)
    } else {
        match parse_hex_usize(split_fields(ls.last())[0]) {
            Some(n) => Ok(n as usize),
            None => Err(3),
        }
    }
}

/// The lowest `len` bytes of `n`, least significant first.
pub open spec fn le_bytes(n: nat, len: nat) -> Seq<u8>
    decreases len,
{
    if len == 0 {
        Seq::empty()
    } else {
        seq![(n % 256) as u8] + le_bytes(n / 256, (len - 1) as nat)
    }
}

/// The bytes that a `usize` is hashed as on a little-endian machine: its own
/// width, least significant first.
pub open spec fn usize_bytes(n: usize) -> Seq<u8> {
    le_bytes(n as nat, (usize::BITS / 8) as nat)
}

/// The key made from `val`: the hexadecimal numeral of what a fresh
/// `DefaultHasher` gives after the bytes of `val` are written to it.
pub open spec fn key_of(val: usize) -> Seq<char> {
    hex_digits(DefaultHasher::spec_finish(seq![usize_bytes(val)]) as nat)
}

/// Writes `val` into `hasher` as a `usize` is hashed on a little-endian
/// machine: its bytes, least significant first, in one write.
fn hash_usize(val: usize, hasher: &mut DefaultHasher)
    ensures
        final(hasher)@ == old(hasher)@.push(usize_bytes(val)),
{
    let width: u32 = usize::BITS / 8;
    let mut bytes: Vec<u8> = Vec::new();
    let mut v: usize = val;
    let mut i: u32 = 0;
    while i < width
        invariant
            width == usize::BITS / 8,
            i <= width,
            bytes@ + le_bytes(v as nat, (width - i) as nat) == le_bytes(val as nat, width as nat),
        decreases width - i,
    {
        let b: u8 = (v % 256) as u8;
        let ghost before = bytes@;
        assert(le_bytes(v as nat, (width - i) as nat) == seq![b] + le_bytes(
            (v / 256) as nat,
            (width - i - 1) as nat,
        ));
        bytes.push(b);
        assert(before + (seq![b] + le_bytes((v / 256) as nat, (width - i - 1) as nat)) =~= bytes@
            + le_bytes((v / 256) as nat, (width - i - 1) as nat));
        v = v / 256;
        i += 1;
    }
    assert(le_bytes(v as nat, 0) =~= Seq::<u8>::empty());
    assert(bytes@ =~= usize_bytes(val));
    hasher.write(bytes.as_slice());
}

/// The lowercase hexadecimal numeral of `n` (`format!("{:x}", n)`).
pub fn format_hex(n: u64) -> (s: String)
    ensures
        s@ == hex_digits(n as nat),
    decreases n,
{
    let digits: [char; 16] = [
        '0',
        '1',
        '2',
        '3',
        '4',
        '5',
        '6',
        '7',
        '8',
        '9',
        'a',
        'b',
        'c',
        'd',
        'e',
        'f',
    ];
    assert(digits@ =~= hex_chars());
    if n < 16 {
        let mut s = String::new();
        push_char(&mut s, digits[n as usize]);
        assert(s@ =~= hex_digits(n as nat));
        s
    } else {
        let mut s = format_hex(n / 16);
        push_char(&mut s, digits[(n % 16) as usize]);
        s
    }
}

/// The key made from `val`: the lowercase hexadecimal numeral of the hash
/// that std's `DefaultHasher` gives `val` (see [`key_of`]).
pub fn hash_int(val: usize) -> (s: String)
    ensures
        is_hex_key(s@),
        s@ == key_of(val),
{
    let mut hasher = DefaultHasher::new();
    hash_usize(val, &mut hasher);
    let h = hasher.finish();
    let s = format_hex(h);
    assert(s@ == hex_digits(h as nat));
    s
}

proof fn lemma_digits_value_monotone(s: Seq<char>, k: int)
    requires
        0 <= k <= s.len(),
    ensures
        digits_value(s.take(k)) <= digits_value(s),
    decreases s.len() - k,
{
    if k < s.len() {
        lemma_digits_value_monotone(s, k + 1);
        assert(s.take(k + 1).drop_last() =~= s.take(k));
    } else {
        assert(s.take(k) =~= s);
    }
}

/// The value of a hexadecimal digit, in either case.
fn hex_digit(c: char) -> (r: Option<usize>)
    ensures
        match hex_digit_value(c) {
            Some(v) => r == Some(v as usize),
            None => r is None,
        },
{
    if '0' <= c && c <= '9' {
        Some((c as u32 - '0' as u32) as usize)
    } else if 'a' <= c && c <= 'f' {
        Some((c as u32 - 'a' as u32 + 10) as usize)
    } else if 'A' <= c && c <= 'F' {
        Some((c as u32 - 'A' as u32 + 10) as usize)
    } else {
        None
    }
}

/// `usize::from_str_radix(s, 16)`: the number that `s` spells, or `None`
/// where std returns an error.
pub fn parse_hex(s: &Vec<char>) -> (r: Option<usize>)
    ensures
        match parse_hex_usize(s@) {
            Some(n) => r == Some(n as usize),
            None => r is None,
        },
{
    let mut i: usize = 0;
    if s.len() > 0 && s[0] == '+' {
        i = 1;
    }
    let ghost d = unsigned_digits(s@);
    let start = i;
    assert(d =~= s@.skip(start as int));
    if start == s.len() {
        return None;
    }
    let mut value: usize = 0;
    while i < s.len()
        invariant
            start <= i <= s.len(),
            d == s@.skip(start as int),
            d == unsigned_digits(s@),
            all_hex_digits(d.take(i - start)),
            value == digits_value(d.take(i - start)),
        decreases s.len() - i,
    {
        let c = s[i];
        let ghost k = (i - start) as int;
        assert(d[k] == c);
        assert(d.take(k + 1).drop_last() =~= d.take(k));
        assert(d.take(k + 1).last() == c);
        let dv = match hex_digit(c) {
            Some(dv) => dv,
            None => {
                assert(hex_digit_value(d[k]) is None);
                assert(!all_hex_digits(d));
                return None;
            },
        };
        match value.checked_mul(16) {
            Some(m) => match m.checked_add(dv) {
                Some(v) => {
                    value = v;
                },
                None => {
                    proof {
                        lemma_digits_value_monotone(d, k + 1);
                    }
                    return None;
                },
            },
            None => {
                proof {
                    lemma_digits_value_monotone(d, k + 1);
                }
                return None;
            },
        }
        assert(all_hex_digits(d.take(k + 1))) by {
            assert forall|j: int| 0 <= j < k + 1 implies #[trigger] hex_digit_value(
                d.take(k + 1)[j],
            ) is Some by {
                if j < k {
                    assert(d.take(k + 1)[j] == d.take(k)[j]);
                }
            }
        }
        i += 1;
    }
    assert(d.take((s.len() - start) as int) =~= d);
    Some(value)
}

/// The number from which the next key is made (see [`key_seed`]).
pub fn next_key_seed(contents: &str) -> (r: Result<usize, u8>)
    ensures
        r == key_seed(contents@),
{
    let chars = chars_of(contents);
    let ls = split_lines(&chars);
    if ls.len() == 0 {
        return Ok(1);
    }
    let last = &ls[ls.len() - 1];
    assert(views(ls@)[ls.len() - 1] == last@);
    let fields = split_fields_exec(last);
    proof {
        lemma_split_fields_nonempty(last@);
    }
    assert(views(fields@)[0] == fields@[0]@);
    match parse_hex(&fields[0]) {
        Some(n) => Ok(n),
        None => Err(3),
    }
}

/// The key for a new route, given the contents of the routes file: the key
/// made from [`next_key_seed`], or its error.
pub fn get_next_key(contents: &str) -> (r: Result<String, u8>)
    ensures
        match key_seed(contents@) {
            Ok(_) => r matches Ok(k) && is_hex_key(k@),
            Err(e) => r == Err::<String, u8>(e),
        },
        key_seed(contents@) matches Ok(n) ==> r matches Ok(k) && k@ == key_of(n),
{
    match next_key_seed(contents) {
        Ok(n) => Ok(hash_int(n)),
        Err(e) => Err(e),
    }
}

/// A hexadecimal numeral of `hex_digits` reads back as its number.
pub proof fn lemma_parse_hex_digits(n: nat)
    requires
        n <= usize::MAX,
    ensures
        parse_hex_usize(hex_digits(n)) == Some(n),
{
    lemma_hex_digits_value(n);
}

proof fn lemma_hex_digits_value(n: nat)
    ensures
        all_hex_digits(hex_digits(n)),
        digits_value(hex_digits(n)) == n,
        hex_digits(n).len() > 0,
        hex_digits(n)[0] != '+',
    decreases n,
{
    let t = hex_chars();
    assert(t[0] == '0' && t[1] == '1' && t[2] == '2' && t[3] == '3' && t[4] == '4' && t[5] == '5'
        && t[6] == '6' && t[7] == '7' && t[8] == '8' && t[9] == '9' && t[10] == 'a' && t[11]
        == 'b' && t[12] == 'c' && t[13] == 'd' && t[14] == 'e' && t[15] == 'f');
    assert(forall|d: int|
        0 <= d < 16 ==> #[trigger] hex_digit_value(t[d]) == Some(d as nat) && t[d] != '+');
    if n < 16 {
        let s = hex_digits(n);
        assert(s.drop_last() =~= Seq::<char>::empty());
        assert(digits_value(s.drop_last()) == 0);
    } else {
        lemma_hex_digits_value(n / 16);
        let s = hex_digits(n);
        let p = hex_digits(n / 16);
        assert(s.drop_last() =~= p);
        assert(s.last() == t[(n % 16) as int]);
        assert(hex_digit_value(s.last()) == Some(n % 16));
        assert(digits_value(s) == digits_value(p) * 16 + n % 16);
        assert(n == (n / 16) * 16 + n % 16);
        assert forall|i: int| 0 <= i < s.len() implies #[trigger] hex_digit_value(s[i]) is Some by {
            if i < p.len() {
                assert(s[i] == p[i]);
            }
        }
    }
}

/// A key is not empty, holds neither the field separator nor a line break,
/// and neither starts with a space nor ends with `'\r'`.
pub proof fn lemma_hex_key_clean(s: Seq<char>)
    requires
        is_hex_key(s),
    ensures
        !has_field_sep(s),
        !s.contains('\n'),
        !(s.len() > 0 && s.last() == '\r'),
        s.len() > 0,
        s[0] != ' ',
{
    let h = choose|h: u64| s == hex_digits(h as nat);
    lemma_hex_digits_value(h as nat);
    assert(forall|i: int| 0 <= i < s.len() ==> #[trigger] hex_digit_value(s[i]) is Some);
    if has_field_sep(s) {
        let i = choose|i: int| field_sep_at(s, i);
        assert(hex_digit_value(s[i]) is Some);
    }
    if s.contains('\n') {
        let i = choose|i: int| 0 <= i < s.len() && s[i] == '\n';
        assert(hex_digit_value(s[i]) is Some);
    }
    assert(hex_digit_value(s[s.len() - 1]) is Some);
    assert(hex_digit_value(s[0]) is Some);
}

/// The next key is made from the key of the last route written: after the
/// line of a clean route whose key is the numeral of `h` is written to a
/// routes file at a line start, the next key's seed is `h`.
pub proof fn lemma_seed_after_write(c: Seq<char>, r: RouteView, h: nat)
    requires
        at_line_start(c),
        route_is_clean(r),
        r.key == hex_digits(h),
        h <= usize::MAX,
    ensures
        key_seed(c + line_of(r)) == Ok::<usize, u8>(h as usize),
{
    lemma_lines_after_write(c, r);
    lemma_parse_hex_digits(h);
    lemma_split_fields_nonempty(line_body(r));
}

} // verus!

verus! {

/// The next key is made from the key that starts the last line: after a
/// line that starts with the numeral of `h` and the field separator is
/// written to a text at a line start, the next key's seed is `h`, whatever
/// the rest of the line holds.
pub proof fn lemma_seed_after_keyed_line(c: Seq<char>, rest: Seq<char>, h: nat)
    requires
        at_line_start(c),
        h <= usize::MAX,
        !rest.contains('\n'),
    ensures
        key_seed(c + (hex_digits(h) + seq![',', ' '] + rest).push('\n')) == Ok::<usize, u8>(
            h as usize,
        ),
{
    let k = hex_digits(h);
    let l = k + seq![',', ' '] + rest;
    lemma_hex_key_clean(k);
    lemma_parse_hex_digits(h);
    assert(!l.contains('\n')) by {
        if l.contains('\n') {
            let i = choose|i: int| 0 <= i < l.len() && l[i] == '\n';
            if i < k.len() {
                assert(k[i] == '\n');
            } else if i >= k.len() + 2 {
                assert(rest[i - k.len() - 2] == '\n');
            }
        }
    }
    lemma_lines_append_line(c, l);
    let rest2 = if rest.len() > 0 && rest.last() == '\r' {
        rest.drop_last()
    } else {
        rest
    };
    assert(strip_cr(l) =~= k + seq![',', ' '] + rest2);
    lemma_split_fields_prefix(k, rest2);
    lemma_split_fields_nonempty(rest2);
    assert(lines(c + l.push('\n')).last() == strip_cr(l));
}

/// The next key depends on the last line alone: two routes files that end
/// with the same line make the same next key, whatever comes before it.
pub proof fn lemma_next_key_depends_on_last_line(c1: Seq<char>, c2: Seq<char>, l: Seq<char>)
    requires
        at_line_start(c1),
        at_line_start(c2),
        !l.contains('\n'),
    ensures
        key_seed(c1 + l.push('\n')) == key_seed(c2 + l.push('\n')),
{
    lemma_lines_append_line(c1, l);
    lemma_lines_append_line(c2, l);
}

/// A routes file without lines makes its first key from 1.
pub proof fn lemma_first_key_seed()
    ensures
        key_seed(Seq::<char>::empty()) == Ok::<usize, u8>(1),
{
    assert(lines(Seq::<char>::empty()) =~= Seq::<Seq<char>>::empty());
}

} // verus!
