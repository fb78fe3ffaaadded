use vstd::prelude::*;
use vstd::arithmetic::div_mod::*;

verus! {

/// The character of a digit value below sixteen; letters are lower-case.
pub open spec fn digit_char(d: int) -> char {
    if d < 10 {
        (d + 48) as char
    } else {
        (d + 87) as char
    }
}

pub open spec fn is_decimal_digit(c: char) -> bool {
    '0' <= c && c <= '9'
}

/// A digit of base sixteen, in either case.
pub open spec fn is_hex_digit(c: char) -> bool {
    is_decimal_digit(c) || ('a' <= c && c <= 'f') || ('A' <= c && c <= 'F')
}

/// The value of a digit character (meaningful where `is_hex_digit` holds).
pub open spec fn digit_value(c: char) -> int {
    if is_decimal_digit(c) {
        c as int - 48
    } else if 'a' <= c && c <= 'f' {
        c as int - 87
    } else {
        c as int - 55
    }
}

/// A digit of the given base: ten or sixteen.
pub open spec fn is_digit_of(c: char, radix: nat) -> bool {
    if radix == 10 {
        is_decimal_digit(c)
    } else {
        is_hex_digit(c)
    }
}

/// Every character is a digit of the base.
pub open spec fn all_digits(s: Seq<char>, radix: nat) -> bool {
    forall|i: int| 0 <= i < s.len() ==> is_digit_of(#[trigger] s[i], radix)
}

/// The number that a string of digits denotes, most significant digit first.
pub open spec fn digits_value(s: Seq<char>, radix: nat) -> int
    decreases s.len(),
{
    if s.len() == 0 {
        0
    } else {
        digits_value(s.drop_last(), radix) * radix + digit_value(s.last())
    }
}

/// The shortest rendering of `n` in the base, with no leading zero.
pub open spec fn digits_text(n: nat, radix: nat) -> Seq<char>
    decreases n,
{
    if radix < 2 || n < radix {
        seq![digit_char(n as int)]
    } else {
        proof {
            lemma_div_decreases(n as int, radix as int);
        }
        digits_text(n / radix, radix).push(digit_char((n % radix) as int))
    }
}

pub open spec fn decimal_text(n: nat) -> Seq<char> {
    digits_text(n, 10)
}

pub open spec fn hex_text(n: nat) -> Seq<char> {
    digits_text(n, 16)
}

pub proof fn lemma_digit_char(d: int, radix: nat)
    requires
        radix == 10 || radix == 16,
        0 <= d < radix,
    ensures
        is_digit_of(digit_char(d), radix),
        digit_value(digit_char(d)) == d,
        digit_char(d) != '0' <==> d != 0,
{
}

/// Rendering in a base gives a string of digits of at least one character that
/// denotes the number, with a leading zero only for zero itself.
pub proof fn lemma_digits_text(n: nat, radix: nat)
    requires
        radix == 10 || radix == 16,
    ensures
        digits_text(n, radix).len() >= 1,
        all_digits(digits_text(n, radix), radix),
        digits_value(digits_text(n, radix), radix) == n,
        digits_text(n, radix)[0] == '0' ==> n == 0,
        n < radix ==> digits_text(n, radix).len() == 1,
        n >= radix ==> digits_text(n, radix).len() == digits_text(n / radix, radix).len() + 1,
    decreases n,
{
    if n < radix {
        lemma_digit_char(n as int, radix);
        let t = seq![digit_char(n as int)];
        assert(t.drop_last() =~= Seq::<char>::empty());
        assert(digits_value(t.drop_last(), radix) == 0);
        assert(t.last() == digit_char(n as int));
        assert(digits_value(t, radix) == 0 * radix + n);
    } else {
        lemma_div_decreases(n as int, radix as int);
        lemma_fundamental_div_mod(n as int, radix as int);
        lemma_mod_pos_bound(n as int, radix as int);
        lemma_div_pos_is_pos(n as int, radix as int);
        let q = n / radix;
        let d = (n % radix) as int;
        lemma_digits_text(q, radix);
        lemma_digit_char(d, radix);
        let t = digits_text(q, radix);
        let u = t.push(digit_char(d));
        assert(digits_text(n, radix) == u);
        assert(u.drop_last() =~= t);
        assert(u[0] == t[0]);
        assert(digits_value(u, radix) == digits_value(t, radix) * radix + d);
        assert(q * radix + d == n) by (nonlinear_arith)
            requires
                n == radix * q + d,
        ;
        assert(q >= 1) by {
            lemma_div_non_zero(n as int, radix as int);
        }
    }
}

/// A decimal rendering of a number up to 255 takes at most three digits.
pub proof fn lemma_decimal_text_short(n: nat)
    requires
        n <= 255,
    ensures
        decimal_text(n).len() <= 3,
{
    lemma_digits_text(n, 10);
    if n >= 10 {
        lemma_digits_text(n / 10, 10);
        if n / 10 >= 10 {
            lemma_digits_text(n / 10 / 10, 10);
        }
    }
}

/// A hexadecimal rendering of a number below 65536 takes at most four digits.
pub proof fn lemma_hex_text_short(n: nat)
    requires
        n <= 0xffff,
    ensures
        hex_text(n).len() <= 4,
{
    lemma_digits_text(n, 16);
    if n >= 16 {
        lemma_digits_text(n / 16, 16);
        if n / 16 >= 16 {
            lemma_digits_text(n / 16 / 16, 16);
            if n / 16 / 16 >= 16 {
                lemma_digits_text(n / 16 / 16 / 16, 16);
            }
        }
    }
}

/// The value of a string of digits is never negative.
pub proof fn lemma_digits_value_nonneg(s: Seq<char>, radix: nat)
    requires
        radix == 10 || radix == 16,
        all_digits(s, radix),
    ensures
        digits_value(s, radix) >= 0,
    decreases s.len(),
{
    if s.len() > 0 {
        let p = s.drop_last();
        assert(all_digits(p, radix)) by {
            assert forall|i: int| 0 <= i < p.len() implies is_digit_of(#[trigger] p[i], radix) by {
                assert(p[i] == s[i]);
            }
        }
        lemma_digits_value_nonneg(p, radix);
        assert(is_digit_of(s[s.len() - 1], radix));
        assert(digits_value(p, radix) * radix >= 0) by (nonlinear_arith)
            requires
                digits_value(p, radix) >= 0,
                radix >= 0,
        ;
    }
}

/// `String::push`: the string gains the character at its end.
#[verifier::external_body]
pub(crate) fn push_char(s: &mut String, c: char)
    ensures
        final(s)@ == old(s)@.push(c),
{
    s.push(c);
}

/// The character of a digit value below sixteen.
pub fn digit_to_char(d: u32) -> (c: char)
    requires
        d < 16,
    ensures
        c == digit_char(d as int),
{
    if d < 10 {
        ((d as u8) + 48) as char
    } else {
        ((d as u8) + 87) as char
    }
}

/// The value of `c` as a digit of the base, if it is one.
pub fn char_to_digit(c: char, radix: u32) -> (r: Option<u32>)
    requires
        radix == 10 || radix == 16,
    ensures
        r is Some <==> is_digit_of(c, radix as nat),
        r matches Some(d) ==> d == digit_value(c) && d < radix,
{
    if '0' <= c && c <= '9' {
        Some((c as u32) - 48)
    } else if radix == 16 && 'a' <= c && c <= 'f' {
        Some((c as u32) - 87)
    } else if radix == 16 && 'A' <= c && c <= 'F' {
        Some((c as u32) - 55)
    } else {
        None
    }
}

/// Appends the rendering of `n` in the base.
pub fn push_digits(s: &mut String, n: u32, radix: u32)
    requires
        radix == 10 || radix == 16,
    ensures
        final(s)@ == old(s)@ + digits_text(n as nat, radix as nat),
    decreases n,
{
    if n < radix {
        digit_to_char(n);
        push_char(s, digit_to_char(n));
        assert(digits_text(n as nat, radix as nat) == seq![digit_char(n as int)]);
        assert(final(s)@ =~= old(s)@ + digits_text(n as nat, radix as nat));
    } else {
        push_digits(s, n / radix, radix);
        push_char(s, digit_to_char(n % radix));
        assert(final(s)@ =~= old(s)@ + digits_text(n as nat, radix as nat));
    }
}

/// The characters of a string slice, one by one.
pub fn chars_of(s: &str) -> (v: Vec<char>)
    ensures
        v@ == s@,
{
    let n = s.unicode_len();
    let mut v: Vec<char> = Vec::new();
    let mut i: usize = 0;
    while i < n
        invariant
            n == s@.len(),
            i <= n,
            v@ == s@.take(i as int),
        decreases n - i,
    {
        v.push(s.get_char(i));
        i = i + 1;
        assert(v@ =~= s@.take(i as int));
    }
    assert(v@ =~= s@);
    v
}

/// Reads `cs[lo..hi]` as a number in the base: `Some` of its value exactly when it is
/// a non-empty string of digits whose value is at most `max`.
pub fn parse_digits(cs: &Vec<char>, lo: usize, hi: usize, radix: u32, max: u32) -> (r: Option<u32>)
    requires
        lo <= hi <= cs@.len(),
        radix == 10 || radix == 16,
    ensures
        ({
            let t = cs@.subrange(lo as int, hi as int);
            &&& r is Some <==> (t.len() > 0 && all_digits(t, radix as nat) && digits_value(t, radix as nat) <= max)
            &&& r matches Some(v) ==> v == digits_value(t, radix as nat)
        }),
{
    if lo == hi {
        return None;
    }
    let ghost cap = max as int + 1;
    let mut acc: u64 = 0;
    let mut i: usize = lo;
    while i < hi
        invariant
            lo <= i <= hi <= cs@.len(),
            radix == 10 || radix == 16,
            cap == max as int + 1,
            all_digits(cs@.subrange(lo as int, i as int), radix as nat),
            digits_value(cs@.subrange(lo as int, i as int), radix as nat) >= 0,
            acc as int == if digits_value(cs@.subrange(lo as int, i as int), radix as nat) <= max {
                digits_value(cs@.subrange(lo as int, i as int), radix as nat)
            } else {
                cap
            },
        decreases hi - i,
    {
        let ghost prev = cs@.subrange(lo as int, i as int);
        let ghost next = cs@.subrange(lo as int, i + 1);
        assert(next.drop_last() =~= prev);
        let d = match char_to_digit(cs[i], radix) {
            Some(d) => d,
            None => {
                assert(!all_digits(cs@.subrange(lo as int, hi as int), radix as nat)) by {
                    assert(cs@.subrange(lo as int, hi as int)[i - lo] == cs@[i as int]);
                }
                return None;
            },
        };
        assert(digits_value(next, radix as nat) == digits_value(prev, radix as nat) * radix + d);
        assert(all_digits(next, radix as nat)) by {
            assert forall|k: int| 0 <= k < next.len() implies is_digit_of(#[trigger] next[k], radix as nat) by {
                if k < prev.len() {
                    assert(next[k] == prev[k]);
                }
            }
        }
        if acc > max as u64 {
            assert(digits_value(next, radix as nat) > max) by (nonlinear_arith)
                requires
                    digits_value(prev, radix as nat) > max,
                    digits_value(next, radix as nat) == digits_value(prev, radix as nat) * radix + d,
                    radix >= 10,
                    d >= 0,
            ;
        } else {
            assert(acc * radix + d <= 0xffff_ffff * 16 + 16) by (nonlinear_arith)
                requires
                    acc <= max,
                    max <= 0xffff_ffff,
                    radix <= 16,
                    d < 16,
            ;
            let v = acc * (radix as u64) + (d as u64);
            if v > max as u64 {
                acc = max as u64 + 1;
            } else {
                acc = v;
            }
        }
        i = i + 1;
    }
    if acc > max as u64 {
        None
    } else {
        Some(acc as u32)
    }
}

/// The text of a list of parts with `sep` between each two of them.
pub open spec fn join(parts: Seq<Seq<char>>, sep: char) -> Seq<char>
    decreases parts.len(),
{
    if parts.len() == 0 {
        Seq::empty()
    } else if parts.len() == 1 {
        parts[0]
    } else {
        join(parts.drop_last(), sep) + seq![sep] + parts.last()
    }
}

/// The index of the first occurrence of `c` in `s`.
pub open spec fn find(s: Seq<char>, c: char) -> Option<int>
    decreases s.len(),
{
    if s.len() == 0 {
        None
    } else if s[0] == c {
        Some(0)
    } else {
        match find(s.drop_first(), c) {
            Some(i) => Some(i + 1),
            None => None,
        }
    }
}

/// The index of the first place where `c` stands twice in a row in `s`.
pub open spec fn find_pair(s: Seq<char>, c: char) -> Option<int>
    decreases s.len(),
{
    if s.len() < 2 {
        None
    } else if s[0] == c && s[1] == c {
        Some(0)
    } else {
        match find_pair(s.drop_first(), c) {
            Some(i) => Some(i + 1),
            None => None,
        }
    }
}

/// `find` is the least index holding `c`, or `None` where none does.
pub proof fn lemma_find(s: Seq<char>, c: char)
    ensures
        match find(s, c) {
            Some(i) => 0 <= i < s.len() && s[i] == c && forall|j: int| 0 <= j < i ==> s[j] != c,
            None => forall|j: int| 0 <= j < s.len() ==> s[j] != c,
        },
    decreases s.len(),
{
    if s.len() > 0 && s[0] != c {
        lemma_find(s.drop_first(), c);
        match find(s.drop_first(), c) {
            Some(i) => {
                assert forall|j: int| 0 <= j < i + 1 implies s[j] != c by {
                    if j > 0 {
                        assert(s[j] == s.drop_first()[j - 1]);
                    }
                }
            },
            None => {
                assert forall|j: int| 0 <= j < s.len() implies s[j] != c by {
                    if j > 0 {
                        assert(s[j] == s.drop_first()[j - 1]);
                    }
                }
            },
        }
    }
}

/// `find_pair` is the least index where `c` stands twice in a row.
pub proof fn lemma_find_pair(s: Seq<char>, c: char)
    ensures
        match find_pair(s, c) {
            Some(i) => 0 <= i && i + 1 < s.len() && s[i] == c && s[i + 1] == c && forall|j: int|
                0 <= j < i ==> !(#[trigger] s[j] == c && s[j + 1] == c),
            None => forall|j: int| 0 <= j && j + 1 < s.len() ==> !(#[trigger] s[j] == c && s[j + 1] == c),
        },
    decreases s.len(),
{
    if s.len() >= 2 && !(s[0] == c && s[1] == c) {
        let t = s.drop_first();
        lemma_find_pair(t, c);
        match find_pair(t, c) {
            Some(i) => {
                assert forall|j: int| 0 <= j < i + 1 implies !(#[trigger] s[j] == c && s[j + 1] == c) by {
                    if j > 0 {
                        assert(s[j] == t[j - 1]);
                        assert(s[j + 1] == t[j]);
                    }
                }
            },
            None => {
                assert forall|j: int| 0 <= j && j + 1 < s.len() implies !(#[trigger] s[j] == c && s[j + 1] == c) by {
                    if j > 0 {
                        assert(s[j] == t[j - 1]);
                        assert(s[j + 1] == t[j]);
                    }
                }
            },
        }
    }
}

/// The least index holding `c` is what `find` gives.
pub proof fn lemma_find_is(s: Seq<char>, c: char, i: int)
    requires
        0 <= i < s.len(),
        s[i] == c,
        forall|j: int| 0 <= j < i ==> s[j] != c,
    ensures
        find(s, c) == Some(i),
{
    lemma_find(s, c);
    match find(s, c) {
        Some(k) => {
            if k < i {
                assert(s[k] != c);
            }
            if k > i {
            }
        },
        None => {
            assert(s[i] != c);
        },
    }
}

/// Where no character is `c`, `find` gives `None`.
pub proof fn lemma_find_none(s: Seq<char>, c: char)
    requires
        forall|j: int| 0 <= j < s.len() ==> s[j] != c,
    ensures
        find(s, c) is None,
{
    lemma_find(s, c);
    if let Some(k) = find(s, c) {
        assert(s[k] != c);
    }
}

/// The pieces of `s` between occurrences of `sep`, in order.
pub open spec fn split(s: Seq<char>, sep: char) -> Seq<Seq<char>>
    decreases s.len(),
{
    match find(s, sep) {
        None => seq![s],
        Some(i) => {
            proof {
                lemma_find(s, sep);
            }
            seq![s.take(i)] + split(s.skip(i + 1), sep)
        },
    }
}

/// The index of the first `c` in `cs[lo..hi]`, counted from the start of `cs`.
pub fn find_char(cs: &Vec<char>, lo: usize, hi: usize, c: char) -> (r: Option<usize>)
    requires
        lo <= hi <= cs@.len(),
    ensures
        match find(cs@.subrange(lo as int, hi as int), c) {
            Some(i) => r == Some((lo + i) as usize),
            None => r is None,
        },
{
    let ghost t = cs@.subrange(lo as int, hi as int);
    let mut i = lo;
    while i < hi
        invariant
            lo <= i <= hi <= cs@.len(),
            t == cs@.subrange(lo as int, hi as int),
            forall|j: int| 0 <= j < i - lo ==> t[j] != c,
        decreases hi - i,
    {
        if cs[i] == c {
            assert(t[i - lo] == c);
            proof {
                lemma_find_is(t, c, (i - lo) as int);
            }
            return Some(i);
        }
        assert(t[i - lo] != c);
        i = i + 1;
    }
    proof {
        lemma_find_none(t, c);
    }
    None
}

/// The index of the first place in `cs[lo..hi]` where `c` stands twice in a row,
/// counted from the start of `cs`.
pub fn find_pair_char(cs: &Vec<char>, lo: usize, hi: usize, c: char) -> (r: Option<usize>)
    requires
        lo <= hi <= cs@.len(),
    ensures
        match find_pair(cs@.subrange(lo as int, hi as int), c) {
            Some(i) => r == Some((lo + i) as usize),
            None => r is None,
        },
{
    let ghost t = cs@.subrange(lo as int, hi as int);
    let mut i = lo;
    while hi - i >= 2
        invariant
            lo <= i <= hi <= cs@.len(),
            t == cs@.subrange(lo as int, hi as int),
            forall|j: int| 0 <= j < i - lo && j + 1 < t.len() ==> !(#[trigger] t[j] == c && t[j + 1] == c),
        decreases hi - i,
    {
        if cs[i] == c && cs[i + 1] == c {
            assert(t[i - lo] == c && t[i - lo + 1] == c);
            proof {
                lemma_find_pair(t, c);
                match find_pair(t, c) {
                    Some(k) => {
                        if k < (i - lo) as int {
                            assert(!(t[k] == c && t[k + 1] == c));
                        }
                        if k > (i - lo) as int {
                            assert(!(t[i - lo] == c && t[i - lo + 1] == c));
                        }
                    },
                    None => {
                        assert(!(t[i - lo] == c && t[i - lo + 1] == c));
                    },
                }
            }
            return Some(i);
        }
        assert(!(t[i - lo] == c && t[i - lo + 1] == c));
        i = i + 1;
    }
    proof {
        lemma_find_pair(t, c);
        match find_pair(t, c) {
            Some(k) => {
                assert(!(t[k] == c && t[k + 1] == c));
            },
            None => {},
        }
    }
    None
}

/// The text of each range.
pub open spec fn range_texts(cs: Seq<char>, rs: Seq<(usize, usize)>) -> Seq<Seq<char>> {
    rs.map_values(|r: (usize, usize)| cs.subrange(r.0 as int, r.1 as int))
}

/// The ranges of the pieces of `cs[lo..hi]` between occurrences of `sep`.
pub fn split_ranges(cs: &Vec<char>, lo: usize, hi: usize, sep: char) -> (rs: Vec<(usize, usize)>)
    requires
        lo <= hi <= cs@.len(),
    ensures
        range_texts(cs@, rs@) == split(cs@.subrange(lo as int, hi as int), sep),
        forall|k: int| 0 <= k < rs@.len() ==> lo <= (#[trigger] rs@[k]).0 <= rs@[k].1 <= hi,
{
    let mut rs: Vec<(usize, usize)> = Vec::new();
    let mut start = lo;
    loop
        invariant
            lo <= start <= hi <= cs@.len(),
            split(cs@.subrange(lo as int, hi as int), sep) == range_texts(cs@, rs@) + split(
                cs@.subrange(start as int, hi as int),
                sep,
            ),
            forall|k: int| 0 <= k < rs@.len() ==> lo <= (#[trigger] rs@[k]).0 <= rs@[k].1 <= hi,
        decreases hi - start,
    {
        let ghost t = cs@.subrange(start as int, hi as int);
        let ghost before = range_texts(cs@, rs@);
        match find_char(cs, start, hi, sep) {
            Some(j) => {
                proof {
                    lemma_find(t, sep);
                }
                assert(split(t, sep) == seq![t.take((j - start) as int)] + split(t.skip(j - start + 1), sep));
                assert(t.take((j - start) as int) =~= cs@.subrange(start as int, j as int));
                assert(t.skip(j - start + 1) =~= cs@.subrange(j + 1, hi as int));
                rs.push((start, j));
                assert(range_texts(cs@, rs@) =~= before.push(cs@.subrange(start as int, j as int)));
                assert(split(cs@.subrange(lo as int, hi as int), sep) =~= range_texts(cs@, rs@)
                    + split(cs@.subrange(j + 1, hi as int), sep));
                start = j + 1;
            },
            None => {
                assert(split(t, sep) == seq![t]);
                rs.push((start, hi));
                assert(range_texts(cs@, rs@) =~= before.push(t));
                assert(split(cs@.subrange(lo as int, hi as int), sep) =~= range_texts(cs@, rs@));
                return rs;
            },
        }
    }
}

/// `c` does not occur in `s`.
pub open spec fn free_of(s: Seq<char>, c: char) -> bool {
    forall|i: int| 0 <= i < s.len() ==> s[i] != c
}

/// A text without the separator is a single piece.
pub proof fn lemma_split_free(x: Seq<char>, sep: char)
    requires
        free_of(x, sep),
    ensures
        split(x, sep) == seq![x],
{
    lemma_find_none(x, sep);
}

/// Splitting at a separator splits each side.
pub proof fn lemma_split_concat(x: Seq<char>, y: Seq<char>, sep: char)
    ensures
        split(x + seq![sep] + y, sep) == split(x, sep) + split(y, sep),
    decreases x.len(),
{
    let s = x + seq![sep] + y;
    lemma_find(x, sep);
    match find(x, sep) {
        Some(i) => {
            assert forall|j: int| 0 <= j < i implies s[j] != sep by {
                assert(s[j] == x[j]);
            }
            assert(s[i] == x[i]);
            lemma_find_is(s, sep, i);
            assert(s.take(i) =~= x.take(i));
            assert(s.skip(i + 1) =~= x.skip(i + 1) + seq![sep] + y);
            lemma_split_concat(x.skip(i + 1), y, sep);
            assert(split(s, sep) =~= split(x, sep) + split(y, sep));
        },
        None => {
            assert forall|j: int| 0 <= j < x.len() implies s[j] != sep by {
                assert(s[j] == x[j]);
            }
            lemma_find_is(s, sep, x.len() as int);
            assert(s.take(x.len() as int) =~= x);
            assert(s.skip(x.len() as int + 1) =~= y);
            lemma_split_free(x, sep);
            assert(split(s, sep) =~= split(x, sep) + split(y, sep));
        },
    }
}

/// Splitting a join of pieces free of the separator gives back the pieces.
pub proof fn lemma_split_join(parts: Seq<Seq<char>>, sep: char)
    requires
        parts.len() >= 1,
        forall|k: int| 0 <= k < parts.len() ==> free_of(#[trigger] parts[k], sep),
    ensures
        split(join(parts, sep), sep) == parts,
    decreases parts.len(),
{
    if parts.len() == 1 {
        lemma_split_free(parts[0], sep);
        assert(seq![parts[0]] =~= parts);
    } else {
        let init = parts.drop_last();
        assert forall|k: int| 0 <= k < init.len() implies free_of(#[trigger] init[k], sep) by {
            assert(init[k] == parts[k]);
        }
        lemma_split_join(init, sep);
        lemma_split_concat(join(init, sep), parts.last(), sep);
        assert(free_of(parts[parts.len() - 1], sep));
        lemma_split_free(parts.last(), sep);
        assert(init + seq![parts.last()] =~= parts);
    }
}

/// A join of non-empty pieces free of the separator never holds the separator twice
/// in a row, and neither begins nor ends with it.
pub proof fn lemma_join_no_pair(parts: Seq<Seq<char>>, c: char)
    requires
        parts.len() >= 1,
        forall|k: int| 0 <= k < parts.len() ==> (#[trigger] parts[k]).len() >= 1 && free_of(parts[k], c),
    ensures
        join(parts, c).len() >= 1,
        join(parts, c)[0] != c,
        join(parts, c).last() != c,
        forall|j: int| 0 <= j && j + 1 < join(parts, c).len() ==> !(#[trigger] join(parts, c)[j] == c && join(parts, c)[j + 1] == c),
    decreases parts.len(),
{
    if parts.len() == 1 {
        assert(parts[0].len() >= 1 && free_of(parts[0], c));
    } else {
        let init = parts.drop_last();
        assert forall|k: int| 0 <= k < init.len() implies (#[trigger] init[k]).len() >= 1 && free_of(init[k], c) by {
            assert(init[k] == parts[k]);
        }
        lemma_join_no_pair(init, c);
        let a = join(init, c);
        let b = parts.last();
        assert(b.len() >= 1 && free_of(b, c)) by {
            assert(b == parts[parts.len() - 1]);
        }
        let jn = join(parts, c);
        assert(jn == a + seq![c] + b);
        assert forall|j: int| 0 <= j && j + 1 < jn.len() implies !(#[trigger] jn[j] == c && jn[j + 1] == c) by {
            if j + 1 < a.len() {
                assert(jn[j] == a[j] && jn[j + 1] == a[j + 1]);
            } else if j + 1 == a.len() {
                assert(jn[j] == a.last());
            } else if j == a.len() {
                assert(jn[j + 1] == b[0]);
            } else {
                assert(jn[j] == b[j - a.len() - 1]);
            }
        }
        assert(jn[0] == a[0]);
        assert(jn.last() == b.last());
    }
}

/// A place where `c` stands twice, with none before it, is what `find_pair` gives.
pub proof fn lemma_find_pair_is(s: Seq<char>, c: char, i: int)
    requires
        0 <= i && i + 1 < s.len(),
        s[i] == c && s[i + 1] == c,
        forall|j: int| 0 <= j < i ==> !(#[trigger] s[j] == c && s[j + 1] == c),
    ensures
        find_pair(s, c) == Some(i),
{
    lemma_find_pair(s, c);
    match find_pair(s, c) {
        Some(k) => {
            if k < i {
                assert(!(s[k] == c && s[k + 1] == c));
            }
            if k > i {
                assert(!(s[i] == c && s[i + 1] == c));
            }
        },
        None => {
            assert(!(s[i] == c && s[i + 1] == c));
        },
    }
}

/// Where `c` never stands twice in a row, `find_pair` gives `None`.
pub proof fn lemma_find_pair_none(s: Seq<char>, c: char)
    requires
        forall|j: int| 0 <= j && j + 1 < s.len() ==> !(#[trigger] s[j] == c && s[j + 1] == c),
    ensures
        find_pair(s, c) is None,
{
    lemma_find_pair(s, c);
    if let Some(k) = find_pair(s, c) {
        assert(!(s[k] == c && s[k + 1] == c));
    }
}

/// A join of pieces free of a character other than the separator is free of it.
pub proof fn lemma_join_free(parts: Seq<Seq<char>>, sep: char, c: char)
    requires
        c != sep,
        forall|k: int| 0 <= k < parts.len() ==> free_of(#[trigger] parts[k], c),
    ensures
        free_of(join(parts, sep), c),
    decreases parts.len(),
{
    if parts.len() == 1 {
        assert(free_of(parts[0], c));
    } else if parts.len() > 1 {
        let init = parts.drop_last();
        assert forall|k: int| 0 <= k < init.len() implies free_of(#[trigger] init[k], c) by {
            assert(init[k] == parts[k]);
        }
        lemma_join_free(init, sep, c);
        let a = join(init, sep);
        let b = parts.last();
        assert(free_of(b, c)) by {
            assert(b == parts[parts.len() - 1]);
        }
        let jn = join(parts, sep);
        assert forall|i: int| 0 <= i < jn.len() implies jn[i] != c by {
            if i < a.len() {
                assert(jn[i] == a[i]);
            } else if i > a.len() {
                assert(jn[i] == b[i - a.len() - 1]);
            }
        }
    }
}

/// Sixteen to the power `n`.
pub open spec fn pow16(n: nat) -> int
    decreases n,
{
    if n == 0 {
        1
    } else {
        16 * pow16((n - 1) as nat)
    }
}

} // verus!
