//! Character-level grammar shared by the reply parsers: pieces between a
//! separator, white-space separated words, trimming, searching, and decimal
//! integers. Every helper works on a range `lo..hi` of a character buffer and
//! is stated over `Seq<char>`.
use vstd::prelude::*;
use vstd::string::*;

verus! {

/// White space as `char::is_whitespace` has it: the Unicode `White_Space` property.
pub open spec fn is_space(c: char) -> bool {
    let u = c as u32;
    ||| 9 <= u <= 13
    ||| u == 32
    ||| u == 0x85
    ||| u == 0xa0
    ||| u == 0x1680
    ||| 0x2000 <= u <= 0x200a
    ||| u == 0x2028
    ||| u == 0x2029
    ||| u == 0x202f
    ||| u == 0x205f
    ||| u == 0x3000
}

pub fn is_space_char(c: char) -> (r: bool)
    ensures
        r == is_space(c),
{
    let u = c as u32;
    (9 <= u && u <= 13) || u == 32 || u == 0x85 || u == 0xa0 || u == 0x1680 || (0x2000 <= u && u
        <= 0x200a) || u == 0x2028 || u == 0x2029 || u == 0x202f || u == 0x205f || u == 0x3000
}

/// The pieces of `s` between occurrences of `sep`, as `str::split` yields them
/// for a character separator: there is always at least one piece.
pub open spec fn split_on(s: Seq<char>, sep: char) -> Seq<Seq<char>>
    decreases s.len(),
{
    if s.len() == 0 {
        seq![Seq::empty()]
    } else {
        let init = split_on(s.drop_last(), sep);
        if s.last() == sep {
            init.push(Seq::empty())
        } else {
            init.update(init.len() - 1, init.last().push(s.last()))
        }
    }
}

/// The maximal runs of non-space characters of `s`, in order, as
/// `str::split_whitespace` yields them.
pub open spec fn words(s: Seq<char>) -> Seq<Seq<char>>
    decreases s.len(),
{
    if s.len() == 0 {
        Seq::empty()
    } else {
        let init = words(s.drop_last());
        if is_space(s.last()) {
            init
        } else if s.len() >= 2 && !is_space(s[s.len() - 2]) {
            init.update(init.len() - 1, init.last().push(s.last()))
        } else {
            init.push(seq![s.last()])
        }
    }
}

/// `s` without its trailing white space.
pub open spec fn trim_end(s: Seq<char>) -> Seq<char>
    decreases s.len(),
{
    if s.len() > 0 && is_space(s.last()) {
        trim_end(s.drop_last())
    } else {
        s
    }
}

/// `s` without its leading white space.
pub open spec fn trim_start(s: Seq<char>) -> Seq<char>
    decreases s.len(),
{
    if s.len() > 0 && is_space(s[0]) {
        trim_start(s.drop_first())
    } else {
        s
    }
}

/// `s` without white space at either end, as `str::trim` gives it.
pub open spec fn trim(s: Seq<char>) -> Seq<char> {
    trim_start(trim_end(s))
}

/// The position of the first `c` in `s`.
pub open spec fn first_index(s: Seq<char>, c: char) -> Option<int>
    decreases s.len(),
{
    if s.len() == 0 {
        None
    } else {
        match first_index(s.drop_last(), c) {
            Some(i) => Some(i),
            None => if s.last() == c {
                Some(s.len() - 1)
            } else {
                None
            },
        }
    }
}

/// The position of the last `c` in `s`.
pub open spec fn last_index(s: Seq<char>, c: char) -> Option<int>
    decreases s.len(),
{
    if s.len() == 0 {
        None
    } else if s.last() == c {
        Some(s.len() - 1)
    } else {
        last_index(s.drop_last(), c)
    }
}

/// Whether `w` occurs in `s` as a run of consecutive characters.
pub open spec fn contains_seq(s: Seq<char>, w: Seq<char>) -> bool {
    exists|i: int| 0 <= i <= s.len() - w.len() && #[trigger] s.subrange(i, i + w.len()) == w
}

pub open spec fn is_digit(c: char) -> bool {
    48 <= c as u32 <= 57
}

pub open spec fn digit_value(c: char) -> int {
    c as u32 as int - 48
}

/// The number that a run of decimal digits spells.
pub open spec fn digits_value(s: Seq<char>) -> int
    decreases s.len(),
{
    if s.len() == 0 {
        0
    } else {
        digits_value(s.drop_last()) * 10 + digit_value(s.last())
    }
}

/// A non-empty run of decimal digits.
pub open spec fn all_digits(s: Seq<char>) -> bool {
    s.len() > 0 && forall|i: int| 0 <= i < s.len() ==> is_digit(#[trigger] s[i])
}

/// The integer that `s` writes in decimal, with an optional `+` or `-` sign,
/// as the `FromStr` impls of the signed integer types read it (before their
/// range check).
pub open spec fn decimal(s: Seq<char>) -> Option<int> {
    if s.len() > 0 && s[0] == '-' {
        if all_digits(s.drop_first()) {
            Some(-digits_value(s.drop_first()))
        } else {
            None
        }
    } else if s.len() > 0 && s[0] == '+' {
        if all_digits(s.drop_first()) {
            Some(digits_value(s.drop_first()))
        } else {
            None
        }
    } else if all_digits(s) {
        Some(digits_value(s))
    } else {
        None
    }
}

/// `decimal(s)` where it lies in `lo..=hi`.
pub open spec fn decimal_in(s: Seq<char>, lo: int, hi: int) -> Option<int> {
    match decimal(s) {
        Some(n) => if lo <= n <= hi {
            Some(n)
        } else {
            None
        },
        None => None,
    }
}

/// What `s.parse::<i32>()` gives.
pub open spec fn i32_of(s: Seq<char>) -> Option<int> {
    decimal_in(s, i32::MIN as int, i32::MAX as int)
}

/// What `s.parse::<i64>()` gives.
pub open spec fn i64_of(s: Seq<char>) -> Option<int> {
    decimal_in(s, i64::MIN as int, i64::MAX as int)
}

pub proof fn lemma_split_on_nonempty(s: Seq<char>, sep: char)
    ensures
        split_on(s, sep).len() >= 1,
    decreases s.len(),
{
    if s.len() > 0 {
        lemma_split_on_nonempty(s.drop_last(), sep);
    }
}

/// The characters of `s`, in order.
pub fn chars_of(s: &str) -> (v: Vec<char>)
    ensures
        v@ == s@,
{
    let mut v: Vec<char> = Vec::new();
    for c in it: s.chars()
        invariant
            v@ == it.seq().take(it.index() as int),
    {
        v.push(c);
    }
    v
}

/// The characters `lo..hi` of `s` as a `String`.
pub fn piece(s: &str, lo: usize, hi: usize) -> (r: String)
    requires
        lo <= hi <= s@.len(),
    ensures
        r@ == s@.subrange(lo as int, hi as int),
{
    String::from_str(s.substring_char(lo, hi))
}

/// The bounds of the pieces of `v[lo..hi]` between occurrences of `sep`.
pub fn split_bounds(v: &Vec<char>, lo: usize, hi: usize, sep: char) -> (r: Vec<(usize, usize)>)
    requires
        lo <= hi <= v.len(),
    ensures
        r.len() == split_on(v@.subrange(lo as int, hi as int), sep).len(),
        forall|k: int|
            0 <= k < r.len() ==> lo <= (#[trigger] r[k]).0 <= r[k].1 <= hi && v@.subrange(
                r[k].0 as int,
                r[k].1 as int,
            ) == split_on(v@.subrange(lo as int, hi as int), sep)[k],
{
    let ghost s = v@.subrange(lo as int, hi as int);
    let mut r: Vec<(usize, usize)> = Vec::new();
    let mut start: usize = lo;
    let mut i: usize = lo;
    while i < hi
        invariant
            lo <= start <= i <= hi <= v.len(),
            s == v@.subrange(lo as int, hi as int),
            r.len() + 1 == split_on(s.take(i - lo), sep).len(),
            forall|k: int|
                0 <= k < r.len() ==> lo <= (#[trigger] r[k]).0 <= r[k].1 <= i && v@.subrange(
                    r[k].0 as int,
                    r[k].1 as int,
                ) == split_on(s.take(i - lo), sep)[k],
            v@.subrange(start as int, i as int) == split_on(s.take(i - lo), sep).last(),
        decreases hi - i,
    {
        let ghost before = split_on(s.take(i - lo), sep);
        assert(s.take(i + 1 - lo).drop_last() =~= s.take(i - lo));
        assert(s.take(i + 1 - lo).last() == v@[i as int]);
        proof {
            lemma_split_on_nonempty(s.take(i - lo), sep);
        }
        if v[i] == sep {
            r.push((start, i));
            start = i + 1;
            assert(v@.subrange(start as int, i + 1) =~= Seq::<char>::empty());
        } else {
            assert(v@.subrange(start as int, i + 1) =~= v@.subrange(start as int, i as int).push(
                v@[i as int],
            ));
        }
        i = i + 1;
    }
    assert(s.take(hi - lo) =~= s);
    r.push((start, i));
    r
}

/// The pieces of `s` between occurrences of `sep`.
pub fn split_text(s: &str, sep: char) -> (r: Vec<String>)
    ensures
        r.len() == split_on(s@, sep).len(),
        forall|k: int| 0 <= k < r.len() ==> (#[trigger] r[k])@ == split_on(s@, sep)[k],
{
    let v = chars_of(s);
    let b = split_bounds(&v, 0, v.len(), sep);
    assert(v@.subrange(0, v.len() as int) =~= s@);
    let mut r: Vec<String> = Vec::new();
    for k in 0..b.len()
        invariant
            v@ == s@,
            b.len() == split_on(s@, sep).len(),
            forall|j: int|
                0 <= j < b.len() ==> 0 <= (#[trigger] b[j]).0 <= b[j].1 <= v.len() && v@.subrange(
                    b[j].0 as int,
                    b[j].1 as int,
                ) == split_on(s@, sep)[j],
            r.len() == k,
            forall|j: int| 0 <= j < k ==> (#[trigger] r[j])@ == split_on(s@, sep)[j],
    {
        let (a, z) = b[k];
        r.push(piece(s, a, z));
    }
    r
}

/// The bounds of the words of `v[lo..hi]`.
pub fn word_bounds(v: &Vec<char>, lo: usize, hi: usize) -> (r: Vec<(usize, usize)>)
    requires
        lo <= hi <= v.len(),
    ensures
        r.len() == words(v@.subrange(lo as int, hi as int)).len(),
        forall|k: int|
            0 <= k < r.len() ==> lo <= (#[trigger] r[k]).0 <= r[k].1 <= hi && v@.subrange(
                r[k].0 as int,
                r[k].1 as int,
            ) == words(v@.subrange(lo as int, hi as int))[k],
{
    let ghost s = v@.subrange(lo as int, hi as int);
    let mut r: Vec<(usize, usize)> = Vec::new();
    let mut start: usize = lo;
    let mut in_word = false;
    let mut i: usize = lo;
    while i < hi
        invariant
            lo <= start <= i <= hi <= v.len(),
            s == v@.subrange(lo as int, hi as int),
            in_word == (i > lo && !is_space(v@[i - 1])),
            in_word ==> start < i && r.len() + 1 == words(s.take(i - lo)).len() && v@.subrange(
                start as int,
                i as int,
            ) == words(s.take(i - lo)).last(),
            !in_word ==> r.len() == words(s.take(i - lo)).len(),
            forall|k: int|
                0 <= k < r.len() ==> lo <= (#[trigger] r[k]).0 <= r[k].1 <= i && v@.subrange(
                    r[k].0 as int,
                    r[k].1 as int,
                ) == words(s.take(i - lo))[k],
        decreases hi - i,
    {
        let ghost t = s.take(i + 1 - lo);
        assert(t.drop_last() =~= s.take(i - lo));
        assert(t.last() == v@[i as int]);
        if i > lo {
            assert(t[t.len() - 2] == v@[i - 1]);
        }
        let c = v[i];
        if is_space_char(c) {
            if in_word {
                r.push((start, i));
            }
            in_word = false;
        } else {
            if in_word {
                assert(v@.subrange(start as int, i + 1) =~= v@.subrange(
                    start as int,
                    i as int,
                ).push(c));
            } else {
                start = i;
                in_word = true;
                assert(v@.subrange(start as int, i + 1) =~= seq![c]);
            }
        }
        i = i + 1;
    }
    assert(s.take(hi - lo) =~= s);
    if in_word {
        r.push((start, i));
    }
    r
}

/// The bounds of `trim(v[lo..hi])`.
pub fn trim_bounds(v: &Vec<char>, lo: usize, hi: usize) -> (r: (usize, usize))
    requires
        lo <= hi <= v.len(),
    ensures
        lo <= r.0 <= r.1 <= hi,
        v@.subrange(r.0 as int, r.1 as int) == trim(v@.subrange(lo as int, hi as int)),
{
    let mut b: usize = hi;
    while b > lo && is_space_char(v[b - 1])
        invariant
            lo <= b <= hi <= v.len(),
            trim_end(v@.subrange(lo as int, b as int)) == trim_end(
                v@.subrange(lo as int, hi as int),
            ),
        decreases b,
    {
        assert(v@.subrange(lo as int, b as int).drop_last() =~= v@.subrange(
            lo as int,
            b - 1,
        ));
        b = b - 1;
    }
    let mut a: usize = lo;
    while a < b && is_space_char(v[a])
        invariant
            lo <= a <= b <= hi <= v.len(),
            trim_start(v@.subrange(a as int, b as int)) == trim(v@.subrange(lo as int, hi as int)),
        decreases b - a,
    {
        assert(v@.subrange(a as int, b as int).drop_first() =~= v@.subrange(a + 1, b as int));
        a = a + 1;
    }
    (a, b)
}

/// The position in `v` of the first `c` in `v[lo..hi]`.
pub fn find_first(v: &Vec<char>, lo: usize, hi: usize, c: char) -> (r: Option<usize>)
    requires
        lo <= hi <= v.len(),
    ensures
        match first_index(v@.subrange(lo as int, hi as int), c) {
            Some(i) => 0 <= i < hi - lo && r == Some((lo + i) as usize),
            None => r is None,
        },
        r matches Some(i) ==> lo <= i < hi && v@[i as int] == c,
        r matches Some(i) ==> forall|j: int| lo <= j < i ==> v@[j] != c,
        r is None ==> forall|j: int| lo <= j < hi ==> v@[j] != c,
{
    let ghost s = v@.subrange(lo as int, hi as int);
    let mut r: Option<usize> = None;
    let mut i: usize = lo;
    while i < hi
        invariant
            lo <= i <= hi <= v.len(),
            s == v@.subrange(lo as int, hi as int),
            match first_index(s.take(i - lo), c) {
                Some(j) => 0 <= j < i - lo && r == Some((lo + j) as usize),
                None => r is None,
            },
            r matches Some(j) ==> lo <= j < i && v@[j as int] == c,
            r matches Some(j) ==> forall|m: int| lo <= m < j ==> v@[m] != c,
            r is None ==> forall|m: int| lo <= m < i ==> v@[m] != c,
        decreases hi - i,
    {
        assert(s.take(i + 1 - lo).drop_last() =~= s.take(i - lo));
        if r.is_none() && v[i] == c {
            r = Some(i);
        }
        i = i + 1;
    }
    assert(s.take(hi - lo) =~= s);
    r
}

/// The position in `v` of the last `c` in `v[lo..hi]`.
pub fn find_last(v: &Vec<char>, lo: usize, hi: usize, c: char) -> (r: Option<usize>)
    requires
        lo <= hi <= v.len(),
    ensures
        match last_index(v@.subrange(lo as int, hi as int), c) {
            Some(i) => 0 <= i < hi - lo && r == Some((lo + i) as usize),
            None => r is None,
        },
        r matches Some(i) ==> lo <= i < hi && v@[i as int] == c,
{
    let ghost s = v@.subrange(lo as int, hi as int);
    let mut r: Option<usize> = None;
    let mut i: usize = lo;
    while i < hi
        invariant
            lo <= i <= hi <= v.len(),
            s == v@.subrange(lo as int, hi as int),
            match last_index(s.take(i - lo), c) {
                Some(j) => 0 <= j < i - lo && r == Some((lo + j) as usize),
                None => r is None,
            },
            r matches Some(j) ==> lo <= j < i && v@[j as int] == c,
        decreases hi - i,
    {
        assert(s.take(i + 1 - lo).drop_last() =~= s.take(i - lo));
        if v[i] == c {
            r = Some(i);
        }
        i = i + 1;
    }
    assert(s.take(hi - lo) =~= s);
    r
}

/// Whether `w` occurs in `s`.
pub fn contains_text(s: &Vec<char>, w: &Vec<char>) -> (r: bool)
    ensures
        r == contains_seq(s@, w@),
{
    if w.len() > s.len() {
        return false;
    }
    let last = s.len() - w.len();
    let mut i: usize = 0;
    while i <= last
        invariant
            last == s.len() - w.len(),
            i <= last + 1,
            forall|j: int| 0 <= j < i ==> #[trigger] s@.subrange(j, j + w.len()) != w@,
        decreases last + 1 - i,
    {
        let mut k: usize = 0;
        let mut same = true;
        while k < w.len()
            invariant
                last == s.len() - w.len(),
                i <= last,
                k <= w.len(),
                same == (forall|m: int| 0 <= m < k ==> s@[i + m] == w@[m]),
            decreases w.len() - k,
        {
            if s[i + k] != w[k] {
                same = false;
            }
            k = k + 1;
        }
        if same {
            assert(s@.subrange(i as int, i + w.len()) =~= w@);
            return true;
        }
        assert(s@.subrange(i as int, i + w.len()) != w@) by {
            let m = choose|m: int| 0 <= m < k && s@[i + m] != w@[m];
            assert(s@.subrange(i as int, i + w.len())[m] == s@[i + m]);
        }
        i = i + 1;
    }
    false
}

pub proof fn lemma_digits_value_nonneg(s: Seq<char>)
    requires
        forall|i: int| 0 <= i < s.len() ==> is_digit(#[trigger] s[i]),
    ensures
        digits_value(s) >= 0,
    decreases s.len(),
{
    if s.len() > 0 {
        lemma_digits_value_nonneg(s.drop_last());
    }
}

/// `decimal_in(v[lo..hi], min, max)`: the signed decimal integer that the
/// range writes, where it lies in `min..=max`.
pub fn parse_decimal(v: &Vec<char>, lo: usize, hi: usize, min: i64, max: i64) -> (r: Option<i64>)
    requires
        lo <= hi <= v.len(),
    ensures
        match decimal_in(v@.subrange(lo as int, hi as int), min as int, max as int) {
            Some(n) => r == Some(n as i64),
            None => r is None,
        },
{
    let ghost s = v@.subrange(lo as int, hi as int);
    let mut d0: usize = lo;
    let mut negative = false;
    if lo < hi && (v[lo] == '-' || v[lo] == '+') {
        negative = v[lo] == '-';
        d0 = lo + 1;
        assert(s.drop_first() =~= v@.subrange(d0 as int, hi as int));
    } else {
        assert(s =~= v@.subrange(d0 as int, hi as int));
    }
    if d0 == hi {
        return None;
    }
    assert(!all_digits(v@.subrange(d0 as int, hi as int)) ==> decimal(s) is None);
    let cap: i128 = 0x1_0000_0000_0000_0000;
    let mut acc: i128 = 0;
    let mut big = false;
    let mut i: usize = d0;
    while i < hi
        invariant
            lo <= d0 <= i <= hi <= v.len(),
            cap == 0x1_0000_0000_0000_0000,
            s == v@.subrange(lo as int, hi as int),
            !all_digits(v@.subrange(d0 as int, hi as int)) ==> decimal(s) is None,
            forall|j: int| d0 <= j < i ==> is_digit(#[trigger] v@[j]),
            digits_value(v@.subrange(d0 as int, i as int)) >= 0,
            !big ==> 0 <= acc <= cap && acc == digits_value(v@.subrange(d0 as int, i as int)),
            big ==> digits_value(v@.subrange(d0 as int, i as int)) > cap,
        decreases hi - i,
    {
        let c = v[i];
        let u = c as u32;
        if u < 48 || u > 57 {
            assert(!all_digits(v@.subrange(d0 as int, hi as int))) by {
                assert(v@.subrange(d0 as int, hi as int)[i - d0] == c);
            }
            return None;
        }
        assert(v@.subrange(d0 as int, i + 1).drop_last() =~= v@.subrange(d0 as int, i as int));
        let d = (u - 48) as i128;
        if !big {
            let n = acc * 10 + d;
            if n > cap {
                big = true;
            } else {
                acc = n;
            }
        }
        i = i + 1;
    }
    let ghost ds = v@.subrange(d0 as int, hi as int);
    assert(all_digits(ds)) by {
        assert forall|j: int| 0 <= j < ds.len() implies is_digit(#[trigger] ds[j]) by {
            assert(ds[j] == v@[d0 + j]);
        }
    }
    if big {
        return None;
    }
    let value: i128 = if negative {
        -acc
    } else {
        acc
    };
    if value < min as i128 || value > max as i128 {
        None
    } else {
        Some(value as i64)
    }
}

/// What `s.parse::<i32>()` gives.
pub fn parse_i32(s: &str) -> (r: Option<i32>)
    ensures
        match i32_of(s@) {
            Some(n) => r == Some(n as i32),
            None => r is None,
        },
{
    let v = chars_of(s);
    assert(v@.subrange(0, v.len() as int) =~= s@);
    match parse_decimal(&v, 0, v.len(), i32::MIN as i64, i32::MAX as i64) {
        Some(n) => Some(n as i32),
        None => None,
    }
}

/// What `s.parse::<i64>()` gives.
pub fn parse_i64(s: &str) -> (r: Option<i64>)
    ensures
        match i64_of(s@) {
            Some(n) => r == Some(n as i64),
            None => r is None,
        },
{
    let v = chars_of(s);
    assert(v@.subrange(0, v.len() as int) =~= s@);
    parse_decimal(&v, 0, v.len(), i64::MIN, i64::MAX)
}

pub open spec fn is_sign(c: char) -> bool {
    c == '+' || c == '-'
}

/// `s` without its leading sign, if it has one.
pub open spec fn unsigned(s: Seq<char>) -> Seq<char> {
    if s.len() > 0 && is_sign(s[0]) {
        s.drop_first()
    } else {
        s
    }
}

/// The code of `c` with ASCII upper case letters taken to lower case.
pub open spec fn lower_code(c: char) -> u32 {
    if 65 <= c as u32 <= 90 {
        (c as u32 + 32) as u32
    } else {
        c as u32
    }
}

/// `s` is the lower-case word `w` up to ASCII case.
pub open spec fn same_ignoring_case(s: Seq<char>, w: Seq<char>) -> bool {
    s.len() == w.len() && forall|i: int| 0 <= i < s.len() ==> lower_code(#[trigger] s[i]) == w[i] as u32
}

/// Decimal digits only (possibly none).
pub open spec fn only_digits(s: Seq<char>) -> bool {
    forall|i: int| 0 <= i < s.len() ==> is_digit(#[trigger] s[i])
}

/// `Digit+ | Digit+ '.' Digit* | Digit* '.' Digit+`
pub open spec fn is_mantissa(m: Seq<char>) -> bool {
    ||| m.len() > 0 && only_digits(m)
    ||| exists|p: int|
        0 <= p < m.len() && #[trigger] m[p] == '.' && only_digits(m.take(p)) && only_digits(
            m.skip(p + 1),
        ) && m.len() > 1
}

pub open spec fn is_exp_mark(c: char) -> bool {
    c == 'e' || c == 'E'
}

/// A mantissa, then optionally `e` or `E`, an optional sign and digits.
pub open spec fn is_number_text(t: Seq<char>) -> bool {
    exists|k: int|
        0 <= k <= t.len() && is_mantissa(#[trigger] t.take(k)) && (k == t.len() || (is_exp_mark(
            t[k],
        ) && all_digits(unsigned(t.skip(k + 1)))))
}

pub open spec fn inf_word() -> Seq<char> {
    seq!['i', 'n', 'f']
}

pub open spec fn infinity_word() -> Seq<char> {
    seq!['i', 'n', 'f', 'i', 'n', 'i', 't', 'y']
}

pub open spec fn nan_word() -> Seq<char> {
    seq!['n', 'a', 'n']
}

/// Whether `s.parse::<f64>()` succeeds: the grammar of `f64`'s `FromStr`,
/// an optional sign, then `inf`, `infinity` or `nan` in any ASCII case, or a
/// decimal number with an optional exponent.
pub open spec fn is_float_text(s: Seq<char>) -> bool {
    let t = unsigned(s);
    ||| same_ignoring_case(t, inf_word())
    ||| same_ignoring_case(t, infinity_word())
    ||| same_ignoring_case(t, nan_word())
    ||| is_number_text(t)
}

fn lower_code_of(c: char) -> (r: u32)
    ensures
        r == lower_code(c),
{
    let u = c as u32;
    if 65 <= u && u <= 90 {
        u + 32
    } else {
        u
    }
}

/// Whether `v[lo..hi]` is the lower-case word `w` up to ASCII case.
fn matches_word(v: &Vec<char>, lo: usize, hi: usize, w: &Vec<char>) -> (r: bool)
    requires
        lo <= hi <= v.len(),
    ensures
        r == same_ignoring_case(v@.subrange(lo as int, hi as int), w@),
{
    let ghost s = v@.subrange(lo as int, hi as int);
    if hi - lo != w.len() {
        return false;
    }
    let mut i: usize = 0;
    while i < w.len()
        invariant
            hi - lo == w.len(),
            lo <= hi <= v.len(),
            s == v@.subrange(lo as int, hi as int),
            i <= w.len(),
            forall|j: int| 0 <= j < i ==> lower_code(#[trigger] s[j]) == w@[j] as u32,
        decreases w.len() - i,
    {
        if lower_code_of(v[lo + i]) != w[i] as u32 {
            assert(s[i as int] == v@[lo + i]);
            return false;
        }
        assert(s[i as int] == v@[lo + i]);
        i = i + 1;
    }
    true
}

/// Whether `v[lo..hi]` holds decimal digits only.
fn digits_only(v: &Vec<char>, lo: usize, hi: usize) -> (r: bool)
    requires
        lo <= hi <= v.len(),
    ensures
        r == only_digits(v@.subrange(lo as int, hi as int)),
{
    let ghost s = v@.subrange(lo as int, hi as int);
    let mut i: usize = lo;
    while i < hi
        invariant
            lo <= i <= hi <= v.len(),
            s == v@.subrange(lo as int, hi as int),
            forall|j: int| lo <= j < i ==> is_digit(#[trigger] v@[j]),
        decreases hi - i,
    {
        let u = v[i] as u32;
        if u < 48 || u > 57 {
            assert(s[i - lo] == v@[i as int]);
            return false;
        }
        i = i + 1;
    }
    assert forall|j: int| 0 <= j < s.len() implies is_digit(#[trigger] s[j]) by {
        assert(s[j] == v@[lo + j]);
    }
    true
}

/// Whether `v[lo..hi]` is a mantissa.
fn mantissa_ok(v: &Vec<char>, lo: usize, hi: usize) -> (r: bool)
    requires
        lo <= hi <= v.len(),
    ensures
        r == is_mantissa(v@.subrange(lo as int, hi as int)),
{
    let ghost m = v@.subrange(lo as int, hi as int);
    match find_first(v, lo, hi, '.') {
        None => {
            let r = hi > lo && digits_only(v, lo, hi);
            assert(r == is_mantissa(m)) by {
                if exists|p: int| 0 <= p < m.len() && #[trigger] m[p] == '.' {
                    let p = choose|p: int| 0 <= p < m.len() && #[trigger] m[p] == '.';
                    assert(v@[lo + p] == '.');
                }
            }
            r
        },
        Some(p) => {
            let r = digits_only(v, lo, p) && digits_only(v, p + 1, hi) && hi - lo > 1;
            let ghost q = p - lo;
            assert(m.take(q) =~= v@.subrange(lo as int, p as int));
            assert(m.skip(q + 1) =~= v@.subrange(p + 1, hi as int));
            assert(m[q] == '.');
            assert(!(m.len() > 0 && only_digits(m))) by {
                assert(!is_digit(m[q]));
            }
            assert(r == is_mantissa(m)) by {
                if !r && is_mantissa(m) {
                    let p2 = choose|p2: int|
                        0 <= p2 < m.len() && #[trigger] m[p2] == '.' && only_digits(m.take(p2))
                            && only_digits(m.skip(p2 + 1)) && m.len() > 1;
                    if p2 < q {
                        assert(v@[lo + p2] == '.');
                    } else if p2 > q {
                        assert(m.take(p2)[q] == '.');
                    }
                }
            }
            r
        },
    }
}

proof fn lemma_mantissa_no_exp_mark(m: Seq<char>)
    requires
        is_mantissa(m),
    ensures
        forall|j: int| 0 <= j < m.len() ==> !is_exp_mark(#[trigger] m[j]),
{
    assert forall|j: int| 0 <= j < m.len() implies !is_exp_mark(#[trigger] m[j]) by {
        if m.len() > 0 && only_digits(m) {
            assert(is_digit(m[j]));
        } else {
            let p = choose|p: int|
                0 <= p < m.len() && #[trigger] m[p] == '.' && only_digits(m.take(p))
                    && only_digits(m.skip(p + 1)) && m.len() > 1;
            if j < p {
                assert(m.take(p)[j] == m[j]);
            } else if j > p {
                assert(m.skip(p + 1)[j - p - 1] == m[j]);
            }
        }
    }
}

/// With `kk` the position of the first exponent mark of `t` (or its length),
/// `t` is a number exactly when its mantissa ends at `kk`.
proof fn lemma_number_text(t: Seq<char>, kk: int)
    requires
        0 <= kk <= t.len(),
        forall|j: int| 0 <= j < kk ==> !is_exp_mark(#[trigger] t[j]),
        kk < t.len() ==> is_exp_mark(t[kk]),
    ensures
        is_number_text(t) == (is_mantissa(t.take(kk)) && (kk == t.len() || all_digits(
            unsigned(t.skip(kk + 1)),
        ))),
{
    if is_mantissa(t.take(kk)) && (kk == t.len() || all_digits(unsigned(t.skip(kk + 1)))) {
        assert(is_mantissa(t.take(kk)));
    }
    if is_number_text(t) {
        let k2 = choose|k2: int|
            0 <= k2 <= t.len() && is_mantissa(#[trigger] t.take(k2)) && (k2 == t.len() || (
            is_exp_mark(t[k2]) && all_digits(unsigned(t.skip(k2 + 1)))));
        lemma_mantissa_no_exp_mark(t.take(k2));
        if k2 > kk {
            assert(t.take(k2)[kk] == t[kk]);
        }
        assert(k2 == kk);
    }
}

/// Whether `s.parse::<f64>()` would succeed.
pub fn is_float_literal(s: &str) -> (r: bool)
    ensures
        r == is_float_text(s@),
{
    let v = chars_of(s);
    let n = v.len();
    let t0: usize = if n > 0 && (v[0] == '+' || v[0] == '-') {
        1
    } else {
        0
    };
    let ghost t = unsigned(s@);
    assert(t =~= v@.subrange(t0 as int, n as int));
    let inf = vec!['i', 'n', 'f'];
    let infinity = vec!['i', 'n', 'f', 'i', 'n', 'i', 't', 'y'];
    let nan = vec!['n', 'a', 'n'];
    assert(inf@ =~= inf_word());
    assert(infinity@ =~= infinity_word());
    assert(nan@ =~= nan_word());
    if matches_word(&v, t0, n, &inf) || matches_word(&v, t0, n, &infinity) || matches_word(
        &v,
        t0,
        n,
        &nan,
    ) {
        return true;
    }
    // the first exponent mark, or the end
    let mut k: usize = t0;
    let mut found = false;
    while k < n && !found
        invariant
            t0 <= k <= n == v.len(),
            found ==> k < n && is_exp_mark(v@[k as int]),
            forall|j: int| t0 <= j < k ==> !is_exp_mark(#[trigger] v@[j]),
        decreases n - k + if found {
            0int
        } else {
            1int
        },
    {
        if v[k] == 'e' || v[k] == 'E' {
            found = true;
        } else {
            k = k + 1;
        }
    }
    let m_ok = mantissa_ok(&v, t0, k);
    let ghost kk = k - t0;
    assert(t.take(kk) =~= v@.subrange(t0 as int, k as int));
    let r = if !m_ok {
        false
    } else if !found {
        true
    } else {
        let e0: usize = if k + 1 < n && (v[k + 1] == '+' || v[k + 1] == '-') {
            k + 2
        } else {
            k + 1
        };
        assert(unsigned(t.skip(kk + 1)) =~= v@.subrange(e0 as int, n as int));
        e0 < n && digits_only(&v, e0, n)
    };
    proof {
        assert forall|j: int| 0 <= j < kk implies !is_exp_mark(#[trigger] t[j]) by {
            assert(t[j] == v@[t0 + j]);
        }
        lemma_number_text(t, kk);
    }
    r
}

} // verus!
