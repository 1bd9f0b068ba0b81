//! Decimal text: reading and writing integers as sequences of characters.

use vstd::prelude::*;

verus! {

/// Whether `c` is one of the ASCII digits `0` through `9`.
pub open spec fn is_digit(c: char) -> bool {
    '0' <= c && c <= '9'
}

/// The value of an ASCII digit.
pub open spec fn digit_value(c: char) -> nat {
    ((c as int) - ('0' as int)) as nat
}

/// The ASCII digit of a value below ten.
pub open spec fn digit_char(d: nat) -> char {
    ((d + ('0' as int)) as u32) as char
}

pub open spec fn all_digits(s: Seq<char>) -> bool {
    forall|i: int| 0 <= i < s.len() ==> is_digit(#[trigger] s[i])
}

/// The value of a string of decimal digits, most significant first.
pub open spec fn digits_value(s: Seq<char>) -> nat
    decreases s.len(),
{
    if s.len() == 0 {
        0
    } else {
        digits_value(s.drop_last()) * 10 + digit_value(s.last())
    }
}

/// What `i64::from_str` accepts and returns: an optional `+` or `-`, then one
/// or more ASCII digits, denoting a value that fits in an `i64`.
pub open spec fn parse_int(s: Seq<char>) -> Option<int> {
    let signed = s.len() > 0 && (s[0] == '-' || s[0] == '+');
    let negative = s.len() > 0 && s[0] == '-';
    let ds = if signed { s.drop_first() } else { s };
    if ds.len() == 0 || !all_digits(ds) {
        None
    } else {
        let v: int = if negative { -(digits_value(ds) as int) } else { digits_value(ds) as int };
        if i64::MIN <= v && v <= i64::MAX {
            Some(v)
        } else {
            None
        }
    }
}

/// The shortest decimal text of a natural number.
pub open spec fn nat_text(n: nat) -> Seq<char>
    decreases n,
{
    if n < 10 {
        seq![digit_char(n)]
    } else {
        nat_text(n / 10).push(digit_char(n % 10))
    }
}

/// Decimal text of an integer, with a leading `-` when it is negative.
pub open spec fn int_text(n: int) -> Seq<char> {
    if n < 0 {
        seq!['-'] + nat_text((-n) as nat)
    } else {
        nat_text(n as nat)
    }
}

/// `s`, preceded by as many `0` as it takes to make it at least `width` long.
pub open spec fn zero_padded(s: Seq<char>, width: nat) -> Seq<char> {
    if s.len() >= width {
        s
    } else {
        Seq::new((width - s.len()) as nat, |i: int| '0') + s
    }
}

/// The first position of `c` in `s`.
pub open spec fn index_of(s: Seq<char>, c: char) -> Option<int>
    decreases s.len(),
{
    if s.len() == 0 {
        None
    } else if s[0] == c {
        Some(0)
    } else {
        match index_of(s.drop_first(), c) {
            Some(i) => Some(i + 1),
            None => None,
        }
    }
}

pub proof fn lemma_index_of(s: Seq<char>, c: char)
    ensures
        match index_of(s, c) {
            Some(i) => 0 <= i < s.len() && s[i] == c && forall|j: int| 0 <= j < i ==> s[j] != c,
            None => forall|j: int| 0 <= j < s.len() ==> s[j] != c,
        },
    decreases s.len(),
{
    if s.len() > 0 && s[0] != c {
        lemma_index_of(s.drop_first(), c);
        match index_of(s.drop_first(), c) {
            Some(i) => {
                assert forall|j: int| 0 <= j < i + 1 implies s[j] != c by {
                    if j > 0 {
                        assert(s[j] == s.drop_first()[j - 1]);
                    }
                }
            },
            None => {
                assert forall|j: int| 0 <= j < s.len() implies s[j] != c by {
                    if j > 0 {
                        assert(s[j] == s.drop_first()[j - 1]);
                    }
                }
            },
        }
    }
}

/// Characterizes `index_of` by the positions where `c` occurs.
pub proof fn lemma_index_of_unique(s: Seq<char>, c: char, k: int)
    requires
        0 <= k < s.len(),
        s[k] == c,
        forall|j: int| 0 <= j < k ==> s[j] != c,
    ensures
        index_of(s, c) == Some(k),
{
    lemma_index_of(s, c);
}

pub proof fn lemma_index_of_none(s: Seq<char>, c: char)
    requires
        forall|j: int| 0 <= j < s.len() ==> s[j] != c,
    ensures
        index_of(s, c) is None,
{
    lemma_index_of(s, c);
}

/// The characters of a string slice, in order.
pub fn chars_of(s: &str) -> (res: Vec<char>)
    ensures
        res@ == s@,
{
    let n = s.unicode_len();
    let mut res: Vec<char> = Vec::new();
    let mut i: usize = 0;
    while i < n
        invariant
            n == s@.len(),
            i <= n,
            res@ == s@.subrange(0, i as int),
        decreases n - i,
    {
        let c = s.get_char(i);
        res.push(c);
        i = i + 1;
        assert(res@ =~= s@.subrange(0, i as int));
    }
    assert(res@ =~= s@);
    res
}

/// Whether two string slices hold the same characters.
pub fn str_eq(a: &str, b: &str) -> (res: bool)
    ensures
        res == (a@ == b@),
{
    let ca = chars_of(a);
    let cb = chars_of(b);
    if ca.len() != cb.len() {
        return false;
    }
    let mut i: usize = 0;
    while i < ca.len()
        invariant
            ca@ == a@,
            cb@ == b@,
            ca.len() == cb.len(),
            i <= ca.len(),
            forall|j: int| 0 <= j < i ==> ca@[j] == cb@[j],
        decreases ca.len() - i,
    {
        if ca[i] != cb[i] {
            return false;
        }
        i = i + 1;
    }
    assert(ca@ =~= cb@);
    true
}

/// Appends one character to a string: `String::push`.
#[verifier::external_body]
pub(crate) fn push_char(s: &mut String, c: char)
    ensures
        final(s)@ == old(s)@.push(c),
{
    s.push(c)
}

/// A string holding the given characters.
pub fn string_from_chars(cs: &[char]) -> (res: String)
    ensures
        res@ == cs@,
{
    let mut res = String::new();
    let mut i: usize = 0;
    while i < cs.len()
        invariant
            i <= cs@.len(),
            res@ == cs@.subrange(0, i as int),
        decreases cs.len() - i,
    {
        push_char(&mut res, cs[i]);
        i = i + 1;
        assert(res@ =~= cs@.subrange(0, i as int));
    }
    assert(res@ =~= cs@);
    res
}

fn digit_to_char(d: u64) -> (c: char)
    requires
        d < 10,
    ensures
        c == digit_char(d as nat),
{
    let b: u8 = 48u8 + (d as u8);
    b as char
}

/// Appends the decimal text of `n`.
pub fn push_nat_text(out: &mut String, n: u64)
    ensures
        final(out)@ == old(out)@ + nat_text(n as nat),
    decreases n,
{
    if n >= 10 {
        push_nat_text(out, n / 10);
    }
    push_char(out, digit_to_char(n % 10));
    assert(final(out)@ =~= old(out)@ + nat_text(n as nat)) by {
        if n >= 10 {
            assert(nat_text(n as nat) == nat_text((n / 10) as nat).push(digit_char((n % 10) as nat)));
        }
    }
}

/// Appends the decimal text of `n`, padded with zeros to at least `width` characters.
pub fn push_zero_padded(out: &mut String, n: u64, width: usize)
    ensures
        final(out)@ == old(out)@ + zero_padded(nat_text(n as nat), width as nat),
{
    let mut digits = String::new();
    push_nat_text(&mut digits, n);
    assert(digits@ =~= nat_text(n as nat));
    let len = digits.as_str().unicode_len();
    let ghost start = out@;
    if len < width {
        let mut k: usize = 0;
        while k < width - len
            invariant
                len < width,
                k <= width - len,
                out@ == start + Seq::new(k as nat, |i: int| '0'),
            decreases width - len - k,
        {
            push_char(out, '0');
            k = k + 1;
            assert(out@ =~= start + Seq::new(k as nat, |i: int| '0'));
        }
    }
    out.append(digits.as_str());
    assert(out@ =~= start + zero_padded(nat_text(n as nat), width as nat));
}

/// Appends the decimal text of `n`, with a `-` in front when it is negative.
pub fn push_int_text(out: &mut String, n: i64)
    ensures
        final(out)@ == old(out)@ + int_text(n as int),
{
    if n < 0 {
        push_char(out, '-');
        let m: u64 = if n == i64::MIN {
            9223372036854775808u64
        } else {
            (-n) as u64
        };
        push_nat_text(out, m);
        assert(final(out)@ =~= old(out)@ + int_text(n as int));
    } else {
        push_nat_text(out, n as u64);
    }
}

/// The first position of `c` in `cs[lo..hi]`, counted from `lo`.
pub fn find_char(cs: &Vec<char>, lo: usize, hi: usize, c: char) -> (res: Option<usize>)
    requires
        lo <= hi <= cs@.len(),
    ensures
        match res {
            Some(i) => index_of(cs@.subrange(lo as int, hi as int), c) == Some(i as int) && lo + i
                < hi,
            None => index_of(cs@.subrange(lo as int, hi as int), c) is None,
        },
{
    let ghost s = cs@.subrange(lo as int, hi as int);
    let mut k = lo;
    while k < hi
        invariant
            lo <= k <= hi <= cs@.len(),
            s == cs@.subrange(lo as int, hi as int),
            forall|j: int| 0 <= j < k - lo ==> s[j] != c,
        decreases hi - k,
    {
        if cs[k] == c {
            proof {
                lemma_index_of_unique(s, c, k - lo);
            }
            return Some(k - lo);
        }
        k = k + 1;
    }
    proof {
        lemma_index_of_none(s, c);
    }
    None
}

proof fn lemma_digits_value_step(s: Seq<char>, lo: int, k: int)
    requires
        0 <= lo <= k < s.len(),
    ensures
        digits_value(s.subrange(lo, k + 1)) == digits_value(s.subrange(lo, k)) * 10 + digit_value(
            s[k],
        ),
{
    assert(s.subrange(lo, k + 1).drop_last() =~= s.subrange(lo, k));
}

/// `i64::from_str` on the characters `cs[lo..hi]`.
pub fn parse_int_range(cs: &Vec<char>, lo: usize, hi: usize) -> (res: Option<i64>)
    requires
        lo <= hi <= cs@.len(),
    ensures
        match res {
            Some(v) => parse_int(cs@.subrange(lo as int, hi as int)) == Some(v as int),
            None => parse_int(cs@.subrange(lo as int, hi as int)) is None,
        },
{
    let ghost s = cs@.subrange(lo as int, hi as int);
    let signed = lo < hi && (cs[lo] == '-' || cs[lo] == '+');
    let negative = lo < hi && cs[lo] == '-';
    let start = if signed {
        lo + 1
    } else {
        lo
    };
    let ghost ds = cs@.subrange(start as int, hi as int);
    assert(ds =~= if signed {
        s.drop_first()
    } else {
        s
    });
    if start == hi {
        return None;
    }
    // The magnitude of i64::MIN; anything larger cannot be represented.
    let limit: u64 = 9223372036854775808u64;
    let mut acc: u64 = 0;
    let mut too_big = false;
    let mut k = start;
    while k < hi
        invariant
            start <= k <= hi <= cs@.len(),
            ds == cs@.subrange(start as int, hi as int),
            s == cs@.subrange(lo as int, hi as int),
            signed == (s.len() > 0 && (s[0] == '-' || s[0] == '+')),
            negative == (s.len() > 0 && s[0] == '-'),
            ds == (if signed { s.drop_first() } else { s }),
            ds.len() > 0,
            limit == 9223372036854775808u64,
            forall|j: int| start <= j < k ==> is_digit(cs@[j]),
            !too_big ==> acc == digits_value(cs@.subrange(start as int, k as int)),
            !too_big ==> acc <= limit,
            too_big ==> digits_value(cs@.subrange(start as int, k as int)) > limit,
        decreases hi - k,
    {
        let c = cs[k];
        if !('0' <= c && c <= '9') {
            assert(ds[k - start] == cs@[k as int]);
            assert(!is_digit(ds[k - start]));
            assert(!all_digits(ds));
            return None;
        }
        let d: u64 = (c as u32 - '0' as u32) as u64;
        assert(d < 10 && d == digit_value(cs@[k as int]));
        proof {
            lemma_digits_value_step(cs@, start as int, k as int);
        }
        if !too_big {
            if acc > (limit - d) / 10 {
                too_big = true;
            } else {
                acc = acc * 10 + d;
            }
        }
        k = k + 1;
    }
    assert(cs@.subrange(start as int, hi as int) == ds);
    assert(all_digits(ds));
    if too_big {
        return None;
    }
    if negative {
        if acc == limit {
            Some(i64::MIN)
        } else {
            Some(-(acc as i64))
        }
    } else {
        if acc > 9223372036854775807u64 {
            None
        } else {
            Some(acc as i64)
        }
    }
}


/// `s` without `suffix` at its end, when it ends with it.
pub open spec fn stripped(s: Seq<char>, suffix: Seq<char>) -> Option<Seq<char>> {
    if suffix.len() <= s.len() && s.subrange(s.len() - suffix.len(), s.len() as int) == suffix {
        Some(s.subrange(0, s.len() - suffix.len()))
    } else {
        None
    }
}

/// `str::strip_suffix`, as an owned string.
pub fn strip_suffix(s: &str, suffix: &str) -> (r: Option<String>)
    ensures
        match r {
            Some(t) => stripped(s@, suffix@) == Some(t@),
            None => stripped(s@, suffix@) is None,
        },
{
    let cs = chars_of(s);
    let xs = chars_of(suffix);
    if xs.len() > cs.len() {
        return None;
    }
    let start = cs.len() - xs.len();
    let mut i: usize = 0;
    while i < xs.len()
        invariant
            cs@ == s@,
            xs@ == suffix@,
            start == cs.len() - xs.len(),
            i <= xs.len(),
            forall|j: int| 0 <= j < i ==> cs@[start + j] == xs@[j],
        decreases xs.len() - i,
    {
        if cs[start + i] != xs[i] {
            assert(s@.subrange(start as int, s@.len() as int)[i as int] != suffix@[i as int]);
            return None;
        }
        i = i + 1;
    }
    assert(s@.subrange(start as int, s@.len() as int) =~= suffix@);
    let mut t = String::new();
    let mut k: usize = 0;
    while k < start
        invariant
            cs@ == s@,
            k <= start <= cs.len(),
            t@ == s@.subrange(0, k as int),
        decreases start - k,
    {
        push_char(&mut t, cs[k]);
        k = k + 1;
        assert(t@ =~= s@.subrange(0, k as int));
    }
    Some(t)
}


/// `s` without the copies of `c` at its start.
pub open spec fn trimmed_start(s: Seq<char>, c: char) -> Seq<char>
    decreases s.len(),
{
    if s.len() > 0 && s[0] == c {
        trimmed_start(s.drop_first(), c)
    } else {
        s
    }
}

/// `str::trim_start_matches` with a character, as an owned string.
pub fn trim_start_char(s: &str, c: char) -> (r: String)
    ensures
        r@ == trimmed_start(s@, c),
{
    let cs = chars_of(s);
    assert(s@.subrange(0, s@.len() as int) =~= s@);
    let mut k: usize = 0;
    while k < cs.len() && cs[k] == c
        invariant
            cs@ == s@,
            k <= cs.len(),
            trimmed_start(s@, c) == trimmed_start(s@.subrange(k as int, s@.len() as int), c),
        decreases cs.len() - k,
    {
        assert(s@.subrange(k as int, s@.len() as int).drop_first() =~= s@.subrange(k + 1, s@.len() as int));
        k = k + 1;
    }
    let ghost start = k;
    proof {
        let rest = s@.subrange(k as int, s@.len() as int);
        assert(!(rest.len() > 0 && rest[0] == c));
    }
    let mut r = String::new();
    while k < cs.len()
        invariant
            cs@ == s@,
            start <= k <= cs.len(),
            r@ == s@.subrange(start as int, k as int),
        decreases cs.len() - k,
    {
        push_char(&mut r, cs[k]);
        k = k + 1;
        assert(r@ =~= s@.subrange(start as int, k as int));
    }
    r
}

/// `s` without `prefix` at its start, when it starts with it.
pub open spec fn stripped_prefix(s: Seq<char>, prefix: Seq<char>) -> Option<Seq<char>> {
    if prefix.len() <= s.len() && s.subrange(0, prefix.len() as int) == prefix {
        Some(s.subrange(prefix.len() as int, s.len() as int))
    } else {
        None
    }
}

/// `str::strip_prefix`, as an owned string.
pub fn strip_prefix(s: &str, prefix: &str) -> (r: Option<String>)
    ensures
        match r {
            Some(t) => stripped_prefix(s@, prefix@) == Some(t@),
            None => stripped_prefix(s@, prefix@) is None,
        },
{
    let cs = chars_of(s);
    let ps = chars_of(prefix);
    if ps.len() > cs.len() {
        return None;
    }
    let mut i: usize = 0;
    while i < ps.len()
        invariant
            cs@ == s@,
            ps@ == prefix@,
            ps.len() <= cs.len(),
            i <= ps.len(),
            forall|j: int| 0 <= j < i ==> cs@[j] == ps@[j],
        decreases ps.len() - i,
    {
        if cs[i] != ps[i] {
            assert(s@.subrange(0, prefix@.len() as int)[i as int] != prefix@[i as int]);
            return None;
        }
        i = i + 1;
    }
    assert(s@.subrange(0, prefix@.len() as int) =~= prefix@);
    let mut t = String::new();
    let mut k: usize = ps.len();
    while k < cs.len()
        invariant
            cs@ == s@,
            ps.len() <= k <= cs.len(),
            ps@ == prefix@,
            t@ == s@.subrange(prefix@.len() as int, k as int),
        decreases cs.len() - k,
    {
        push_char(&mut t, cs[k]);
        k = k + 1;
        assert(t@ =~= s@.subrange(prefix@.len() as int, k as int));
    }
    Some(t)
}

/// The pieces of `s` between the copies of `c`, as `str::split` gives them.
pub open spec fn split_on(s: Seq<char>, c: char) -> Seq<Seq<char>>
    decreases s.len(),
{
    match index_of(s, c) {
        Some(i) => if 0 <= i < s.len() {
            seq![s.subrange(0, i)] + split_on(s.subrange(i + 1, s.len() as int), c)
        } else {
            seq![s]
        },
        None => seq![s],
    }
}

/// The views of a sequence of strings.
pub open spec fn strings_view(v: Seq<String>) -> Seq<Seq<char>> {
    v.map_values(|t: String| t@)
}

proof fn lemma_split_step(cur: Seq<char>, rest: Seq<char>, c: char)
    requires
        forall|j: int| 0 <= j < cur.len() ==> cur[j] != c,
        rest.len() > 0,
        rest[0] == c,
    ensures
        split_on(cur + rest, c) == seq![cur] + split_on(rest.drop_first(), c),
{
    let s = cur + rest;
    lemma_index_of_unique(s, c, cur.len() as int);
    assert(s.subrange(0, cur.len() as int) =~= cur);
    assert(s.subrange(cur.len() as int + 1, s.len() as int) =~= rest.drop_first());
}

proof fn lemma_split_none(cur: Seq<char>, c: char)
    requires
        forall|j: int| 0 <= j < cur.len() ==> cur[j] != c,
    ensures
        split_on(cur, c) == seq![cur],
{
    lemma_index_of_none(cur, c);
}

/// `str::split` with a character, as owned strings.
pub fn split_char(s: &str, c: char) -> (r: Vec<String>)
    ensures
        strings_view(r@) == split_on(s@, c),
{
    let cs = chars_of(s);
    let mut r: Vec<String> = Vec::new();
    let mut cur = String::new();
    let mut k: usize = 0;
    assert(s@.subrange(0, s@.len() as int) =~= s@);
    assert(cur@ + s@.subrange(0, s@.len() as int) =~= s@);
    while k < cs.len()
        invariant
            cs@ == s@,
            k <= cs.len(),
            forall|j: int| 0 <= j < cur@.len() ==> cur@[j] != c,
            strings_view(r@) + split_on(cur@ + s@.subrange(k as int, s@.len() as int), c) == split_on(s@, c),
        decreases cs.len() - k,
    {
        let ghost rest = s@.subrange(k as int, s@.len() as int);
        assert(rest[0] == cs@[k as int]);
        assert(rest.drop_first() =~= s@.subrange(k + 1, s@.len() as int));
        if cs[k] == c {
            proof {
                lemma_split_step(cur@, rest, c);
                assert(strings_view(r@.push(cur)) =~= strings_view(r@).push(cur@));
                assert(cur@ + rest == cur@ + rest);
                assert(seq![cur@] + split_on(rest.drop_first(), c) == seq![cur@] + split_on(Seq::<char>::empty() + rest.drop_first(), c)) by {
                    assert(Seq::<char>::empty() + rest.drop_first() =~= rest.drop_first());
                }
                assert(strings_view(r@).push(cur@) + split_on(Seq::<char>::empty() + rest.drop_first(), c)
                    =~= strings_view(r@) + (seq![cur@] + split_on(rest.drop_first(), c)));
            }
            r.push(cur);
            cur = String::new();
        } else {
            let ghost before = cur@;
            push_char(&mut cur, cs[k]);
            proof {
                assert(cur@ + s@.subrange(k + 1, s@.len() as int) =~= before + rest);
            }
        }
        k = k + 1;
    }
    proof {
        assert(cur@ + s@.subrange(k as int, s@.len() as int) =~= cur@);
        lemma_split_none(cur@, c);
        assert(strings_view(r@.push(cur)) =~= strings_view(r@).push(cur@));
        assert(strings_view(r@) + seq![cur@] =~= strings_view(r@).push(cur@));
    }
    r.push(cur);
    r
}


proof fn lemma_digit_char(d: nat)
    requires
        d < 10,
    ensures
        is_digit(digit_char(d)),
        digit_value(digit_char(d)) == d,
{
    let c = digit_char(d);
    assert((c as int) == d + 48);
}

/// The decimal text of a natural number is a non-empty string of digits
/// that denotes the number.
pub proof fn lemma_nat_text(n: nat)
    ensures
        nat_text(n).len() >= 1,
        all_digits(nat_text(n)),
        digits_value(nat_text(n)) == n,
    decreases n,
{
    lemma_digit_char((n % 10) as nat);
    if n < 10 {
        assert(nat_text(n) =~= seq![digit_char(n)]);
        assert(nat_text(n).drop_last() =~= Seq::<char>::empty());
        assert(digits_value(Seq::<char>::empty()) == 0);
    }
    if n >= 10 {
        lemma_nat_text(n / 10);
        let t = nat_text(n / 10);
        let s = t.push(digit_char(n % 10));
        assert(s.drop_last() =~= t);
        assert(s.last() == digit_char(n % 10));
        assert(digits_value(s) == digits_value(t) * 10 + digit_value(s.last()));
        assert((n / 10) * 10 + n % 10 == n);
        assert forall|i: int| 0 <= i < s.len() implies is_digit(#[trigger] s[i]) by {
            if i < t.len() {
                assert(s[i] == t[i]);
            }
        }
    }
}

/// A number below `10^k` has at most `k` digits.
pub proof fn lemma_nat_text_len(n: nat, k: nat, bound: nat)
    requires
        k >= 1,
        n < bound,
        bound == crate::decimal::pow10(k),
    ensures
        nat_text(n).len() <= k,
    decreases k,
{
    if n >= 10 {
        assert(k >= 2) by {
            if k == 1 {
                assert(crate::decimal::pow10(1) == 10 * crate::decimal::pow10(0));
            }
        }
        let b2 = crate::decimal::pow10((k - 1) as nat);
        assert(bound == 10 * b2);
        assert(n / 10 < b2);
        lemma_nat_text_len(n / 10, (k - 1) as nat, b2);
    }
}

/// Leading zeros change neither that a string is made of digits nor its value.
pub proof fn lemma_leading_zeros(z: nat, s: Seq<char>)
    requires
        all_digits(s),
    ensures
        all_digits(Seq::new(z, |i: int| '0') + s),
        digits_value(Seq::new(z, |i: int| '0') + s) == digits_value(s),
    decreases s.len() + z,
{
    let zs = Seq::new(z, |i: int| '0');
    let t = zs + s;
    assert forall|i: int| 0 <= i < t.len() implies is_digit(#[trigger] t[i]) by {
        if i >= z {
            assert(t[i] == s[i - z]);
        }
    }
    if s.len() > 0 {
        assert(t.drop_last() =~= zs + s.drop_last());
        assert(all_digits(s.drop_last())) by {
            assert forall|i: int| 0 <= i < s.drop_last().len() implies is_digit(#[trigger] s.drop_last()[i]) by {
                assert(s.drop_last()[i] == s[i]);
            }
        }
        lemma_leading_zeros(z, s.drop_last());
    } else if z > 0 {
        let zs1 = Seq::new((z - 1) as nat, |i: int| '0');
        assert(t.drop_last() =~= zs1 + s);
        lemma_leading_zeros((z - 1) as nat, s);
    } else {
        assert(t =~= s);
    }
}

/// Zero-padded decimal text reads back as the number.
pub proof fn lemma_zero_padded_nat_text(n: nat, width: nat)
    ensures
        all_digits(zero_padded(nat_text(n), width)),
        digits_value(zero_padded(nat_text(n), width)) == n,
        zero_padded(nat_text(n), width).len() >= 1,
{
    lemma_nat_text(n);
    let s = nat_text(n);
    if s.len() < width {
        lemma_leading_zeros((width - s.len()) as nat, s);
    }
}




/// Splitting gives at least one piece.
pub proof fn lemma_split_nonempty(s: Seq<char>, c: char)
    ensures
        split_on(s, c).len() >= 1,
    decreases s.len(),
{
    match index_of(s, c) {
        Some(i) => {
            lemma_index_of(s, c);
            lemma_split_nonempty(s.subrange(i + 1, s.len() as int), c);
        },
        None => {},
    }
}

} // verus!
