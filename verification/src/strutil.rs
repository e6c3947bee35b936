//! String helpers over `Seq<char>` views: suffix tests, path stems,
//! decimal formatting and parsing.  Paths are modelled as plain strings.

use vstd::prelude::*;

verus! {

/// `suffix` is a suffix of `s`.
pub open spec fn ends_with(s: Seq<char>, suffix: Seq<char>) -> bool {
    suffix.len() <= s.len() && s.skip(s.len() - suffix.len()) == suffix
}

/// Whether `s` ends with `suffix`, by characters.
pub fn str_ends_with(s: &str, suffix: &str) -> (r: bool)
    ensures
        r == ends_with(s@, suffix@),
{
    let n = s.unicode_len();
    let m = suffix.unicode_len();
    if m > n {
        assert(!ends_with(s@, suffix@));
        return false;
    }
    let mut i: usize = 0;
    while i < m
        invariant
            m <= n,
            n == s@.len(),
            m == suffix@.len(),
            0 <= i <= m,
            forall|j: int| 0 <= j < i ==> s@[n - m + j] == suffix@[j],
        decreases m - i,
    {
        let cs = s.get_char(n - m + i);
        let cx = suffix.get_char(i);
        if cs != cx {
            assert(s@.skip(n - m)[i as int] != suffix@[i as int]);
            return false;
        }
        i += 1;
    }
    proof {
        assert(s@.skip(n - m) =~= suffix@);
    }
    true
}

/// Whether `a` and `b` hold the same characters.
pub fn str_eq(a: &str, b: &str) -> (r: bool)
    ensures
        r == (a@ == b@),
{
    let n = a.unicode_len();
    let m = b.unicode_len();
    if n != m {
        return false;
    }
    let mut i: usize = 0;
    while i < n
        invariant
            n == a@.len(),
            n == b@.len(),
            0 <= i <= n,
            forall|j: int| 0 <= j < i ==> a@[j] == b@[j],
        decreases n - i,
    {
        if a.get_char(i) != b.get_char(i) {
            return false;
        }
        i += 1;
    }
    proof {
        assert(a@ =~= b@);
    }
    true
}

/// Index of the last occurrence of `c` in `p`, or `-1` if `c` is absent.
pub open spec fn last_index(p: Seq<char>, c: char) -> int
    decreases p.len(),
{
    if p.len() == 0 {
        -1
    } else if p.last() == c {
        p.len() - 1
    } else {
        last_index(p.drop_last(), c)
    }
}

proof fn lemma_last_index_found(p: Seq<char>, c: char, i: int)
    requires
        0 <= i < p.len(),
        p[i] == c,
        forall|j: int| i < j < p.len() ==> p[j] != c,
    ensures
        last_index(p, c) == i,
    decreases p.len(),
{
    if i < p.len() - 1 {
        lemma_last_index_found(p.drop_last(), c, i);
    }
}

proof fn lemma_last_index_bounds(p: Seq<char>, c: char)
    ensures
        -1 <= last_index(p, c) < p.len(),
    decreases p.len(),
{
    if p.len() > 0 && p.last() != c {
        lemma_last_index_bounds(p.drop_last(), c);
    }
}

proof fn lemma_last_index_none(p: Seq<char>, c: char)
    requires
        forall|j: int| 0 <= j < p.len() ==> p[j] != c,
    ensures
        last_index(p, c) == -1,
    decreases p.len(),
{
    if p.len() > 0 {
        lemma_last_index_none(p.drop_last(), c);
    }
}

/// Index of the last occurrence of `c` in `s`, if any.
pub fn str_last_index_of(s: &str, c: char) -> (r: Option<usize>)
    ensures
        match r {
            Some(i) => i < s@.len() && s@[i as int] == c && last_index(s@, c) == i as int,
            None => last_index(s@, c) == -1,
        },
{
    let n = s.unicode_len();
    let mut i: usize = n;
    while i > 0
        invariant
            n == s@.len(),
            0 <= i <= n,
            forall|j: int| i <= j < n ==> s@[j] != c,
        decreases i,
    {
        i -= 1;
        if s.get_char(i) == c {
            proof {
                lemma_last_index_found(s@, c, i as int);
            }
            return Some(i);
        }
    }
    proof {
        lemma_last_index_none(s@, c);
    }
    None
}

/// Index of the first occurrence of `c` in `p`, or `-1` if `c` is absent.
pub open spec fn first_index(p: Seq<char>, c: char) -> int
    decreases p.len(),
{
    if p.len() == 0 {
        -1
    } else if p[0] == c {
        0
    } else if first_index(p.drop_first(), c) < 0 {
        -1
    } else {
        first_index(p.drop_first(), c) + 1
    }
}

pub proof fn lemma_first_index_found(p: Seq<char>, c: char, i: int)
    requires
        0 <= i < p.len(),
        p[i] == c,
        forall|j: int| 0 <= j < i ==> p[j] != c,
    ensures
        first_index(p, c) == i,
    decreases p.len(),
{
    if i > 0 {
        lemma_first_index_found(p.drop_first(), c, i - 1);
    }
}

pub proof fn lemma_first_index_none(p: Seq<char>, c: char)
    requires
        forall|j: int| 0 <= j < p.len() ==> p[j] != c,
    ensures
        first_index(p, c) == -1,
    decreases p.len(),
{
    if p.len() > 0 {
        lemma_first_index_none(p.drop_first(), c);
    }
}

pub proof fn lemma_first_index_properties(p: Seq<char>, c: char)
    ensures
        first_index(p, c) >= 0 ==> first_index(p, c) < p.len() && p[first_index(p, c)] == c
            && forall|j: int| 0 <= j < first_index(p, c) ==> p[j] != c,
        first_index(p, c) < 0 ==> first_index(p, c) == -1 && forall|j: int|
            0 <= j < p.len() ==> p[j] != c,
    decreases p.len(),
{
    if p.len() > 0 && p[0] != c {
        let pd = p.drop_first();
        lemma_first_index_properties(pd, c);
        if first_index(pd, c) >= 0 {
            assert forall|j: int| 0 <= j < first_index(p, c) implies p[j] != c by {
                if j > 0 {
                    assert(p[j] == pd[j - 1]);
                }
            }
        } else {
            assert forall|j: int| 0 <= j < p.len() implies p[j] != c by {
                if j > 0 {
                    assert(p[j] == pd[j - 1]);
                }
            }
        }
    }
}

/// Index of the first occurrence of `c` in `s`, if any.
pub fn str_first_index_of(s: &str, c: char) -> (r: Option<usize>)
    ensures
        match r {
            Some(i) => i < s@.len() && s@[i as int] == c && first_index(s@, c) == i as int,
            None => first_index(s@, c) == -1,
        },
{
    let n = s.unicode_len();
    let mut i: usize = 0;
    while i < n
        invariant
            n == s@.len(),
            0 <= i <= n,
            forall|j: int| 0 <= j < i ==> s@[j] != c,
        decreases n - i,
    {
        if s.get_char(i) == c {
            proof {
                lemma_first_index_found(s@, c, i as int);
            }
            return Some(i);
        }
        i += 1;
    }
    proof {
        lemma_first_index_none(s@, c);
    }
    None
}

/// The file-name portion of a path: the longest suffix free of `/`.
pub open spec fn file_name_of(p: Seq<char>) -> Seq<char>
    decreases p.len(),
{
    if p.len() == 0 || p.last() == '/' {
        Seq::empty()
    } else {
        file_name_of(p.drop_last()).push(p.last())
    }
}

proof fn lemma_file_name_skip(p: Seq<char>)
    ensures
        file_name_of(p) =~= p.skip(last_index(p, '/') + 1),
    decreases p.len(),
{
    if p.len() == 0 {
        assert(p.skip(0) =~= p);
    } else if p.last() == '/' {
        assert(p.skip(p.len() as int) =~= Seq::<char>::empty());
    } else {
        let pd = p.drop_last();
        let k = last_index(p, '/');
        assert(k == last_index(pd, '/'));
        lemma_last_index_bounds(pd, '/');
        lemma_file_name_skip(pd);
        assert(file_name_of(p) =~= p.skip(k + 1)) by {
            assert(file_name_of(p) == file_name_of(pd).push(p.last()));
            assert(file_name_of(pd) =~= pd.skip(k + 1));
            assert(forall|j: int|
                0 <= j < p.len() - k - 2 ==> #[trigger] pd.skip(k + 1)[j] == p.skip(k + 1)[j]);
        }
    }
}

/// The stem of a file name: everything before the last `.`, unless the
/// only `.` leads the name or there is none.
pub open spec fn stem_of(name: Seq<char>) -> Seq<char> {
    let i = last_index(name, '.');
    if i <= 0 {
        name
    } else {
        name.take(i)
    }
}

/// The stem of the file named by `path`.
pub open spec fn file_stem_of(path: Seq<char>) -> Seq<char> {
    stem_of(file_name_of(path))
}

/// Extracts the file stem of `path`: the file name without its final
/// extension.
pub fn file_stem(path: &str) -> (r: String)
    ensures
        r@ == file_stem_of(path@),
{
    let n = path.unicode_len();
    let name: &str = match str_last_index_of(path, '/') {
        Some(i) => path.substring_char(i + 1, n),
        None => path.substring_char(0, n),
    };
    proof {
        lemma_file_name_skip(path@);
        assert(name@ =~= file_name_of(path@));
    }
    match str_last_index_of(name, '.') {
        Some(i) => {
            if i == 0 {
                String::from_str(name)
            } else {
                let r = String::from_str(name.substring_char(0, i));
                proof {
                    assert(r@ =~= stem_of(name@));
                }
                r
            }
        },
        None => String::from_str(name),
    }
}

/// `s` with a leading `./` removed, if present.
pub open spec fn strip_dot_slash_spec(s: Seq<char>) -> Seq<char> {
    if s.len() >= 2 && s[0] == '.' && s[1] == '/' {
        s.skip(2)
    } else {
        s
    }
}

/// Removes a leading `./` from `s`, if present.
pub fn strip_dot_slash(s: &str) -> (r: &str)
    ensures
        r@ == strip_dot_slash_spec(s@),
{
    let n = s.unicode_len();
    if n >= 2 && s.get_char(0) == '.' && s.get_char(1) == '/' {
        s.substring_char(2, n)
    } else {
        s
    }
}

/// The character for the decimal digit `d`.
pub open spec fn digit_char(d: int) -> char {
    if d == 0 { '0' }
    else if d == 1 { '1' }
    else if d == 2 { '2' }
    else if d == 3 { '3' }
    else if d == 4 { '4' }
    else if d == 5 { '5' }
    else if d == 6 { '6' }
    else if d == 7 { '7' }
    else if d == 8 { '8' }
    else { '9' }
}

/// The decimal rendering of `n`, most significant digit first, no sign,
/// no leading zeroes (a single `0` for zero).
pub open spec fn dec_str(n: nat) -> Seq<char>
    decreases n,
{
    if n < 10 {
        seq![digit_char(n as int)]
    } else {
        dec_str(n / 10).push(digit_char((n % 10) as int))
    }
}

fn digit_to_string(d: u64) -> (r: String)
    requires
        d < 10,
    ensures
        r@ =~= seq![digit_char(d as int)],
{
    proof {
        reveal_strlit("0");
        reveal_strlit("1");
        reveal_strlit("2");
        reveal_strlit("3");
        reveal_strlit("4");
        reveal_strlit("5");
        reveal_strlit("6");
        reveal_strlit("7");
        reveal_strlit("8");
        reveal_strlit("9");
    }
    if d == 0 { String::from_str("0") }
    else if d == 1 { String::from_str("1") }
    else if d == 2 { String::from_str("2") }
    else if d == 3 { String::from_str("3") }
    else if d == 4 { String::from_str("4") }
    else if d == 5 { String::from_str("5") }
    else if d == 6 { String::from_str("6") }
    else if d == 7 { String::from_str("7") }
    else if d == 8 { String::from_str("8") }
    else { String::from_str("9") }
}

/// Renders `n` in decimal.
pub fn u64_to_string(n: u64) -> (r: String)
    ensures
        r@ == dec_str(n as nat),
    decreases n,
{
    if n < 10 {
        digit_to_string(n)
    } else {
        let high = u64_to_string(n / 10);
        let low = digit_to_string(n % 10);
        let r = high.concat(low.as_str());
        proof {
            assert(r@ =~= dec_str(n as nat));
        }
        r
    }
}

/// `c` is a decimal digit.
pub open spec fn is_digit_char(c: char) -> bool {
    48 <= c as u32 <= 57
}

/// A decimal rendering holds digits alone, and reading it back yields
/// the number it renders.
pub proof fn lemma_dec_str_value(n: nat)
    ensures
        dec_str(n).len() >= 1,
        forall|i: int| 0 <= i < dec_str(n).len() ==> is_digit_char(#[trigger] dec_str(n)[i]),
        dec_val(dec_str(n)) == n,
    decreases n,
{
    if n < 10 {
        assert(dec_val(dec_str(n)) == n) by {
            assert(dec_str(n).drop_last() =~= Seq::<char>::empty());
            assert(dec_val(Seq::<char>::empty()) == 0);
            assert(dec_str(n).last() == digit_char(n as int));
            assert(digit_val(digit_char(n as int)) == n);
        }
    } else {
        lemma_dec_str_value(n / 10);
        let s = dec_str(n);
        let h = dec_str(n / 10);
        assert(s == h.push(digit_char((n % 10) as int)));
        assert forall|i: int| 0 <= i < s.len() implies is_digit_char(#[trigger] s[i]) by {
            if i < h.len() {
                assert(s[i] == h[i]);
            }
        }
        assert(s.drop_last() =~= h);
        assert(dec_val(s) == dec_val(h) * 10 + digit_val(s.last()));
        assert(n / 10 * 10 + n % 10 == n) by (nonlinear_arith);
    }
}

/// The value of the digit `c`.
pub open spec fn digit_val(c: char) -> int {
    c as u32 - 48
}

/// The value of the digit string `s`, most significant digit first.
pub open spec fn dec_val(s: Seq<char>) -> int
    decreases s.len(),
{
    if s.len() == 0 {
        0
    } else {
        dec_val(s.drop_last()) * 10 + digit_val(s.last())
    }
}

/// `s` is a non-empty string of decimal digits.
pub open spec fn is_dec_digits(s: Seq<char>) -> bool {
    s.len() > 0 && forall|i: int| 0 <= i < s.len() ==> is_digit_char(#[trigger] s[i])
}

proof fn lemma_dec_val_nonneg(s: Seq<char>)
    requires
        forall|i: int| 0 <= i < s.len() ==> is_digit_char(#[trigger] s[i]),
    ensures
        dec_val(s) >= 0,
    decreases s.len(),
{
    if s.len() > 0 {
        lemma_dec_val_nonneg(s.drop_last());
    }
}

proof fn lemma_dec_val_prefix_le(s: Seq<char>, i: int)
    requires
        0 <= i <= s.len(),
        forall|j: int| 0 <= j < s.len() ==> is_digit_char(#[trigger] s[j]),
    ensures
        dec_val(s.take(i)) <= dec_val(s),
    decreases s.len() - i,
{
    if i == s.len() {
        assert(s.take(i) =~= s);
    } else {
        lemma_dec_val_prefix_le(s, i + 1);
        let t = s.take(i + 1);
        assert(t.drop_last() =~= s.take(i));
        lemma_dec_val_nonneg(s.take(i));
        assert(dec_val(s.take(i)) <= dec_val(t));
    }
}

/// Parses `s` as an unsigned decimal number.  Returns `None` when `s` is
/// not a pure digit string or its value exceeds `u64::MAX`.
pub fn parse_u64(s: &str) -> (r: Option<u64>)
    ensures
        match r {
            Some(v) => is_dec_digits(s@) && v as int == dec_val(s@),
            None => !is_dec_digits(s@) || dec_val(s@) > u64::MAX,
        },
{
    let n = s.unicode_len();
    if n == 0 {
        return None;
    }
    let mut acc: u64 = 0;
    let mut i: usize = 0;
    while i < n
        invariant
            n == s@.len(),
            0 < n,
            0 <= i <= n,
            forall|j: int| 0 <= j < i ==> is_digit_char(#[trigger] s@[j]),
            acc as int == dec_val(s@.take(i as int)),
        decreases n - i,
    {
        let c = s.get_char(i);
        let cv = c as u32;
        if cv < 48 || cv > 57 {
            assert(!is_digit_char(s@[i as int]));
            return None;
        }
        let d = (cv - 48) as u64;
        let shifted = match acc.checked_mul(10) {
            Some(x) => x,
            None => {
                proof {
                    overflow_implies_out_of_range(s@, i as int);
                }
                return None;
            },
        };
        let next = match shifted.checked_add(d) {
            Some(x) => x,
            None => {
                proof {
                    overflow_implies_out_of_range(s@, i as int);
                }
                return None;
            },
        };
        acc = next;
        i += 1;
        proof {
            assert(s@.take(i as int).drop_last() =~= s@.take(i as int - 1));
        }
    }
    proof {
        assert(s@.take(n as int) =~= s@);
    }
    Some(acc)
}

proof fn overflow_implies_out_of_range(s: Seq<char>, i: int)
    requires
        0 <= i < s.len(),
        forall|j: int| 0 <= j <= i ==> is_digit_char(#[trigger] s[j]),
        dec_val(s.take(i)) * 10 + digit_val(s[i]) > u64::MAX,
    ensures
        !is_dec_digits(s) || dec_val(s) > u64::MAX,
{
    if is_dec_digits(s) {
        let t = s.take(i + 1);
        assert(t.drop_last() =~= s.take(i));
        assert(dec_val(t) > u64::MAX);
        lemma_dec_val_prefix_le(s, i + 1);
    }
}

} // verus!
