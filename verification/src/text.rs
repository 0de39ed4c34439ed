//! Character-level text helpers: whitespace splitting, substring search,
//! integer parsing and decimal formatting, each with its mathematical
//! definition and a verified executable counterpart.

use vstd::prelude::*;

verus! {

/// The sequence of views of a sequence of owned strings.
pub open spec fn string_views(q: Seq<String>) -> Seq<Seq<char>> {
    q.map_values(|s: String| s@)
}

/// The sequence of views of a sequence of string slices.
pub open spec fn str_views(q: Seq<&str>) -> Seq<Seq<char>> {
    q.map_values(|s: &str| s@)
}

/// The sequence of views of a sequence of character vectors.
pub open spec fn char_vec_views(q: Seq<Vec<char>>) -> Seq<Seq<char>> {
    q.map_values(|v: Vec<char>| v@)
}

/// Unicode `White_Space`, the set of characters on which lines are split
/// into directive tokens.
pub open spec fn is_space(c: char) -> bool {
    let u = c as u32;
    u == 0x20 || u == 0x9 || u == 0xA || u == 0xB || u == 0xC || u == 0xD || u == 0x85
        || u == 0xA0 || u == 0x1680 || (0x2000 <= u && u <= 0x200A) || u == 0x2028 || u == 0x2029
        || u == 0x202F || u == 0x205F || u == 0x3000
}

/// Splits `s[i..]` at whitespace into its maximal non-whitespace runs.
///
/// Defined one character at a time from the right: a non-space character
/// followed by another non-space character extends the first word of the
/// split of the remainder; otherwise it opens a word of its own.
pub open spec fn split_ws_at(s: Seq<char>, i: int) -> Seq<Seq<char>>
    decreases s.len() - i,
{
    if i < 0 || i >= s.len() {
        Seq::empty()
    } else if is_space(s[i]) {
        split_ws_at(s, i + 1)
    } else {
        let rest = split_ws_at(s, i + 1);
        if i + 1 < s.len() && !is_space(s[i + 1]) {
            rest.update(0, seq![s[i]] + rest[0])
        } else {
            seq![seq![s[i]]] + rest
        }
    }
}

/// The whitespace-separated tokens of a line.
pub open spec fn split_ws(s: Seq<char>) -> Seq<Seq<char>> {
    split_ws_at(s, 0)
}

/// A split starting on a non-space character is non-empty.
proof fn lemma_split_ws_at_nonempty(s: Seq<char>, i: int)
    requires
        0 <= i < s.len(),
        !is_space(s[i]),
    ensures
        split_ws_at(s, i).len() >= 1,
    decreases s.len() - i,
{
    if i + 1 < s.len() && !is_space(s[i + 1]) {
        lemma_split_ws_at_nonempty(s, i + 1);
    }
}

/// The continuation of a split: what remains of `split_ws(s)` when the
/// words in front have been emitted and `w` is the partial word read so
/// far (empty if between words).
pub open spec fn split_ws_cont(s: Seq<char>, i: int, w: Seq<char>) -> Seq<Seq<char>> {
    if w.len() == 0 {
        split_ws_at(s, i)
    } else if 0 <= i < s.len() && !is_space(s[i]) {
        split_ws_at(s, i).update(0, w + split_ws_at(s, i)[0])
    } else {
        seq![w] + split_ws_at(s, i)
    }
}

/// One scanning step preserves the continuation equation.
proof fn lemma_split_ws_cont_step(s: Seq<char>, i: int, w: Seq<char>)
    requires
        0 <= i < s.len(),
    ensures
        is_space(s[i]) && w.len() == 0 ==> split_ws_cont(s, i, w) == split_ws_cont(
            s,
            i + 1,
            Seq::<char>::empty(),
        ),
        is_space(s[i]) && w.len() > 0 ==> split_ws_cont(s, i, w) == seq![w] + split_ws_cont(
            s,
            i + 1,
            Seq::<char>::empty(),
        ),
        !is_space(s[i]) ==> split_ws_cont(s, i, w) == split_ws_cont(s, i + 1, w + seq![s[i]]),
{
    if is_space(s[i]) {
        if w.len() > 0 {
            assert(split_ws_cont(s, i, w) == seq![w] + split_ws_at(s, i + 1));
        }
    } else {
        let rest = split_ws_at(s, i + 1);
        let w1 = w + seq![s[i]];
        assert(w1.len() > 0);
        if i + 1 < s.len() && !is_space(s[i + 1]) {
            lemma_split_ws_at_nonempty(s, i + 1);
            assert(split_ws_at(s, i) == rest.update(0, seq![s[i]] + rest[0]));
            if w.len() == 0 {
                assert(w1 =~= seq![s[i]]);
                assert(split_ws_cont(s, i + 1, w1) == rest.update(0, w1 + rest[0]));
                assert(split_ws_cont(s, i, w) == rest.update(0, seq![s[i]] + rest[0]));
                assert(w1 + rest[0] =~= seq![s[i]] + rest[0]);
            } else {
                let a = rest.update(0, seq![s[i]] + rest[0]);
                assert(split_ws_cont(s, i, w) == a.update(0, w + a[0]));
                assert(a[0] == seq![s[i]] + rest[0]);
                assert(split_ws_cont(s, i + 1, w1) == rest.update(0, w1 + rest[0]));
                assert(w + (seq![s[i]] + rest[0]) =~= w1 + rest[0]);
                assert(a.update(0, w + a[0]) =~= rest.update(0, w1 + rest[0]));
            }
        } else {
            assert(split_ws_at(s, i) == seq![seq![s[i]]] + rest);
            if w.len() == 0 {
                assert(w1 =~= seq![s[i]]);
                assert(split_ws_cont(s, i + 1, w1) =~= seq![w1] + rest);
                assert(split_ws_cont(s, i, w) == seq![seq![s[i]]] + rest);
                assert(seq![seq![s[i]]] + rest =~= seq![w1] + rest);
            } else {
                let a = seq![seq![s[i]]] + rest;
                assert(a[0] == seq![s[i]]);
                assert(split_ws_cont(s, i, w) == a.update(0, w + seq![s[i]]));
                assert(split_ws_cont(s, i + 1, w1) =~= seq![w1] + rest);
                assert(a.update(0, w + seq![s[i]]) =~= seq![w1] + rest);
            }
        }
    }
}

/// Whether `c` is Unicode whitespace.
pub fn is_space_char(c: char) -> (r: bool)
    ensures
        r == is_space(c),
{
    let u = c as u32;
    u == 0x20 || u == 0x9 || u == 0xA || u == 0xB || u == 0xC || u == 0xD || u == 0x85
        || u == 0xA0 || u == 0x1680 || (0x2000 <= u && u <= 0x200A) || u == 0x2028 || u == 0x2029
        || u == 0x202F || u == 0x205F || u == 0x3000
}

/// Appends the characters of `s` to `v`.
pub fn push_str_chars(v: &mut Vec<char>, s: &str)
    ensures
        final(v)@ == old(v)@ + s@,
{
    let n = s.unicode_len();
    let mut i: usize = 0;
    while i < n
        invariant
            n == s@.len(),
            0 <= i <= n,
            v@ == old(v)@ + s@.take(i as int),
        decreases n - i,
    {
        let c = s.get_char(i);
        v.push(c);
        proof {
            assert(old(v)@ + s@.take(i as int) + seq![s@[i as int]] =~= old(v)@ + s@.take(
                i as int + 1,
            ));
        }
        i = i + 1;
    }
    proof {
        assert(s@.take(n as int) =~= s@);
    }
}

/// The characters of `s` as a vector.
pub fn to_chars(s: &str) -> (v: Vec<char>)
    ensures
        v@ == s@,
{
    let mut v: Vec<char> = Vec::new();
    push_str_chars(&mut v, s);
    proof {
        assert(Seq::<char>::empty() + s@ =~= s@);
    }
    v
}

/// Appends the characters of `o` to `v`.
pub fn push_chars(v: &mut Vec<char>, o: &Vec<char>)
    ensures
        final(v)@ == old(v)@ + o@,
{
    let mut i: usize = 0;
    while i < o.len()
        invariant
            0 <= i <= o@.len(),
            v@ == old(v)@ + o@.take(i as int),
        decreases o@.len() - i,
    {
        v.push(o[i]);
        proof {
            assert(old(v)@ + o@.take(i as int) + seq![o@[i as int]] =~= old(v)@ + o@.take(
                i as int + 1,
            ));
        }
        i = i + 1;
    }
    proof {
        assert(o@.take(o@.len() as int) =~= o@);
    }
}

/// Whether the characters of `v` are exactly the characters of `s`.
pub fn chars_eq_str(v: &Vec<char>, s: &str) -> (r: bool)
    ensures
        r == (v@ == s@),
{
    let n = s.unicode_len();
    if v.len() != n {
        return false;
    }
    let mut i: usize = 0;
    while i < n
        invariant
            n == s@.len(),
            v@.len() == n,
            0 <= i <= n,
            forall|j: int| 0 <= j < i ==> v@[j] == s@[j],
        decreases n - i,
    {
        if v[i] != s.get_char(i) {
            return false;
        }
        i = i + 1;
    }
    proof {
        assert(v@ =~= s@);
    }
    true
}

/// The first position at or after `i` where `p` occurs in `s` as a
/// contiguous run, if any.
pub open spec fn find_from(s: Seq<char>, p: Seq<char>, i: int) -> Option<int>
    decreases s.len() - i + 1,
{
    if i < 0 || i + p.len() > s.len() {
        None
    } else if s.subrange(i, i + p.len() as int) == p {
        Some(i)
    } else {
        find_from(s, p, i + 1)
    }
}

/// The first occurrence of `p` in `s`, if any.
pub open spec fn find_sub(s: Seq<char>, p: Seq<char>) -> Option<int> {
    find_from(s, p, 0)
}

/// The first index at or after `from` where `p` occurs in `s`, if any.
pub fn find_sub_chars(s: &Vec<char>, p: &Vec<char>, from: usize) -> (r: Option<usize>)
    ensures
        match r {
            Some(k) => find_from(s@, p@, from as int) == Some(k as int) && from <= k && k
                + p@.len() <= s@.len(),
            None => find_from(s@, p@, from as int) is None,
        },
{
    if p.len() > s.len() || from > s.len() - p.len() {
        return None;
    }
    let mut k: usize = from;
    while k <= s.len() - p.len()
        invariant
            p@.len() <= s@.len(),
            from <= k <= s@.len() - p@.len() + 1,
            find_from(s@, p@, from as int) == find_from(s@, p@, k as int),
        decreases s@.len() - k,
    {
        let mut j: usize = 0;
        let mut matches = true;
        proof {
            assert(s@.subrange(k as int, k as int) =~= p@.take(0));
        }
        while j < p.len()
            invariant
                0 <= j <= p@.len(),
                k + p@.len() <= s@.len(),
                s@.len() <= usize::MAX,
                matches == (s@.subrange(k as int, k as int + j as int) == p@.take(j as int)),
            decreases p@.len() - j,
        {
            let ghost pre = s@.subrange(k as int, k as int + j as int);
            if s[k + j] != p[j] {
                matches = false;
                proof {
                    assert(s@.subrange(k as int, k as int + j as int + 1)[j as int] == s@[k as int
                        + j as int]);
                    assert(p@.take(j as int + 1)[j as int] == p@[j as int]);
                }
            } else if matches {
                proof {
                    assert(s@.subrange(k as int, k as int + j as int + 1) =~= pre + seq![s@[k as int
                        + j as int]]);
                    assert(p@.take(j as int + 1) =~= p@.take(j as int) + seq![p@[j as int]]);
                }
            } else {
                proof {
                    assert(s@.subrange(k as int, k as int + j as int + 1).take(j as int) =~= pre);
                    assert(p@.take(j as int + 1).take(j as int) =~= p@.take(j as int));
                    assert(s@.subrange(k as int, k as int + j as int + 1) != p@.take(j as int + 1));
                }
            }
            j = j + 1;
        }
        if matches {
            proof {
                assert(p@.take(p@.len() as int) =~= p@);
                assert(s@.subrange(k as int, k as int + p@.len() as int) == p@);
            }
            return Some(k);
        }
        proof {
            assert(s@.subrange(k as int, k as int + p@.len() as int) != p@) by {
                assert(p@.take(p@.len() as int) =~= p@);
            }
        }
        k = k + 1;
    }
    None
}

/// Whether `c` is an ASCII decimal digit.
pub open spec fn is_digit(c: char) -> bool {
    0x30 <= (c as u32) && (c as u32) <= 0x39
}

/// The numeric value of the digit `c`.
pub open spec fn digit_val(c: char) -> int {
    (c as u32) - 0x30
}

/// Whether every character of `s` is a decimal digit.
pub open spec fn all_digits(s: Seq<char>) -> bool {
    forall|j: int| 0 <= j < s.len() ==> is_digit(s[j])
}

/// The value of `s` read as a decimal numeral.
pub open spec fn digits_val(s: Seq<char>) -> int
    decreases s.len(),
{
    if s.len() == 0 {
        0
    } else {
        digits_val(s.drop_last()) * 10 + digit_val(s.last())
    }
}

proof fn lemma_digits_val_nonneg(s: Seq<char>)
    requires
        all_digits(s),
    ensures
        digits_val(s) >= 0,
    decreases s.len(),
{
    if s.len() > 0 {
        assert(all_digits(s.drop_last()));
        lemma_digits_val_nonneg(s.drop_last());
    }
}

/// A numeral is at least as large as any of its prefixes.
proof fn lemma_digits_val_prefix(s: Seq<char>, i: int)
    requires
        all_digits(s),
        0 <= i <= s.len(),
    ensures
        digits_val(s.take(i)) <= digits_val(s),
    decreases s.len(),
{
    if i < s.len() {
        assert(all_digits(s.drop_last()));
        assert(s.take(i) =~= s.drop_last().take(i));
        lemma_digits_val_prefix(s.drop_last(), i);
        lemma_digits_val_nonneg(s.drop_last());
        assert(digit_val(s.last()) >= 0);
    } else {
        assert(s.take(i) =~= s);
    }
}

/// The result of reading `s` as a signed 32-bit integer: an optional
/// sign followed by at least one digit, with the value in range.
pub open spec fn parse_i32_spec(s: Seq<char>) -> Option<int> {
    let signed = s.len() > 0 && (s[0] == '+' || s[0] == '-');
    let ds = if signed {
        s.skip(1)
    } else {
        s
    };
    if ds.len() >= 1 && all_digits(ds) {
        let v = if s.len() > 0 && s[0] == '-' {
            -digits_val(ds)
        } else {
            digits_val(ds)
        };
        if -0x8000_0000 <= v <= 0x7fff_ffff {
            Some(v)
        } else {
            None
        }
    } else {
        None
    }
}

/// The indentation argument of a substitution directive: the value of
/// `s` as a decimal integer, or 0 where `s` is no well-formed integer.
pub open spec fn indent_of(s: Seq<char>) -> int {
    match parse_i32_spec(s) {
        Some(v) => v,
        None => 0,
    }
}

/// Reads `v` as a decimal integer, with 0 for anything unreadable.
pub fn parse_i32_or_zero(v: &Vec<char>) -> (r: i32)
    ensures
        r as int == indent_of(v@),
{
    let ghost s = v@;
    let mut start: usize = 0;
    let mut neg = false;
    if v.len() > 0 && (v[0] == '+' || v[0] == '-') {
        start = 1;
        neg = v[0] == '-';
    }
    let ghost ds = if start == 1 {
        s.skip(1)
    } else {
        s
    };
    if start >= v.len() {
        // no digits at all
        return 0;
    }
    let mut mag: u64 = 0;
    let mut i: usize = start;
    while i < v.len()
        invariant
            start <= i <= v@.len(),
            start == 0 || start == 1,
            start < v@.len(),
            (start == 1) == (s.len() > 0 && (s[0] == '+' || s[0] == '-')),
            neg == (s.len() > 0 && s[0] == '-'),
            s == v@,
            ds == (if start == 1 {
                s.skip(1)
            } else {
                s
            }),
            all_digits(ds.take(i - start)),
            mag == digits_val(ds.take(i - start)),
            mag <= 0x8000_0000,
        decreases v@.len() - i,
    {
        let c = v[i];
        let u = c as u32;
        if u < 0x30 || u > 0x39 {
            proof {
                assert(ds[i - start] == s[i as int]);
                assert(!is_digit(ds[i - start]));
            }
            return 0;
        }
        let d = (u - 0x30) as u64;
        proof {
            assert(ds.take(i - start + 1).drop_last() =~= ds.take(i - start));
            assert(ds.take(i - start + 1).last() == s[i as int]);
        }
        mag = mag * 10 + d;
        i = i + 1;
        if mag > 0x8000_0000 {
            proof {
                assert(all_digits(ds) ==> digits_val(ds) > 0x8000_0000) by {
                    if all_digits(ds) {
                        lemma_digits_val_prefix(ds, i - start);
                    }
                }
            }
            return 0;
        }
    }
    proof {
        assert(ds.take(ds.len() as int) =~= ds);
        assert(ds.len() >= 1);
    }
    if neg {
        if mag == 0x8000_0000 {
            i32::MIN
        } else {
            -(mag as i32)
        }
    } else {
        if mag <= 0x7fff_ffff {
            mag as i32
        } else {
            0
        }
    }
}

/// `n` space characters for positive `n`, else none.
pub open spec fn spaces(n: int) -> Seq<char> {
    if n > 0 {
        Seq::new(n as nat, |i: int| ' ')
    } else {
        Seq::empty()
    }
}

/// A vector of `n` space characters (none for negative `n`).
pub fn repeat_spaces(n: i32) -> (v: Vec<char>)
    ensures
        v@ == spaces(n as int),
{
    let mut v: Vec<char> = Vec::new();
    if n <= 0 {
        proof {
            assert(v@ =~= spaces(n as int));
        }
        return v;
    }
    let mut i: i32 = 0;
    while i < n
        invariant
            0 <= i <= n,
            v@ == spaces(i as int),
        decreases n - i,
    {
        v.push(' ');
        proof {
            assert(v@ =~= spaces(i as int + 1));
        }
        i = i + 1;
    }
    v
}

/// The characters of `v` from `from` (inclusive) to `to` (exclusive).
pub fn sub_chars(v: &Vec<char>, from: usize, to: usize) -> (r: Vec<char>)
    requires
        0 <= from <= to <= v@.len(),
    ensures
        r@ == v@.subrange(from as int, to as int),
{
    let mut r: Vec<char> = Vec::new();
    let mut i: usize = from;
    while i < to
        invariant
            from <= i <= to <= v@.len(),
            r@ == v@.subrange(from as int, i as int),
        decreases to - i,
    {
        r.push(v[i]);
        proof {
            assert(v@.subrange(from as int, i as int) + seq![v@[i as int]] =~= v@.subrange(
                from as int,
                i as int + 1,
            ));
        }
        i = i + 1;
    }
    r
}

/// The decimal numeral of the non-negative integer `n`.
pub open spec fn dec_rep(n: int) -> Seq<char>
    decreases n,
{
    if n < 10 {
        seq![dec_digit(n)]
    } else {
        dec_rep(n / 10) + seq![dec_digit(n % 10)]
    }
}

/// The digit character for `d` in 0..=9 (and '0' outside that range).
pub open spec fn dec_digit(d: int) -> char {
    if d == 1 {
        '1'
    } else if d == 2 {
        '2'
    } else if d == 3 {
        '3'
    } else if d == 4 {
        '4'
    } else if d == 5 {
        '5'
    } else if d == 6 {
        '6'
    } else if d == 7 {
        '7'
    } else if d == 8 {
        '8'
    } else if d == 9 {
        '9'
    } else {
        '0'
    }
}

fn dec_digit_char(d: u64) -> (c: char)
    requires
        d < 10,
    ensures
        c == dec_digit(d as int),
{
    if d == 1 {
        '1'
    } else if d == 2 {
        '2'
    } else if d == 3 {
        '3'
    } else if d == 4 {
        '4'
    } else if d == 5 {
        '5'
    } else if d == 6 {
        '6'
    } else if d == 7 {
        '7'
    } else if d == 8 {
        '8'
    } else if d == 9 {
        '9'
    } else {
        '0'
    }
}

/// The decimal digits of `n`, most significant first.
pub fn u64_dec_chars(n: u64) -> (v: Vec<char>)
    ensures
        v@ == dec_rep(n as int),
{
    let mut rev: Vec<char> = Vec::new();
    let mut cur: u64 = n;
    proof {
        assert(dec_rep(n as int) + rev@.reverse() =~= dec_rep(n as int));
    }
    loop
        invariant_except_break
            dec_rep(n as int) == dec_rep(cur as int) + rev@.reverse(),
        ensures
            dec_rep(n as int) == rev@.reverse(),
        decreases cur,
    {
        let d = cur % 10;
        let ghost rev0 = rev@;
        rev.push(dec_digit_char(d));
        proof {
            if cur >= 10 {
                assert(dec_rep(cur as int) == dec_rep(cur as int / 10) + seq![dec_digit(
                    cur as int % 10,
                )]);
            }
            assert(rev@.reverse() =~= seq![dec_digit(cur as int % 10)] + rev0.reverse());
            assert(dec_rep(cur as int / 10) + (seq![dec_digit(cur as int % 10)] + rev0.reverse())
                =~= dec_rep(cur as int / 10) + seq![dec_digit(cur as int % 10)] + rev0.reverse());
        }
        cur = cur / 10;
        if cur == 0 {
            proof {
                assert(dec_rep(n as int) == rev@.reverse());
            }
            break;
        }
    }
    let mut v: Vec<char> = Vec::new();
    let mut i: usize = rev.len();
    proof {
        assert(v@ =~= rev@.reverse().take(0));
    }
    while i > 0
        invariant
            0 <= i <= rev@.len(),
            v@ == rev@.reverse().take(rev@.len() - i),
        decreases i,
    {
        i = i - 1;
        v.push(rev[i]);
        proof {
            assert(rev@.reverse()[rev@.len() - i - 1] == rev@[i as int]);
            assert(v@ =~= rev@.reverse().take(rev@.len() - i));
        }
    }
    proof {
        assert(rev@.reverse().take(rev@.len() as int) =~= rev@.reverse());
    }
    v
}

/// Whether two string slices hold the same characters.
pub fn str_eq(a: &str, b: &str) -> (r: bool)
    ensures
        r == (a@ == b@),
{
    let na = a.unicode_len();
    let nb = b.unicode_len();
    if na != nb {
        return false;
    }
    let mut i: usize = 0;
    while i < na
        invariant
            na == a@.len(),
            na == b@.len(),
            0 <= i <= na,
            forall|j: int| 0 <= j < i ==> a@[j] == b@[j],
        decreases na - i,
    {
        if a.get_char(i) != b.get_char(i) {
            return false;
        }
        i = i + 1;
    }
    proof {
        assert(a@ =~= b@);
    }
    true
}

/// Builds an owned string from a character vector.
///
/// Relies on `String`'s `FromIterator<char>` implementation: collecting
/// an iterator of characters yields the string of exactly those
/// characters, in order.
#[verifier::external_body]
pub(crate) fn chars_to_string(v: &Vec<char>) -> (s: String)
    ensures
        s@ == v@,
{
    v.iter().collect()
}

/// Splits a line into its whitespace-separated tokens.
pub fn split_whitespace_chars(s: &Vec<char>) -> (r: Vec<Vec<char>>)
    ensures
        char_vec_views(r@) == split_ws(s@),
{
    let mut r: Vec<Vec<char>> = Vec::new();
    let mut w: Vec<char> = Vec::new();
    let mut i: usize = 0;
    while i < s.len()
        invariant
            0 <= i <= s@.len(),
            char_vec_views(r@) + split_ws_cont(s@, i as int, w@) == split_ws(s@),
        decreases s@.len() - i,
    {
        let ghost r0 = r@;
        let ghost w0 = w@;
        proof {
            lemma_split_ws_cont_step(s@, i as int, w@);
        }
        let c = s[i];
        if is_space_char(c) {
            if w.len() > 0 {
                r.push(w);
                w = Vec::new();
                proof {
                    assert(char_vec_views(r@) =~= char_vec_views(r0) + seq![w0]);
                    assert(char_vec_views(r0) + (seq![w0] + split_ws_cont(
                        s@,
                        i as int + 1,
                        Seq::<char>::empty(),
                    )) =~= char_vec_views(r@) + split_ws_cont(s@, i as int + 1, w@));
                }
            }
        } else {
            w.push(c);
            proof {
                assert(w@ =~= w0 + seq![s@[i as int]]);
            }
        }
        i = i + 1;
    }
    if w.len() > 0 {
        let ghost r0 = r@;
        let ghost w0 = w@;
        r.push(w);
        proof {
            assert(char_vec_views(r@) =~= char_vec_views(r0) + seq![w0]);
            assert(split_ws_cont(s@, s@.len() as int, w0) =~= seq![w0] + split_ws_at(
                s@,
                s@.len() as int,
            ));
            assert(char_vec_views(r@) + Seq::<Seq<char>>::empty() =~= char_vec_views(r@));
            assert(char_vec_views(r0) + (seq![w0] + Seq::<Seq<char>>::empty()) =~= char_vec_views(
                r@,
            ));
        }
    } else {
        proof {
            assert(char_vec_views(r@) + Seq::<Seq<char>>::empty() =~= char_vec_views(r@));
        }
    }
    r
}

} // verus!
