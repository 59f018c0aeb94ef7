//! String routines, stated over the sequence of characters of a string.
use vstd::prelude::*;
use vstd::string::StringExecFns;
use vstd::string::StringSliceAdditionalSpecFns;

verus! {

broadcast use {vstd::string::group_string_axioms, vstd::utf8::group_utf8_lib};

/// `std::string::String::push`, taken on trust: the string holds afterwards
/// the characters that it held, and `c` after them.
pub assume_specification[ std::string::String::push ](s: &mut std::string::String, c: char)
    ensures
        final(s)@ == old(s)@.push(c),
;

/// The first index at which `p` holds, or `s.len()` where it holds nowhere.
pub open spec fn first_where<T>(s: Seq<T>, p: spec_fn(T) -> bool) -> int
    decreases s.len(),
{
    if s.len() == 0 {
        0
    } else if p(s[0]) {
        0
    } else {
        1 + first_where(s.drop_first(), p)
    }
}

/// `first_where` is in range, lands on a match, and skips no earlier match.
pub proof fn lemma_first_where<T>(s: Seq<T>, p: spec_fn(T) -> bool)
    ensures
        0 <= first_where(s, p) <= s.len(),
        first_where(s, p) < s.len() ==> p(s[first_where(s, p)]),
        forall|j: int| 0 <= j < first_where(s, p) ==> !p(#[trigger] s[j]),
    decreases s.len(),
{
    if s.len() > 0 && !p(s[0]) {
        let rest = s.drop_first();
        lemma_first_where(rest, p);
        assert forall|j: int| 0 <= j < first_where(s, p) implies !p(#[trigger] s[j]) by {
            if j > 0 {
                assert(s[j] == rest[j - 1]);
            }
        }
    }
}

/// An index with no match before it, and a match at it unless it is the end,
/// is `first_where`.
pub proof fn lemma_first_where_is<T>(s: Seq<T>, p: spec_fn(T) -> bool, i: int)
    requires
        0 <= i <= s.len(),
        i < s.len() ==> p(s[i]),
        forall|j: int| 0 <= j < i ==> !p(#[trigger] s[j]),
    ensures
        first_where(s, p) == i,
{
    lemma_first_where(s, p);
    let f = first_where(s, p);
    if f < i {
        assert(!p(s[f]));
    }
}

/// The characters of `s`, one by one.
pub fn chars_of(s: &str) -> (r: Vec<char>)
    ensures
        r@ == s@,
{
    let mut out: Vec<char> = Vec::new();
    for c in it: s.chars()
        invariant
            it.seq() == s@,
            out@ == it.seq().take(it.index() as int),
    {
        out.push(c);
    }
    out
}

/// The string made of `chars[from..to]`.
pub fn text_of(chars: &Vec<char>, from: usize, to: usize) -> (r: String)
    requires
        from <= to <= chars.len(),
    ensures
        r@ == chars@.subrange(from as int, to as int),
{
    let mut out = String::new();
    let mut i: usize = from;
    while i < to
        invariant
            from <= i <= to <= chars.len(),
            out@ == chars@.subrange(from as int, i as int),
        decreases to - i,
    {
        out.push(chars[i]);
        i += 1;
    }
    out
}

/// Whether two strings hold the same characters.
pub fn str_eq(a: &str, b: &str) -> (r: bool)
    ensures
        r == (a@ == b@),
{
    let x = a.as_bytes();
    let y = b.as_bytes();
    if x.len() != y.len() {
        return false;
    }
    let mut i: usize = 0;
    while i < x.len()
        invariant
            i <= x.len(),
            x.len() == y.len(),
            x@ == a.spec_bytes(),
            y@ == b.spec_bytes(),
            forall|j: int| 0 <= j < i ==> x@[j] == y@[j],
        decreases x.len() - i,
    {
        if x[i] != y[i] {
            return false;
        }
        i += 1;
    }
    assert(x@ =~= y@);
    proof {
        vstd::utf8::encode_utf8_decode_utf8(a@);
        vstd::utf8::encode_utf8_decode_utf8(b@);
    }
    true
}

/// Whether `c` is one of the ten decimal digits.
pub open spec fn is_digit(c: char) -> bool {
    '0' <= c <= '9'
}

/// The number that a digit stands for.
pub open spec fn digit_value(c: char) -> int {
    c as u32 as int - '0' as u32 as int
}

/// The number that a run of digits spells, most significant digit first.
pub open spec fn digits_value(s: Seq<char>) -> int
    decreases s.len(),
{
    if s.len() == 0 {
        0
    } else {
        digits_value(s.drop_last()) * 10 + digit_value(s.last())
    }
}

/// Whether every character of `s` is a decimal digit.
pub open spec fn all_digits(s: Seq<char>) -> bool {
    forall|i: int| 0 <= i < s.len() ==> is_digit(#[trigger] s[i])
}

/// What follows the sign of `s`, or all of `s` where it begins with none.
pub open spec fn after_sign(s: Seq<char>) -> Seq<char> {
    if s.len() > 0 && (s[0] == '-' || s[0] == '+') {
        s.skip(1)
    } else {
        s
    }
}

/// The integer that `s` spells in decimal, where it spells one that fits in
/// 64 signed bits: an optional `+` or `-`, then one digit or more, nothing else.
pub open spec fn decimal_i64(s: Seq<char>) -> Option<i64> {
    let body = after_sign(s);
    let value = if s.len() > 0 && s[0] == '-' {
        -digits_value(body)
    } else {
        digits_value(body)
    };
    if body.len() == 0 || !all_digits(body) || value < i64::MIN || value > i64::MAX {
        None
    } else {
        Some(value as i64)
    }
}

/// Reads `s` as a decimal integer of 64 signed bits.
pub fn parse_i64(s: &str) -> (r: Option<i64>)
    ensures
        r == decimal_i64(s@),
{
    let chars = chars_of(s);
    let n = chars.len();
    if n == 0 {
        return None;
    }
    let negative = chars[0] == '-';
    let start: usize = if chars[0] == '-' || chars[0] == '+' {
        1
    } else {
        0
    };
    if start == n {
        return None;
    }
    let ghost body = after_sign(s@);
    assert(body =~= s@.skip(start as int));
    let mut acc: i128 = 0;
    let mut too_big = false;
    let mut i: usize = start;
    while i < n
        invariant
            start <= i <= n,
            n == chars.len(),
            chars@ == s@,
            body == after_sign(s@),
            body == s@.skip(start as int),
            all_digits(body.take(i - start)),
            0 <= acc <= 0x8000_0000_0000_0000,
            !too_big ==> acc == digits_value(body.take(i - start)),
            too_big ==> digits_value(body.take(i - start)) > 0x8000_0000_0000_0000,
        decreases n - i,
    {
        let c = chars[i];
        if c < '0' || c > '9' {
            assert(!is_digit(body[i - start]));
            return None;
        }
        let d: i128 = (c as u32 - '0' as u32) as i128;
        proof {
            let prev = body.take(i - start);
            let next = body.take(i - start + 1);
            assert(next.drop_last() =~= prev);
            assert(next.last() == c);
            assert(digits_value(next) == digits_value(prev) * 10 + d);
            assert forall|j: int| 0 <= j < next.len() implies is_digit(#[trigger] next[j]) by {
                if j < next.len() - 1 {
                    assert(next[j] == prev[j]);
                }
            }
        }
        if !too_big {
            let wide = acc * 10 + d;
            if wide > 0x8000_0000_0000_0000 {
                too_big = true;
            } else {
                acc = wide;
            }
        }
        i += 1;
    }
    assert(body.take(n - start) =~= body);
    if too_big {
        return None;
    }
    assert(acc == digits_value(body));
    if negative {
        Some((-acc) as i64)
    } else if acc > 0x7fff_ffff_ffff_ffff {
        None
    } else {
        Some(acc as i64)
    }
}

/// The character that stands for a digit below ten.
pub open spec fn digit_char(d: int) -> char {
    (d + '0' as u32 as int) as u32 as char
}

/// The decimal digits of a number that is not negative, without leading zeros.
pub open spec fn digits_of(n: int) -> Seq<char>
    decreases n,
{
    if n < 10 {
        seq![digit_char(n)]
    } else {
        digits_of(n / 10).push(digit_char(n % 10))
    }
}

/// The decimal text of an integer: a `-` before a negative one, then its digits.
pub open spec fn decimal_text(n: int) -> Seq<char> {
    if n < 0 {
        seq!['-'] + digits_of(-n)
    } else {
        digits_of(n)
    }
}

/// The digits of `n` without its last one: none where `n` is below ten.
pub open spec fn leading_digits(n: int) -> Seq<char> {
    if n < 10 {
        Seq::empty()
    } else {
        digits_of(n / 10)
    }
}

/// Writes `n` in decimal.
pub fn i64_to_string(n: i64) -> (r: String)
    ensures
        r@ == decimal_text(n as int),
{
    let wide: i128 = n as i128;
    let magnitude: i128 = if wide < 0 {
        -wide
    } else {
        wide
    };
    // Digits come out least significant first.
    let mut rev: Vec<char> = Vec::new();
    let mut rest: i128 = magnitude;
    loop
        invariant_except_break
            0 <= rest <= magnitude <= 0x8000_0000_0000_0000,
            digits_of(magnitude as int) == digits_of(rest as int) + rev@.reverse(),
        ensures
            digits_of(magnitude as int) == rev@.reverse(),
        decreases rest,
    {
        let d: u8 = (rest % 10) as u8;
        let c: char = (d + 48u8) as char;
        let ghost before = rev@;
        let ghost old_rest = rest as int;
        rev.push(c);
        proof {
            assert(c == digit_char(old_rest % 10));
            assert(rev@.reverse() =~= seq![c] + before.reverse());
            assert(digits_of(old_rest) =~= leading_digits(old_rest).push(c));
            assert(leading_digits(old_rest).push(c) + before.reverse() =~= leading_digits(old_rest)
                + rev@.reverse());
        }
        if rest < 10 {
            assert(Seq::<char>::empty() + rev@.reverse() =~= rev@.reverse());
            break ;
        }
        rest = rest / 10;
    }
    let mut out = String::new();
    if wide < 0 {
        out.push('-');
    }
    let ghost head = out@;
    let mut i: usize = rev.len();
    while i > 0
        invariant
            i <= rev.len(),
            out@ == head + rev@.reverse().take(rev.len() - i),
        decreases i,
    {
        i -= 1;
        out.push(rev[i]);
        assert(rev@.reverse().take(rev.len() - i) =~= rev@.reverse().take(rev.len() - i - 1).push(
            rev@[i as int],
        ));
    }
    assert(rev@.reverse().take(rev.len() as int) =~= rev@.reverse());
    assert(Seq::<char>::empty() + rev@.reverse() =~= rev@.reverse());
    assert(wide < 0 ==> head =~= seq!['-']);
    out
}

/// The index of the first `c` in `s`, or `s.len()` where `s` holds none.
pub open spec fn index_of_char(s: Seq<char>, c: char) -> int {
    first_where(s, is_char(c))
}

/// The test for being the character `c`.
pub open spec fn is_char(c: char) -> spec_fn(char) -> bool {
    |x: char| x == c
}

/// The pieces of `s` between its occurrences of `sep`: one more than there are
/// occurrences, empty pieces kept.
pub open spec fn split_on(s: Seq<char>, sep: char) -> Seq<Seq<char>>
    decreases s.len(),
{
    let i = index_of_char(s, sep);
    if 0 <= i < s.len() {
        seq![s.take(i)] + split_on(s.skip(i + 1), sep)
    } else {
        seq![s]
    }
}

/// The views of a sequence of strings.
pub open spec fn views(v: Seq<String>) -> Seq<Seq<char>> {
    Seq::new(v.len(), |i: int| v[i]@)
}

/// Finds the first `c` in `chars[from..]`.
pub(crate) fn find_char(chars: &Vec<char>, from: usize, c: char) -> (r: usize)
    requires
        from <= chars.len(),
    ensures
        from <= r <= chars.len(),
        r - from == index_of_char(chars@.skip(from as int), c),
{
    let mut i: usize = from;
    while i < chars.len() && chars[i] != c
        invariant
            from <= i <= chars.len(),
            forall|j: int| from <= j < i ==> chars@[j] != c,
        decreases chars.len() - i,
    {
        i += 1;
    }
    proof {
        let tail = chars@.skip(from as int);
        lemma_first_where_is(tail, is_char(c), i - from);
    }
    i
}

/// Splits `s` at its first `sep`: what stands before it and what follows it,
/// or `None` where `s` holds no `sep`.
pub fn split_once(s: &str, sep: char) -> (r: Option<(String, String)>)
    ensures
        match r {
            Some((head, tail)) => {
                let i = index_of_char(s@, sep);
                &&& 0 <= i < s@.len()
                &&& head@ == s@.take(i)
                &&& tail@ == s@.skip(i + 1)
            },
            None => index_of_char(s@, sep) == s@.len(),
        },
{
    let chars = chars_of(s);
    assert(chars@.skip(0) =~= chars@);
    let i = find_char(&chars, 0, sep);
    if i == chars.len() {
        None
    } else {
        let head = text_of(&chars, 0, i);
        let tail = text_of(&chars, i + 1, chars.len());
        Some((head, tail))
    }
}

/// Splits `s` at every `sep`.
pub fn split(s: &str, sep: char) -> (r: Vec<String>)
    ensures
        views(r@) == split_on(s@, sep),
{
    let chars = chars_of(s);
    let n = chars.len();
    let mut out: Vec<String> = Vec::new();
    let mut from: usize = 0;
    assert(chars@.skip(0) =~= chars@);
    assert(views(out@) =~= Seq::<Seq<char>>::empty());
    loop
        invariant_except_break
            from <= n,
            n == chars.len(),
            chars@ == s@,
            split_on(s@, sep) == views(out@) + split_on(chars@.skip(from as int), sep),
        ensures
            views(out@) == split_on(s@, sep),
        decreases n - from,
    {
        let ghost rest = chars@.skip(from as int);
        let ghost before = views(out@);
        let i = find_char(&chars, from, sep);
        out.push(text_of(&chars, from, i));
        proof {
            assert(rest.take(i - from) =~= chars@.subrange(from as int, i as int));
            assert(views(out@) =~= before.push(rest.take(i - from)));
        }
        if i == n {
            assert(split_on(rest, sep) =~= seq![rest]);
            assert(rest.take(i - from) =~= rest);
            assert(before + seq![rest] =~= before.push(rest));
            break ;
        }
        proof {
            assert(rest.skip(i - from + 1) =~= chars@.skip(i + 1));
            assert(before + (seq![rest.take(i - from)] + split_on(chars@.skip(i + 1), sep))
                =~= before.push(rest.take(i - from)) + split_on(chars@.skip(i + 1), sep));
        }
        from = i + 1;
    }
    out
}

/// Lexicographic order of two texts by the code points of their characters:
/// at the first place where they differ the smaller character decides, and a
/// text comes before every longer one that it begins.
pub open spec fn text_lt(a: Seq<char>, b: Seq<char>) -> bool
    decreases a.len(),
{
    if b.len() == 0 {
        false
    } else if a.len() == 0 {
        true
    } else if a[0] != b[0] {
        (a[0] as u32) < (b[0] as u32)
    } else {
        text_lt(a.drop_first(), b.drop_first())
    }
}

/// Whether `a` comes strictly before `b` in lexicographic order.
pub fn str_lt(a: &str, b: &str) -> (r: bool)
    ensures
        r == text_lt(a@, b@),
{
    let x = chars_of(a);
    let y = chars_of(b);
    let mut i: usize = 0;
    assert(x@.skip(0) =~= x@);
    assert(y@.skip(0) =~= y@);
    loop
        invariant
            i <= x.len(),
            i <= y.len(),
            x@ == a@,
            y@ == b@,
            text_lt(a@, b@) == text_lt(x@.skip(i as int), y@.skip(i as int)),
        decreases x.len() - i,
    {
        if i == y.len() {
            return false;
        }
        if i == x.len() {
            return true;
        }
        let ghost xs = x@.skip(i as int);
        let ghost ys = y@.skip(i as int);
        assert(xs[0] == x@[i as int] && ys[0] == y@[i as int]);
        if x[i] != y[i] {
            return (x[i] as u32) < (y[i] as u32);
        }
        assert(xs.drop_first() =~= x@.skip(i + 1));
        assert(ys.drop_first() =~= y@.skip(i + 1));
        i += 1;
    }
}

/// An upper-case letter of ASCII made lower case; any other character as it is.
pub open spec fn ascii_lower(c: char) -> char {
    if 'A' <= c <= 'Z' {
        (c as u32 + 32) as char
    } else {
        c
    }
}

/// Whether two texts are equal once the ASCII letters of both are made lower case.
pub open spec fn eq_ignoring_ascii_case(a: Seq<char>, b: Seq<char>) -> bool {
    &&& a.len() == b.len()
    &&& forall|i: int| 0 <= i < a.len() ==> ascii_lower(#[trigger] a[i]) == ascii_lower(b[i])
}

/// An upper-case letter of ASCII made lower case; any other character as it is.
pub fn to_ascii_lower(c: char) -> (r: char)
    ensures
        r == ascii_lower(c),
{
    if 'A' <= c && c <= 'Z' {
        ((c as u8) + 32u8) as char
    } else {
        c
    }
}

/// Whether `a` and `b` match, ASCII letters compared without regard to case.
pub fn str_eq_ignore_ascii_case(a: &str, b: &str) -> (r: bool)
    ensures
        r == eq_ignoring_ascii_case(a@, b@),
{
    let x = chars_of(a);
    let y = chars_of(b);
    if x.len() != y.len() {
        return false;
    }
    let mut i: usize = 0;
    while i < x.len()
        invariant
            i <= x.len(),
            x.len() == y.len(),
            x@ == a@,
            y@ == b@,
            forall|j: int| 0 <= j < i ==> ascii_lower(#[trigger] x@[j]) == ascii_lower(y@[j]),
        decreases x.len() - i,
    {
        if to_ascii_lower(x[i]) != to_ascii_lower(y[i]) {
            return false;
        }
        i += 1;
    }
    true
}

/// `a` followed by `b`.
pub fn append_text(a: &str, b: &str) -> (r: String)
    ensures
        r@ == a@ + b@,
{
    let mut out = a.to_owned();
    out.append(b);
    out
}

/// Of two texts at most one comes before the other.
pub proof fn lemma_text_lt_asymmetric(a: Seq<char>, b: Seq<char>)
    ensures
        !(text_lt(a, b) && text_lt(b, a)),
    decreases a.len(),
{
    if a.len() > 0 && b.len() > 0 && a[0] == b[0] {
        lemma_text_lt_asymmetric(a.drop_first(), b.drop_first());
    }
}

/// What comes before a text comes before all that the text comes before.
pub proof fn lemma_text_lt_transitive(a: Seq<char>, b: Seq<char>, c: Seq<char>)
    requires
        text_lt(a, b),
        text_lt(b, c),
    ensures
        text_lt(a, c),
    decreases a.len(),
{
    if a.len() > 0 && a[0] == b[0] && b[0] == c[0] {
        lemma_text_lt_transitive(a.drop_first(), b.drop_first(), c.drop_first());
    }
}

/// The test for coming after `x`.
pub open spec fn comes_after(x: Seq<char>) -> spec_fn(Seq<char>) -> bool {
    |y: Seq<char>| text_lt(x, y)
}

/// `s` with `x` put before the first text that comes after it, or at the end.
pub open spec fn insert_sorted(s: Seq<Seq<char>>, x: Seq<char>) -> Seq<Seq<char>> {
    s.insert(first_where(s, comes_after(x)), x)
}

/// The texts of `s` in ascending lexicographic order.
pub open spec fn sort_texts(s: Seq<Seq<char>>) -> Seq<Seq<char>>
    decreases s.len(),
{
    if s.len() == 0 {
        Seq::empty()
    } else {
        insert_sorted(sort_texts(s.drop_last()), s.last())
    }
}

/// Whether no text of `s` comes before an earlier one.
pub open spec fn ascending(s: Seq<Seq<char>>) -> bool {
    forall|i: int, j: int| 0 <= i < j < s.len() ==> !text_lt(#[trigger] s[j], #[trigger] s[i])
}

/// Inserting into ascending texts keeps them ascending, and adds one text.
pub proof fn lemma_insert_sorted(s: Seq<Seq<char>>, x: Seq<char>)
    requires
        ascending(s),
    ensures
        ascending(insert_sorted(s, x)),
        insert_sorted(s, x).to_multiset() == s.to_multiset().insert(x),
        insert_sorted(s, x).len() == s.len() + 1,
{
    lemma_first_where(s, comes_after(x));
    let p = first_where(s, comes_after(x));
    let r = insert_sorted(s, x);
    assert forall|i: int, j: int| 0 <= i < j < r.len() implies !text_lt(
        #[trigger] r[j],
        #[trigger] r[i],
    ) by {
        if j == p {
            // r[j] is x, r[i] an earlier text, which does not come after x.
            assert(r[i] == s[i]);
            assert(!comes_after(x)(s[i]));
        } else if i == p {
            // r[i] is x, r[j] a text from p on.
            assert(r[j] == s[j - 1]);
            assert(comes_after(x)(s[p]));
            if j - 1 == p {
                lemma_text_lt_asymmetric(x, s[p]);
            } else if text_lt(s[j - 1], x) {
                lemma_text_lt_transitive(s[j - 1], x, s[p]);
                assert(!text_lt(s[j - 1], s[p]));
            }
        } else {
            let a = if i < p {
                i
            } else {
                i - 1
            };
            let b = if j < p {
                j
            } else {
                j - 1
            };
            assert(r[i] == s[a] && r[j] == s[b]);
        }
    }
    assert(r.to_multiset() == s.to_multiset().insert(x)) by {
        vstd::seq_lib::to_multiset_remove(r, p);
        assert(r.remove(p) =~= s);
        r.to_multiset_ensures();
        assert(r[p] == x);
        assert(r.contains(x));
        assert(r.to_multiset() =~= r.to_multiset().remove(x).insert(x));
    }
}

/// Sorting gives the same texts, each as often as before, in ascending order.
pub proof fn lemma_sort_texts(s: Seq<Seq<char>>)
    ensures
        ascending(sort_texts(s)),
        sort_texts(s).to_multiset() == s.to_multiset(),
        sort_texts(s).len() == s.len(),
    decreases s.len(),
{
    if s.len() == 0 {
        assert(sort_texts(s) =~= s);
    } else {
        lemma_sort_texts(s.drop_last());
        lemma_insert_sorted(sort_texts(s.drop_last()), s.last());
        assert(s =~= s.drop_last().push(s.last()));
        vstd::seq_lib::to_multiset_build(s.drop_last(), s.last());
    }
}

/// Sorts strings into ascending lexicographic order.
pub fn sort_strings(items: Vec<String>) -> (r: Vec<String>)
    ensures
        views(r@) == sort_texts(views(items@)),
{
    let mut items = items;
    let ghost all = views(items@);
    let mut out: Vec<String> = Vec::new();
    let mut rev: Vec<String> = Vec::new();
    // Take the strings off the end, then put them in from first to last.
    while items.len() > 0
        invariant
            views(items@) + views(rev@).reverse() == all,
        decreases items.len(),
    {
        let ghost before = views(items@);
        let ghost rev_before = views(rev@);
        let last = items.pop().unwrap();
        rev.push(last);
        assert(views(items@) =~= before.drop_last());
        assert(views(rev@) =~= rev_before.push(before.last()));
        assert(views(items@) + views(rev@).reverse() =~= before + rev_before.reverse());
    }
    assert(views(rev@).reverse() =~= all);
    assert(views(out@) =~= sort_texts(all.take(0)));
    while rev.len() > 0
        invariant
            views(rev@).reverse() == all.skip(views(out@).len() as int),
            out@.len() + rev@.len() == all.len(),
            views(out@) == sort_texts(all.take(out@.len() as int)),
        decreases rev.len(),
    {
        let ghost done = out@.len() as int;
        let ghost sorted = views(out@);
        let ghost rev_before = views(rev@);
        let x = rev.pop().unwrap();
        assert(x@ == all[done]) by {
            assert(rev_before.reverse()[0] == rev_before.last());
        }
        let mut p: usize = 0;
        while p < out.len() && !str_lt(x.as_str(), out[p].as_str())
            invariant
                p <= out.len(),
                forall|k: int| 0 <= k < p ==> !text_lt(x@, (#[trigger] out@[k])@),
            decreases out.len() - p,
        {
            p += 1;
        }
        proof {
            assert forall|k: int| 0 <= k < p implies !comes_after(x@)(#[trigger] sorted[k]) by {
                assert(!text_lt(x@, out@[k]@));
            }
            lemma_first_where_is(sorted, comes_after(x@), p as int);
        }
        out.insert(p, x);
        proof {
            assert(views(out@) =~= sorted.insert(p as int, x@));
            assert(all.take(done + 1).drop_last() =~= all.take(done));
            assert(views(rev@) =~= rev_before.drop_last());
            assert(rev_before.drop_last().reverse() =~= rev_before.reverse().drop_first());
            assert(all.skip(done).drop_first() =~= all.skip(done + 1));
        }
    }
    assert(all.take(all.len() as int) =~= all);
    out
}

/// Whether `s` begins with `p`.
pub open spec fn starts_with(s: Seq<char>, p: Seq<char>) -> bool {
    p.len() <= s.len() && s.take(p.len() as int) == p
}

/// Whether `s` ends with `p`.
pub open spec fn ends_with(s: Seq<char>, p: Seq<char>) -> bool {
    p.len() <= s.len() && s.skip(s.len() - p.len()) == p
}

/// `s` without the copies of `p` that it begins with, one after the other.
pub open spec fn strip_prefixes(s: Seq<char>, p: Seq<char>) -> Seq<char>
    decreases s.len(),
{
    if p.len() > 0 && starts_with(s, p) {
        strip_prefixes(s.skip(p.len() as int), p)
    } else {
        s
    }
}

/// `s` without the copies of `p` that it ends with, one before the other.
pub open spec fn strip_suffixes(s: Seq<char>, p: Seq<char>) -> Seq<char>
    decreases s.len(),
{
    if p.len() > 0 && ends_with(s, p) {
        strip_suffixes(s.take(s.len() - p.len()), p)
    } else {
        s
    }
}

/// Whether `c` is white space: a character with the Unicode property
/// `White_Space`.
pub open spec fn is_whitespace(c: char) -> bool {
    let u = c as u32;
    ||| 0x09 <= u <= 0x0d
    ||| u == 0x20
    ||| u == 0x85
    ||| u == 0xa0
    ||| u == 0x1680
    ||| 0x2000 <= u <= 0x200a
    ||| u == 0x2028
    ||| u == 0x2029
    ||| u == 0x202f
    ||| u == 0x205f
    ||| u == 0x3000
}

/// `s` without the white space that it begins with.
pub open spec fn trim_start(s: Seq<char>) -> Seq<char>
    decreases s.len(),
{
    if s.len() > 0 && is_whitespace(s[0]) {
        trim_start(s.drop_first())
    } else {
        s
    }
}

/// `s` without the white space that it ends with.
pub open spec fn trim_end(s: Seq<char>) -> Seq<char>
    decreases s.len(),
{
    if s.len() > 0 && is_whitespace(s.last()) {
        trim_end(s.drop_last())
    } else {
        s
    }
}

/// `s` without the white space at either end.
pub open spec fn trim(s: Seq<char>) -> Seq<char> {
    trim_end(trim_start(s))
}

/// Whether `c` is white space.
pub fn char_is_whitespace(c: char) -> (r: bool)
    ensures
        r == is_whitespace(c),
{
    let u = c as u32;
    (0x09 <= u && u <= 0x0d) || u == 0x20 || u == 0x85 || u == 0xa0 || u == 0x1680 || (0x2000 <= u
        && u <= 0x200a) || u == 0x2028 || u == 0x2029 || u == 0x202f || u == 0x205f || u == 0x3000
}

/// Whether `pat` stands in `chars` from index `at` on, and ends by `to`.
pub(crate) fn matches_at(chars: &Vec<char>, at: usize, to: usize, pat: &Vec<char>) -> (r: bool)
    requires
        at <= to <= chars.len(),
    ensures
        r == starts_with(chars@.subrange(at as int, to as int), pat@),
{
    let ghost window = chars@.subrange(at as int, to as int);
    if pat.len() > to - at {
        return false;
    }
    let mut k: usize = 0;
    while k < pat.len()
        invariant
            k <= pat.len(),
            at <= to <= chars.len(),
            pat.len() <= to - at,
            window == chars@.subrange(at as int, to as int),
            forall|j: int| 0 <= j < k ==> window[j] == pat@[j],
        decreases pat.len() - k,
    {
        if chars[at + k] != pat[k] {
            assert(window.take(pat.len() as int)[k as int] != pat@[k as int]);
            return false;
        }
        k += 1;
    }
    assert(window.take(pat.len() as int) =~= pat@);
    true
}

/// The bounds of what is left of `chars` when the copies of `prefix` that
/// it begins with, and then the copies of `suffix` that the rest ends with,
/// are taken off.
pub(crate) fn strip_both(chars: &Vec<char>, prefix: &Vec<char>, suffix: &Vec<char>) -> (r: (usize, usize))
    requires
        prefix.len() > 0,
        suffix.len() > 0,
    ensures
        r.0 <= r.1 <= chars.len(),
        chars@.subrange(r.0 as int, r.1 as int) == strip_suffixes(
            strip_prefixes(chars@, prefix@),
            suffix@,
        ),
{
    let n = chars.len();
    let mut from: usize = 0;
    assert(chars@.subrange(0, n as int) =~= chars@);
    while matches_at(chars, from, n, prefix)
        invariant
            from <= n,
            n == chars.len(),
            prefix.len() > 0,
            strip_prefixes(chars@, prefix@) == strip_prefixes(
                chars@.subrange(from as int, n as int),
                prefix@,
            ),
        decreases n - from,
    {
        assert(chars@.subrange(from as int, n as int).skip(prefix.len() as int) =~= chars@.subrange(
            from + prefix.len(),
            n as int,
        ));
        from += prefix.len();
    }
    let ghost stripped = chars@.subrange(from as int, n as int);
    let mut to: usize = n;
    while suffix.len() <= to - from && matches_at(chars, to - suffix.len(), to, suffix)
        invariant
            from <= to <= n,
            n == chars.len(),
            suffix.len() > 0,
            stripped == chars@.subrange(from as int, n as int),
            strip_suffixes(stripped, suffix@) == strip_suffixes(
                chars@.subrange(from as int, to as int),
                suffix@,
            ),
        decreases to - from,
    {
        let ghost window = chars@.subrange(from as int, to as int);
        proof {
            assert(window.skip(window.len() - suffix.len()) =~= chars@.subrange(
                to - suffix.len(),
                to as int,
            ));
            assert(chars@.subrange(to - suffix.len(), to as int).take(suffix.len() as int)
                =~= chars@.subrange(to - suffix.len(), to as int));
            assert(window.take(window.len() - suffix.len()) =~= chars@.subrange(
                from as int,
                to - suffix.len(),
            ));
        }
        to -= suffix.len();
    }
    proof {
        let window = chars@.subrange(from as int, to as int);
        if suffix.len() <= to - from {
            assert(window.skip(window.len() - suffix.len()) =~= chars@.subrange(
                to - suffix.len(),
                to as int,
            ));
            assert(chars@.subrange(to - suffix.len(), to as int).take(suffix.len() as int)
                =~= chars@.subrange(to - suffix.len(), to as int));
        }
    }
    (from, to)
}

/// The bounds of `chars[from..to]` without the white space at either end.
pub(crate) fn trim_bounds(chars: &Vec<char>, from: usize, to: usize) -> (r: (usize, usize))
    requires
        from <= to <= chars.len(),
    ensures
        from <= r.0 <= r.1 <= to,
        chars@.subrange(r.0 as int, r.1 as int) == trim(chars@.subrange(from as int, to as int)),
{
    let mut a: usize = from;
    while a < to && char_is_whitespace(chars[a])
        invariant
            from <= a <= to <= chars.len(),
            trim_start(chars@.subrange(from as int, to as int)) == trim_start(
                chars@.subrange(a as int, to as int),
            ),
        decreases to - a,
    {
        assert(chars@.subrange(a as int, to as int).drop_first() =~= chars@.subrange(
            a + 1,
            to as int,
        ));
        a += 1;
    }
    let mut b: usize = to;
    while a < b && char_is_whitespace(chars[b - 1])
        invariant
            a <= b <= to <= chars.len(),
            trim_end(chars@.subrange(a as int, to as int)) == trim_end(
                chars@.subrange(a as int, b as int),
            ),
        decreases b - a,
    {
        assert(chars@.subrange(a as int, b as int).drop_last() =~= chars@.subrange(
            a as int,
            b - 1,
        ));
        b -= 1;
    }
    (a, b)
}

/// `s` without the copies of `c` that it ends with.
pub open spec fn strip_trailing(s: Seq<char>, c: char) -> Seq<char>
    decreases s.len(),
{
    if s.len() > 0 && s.last() == c {
        strip_trailing(s.drop_last(), c)
    } else {
        s
    }
}

/// `s` without the copies of `c` that it ends with.
pub fn trim_end_matches(s: &str, c: char) -> (r: String)
    ensures
        r@ == strip_trailing(s@, c),
{
    let chars = chars_of(s);
    let mut to: usize = chars.len();
    assert(chars@.subrange(0, to as int) =~= chars@);
    while to > 0 && chars[to - 1] == c
        invariant
            to <= chars.len(),
            strip_trailing(chars@, c) == strip_trailing(chars@.subrange(0, to as int), c),
        decreases to,
    {
        assert(chars@.subrange(0, to as int).drop_last() =~= chars@.subrange(0, to - 1));
        to -= 1;
    }
    text_of(&chars, 0, to)
}

} // verus!
