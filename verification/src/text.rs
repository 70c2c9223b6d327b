//! Text as sequences of characters.
//!
//! The views of `String` and `str` are sequences of `char`. The functions here split, trim,
//! search, compare and print text, each against a definition over such sequences.
use vstd::prelude::*;

verus! {

/// The text behind an optional one.
pub open spec fn seen(s: Option<&str>) -> Option<Seq<char>> {
    match s {
        Some(t) => Some(t@),
        None => None,
    }
}

/// The contents of a list of strings.
pub open spec fn texts(v: Seq<String>) -> Seq<Seq<char>> {
    Seq::new(v.len(), |i: int| v[i]@)
}

/// The pieces of `s` between the occurrences of `sep`; there is one more piece than occurrences.
pub open spec fn split(s: Seq<char>, sep: char) -> Seq<Seq<char>>
    decreases s.len(),
{
    if s.len() == 0 {
        seq![Seq::empty()]
    } else {
        let before = split(s.drop_last(), sep);
        if s.last() == sep {
            before.push(Seq::empty())
        } else {
            before.drop_last().push(before.last().push(s.last()))
        }
    }
}

/// `s` without the run of `c` at its end.
pub open spec fn trim_end(s: Seq<char>, c: char) -> Seq<char>
    decreases s.len(),
{
    if s.len() > 0 && s.last() == c {
        trim_end(s.drop_last(), c)
    } else {
        s
    }
}

/// `part` occurs in `s` as a run of neighbouring characters.
pub open spec fn has_part(s: Seq<char>, part: Seq<char>) -> bool {
    exists|i: int| #[trigger] part_at(s, part, i)
}

/// `part` occurs in `s` from position `i` on.
pub open spec fn part_at(s: Seq<char>, part: Seq<char>, i: int) -> bool {
    0 <= i && i + part.len() <= s.len() && s.subrange(i, i + part.len()) == part
}

/// How often `c` occurs in `s`.
pub open spec fn occurrences(s: Seq<char>, c: char) -> nat
    decreases s.len(),
{
    if s.len() == 0 {
        0
    } else {
        occurrences(s.drop_last(), c) + (if s.last() == c {
            1nat
        } else {
            0nat
        })
    }
}

/// `a` comes no later than `b` in dictionary order by code point.
pub open spec fn text_le(a: Seq<char>, b: Seq<char>) -> bool
    decreases a.len(),
{
    if a.len() == 0 {
        true
    } else if b.len() == 0 {
        false
    } else if a[0] != b[0] {
        (a[0] as u32) < (b[0] as u32)
    } else {
        text_le(a.drop_first(), b.drop_first())
    }
}

/// The decimal digit of `d`.
pub open spec fn digit(d: nat) -> char {
    (48 + d) as char
}

/// The decimal numeral of `n`, without leading zeros.
pub open spec fn decimal(n: nat) -> Seq<char>
    decreases n,
{
    if n < 10 {
        seq![digit(n)]
    } else {
        decimal(n / 10).push(digit(n % 10))
    }
}

/// The decimal numeral of `n`, with a minus sign in front of a negative number.
pub open spec fn signed_decimal(n: int) -> Seq<char> {
    if n < 0 {
        seq!['-'] + decimal((-n) as nat)
    } else {
        decimal(n as nat)
    }
}

/// `count` copies of `c`.
pub open spec fn repeated(c: char, count: nat) -> Seq<char> {
    Seq::new(count, |i: int| c)
}

/// `s` filled up with blanks on the right to `width` characters.
pub open spec fn padded(s: Seq<char>, width: nat) -> Seq<char> {
    s + repeated(' ', if s.len() < width {
        (width - s.len()) as nat
    } else {
        0
    })
}

/// `s` filled up with blanks on the left to `width` characters.
pub open spec fn padded_left(s: Seq<char>, width: nat) -> Seq<char> {
    repeated(' ', if s.len() < width {
        (width - s.len()) as nat
    } else {
        0
    }) + s
}

/// `String::push` of std: the string grows by the one character, at its end.
pub assume_specification[ String::push ](s: &mut String, c: char)
    ensures
        final(s)@ == old(s)@.push(c),
;

/// The characters of a text.
pub fn to_chars(s: &str) -> (chars: Vec<char>)
    ensures
        chars@ == s@,
{
    let mut out: Vec<char> = Vec::new();
    for c in it: s.chars()
        invariant
            out@ == s@.take(it.index()),
            it.seq() == s@,
    {
        out.push(c);
    }
    out
}

/// The characters of `chars` in the half-open range from `from` to `to`.
pub fn piece(chars: &Vec<char>, from: usize, to: usize) -> (s: String)
    requires
        from <= to <= chars@.len(),
    ensures
        s@ == chars@.subrange(from as int, to as int),
{
    let mut out = String::new();
    let mut i: usize = from;
    while i < to
        invariant
            from <= i <= to <= chars@.len(),
            out@ == chars@.subrange(from as int, i as int),
        decreases to - i,
    {
        out.push(chars[i]);
        i += 1;
    }
    out
}

/// Whether two strings hold the same characters.
pub fn text_eq(a: &str, b: &str) -> (same: bool)
    ensures
        same == (a@ == b@),
{
    let x = to_chars(a);
    let y = to_chars(b);
    if x.len() != y.len() {
        return false;
    }
    let mut i: usize = 0;
    while i < x.len()
        invariant
            i <= x@.len() == y@.len(),
            x@ == a@,
            y@ == b@,
            x@.take(i as int) == y@.take(i as int),
        decreases x@.len() - i,
    {
        if x[i] != y[i] {
            proof {
                assert(x@[i as int] != y@[i as int]);
            }
            return false;
        }
        assert(x@.take(i + 1) == x@.take(i as int).push(x@[i as int]));
        assert(y@.take(i + 1) == y@.take(i as int).push(y@[i as int]));
        i += 1;
    }
    assert(x@.take(i as int) == x@);
    assert(y@.take(i as int) == y@);
    true
}

/// The pieces of `s` between the occurrences of `sep`.
pub fn split_text(s: &str, sep: char) -> (parts: Vec<String>)
    ensures
        texts(parts@) == split(s@, sep),
        parts@.len() >= 1,
{
    let chars = to_chars(s);
    let mut parts: Vec<String> = Vec::new();
    let mut current = String::new();
    let mut i: usize = 0;
    assert(texts(parts@).push(current@) == split(chars@.take(0), sep));
    while i < chars.len()
        invariant
            i <= chars@.len(),
            texts(parts@).push(current@) == split(chars@.take(i as int), sep),
        decreases chars@.len() - i,
    {
        let c = chars[i];
        let ghost before = texts(parts@).push(current@);
        assert(chars@.take(i + 1).drop_last() == chars@.take(i as int));
        if c == sep {
            parts.push(current);
            current = String::new();
            assert(texts(parts@) == before);
        } else {
            current.push(c);
            assert(before.drop_last() == texts(parts@));
        }
        i += 1;
    }
    assert(chars@.take(i as int) == chars@);
    let ghost before = texts(parts@).push(current@);
    parts.push(current);
    assert(texts(parts@) == before);
    parts
}

/// `s` without the run of `c` at its end.
pub fn trim_end_of(s: &str, c: char) -> (r: String)
    ensures
        r@ == trim_end(s@, c),
{
    let chars = to_chars(s);
    let mut n: usize = chars.len();
    assert(chars@.take(n as int) == chars@);
    while n > 0 && chars[n - 1] == c
        invariant
            n <= chars@.len(),
            trim_end(chars@.take(n as int), c) == trim_end(chars@, c),
        decreases n,
    {
        assert(chars@.take(n as int).drop_last() == chars@.take(n - 1));
        n -= 1;
    }
    assert(chars@.subrange(0, n as int) == chars@.take(n as int));
    piece(&chars, 0, n)
}

/// Whether `s` begins with the characters of `p`.
pub fn begins_with(s: &str, p: &str) -> (b: bool)
    ensures
        b == p@.is_prefix_of(s@),
{
    let x = to_chars(s);
    let y = to_chars(p);
    chars_at(&x, &y, 0)
}

/// Whether the characters of `y` stand in `x` from position `at` on.
fn chars_at(x: &Vec<char>, y: &Vec<char>, at: usize) -> (b: bool)
    requires
        at <= x@.len(),
    ensures
        b == part_at(x@, y@, at as int),
        at == 0 ==> b == y@.is_prefix_of(x@),
{
    let n: usize = x.len();
    if y.len() > n - at {
        return false;
    }
    let mut i: usize = 0;
    while i < y.len()
        invariant
            i <= y@.len(),
            at + y@.len() <= x@.len() == n,
            forall|k: int| 0 <= k < i ==> x@[at + k] == y@[k],
        decreases y@.len() - i,
    {
        if x[at + i] != y[i] {
            proof {
                assert(x@.subrange(at as int, at + y@.len())[i as int] == x@[at + i]);
            }
            return false;
        }
        i += 1;
    }
    assert(x@.subrange(at as int, at + y@.len()) == y@);
    true
}

/// Whether the characters of `part` occur in `s` as a run of neighbours.
pub fn contains_part(s: &str, part: &str) -> (b: bool)
    ensures
        b == has_part(s@, part@),
{
    let x = to_chars(s);
    let y = to_chars(part);
    let mut i: usize = 0;
    loop
        invariant
            i <= x@.len(),
            x@ == s@,
            y@ == part@,
            forall|k: int| 0 <= k < i ==> !#[trigger] part_at(x@, y@, k),
        decreases x@.len() - i,
    {
        if chars_at(&x, &y, i) {
            return true;
        }
        if i == x.len() {
            assert forall|k: int| !#[trigger] part_at(x@, y@, k) by {
                if k > i {
                    assert(k + y@.len() > x@.len());
                }
            }
            return false;
        }
        i += 1;
    }
}

/// How often `c` occurs in `s`.
pub fn count_char(s: &str, c: char) -> (n: usize)
    ensures
        n == occurrences(s@, c),
{
    let chars = to_chars(s);
    let mut n: usize = 0;
    let mut i: usize = 0;
    while i < chars.len()
        invariant
            i <= chars@.len(),
            n <= i,
            n == occurrences(chars@.take(i as int), c),
        decreases chars@.len() - i,
    {
        assert(chars@.take(i + 1).drop_last() == chars@.take(i as int));
        if chars[i] == c {
            n += 1;
        }
        i += 1;
    }
    assert(chars@.take(i as int) == chars@);
    n
}

pub proof fn lemma_text_le_total(a: Seq<char>, b: Seq<char>)
    ensures
        text_le(a, b) || text_le(b, a),
        text_le(a, a),
    decreases a.len(),
{
    if a.len() > 0 {
        lemma_text_le_total(a.drop_first(), a.drop_first());
        if b.len() > 0 && a[0] == b[0] {
            lemma_text_le_total(a.drop_first(), b.drop_first());
        } else if b.len() > 0 {
            let (x, y): (char, char) = (a[0], b[0]);
            vstd::utf8::char_u32_cast(x, x as u32);
            vstd::utf8::char_u32_cast(y, y as u32);
            assert(x as u32 != y as u32);
        }
    }
}

pub proof fn lemma_text_le_antisymmetric(a: Seq<char>, b: Seq<char>)
    requires
        text_le(a, b),
        text_le(b, a),
    ensures
        a == b,
    decreases a.len(),
{
    if a.len() > 0 && b.len() > 0 {
        lemma_text_le_antisymmetric(a.drop_first(), b.drop_first());
        assert(a == seq![a[0]] + a.drop_first());
        assert(b == seq![b[0]] + b.drop_first());
    } else {
        assert(a =~= b);
    }
}

pub proof fn lemma_text_le_transitive(a: Seq<char>, b: Seq<char>, c: Seq<char>)
    requires
        text_le(a, b),
        text_le(b, c),
    ensures
        text_le(a, c),
    decreases a.len(),
{
    if a.len() > 0 && b.len() > 0 && c.len() > 0 && a[0] == b[0] && b[0] == c[0] {
        lemma_text_le_transitive(a.drop_first(), b.drop_first(), c.drop_first());
    }
}

/// A text comes before each text that continues it.
pub proof fn lemma_text_le_prefix(a: Seq<char>, b: Seq<char>)
    requires
        a.is_prefix_of(b),
    ensures
        text_le(a, b),
    decreases a.len(),
{
    if a.len() > 0 {
        assert(a[0] == b[0]) by {
            assert(b.subrange(0, a.len() as int)[0] == b[0]);
        }
        assert(a.drop_first() == b.drop_first().subrange(0, a.len() - 1));
        lemma_text_le_prefix(a.drop_first(), b.drop_first());
    }
}

/// Whether `x` comes no later than `y` in dictionary order by code point.
pub fn chars_le(x: &Vec<char>, y: &Vec<char>) -> (b: bool)
    ensures
        b == text_le(x@, y@),
{
    let mut i: usize = 0;
    assert(x@.skip(0) == x@);
    assert(y@.skip(0) == y@);
    loop
        invariant
            i <= x@.len(),
            i <= y@.len(),
            text_le(x@, y@) == text_le(x@.skip(i as int), y@.skip(i as int)),
        decreases x@.len() - i,
    {
        if i == x.len() {
            return true;
        }
        if i == y.len() {
            return false;
        }
        if x[i] != y[i] {
            return (x[i] as u32) < (y[i] as u32);
        }
        assert(x@.skip(i as int).drop_first() == x@.skip(i + 1));
        assert(y@.skip(i as int).drop_first() == y@.skip(i + 1));
        i += 1;
    }
}

/// The decimal numeral of `n`.
pub fn u64_text(n: u64) -> (s: String)
    ensures
        s@ == decimal(n as nat),
    decreases n,
{
    let mut s = if n < 10 {
        String::new()
    } else {
        u64_text(n / 10)
    };
    let d: u8 = (n % 10) as u8;
    s.push((48 + d) as char);
    s
}

/// The decimal numeral of `n`.
pub fn usize_text(n: usize) -> (s: String)
    ensures
        s@ == decimal(n as nat),
{
    u64_text(n as u64)
}

/// The decimal numeral of `n`, with a minus sign in front of a negative number.
pub fn i64_text(n: i64) -> (s: String)
    ensures
        s@ == signed_decimal(n as int),
{
    if n >= 0 {
        return u64_text(n as u64);
    }
    let magnitude: u64 = (-(n as i128)) as u64;
    let mut s = String::new();
    s.push('-');
    s.append(u64_text(magnitude).as_str());
    assert(s@ == seq!['-'] + decimal(magnitude as nat));
    s
}

/// `count` copies of `c`.
pub fn repeat_char(c: char, count: usize) -> (s: String)
    ensures
        s@ == repeated(c, count as nat),
{
    let mut s = String::new();
    let mut i: usize = 0;
    while i < count
        invariant
            i <= count,
            s@ == repeated(c, i as nat),
        decreases count - i,
    {
        s.push(c);
        i += 1;
        assert(s@ == repeated(c, i as nat));
    }
    s
}

/// `s` filled up with blanks on the right to `width` characters.
pub fn pad(s: &str, width: usize) -> (r: String)
    ensures
        r@ == padded(s@, width as nat),
{
    let n: usize = to_chars(s).len();
    let mut r = s.to_owned();
    if n < width {
        r.append(repeat_char(' ', width - n).as_str());
    }
    assert(r@ == padded(s@, width as nat));
    r
}

/// `s` filled up with blanks on the left to `width` characters.
pub fn pad_left(s: &str, width: usize) -> (r: String)
    ensures
        r@ == padded_left(s@, width as nat),
{
    let n: usize = to_chars(s).len();
    let mut r = if n < width {
        repeat_char(' ', width - n)
    } else {
        String::new()
    };
    r.append(s);
    assert(r@ == padded_left(s@, width as nat));
    r
}

} // verus!
