//! Text: numbers in decimal, trimming and splitting, over sequences of characters.

use vstd::prelude::*;
use vstd::string::{StrSliceExecFns, StringExecFns};

verus! {

/// The characters of `s`.
pub fn chars_of(s: &str) -> (v: Vec<char>)
    ensures
        v@ == s@,
{
    let n: usize = s.unicode_len();
    let mut v: Vec<char> = Vec::with_capacity(n);
    for c in it: s.chars()
        invariant
            v@ == it.seq().take(it.index()),
    {
        v.push(c);
    }
    assert(v@ =~= s@);
    v
}

/// Whether two texts are equal.
pub fn same_text(a: &str, b: &str) -> (r: bool)
    ensures
        r == (a@ == b@),
{
    let a: String = a.to_owned();
    let b: String = b.to_owned();
    a == b
}

/// Whether two lists of characters are equal.
pub fn same_chars(a: &[char], b: &[char]) -> (r: bool)
    ensures
        r == (a@ == b@),
{
    if a.len() != b.len() {
        return false;
    }
    let mut i: usize = 0;
    while i < a.len()
        invariant
            i <= a.len() == b.len(),
            forall|j: int| 0 <= j < i ==> a@[j] == b@[j],
        decreases a.len() - i,
    {
        if a[i] != b[i] {
            return false;
        }
        i += 1;
    }
    assert(a@ =~= b@);
    true
}

/// The value of a decimal digit.
pub open spec fn digit_value(c: char) -> Option<nat> {
    if '0' <= c <= '9' {
        Some((c as u32 - '0' as u32) as nat)
    } else {
        None
    }
}

/// The number that a run of digits writes, if all its characters are digits. An empty run
/// writes zero.
pub open spec fn digits_value(s: Seq<char>) -> Option<nat>
    decreases s.len(),
{
    if s.len() == 0 {
        Some(0)
    } else {
        match (digits_value(s.drop_last()), digit_value(s.last())) {
            (Some(v), Some(d)) => Some(10 * v + d),
            _ => None,
        }
    }
}

/// The number that `s` writes: at least one digit, and perhaps a plus sign in front.
pub open spec fn natural(s: Seq<char>) -> Option<nat> {
    let body = if s.len() > 0 && s[0] == '+' {
        s.skip(1)
    } else {
        s
    };
    if body.len() == 0 {
        None
    } else {
        digits_value(body)
    }
}

/// The number that `s` writes, if it writes one that is at most `max`.
pub open spec fn natural_upto(s: Seq<char>, max: nat) -> Option<nat> {
    match natural(s) {
        Some(v) => if v <= max {
            Some(v)
        } else {
            None
        },
        None => None,
    }
}

fn digit_of(c: char) -> (r: Option<u64>)
    ensures
        match r {
            Some(d) => digit_value(c) == Some(d as nat) && d <= 9,
            None => digit_value(c) is None,
        },
{
    if '0' <= c && c <= '9' {
        Some((c as u32 - '0' as u32) as u64)
    } else {
        None
    }
}

proof fn lemma_digits_prefix(s: Seq<char>, k: int)
    requires
        0 <= k <= s.len(),
        digits_value(s) is Some,
    ensures
        digits_value(s.take(k)) is Some,
        digits_value(s.take(k))->0 <= digits_value(s)->0,
    decreases s.len(),
{
    if k == s.len() {
        assert(s.take(k) =~= s);
    } else {
        lemma_digits_prefix(s.drop_last(), k);
        assert(s.drop_last().take(k) =~= s.take(k));
    }
}

/// The number that `s` writes, if it writes one that is at most `max`.
pub fn parse_natural(s: &Vec<char>, max: u64) -> (r: Option<u64>)
    ensures
        match r {
            Some(v) => natural_upto(s@, max as nat) == Some(v as nat),
            None => natural_upto(s@, max as nat) is None,
        },
{
    let n: usize = s.len();
    let from: usize = if n > 0 && s[0] == '+' {
        1
    } else {
        0
    };
    let ghost body = s@.skip(from as int);
    assert(from == 0 ==> body =~= s@);
    if from == n {
        return None;
    }
    let mut v: u64 = 0;
    let mut i: usize = from;
    assert(body.take(0) =~= Seq::<char>::empty());
    while i < n
        invariant
            from <= i <= n == s.len(),
            body == s@.skip(from as int),
            natural(s@) == digits_value(body),
            digits_value(body.take(i - from)) == Some(v as nat),
            v <= max,
        decreases n - i,
    {
        proof {
            let next = body.take(i - from + 1);
            assert(next.drop_last() =~= body.take(i - from));
            assert(next.last() == s@[i as int]);
            if digits_value(body) is Some {
                lemma_digits_prefix(body, i - from + 1);
            }
        }
        match digit_of(s[i]) {
            None => {
                return None;
            },
            Some(d) => {
                if d > max || v > (max - d) / 10 {
                    return None;
                }
                v = 10 * v + d;
            },
        }
        i += 1;
    }
    assert(body.take(n - from) =~= body);
    Some(v)
}

/// Whether `c` is white space.
pub open spec fn is_space(c: char) -> bool {
    let u = c as u32;
    ||| 0x9 <= u <= 0xd
    ||| u == 0x20
    ||| u == 0x85
    ||| u == 0xa0
    ||| u == 0x1680
    ||| 0x2000 <= u <= 0x200a
    ||| u == 0x2028
    ||| u == 0x2029
    ||| u == 0x202f
    ||| u == 0x205f
    ||| u == 0x3000
}

fn space(c: char) -> (r: bool)
    ensures
        r == is_space(c),
{
    let u: u32 = c as u32;
    (0x9 <= u && u <= 0xd) || u == 0x20 || u == 0x85 || u == 0xa0 || u == 0x1680 || (0x2000 <= u
        && u <= 0x200a) || u == 0x2028 || u == 0x2029 || u == 0x202f || u == 0x205f || u == 0x3000
}

/// `s` without white space in front.
pub open spec fn trim_front(s: Seq<char>) -> Seq<char>
    decreases s.len(),
{
    if s.len() > 0 && is_space(s[0]) {
        trim_front(s.skip(1))
    } else {
        s
    }
}

/// `s` without white space at its end.
pub open spec fn trim_back(s: Seq<char>) -> Seq<char>
    decreases s.len(),
{
    if s.len() > 0 && is_space(s.last()) {
        trim_back(s.drop_last())
    } else {
        s
    }
}

/// `s` without white space around it.
pub open spec fn trimmed(s: Seq<char>) -> Seq<char> {
    trim_back(trim_front(s))
}

/// `s` without white space around it.
pub fn trim(s: &Vec<char>) -> (r: Vec<char>)
    ensures
        r@ == trimmed(s@),
{
    let mut from: usize = 0;
    assert(s@.skip(0) =~= s@);
    while from < s.len() && space(s[from])
        invariant
            from <= s.len(),
            trim_front(s@.skip(from as int)) == trim_front(s@),
        decreases s.len() - from,
    {
        assert(s@.skip(from as int).skip(1) =~= s@.skip(from + 1));
        from += 1;
    }
    let ghost rest = s@.skip(from as int);
    assert(trim_front(s@) == rest);
    let mut to: usize = s.len();
    assert(s@.subrange(from as int, to as int) =~= rest);
    while to > from && space(s[to - 1])
        invariant
            from <= to <= s.len(),
            trim_back(s@.subrange(from as int, to as int)) == trimmed(s@),
        decreases to - from,
    {
        assert(s@.subrange(from as int, to as int).drop_last() =~= s@.subrange(
            from as int,
            to - 1,
        ));
        to -= 1;
    }
    let mut r: Vec<char> = Vec::with_capacity(to - from);
    let mut i: usize = from;
    while i < to
        invariant
            from <= i <= to <= s.len(),
            r@ == s@.subrange(from as int, i as int),
        decreases to - i,
    {
        r.push(s[i]);
        i += 1;
        assert(r@ =~= s@.subrange(from as int, i as int));
    }
    r
}

/// The pieces of `s` between separators: one more than there are separators.
pub open spec fn pieces(s: Seq<char>, sep: char) -> Seq<Seq<char>>
    decreases s.len(),
{
    if s.len() == 0 {
        seq![Seq::empty()]
    } else {
        let before = pieces(s.drop_last(), sep);
        if s.last() == sep {
            before.push(Seq::empty())
        } else {
            before.update(before.len() - 1, before.last().push(s.last()))
        }
    }
}

/// The contents of a list of texts.
pub open spec fn views(v: Seq<Vec<char>>) -> Seq<Seq<char>> {
    Seq::new(v.len(), |i: int| v[i]@)
}

/// The pieces of `s` between separators.
pub fn split(s: &Vec<char>, sep: char) -> (parts: Vec<Vec<char>>)
    ensures
        views(parts@) == pieces(s@, sep),
        parts.len() > 0,
{
    let mut parts: Vec<Vec<char>> = Vec::new();
    let mut cur: Vec<char> = Vec::new();
    let mut i: usize = 0;
    proof {
        assert(s@.take(0) =~= Seq::<char>::empty());
        assert(views(parts@).push(cur@) =~= pieces(s@.take(0), sep));
    }
    while i < s.len()
        invariant
            i <= s.len(),
            views(parts@).push(cur@) == pieces(s@.take(i as int), sep),
        decreases s.len() - i,
    {
        let c: char = s[i];
        let ghost parts0 = views(parts@);
        let ghost cur0 = cur@;
        proof {
            let next = s@.take(i + 1);
            assert(next.drop_last() =~= s@.take(i as int));
            assert(next.last() == c);
        }
        if c == sep {
            parts.push(cur);
            cur = Vec::new();
            assert(views(parts@) =~= parts0.push(cur0));
            assert(views(parts@).push(cur@) =~= pieces(s@.take(i + 1), sep));
        } else {
            cur.push(c);
            assert(views(parts@).push(cur@) =~= pieces(s@.take(i + 1), sep));
        }
        i += 1;
    }
    let ghost parts0 = views(parts@);
    let ghost cur0 = cur@;
    parts.push(cur);
    proof {
        assert(s@.take(i as int) =~= s@);
        assert(views(parts@) =~= parts0.push(cur0));
    }
    parts
}

/// `n` in decimal.
pub open spec fn decimal(n: nat) -> Seq<char>
    decreases n,
{
    if n < 10 {
        seq![digit_char(n)]
    } else {
        decimal(n / 10).push(digit_char(n % 10))
    }
}

/// The character of a digit.
pub open spec fn digit_char(d: nat) -> char {
    (('0' as u32) + d) as char
}

fn digit_text(d: u64) -> (s: &'static str)
    requires
        d < 10,
    ensures
        s@ == seq![digit_char(d as nat)],
{
    proof {
        reveal_strlit("0");
        reveal_strlit("1");
        reveal_strlit("2");
        reveal_strlit("3");
        reveal_strlit("4");
        reveal_strlit("5");
        reveal_strlit("6");
        reveal_strlit("7");
        reveal_strlit("8");
        reveal_strlit("9");
    }
    let s: &'static str = if d == 0 {
        "0"
    } else if d == 1 {
        "1"
    } else if d == 2 {
        "2"
    } else if d == 3 {
        "3"
    } else if d == 4 {
        "4"
    } else if d == 5 {
        "5"
    } else if d == 6 {
        "6"
    } else if d == 7 {
        "7"
    } else if d == 8 {
        "8"
    } else {
        "9"
    };
    assert(s@ =~= seq![digit_char(d as nat)]);
    s
}

/// Appends `n` in decimal.
pub fn append_decimal(s: &mut String, n: u64)
    ensures
        final(s)@ == old(s)@ + decimal(n as nat),
    decreases n,
{
    if n >= 10 {
        append_decimal(s, n / 10);
        s.append(digit_text(n % 10));
        assert(s@ =~= old(s)@ + decimal(n as nat));
    } else {
        s.append(digit_text(n));
    }
}

/// `n` in decimal.
pub fn decimal_of(n: u64) -> (s: String)
    ensures
        s@ == decimal(n as nat),
{
    let mut s: String = String::new();
    append_decimal(&mut s, n);
    assert(s@ =~= decimal(n as nat));
    s
}

/// A number in decimal reads back as itself.
pub proof fn decimal_reads_back(n: nat)
    ensures
        natural(decimal(n)) == Some(n),
{
    lemma_decimal_digits(n);
    assert(decimal(n)[0] != '+') by {
        assert('0' <= decimal(n)[0]);
    }
}

proof fn lemma_decimal_digits(n: nat)
    ensures
        decimal(n).len() > 0,
        '0' <= decimal(n)[0] <= '9',
        digits_value(decimal(n)) == Some(n),
    decreases n,
{
    reveal_with_fuel(digits_value, 2);
    let d = digit_char(n % 10);
    assert(digit_value(d) == Some((n % 10) as nat));
    if n < 10 {
        assert(decimal(n).drop_last() =~= Seq::<char>::empty());
    } else {
        lemma_decimal_digits(n / 10);
        assert(decimal(n).drop_last() =~= decimal(n / 10));
    }
}

// ---- What reading promises ----

/// A plus sign in front of a number changes nothing; a text with anything but digits behind it is
/// no number, and neither is an empty one.
pub proof fn only_digits_make_a_number(s: Seq<char>, n: nat, i: int)
    ensures
        natural(seq!['+'] + decimal(n)) == Some(n),
        natural(Seq::empty()) is None,
        0 < i < s.len() && !('0' <= s[i] <= '9') ==> natural(s) is None,
        s.len() > 0 && s[0] != '+' && !('0' <= s[0] <= '9') ==> natural(s) is None,
{
    lemma_decimal_digits(n);
    assert((seq!['+'] + decimal(n)).skip(1) =~= decimal(n));
    if 0 < i < s.len() && !('0' <= s[i] <= '9') {
        if s[0] == '+' {
            lemma_no_digits(s.skip(1), i - 1);
        } else {
            lemma_no_digits(s, i);
        }
    }
    if s.len() > 0 && s[0] != '+' && !('0' <= s[0] <= '9') {
        lemma_no_digits(s, 0);
    }
}

proof fn lemma_no_digits(s: Seq<char>, i: int)
    requires
        0 <= i < s.len(),
        !('0' <= s[i] <= '9'),
    ensures
        digits_value(s) is None,
    decreases s.len(),
{
    if i < s.len() - 1 {
        lemma_no_digits(s.drop_last(), i);
    }
}

/// A number has the digits of its tenth part in front of its last one.
pub proof fn decimals_have_the_last_digit_last(n: nat)
    requires
        n >= 10,
    ensures
        decimal(n).drop_last() == decimal(n / 10),
        '0' <= decimal(n).last() <= '9',
        decimal(n).last() as u32 - 48 == n % 10,
{
    assert(decimal(n).drop_last() =~= decimal(n / 10));
}

/// Trimming takes white space away from both ends, all of it, and nothing else.
pub proof fn trimming_takes_white_space_only(s: Seq<char>) -> (r: (Seq<char>, Seq<char>))
    ensures
        s == r.0 + trimmed(s) + r.1,
        forall|i: int| 0 <= i < r.0.len() ==> is_space(#[trigger] r.0[i]),
        forall|i: int| 0 <= i < r.1.len() ==> is_space(#[trigger] r.1[i]),
        trimmed(s).len() > 0 ==> !is_space(trimmed(s)[0]) && !is_space(trimmed(s).last()),
{
    let a = lemma_front(s);
    let f = trim_front(s);
    let b = lemma_back(f);
    let t = trim_back(f);
    assert(s =~= a + t + b);
    if t.len() > 0 {
        assert(t[0] == f[0]);
    }
    (a, b)
}

proof fn lemma_front(s: Seq<char>) -> (a: Seq<char>)
    ensures
        s == a + trim_front(s),
        forall|i: int| 0 <= i < a.len() ==> is_space(#[trigger] a[i]),
        trim_front(s).len() > 0 ==> !is_space(trim_front(s)[0]),
    decreases s.len(),
{
    if s.len() > 0 && is_space(s[0]) {
        let b = lemma_front(s.skip(1));
        let a = seq![s[0]] + b;
        assert(s =~= a + trim_front(s)) by {
            assert(s =~= seq![s[0]] + s.skip(1));
        }
        a
    } else {
        assert(s =~= Seq::<char>::empty() + s);
        Seq::empty()
    }
}

proof fn lemma_back(s: Seq<char>) -> (b: Seq<char>)
    ensures
        s == trim_back(s) + b,
        forall|i: int| 0 <= i < b.len() ==> is_space(#[trigger] b[i]),
        trim_back(s).len() > 0 ==> !is_space(trim_back(s).last()),
    decreases s.len(),
{
    if s.len() > 0 && is_space(s.last()) {
        let a = lemma_back(s.drop_last());
        let b = a.push(s.last());
        assert(s =~= trim_back(s) + b) by {
            assert(s =~= s.drop_last().push(s.last()));
        }
        b
    } else {
        assert(s =~= s + Seq::<char>::empty());
        Seq::empty()
    }
}

/// Texts put together with a separator between any two.
pub open spec fn put_together(parts: Seq<Seq<char>>, sep: char) -> Seq<char>
    decreases parts.len(),
{
    if parts.len() == 0 {
        Seq::empty()
    } else if parts.len() == 1 {
        parts[0]
    } else {
        put_together(parts.drop_last(), sep).push(sep) + parts.last()
    }
}

/// The pieces of a text hold no separator, and put together with separators they are the text.
pub proof fn pieces_put_together_are_the_text(s: Seq<char>, sep: char)
    ensures
        pieces(s, sep).len() > 0,
        put_together(pieces(s, sep), sep) == s,
        forall|i: int, j: int|
            0 <= i < pieces(s, sep).len() && 0 <= j < pieces(s, sep)[i].len()
                ==> #[trigger] pieces(s, sep)[i][j] != sep,
    decreases s.len(),
{
    if s.len() == 0 {
        assert(pieces(s, sep)[0] =~= s);
    } else {
        let a = pieces(s.drop_last(), sep);
        let b = pieces(s, sep);
        pieces_put_together_are_the_text(s.drop_last(), sep);
        assert(s =~= s.drop_last().push(s.last()));
        if s.last() == sep {
            assert(b.drop_last() =~= a);
            assert(put_together(b, sep) =~= s);
            assert forall|i: int, j: int|
                0 <= i < b.len() && 0 <= j < b[i].len() implies #[trigger] b[i][j] != sep by {
                assert(a[i][j] != sep);
            }
        } else {
            assert(b.drop_last() =~= a.drop_last());
            assert(put_together(b, sep) =~= s);
            assert forall|i: int, j: int|
                0 <= i < b.len() && 0 <= j < b[i].len() implies #[trigger] b[i][j] != sep by {
                if i < a.len() - 1 || j < a[i].len() {
                    assert(a[i][j] != sep);
                }
            }
        }
    }
}

} // verus!
