//! Characters, words and decimal numbers: the text that servers and the
//! load balancer exchange.
use vstd::prelude::*;
use vstd::string::*;

verus! {

/// Whether `c` has the Unicode `White_Space` property, which is what
/// `char::is_whitespace` tests and what `str::split_whitespace` splits on.
pub open spec fn is_white_space(c: char) -> bool {
    let v = c as u32;
    ||| 9 <= v <= 13
    ||| v == 32
    ||| v == 0x85
    ||| v == 0xa0
    ||| v == 0x1680
    ||| 0x2000 <= v <= 0x200a
    ||| v == 0x2028
    ||| v == 0x2029
    ||| v == 0x202f
    ||| v == 0x205f
    ||| v == 0x3000
}

/// No character of `s` is white space.
pub open spec fn no_white_space(s: Seq<char>) -> bool {
    forall|i: int| 0 <= i < s.len() ==> !is_white_space(#[trigger] s[i])
}

/// The number of characters before the first white space of `s`.
pub open spec fn leading_word_len(s: Seq<char>) -> nat
    decreases s.len(),
{
    if s.len() == 0 || is_white_space(s[0]) {
        0
    } else {
        1 + leading_word_len(s.drop_first())
    }
}

pub proof fn lemma_leading_word_len_bound(s: Seq<char>)
    ensures
        leading_word_len(s) <= s.len(),
        s.len() > 0 && !is_white_space(s[0]) ==> leading_word_len(s) >= 1,
    decreases s.len(),
{
    if s.len() > 0 && !is_white_space(s[0]) {
        lemma_leading_word_len_bound(s.drop_first());
    }
}

/// The words of `s`: its maximal runs of characters that are not white
/// space, in order. This is what `str::split_whitespace` yields.
pub open spec fn words(s: Seq<char>) -> Seq<Seq<char>>
    decreases s.len(),
{
    if s.len() == 0 {
        Seq::empty()
    } else if is_white_space(s[0]) {
        words(s.drop_first())
    } else {
        proof {
            lemma_leading_word_len_bound(s);
        }
        let n = leading_word_len(s);
        seq![s.take(n as int)] + words(s.skip(n as int))
    }
}

/// The characters that `char::is_whitespace` accepts (Unicode
/// `White_Space`) are white space here, and no printable ASCII character
/// is.
pub proof fn white_space_characters()
    ensures
        is_white_space('\t'),
        is_white_space('\n'),
        is_white_space('\u{b}'),
        is_white_space('\u{c}'),
        is_white_space('\r'),
        is_white_space(' '),
        is_white_space('\u{85}'),
        is_white_space('\u{a0}'),
        is_white_space('\u{1680}'),
        forall|c: char| 0x2000 <= (c as u32) <= 0x200a ==> is_white_space(c),
        is_white_space('\u{2028}'),
        is_white_space('\u{2029}'),
        is_white_space('\u{202f}'),
        is_white_space('\u{205f}'),
        is_white_space('\u{3000}'),
        forall|c: char| 33 <= (c as u32) <= 126 ==> !is_white_space(c),
{
}

/// White space at the end of a text does not lengthen its first word.
proof fn lemma_leading_word_len_push_white(m: Seq<char>, c: char)
    requires
        is_white_space(c),
    ensures
        leading_word_len(m.push(c)) == leading_word_len(m),
    decreases m.len(),
{
    let p = m.push(c);
    if m.len() == 0 {
        assert(p[0] == c);
    } else {
        assert(p[0] == m[0]);
        if !is_white_space(m[0]) {
            assert(p.drop_first() =~= m.drop_first().push(c));
            lemma_leading_word_len_push_white(m.drop_first(), c);
        }
    }
}

/// White space at the end of a text leaves its words as they are.
pub proof fn trailing_white_space_keeps_words(m: Seq<char>, c: char)
    requires
        is_white_space(c),
    ensures
        words(m.push(c)) == words(m),
    decreases m.len(),
{
    let p = m.push(c);
    if m.len() == 0 {
        assert(p.drop_first() =~= Seq::<char>::empty());
        assert(p[0] == c);
        assert(words(p) == words(p.drop_first()));
        assert(words(Seq::<char>::empty()) =~= Seq::<Seq<char>>::empty());
        assert(m =~= Seq::<char>::empty());
    } else if is_white_space(m[0]) {
        assert(p[0] == m[0]);
        assert(p.drop_first() =~= m.drop_first().push(c));
        trailing_white_space_keeps_words(m.drop_first(), c);
    } else {
        assert(p[0] == m[0]);
        lemma_leading_word_len_push_white(m, c);
        lemma_leading_word_len_bound(m);
        let n = leading_word_len(m) as int;
        assert(p.take(n) =~= m.take(n));
        assert(p.skip(n) =~= m.skip(n).push(c));
        trailing_white_space_keeps_words(m.skip(n), c);
        assert(words(p) == seq![p.take(n)] + words(p.skip(n)));
        assert(words(m) == seq![m.take(n)] + words(m.skip(n)));
    }
}

/// Whether `c` is one of the ASCII digits `0` to `9`.
pub open spec fn is_digit(c: char) -> bool {
    48 <= c as u32 <= 57
}

/// Every character of `s` is an ASCII digit.
pub open spec fn all_digits(s: Seq<char>) -> bool {
    forall|i: int| 0 <= i < s.len() ==> is_digit(#[trigger] s[i])
}

/// The number that a digit stands for.
pub open spec fn digit_value(c: char) -> int {
    c as u32 - 48
}

/// The number that a string of decimal digits stands for.
pub open spec fn digits_value(s: Seq<char>) -> int
    decreases s.len(),
{
    if s.len() == 0 {
        0
    } else {
        digits_value(s.drop_last()) * 10 + digit_value(s.last())
    }
}

/// The digits of an unsigned number as `str::parse` reads them: one
/// leading `+` is allowed.
pub open spec fn unsigned_digits(t: Seq<char>) -> Seq<char> {
    if t.len() > 0 && t[0] == '+' {
        t.drop_first()
    } else {
        t
    }
}

/// Whether `str::parse::<usize>` accepts `t`: an optional `+`, then at
/// least one ASCII digit and nothing else, of a value that fits a `usize`.
pub open spec fn parses_as_usize(t: Seq<char>) -> bool {
    let d = unsigned_digits(t);
    &&& d.len() > 0
    &&& all_digits(d)
    &&& digits_value(d) <= usize::MAX
}

/// The value that `t` stands for, where `parses_as_usize(t)`.
pub open spec fn usize_value(t: Seq<char>) -> int {
    digits_value(unsigned_digits(t))
}

/// The character of a decimal digit.
pub open spec fn digit_char(d: nat) -> char {
    (48 + d) as char
}

/// The decimal representation of `n`, without leading zeros, as `Display`
/// writes an unsigned integer.
pub open spec fn decimal(n: nat) -> Seq<char>
    decreases n,
{
    if n < 10 {
        seq![digit_char(n)]
    } else {
        decimal(n / 10) + seq![digit_char(n % 10)]
    }
}

proof fn lemma_digits_value_nonneg(s: Seq<char>)
    requires
        all_digits(s),
    ensures
        digits_value(s) >= 0,
    decreases s.len(),
{
    if s.len() > 0 {
        lemma_digits_value_nonneg(s.drop_last());
    }
}

/// A prefix of a digit string never stands for more than the whole string.
proof fn lemma_digits_value_prefix(s: Seq<char>, k: int)
    requires
        all_digits(s),
        0 <= k <= s.len(),
    ensures
        digits_value(s.take(k)) <= digits_value(s),
    decreases s.len(),
{
    if k == s.len() {
        assert(s.take(k) =~= s);
    } else {
        let p = s.drop_last();
        assert(all_digits(p));
        lemma_digits_value_prefix(p, k);
        assert(p.take(k) =~= s.take(k));
        lemma_digits_value_nonneg(p);
    }
}

/// The decimal representation of a number reads back as that number.
pub proof fn lemma_decimal_reads_back(n: nat)
    ensures
        decimal(n).len() > 0,
        all_digits(decimal(n)),
        digits_value(decimal(n)) == n,
        decimal(n)[0] != '+',
        no_white_space(decimal(n)),
    decreases n,
{
    if n < 10 {
        assert(decimal(n)[0] == digit_char(n));
        assert(decimal(n).drop_last() =~= Seq::<char>::empty());
        assert(digits_value(Seq::<char>::empty()) == 0);
        assert(decimal(n).last() == digit_char(n));
        assert(digits_value(decimal(n)) == digit_value(digit_char(n)));
    } else {
        lemma_decimal_reads_back(n / 10);
        let d = decimal(n);
        assert(d.drop_last() =~= decimal(n / 10));
        assert(n == (n / 10) * 10 + n % 10);
        assert(digit_value(d.last()) == n % 10);
        assert(d[0] == decimal(n / 10)[0]);
        assert forall|i: int| 0 <= i < d.len() implies is_digit(#[trigger] d[i]) by {
            if i < d.len() - 1 {
                assert(d[i] == decimal(n / 10)[i]);
            }
        }
    }
}

/// Skipping a white space before the words of a text leaves its words as
/// they are.
proof fn lemma_words_skip_white(s: Seq<char>, i: int)
    requires
        0 <= i < s.len(),
        is_white_space(s[i]),
    ensures
        words(s.skip(i)) == words(s.skip(i + 1)),
{
    assert(s.skip(i).drop_first() =~= s.skip(i + 1));
}

proof fn lemma_leading_word_len_step(s: Seq<char>, j: int)
    requires
        0 <= j < s.len(),
        !is_white_space(s[j]),
    ensures
        leading_word_len(s.skip(j)) == 1 + leading_word_len(s.skip(j + 1)),
{
    assert(s.skip(j).drop_first() =~= s.skip(j + 1));
}

/// Finds the first word of `chars` at or after `start`: its first
/// character and the position just behind it.
pub fn next_word(chars: &Vec<char>, start: usize) -> (r: Option<(usize, usize)>)
    requires
        start <= chars.len(),
    ensures
        r is None <==> words(chars@.skip(start as int)).len() == 0,
        r matches Some((b, e)) ==> {
            &&& start <= b < e <= chars.len()
            &&& words(chars@.skip(start as int)) == seq![chars@.subrange(b as int, e as int)] + words(
                chars@.skip(e as int),
            )
        },
{
    let n = chars.len();
    let mut i = start;
    while i < n && is_white_space_char(chars[i])
        invariant
            start <= i <= n,
            n == chars.len(),
            words(chars@.skip(start as int)) == words(chars@.skip(i as int)),
        decreases n - i,
    {
        proof {
            lemma_words_skip_white(chars@, i as int);
        }
        i = i + 1;
    }
    if i == n {
        assert(chars@.skip(i as int).len() == 0);
        return None;
    }
    let b = i;
    let mut j = i;
    while j < n && !is_white_space_char(chars[j])
        invariant
            b <= j <= n,
            n == chars.len(),
            leading_word_len(chars@.skip(b as int)) == (j - b) + leading_word_len(chars@.skip(j as int)),
        decreases n - j,
    {
        proof {
            lemma_leading_word_len_step(chars@, j as int);
        }
        j = j + 1;
    }
    proof {
        let s = chars@.skip(b as int);
        assert(leading_word_len(chars@.skip(j as int)) == 0);
        assert(s[0] == chars@[b as int]);
        assert(s.take((j - b) as int) =~= chars@.subrange(b as int, j as int));
        assert(s.skip((j - b) as int) =~= chars@.skip(j as int));
    }
    Some((b, j))
}

/// `char::is_whitespace`.
pub fn is_white_space_char(c: char) -> (b: bool)
    ensures
        b == is_white_space(c),
{
    let v = c as u32;
    (9 <= v && v <= 13) || v == 32 || v == 0x85 || v == 0xa0 || v == 0x1680 || (0x2000 <= v && v
        <= 0x200a) || v == 0x2028 || v == 0x2029 || v == 0x202f || v == 0x205f || v == 0x3000
}

/// `str::parse::<usize>` on the characters `chars[b..e]`.
pub fn parse_usize(chars: &Vec<char>, b: usize, e: usize) -> (r: Option<usize>)
    requires
        b <= e <= chars.len(),
    ensures
        ({
            let t = chars@.subrange(b as int, e as int);
            r == if parses_as_usize(t) {
                Some(usize_value(t) as usize)
            } else {
                None::<usize>
            }
        }),
{
    let ghost t = chars@.subrange(b as int, e as int);
    let mut i = b;
    if b < e && chars[b] == '+' {
        i = b + 1;
    }
    let ghost d = unsigned_digits(t);
    assert(d =~= chars@.subrange(i as int, e as int));
    if i == e {
        return None;
    }
    let first = i;
    let mut acc: usize = 0;
    assert(chars@.subrange(first as int, i as int) =~= Seq::<char>::empty());
    while i < e
        invariant
            b <= first <= i <= e,
            e <= chars.len(),
            d == chars@.subrange(first as int, e as int),
            d == unsigned_digits(chars@.subrange(b as int, e as int)),
            all_digits(chars@.subrange(first as int, i as int)),
            acc == digits_value(chars@.subrange(first as int, i as int)),
        decreases e - i,
    {
        let c = chars[i];
        let ghost s = first as int;
        let ghost p = chars@.subrange(s, i as int);
        let ghost q = chars@.subrange(s, i + 1);
        assert(q.drop_last() =~= p);
        if !is_digit_char(c) {
            assert(d[i - s] == c);
            return None;
        }
        assert(all_digits(q));
        let next = match acc.checked_mul(10) {
            Some(m) => m.checked_add((c as u32 - 48) as usize),
            None => None,
        };
        match next {
            Some(v) => {
                acc = v;
            },
            None => {
                proof {
                    lemma_digits_value_nonneg(p);
                    if all_digits(d) {
                        assert(d.take(i + 1 - s) =~= q);
                        lemma_digits_value_prefix(d, i + 1 - s);
                    }
                }
                return None;
            },
        }
        i = i + 1;
    }
    assert(chars@.subrange(first as int, i as int) =~= d);
    Some(acc)
}

/// Whether `text` reads `literal`, character for character.
pub fn same_text(text: &String, literal: &str) -> (eq: bool)
    ensures
        eq == (text@ == literal@),
{
    let other = String::from_str(literal);
    *text == other
}

/// `char::is_ascii_digit`.
pub fn is_digit_char(c: char) -> (b: bool)
    ensures
        b == is_digit(c),
{
    let v = c as u32;
    48 <= v && v <= 57
}

/// The characters of `s`, in order.
pub fn chars_of(s: &str) -> (v: Vec<char>)
    ensures
        v@ == s@,
{
    let mut v: Vec<char> = Vec::new();
    for c in it: s.chars()
        invariant
            v@ == it.seq().take(it.index() as int),
    {
        v.push(c);
    }
    assert(v@ =~= s@);
    v
}


/// How a weight is read, as `str::parse::<usize>` reads it: the decimal
/// digits of a number that fits a `usize` read as that number, with or
/// without one leading `+`; a leading `-`, an empty text, and a text with
/// any character other than a digit (past an optional leading `+`) are
/// refused; a value above `usize::MAX` is refused.
pub proof fn reading_usize(n: usize, t: Seq<char>, i: int)
    ensures
        parses_as_usize(decimal(n as nat)) && usize_value(decimal(n as nat)) == n,
        parses_as_usize(seq!['+'] + decimal(n as nat)) && usize_value(seq!['+'] + decimal(n as nat))
            == n,
        !parses_as_usize(seq!['-'] + decimal(n as nat)),
        !parses_as_usize(Seq::<char>::empty()),
        !parses_as_usize(seq!['+']),
        0 <= i < t.len() && !is_digit(t[i]) && !(i == 0 && t[i] == '+') ==> !parses_as_usize(t),
        all_digits(t) && digits_value(t) > usize::MAX ==> !parses_as_usize(t),
        parses_as_usize(t) ==> 0 <= usize_value(t) <= usize::MAX,
{
    lemma_decimal_reads_back(n as nat);
    let d = decimal(n as nat);
    assert((seq!['+'] + d)[0] == '+');
    assert((seq!['+'] + d).drop_first() =~= d);
    assert((seq!['-'] + d)[0] == '-');
    assert(!is_digit('-'));
    assert(unsigned_digits(seq!['+']) =~= Seq::<char>::empty());
    if 0 <= i < t.len() && !is_digit(t[i]) && !(i == 0 && t[i] == '+') {
        let u = unsigned_digits(t);
        if t.len() > 0 && t[0] == '+' {
            assert(u[i - 1] == t[i]);
        } else {
            assert(u[i] == t[i]);
        }
    }
    if t.len() > 0 && t[0] == '+' && all_digits(t) {
        assert(!is_digit(t[0]));
    }
    if parses_as_usize(t) {
        lemma_digits_value_nonneg(unsigned_digits(t));
    }
}
} // verus!
