//! Character-level helpers: splitting, decimal numbers, substitution.
//!
//! Text is handled as a sequence of `char`s. The specification functions
//! work on `Seq<char>`, the executable ones on `Vec<char>`.
use vstd::prelude::*;

verus! {

/// Whether `c` is one of the ASCII digits `0` to `9`.
pub open spec fn is_digit(c: char) -> bool {
    '0' <= c && c <= '9'
}

/// The number an ASCII digit stands for; zero for any other character.
pub open spec fn digit_value(c: char) -> nat {
    if is_digit(c) {
        (c as u32 - '0' as u32) as nat
    } else {
        0
    }
}

/// The ASCII digit for a number below ten.
pub open spec fn digit_char(d: nat) -> char
    recommends
        d < 10,
{
    (d + '0' as u32) as u8 as char
}

/// Whether every character of `s` is an ASCII digit.
pub open spec fn all_digits(s: Seq<char>) -> bool {
    forall|i: int| 0 <= i < s.len() ==> is_digit(#[trigger] s[i])
}

/// The number written by a sequence of decimal digits, most significant first.
pub open spec fn decimal_value(s: Seq<char>) -> nat
    decreases s.len(),
{
    if s.len() == 0 {
        0
    } else {
        decimal_value(s.drop_last()) * 10 + digit_value(s.last())
    }
}

/// The value of an unsigned decimal number no larger than `max`: an optional
/// `+`, then at least one digit, and nothing else. `None` for any other text.
pub open spec fn parse_unsigned(s: Seq<char>, max: nat) -> Option<nat> {
    let digits = if s.len() > 0 && s[0] == '+' {
        s.drop_first()
    } else {
        s
    };
    if digits.len() > 0 && all_digits(digits) && decimal_value(digits) <= max {
        Some(decimal_value(digits))
    } else {
        None
    }
}

/// The decimal digits of `n`, most significant first, without padding.
pub open spec fn decimal_digits(n: nat) -> Seq<char>
    decreases n,
{
    if n < 10 {
        seq![digit_char(n)]
    } else {
        decimal_digits(n / 10).push(digit_char(n % 10))
    }
}

/// The decimal digits of `n`, with a leading zero where `n` has one digit.
pub open spec fn two_digits(n: nat) -> Seq<char> {
    if n < 10 {
        seq!['0', digit_char(n)]
    } else {
        decimal_digits(n)
    }
}

/// The pieces of `s` between occurrences of `sep`. There is always at least
/// one piece; two separators in a row, or one at either end, give an empty
/// piece.
pub open spec fn split_on(s: Seq<char>, sep: char) -> Seq<Seq<char>>
    decreases s.len(),
{
    if s.len() == 0 {
        seq![Seq::<char>::empty()]
    } else {
        let head = split_on(s.drop_last(), sep);
        if s.last() == sep {
            head.push(Seq::<char>::empty())
        } else {
            head.drop_last().push(head.last().push(s.last()))
        }
    }
}

/// `s` with every occurrence of `pattern` replaced by `with`, scanning from
/// the left; an occurrence that overlaps an earlier one is not replaced.
/// An empty pattern occurs nowhere.
pub open spec fn replace_all(s: Seq<char>, pattern: Seq<char>, with: Seq<char>) -> Seq<char>
    decreases s.len(),
{
    if pattern.len() == 0 || s.len() < pattern.len() {
        s
    } else if pattern.is_prefix_of(s) {
        with + replace_all(s.skip(pattern.len() as int), pattern, with)
    } else {
        seq![s[0]] + replace_all(s.skip(1), pattern, with)
    }
}

/// The position of the last `c` in `s`.
pub open spec fn last_index_of(s: Seq<char>, c: char) -> Option<int>
    decreases s.len(),
{
    if s.len() == 0 {
        None
    } else if s.last() == c {
        Some(s.len() - 1)
    } else {
        last_index_of(s.drop_last(), c)
    }
}

/// A file name without its extension: what stands before the last dot,
/// or the whole name where it has no dot or only a leading one.
pub open spec fn file_stem(name: Seq<char>) -> Seq<char> {
    match last_index_of(name, '.') {
        Some(i) => if i > 0 {
            name.take(i)
        } else {
            name
        },
        None => name,
    }
}

/// The extension of a file name: what stands behind the last dot. A name
/// without a dot, or with a leading dot only, has none.
pub open spec fn file_extension(name: Seq<char>) -> Option<Seq<char>> {
    match last_index_of(name, '.') {
        Some(i) => if i > 0 {
            Some(name.skip(i + 1))
        } else {
            None
        },
        None => None,
    }
}

/// The views of a list of character vectors.
pub open spec fn fields_view(fields: Seq<Vec<char>>) -> Seq<Seq<char>> {
    Seq::new(fields.len(), |i: int| fields[i]@)
}

/// The lowercase form of a text, as `str::to_lowercase` gives it.
pub uninterp spec fn lowercase(s: Seq<char>) -> Seq<char>;

/// `str::to_lowercase`: the result is the text's lowercase form, which
/// depends on the text alone.
#[verifier::external_body]
pub(crate) fn to_lowercase(s: &str) -> (r: String)
    ensures
        r@ == lowercase(s@),
{
    s.to_lowercase()
}

/// `String::from_iter` over the characters of a vector: the string holds
/// exactly these characters, in order.
#[verifier::external_body]
pub(crate) fn string_from_chars(chars: &Vec<char>) -> (r: String)
    ensures
        r@ == chars@,
{
    String::from_iter(chars.iter())
}

/// The characters of a string slice.
pub fn chars_of(s: &str) -> (chars: Vec<char>)
    ensures
        chars@ == s@,
{
    broadcast use vstd::string::group_string_axioms;

    let mut chars: Vec<char> = Vec::new();
    for c in it: s.chars()
        invariant
            it.seq() == s@,
            chars@ == s@.take(it.index() as int),
    {
        chars.push(c);
        assert(s@.take(it.index() + 1) == s@.take(it.index() as int).push(c));
    }
    assert(s@.take(s@.len() as int) == s@);
    chars
}

/// The value of an ASCII digit.
fn digit_of(c: char) -> (r: Option<u64>)
    ensures
        match r {
            Some(d) => is_digit(c) && d == digit_value(c),
            None => !is_digit(c),
        },
{
    let code: u32 = c as u32;
    if 48 <= code && code <= 57 {
        Some((code - 48) as u64)
    } else {
        None
    }
}

proof fn lemma_decimal_value_prefix(s: Seq<char>, k: int)
    requires
        0 <= k <= s.len(),
    ensures
        decimal_value(s.take(k)) <= decimal_value(s),
    decreases s.len() - k,
{
    if k == s.len() {
        assert(s.take(k) == s);
    } else {
        lemma_decimal_value_prefix(s.drop_last(), k);
        assert(s.drop_last().take(k) == s.take(k));
    }
}

/// Reads an unsigned decimal number no larger than `max`.
pub fn parse_number(chars: &Vec<char>, max: u64) -> (r: Option<u64>)
    ensures
        match r {
            Some(v) => parse_unsigned(chars@, max as nat) == Some(v as nat),
            None => parse_unsigned(chars@, max as nat) is None,
        },
{
    let n = chars.len();
    let start: usize = if n > 0 && chars[0] == '+' {
        1
    } else {
        0
    };
    let ghost digits = chars@.skip(start as int);
    proof {
        if start == 1 {
            assert(digits == chars@.drop_first());
        } else {
            assert(digits == chars@);
        }
    }
    if start == n {
        return None;
    }
    let mut acc: u64 = 0;
    let mut i: usize = start;
    while i < n
        invariant
            start <= i <= n,
            n == chars@.len(),
            digits == chars@.skip(start as int),
            digits == if chars@.len() > 0 && chars@[0] == '+' {
                chars@.drop_first()
            } else {
                chars@
            },
            all_digits(digits.take(i - start)),
            acc == decimal_value(digits.take(i - start)),
            acc <= max,
        decreases n - i,
    {
        let ghost k = i - start;
        proof {
            assert(digits.take(k + 1).drop_last() == digits.take(k));
            assert(digits.take(k + 1).last() == chars@[i as int]);
        }
        match digit_of(chars[i]) {
            None => {
                assert(!is_digit(digits[k]));
                return None;
            },
            Some(d) => {
                if acc > max / 10 || d > max - acc * 10 {
                    proof {
                        lemma_decimal_value_prefix(digits, k + 1);
                    }
                    return None;
                }
                acc = acc * 10 + d;
            },
        }
        i += 1;
        assert forall|j: int| 0 <= j < digits.take(i - start).len() implies is_digit(
            #[trigger] digits.take(i - start)[j],
        ) by {
            if j < k {
                assert(digits.take(k)[j] == digits.take(i - start)[j]);
            }
        }
    }
    assert(digits.take(n - start) == digits);
    Some(acc)
}

/// Appends the decimal digits of `n` to `out`.
pub fn push_decimal(out: &mut Vec<char>, n: u64)
    ensures
        final(out)@ == old(out)@ + decimal_digits(n as nat),
    decreases n,
{
    if n >= 10 {
        push_decimal(out, n / 10);
    }
    let d: u8 = (n % 10) as u8;
    out.push((48 + d) as char);
    assert(final(out)@ == old(out)@ + decimal_digits(n as nat));
}

/// Appends `n` in decimal, with a leading zero where it has one digit.
pub fn push_two_digits(out: &mut Vec<char>, n: u64)
    ensures
        final(out)@ == old(out)@ + two_digits(n as nat),
{
    if n < 10 {
        out.push('0');
    }
    push_decimal(out, n);
    assert(final(out)@ == old(out)@ + two_digits(n as nat));
}

/// Appends a copy of `tail` to `out`.
pub fn push_all(out: &mut Vec<char>, tail: &Vec<char>)
    ensures
        final(out)@ == old(out)@ + tail@,
{
    let mut i: usize = 0;
    while i < tail.len()
        invariant
            i <= tail.len(),
            out@ == old(out)@ + tail@.take(i as int),
        decreases tail.len() - i,
    {
        out.push(tail[i]);
        i += 1;
        assert(tail@.take(i as int) == tail@.take(i - 1).push(tail@[i - 1]));
    }
    assert(tail@.take(tail.len() as int) == tail@);
}

/// Cuts `chars` at every `sep`.
pub fn split_chars(chars: &Vec<char>, sep: char) -> (fields: Vec<Vec<char>>)
    ensures
        fields_view(fields@) == split_on(chars@, sep),
{
    let mut fields: Vec<Vec<char>> = Vec::new();
    let mut current: Vec<char> = Vec::new();
    let mut i: usize = 0;
    assert(chars@.take(0) == Seq::<char>::empty());
    assert(fields_view(fields@).push(current@) == seq![Seq::<char>::empty()]);
    while i < chars.len()
        invariant
            i <= chars.len(),
            fields_view(fields@).push(current@) == split_on(chars@.take(i as int), sep),
        decreases chars.len() - i,
    {
        let c = chars[i];
        let ghost before = fields_view(fields@).push(current@);
        let ghost done = fields_view(fields@);
        let ghost cur = current@;
        proof {
            assert(chars@.take(i + 1).drop_last() == chars@.take(i as int));
            assert(chars@.take(i + 1).last() == c);
            assert(before.drop_last() == done);
            assert(before.last() == cur);
        }
        if c == sep {
            fields.push(current);
            current = Vec::new();
            assert(fields_view(fields@) == before);
            assert(fields_view(fields@).push(current@) == before.push(Seq::<char>::empty()));
        } else {
            current.push(c);
            assert(fields_view(fields@).push(current@) == done.push(cur.push(c)));
        }
        i += 1;
    }
    assert(chars@.take(chars.len() as int) == chars@);
    let ghost done = fields_view(fields@);
    let ghost cur = current@;
    fields.push(current);
    assert(fields_view(fields@) == done.push(cur));
    fields
}

/// Whether `chars` begins with `prefix`.
pub fn starts_with(chars: &Vec<char>, prefix: &Vec<char>) -> (r: bool)
    ensures
        r == prefix@.is_prefix_of(chars@),
{
    starts_with_at(chars, 0, prefix)
}

/// Whether `prefix` stands in `chars` at position `from`.
fn starts_with_at(chars: &Vec<char>, from: usize, prefix: &Vec<char>) -> (r: bool)
    requires
        from <= chars.len(),
    ensures
        r == prefix@.is_prefix_of(chars@.skip(from as int)),
{
    if chars.len() - from < prefix.len() {
        return false;
    }
    let ghost rest = chars@.skip(from as int);
    let mut i: usize = 0;
    while i < prefix.len()
        invariant
            i <= prefix.len(),
            from + prefix.len() <= chars.len(),
            rest == chars@.skip(from as int),
            forall|j: int| 0 <= j < i ==> rest[j] == prefix@[j],
        decreases prefix.len() - i,
    {
        if chars[from + i] != prefix[i] {
            assert(rest[i as int] != prefix@[i as int]);
            assert(rest.subrange(0, prefix@.len() as int)[i as int] == rest[i as int]);
            return false;
        }
        i += 1;
    }
    assert(rest.subrange(0, prefix@.len() as int) =~= prefix@);
    true
}

/// Replaces every occurrence of `pattern` in `text` by `with`.
pub fn replace_chars(text: &Vec<char>, pattern: &Vec<char>, with: &Vec<char>) -> (out: Vec<char>)
    ensures
        out@ == replace_all(text@, pattern@, with@),
{
    let mut out: Vec<char> = Vec::new();
    if pattern.len() == 0 {
        push_all(&mut out, text);
        assert(Seq::<char>::empty() + text@ == text@);
        return out;
    }
    let mut i: usize = 0;
    assert(text@.skip(0) == text@);
    while i < text.len()
        invariant
            i <= text.len(),
            pattern.len() > 0,
            out@ + replace_all(text@.skip(i as int), pattern@, with@) == replace_all(
                text@,
                pattern@,
                with@,
            ),
        decreases text.len() - i,
    {
        let ghost rest = text@.skip(i as int);
        let ghost prev = out@;
        if starts_with_at(text, i, pattern) {
            push_all(&mut out, with);
            i += pattern.len();
            assert(rest.skip(pattern@.len() as int) == text@.skip(i as int));
            assert(out@ + replace_all(text@.skip(i as int), pattern@, with@) == prev + (with@
                + replace_all(text@.skip(i as int), pattern@, with@)));
        } else {
            out.push(text[i]);
            i += 1;
            assert(rest.skip(1) == text@.skip(i as int));
            proof {
                if rest.len() < pattern@.len() {
                    lemma_replace_all_short(rest, pattern@, with@);
                    lemma_replace_all_short(rest.skip(1), pattern@, with@);
                    assert(rest == seq![rest[0]] + rest.skip(1));
                }
            }
            assert(out@ + replace_all(text@.skip(i as int), pattern@, with@) == prev + (seq![
                rest[0],
            ] + replace_all(text@.skip(i as int), pattern@, with@)));
        }
    }
    assert(text@.skip(text.len() as int) == Seq::<char>::empty());
    assert(out@ + Seq::<char>::empty() == out@);
    out
}

proof fn lemma_replace_all_short(s: Seq<char>, pattern: Seq<char>, with: Seq<char>)
    requires
        s.len() < pattern.len(),
    ensures
        replace_all(s, pattern, with) == s,
{
}

/// The extension of the name, if it has one.
pub fn extension_of(name: &Vec<char>) -> (r: Option<Vec<char>>)
    ensures
        match r {
            Some(extension) => file_extension(name@) == Some(extension@),
            None => file_extension(name@) is None,
        },
{
    let mut i: usize = name.len();
    assert(name@.take(i as int) == name@);
    while i > 0 && name[i - 1] != '.'
        invariant
            i <= name.len(),
            last_index_of(name@, '.') == last_index_of(name@.take(i as int), '.'),
        decreases i,
    {
        assert(name@.take(i as int).drop_last() == name@.take(i - 1));
        i -= 1;
    }
    if i <= 1 {
        return None;
    }
    let mut extension: Vec<char> = Vec::new();
    let mut j: usize = i;
    while j < name.len()
        invariant
            i <= j <= name.len(),
            extension@ == name@.subrange(i as int, j as int),
        decreases name.len() - j,
    {
        extension.push(name[j]);
        j += 1;
        assert(name@.subrange(i as int, j as int) == name@.subrange(i as int, j - 1).push(
            name@[j - 1],
        ));
    }
    assert(name@.subrange(i as int, name.len() as int) == name@.skip(i as int));
    Some(extension)
}

/// The name without its extension.
pub fn stem_of(name: &Vec<char>) -> (stem: Vec<char>)
    ensures
        stem@ == file_stem(name@),
{
    let mut i: usize = name.len();
    assert(name@.take(i as int) == name@);
    while i > 0 && name[i - 1] != '.'
        invariant
            i <= name.len(),
            last_index_of(name@, '.') == last_index_of(name@.take(i as int), '.'),
        decreases i,
    {
        assert(name@.take(i as int).drop_last() == name@.take(i - 1));
        i -= 1;
    }
    let mut stem: Vec<char> = Vec::new();
    if i > 1 {
        let mut j: usize = 0;
        while j < i - 1
            invariant
                j <= i - 1,
                i <= name.len(),
                stem@ == name@.take(j as int),
            decreases i - 1 - j,
        {
            stem.push(name[j]);
            j += 1;
            assert(name@.take(j as int) == name@.take(j - 1).push(name@[j - 1]));
        }
    } else {
        push_all(&mut stem, name);
        assert(Seq::<char>::empty() + name@ == name@);
    }
    stem
}

/// The digits of a number are ASCII digits, at least one, and they write
/// that number.
pub proof fn lemma_decimal_digits(n: nat)
    ensures
        decimal_digits(n).len() >= 1,
        n >= 10 ==> decimal_digits(n).len() >= 2,
        n < 10 ==> decimal_digits(n).len() == 1,
        n < 100 ==> decimal_digits(n).len() <= 2,
        all_digits(decimal_digits(n)),
        decimal_value(decimal_digits(n)) == n,
    decreases n,
{
    let digits = decimal_digits(n);
    if n < 10 {
        assert(digits.drop_last() == Seq::<char>::empty());
        assert(decimal_value(Seq::<char>::empty()) == 0);
        assert(is_digit(digit_char(n)));
        assert(digit_value(digit_char(n)) == n);
        assert(digits.last() == digit_char(n));
        assert(decimal_value(digits) == decimal_value(digits.drop_last()) * 10 + digit_value(
            digits.last(),
        ));
    } else {
        lemma_decimal_digits(n / 10);
        let head = decimal_digits(n / 10);
        let last = digit_char(n % 10);
        assert(is_digit(last));
        assert(digit_value(last) == n % 10);
        assert(digits.drop_last() == head);
        assert(digits.last() == last);
        assert(decimal_value(digits) == decimal_value(head) * 10 + digit_value(last));
        assert forall|i: int| 0 <= i < digits.len() implies is_digit(#[trigger] digits[i]) by {
            if i < head.len() {
                assert(digits[i] == head[i]);
            }
        }
    }
}

/// A number read back from its own digits is that number, where it is
/// within the limit, and nothing where it is beyond.
pub proof fn lemma_parse_decimal_digits(n: nat, max: nat)
    ensures
        parse_unsigned(decimal_digits(n), max) == if n <= max {
            Some(n)
        } else {
            None
        },
        parse_unsigned(two_digits(n), max) == if n <= max {
            Some(n)
        } else {
            None
        },
{
    lemma_decimal_digits(n);
    let digits = decimal_digits(n);
    assert(is_digit(digits[0]));
    if n < 10 {
        let padded = two_digits(n);
        assert(padded.drop_last() == seq!['0']);
        assert(seq!['0'].drop_last() == Seq::<char>::empty());
        assert(decimal_value(seq!['0']) == 0) by {
            reveal_with_fuel(decimal_value, 2);
        }
        assert(is_digit(digit_char(n)));
        assert(digit_value(digit_char(n)) == n);
        assert(decimal_value(padded) == n);
    }
}

/// Text without a separator is one piece.
pub proof fn lemma_split_plain(s: Seq<char>, sep: char)
    requires
        !s.contains(sep),
    ensures
        split_on(s, sep) == seq![s],
    decreases s.len(),
{
    if s.len() == 0 {
        assert(s == Seq::<char>::empty());
    } else {
        assert(s.last() == s[s.len() - 1]);
        assert forall|i: int| 0 <= i < s.drop_last().len() implies s.drop_last()[i] != sep by {
            assert(s.drop_last()[i] == s[i]);
        }
        lemma_split_plain(s.drop_last(), sep);
        let head = split_on(s.drop_last(), sep);
        assert(head.drop_last() == Seq::<Seq<char>>::empty());
        assert(head.last().push(s.last()) == s);
    }
}

/// Text that follows a separator, and holds none itself, is the last piece.
pub proof fn lemma_split_tail(a: Seq<char>, b: Seq<char>, sep: char)
    requires
        !b.contains(sep),
    ensures
        split_on(a + seq![sep] + b, sep) == split_on(a, sep).push(b),
    decreases b.len(),
{
    let whole = a + seq![sep] + b;
    if b.len() == 0 {
        assert(whole.drop_last() == a);
        assert(whole.last() == sep);
        assert(b == Seq::<char>::empty());
    } else {
        assert(b.last() == b[b.len() - 1]);
        assert forall|i: int| 0 <= i < b.drop_last().len() implies b.drop_last()[i] != sep by {
            assert(b.drop_last()[i] == b[i]);
        }
        lemma_split_tail(a, b.drop_last(), sep);
        assert(whole.drop_last() == a + seq![sep] + b.drop_last());
        assert(whole.last() == b.last());
        let head = split_on(whole.drop_last(), sep);
        assert(head.drop_last() == split_on(a, sep));
        assert(head.last().push(b.last()) == b);
    }
}

/// The digits of a number hold no character that is not a digit.
pub proof fn lemma_digits_contain_no(n: nat, c: char)
    requires
        !is_digit(c),
    ensures
        !decimal_digits(n).contains(c),
        !two_digits(n).contains(c),
{
    lemma_decimal_digits(n);
    let digits = decimal_digits(n);
    assert forall|i: int| 0 <= i < digits.len() implies digits[i] != c by {
        assert(is_digit(digits[i]));
    }
    if n < 10 {
        let padded = two_digits(n);
        assert(is_digit(digit_char(n)));
        assert forall|i: int| 0 <= i < padded.len() implies padded[i] != c by {
            if i == 0 {
                assert(padded[i] == '0');
            } else {
                assert(padded[i] == digit_char(n));
            }
        }
    }
}

} // verus!
