use vstd::prelude::*;
use vstd::slice::slice_subrange;

verus! {

/// `String::push` of the standard library, taken on trust: the call appends
/// `c` to the end of the string and leaves the characters before it as they
/// were.
pub assume_specification[ String::push ](s: &mut String, c: char)
    ensures
        final(s)@ == old(s)@.push(c),
;

/// The texts of a map of strings: each key with the characters of its
/// string.
pub open spec fn text_map(m: Map<Seq<char>, String>) -> Map<Seq<char>, Seq<char>> {
    m.map_values(|s: String| s@)
}

/// The characters of `s`, in order.
pub fn chars_of(s: &str) -> (v: Vec<char>)
    ensures
        v@ == s@,
{
    let mut v: Vec<char> = Vec::new();
    for c in it: s.chars()
        invariant
            it.seq() == s@,
            v@ == it.seq().take(it.index()),
    {
        v.push(c);
    }
    v
}

/// The string made of `chars`.
pub fn string_of(chars: &[char]) -> (s: String)
    ensures
        s@ == chars@,
{
    let mut s = String::new();
    let mut i: usize = 0;
    while i < chars.len()
        invariant
            i <= chars.len(),
            s@ == chars@.take(i as int),
        decreases chars.len() - i,
    {
        s.push(chars[i]);
        i += 1;
    }
    assert(chars@.take(i as int) == chars@);
    s
}

/// Length of the longest prefix of `s` that holds no separator.
pub open spec fn run_len(s: Seq<char>, sep: spec_fn(char) -> bool) -> nat
    decreases s.len(),
{
    if s.len() == 0 || sep(s[0]) {
        0
    } else {
        1 + run_len(s.drop_first(), sep)
    }
}

/// The fields of `s`: its maximal runs of characters that are no separators,
/// from left to right. Separators belong to no field, and no field is empty.
pub open spec fn fields(s: Seq<char>, sep: spec_fn(char) -> bool) -> Seq<Seq<char>>
    decreases s.len(),
{
    if s.len() == 0 {
        Seq::empty()
    } else if sep(s[0]) {
        fields(s.drop_first(), sep)
    } else {
        let n = run_len(s, sep) as int;
        proof {
            lemma_run_len_bound(s, sep);
        }
        seq![s.take(n)] + fields(s.skip(n), sep)
    }
}

/// `run_len` never passes the end of the sequence.
pub proof fn lemma_run_len_bound(s: Seq<char>, sep: spec_fn(char) -> bool)
    ensures
        run_len(s, sep) <= s.len(),
    decreases s.len(),
{
    if s.len() > 0 && !sep(s[0]) {
        lemma_run_len_bound(s.drop_first(), sep);
    }
}

/// A run of `n` characters without a separator, that ends at a separator or
/// at the end of `s`, is the first run of `s`.
pub proof fn lemma_run_len_is(s: Seq<char>, sep: spec_fn(char) -> bool, n: int)
    requires
        0 <= n <= s.len(),
        forall|j: int| 0 <= j < n ==> !sep(#[trigger] s[j]),
        n == s.len() || sep(s[n]),
    ensures
        run_len(s, sep) == n,
    decreases n,
{
    if n > 0 {
        let t = s.drop_first();
        assert forall|j: int| 0 <= j < n - 1 implies !sep(#[trigger] t[j]) by {
            assert(t[j] == s[j + 1]);
        }
        lemma_run_len_is(t, sep, n - 1);
    }
}

/// Where `s` starts with a run of `n > 0` characters, that run is its first
/// field, and the other fields are those of what follows the run.
pub proof fn lemma_fields_first(s: Seq<char>, sep: spec_fn(char) -> bool, n: int)
    requires
        0 < n <= s.len(),
        forall|j: int| 0 <= j < n ==> !sep(#[trigger] s[j]),
        n == s.len() || sep(s[n]),
    ensures
        fields(s, sep) == seq![s.take(n)] + fields(s.skip(n), sep),
{
    lemma_run_len_is(s, sep, n);
}

/// Whether `run` is a run: not empty, and without a separator.
pub open spec fn is_run(run: Seq<char>, sep: spec_fn(char) -> bool) -> bool {
    run.len() > 0 && forall|j: int| 0 <= j < run.len() ==> !sep(#[trigger] run[j])
}

/// Every field is a run: no field is empty, and no field holds a separator.
pub proof fn lemma_fields_are_runs(s: Seq<char>, sep: spec_fn(char) -> bool)
    ensures
        forall|i: int| 0 <= i < fields(s, sep).len() ==> is_run(#[trigger] fields(s, sep)[i], sep),
    decreases s.len(),
{
    if s.len() == 0 {
        assert(fields(s, sep).len() == 0);
    } else if sep(s[0]) {
        lemma_fields_are_runs(s.drop_first(), sep);
        assert(fields(s, sep) == fields(s.drop_first(), sep));
    } else {
        let n = run_len(s, sep) as int;
        lemma_run_is_clean(s, sep);
        lemma_fields_are_runs(s.skip(n), sep);
        let rest = fields(s.skip(n), sep);
        assert(fields(s, sep) == seq![s.take(n)] + rest);
        assert(is_run(s.take(n), sep));
        assert forall|i: int| 0 <= i < fields(s, sep).len() implies is_run(
            #[trigger] fields(s, sep)[i],
            sep,
        ) by {
            if i > 0 {
                assert(fields(s, sep)[i] == rest[i - 1]);
            } else {
                assert(fields(s, sep)[0] == s.take(n));
            }
        }
    }
}

/// The first run of `s` holds no separator.
pub proof fn lemma_run_is_clean(s: Seq<char>, sep: spec_fn(char) -> bool)
    ensures
        forall|j: int| 0 <= j < run_len(s, sep) ==> !sep(#[trigger] s[j]),
        run_len(s, sep) <= s.len(),
        run_len(s, sep) < s.len() ==> sep(s[run_len(s, sep) as int]),
    decreases s.len(),
{
    if s.len() > 0 && !sep(s[0]) {
        let t = s.drop_first();
        lemma_run_is_clean(t, sep);
        assert forall|j: int| 0 <= j < run_len(s, sep) implies !sep(#[trigger] s[j]) by {
            if j > 0 {
                assert(s[j] == t[j - 1]);
            }
        }
    }
}

/// A run is its own one field.
pub proof fn lemma_fields_of_run(s: Seq<char>, sep: spec_fn(char) -> bool)
    requires
        is_run(s, sep),
    ensures
        fields(s, sep) == seq![s],
{
    lemma_fields_first(s, sep, s.len() as int);
    assert(s.take(s.len() as int) == s);
    assert(fields(s.skip(s.len() as int), sep) == Seq::<Seq<char>>::empty());
}

/// The fields of two sequences with a separator between them are the fields
/// of the first and then those of the second.
pub proof fn lemma_fields_join(a: Seq<char>, c: char, b: Seq<char>, sep: spec_fn(char) -> bool)
    requires
        sep(c),
    ensures
        fields(a + seq![c] + b, sep) == fields(a, sep) + fields(b, sep),
    decreases a.len(),
{
    let s = a + seq![c] + b;
    if a.len() == 0 {
        assert(s.drop_first() == b);
        assert(fields(a, sep) + fields(b, sep) == fields(b, sep));
    } else if sep(a[0]) {
        assert(s.drop_first() == a.drop_first() + seq![c] + b);
        lemma_fields_join(a.drop_first(), c, b, sep);
    } else {
        let n = run_len(a, sep) as int;
        lemma_run_is_clean(a, sep);
        assert forall|j: int| 0 <= j < n implies !sep(#[trigger] s[j]) by {
            assert(s[j] == a[j]);
        }
        assert(sep(s[n])) by {
            if n < a.len() {
                assert(s[n] == a[n]);
            } else {
                assert(s[n] == c);
            }
        }
        lemma_fields_first(s, sep, n);
        assert(s.take(n) == a.take(n));
        assert(s.skip(n) == a.skip(n) + seq![c] + b);
        lemma_fields_join(a.skip(n), c, b, sep);
        assert(fields(s, sep) == seq![a.take(n)] + (fields(a.skip(n), sep) + fields(b, sep)));
        assert(fields(a, sep) == seq![a.take(n)] + fields(a.skip(n), sep));
    }
}

/// Splits `chars` into its fields, given a test for separators.
fn split_fields<F: Fn(char) -> bool>(
    chars: &[char],
    is_sep: F,
    Ghost(sep): Ghost<spec_fn(char) -> bool>,
) -> (out: Vec<String>)
    requires
        forall|c: char| call_requires(is_sep, (c,)),
        forall|c: char, r: bool| call_ensures(is_sep, (c,), r) ==> r == sep(c),
    ensures
        out.deep_view() == fields(chars@, sep),
{
    let mut out: Vec<String> = Vec::new();
    let mut start: usize = 0;
    let mut i: usize = 0;
    assert(chars@.skip(0) == chars@);
    while i < chars.len()
        invariant
            start <= i <= chars.len(),
            forall|c: char| call_requires(is_sep, (c,)),
            forall|c: char, r: bool| call_ensures(is_sep, (c,), r) ==> r == sep(c),
            forall|j: int| start <= j < i ==> !sep(#[trigger] chars@[j]),
            fields(chars@, sep) == out.deep_view() + fields(chars@.skip(start as int), sep),
        decreases chars.len() - i,
    {
        if is_sep(chars[i]) {
            let ghost rest = chars@.skip(i as int);
            assert(rest.drop_first() == chars@.skip(i + 1));
            if start < i {
                let field = string_of(slice_subrange(chars, start, i));
                proof {
                    let t = chars@.skip(start as int);
                    lemma_fields_first(t, sep, i - start);
                    assert(t.take(i - start) == field@);
                    assert(t.skip(i - start) == rest);
                    assert(out.deep_view().push(field@) + fields(chars@.skip(i + 1), sep)
                        == out.deep_view() + fields(t, sep));
                }
                let ghost before = out.deep_view();
                out.push(field);
                assert(out.deep_view() == before.push(field@));
            }
            start = i + 1;
        }
        i += 1;
    }
    if start < i {
        let field = string_of(slice_subrange(chars, start, i));
        proof {
            let t = chars@.skip(start as int);
            lemma_fields_first(t, sep, i - start);
            assert(t.take(i - start) == field@);
            assert(fields(t.skip(i - start), sep) == Seq::<Seq<char>>::empty());
            assert(out.deep_view().push(field@) == out.deep_view() + fields(t, sep));
        }
        let ghost before = out.deep_view();
        out.push(field);
        assert(out.deep_view() == before.push(field@));
    } else {
        assert(out.deep_view() + fields(chars@.skip(start as int), sep) == out.deep_view());
    }
    out
}

/// The segments of a path or of a route pattern: what stands between its
/// slashes, without the empty pieces. Leading, trailing and doubled slashes
/// therefore make no segment.
pub open spec fn segments(path: Seq<char>) -> Seq<Seq<char>> {
    fields(path, |c: char| c == '/')
}

/// Splits a path or a route pattern into its segments.
pub fn split_path(path: &str) -> (segs: Vec<String>)
    ensures
        segs.deep_view() == segments(path@),
{
    let chars = chars_of(path);
    let is_slash = |c: char| -> (r: bool)
        ensures
            r == (c == '/'),
        { c == '/' };
    split_fields(chars.as_slice(), is_slash, Ghost(|c: char| c == '/'))
}

/// The character that writes the digit `d`.
pub open spec fn digit(d: nat) -> char
    recommends
        d < 10,
{
    (48 + d) as char
}

/// `n` in decimal, without sign and without leading zeros.
pub open spec fn decimal(n: nat) -> Seq<char>
    decreases n,
{
    if n < 10 {
        seq![digit(n)]
    } else {
        decimal(n / 10).push(digit(n % 10))
    }
}

/// Writes `n` in decimal.
pub fn decimal_string(n: usize) -> (s: String)
    ensures
        s@ == decimal(n as nat),
    decreases n,
{
    if n < 10 {
        let mut s = String::new();
        s.push((48u8 + n as u8) as char);
        s
    } else {
        let mut s = decimal_string(n / 10);
        s.push((48u8 + (n % 10) as u8) as char);
        s
    }
}

/// Whether `c` is white space: a character with the Unicode property
/// White_Space.
pub open spec fn is_space(c: char) -> bool {
    let u = c as u32;
    ||| 0x09 <= u <= 0x0D
    ||| u == 0x20
    ||| u == 0x85
    ||| u == 0xA0
    ||| u == 0x1680
    ||| 0x2000 <= u <= 0x200A
    ||| u == 0x2028
    ||| u == 0x2029
    ||| u == 0x202F
    ||| u == 0x205F
    ||| u == 0x3000
}

/// Tells whether `c` is white space.
pub fn is_whitespace(c: char) -> (r: bool)
    ensures
        r == is_space(c),
{
    let u = c as u32;
    (0x09 <= u && u <= 0x0D) || u == 0x20 || u == 0x85 || u == 0xA0 || u == 0x1680 || (0x2000 <= u
        && u <= 0x200A) || u == 0x2028 || u == 0x2029 || u == 0x202F || u == 0x205F || u == 0x3000
}

/// The tokens of a line: what stands between its white space.
pub open spec fn tokens(line: Seq<char>) -> Seq<Seq<char>> {
    fields(line, |c: char| is_space(c))
}

/// Splits a line into its tokens.
pub fn split_whitespace(line: &str) -> (words: Vec<String>)
    ensures
        words.deep_view() == tokens(line@),
{
    let chars = chars_of(line);
    split_fields(chars.as_slice(), is_whitespace, Ghost(|c: char| is_space(c)))
}

/// `s` without the white space at its start.
pub open spec fn trim_start(s: Seq<char>) -> Seq<char>
    decreases s.len(),
{
    if s.len() > 0 && is_space(s.first()) {
        trim_start(s.drop_first())
    } else {
        s
    }
}

/// `s` without the white space at its end.
pub open spec fn trim_end(s: Seq<char>) -> Seq<char>
    decreases s.len(),
{
    if s.len() > 0 && is_space(s.last()) {
        trim_end(s.drop_last())
    } else {
        s
    }
}

/// `s` without the white space at its start and at its end.
pub open spec fn trim(s: Seq<char>) -> Seq<char> {
    trim_end(trim_start(s))
}

/// The part of `chars` that is left when the white space at both ends is
/// taken away.
pub fn trimmed(chars: &[char]) -> (inner: &[char])
    ensures
        inner@ == trim(chars@),
{
    let mut from: usize = 0;
    assert(chars@.skip(0) == chars@);
    while from < chars.len() && is_whitespace(chars[from])
        invariant
            from <= chars.len(),
            trim_start(chars@) == trim_start(chars@.skip(from as int)),
        decreases chars.len() - from,
    {
        assert(chars@.skip(from as int).drop_first() == chars@.skip(from + 1));
        from += 1;
    }
    let mut to: usize = chars.len();
    assert(chars@.skip(from as int) == chars@.subrange(from as int, to as int));
    while from < to && is_whitespace(chars[to - 1])
        invariant
            from <= to <= chars.len(),
            trim(chars@) == trim_end(chars@.subrange(from as int, to as int)),
        decreases to - from,
    {
        assert(chars@.subrange(from as int, to as int).drop_last() == chars@.subrange(
            from as int,
            to - 1,
        ));
        to -= 1;
    }
    slice_subrange(chars, from, to)
}

/// Whether `pattern` stands in `s` at index `i`.
pub open spec fn occurs_at(s: Seq<char>, pattern: Seq<char>, i: int) -> bool {
    0 <= i && i + pattern.len() <= s.len() && s.subrange(i, i + pattern.len()) == pattern
}

/// Whether `pattern` stands somewhere in `s`.
pub open spec fn contains(s: Seq<char>, pattern: Seq<char>) -> bool {
    exists|i: int| occurs_at(s, pattern, i)
}

/// Whether `i` is the first index at which `pattern` stands in `s`.
pub open spec fn first_at(s: Seq<char>, pattern: Seq<char>, i: int) -> bool {
    occurs_at(s, pattern, i) && forall|j: int| 0 <= j < i ==> !occurs_at(s, pattern, j)
}

/// At most one index is the first at which a pattern stands.
pub proof fn lemma_first_at_unique(s: Seq<char>, pattern: Seq<char>, i: int, j: int)
    requires
        first_at(s, pattern, i),
        first_at(s, pattern, j),
    ensures
        i == j,
{
}

/// The first index at which `pattern` stands in `s`.
pub fn find(s: &[char], pattern: &[char]) -> (found: Option<usize>)
    ensures
        match found {
            Some(i) => first_at(s@, pattern@, i as int),
            None => !contains(s@, pattern@),
        },
{
    let n = pattern.len();
    if n > s.len() {
        return None;
    }
    let mut i: usize = 0;
    while i <= s.len() - n
        invariant
            n == pattern.len(),
            n <= s.len(),
            i <= s.len() - n + 1,
            forall|j: int| 0 <= j < i ==> !occurs_at(s@, pattern@, j),
        decreases s.len() - n + 1 - i,
    {
        let mut k: usize = 0;
        while k < n && s[i + k] == pattern[k]
            invariant
                n == pattern.len(),
                i + n <= s.len(),
                k <= n,
                forall|m: int| 0 <= m < k ==> s@[i + m] == pattern@[m],
            decreases n - k,
        {
            k += 1;
        }
        if k == n {
            assert(s@.subrange(i as int, i + n) =~= pattern@);
            return Some(i);
        }
        assert(!occurs_at(s@, pattern@, i as int)) by {
            if occurs_at(s@, pattern@, i as int) {
                assert(s@.subrange(i as int, i + n)[k as int] == pattern@[k as int]);
            }
        }
        i += 1;
    }
    None
}

/// `c` in lower case where it is one of the letters `A` to `Z`; any other
/// character as it is.
pub open spec fn lower_char(c: char) -> char {
    if 'A' <= c <= 'Z' {
        ((c as u8) + 32) as char
    } else {
        c
    }
}

/// `s` with its letters `A` to `Z` in lower case.
pub open spec fn lowercase(s: Seq<char>) -> Seq<char> {
    s.map_values(|c: char| lower_char(c))
}

/// Puts the letters `A` to `Z` of `chars` in lower case.
pub fn to_lowercase(chars: &[char]) -> (lower: String)
    ensures
        lower@ == lowercase(chars@),
{
    let mut lower = String::new();
    let mut i: usize = 0;
    while i < chars.len()
        invariant
            i <= chars.len(),
            lower@ == lowercase(chars@.take(i as int)),
        decreases chars.len() - i,
    {
        let c = chars[i];
        let l = if 'A' <= c && c <= 'Z' {
            ((c as u8) + 32) as char
        } else {
            c
        };
        lower.push(l);
        assert(lowercase(chars@.take(i + 1)) =~= lowercase(chars@.take(i as int)).push(l));
        i += 1;
    }
    assert(chars@.take(i as int) == chars@);
    lower
}

/// Whether `c` is one of the digits `0` to `9`.
pub open spec fn is_digit(c: char) -> bool {
    '0' <= c <= '9'
}

/// The number that the digits `s` write in decimal.
pub open spec fn digits_value(s: Seq<char>) -> nat
    decreases s.len(),
{
    if s.len() == 0 {
        0
    } else {
        (digits_value(s.drop_last()) * 10 + (s.last() as u8 - 48)) as nat
    }
}

/// Whether `s` holds digits and nothing else.
pub open spec fn all_digits(s: Seq<char>) -> bool {
    forall|i: int| 0 <= i < s.len() ==> is_digit(#[trigger] s[i])
}

/// The number that the digits `s` write, where there is at least one digit,
/// nothing but digits, and the number is one that a `usize` can hold.
pub open spec fn unsigned(s: Seq<char>) -> Option<usize> {
    if s.len() > 0 && all_digits(s) && digits_value(s) <= usize::MAX {
        Some(digits_value(s) as usize)
    } else {
        None
    }
}

/// The number that `s` writes: digits, with or without a `+` before them.
pub open spec fn number(s: Seq<char>) -> Option<usize> {
    if s.len() > 0 && s.first() == '+' {
        unsigned(s.drop_first())
    } else {
        unsigned(s)
    }
}

/// More digits never write a smaller number.
pub proof fn lemma_digits_value_grows(s: Seq<char>, n: int)
    requires
        0 <= n <= s.len(),
        all_digits(s),
    ensures
        digits_value(s.take(n)) <= digits_value(s),
    decreases s.len() - n,
{
    if n < s.len() {
        lemma_digits_value_grows(s, n + 1);
        assert(s.take(n + 1).drop_last() == s.take(n));
        assert(is_digit(s[n]));
    } else {
        assert(s.take(n) == s);
    }
}

/// What is written in decimal holds digits only, at least one, and writes the
/// number back.
pub proof fn lemma_decimal_digits(n: nat)
    ensures
        decimal(n).len() > 0,
        all_digits(decimal(n)),
        digits_value(decimal(n)) == n,
    decreases n,
{
    if n < 10 {
        let s = decimal(n);
        assert(s.len() == 1 && s[0] == digit(n));
        assert(s.drop_last().len() == 0);
        assert(digits_value(s.drop_last()) == 0);
    } else {
        lemma_decimal_digits(n / 10);
        let s = decimal(n);
        let before = decimal(n / 10);
        assert(s.drop_last() == before);
        assert(s.last() == digit(n % 10));
        assert forall|i: int| 0 <= i < s.len() implies is_digit(#[trigger] s[i]) by {
            if i < before.len() {
                assert(s[i] == before[i]);
            }
        }
    }
}

/// A length that is written in decimal is read back as it was.
pub proof fn lemma_number_of_decimal(n: usize)
    ensures
        number(decimal(n as nat)) == Some(n),
{
    lemma_decimal_digits(n as nat);
    assert(is_digit(decimal(n as nat)[0]));
}

/// Reads the number that the digits `digits` write.
fn parse_digits(digits: &[char]) -> (value: Option<usize>)
    ensures
        value == unsigned(digits@),
{
    if digits.len() == 0 {
        return None;
    }
    let mut value: usize = 0;
    let mut i: usize = 0;
    assert(digits@.take(0) == Seq::<char>::empty());
    while i < digits.len()
        invariant
            i <= digits.len(),
            forall|j: int| 0 <= j < i ==> is_digit(#[trigger] digits@[j]),
            value == digits_value(digits@.take(i as int)),
        decreases digits.len() - i,
    {
        let c = digits[i];
        if !('0' <= c && c <= '9') {
            assert(!is_digit(digits@[i as int]));
            return None;
        }
        let d = (c as u8 - 48) as usize;
        proof {
            assert(digits@.take(i + 1).drop_last() == digits@.take(i as int));
            assert(digits@.take(i + 1).last() == c);
        }
        if value > (usize::MAX - d) / 10 {
            proof {
                if all_digits(digits@) {
                    lemma_digits_value_grows(digits@, i + 1);
                }
            }
            return None;
        }
        value = value * 10 + d;
        i += 1;
    }
    assert(digits@.take(i as int) == digits@);
    Some(value)
}

/// Reads the number that `chars` writes.
pub fn parse_number(chars: &[char]) -> (value: Option<usize>)
    ensures
        value == number(chars@),
{
    if chars.len() > 0 && chars[0] == '+' {
        assert(chars@.subrange(1, chars@.len() as int) == chars@.drop_first());
        parse_digits(slice_subrange(chars, 1, chars.len()))
    } else {
        parse_digits(chars)
    }
}

} // verus!
