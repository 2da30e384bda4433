//! Text as sequences of characters: trimming, letter case, numbers, replacing and splitting.

use vstd::prelude::*;

verus! {

/// `String::push`: appends one character at the end.
pub assume_specification[ String::push ](s: &mut String, c: char)
    ensures
        final(s)@ == old(s)@.push(c),
;

/// What `str::to_lowercase` makes of a text, by Unicode's lowercase mapping.
pub uninterp spec fn unicode_lowercase(s: Seq<char>) -> Seq<char>;

/// What `str::to_uppercase` makes of a text, by Unicode's uppercase mapping.
pub uninterp spec fn unicode_uppercase(s: Seq<char>) -> Seq<char>;

/// The lowercase of an ASCII letter; every other character is itself.
pub open spec fn ascii_lower(c: char) -> char {
    if 'A' <= c <= 'Z' {
        ((c as u8) + 32) as u8 as char
    } else {
        c
    }
}

/// The uppercase of an ASCII letter; every other character is itself.
pub open spec fn ascii_upper(c: char) -> char {
    if 'a' <= c <= 'z' {
        ((c as u8) - 32) as u8 as char
    } else {
        c
    }
}

/// A text with its ASCII letters in lowercase.
pub open spec fn ascii_lowered(s: Seq<char>) -> Seq<char> {
    s.map_values(|c: char| ascii_lower(c))
}

/// A text with its ASCII letters in uppercase.
pub open spec fn ascii_uppered(s: Seq<char>) -> Seq<char> {
    s.map_values(|c: char| ascii_upper(c))
}

/// `str::to_lowercase`: a function of the text alone, which on ASCII text maps
/// `A` to `Z` onto `a` to `z` and leaves the rest. Beyond ASCII only the name is claimed.
#[verifier::external_body]
pub(crate) fn to_lowercase(s: &str) -> (r: String)
    ensures
        r@ == unicode_lowercase(s@),
        vstd::utf8::is_ascii_chars(s@) ==> r@ == ascii_lowered(s@),
{
    s.to_lowercase()
}

/// `str::to_uppercase`: a function of the text alone, which on ASCII text maps
/// `a` to `z` onto `A` to `Z` and leaves the rest. Beyond ASCII only the name is claimed.
#[verifier::external_body]
pub(crate) fn to_uppercase(s: &str) -> (r: String)
    ensures
        r@ == unicode_uppercase(s@),
        vstd::utf8::is_ascii_chars(s@) ==> r@ == ascii_uppered(s@),
{
    s.to_uppercase()
}

/// The characters of a text.
pub fn to_chars(s: &str) -> (r: Vec<char>)
    ensures
        r@ == s@,
{
    let mut out: Vec<char> = Vec::new();
    for c in it: s.chars()
        invariant
            it.seq() == s@,
            out@ == s@.take(it.index() as int),
    {
        out.push(c);
    }
    out
}

/// The text made of `chars[from..to]`.
pub fn from_chars(chars: &[char], from: usize, to: usize) -> (r: String)
    requires
        from <= to <= chars@.len(),
    ensures
        r@ == chars@.subrange(from as int, to as int),
{
    let mut out = String::new();
    let mut i: usize = from;
    while i < to
        invariant
            from <= i <= to <= chars@.len(),
            out@ == chars@.subrange(from as int, i as int),
        decreases to - i,
    {
        out.push(chars[i]);
        i = i + 1;
    }
    out
}

/// Appends `extra` to `out`.
pub fn append(out: &mut String, extra: &str)
    ensures
        final(out)@ == old(out)@ + extra@,
{
    let ghost before = out@;
    for c in it: extra.chars()
        invariant
            it.seq() == extra@,
            out@ == before + extra@.take(it.index() as int),
    {
        out.push(c);
        proof {
            assert(extra@.take(it.index() as int + 1) =~= extra@.take(it.index() as int).push(c));
        }
    }
    proof {
        assert(extra@.take(extra@.len() as int) =~= extra@);
    }
}

/// `a` followed by `b`.
pub fn concat2(a: &str, b: &str) -> (r: String)
    ensures
        r@ == a@ + b@,
{
    let mut out = String::new();
    append(&mut out, a);
    append(&mut out, b);
    proof {
        assert(out@ =~= a@ + b@);
    }
    out
}

/// `a` followed by `b` and `c`.
pub fn concat3(a: &str, b: &str, c: &str) -> (r: String)
    ensures
        r@ == a@ + b@ + c@,
{
    let mut out = concat2(a, b);
    append(&mut out, c);
    out
}

/// Five texts, one behind the other.
pub fn concat5(a: &str, b: &str, c: &str, d: &str, e: &str) -> (r: String)
    ensures
        r@ == a@ + b@ + c@ + d@ + e@,
{
    let mut out = concat3(a, b, c);
    append(&mut out, d);
    append(&mut out, e);
    out
}

/// Whether two texts are the same.
pub fn same_text(a: &str, b: &str) -> (r: bool)
    ensures
        r == (a@ == b@),
{
    let x = a.as_bytes();
    let y = b.as_bytes();
    proof {
        vstd::utf8::encode_utf8_decode_utf8(a@);
        vstd::utf8::encode_utf8_decode_utf8(b@);
    }
    if x.len() != y.len() {
        return false;
    }
    let mut i: usize = 0;
    while i < x.len()
        invariant
            i <= x@.len(),
            x@.len() == y@.len(),
            x@ == vstd::utf8::encode_utf8(a@),
            y@ == vstd::utf8::encode_utf8(b@),
            forall|k: int| 0 <= k < i ==> x@[k] == y@[k],
        decreases x@.len() - i,
    {
        if x[i] != y[i] {
            return false;
        }
        i = i + 1;
    }
    proof {
        assert(x@ =~= y@);
    }
    true
}

/// Unicode's White_Space property, by which `char::is_whitespace` and `str::trim` go.
pub open spec fn is_space(c: char) -> bool {
    ||| '\u{9}' <= c <= '\u{d}'
    ||| c == ' '
    ||| c == '\u{85}'
    ||| c == '\u{a0}'
    ||| c == '\u{1680}'
    ||| '\u{2000}' <= c <= '\u{200a}'
    ||| c == '\u{2028}'
    ||| c == '\u{2029}'
    ||| c == '\u{202f}'
    ||| c == '\u{205f}'
    ||| c == '\u{3000}'
}

/// Unicode's general category Cc, by which `char::is_control` goes.
pub open spec fn is_control_char(c: char) -> bool {
    c <= '\u{1f}' || '\u{7f}' <= c <= '\u{9f}'
}

/// Whether `c` is white space.
pub fn is_whitespace(c: char) -> (r: bool)
    ensures
        r == is_space(c),
{
    ('\u{9}' <= c && c <= '\u{d}') || c == ' ' || c == '\u{85}' || c == '\u{a0}' || c == '\u{1680}'
        || ('\u{2000}' <= c && c <= '\u{200a}') || c == '\u{2028}' || c == '\u{2029}'
        || c == '\u{202f}' || c == '\u{205f}' || c == '\u{3000}'
}

/// Whether `c` is a control character.
pub fn is_control(c: char) -> (r: bool)
    ensures
        r == is_control_char(c),
{
    c <= '\u{1f}' || ('\u{7f}' <= c && c <= '\u{9f}')
}

/// A text without its leading white space.
pub open spec fn trimmed_start(s: Seq<char>) -> Seq<char>
    decreases s.len(),
{
    if s.len() > 0 && is_space(s[0]) {
        trimmed_start(s.skip(1))
    } else {
        s
    }
}

/// A text without its trailing white space.
pub open spec fn trimmed_end(s: Seq<char>) -> Seq<char>
    decreases s.len(),
{
    if s.len() > 0 && is_space(s.last()) {
        trimmed_end(s.drop_last())
    } else {
        s
    }
}

/// A text without the white space around it.
pub open spec fn trimmed(s: Seq<char>) -> Seq<char> {
    trimmed_end(trimmed_start(s))
}

/// The part of `chars[from..to]` without the white space around it, as bounds.
pub fn trim_bounds(chars: &[char], from: usize, to: usize) -> (r: (usize, usize))
    requires
        from <= to <= chars@.len(),
    ensures
        from <= r.0 <= r.1 <= to,
        chars@.subrange(r.0 as int, r.1 as int) == trimmed(
            chars@.subrange(from as int, to as int),
        ),
{
    let mut start: usize = from;
    let ghost whole = chars@.subrange(from as int, to as int);
    while start < to && is_whitespace(chars[start])
        invariant
            from <= start <= to <= chars@.len(),
            trimmed_start(whole) == trimmed_start(chars@.subrange(start as int, to as int)),
        decreases to - start,
    {
        proof {
            assert(chars@.subrange(start as int, to as int).skip(1) =~= chars@.subrange(
                start + 1,
                to as int,
            ));
        }
        start = start + 1;
    }
    let mut end: usize = to;
    while start < end && is_whitespace(chars[end - 1])
        invariant
            from <= start <= end <= to <= chars@.len(),
            trimmed(whole) == trimmed_end(chars@.subrange(start as int, end as int)),
        decreases end - start,
    {
        proof {
            assert(chars@.subrange(start as int, end as int).drop_last() =~= chars@.subrange(
                start as int,
                end - 1,
            ));
        }
        end = end - 1;
    }
    (start, end)
}

/// `s` without the white space around it.
pub fn trim(s: &str) -> (r: String)
    ensures
        r@ == trimmed(s@),
{
    let chars = to_chars(s);
    let (start, end) = trim_bounds(&chars, 0, chars.len());
    proof {
        assert(chars@.subrange(0, chars@.len() as int) =~= chars@);
    }
    from_chars(&chars, start, end)
}

/// `c` with an ASCII letter in lowercase.
pub fn lower_ascii_char(c: char) -> (r: char)
    ensures
        r == ascii_lower(c),
{
    if 'A' <= c && c <= 'Z' {
        ((c as u8) + 32) as char
    } else {
        c
    }
}

/// `s` with its ASCII letters in lowercase.
pub fn to_ascii_lowercase(s: &str) -> (r: String)
    ensures
        r@ == ascii_lowered(s@),
{
    let mut out = String::new();
    for c in it: s.chars()
        invariant
            it.seq() == s@,
            out@ == ascii_lowered(s@.take(it.index() as int)),
    {
        out.push(lower_ascii_char(c));
        proof {
            assert(ascii_lowered(s@.take(it.index() as int + 1)) =~= ascii_lowered(
                s@.take(it.index() as int),
            ).push(ascii_lower(c)));
        }
    }
    proof {
        assert(s@.take(s@.len() as int) =~= s@);
    }
    out
}

/// Whether two texts differ at most in the case of their ASCII letters.
pub fn eq_ignore_ascii_case(a: &str, b: &str) -> (r: bool)
    ensures
        r == (ascii_lowered(a@) == ascii_lowered(b@)),
{
    let x = to_ascii_lowercase(a);
    let y = to_ascii_lowercase(b);
    x == y
}

/// The character of a decimal digit.
pub open spec fn digit_char(d: nat) -> char {
    (48 + d) as u8 as char
}

/// A number in decimal, without leading zeros.
pub open spec fn decimal_text(n: nat) -> Seq<char>
    decreases n,
{
    if n < 10 {
        seq![digit_char(n)]
    } else {
        decimal_text(n / 10).push(digit_char(n % 10))
    }
}

/// `n` in decimal.
pub fn decimal(n: u128) -> (r: String)
    ensures
        r@ == decimal_text(n as nat),
    decreases n,
{
    let digit: char = (48 + (n % 10) as u8) as char;
    let mut out = if n < 10 {
        String::new()
    } else {
        decimal(n / 10)
    };
    out.push(digit);
    proof {
        if n < 10 {
            assert(out@ =~= decimal_text(n as nat));
        }
    }
    out
}

/// `n` in decimal, with a leading zero below ten.
pub open spec fn two_digit_text(n: nat) -> Seq<char> {
    if n < 10 {
        seq!['0'] + decimal_text(n)
    } else {
        decimal_text(n)
    }
}

/// `n` in decimal, filled up with a zero to two digits.
pub fn two_digits(n: u128) -> (r: String)
    ensures
        r@ == two_digit_text(n as nat),
{
    let digits = decimal(n);
    if n < 10 {
        let mut out = String::new();
        out.push('0');
        append(&mut out, digits.as_str());
        proof {
            assert(out@ =~= two_digit_text(n as nat));
        }
        out
    } else {
        digits
    }
}

/// The character of a hexadecimal digit, in lowercase.
pub open spec fn hex_char(d: nat) -> char {
    if d < 10 {
        (48 + d) as u8 as char
    } else {
        (87 + d) as u8 as char
    }
}

/// Bytes in hexadecimal, two lowercase digits each.
pub open spec fn hex_text(bytes: Seq<u8>) -> Seq<char>
    decreases bytes.len(),
{
    if bytes.len() == 0 {
        seq![]
    } else {
        hex_text(bytes.drop_last()).push(hex_char((bytes.last() / 16) as nat)).push(
            hex_char((bytes.last() % 16) as nat),
        )
    }
}

fn hex_digit(d: u8) -> (r: char)
    requires
        d < 16,
    ensures
        r == hex_char(d as nat),
{
    if d < 10 {
        (48 + d) as char
    } else {
        (87 + d) as char
    }
}

/// `bytes` in lowercase hexadecimal.
pub fn hex(bytes: &[u8]) -> (r: String)
    ensures
        r@ == hex_text(bytes@),
{
    let mut out = String::new();
    let mut i: usize = 0;
    while i < bytes.len()
        invariant
            i <= bytes@.len(),
            out@ == hex_text(bytes@.take(i as int)),
        decreases bytes@.len() - i,
    {
        out.push(hex_digit(bytes[i] / 16));
        out.push(hex_digit(bytes[i] % 16));
        proof {
            assert(bytes@.take(i + 1).drop_last() =~= bytes@.take(i as int));
        }
        i = i + 1;
    }
    proof {
        assert(bytes@.take(bytes@.len() as int) =~= bytes@);
    }
    out
}

/// `bytes` in hexadecimal has two digits for each byte.
pub proof fn lemma_hex_text_len(bytes: Seq<u8>)
    ensures
        hex_text(bytes).len() == 2 * bytes.len(),
    decreases bytes.len(),
{
    if bytes.len() > 0 {
        lemma_hex_text_len(bytes.drop_last());
    }
}

/// `s` with every occurrence of `pattern`, found from left to right without
/// overlap, replaced by `with`.
pub open spec fn replaced(s: Seq<char>, pattern: Seq<char>, with: Seq<char>) -> Seq<char>
    decreases s.len(),
{
    if pattern.len() == 0 || s.len() < pattern.len() {
        s
    } else if s.take(pattern.len() as int) == pattern {
        with + replaced(s.skip(pattern.len() as int), pattern, with)
    } else {
        s.take(1) + replaced(s.skip(1), pattern, with)
    }
}

/// Whether `pattern` stands in `s` at `at`.
pub fn matches_at(s: &[char], pattern: &[char], at: usize) -> (r: bool)
    requires
        at <= s@.len(),
    ensures
        r == (at + pattern@.len() <= s@.len() && s@.subrange(at as int, at + pattern@.len())
            == pattern@),
{
    if pattern.len() > s.len() - at {
        return false;
    }
    let mut i: usize = 0;
    while i < pattern.len()
        invariant
            i <= pattern@.len(),
            at + pattern@.len() <= s.len(),
            forall|k: int| 0 <= k < i ==> s@[at + k] == pattern@[k],
        decreases pattern@.len() - i,
    {
        if s[at + i] != pattern[i] {
            proof {
                assert(s@.subrange(at as int, at + pattern@.len())[i as int] != pattern@[i as int]);
            }
            return false;
        }
        i = i + 1;
    }
    proof {
        assert(s@.subrange(at as int, at + pattern@.len()) =~= pattern@);
    }
    true
}

/// `s` with every `pattern` replaced by `with`.
pub fn replace(s: &str, pattern: &str, with: &str) -> (r: String)
    requires
        pattern@.len() > 0,
    ensures
        r@ == replaced(s@, pattern@, with@),
{
    let text = to_chars(s);
    let wanted = to_chars(pattern);
    let mut out = String::new();
    let mut i: usize = 0;
    proof {
        assert(s@.skip(0) =~= s@);
    }
    while i < text.len()
        invariant
            i <= text@.len(),
            text@ == s@,
            wanted@ == pattern@,
            wanted@.len() > 0,
            replaced(s@, pattern@, with@) == out@ + replaced(s@.skip(i as int), pattern@, with@),
        decreases text@.len() - i,
    {
        let ghost rest = s@.skip(i as int);
        if matches_at(&text, &wanted, i) {
            proof {
                assert(rest.take(wanted@.len() as int) =~= text@.subrange(
                    i as int,
                    i + wanted@.len(),
                ));
                assert(rest.skip(wanted@.len() as int) =~= s@.skip(i + wanted@.len()));
            }
            append(&mut out, with);
            i = i + wanted.len();
        } else {
            proof {
                if rest.len() >= pattern@.len() {
                    assert(rest.take(wanted@.len() as int) =~= text@.subrange(
                        i as int,
                        i + wanted@.len(),
                    ));
                    assert(rest.skip(1) =~= s@.skip(i + 1));
                    assert(rest.take(1) =~= seq![text@[i as int]]);
                } else {
                    assert(rest =~= seq![text@[i as int]] + s@.skip(i + 1));
                }
            }
            out.push(text[i]);
            i = i + 1;
        }
        proof {
            assert(replaced(s@, pattern@, with@) =~= out@ + replaced(
                s@.skip(i as int),
                pattern@,
                with@,
            ));
        }
    }
    proof {
        assert(out@ + s@.skip(text@.len() as int) =~= out@);
    }
    out
}

/// The part of `s` behind `prefix`, where `s` starts with it.
pub open spec fn after_prefix(s: Seq<char>, prefix: Seq<char>) -> Option<Seq<char>> {
    if s.len() >= prefix.len() && s.take(prefix.len() as int) == prefix {
        Some(s.skip(prefix.len() as int))
    } else {
        None
    }
}

/// `s` without `prefix`, or nothing where it does not start with it.
pub fn strip_prefix(s: &str, prefix: &str) -> (r: Option<String>)
    ensures
        r is Some == after_prefix(s@, prefix@) is Some,
        r is Some ==> r->0@ == after_prefix(s@, prefix@)->0,
{
    let text = to_chars(s);
    let wanted = to_chars(prefix);
    if matches_at(&text, &wanted, 0) {
        proof {
            assert(s@.take(prefix@.len() as int) =~= text@.subrange(0, wanted@.len() as int));
            assert(s@.skip(prefix@.len() as int) =~= text@.subrange(
                wanted@.len() as int,
                text@.len() as int,
            ));
        }
        Some(from_chars(&text, wanted.len(), text.len()))
    } else {
        proof {
            if s@.len() >= prefix@.len() {
                assert(s@.take(prefix@.len() as int) =~= text@.subrange(0, wanted@.len() as int));
            }
        }
        None
    }
}

/// The pieces of `s` between its separators `sep`: one more than there are separators.
pub open spec fn pieces(s: Seq<char>, sep: char) -> Seq<Seq<char>>
    decreases s.len(),
{
    if s.len() == 0 {
        seq![Seq::<char>::empty()]
    } else {
        let before = pieces(s.drop_last(), sep);
        if s.last() == sep {
            before.push(Seq::<char>::empty())
        } else {
            before.drop_last().push(before.last().push(s.last()))
        }
    }
}

/// The views of a list of texts.
pub open spec fn views(list: Seq<String>) -> Seq<Seq<char>> {
    list.map_values(|t: String| t@)
}

proof fn lemma_pieces_nonempty(s: Seq<char>, sep: char)
    ensures
        pieces(s, sep).len() > 0,
    decreases s.len(),
{
    if s.len() > 0 {
        lemma_pieces_nonempty(s.drop_last(), sep);
    }
}

/// `s` split at every `sep`.
pub fn split(s: &str, sep: char) -> (r: Vec<String>)
    ensures
        views(r@) == pieces(s@, sep),
{
    let mut done: Vec<String> = Vec::new();
    let mut current = String::new();
    proof {
        assert(views(done@).push(current@) =~= pieces(s@.take(0), sep));
    }
    for c in it: s.chars()
        invariant
            it.seq() == s@,
            views(done@).push(current@) == pieces(s@.take(it.index() as int), sep),
    {
        let ghost seen = s@.take(it.index() as int);
        let ghost seen2 = s@.take(it.index() as int + 1);
        let ghost done0 = done@;
        let ghost current0 = current@;
        proof {
            assert(seen2.drop_last() =~= seen);
            assert(views(done0).push(current0).drop_last() =~= views(done0));
            assert(views(done0).push(current0).last() == current0);
        }
        if c == sep {
            done.push(current);
            current = String::new();
            proof {
                assert(views(done@) =~= views(done0).push(current0));
            }
        } else {
            current.push(c);
        }
    }
    let ghost done0 = done@;
    let ghost current0 = current@;
    done.push(current);
    proof {
        assert(views(done@) =~= views(done0).push(current0));
        assert(s@.take(s@.len() as int) =~= s@);
    }
    done
}

/// Whether `pattern` stands somewhere in `s`.
pub open spec fn has_part(s: Seq<char>, pattern: Seq<char>) -> bool {
    exists|at: int|
        0 <= at && at + pattern.len() <= s.len() && #[trigger] s.subrange(at, at + pattern.len())
            == pattern
}

/// Whether `s` contains `pattern`.
pub fn contains(s: &str, pattern: &str) -> (r: bool)
    ensures
        r == has_part(s@, pattern@),
{
    let text = to_chars(s);
    let wanted = to_chars(pattern);
    let mut at: usize = 0;
    while at < text.len()
        invariant
            at <= text@.len(),
            text@ == s@,
            wanted@ == pattern@,
            forall|k: int|
                0 <= k < at && k + pattern@.len() <= s@.len() ==> #[trigger] s@.subrange(
                    k,
                    k + pattern@.len(),
                ) != pattern@,
        decreases text@.len() - at,
    {
        if matches_at(&text, &wanted, at) {
            return true;
        }
        at = at + 1;
    }
    matches_at(&text, &wanted, at)
}

/// A text without the characters `c` at its end.
pub open spec fn without_trailing(s: Seq<char>, c: char) -> Seq<char>
    decreases s.len(),
{
    if s.len() > 0 && s.last() == c {
        without_trailing(s.drop_last(), c)
    } else {
        s
    }
}

/// `s` without the characters `c` at its end.
pub fn trim_trailing(s: &str, c: char) -> (r: String)
    ensures
        r@ == without_trailing(s@, c),
{
    let chars = to_chars(s);
    let mut end: usize = chars.len();
    proof {
        assert(chars@.take(chars@.len() as int) =~= chars@);
    }
    while end > 0 && chars[end - 1] == c
        invariant
            end <= chars@.len(),
            chars@ == s@,
            without_trailing(s@, c) == without_trailing(chars@.take(end as int), c),
        decreases end,
    {
        proof {
            assert(chars@.take(end as int).drop_last() =~= chars@.take(end - 1));
        }
        end = end - 1;
    }
    proof {
        assert(chars@.subrange(0, end as int) =~= chars@.take(end as int));
    }
    from_chars(&chars, 0, end)
}

/// What `String::from_utf8_lossy` makes of bytes.
pub uninterp spec fn utf8_lossy(bytes: Seq<u8>) -> Seq<char>;

/// `String::from_utf8_lossy`: the text that UTF-8 bytes encode. Where bytes are not
/// UTF-8 it puts replacement characters, and only the name is claimed.
#[verifier::external_body]
pub(crate) fn from_utf8_lossy(bytes: &[u8]) -> (r: String)
    ensures
        r@ == utf8_lossy(bytes@),
        vstd::utf8::valid_utf8(bytes@) ==> r@ == vstd::utf8::decode_utf8(bytes@),
{
    String::from_utf8_lossy(bytes).into_owned()
}

/// How many bytes the UTF-8 encoding of `s` has.
pub fn byte_length(s: &str) -> (r: usize)
    ensures
        r == vstd::utf8::encode_utf8(s@).len(),
{
    s.as_bytes().len()
}

/// A copy of `s`.
pub fn copy(s: &String) -> (r: String)
    ensures
        r@ == s@,
{
    s.as_str().to_owned()
}

/// The view of a text that may be missing.
pub open spec fn opt_view(s: Option<String>) -> Option<Seq<char>> {
    match s {
        Some(t) => Some(t@),
        None => None,
    }
}

/// A copy of a text that may be missing.
pub fn copy_option(s: &Option<String>) -> (r: Option<String>)
    ensures
        opt_view(r) == opt_view(*s),
{
    match s {
        Some(t) => Some(copy(t)),
        None => None,
    }
}

// --- Laws ---

proof fn lemma_pieces_step(s: Seq<char>, c: char, sep: char)
    ensures
        c == sep ==> pieces(s.push(c), sep) == pieces(s, sep).push(Seq::<char>::empty()),
        c != sep ==> pieces(s.push(c), sep) == pieces(s, sep).drop_last().push(
            pieces(s, sep).last().push(c),
        ),
{
    assert(s.push(c).drop_last() =~= s);
    assert(s.push(c).last() == c);
}

/// A text without a separator is one piece, and a separator begins a new piece: what stands
/// behind the last separator is the last piece.
pub proof fn law_pieces_lie_between_separators(s: Seq<char>, t: Seq<char>, sep: char)
    requires
        forall|i: int| 0 <= i < t.len() ==> #[trigger] t[i] != sep,
    ensures
        pieces(t, sep) == seq![t],
        pieces(s.push(sep) + t, sep) == pieces(s, sep).push(t),
    decreases t.len(),
{
    if t.len() == 0 {
        assert(t =~= Seq::<char>::empty());
        assert(s.push(sep) + t =~= s.push(sep));
        lemma_pieces_step(s, sep, sep);
        assert(pieces(t, sep) =~= seq![t]);
    } else {
        let before = t.drop_last();
        let c = t.last();
        assert forall|i: int| 0 <= i < before.len() implies #[trigger] before[i] != sep by {
            assert(before[i] == t[i]);
        }
        assert(t[t.len() - 1] != sep);
        law_pieces_lie_between_separators(s, before, sep);
        assert(s.push(sep) + t =~= (s.push(sep) + before).push(c));
        assert(t =~= before.push(c));
        lemma_pieces_step(s.push(sep) + before, c, sep);
        lemma_pieces_step(before, c, sep);
        assert(pieces(s, sep).push(before).drop_last() =~= pieces(s, sep));
        assert(pieces(t, sep) =~= seq![t]);
    }
}

/// To trim a text takes away white space at its ends, as much as there is, and nothing else.
pub proof fn law_trimming_takes_white_space_alone(s: Seq<char>) -> (bounds: (int, int))
    ensures
        0 <= bounds.0 <= bounds.1 <= s.len(),
        trimmed(s) == s.subrange(bounds.0, bounds.1),
        forall|i: int| 0 <= i < bounds.0 ==> is_space(#[trigger] s[i]),
        forall|i: int| bounds.1 <= i < s.len() ==> is_space(#[trigger] s[i]),
        bounds.0 < bounds.1 ==> !is_space(s[bounds.0]) && !is_space(s[bounds.1 - 1]),
{
    let from = lemma_trimmed_start(s);
    let rest = s.skip(from);
    let len = lemma_trimmed_end(rest);
    assert(trimmed(s) =~= s.subrange(from, from + len));
    assert forall|i: int| from + len <= i < s.len() implies is_space(#[trigger] s[i]) by {
        assert(rest[i - from] == s[i]);
    }
    if len > 0 {
        assert(rest[0] == s[from]);
        assert(rest[len - 1] == s[from + len - 1]);
    }
    (from, from + len)
}

proof fn lemma_trimmed_start(s: Seq<char>) -> (from: int)
    ensures
        0 <= from <= s.len(),
        trimmed_start(s) == s.skip(from),
        forall|i: int| 0 <= i < from ==> is_space(#[trigger] s[i]),
        from < s.len() ==> !is_space(s[from]),
    decreases s.len(),
{
    if s.len() > 0 && is_space(s[0]) {
        let rest = s.skip(1);
        let from = lemma_trimmed_start(rest);
        assert(rest.skip(from) =~= s.skip(from + 1));
        assert forall|i: int| 0 <= i < from + 1 implies is_space(#[trigger] s[i]) by {
            if i > 0 {
                assert(rest[i - 1] == s[i]);
            }
        }
        if from < rest.len() {
            assert(rest[from] == s[from + 1]);
        }
        from + 1
    } else {
        assert(s.skip(0) =~= s);
        0
    }
}

proof fn lemma_trimmed_end(s: Seq<char>) -> (len: int)
    ensures
        0 <= len <= s.len(),
        trimmed_end(s) == s.take(len),
        forall|i: int| len <= i < s.len() ==> is_space(#[trigger] s[i]),
        len > 0 ==> !is_space(s[len - 1]),
    decreases s.len(),
{
    if s.len() > 0 && is_space(s.last()) {
        let rest = s.drop_last();
        let len = lemma_trimmed_end(rest);
        assert(rest.take(len) =~= s.take(len));
        assert forall|i: int| len <= i < s.len() implies is_space(#[trigger] s[i]) by {
            if i < rest.len() {
                assert(rest[i] == s[i]);
            }
        }
        if len > 0 {
            assert(rest[len - 1] == s[len - 1]);
        }
        len
    } else {
        assert(s.take(s.len() as int) =~= s);
        s.len() as int
    }
}

/// Among ASCII characters, white space is the tab, the line breaks and the space.
pub proof fn law_ascii_white_space(c: char)
    requires
        (c as u32) < 128,
    ensures
        is_space(c) <==> 9 <= c as u32 <= 13 || c as u32 == 32,
{
}

/// The control characters are those below the space, and those from the delete character up to
/// the end of the second block.
pub proof fn law_control_characters(c: char)
    ensures
        is_control_char(c) <==> (c as u32) < 32 || 127 <= c as u32 <= 159,
{
}

/// To lower ASCII letters moves the capitals alone, and by 32 places.
pub proof fn law_lowering_moves_capitals_alone(s: Seq<char>, i: int)
    requires
        0 <= i < s.len(),
    ensures
        ascii_lowered(s).len() == s.len(),
        'A' <= s[i] <= 'Z' ==> ascii_lowered(s)[i] as u32 == s[i] as u32 + 32,
        !('A' <= s[i] <= 'Z') ==> ascii_lowered(s)[i] == s[i],
{
}

/// What stands behind a prefix is found again, and nothing where a text does not start with it.
pub proof fn law_a_prefix_is_taken_off(s: Seq<char>, prefix: Seq<char>)
    ensures
        after_prefix(prefix + s, prefix) == Some(s),
        after_prefix(s, prefix) matches Some(rest) ==> s == prefix + rest,
        after_prefix(s, prefix) is None ==> forall|rest: Seq<char>| s != #[trigger] (prefix + rest),
{
    assert((prefix + s).take(prefix.len() as int) =~= prefix);
    assert((prefix + s).skip(prefix.len() as int) =~= s);
    if let Some(rest) = after_prefix(s, prefix) {
        assert(s =~= prefix + rest);
    } else {
        assert forall|rest: Seq<char>| s != #[trigger] (prefix + rest) by {
            if s == prefix + rest {
                assert(s.take(prefix.len() as int) =~= prefix);
            }
        }
    }
}

/// The number that decimal digits mean.
pub open spec fn digits_value(s: Seq<char>) -> int
    decreases s.len(),
{
    if s.len() == 0 {
        0
    } else {
        10 * digits_value(s.drop_last()) + (s.last() as int - '0' as int)
    }
}

/// A number in decimal is made of digits that mean it, without a leading zero.
pub proof fn law_decimal_digits_mean_the_number(n: nat)
    ensures
        decimal_text(n).len() > 0,
        digits_value(decimal_text(n)) == n,
        forall|i: int|
            0 <= i < decimal_text(n).len() ==> '0' <= #[trigger] decimal_text(n)[i] <= '9',
        decimal_text(n).len() > 1 ==> decimal_text(n)[0] != '0',
        n > 0 ==> decimal_text(n)[0] != '0',
    decreases n,
{
    let text = decimal_text(n);
    if n < 10 {
        assert(text.drop_last() =~= Seq::<char>::empty());
        assert(digits_value(text.drop_last()) == 0);
        assert(text.last() as int == 48 + n);
    } else {
        law_decimal_digits_mean_the_number(n / 10);
        let before = decimal_text(n / 10);
        assert(text.drop_last() =~= before);
        assert(text.last() as int == 48 + n % 10);
        assert forall|i: int| 0 <= i < text.len() implies '0' <= #[trigger] text[i] <= '9' by {
            if i < before.len() {
                assert(text[i] == before[i]);
            }
        }
        assert(text[0] == before[0]);
    }
}

/// A byte in hexadecimal is two digits, the higher one first: `0` to `9`, then `a` to `f`.
pub proof fn law_hex_digits_of_a_byte(bytes: Seq<u8>, i: int)
    requires
        0 <= i < bytes.len(),
    ensures
        hex_text(bytes).len() == 2 * bytes.len(),
        ({
            let high = bytes[i] as int / 16;
            let low = bytes[i] as int % 16;
            let first = hex_text(bytes)[2 * i] as int;
            let second = hex_text(bytes)[2 * i + 1] as int;
            &&& first == high + if high < 10 {
                '0' as int
            } else {
                'a' as int - 10
            }
            &&& second == low + if low < 10 {
                '0' as int
            } else {
                'a' as int - 10
            }
        }),
    decreases bytes.len(),
{
    lemma_hex_text_len(bytes);
    lemma_hex_text_len(bytes.drop_last());
    if i < bytes.len() - 1 {
        law_hex_digits_of_a_byte(bytes.drop_last(), i);
        assert(bytes.drop_last()[i] == bytes[i]);
    }
}

/// The first place where a pattern stands is replaced, and the search goes on behind it.
pub proof fn law_the_first_occurrence_is_replaced(
    before: Seq<char>,
    pattern: Seq<char>,
    after: Seq<char>,
    with: Seq<char>,
)
    requires
        pattern.len() > 0,
        forall|at: int|
            0 <= at < before.len() ==> #[trigger] (before + pattern + after).subrange(
                at,
                at + pattern.len(),
            ) != pattern,
    ensures
        replaced(before + pattern + after, pattern, with) == before + with + replaced(
            after,
            pattern,
            with,
        ),
    decreases before.len(),
{
    let s = before + pattern + after;
    let n = pattern.len() as int;
    if before.len() == 0 {
        assert(s.take(n) =~= pattern);
        assert(s.skip(n) =~= after);
        assert(before + with + replaced(after, pattern, with) =~= with + replaced(
            after,
            pattern,
            with,
        ));
    } else {
        let rest = before.skip(1);
        assert(s.subrange(0, 0 + n) != pattern);
        assert(s.take(n) =~= s.subrange(0, 0 + n));
        assert(s.skip(1) =~= rest + pattern + after);
        assert forall|at: int| 0 <= at < rest.len() implies #[trigger] (rest + pattern
            + after).subrange(at, at + n) != pattern by {
            assert((rest + pattern + after).subrange(at, at + n) =~= s.subrange(
                at + 1,
                at + 1 + n,
            ));
        }
        law_the_first_occurrence_is_replaced(rest, pattern, after, with);
        assert(s.take(1) + (rest + with + replaced(after, pattern, with)) =~= before + with
            + replaced(after, pattern, with));
    }
}

/// A text in which a pattern does not stand is left as it is.
pub proof fn law_nothing_else_is_replaced(s: Seq<char>, pattern: Seq<char>, with: Seq<char>)
    requires
        !has_part(s, pattern),
    ensures
        replaced(s, pattern, with) == s,
    decreases s.len(),
{
    let n = pattern.len() as int;
    if n > 0 && s.len() >= n {
        assert(s.take(n) =~= s.subrange(0, 0 + n));
        assert(s.subrange(0, 0 + n) != pattern);
        let rest = s.skip(1);
        if has_part(rest, pattern) {
            let at = choose|at: int|
                0 <= at && at + n <= rest.len() && #[trigger] rest.subrange(at, at + n) == pattern;
            assert(s.subrange(at + 1, at + 1 + n) =~= rest.subrange(at, at + n));
        }
        law_nothing_else_is_replaced(rest, pattern, with);
        assert(s.take(1) + rest =~= s);
    }
}

/// To take trailing characters off leaves a text that does not end in one, and what was taken
/// off is nothing else.
pub proof fn law_trailing_characters_are_taken_off(s: Seq<char>, c: char)
    ensures
        ({
            let rest = without_trailing(s, c);
            &&& rest.len() <= s.len()
            &&& rest == s.take(rest.len() as int)
            &&& rest.len() > 0 ==> rest.last() != c
            &&& forall|i: int| rest.len() <= i < s.len() ==> #[trigger] s[i] == c
        }),
    decreases s.len(),
{
    if s.len() > 0 && s.last() == c {
        let before = s.drop_last();
        law_trailing_characters_are_taken_off(before, c);
        let rest = without_trailing(s, c);
        assert(before.take(rest.len() as int) =~= s.take(rest.len() as int));
        assert forall|i: int| rest.len() <= i < s.len() implies #[trigger] s[i] == c by {
            if i < before.len() {
                assert(before[i] == s[i]);
            }
        }
    } else {
        assert(s.take(s.len() as int) =~= s);
    }
}

/// The texts of a list are those of its items, in their order, and a text that may be missing
/// is missing just where it is.
pub proof fn law_the_texts_of_a_list_are_those_of_its_items(
    list: Seq<String>,
    i: int,
    item: Option<String>,
)
    requires
        0 <= i < list.len(),
    ensures
        views(list).len() == list.len(),
        views(list)[i] == list[i]@,
        opt_view(item) is Some <==> item is Some,
        item matches Some(text) ==> opt_view(item) == Some(text@),
{
}

/// To raise ASCII letters moves the small ones alone, and by 32 places.
pub proof fn law_raising_moves_small_letters_alone(s: Seq<char>, i: int)
    requires
        0 <= i < s.len(),
    ensures
        ascii_uppered(s).len() == s.len(),
        'a' <= s[i] <= 'z' ==> ascii_uppered(s)[i] as u32 + 32 == s[i] as u32,
        !('a' <= s[i] <= 'z') ==> ascii_uppered(s)[i] == s[i],
{
}

} // verus!
