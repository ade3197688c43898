use vstd::prelude::*;
use vstd::string::StrSliceExecFns;

verus! {

/// The value of a decimal digit character, or `-1` for any other character.
pub open spec fn spec_digit_val(c: char) -> int {
    if c == '0' {
        0
    } else if c == '1' {
        1
    } else if c == '2' {
        2
    } else if c == '3' {
        3
    } else if c == '4' {
        4
    } else if c == '5' {
        5
    } else if c == '6' {
        6
    } else if c == '7' {
        7
    } else if c == '8' {
        8
    } else if c == '9' {
        9
    } else {
        -1
    }
}

/// Whether the character is a decimal digit.
pub open spec fn is_digit_char(c: char) -> bool {
    spec_digit_val(c) >= 0
}

/// The value of a decimal digit character, or `None` for any other character.
pub fn digit_of(c: char) -> (r: Option<u8>)
    ensures
        r is Some <==> is_digit_char(c),
        r matches Some(v) ==> v == spec_digit_val(c) && v < 10,
{
    match c {
        '0' => Some(0),
        '1' => Some(1),
        '2' => Some(2),
        '3' => Some(3),
        '4' => Some(4),
        '5' => Some(5),
        '6' => Some(6),
        '7' => Some(7),
        '8' => Some(8),
        '9' => Some(9),
        _ => None,
    }
}

/// Whether the character has the Unicode `White_Space` property; this is
/// the class that trimming at the ends of the input uses.
pub open spec fn is_ws_char(c: char) -> bool {
    c == '\u{0009}' || c == '\u{000A}' || c == '\u{000B}' || c == '\u{000C}' || c == '\u{000D}'
        || c == ' ' || c == '\u{0085}' || c == '\u{00A0}' || c == '\u{1680}' || c == '\u{2000}'
        || c == '\u{2001}' || c == '\u{2002}' || c == '\u{2003}' || c == '\u{2004}' || c
        == '\u{2005}' || c == '\u{2006}' || c == '\u{2007}' || c == '\u{2008}' || c == '\u{2009}'
        || c == '\u{200A}' || c == '\u{2028}' || c == '\u{2029}' || c == '\u{202F}' || c
        == '\u{205F}' || c == '\u{3000}'
}

/// Whether the character has the Unicode `White_Space` property.
pub fn is_ws(c: char) -> (b: bool)
    ensures
        b == is_ws_char(c),
{
    match c {
        '\u{0009}' | '\u{000A}' | '\u{000B}' | '\u{000C}' | '\u{000D}' | ' ' | '\u{0085}'
            | '\u{00A0}' | '\u{1680}' | '\u{2000}' | '\u{2001}' | '\u{2002}' | '\u{2003}'
            | '\u{2004}' | '\u{2005}' | '\u{2006}' | '\u{2007}' | '\u{2008}' | '\u{2009}'
            | '\u{200A}' | '\u{2028}' | '\u{2029}' | '\u{202F}' | '\u{205F}' | '\u{3000}' => true,
        _ => false,
    }
}

/// Whether the character may separate a number from its unit tag, or one
/// time-span from the next: a space or a tab.
pub open spec fn is_sep_char(c: char) -> bool {
    c == ' ' || c == '\u{0009}'
}

/// Whether the character is a space or a tab.
pub fn is_sep(c: char) -> (b: bool)
    ensures
        b == is_sep_char(c),
{
    c == ' ' || c == '\u{0009}'
}

/// The input without its leading whitespace.
pub open spec fn trim_start(s: Seq<char>) -> Seq<char>
    decreases s.len(),
{
    if s.len() > 0 && is_ws_char(s[0]) {
        trim_start(s.skip(1))
    } else {
        s
    }
}

/// The input without its trailing whitespace.
pub open spec fn trim_end(s: Seq<char>) -> Seq<char>
    decreases s.len(),
{
    if s.len() > 0 && is_ws_char(s.last()) {
        trim_end(s.drop_last())
    } else {
        s
    }
}

/// The input without leading and trailing whitespace.
pub open spec fn spec_trim(s: Seq<char>) -> Seq<char> {
    trim_end(trim_start(s))
}

/// The trimmed input is empty exactly when every character is whitespace.
pub proof fn lemma_trim_empty(s: Seq<char>)
    ensures
        (spec_trim(s).len() == 0) <==> (forall|i: int| 0 <= i < s.len() ==> is_ws_char(s[i])),
    decreases s.len(),
{
    if s.len() == 0 {
    } else if is_ws_char(s[0]) {
        lemma_trim_empty(s.skip(1));
        assert(forall|i: int| 0 <= i < s.skip(1).len() ==> s.skip(1)[i] == s[i + 1]);
        if spec_trim(s).len() == 0 {
            assert forall|i: int| 0 <= i < s.len() implies is_ws_char(s[i]) by {
                if i > 0 {
                    assert(is_ws_char(s.skip(1)[i - 1]));
                }
            }
        } else {
            if forall|i: int| 0 <= i < s.len() ==> is_ws_char(s[i]) {
                assert forall|i: int| 0 <= i < s.skip(1).len() implies is_ws_char(
                    s.skip(1)[i],
                ) by {
                    assert(is_ws_char(s[i + 1]));
                }
                assert(false);
            }
        }
    } else {
        // the head survives trimming
        let t = trim_start(s);
        assert(t == s);
        lemma_trim_end_head(s);
        assert(spec_trim(s).len() > 0);
        assert(!(forall|i: int| 0 <= i < s.len() ==> is_ws_char(s[i]))) by {
            assert(0 < s.len() && !is_ws_char(s[0]));
        }
    }
}

/// Trimming at the end keeps a non-whitespace head character.
proof fn lemma_trim_end_head(s: Seq<char>)
    requires
        s.len() > 0,
        !is_ws_char(s[0]),
    ensures
        trim_end(s).len() > 0,
        trim_end(s)[0] == s[0],
    decreases s.len(),
{
    if is_ws_char(s.last()) {
        lemma_trim_end_head(s.drop_last());
    }
}

/// The number of leading decimal digits.
pub open spec fn digits_prefix_len(s: Seq<char>) -> nat
    decreases s.len(),
{
    if s.len() > 0 && is_digit_char(s[0]) {
        (1 + digits_prefix_len(s.skip(1))) as nat
    } else {
        0
    }
}

/// The number of leading space or tab characters.
pub open spec fn sep_prefix_len(s: Seq<char>) -> nat
    decreases s.len(),
{
    if s.len() > 0 && is_sep_char(s[0]) {
        (1 + sep_prefix_len(s.skip(1))) as nat
    } else {
        0
    }
}

/// What the digit-prefix length says about the characters themselves.
pub proof fn lemma_digits_prefix(s: Seq<char>)
    ensures
        digits_prefix_len(s) <= s.len(),
        forall|i: int| 0 <= i < digits_prefix_len(s) ==> is_digit_char(s[i]),
        digits_prefix_len(s) < s.len() ==> !is_digit_char(s[digits_prefix_len(s) as int]),
    decreases s.len(),
{
    if s.len() > 0 && is_digit_char(s[0]) {
        lemma_digits_prefix(s.skip(1));
        assert(forall|i: int| 0 <= i < s.skip(1).len() ==> s.skip(1)[i] == s[i + 1]);
        assert forall|i: int| 0 <= i < digits_prefix_len(s) implies is_digit_char(s[i]) by {
            if i > 0 {
                assert(is_digit_char(s.skip(1)[i - 1]));
            }
        }
    }
}

/// What the separator-prefix length says about the characters themselves.
pub proof fn lemma_sep_prefix(s: Seq<char>)
    ensures
        sep_prefix_len(s) <= s.len(),
        forall|i: int| 0 <= i < sep_prefix_len(s) ==> is_sep_char(s[i]),
        sep_prefix_len(s) < s.len() ==> !is_sep_char(s[sep_prefix_len(s) as int]),
    decreases s.len(),
{
    if s.len() > 0 && is_sep_char(s[0]) {
        lemma_sep_prefix(s.skip(1));
        assert(forall|i: int| 0 <= i < s.skip(1).len() ==> s.skip(1)[i] == s[i + 1]);
        assert forall|i: int| 0 <= i < sep_prefix_len(s) implies is_sep_char(s[i]) by {
            if i > 0 {
                assert(is_sep_char(s.skip(1)[i - 1]));
            }
        }
    }
}

/// The character positions the trimmed input occupies within the input:
/// the trimmed text is exactly `s@.subrange(start, end)`.
pub fn trim_range(s: &str, len: usize) -> (r: (usize, usize))
    requires
        len == s@.len(),
    ensures
        r.0 <= r.1 <= len,
        s@.subrange(r.0 as int, r.1 as int) == spec_trim(s@),
{
    let mut start: usize = 0;
    assert(s@.skip(0) =~= s@);
    while start < len && is_ws(s.get_char(start))
        invariant
            start <= len,
            len == s@.len(),
            trim_start(s@) == trim_start(s@.skip(start as int)),
        decreases len - start,
    {
        assert(s@.skip(start as int).skip(1) =~= s@.skip(start as int + 1));
        start = start + 1;
    }
    assert(trim_start(s@) == s@.skip(start as int));
    let mut end: usize = len;
    while end > start && is_ws(s.get_char(end - 1))
        invariant
            start <= end <= len,
            len == s@.len(),
            trim_start(s@) == s@.skip(start as int),
            trim_end(s@.skip(start as int)) == trim_end(s@.subrange(start as int, end as int)),
        decreases end,
    {
        assert(s@.subrange(start as int, end as int).drop_last() =~= s@.subrange(
            start as int,
            end as int - 1,
        ));
        assert(s@.subrange(start as int, end as int).last() == s@[end - 1]);
        end = end - 1;
    }
    assert(s@.skip(start as int) =~= s@.subrange(start as int, len as int));
    assert(trim_end(s@.subrange(start as int, end as int)) == s@.subrange(
        start as int,
        end as int,
    ));
    (start, end)
}

/// Whether every character from the given position on is whitespace.
pub fn all_ws_from(s: &str, len: usize, pos: usize) -> (b: bool)
    requires
        len == s@.len(),
        pos <= len,
    ensures
        b == (forall|i: int| pos <= i < len ==> is_ws_char(s@[i])),
{
    let mut i = pos;
    while i < len
        invariant
            pos <= i <= len,
            len == s@.len(),
            forall|j: int| pos <= j < i ==> is_ws_char(s@[j]),
        decreases len - i,
    {
        if !is_ws(s.get_char(i)) {
            return false;
        }
        i = i + 1;
    }
    true
}

/// Counts the space and tab characters at the given position.
pub fn scan_seps(s: &str, len: usize, pos: usize) -> (n: usize)
    requires
        len == s@.len(),
        pos <= len,
    ensures
        n == sep_prefix_len(s@.skip(pos as int)),
        pos + n <= len,
    {
    let mut i = pos;
    while i < len && is_sep(s.get_char(i))
        invariant
            pos <= i <= len,
            len == s@.len(),
            sep_prefix_len(s@.skip(pos as int)) == i - pos + sep_prefix_len(s@.skip(i as int)),
        decreases len - i,
    {
        assert(s@.skip(i as int).skip(1) =~= s@.skip(i as int + 1));
        i = i + 1;
    }
    assert(sep_prefix_len(s@.skip(i as int)) == 0);
    i - pos
}

/// Whether the text at the given position starts with the given tag.
pub open spec fn tag_match(s: Seq<char>, t: Seq<char>) -> bool {
    t.len() <= s.len() && s.subrange(0, t.len() as int) == t
}

/// Whether the text at `pos` starts with the tag.
pub fn starts_with_at(s: &str, len: usize, pos: usize, tag: &str) -> (b: bool)
    requires
        len == s@.len(),
        pos <= len,
    ensures
        b == tag_match(s@.skip(pos as int), tag@),
{
    let n = tag.unicode_len();
    if n > len - pos {
        return false;
    }
    let mut j: usize = 0;
    while j < n
        invariant
            0 <= j <= n,
            len == s@.len(),
            pos + n <= len,
            n == tag@.len(),
            forall|k: int| 0 <= k < j ==> s@[pos + k] == tag@[k],
        decreases n - j,
    {
        if s.get_char(pos + j) != tag.get_char(j) {
            assert(s@.skip(pos as int)[j as int] != tag@[j as int]);
            assert(!tag_match(s@.skip(pos as int), tag@)) by {
                if tag_match(s@.skip(pos as int), tag@) {
                    assert(s@.skip(pos as int).subrange(0, tag@.len() as int)[j as int]
                        == tag@[j as int]);
                }
            }
            return false;
        }
        j = j + 1;
    }
    assert(s@.skip(pos as int).subrange(0, n as int) =~= tag@);
    true
}

} // verus!
