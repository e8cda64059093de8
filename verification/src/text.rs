//! Text: the few rules on characters and names that the store needs.

use vstd::prelude::*;

verus! {

/// `String::push` appends one character.
pub assume_specification[ String::push ](s: &mut String, c: char)
    ensures
        final(s)@ == old(s)@.push(c),
;

/// Whether two texts hold the same characters.
pub fn text_eq(a: &str, b: &str) -> (r: bool)
    ensures
        r == (a@ == b@),
{
    let x = String::from_str(a);
    let y = String::from_str(b);
    x == y
}

/// The characters of a text.
pub fn chars_of(s: &str) -> (r: Vec<char>)
    ensures
        r@ == s@,
{
    let mut out: Vec<char> = Vec::new();
    let it = s.chars();
    for c in iter: it
        invariant
            out@ == iter.seq().take(iter.index()),
            iter.seq() == s@,
    {
        out.push(c);
    }
    out
}

/// The text made of the characters.
pub fn text_of(chars: &Vec<char>) -> (r: String)
    ensures
        r@ == chars@,
{
    let mut out = String::new();
    let mut i: usize = 0;
    while i < chars.len()
        invariant
            i <= chars.len(),
            out@ == chars@.take(i as int),
        decreases chars.len() - i,
    {
        out.push(chars[i]);
        assert(chars@.take(i as int).push(chars[i as int]) =~= chars@.take(i + 1));
        i += 1;
    }
    assert(chars@.take(chars.len() as int) =~= chars@);
    out
}

/// White space: the characters that Unicode gives the property of that
/// name.
pub open spec fn is_space(c: char) -> bool {
    let n = c as u32;
    ||| 0x09 <= n <= 0x0D
    ||| n == 0x20
    ||| n == 0x85
    ||| n == 0xA0
    ||| n == 0x1680
    ||| 0x2000 <= n <= 0x200A
    ||| n == 0x2028
    ||| n == 0x2029
    ||| n == 0x202F
    ||| n == 0x205F
    ||| n == 0x3000
}

/// Whether the character is white space.
pub fn is_space_char(c: char) -> (r: bool)
    ensures
        r == is_space(c),
{
    let n = c as u32;
    (0x09 <= n && n <= 0x0D) || n == 0x20 || n == 0x85 || n == 0xA0 || n == 0x1680 || (0x2000
        <= n && n <= 0x200A) || n == 0x2028 || n == 0x2029 || n == 0x202F || n == 0x205F || n
        == 0x3000
}

/// The text holds nothing but white space.
pub open spec fn is_blank(s: Seq<char>) -> bool {
    forall|i: int| 0 <= i < s.len() ==> is_space(#[trigger] s[i])
}

/// Whether the text holds nothing but white space.
pub fn is_blank_text(s: &str) -> (r: bool)
    ensures
        r == is_blank(s@),
{
    let chars = chars_of(s);
    let mut i: usize = 0;
    while i < chars.len()
        invariant
            i <= chars.len(),
            chars@ == s@,
            forall|j: int| 0 <= j < i ==> is_space(#[trigger] chars[j]),
        decreases chars.len() - i,
    {
        if !is_space_char(chars[i]) {
            return false;
        }
        i += 1;
    }
    true
}

/// The code of the character, with the capital letters A to Z taken as
/// small letters.
pub open spec fn folded(c: char) -> i64 {
    let n = c as u32;
    if 0x41 <= n <= 0x5A {
        (n + 32) as i64
    } else {
        n as i64
    }
}

/// The key by which names are sorted without regard to the case of the
/// letters A to Z.
pub open spec fn nocase_key(s: Seq<char>) -> Seq<i64> {
    Seq::new(s.len(), |i: int| folded(s[i]))
}

/// The key by which the name is sorted without regard to case.
pub fn nocase_key_of(s: &str) -> (r: Vec<i64>)
    ensures
        r@ == nocase_key(s@),
{
    let chars = chars_of(s);
    let mut out: Vec<i64> = Vec::new();
    let mut i: usize = 0;
    while i < chars.len()
        invariant
            i <= chars.len(),
            chars@ == s@,
            out.len() == i,
            forall|j: int| 0 <= j < i ==> #[trigger] out[j] == folded(chars[j]),
        decreases chars.len() - i,
    {
        let n = chars[i] as u32;
        let code: i64 = if 0x41 <= n && n <= 0x5A {
            (n + 32) as i64
        } else {
            n as i64
        };
        out.push(code);
        i += 1;
    }
    assert(out@ =~= nocase_key(s@));
    out
}

/// The key by which texts are sorted character by character.
pub open spec fn plain_key(s: Seq<char>) -> Seq<i64> {
    Seq::new(s.len(), |i: int| s[i] as u32 as i64)
}

/// The key by which the text is sorted character by character.
pub fn plain_key_of(s: &str) -> (r: Vec<i64>)
    ensures
        r@ == plain_key(s@),
{
    let chars = chars_of(s);
    let mut out: Vec<i64> = Vec::new();
    let mut i: usize = 0;
    while i < chars.len()
        invariant
            i <= chars.len(),
            chars@ == s@,
            out.len() == i,
            forall|j: int| 0 <= j < i ==> #[trigger] out[j] == chars[j] as u32 as i64,
        decreases chars.len() - i,
    {
        out.push(chars[i] as u32 as i64);
        i += 1;
    }
    assert(out@ =~= plain_key(s@));
    out
}

/// The key by which stamped rows are sorted with the latest first: the
/// stamp character by character in falling order, a longer stamp before
/// its own beginning, and of two rows with one stamp the one created
/// later first.
pub open spec fn latest_first_key(stamp: Seq<char>, id: i64) -> Seq<i64> {
    Seq::new(
        stamp.len() + 2,
        |i: int|
            if i < stamp.len() {
                (-(stamp[i] as u32 as i64) - 1) as i64
            } else if i == stamp.len() {
                0i64
            } else {
                (0 - id) as i64
            },
    )
}

/// The key by which the stamped row is sorted with the latest first.
pub fn latest_first_key_of(stamp: &str, id: i64) -> (r: Vec<i64>)
    requires
        0 < id,
    ensures
        r@ == latest_first_key(stamp@, id),
{
    let chars = chars_of(stamp);
    let mut out: Vec<i64> = Vec::new();
    let mut i: usize = 0;
    while i < chars.len()
        invariant
            i <= chars.len(),
            chars@ == stamp@,
            out.len() == i,
            forall|j: int|
                0 <= j < i ==> #[trigger] out[j] == (-(chars[j] as u32 as i64) - 1) as i64,
        decreases chars.len() - i,
    {
        out.push(-(chars[i] as u32 as i64) - 1);
        i += 1;
    }
    out.push(0);
    out.push(0 - id);
    assert(out@ =~= latest_first_key(stamp@, id));
    out
}

/// The text without the white space at its beginning.
pub open spec fn skip_spaces(s: Seq<char>) -> Seq<char>
    decreases s.len(),
{
    if s.len() > 0 && is_space(s[0]) {
        skip_spaces(s.drop_first())
    } else {
        s
    }
}

/// The text without the white space at its end.
pub open spec fn drop_spaces(s: Seq<char>) -> Seq<char>
    decreases s.len(),
{
    if s.len() > 0 && is_space(s.last()) {
        drop_spaces(s.drop_last())
    } else {
        s
    }
}

/// The text without the white space at its beginning and at its end.
pub open spec fn trimmed(s: Seq<char>) -> Seq<char> {
    drop_spaces(skip_spaces(s))
}

/// Skipping white space skips exactly the spaces before the first
/// character that is none.
pub proof fn lemma_skip_spaces(s: Seq<char>, a: int)
    requires
        0 <= a <= s.len(),
        forall|i: int| 0 <= i < a ==> is_space(#[trigger] s[i]),
        a < s.len() ==> !is_space(s[a]),
    ensures
        skip_spaces(s) == s.skip(a),
    decreases a,
{
    if a == 0 {
        assert(s.skip(0) =~= s);
    } else {
        let rest = s.drop_first();
        assert forall|i: int| 0 <= i < a - 1 implies is_space(#[trigger] rest[i]) by {
            assert(rest[i] == s[i + 1]);
        }
        lemma_skip_spaces(rest, a - 1);
        assert(rest.skip(a - 1) =~= s.skip(a));
    }
}

/// Dropping white space drops exactly the spaces behind the last
/// character that is none.
pub proof fn lemma_drop_spaces(s: Seq<char>, b: int)
    requires
        0 <= b <= s.len(),
        forall|i: int| b <= i < s.len() ==> is_space(#[trigger] s[i]),
        0 < b ==> !is_space(s[b - 1]),
    ensures
        drop_spaces(s) == s.take(b),
    decreases s.len() - b,
{
    if b == s.len() {
        assert(s.take(b) =~= s);
    } else {
        let rest = s.drop_last();
        assert forall|i: int| b <= i < rest.len() implies is_space(#[trigger] rest[i]) by {
            assert(rest[i] == s[i]);
        }
        lemma_drop_spaces(rest, b);
        assert(rest.take(b) =~= s.take(b));
    }
}

/// The characters without the white space at their beginning and end.
pub fn trim_chars(chars: &Vec<char>) -> (r: Vec<char>)
    ensures
        r@ == trimmed(chars@),
{
    let mut a: usize = 0;
    while a < chars.len() && is_space_char(chars[a])
        invariant
            a <= chars.len(),
            forall|i: int| 0 <= i < a ==> is_space(#[trigger] chars[i]),
        decreases chars.len() - a,
    {
        a += 1;
    }
    let mut b: usize = chars.len();
    while b > a && is_space_char(chars[b - 1])
        invariant
            a <= b <= chars.len(),
            forall|i: int| b <= i < chars.len() ==> is_space(#[trigger] chars[i]),
        decreases b,
    {
        b -= 1;
    }
    let mut out: Vec<char> = Vec::new();
    let mut i: usize = a;
    while i < b
        invariant
            a <= i <= b,
            b <= chars.len(),
            out@ == chars@.subrange(a as int, i as int),
        decreases b - i,
    {
        out.push(chars[i]);
        assert(chars@.subrange(a as int, i as int).push(chars[i as int]) =~= chars@.subrange(
            a as int,
            i + 1,
        ));
        i += 1;
    }
    proof {
        let s = chars@;
        lemma_skip_spaces(s, a as int);
        let t = s.skip(a as int);
        assert forall|i: int| b - a <= i < t.len() implies is_space(#[trigger] t[i]) by {
            assert(t[i] == s[i + a]);
        }
        if b > a {
            assert(t[b - a - 1] == s[b - 1]);
        }
        lemma_drop_spaces(t, b - a);
        assert(t.take(b - a) =~= s.subrange(a as int, b as int));
    }
    out
}

/// The characters that a file name must not hold.
pub open spec fn is_reserved(c: char) -> bool {
    c == '/' || c == '\\' || c == ':' || c == '*' || c == '?' || c == '"' || c == '<' || c == '>'
        || c == '|'
}

/// The character as it stands in a file name: an underscore in place of
/// a reserved character.
pub open spec fn tamed(c: char) -> char {
    if is_reserved(c) {
        '_'
    } else {
        c
    }
}

/// The name as it stands in a file name: trimmed, "Untitled" where
/// nothing is left, and with an underscore for every reserved character.
pub open spec fn sanitized(s: Seq<char>) -> Seq<char> {
    let t = trimmed(s);
    let named = if t.len() == 0 {
        "Untitled"@
    } else {
        t
    };
    Seq::new(named.len(), |i: int| tamed(named[i]))
}

/// The name as it stands in a file name.
pub fn sanitize_chars(name: &str) -> (r: Vec<char>)
    ensures
        r@ == sanitized(name@),
{
    let all = chars_of(name);
    let t = trim_chars(&all);
    let named = if t.len() == 0 {
        chars_of("Untitled")
    } else {
        t
    };
    let mut out: Vec<char> = Vec::new();
    let mut i: usize = 0;
    while i < named.len()
        invariant
            i <= named.len(),
            out.len() == i,
            forall|j: int| 0 <= j < i ==> #[trigger] out[j] == tamed(named[j]),
        decreases named.len() - i,
    {
        let c = named[i];
        let bad = c == '/' || c == '\\' || c == ':' || c == '*' || c == '?' || c == '"' || c == '<'
            || c == '>' || c == '|';
        out.push(
            if bad {
                '_'
            } else {
                c
            },
        );
        i += 1;
    }
    assert(out@ =~= sanitized(name@));
    out
}

/// The name as it stands in a file name.
pub fn sanitize(name: &str) -> (r: String)
    ensures
        r@ == sanitized(name@),
{
    let chars = sanitize_chars(name);
    text_of(&chars)
}

/// The digit that writes a number below ten.
pub open spec fn digit(d: nat) -> char {
    ((48 + d) as u8) as char
}

/// The number written in decimal digits.
pub open spec fn decimal(n: nat) -> Seq<char>
    decreases n,
{
    if n < 10 {
        seq![digit(n)]
    } else {
        decimal(n / 10).push(digit(n % 10))
    }
}

/// Appends the number, written in decimal digits.
pub fn push_decimal(out: &mut Vec<char>, n: usize)
    ensures
        final(out)@ == old(out)@ + decimal(n as nat),
    decreases n,
{
    if n >= 10 {
        push_decimal(out, n / 10);
    }
    let d = (n % 10) as u8;
    out.push((48 + d) as char);
    proof {
        if n >= 10 {
            assert(out@ =~= old(out)@ + decimal((n / 10) as nat).push(digit((n % 10) as nat)));
        } else {
            assert(out@ =~= old(out)@ + seq![digit(n as nat)]);
        }
    }
}

/// Appends the characters of the text.
pub fn push_text(out: &mut Vec<char>, s: &str)
    ensures
        final(out)@ == old(out)@ + s@,
{
    let chars = chars_of(s);
    push_chars(out, &chars);
}

/// Appends the characters.
pub fn push_chars(out: &mut Vec<char>, chars: &Vec<char>)
    ensures
        final(out)@ == old(out)@ + chars@,
{
    let mut i: usize = 0;
    while i < chars.len()
        invariant
            i <= chars.len(),
            out@ == old(out)@ + chars@.take(i as int),
        decreases chars.len() - i,
    {
        out.push(chars[i]);
        assert(out@ =~= old(out)@ + chars@.take(i + 1));
        i += 1;
    }
    assert(chars@.take(chars.len() as int) =~= chars@);
}

} // verus!
