//! Text as sequences of characters: building it, taking it apart, ordering it.

use vstd::prelude::*;
use vstd::utf8::encode_utf8;
use vstd::string::*;

use crate::decimal;

verus! {

/// Appends one character, as `String::push` documents.
pub assume_specification[ std::string::String::push ](s: &mut std::string::String, c: char)
    ensures
        final(s)@ == old(s)@.push(c),
;

/// The characters of a text.
pub fn characters(text: &str) -> (chars: Vec<char>)
    ensures
        chars@ == text@,
{
    let mut chars: Vec<char> = Vec::new();
    for c in iter: text.chars()
        invariant
            chars@ =~= text@.take(iter.index()),
            iter.seq() == text@,
    {
        chars.push(c);
    }
    chars
}

/// The text made of the given characters.
pub fn text_of(chars: &[char]) -> (text: String)
    ensures
        text@ == chars@,
{
    let mut text = String::new();
    let mut i: usize = 0;
    while i < chars.len()
        invariant
            i <= chars@.len(),
            text@ == chars@.take(i as int),
        decreases chars@.len() - i,
    {
        text.push(chars[i]);
        i += 1;
    }
    assert(chars@.take(chars@.len() as int) =~= chars@);
    text
}

/// A whole number in decimal digits: at least one, no leading zeros.
pub open spec fn number_text(n: nat) -> Seq<char> {
    if n == 0 {
        seq!['0']
    } else {
        decimal::digits(n)
    }
}

/// A whole number in at least `width` decimal digits.
pub open spec fn padded_number_text(n: nat, width: nat) -> Seq<char> {
    let ds = number_text(n);
    if ds.len() < width {
        decimal::zeros((width - ds.len()) as nat) + ds
    } else {
        ds
    }
}

/// The character for a digit.
pub fn digit_char(n: u8) -> (c: char)
    requires
        n < 10,
    ensures
        c == decimal::digit(n as nat),
{
    (48u8 + n) as char
}

/// Appends the digits of a number; none for zero.
fn push_digits(out: &mut Vec<char>, n: u128)
    ensures
        final(out)@ == old(out)@ + decimal::digits(n as nat),
    decreases n,
{
    if n > 0 {
        push_digits(out, n / 10);
        out.push(digit_char((n % 10) as u8));
        assert(out@ =~= old(out)@ + decimal::digits(n as nat));
    } else {
        assert(out@ =~= old(out)@ + decimal::digits(n as nat));
    }
}

/// A whole number in decimal digits.
pub fn number_chars(n: u128) -> (chars: Vec<char>)
    ensures
        chars@ == number_text(n as nat),
{
    let mut out: Vec<char> = Vec::new();
    if n == 0 {
        out.push('0');
        assert(out@ =~= seq!['0']);
    } else {
        push_digits(&mut out, n);
        assert(out@ =~= decimal::digits(n as nat));
    }
    out
}

/// A whole number in at least `width` decimal digits.
pub fn padded_number_chars(n: u128, width: usize) -> (chars: Vec<char>)
    ensures
        chars@ == padded_number_text(n as nat, width as nat),
{
    let ds = number_chars(n);
    if ds.len() >= width {
        return ds;
    }
    let missing: usize = width - ds.len();
    let mut out: Vec<char> = Vec::new();
    let mut i: usize = 0;
    while i < missing
        invariant
            i <= missing,
            out@ == decimal::zeros(i as nat),
        decreases missing - i,
    {
        out.push('0');
        i += 1;
        assert(out@ =~= decimal::zeros(i as nat));
    }
    push_all(&mut out, &ds);
    out
}

/// Appends characters to characters.
pub fn push_all(out: &mut Vec<char>, more: &[char])
    ensures
        final(out)@ == old(out)@ + more@,
{
    let mut i: usize = 0;
    while i < more.len()
        invariant
            i <= more@.len(),
            out@ == old(out)@ + more@.take(i as int),
        decreases more@.len() - i,
    {
        out.push(more[i]);
        i += 1;
        assert(out@ =~= old(out)@ + more@.take(i as int));
    }
    assert(more@.take(more@.len() as int) =~= more@);
}

/// Appends a text to characters.
pub fn push_text(out: &mut Vec<char>, text: &str)
    ensures
        final(out)@ == old(out)@ + text@,
{
    let chars = characters(text);
    push_all(out, &chars);
}

/// Whether the two texts hold the same characters.
pub fn same_text(a: &str, b: &str) -> (same: bool)
    ensures
        same == (a@ == b@),
{
    let a = characters(a);
    let b = characters(b);
    same_chars(&a, &b)
}

/// Whether the two hold the same characters.
pub fn same_chars(a: &[char], b: &[char]) -> (same: bool)
    ensures
        same == (a@ == b@),
{
    if a.len() != b.len() {
        return false;
    }
    let mut i: usize = 0;
    while i < a.len()
        invariant
            a@.len() == b@.len(),
            i <= a@.len(),
            forall|k: int| 0 <= k < i ==> a@[k] == b@[k],
        decreases a@.len() - i,
    {
        if a[i] != b[i] {
            return false;
        }
        i += 1;
    }
    assert(a@ =~= b@);
    true
}

/// Whether `a` comes before `b` in a dictionary ordered by code point, a text
/// coming before what it is a beginning of.
pub open spec fn text_before(a: Seq<char>, b: Seq<char>) -> bool
    decreases b.len(),
{
    if b.len() == 0 {
        false
    } else if a.len() == 0 {
        true
    } else if a[0] != b[0] {
        (a[0] as int) < (b[0] as int)
    } else {
        text_before(a.drop_first(), b.drop_first())
    }
}

/// Whether `a` comes before `b` in dictionary order.
pub fn chars_before(a: &[char], b: &[char]) -> (before: bool)
    ensures
        before == text_before(a@, b@),
{
    let mut i: usize = 0;
    assert(a@.skip(0) =~= a@);
    assert(b@.skip(0) =~= b@);
    while i < a.len() && i < b.len()
        invariant
            i <= a@.len(),
            i <= b@.len(),
            text_before(a@, b@) == text_before(a@.skip(i as int), b@.skip(i as int)),
        decreases a@.len() - i,
    {
        assert(a@.skip(i as int)[0] == a@[i as int]);
        assert(b@.skip(i as int)[0] == b@[i as int]);
        let x: char = a[i];
        let y: char = b[i];
        if x != y {
            return x < y;
        }
        assert(a@.skip(i as int).drop_first() =~= a@.skip(i + 1));
        assert(b@.skip(i as int).drop_first() =~= b@.skip(i + 1));
        i += 1;
    }
    i < b.len()
}

/// Whether `a` comes before `b` in dictionary order.
pub fn string_before(a: &str, b: &str) -> (before: bool)
    ensures
        before == text_before(a@, b@),
{
    let a = characters(a);
    let b = characters(b);
    chars_before(&a, &b)
}

/// No text comes before itself.
pub proof fn lemma_text_before_irreflexive(a: Seq<char>)
    ensures
        !text_before(a, a),
    decreases a.len(),
{
    if a.len() > 0 {
        lemma_text_before_irreflexive(a.drop_first());
    }
}

/// Of two different texts one comes before the other.
pub proof fn lemma_text_before_total(a: Seq<char>, b: Seq<char>)
    ensures
        text_before(a, b) || text_before(b, a) || a == b,
    decreases a.len(),
{
    if a.len() == 0 || b.len() == 0 {
        assert(a.len() == 0 && b.len() == 0 ==> a =~= b);
    } else if a[0] == b[0] {
        lemma_text_before_total(a.drop_first(), b.drop_first());
        if a.drop_first() == b.drop_first() {
            assert(a =~= seq![a[0]] + a.drop_first());
            assert(b =~= seq![b[0]] + b.drop_first());
        }
    }
}

/// What comes before a text comes before everything after that text.
pub proof fn lemma_text_before_transitive(a: Seq<char>, b: Seq<char>, c: Seq<char>)
    requires
        text_before(a, b),
        text_before(b, c),
    ensures
        text_before(a, c),
    decreases a.len(),
{
    if a.len() > 0 && a[0] == b[0] && b[0] == c[0] {
        lemma_text_before_transitive(a.drop_first(), b.drop_first(), c.drop_first());
    }
}

/// What two texts begin with alike does not count.
pub proof fn lemma_common_beginning(p: Seq<char>, a: Seq<char>, b: Seq<char>)
    ensures
        text_before(p + a, p + b) == text_before(a, b),
    decreases p.len(),
{
    if p.len() == 0 {
        assert(p + a =~= a);
        assert(p + b =~= b);
    } else {
        assert((p + a).drop_first() =~= p.drop_first() + a);
        assert((p + b).drop_first() =~= p.drop_first() + b);
        lemma_common_beginning(p.drop_first(), a, b);
    }
}

/// What follows texts of one length does not count, once they differ.
pub proof fn lemma_beginning_decides(a: Seq<char>, b: Seq<char>, s: Seq<char>, t: Seq<char>)
    requires
        text_before(a, b),
        a.len() == b.len(),
    ensures
        text_before(a + s, b + t),
    decreases a.len(),
{
    assert((a + s)[0] == a[0]);
    assert((b + t)[0] == b[0]);
    if a[0] == b[0] {
        assert((a + s).drop_first() =~= a.drop_first() + s);
        assert((b + t).drop_first() =~= b.drop_first() + t);
        lemma_beginning_decides(a.drop_first(), b.drop_first(), s, t);
    }
}

/// The last so many decimal digits of a number.
spec fn fixed_digits(n: nat, width: nat) -> Seq<char>
    decreases width,
{
    if width == 0 {
        Seq::empty()
    } else {
        fixed_digits(n / 10, (width - 1) as nat).push(decimal::digit(n % 10))
    }
}

proof fn lemma_fixed_digits(n: nat, width: nat)
    requires
        n < decimal::pow10(width),
    ensures
        decimal::digits(n).len() <= width,
        decimal::zeros((width - decimal::digits(n).len()) as nat) + decimal::digits(n)
            == fixed_digits(n, width),
        fixed_digits(n, width).len() == width,
    decreases width,
{
    if width > 0 {
        lemma_fixed_digits(n / 10, (width - 1) as nat);
    }
    assert(decimal::zeros((width - decimal::digits(n).len()) as nat) + decimal::digits(n)
        =~= fixed_digits(n, width));
}

/// A number that fits in so many digits is written with just as many, and all of
/// its characters are digits.
pub proof fn lemma_padded_width(n: nat, width: nat)
    requires
        width > 0,
        n < decimal::pow10(width),
    ensures
        padded_number_text(n, width).len() == width,
        forall|i: int|
            0 <= i < width ==> '0' <= #[trigger] padded_number_text(n, width)[i]
                && padded_number_text(n, width)[i] <= '9',
{
    lemma_padded_is_fixed(n, width);
    lemma_fixed_are_digits(n, width);
    lemma_fixed_digits(n, width);
}

proof fn lemma_fixed_are_digits(n: nat, width: nat)
    ensures
        fixed_digits(n, width).len() == width,
        forall|i: int|
            0 <= i < width ==> '0' <= #[trigger] fixed_digits(n, width)[i] && fixed_digits(
                n,
                width,
            )[i] <= '9',
    decreases width,
{
    if width > 0 {
        lemma_fixed_are_digits(n / 10, (width - 1) as nat);
    }
}

proof fn lemma_padded_is_fixed(n: nat, width: nat)
    requires
        width > 0,
        n < decimal::pow10(width),
    ensures
        padded_number_text(n, width) == fixed_digits(n, width),
{
    lemma_fixed_digits(n, width);
    assert(padded_number_text(n, width) =~= decimal::zeros(
        (width - decimal::digits(n).len()) as nat,
    ) + decimal::digits(n));
}

proof fn lemma_fixed_in_order(a: nat, b: nat, width: nat)
    requires
        a < b < decimal::pow10(width),
    ensures
        text_before(fixed_digits(a, width), fixed_digits(b, width)),
        fixed_digits(a, width).len() == fixed_digits(b, width).len(),
    decreases width,
{
    if width > 0 {
        let x = fixed_digits(a / 10, (width - 1) as nat);
        let y = fixed_digits(b / 10, (width - 1) as nat);
        let c = seq![decimal::digit(a % 10)];
        let d = seq![decimal::digit(b % 10)];
        assert(fixed_digits(a, width) =~= x + c);
        assert(fixed_digits(b, width) =~= y + d);
        if a / 10 < b / 10 {
            lemma_fixed_in_order(a / 10, b / 10, (width - 1) as nat);
            lemma_beginning_decides(x, y, c, d);
        } else {
            lemma_common_beginning(x, c, d);
        }
    }
}

/// Numbers written with as many digits are in the order of a dictionary.
pub proof fn lemma_padded_in_order(a: nat, b: nat, width: nat)
    requires
        width > 0,
        a < b < decimal::pow10(width),
    ensures
        text_before(padded_number_text(a, width), padded_number_text(b, width)),
{
    lemma_padded_is_fixed(a, width);
    lemma_padded_is_fixed(b, width);
    lemma_fixed_in_order(a, b, width);
}

/// Whether a text begins with another.
pub open spec fn begins(s: Seq<char>, with: Seq<char>) -> bool {
    with.len() <= s.len() && s.take(with.len() as int) == with
}

/// Whether a text ends with another.
pub open spec fn ends(s: Seq<char>, with: Seq<char>) -> bool {
    with.len() <= s.len() && s.skip(s.len() - with.len()) == with
}

/// Whether a text occurs in another at a place.
pub open spec fn occurs_at(s: Seq<char>, needle: Seq<char>, i: int) -> bool {
    0 <= i <= s.len() - needle.len() && s.subrange(i, i + needle.len()) == needle
}

/// Whether a text occurs in another.
pub open spec fn occurs(s: Seq<char>, needle: Seq<char>) -> bool {
    exists|i: int| #[trigger] occurs_at(s, needle, i)
}

/// A text without the given character at its start.
pub open spec fn trim_front(s: Seq<char>, c: char) -> Seq<char>
    decreases s.len(),
{
    if s.len() > 0 && s[0] == c {
        trim_front(s.drop_first(), c)
    } else {
        s
    }
}

/// A text without the given character at its end.
pub open spec fn trim_back(s: Seq<char>, c: char) -> Seq<char>
    decreases s.len(),
{
    if s.len() > 0 && s.last() == c {
        trim_back(s.drop_last(), c)
    } else {
        s
    }
}

/// A text without the given character at either end.
pub open spec fn trimmed(s: Seq<char>, c: char) -> Seq<char> {
    trim_back(trim_front(s, c), c)
}

/// The characters from one place up to another.
pub fn part_of(chars: &[char], from: usize, to: usize) -> (part: Vec<char>)
    requires
        from <= to <= chars@.len(),
    ensures
        part@ == chars@.subrange(from as int, to as int),
{
    let mut out: Vec<char> = Vec::new();
    let mut i: usize = from;
    while i < to
        invariant
            from <= i <= to <= chars@.len(),
            out@ == chars@.subrange(from as int, i as int),
        decreases to - i,
    {
        out.push(chars[i]);
        i += 1;
        assert(out@ =~= chars@.subrange(from as int, i as int));
    }
    out
}

/// Whether a text occurs in another at a place.
pub fn found_at(chars: &[char], needle: &[char], at: usize) -> (b: bool)
    ensures
        b == occurs_at(chars@, needle@, at as int),
{
    if needle.len() > chars.len() || at > chars.len() - needle.len() {
        return false;
    }
    let length: usize = chars.len();
    let mut i: usize = 0;
    while i < needle.len()
        invariant
            i <= needle@.len(),
            length == chars@.len(),
            at + needle@.len() <= length,
            forall|k: int| 0 <= k < i ==> chars@[at + k] == #[trigger] needle@[k],
        decreases needle@.len() - i,
    {
        if chars[at + i] != needle[i] {
            assert(chars@.subrange(at as int, at + needle@.len())[i as int] != needle@[i as int]);
            return false;
        }
        i += 1;
    }
    assert(chars@.subrange(at as int, at + needle@.len()) =~= needle@);
    true
}

/// Whether a text begins with another.
pub fn begins_with(chars: &[char], with: &[char]) -> (b: bool)
    ensures
        b == begins(chars@, with@),
{
    proof {
        if with@.len() <= chars@.len() {
            assert(chars@.subrange(0, with@.len() as int) =~= chars@.take(with@.len() as int));
        }
    }
    found_at(chars, with, 0)
}

/// Whether a text ends with another.
pub fn ends_with(chars: &[char], with: &[char]) -> (b: bool)
    ensures
        b == ends(chars@, with@),
{
    if with.len() > chars.len() {
        return false;
    }
    proof {
        let at = chars@.len() - with@.len();
        assert(chars@.subrange(at, at + with@.len()) =~= chars@.skip(at));
    }
    found_at(chars, with, chars.len() - with.len())
}

/// Whether a text occurs in another.
pub fn contains_text(s: &str, needle: &str) -> (b: bool)
    ensures
        b == occurs(s@, needle@),
{
    let chars = characters(s);
    let wanted = characters(needle);
    if wanted.len() > chars.len() {
        return false;
    }
    let last: usize = chars.len() - wanted.len();
    let mut i: usize = 0;
    while i <= last
        invariant
            last == chars@.len() - wanted@.len(),
            i <= last + 1,
            chars@ == s@,
            wanted@ == needle@,
            forall|k: int| 0 <= k < i ==> !#[trigger] occurs_at(chars@, wanted@, k),
        decreases last + 1 - i,
    {
        if found_at(&chars, &wanted, i) {
            assert(occurs_at(s@, needle@, i as int));
            return true;
        }
        if i == last {
            return false;
        }
        i += 1;
    }
    false
}

/// Whether a text begins with another.
pub fn text_begins(s: &str, with: &str) -> (b: bool)
    ensures
        b == begins(s@, with@),
{
    let chars = characters(s);
    let start = characters(with);
    begins_with(&chars, &start)
}

/// Whether a text ends with another.
pub fn text_ends(s: &str, with: &str) -> (b: bool)
    ensures
        b == ends(s@, with@),
{
    let chars = characters(s);
    let end = characters(with);
    ends_with(&chars, &end)
}

/// A text without the given character at its start.
pub fn without_front(chars: &[char], c: char) -> (r: Vec<char>)
    ensures
        r@ == trim_front(chars@, c),
{
    let mut i: usize = 0;
    assert(chars@.skip(0) =~= chars@);
    while i < chars.len() && chars[i] == c
        invariant
            i <= chars@.len(),
            trim_front(chars@, c) == trim_front(chars@.skip(i as int), c),
        decreases chars@.len() - i,
    {
        assert(chars@.skip(i as int).drop_first() =~= chars@.skip(i + 1));
        i += 1;
    }
    assert(chars@.subrange(i as int, chars@.len() as int) =~= chars@.skip(i as int));
    part_of(chars, i, chars.len())
}

/// A text without the given character at either end.
pub fn without_ends(chars: &[char], c: char) -> (r: Vec<char>)
    ensures
        r@ == trimmed(chars@, c),
{
    let mut out = without_front(chars, c);
    let ghost start = out@;
    while out.len() > 0 && out[out.len() - 1] == c
        invariant
            trim_back(start, c) == trim_back(out@, c),
        decreases out@.len(),
    {
        let ghost before = out@;
        let _ = out.pop();
        assert(out@ =~= before.drop_last());
    }
    out
}

/// Where a character first stands in a text; its length if nowhere.
pub fn first_place(chars: &[char], c: char) -> (i: usize)
    ensures
        i <= chars@.len(),
        i < chars@.len() ==> chars@[i as int] == c,
        forall|k: int| 0 <= k < i ==> #[trigger] chars@[k] != c,
{
    let mut i: usize = 0;
    while i < chars.len() && chars[i] != c
        invariant
            i <= chars@.len(),
            forall|k: int| 0 <= k < i ==> #[trigger] chars@[k] != c,
        decreases chars@.len() - i,
    {
        i += 1;
    }
    i
}

/// Whether a character is a letter or digit of ASCII.
pub open spec fn is_alphanumeric(c: char) -> bool {
    ('0' <= c && c <= '9') || ('a' <= c && c <= 'z') || ('A' <= c && c <= 'Z')
}

/// Whether a character is a letter or digit of ASCII.
pub fn alphanumeric(c: char) -> (b: bool)
    ensures
        b == is_alphanumeric(c),
{
    ('0' <= c && c <= '9') || ('a' <= c && c <= 'z') || ('A' <= c && c <= 'Z')
}

/// A text in quotes, as std writes it for a programmer.
pub uninterp spec fn quoted_text(s: Seq<char>) -> Seq<char>;

/// Whether a text holds nothing but letters and digits of ASCII and the signs
/// that keys are made of.
pub open spec fn is_plain(s: Seq<char>) -> bool {
    forall|i: int|
        0 <= i < s.len() ==> is_alphanumeric(#[trigger] s[i]) || s[i] == '-' || s[i] == '_' || s[i]
            == '.' || s[i] == '/' || s[i] == '='
}

/// `Debug` of `str`, through `format!` with `{:?}`: the text in double quotes,
/// with its quotes, backslashes and unprintable characters escaped. A plain text
/// has nothing to escape.
#[verifier::external_body]
pub(crate) fn quoted(s: &str) -> (r: String)
    ensures
        r@ == quoted_text(s@),
        is_plain(s@) ==> r@ == seq!['"'] + s@ + seq!['"'],
{
    format!("{:?}", s)
}

/// A directory and a name below it, as one path: a separator goes between them
/// unless the directory is empty or ends with one.
pub open spec fn joined(dir: Seq<char>, name: Seq<char>) -> Seq<char> {
    if dir.len() == 0 || dir.last() == '/' {
        dir + name
    } else {
        dir.push('/') + name
    }
}

/// A directory and a name below it, as one path.
pub fn join(dir: &str, name: &str) -> (path: String)
    ensures
        path@ == joined(dir@, name@),
{
    let mut out = characters(dir);
    if out.len() > 0 && out[out.len() - 1] != '/' {
        out.push('/');
    }
    push_text(&mut out, name);
    text_of(&out)
}

/// A text's bytes.
pub fn bytes_of(text: &str) -> (r: Vec<u8>)
    ensures
        r@ == encode_utf8(text@),
{
    let bytes = text.as_bytes();
    let mut out: Vec<u8> = Vec::new();
    let mut i: usize = 0;
    while i < bytes.len()
        invariant
            i <= bytes@.len(),
            out@ == bytes@.take(i as int),
        decreases bytes@.len() - i,
    {
        out.push(bytes[i]);
        i += 1;
        assert(out@ =~= bytes@.take(i as int));
    }
    assert(bytes@.take(bytes@.len() as int) =~= bytes@);
    out
}

/// Texts by their characters.
pub open spec fn views(texts: Seq<String>) -> Seq<Seq<char>> {
    texts.map_values(|t: String| t@)
}

/// Whether texts are in dictionary order, one allowed to occur again.
pub open spec fn sorted(texts: Seq<Seq<char>>) -> bool {
    forall|i: int, j: int|
        0 <= i < j < texts.len() ==> !text_before(#[trigger] texts[j], #[trigger] texts[i])
}

/// Puts a text where it belongs among sorted ones.
fn insert_sorted(texts: &mut Vec<String>, t: String)
    requires
        sorted(views(old(texts)@)),
    ensures
        sorted(views(final(texts)@)),
        views(final(texts)@).to_multiset() == views(old(texts)@).to_multiset().insert(t@),
{
    let ghost before = views(texts@);
    let ghost key = t@;
    let mut i: usize = 0;
    while i < texts.len() && !string_before(t.as_str(), texts[i].as_str())
        invariant
            i <= texts@.len(),
            views(texts@) == before,
            key == t@,
            forall|k: int| 0 <= k < i ==> !text_before(key, #[trigger] before[k]),
        decreases texts@.len() - i,
    {
        assert(before[i as int] == texts@[i as int]@);
        i += 1;
    }
    proof {
        if i < texts@.len() {
            assert(before[i as int] == texts@[i as int]@);
            assert forall|k: int| i <= k < before.len() implies !text_before(
                #[trigger] before[k],
                key,
            ) by {
                if text_before(before[k], key) {
                    if i < k {
                        lemma_text_before_transitive(before[k], key, before[i as int]);
                    } else {
                        lemma_text_before_transitive(key, before[k], key);
                        lemma_text_before_irreflexive(key);
                    }
                }
            }
        }
    }
    texts.insert(i, t);
    proof {
        let after = views(texts@);
        assert(after =~= before.insert(i as int, key));
        assert forall|a: int, b: int| 0 <= a < b < after.len() implies !text_before(
            #[trigger] after[b],
            #[trigger] after[a],
        ) by {
            let x = if a < i {
                a
            } else {
                a - 1
            };
            let y = if b < i {
                b
            } else {
                b - 1
            };
            if a == i {
                assert(after[b] == before[y]);
            } else if b == i {
                assert(after[a] == before[x]);
            } else {
                assert(after[a] == before[x] && after[b] == before[y]);
            }
        }
        broadcast use vstd::seq_lib::group_to_multiset_ensures;

        assert(after.remove(i as int) =~= before);
        assert(after[i as int] == key);
        assert(after.contains(key));
        assert(before.to_multiset() == after.to_multiset().remove(key));
        assert(after.to_multiset() =~= before.to_multiset().insert(key));
    }
}

/// Puts texts into dictionary order.
pub fn sort_texts(texts: Vec<String>) -> (r: Vec<String>)
    ensures
        sorted(views(r@)),
        views(r@).to_multiset() == views(texts@).to_multiset(),
{
    let mut out: Vec<String> = Vec::new();
    let mut i: usize = 0;
    assert(views(out@) =~= views(texts@).take(0));
    while i < texts.len()
        invariant
            i <= texts@.len(),
            sorted(views(out@)),
            views(out@).to_multiset() == views(texts@).take(i as int).to_multiset(),
        decreases texts@.len() - i,
    {
        let t = texts[i].as_str().to_owned();
        insert_sorted(&mut out, t);
        proof {
            broadcast use vstd::seq_lib::group_to_multiset_ensures;

            assert(views(texts@).take(i + 1) =~= views(texts@).take(i as int).push(
                views(texts@)[i as int],
            ));
        }
        i += 1;
    }
    assert(views(texts@).take(texts@.len() as int) =~= views(texts@));
    out
}

/// A dictionary goes by the first difference: of two texts that are alike up to a
/// place, the one with the smaller character there comes first, and so does one
/// that ends there.
pub proof fn law_the_first_difference_decides(a: Seq<char>, b: Seq<char>, n: int)
    requires
        0 <= n <= a.len(),
        0 <= n <= b.len(),
        a.take(n) == b.take(n),
    ensures
        n < a.len() && n < b.len() && a[n] != b[n] ==> (text_before(a, b) <==> (a[n] as int) < (
        b[n] as int)),
        n == a.len() ==> (text_before(a, b) <==> n < b.len()),
{
    assert(a =~= a.take(n) + a.skip(n));
    assert(b =~= b.take(n) + b.skip(n));
    lemma_common_beginning(a.take(n), a.skip(n), b.skip(n));
}

/// What is left of a text whose start was trimmed begins where the character first
/// does not stand.
proof fn lemma_trim_front(s: Seq<char>, c: char) -> (n: int)
    ensures
        0 <= n <= s.len(),
        trim_front(s, c) == s.skip(n),
        forall|i: int| 0 <= i < n ==> #[trigger] s[i] == c,
        n < s.len() ==> s[n] != c,
    decreases s.len(),
{
    if s.len() > 0 && s[0] == c {
        let m = lemma_trim_front(s.drop_first(), c);
        assert(s.drop_first().skip(m) =~= s.skip(m + 1));
        assert forall|i: int| 0 <= i < m + 1 implies #[trigger] s[i] == c by {
            if i > 0 {
                assert(s.drop_first()[i - 1] == c);
            }
        }
        if m + 1 < s.len() {
            assert(s.drop_first()[m] == s[m + 1]);
        }
        m + 1
    } else {
        assert(s.skip(0) =~= s);
        0
    }
}

/// What is left of a text whose end was trimmed ends where the character last does
/// not stand.
proof fn lemma_trim_back(s: Seq<char>, c: char) -> (n: int)
    ensures
        0 <= n <= s.len(),
        trim_back(s, c) == s.take(n),
        forall|i: int| n <= i < s.len() ==> #[trigger] s[i] == c,
        n > 0 ==> s[n - 1] != c,
    decreases s.len(),
{
    if s.len() > 0 && s.last() == c {
        let n = lemma_trim_back(s.drop_last(), c);
        assert(s.drop_last().take(n) =~= s.take(n));
        assert forall|i: int| n <= i < s.len() implies #[trigger] s[i] == c by {
            if i < s.len() - 1 {
                assert(s.drop_last()[i] == c);
            }
        }
        if n > 0 {
            assert(s.drop_last()[n - 1] == s[n - 1]);
        }
        n
    } else {
        assert(s.take(s.len() as int) =~= s);
        s.len() as int
    }
}

/// Trimming takes a character off both ends and nothing else: what is left neither
/// begins nor ends with it, and only that character stood around it.
pub proof fn law_trimming_takes_only_the_ends(s: Seq<char>, c: char)
    ensures
        trimmed(s, c).len() > 0 ==> trimmed(s, c)[0] != c && trimmed(s, c).last() != c,
        exists|i: int, j: int|
            {
                &&& 0 <= i <= j <= s.len()
                &&& #[trigger] s.subrange(i, j) == trimmed(s, c)
                &&& forall|k: int| 0 <= k < i ==> #[trigger] s[k] == c
                &&& forall|k: int| j <= k < s.len() ==> #[trigger] s[k] == c
            },
{
    let i = lemma_trim_front(s, c);
    let front = s.skip(i);
    let n = lemma_trim_back(front, c);
    let j = i + n;
    assert(s.subrange(i, j) =~= front.take(n));
    assert forall|k: int| j <= k < s.len() implies #[trigger] s[k] == c by {
        assert(front[k - i] == c);
    }
    if n > 0 {
        assert(front.take(n)[0] == s[i]);
        assert(front.take(n).last() == front[n - 1]);
    }
}

/// A path begins with its directory and ends with the name, with one separator
/// between them at most.
pub proof fn law_a_path_joins_directory_and_name(dir: Seq<char>, name: Seq<char>)
    ensures
        begins(joined(dir, name), dir),
        ends(joined(dir, name), name),
        joined(dir, name).len() == dir.len() + name.len() || joined(dir, name) == dir + seq!['/']
            + name,
        dir.len() > 0 && dir.last() != '/' ==> joined(dir, name) == dir + seq!['/'] + name,
{
    let path = joined(dir, name);
    assert(path.take(dir.len() as int) =~= dir);
    assert(path.skip(path.len() - name.len()) =~= name);
    if dir.len() > 0 && dir.last() != '/' {
        assert(path =~= dir + seq!['/'] + name);
    }
}

} // verus!
