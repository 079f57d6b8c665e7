//! The names under which an archive keeps its files.
use vstd::prelude::*;

use crate::calendar;
use crate::decimal;
use crate::text;
use crate::time::SystemTime;

verus! {

/// Where files go below a store's root, unless told otherwise.
pub const DEFAULT_PREFIX: &'static str = "events";

/// Whether a character stays as it is in a path component.
pub open spec fn is_safe(c: char) -> bool {
    text::is_alphanumeric(c) || c == '-' || c == '_' || c == '.'
}

/// A character as a path component has it.
pub open spec fn safe_char(c: char) -> char {
    if is_safe(c) {
        c
    } else {
        '_'
    }
}

/// Nothing but dots, or nothing at all.
pub open spec fn only_dots(s: Seq<char>) -> bool {
    forall|i: int| 0 <= i < s.len() ==> #[trigger] s[i] == '.'
}

/// A symbol as a path component.
pub open spec fn partition_text(symbol: Seq<char>) -> Seq<char> {
    let safe = symbol.map_values(|c: char| safe_char(c));
    if only_dots(safe) {
        "unknown"@
    } else {
        safe
    }
}

/// A symbol as a path component. A symbol can be any text, and this becomes part
/// of a path: what does not belong there is replaced, and a name of dots alone,
/// which would mean a directory, becomes `unknown`.
pub fn partition_name(symbol: &str) -> (name: String)
    ensures
        name@ == partition_text(symbol@),
{
    let chars = text::characters(symbol);
    let mut out: Vec<char> = Vec::new();
    let mut dots = true;
    let mut i: usize = 0;
    while i < chars.len()
        invariant
            i <= chars@.len(),
            chars@ == symbol@,
            out@ == symbol@.take(i as int).map_values(|c: char| safe_char(c)),
            dots == only_dots(out@),
        decreases chars@.len() - i,
    {
        let c: char = chars[i];
        let safe = if text::alphanumeric(c) || c == '-' || c == '_' || c == '.' {
            c
        } else {
            '_'
        };
        let ghost before = out@;
        out.push(safe);
        i += 1;
        assert(out@ =~= symbol@.take(i as int).map_values(|c: char| safe_char(c)));
        assert(only_dots(out@) == (only_dots(before) && safe == '.')) by {
            assert(out@[i - 1] == safe);
            if only_dots(before) && safe == '.' {
                assert forall|k: int| 0 <= k < out@.len() implies #[trigger] out@[k] == '.' by {
                    if k < before.len() {
                        assert(before[k] == out@[k]);
                    }
                }
            }
            if only_dots(out@) {
                assert forall|k: int| 0 <= k < before.len() implies #[trigger] before[k] == '.' by {
                    assert(out@[k] == before[k]);
                }
            }
        }
        dots = dots && safe == '.';
    }
    assert(symbol@.take(symbol@.len() as int) =~= symbol@);
    if dots {
        "unknown".to_owned()
    } else {
        text::text_of(&out)
    }
}

/// A symbol cannot leave its directory: its path component has no separator,
/// is not empty, and is not one of the names that mean a directory.
pub proof fn law_a_partition_is_one_component(symbol: Seq<char>)
    ensures
        forall|i: int|
            0 <= i < partition_text(symbol).len() ==> is_safe(#[trigger] partition_text(symbol)[i])
                && partition_text(symbol)[i] != '/',
        partition_text(symbol).len() > 0,
        !only_dots(partition_text(symbol)),
{
    reveal_strlit("unknown");
    let safe = symbol.map_values(|c: char| safe_char(c));
    if only_dots(safe) {
        let name = partition_text(symbol);
        assert(name[0] == 'u');
        assert(name =~= seq!['u', 'n', 'k', 'n', 'o', 'w', 'n']);
    }
}

/// What follows the last of a character.
pub open spec fn after_last(s: Seq<char>, c: char) -> Seq<char>
    decreases s.len(),
{
    if s.len() == 0 || s.last() == c {
        Seq::empty()
    } else {
        after_last(s.drop_last(), c).push(s.last())
    }
}

/// What follows the last of a character.
pub fn tail_after(chars: &[char], c: char) -> (tail: Vec<char>)
    ensures
        tail@ == after_last(chars@, c),
{
    let mut i: usize = chars.len();
    assert(chars@.take(chars@.len() as int) =~= chars@);
    assert(chars@.subrange(chars@.len() as int, chars@.len() as int) =~= Seq::empty());
    assert(after_last(chars@, c) =~= after_last(chars@.take(i as int), c) + chars@.subrange(
        i as int,
        chars@.len() as int,
    ));
    while i > 0 && chars[i - 1] != c
        invariant
            i <= chars@.len(),
            after_last(chars@, c) == after_last(chars@.take(i as int), c) + chars@.subrange(
                i as int,
                chars@.len() as int,
            ),
        decreases i,
    {
        proof {
            let head = chars@.take(i as int);
            assert(head.drop_last() =~= chars@.take(i - 1));
            assert(head.last() == chars@[i - 1]);
            assert(after_last(head, c) + chars@.subrange(i as int, chars@.len() as int)
                =~= after_last(chars@.take(i - 1), c) + chars@.subrange(
                i - 1,
                chars@.len() as int,
            ));
        }
        i -= 1;
    }
    assert(after_last(chars@.take(i as int), c) =~= Seq::empty());
    assert(after_last(chars@, c) =~= chars@.subrange(i as int, chars@.len() as int));
    text::part_of(chars, i, chars.len())
}

/// The number that decimal digits stand for.
pub open spec fn numeral(digits: Seq<char>) -> nat
    decreases digits.len(),
{
    if digits.len() == 0 {
        0
    } else {
        numeral(digits.drop_last()) * 10 + (digits.last() as nat - '0' as nat) as nat
    }
}

/// Whether a text is decimal digits, at least one.
pub open spec fn all_digits(s: Seq<char>) -> bool {
    s.len() > 0 && forall|i: int| 0 <= i < s.len() ==> '0' <= #[trigger] s[i] && s[i] <= '9'
}

/// The unsigned 64-bit number that a text stands for: digits, a plus before them
/// allowed.
pub open spec fn count_of(s: Seq<char>) -> Option<nat> {
    let digits = if s.len() > 1 && s[0] == '+' {
        s.drop_first()
    } else {
        s
    };
    if all_digits(digits) && numeral(digits) <= u64::MAX {
        Some(numeral(digits))
    } else {
        None
    }
}

/// More digits stand for no smaller a number.
proof fn lemma_numeral_grows(digits: Seq<char>, n: int)
    requires
        0 <= n <= digits.len(),
        all_digits(digits),
    ensures
        numeral(digits.take(n)) <= numeral(digits),
    decreases digits.len(),
{
    if n == digits.len() {
        assert(digits.take(n) =~= digits);
    } else {
        let rest = digits.drop_last();
        assert(rest.take(n) =~= digits.take(n));
        if rest.len() > 0 {
            assert forall|i: int| 0 <= i < rest.len() implies '0' <= #[trigger] rest[i] && rest[i]
                <= '9' by {
                assert(rest[i] == digits[i]);
            }
            lemma_numeral_grows(rest, n);
        } else {
            assert(digits.take(n) =~= rest);
        }
    }
}

/// The unsigned 64-bit number that a text stands for.
fn parse_count(chars: &[char]) -> (r: Option<u64>)
    ensures
        match r {
            Some(n) => count_of(chars@) == Some(n as nat),
            None => count_of(chars@) is None,
        },
{
    let start: usize = if chars.len() > 1 && chars[0] == '+' {
        1
    } else {
        0
    };
    let ghost digits = if chars@.len() > 1 && chars@[0] == '+' {
        chars@.drop_first()
    } else {
        chars@
    };
    assert(digits =~= chars@.skip(start as int));
    if start >= chars.len() {
        return None;
    }
    let mut value: u64 = 0;
    let mut i: usize = start;
    assert(digits.take(0) =~= Seq::empty());
    while i < chars.len()
        invariant
            start <= i <= chars@.len(),
            digits == chars@.skip(start as int),
            digits.len() == chars@.len() - start,
            digits.len() > 0,
            digits == (if chars@.len() > 1 && chars@[0] == '+' {
                chars@.drop_first()
            } else {
                chars@
            }),
            value == numeral(digits.take(i - start)),
            forall|k: int| 0 <= k < i - start ==> '0' <= #[trigger] digits[k] && digits[k] <= '9',
        decreases chars@.len() - i,
    {
        let c: char = chars[i];
        assert(digits[i - start] == c);
        if c < '0' || c > '9' {
            assert(!all_digits(digits));
            return None;
        }
        let d: u64 = (c as u32 - '0' as u32) as u64;
        let wide: u128 = value as u128 * 10 + d as u128;
        proof {
            let now = digits.take(i - start + 1);
            assert(now.drop_last() =~= digits.take(i - start));
            assert(now.last() == c);
            assert(numeral(now) == wide);
        }
        if wide > 18_446_744_073_709_551_615 {
            proof {
                if all_digits(digits) {
                    lemma_numeral_grows(digits, i - start + 1);
                }
            }
            return None;
        }
        value = wide as u64;
        i += 1;
    }
    assert(digits.take(digits.len() as int) =~= digits);
    assert(all_digits(digits));
    Some(value)
}

/// The number of a part, where a key is one of a part: `part-`, a number and
/// `.parquet` after the last separator.
pub open spec fn part_number(key: Seq<char>) -> Option<nat> {
    let name = after_last(key, '/');
    if text::begins(name, "part-"@) && text::ends(name.skip(5), ".parquet"@) {
        count_of(name.subrange(5, name.len() - 8))
    } else {
        None
    }
}

/// The number of a part, where a key is one of a part.
fn number_of(key: &str) -> (r: Option<u64>)
    ensures
        match r {
            Some(n) => part_number(key@) == Some(n as nat),
            None => part_number(key@) is None,
        },
{
    proof {
        reveal_strlit("part-");
        reveal_strlit(".parquet");
    }
    let chars = text::characters(key);
    let name = tail_after(&chars, '/');
    let front = text::characters("part-");
    if !text::begins_with(&name, &front) {
        return None;
    }
    let rest = text::part_of(&name, 5, name.len());
    assert(rest@ =~= name@.skip(5));
    let back = text::characters(".parquet");
    if !text::ends_with(&rest, &back) {
        return None;
    }
    let middle = text::part_of(&name, 5, name.len() - 8);
    parse_count(&middle)
}

/// The highest number of a part among keys.
pub open spec fn highest_part(keys: Seq<String>) -> Option<nat>
    decreases keys.len(),
{
    if keys.len() == 0 {
        None
    } else {
        match (highest_part(keys.drop_last()), part_number(keys.last()@)) {
            (Some(a), Some(b)) => Some(
                if a < b {
                    b
                } else {
                    a
                },
            ),
            (a, None) => a,
            (None, b) => b,
        }
    }
}

/// The number that the next part gets.
pub open spec fn next_number(keys: Seq<String>) -> nat {
    match highest_part(keys) {
        Some(n) => if n < u64::MAX {
            n + 1
        } else {
            n
        },
        None => 0,
    }
}

/// The part number to write next, given what a directory already holds. Keys
/// that are of no part are passed over.
pub fn next_part(existing: &[String]) -> (n: u64)
    ensures
        n == next_number(existing@),
{
    let mut highest: Option<u64> = None;
    let mut i: usize = 0;
    assert(existing@.take(0) =~= Seq::empty());
    while i < existing.len()
        invariant
            i <= existing@.len(),
            match highest {
                Some(h) => highest_part(existing@.take(i as int)) == Some(h as nat),
                None => highest_part(existing@.take(i as int)) is None,
            },
        decreases existing@.len() - i,
    {
        assert(existing@.take(i + 1).drop_last() =~= existing@.take(i as int));
        assert(existing@.take(i + 1).last() == existing@[i as int]);
        match number_of(existing[i].as_str()) {
            Some(n) => {
                highest = match highest {
                    Some(h) => if h < n {
                        Some(n)
                    } else {
                        Some(h)
                    },
                    None => Some(n),
                };
            },
            None => {},
        }
        i += 1;
    }
    assert(existing@.take(existing@.len() as int) =~= existing@);
    match highest {
        Some(h) => h.saturating_add(1),
        None => 0,
    }
}

/// A number that a directory holds is not issued again, as long as numbers last:
/// the next part's is above all of them.
pub proof fn law_no_part_number_is_issued_again(existing: Seq<String>, i: int)
    requires
        0 <= i < existing.len(),
        part_number(existing[i]@) is Some,
        next_number(existing) < u64::MAX,
    ensures
        part_number(existing[i]@)->0 < next_number(existing),
    decreases existing.len(),
{
    lemma_highest(existing, i);
}

/// The highest number is no lower than any.
proof fn lemma_highest(keys: Seq<String>, i: int)
    requires
        0 <= i < keys.len(),
        part_number(keys[i]@) is Some,
    ensures
        highest_part(keys) is Some,
        part_number(keys[i]@)->0 <= highest_part(keys)->0,
    decreases keys.len(),
{
    if i < keys.len() - 1 {
        assert(keys.drop_last()[i] == keys[i]);
        lemma_highest(keys.drop_last(), i);
    }
}

/// The number of the next part is a 64-bit one.
pub proof fn lemma_numbers_are_64_bit(existing: Seq<String>)
    ensures
        next_number(existing) <= u64::MAX,
        highest_part(existing) matches Some(n) ==> n <= u64::MAX,
    decreases existing.len(),
{
    if existing.len() > 0 {
        lemma_numbers_are_64_bit(existing.drop_last());
    }
}

/// A key namespace without separators at its ends.
pub fn into_prefix(raw: &str) -> (prefix: String)
    ensures
        prefix@ == text::trimmed(raw@, '/'),
{
    let chars = text::characters(raw);
    let inner = text::without_ends(&chars, '/');
    text::text_of(&inner)
}

/// The directory of a partition's hour: the symbol before the date, so that a
/// query for one symbol needs one subtree.
pub open spec fn dir_text(prefix: Seq<char>, partition: Seq<char>, wall: int) -> Seq<char> {
    prefix + "/symbol="@ + partition + "/date="@ + calendar::date_at(wall) + "/hour="@
        + text::padded_number_text(calendar::hour_at(wall) as nat, 2) + "/"@
}

/// The directory of a partition's hour.
pub fn dir_for(prefix: &str, partition: &str, at: SystemTime) -> (dir: String)
    ensures
        dir@ == dir_text(prefix@, partition@, at@),
{
    let (date, hour) = calendar::date_hour(at);
    let mut out = text::characters(prefix);
    text::push_text(&mut out, "/symbol=");
    text::push_text(&mut out, partition);
    text::push_text(&mut out, "/date=");
    text::push_text(&mut out, date.as_str());
    text::push_text(&mut out, "/hour=");
    text::push_all(&mut out, &text::padded_number_chars(hour as u128, 2));
    text::push_text(&mut out, "/");
    text::text_of(&out)
}

/// The key of a part in a directory.
pub open spec fn part_text(dir: Seq<char>, part: nat) -> Seq<char> {
    dir + "part-"@ + text::padded_number_text(part, 5) + ".parquet"@
}

/// The key of a part in a directory.
pub fn part_key(dir: &str, part: u64) -> (key: String)
    ensures
        key@ == part_text(dir@, part as nat),
{
    let mut out = text::characters(dir);
    text::push_text(&mut out, "part-");
    text::push_all(&mut out, &text::padded_number_chars(part as u128, 5));
    text::push_text(&mut out, ".parquet");
    text::text_of(&out)
}

/// Whether a text stands at a place and nowhere later.
pub open spec fn last_at(s: Seq<char>, needle: Seq<char>, i: int) -> bool {
    text::occurs_at(s, needle, i) && forall|j: int| i < j ==> !#[trigger] text::occurs_at(
        s,
        needle,
        j,
    )
}

/// What stands before the last of a text, if it occurs.
pub open spec fn head_before(s: Seq<char>, needle: Seq<char>) -> Option<Seq<char>> {
    if text::occurs(s, needle) {
        Some(s.take(choose|i: int| last_at(s, needle, i)))
    } else {
        None
    }
}

/// What stands before the last of a text, if it occurs.
fn before_last(chars: &[char], needle: &[char]) -> (r: Option<Vec<char>>)
    ensures
        match r {
            Some(head) => head_before(chars@, needle@) == Some(head@),
            None => head_before(chars@, needle@) is None,
        },
{
    let mut i: usize = chars.len();
    while i > 0
        invariant
            i <= chars@.len(),
            forall|j: int| i < j ==> !#[trigger] text::occurs_at(chars@, needle@, j),
        decreases i,
    {
        if text::found_at(chars, needle, i) {
            proof {
                assert(last_at(chars@, needle@, i as int));
                lemma_last_is_one(chars@, needle@, i as int);
            }
            assert(chars@.subrange(0, i as int) =~= chars@.take(i as int));
            return Some(text::part_of(chars, 0, i));
        }
        i -= 1;
    }
    if text::found_at(chars, needle, 0) {
        proof {
            assert(last_at(chars@, needle@, 0));
            lemma_last_is_one(chars@, needle@, 0);
        }
        assert(chars@.take(0) =~= Seq::empty());
        return Some(Vec::new());
    }
    assert forall|j: int| !#[trigger] text::occurs_at(chars@, needle@, j) by {}
    None
}

/// A text stands in one last place.
proof fn lemma_last_is_one(s: Seq<char>, needle: Seq<char>, i: int)
    requires
        last_at(s, needle, i),
    ensures
        text::occurs(s, needle),
        head_before(s, needle) == Some(s.take(i)),
{
    assert(text::occurs_at(s, needle, i));
    let k = choose|k: int| last_at(s, needle, k);
    assert(last_at(s, needle, k));
    if k < i {
        assert(!text::occurs_at(s, needle, i));
    } else if i < k {
        assert(!text::occurs_at(s, needle, k));
    }
}

/// The partition that a key belongs to: what stands before its date, or else
/// its directory.
pub open spec fn partition_in(key: Seq<char>) -> Seq<char> {
    match head_before(key, "/date="@) {
        Some(head) => head,
        None => match head_before(key, seq!['/']) {
            Some(dir) => dir,
            None => Seq::empty(),
        },
    }
}

/// The partition that a key belongs to. A prefix rule, so that a layout without
/// a symbol in it is one partition.
pub fn partition_of(key: &str) -> (partition: String)
    ensures
        partition@ == partition_in(key@),
{
    let chars = text::characters(key);
    let date = text::characters("/date=");
    match before_last(&chars, &date) {
        Some(head) => text::text_of(&head),
        None => {
            let slash: Vec<char> = vec!['/'];
            assert(slash@ =~= seq!['/']);
            match before_last(&chars, &slash) {
                Some(head) => text::text_of(&head),
                None => text::text_of(&[]),
            }
        },
    }
}

/// What follows the last separator of a directory with a name in it is the name.
proof fn lemma_after_last(dir: Seq<char>, name: Seq<char>)
    requires
        dir.len() > 0,
        dir.last() == '/',
        forall|i: int| 0 <= i < name.len() ==> #[trigger] name[i] != '/',
    ensures
        after_last(dir + name, '/') == name,
    decreases name.len(),
{
    if name.len() == 0 {
        assert(dir + name =~= dir);
        assert(name =~= Seq::empty());
    } else {
        assert((dir + name).drop_last() =~= dir + name.drop_last());
        assert((dir + name).last() == name.last());
        assert forall|i: int| 0 <= i < name.drop_last().len() implies #[trigger] name.drop_last()[i]
            != '/' by {
            assert(name.drop_last()[i] == name[i]);
        }
        lemma_after_last(dir, name.drop_last());
        assert(name.drop_last().push(name.last()) =~= name);
        assert(name[name.len() - 1] != '/');
    }
}

/// The digits of a number stand for it.
proof fn lemma_digits_stand_for(n: nat)
    ensures
        numeral(decimal::digits(n)) == n,
        n > 0 ==> all_digits(decimal::digits(n)),
    decreases n,
{
    if n > 0 {
        let ds = decimal::digits(n);
        lemma_digits_stand_for(n / 10);
        assert(ds.drop_last() =~= decimal::digits(n / 10));
        assert forall|i: int| 0 <= i < ds.len() implies '0' <= #[trigger] ds[i] && ds[i]
            <= '9' by {
            if i < ds.len() - 1 {
                assert(ds.drop_last()[i] == ds[i]);
            }
        }
    }
}

/// Zeros before digits change nothing.
proof fn lemma_zeros_before(k: nat, ds: Seq<char>)
    requires
        all_digits(ds),
    ensures
        numeral(decimal::zeros(k) + ds) == numeral(ds),
        all_digits(decimal::zeros(k) + ds),
    decreases ds.len(),
{
    let all = decimal::zeros(k) + ds;
    assert forall|i: int| 0 <= i < all.len() implies '0' <= #[trigger] all[i] && all[i] <= '9' by {
        if i >= k {
            assert(all[i] == ds[i - k]);
        }
    }
    lemma_zeros_before_any(k, ds);
}

/// Zeros before digits, or before none, change nothing.
proof fn lemma_zeros_before_any(k: nat, ds: Seq<char>)
    ensures
        numeral(decimal::zeros(k) + ds) == numeral(ds),
    decreases k + ds.len(),
{
    let all = decimal::zeros(k) + ds;
    if ds.len() > 0 {
        assert(all.drop_last() =~= decimal::zeros(k) + ds.drop_last());
        lemma_zeros_before_any(k, ds.drop_last());
    } else if k > 0 {
        assert(all.drop_last() =~= decimal::zeros((k - 1) as nat) + ds);
        lemma_zeros_before_any((k - 1) as nat, ds);
    } else {
        assert(all =~= ds);
    }
}

/// A part's key has the part's number.
pub proof fn law_a_part_key_has_its_number(dir: Seq<char>, n: nat)
    requires
        dir.len() > 0,
        dir.last() == '/',
        n <= u64::MAX,
    ensures
        part_number(part_text(dir, n)) == Some(n),
{
    reveal_strlit("part-");
    reveal_strlit(".parquet");
    let ds = text::number_text(n);
    assert(all_digits(ds) && numeral(ds) == n) by {
        if n == 0 {
            assert(ds.drop_last() =~= Seq::empty());
            assert(numeral(ds.drop_last()) == 0);
            assert(ds.last() == '0');
            assert(numeral(ds) == 0);
        } else {
            lemma_digits_stand_for(n);
        }
    }
    let padded = text::padded_number_text(n, 5);
    if ds.len() < 5 {
        lemma_zeros_before((5 - ds.len()) as nat, ds);
    }
    let name = "part-"@ + padded + ".parquet"@;
    assert(part_text(dir, n) =~= dir + name);
    assert forall|i: int| 0 <= i < name.len() implies #[trigger] name[i] != '/' by {
        if i < 5 {
            assert("part-"@[i] != '/');
        } else if i < 5 + padded.len() {
            assert(name[i] == padded[i - 5]);
        } else {
            assert(".parquet"@[i - 5 - padded.len()] != '/');
        }
    }
    lemma_after_last(dir, name);
    assert(name.take(5) =~= "part-"@);
    assert(name.skip(5).skip(name.skip(5).len() - 8) =~= ".parquet"@);
    assert(name.subrange(5, name.len() - 8) =~= padded);
    assert(padded[0] != '+');
}

/// A new part overwrites nothing: its key is none of those that its directory
/// already holds, as long as numbers last.
pub proof fn law_a_new_part_overwrites_nothing(dir: Seq<char>, existing: Seq<String>, i: int)
    requires
        dir.len() > 0,
        dir.last() == '/',
        0 <= i < existing.len(),
        next_number(existing) < u64::MAX,
    ensures
        existing[i]@ != part_text(dir, next_number(existing)),
{
    law_a_part_key_has_its_number(dir, next_number(existing));
    if existing[i]@ == part_text(dir, next_number(existing)) {
        law_no_part_number_is_issued_again(existing, i);
    }
}

/// The last wall reading, in nanoseconds, whose date is surely written in ten
/// characters: the last that a column can hold.
pub const LAST_WALL: i64 = i64::MAX;

/// The hour of a reading, counted from the epoch.
pub open spec fn hour_of(wall: int) -> int {
    calendar::unix_seconds(wall) / 3600
}

/// The root of a partition's files.
pub open spec fn partition_root(prefix: Seq<char>, partition: Seq<char>) -> Seq<char> {
    prefix + "/symbol="@ + partition
}

/// The part of a key that tells the hour and the number of a part.
spec fn key_tail(wall: int, part: nat) -> Seq<char> {
    calendar::date_at(wall) + ("/hour="@ + (text::padded_number_text(
        calendar::hour_at(wall) as nat,
        2,
    ) + ("/part-"@ + (text::padded_number_text(part, 5) + ".parquet"@))))
}

proof fn lemma_key_parts(prefix: Seq<char>, partition: Seq<char>, wall: int, part: nat)
    ensures
        part_text(dir_text(prefix, partition, wall), part) == partition_root(prefix, partition)
            + ("/date="@ + key_tail(wall, part)),
{
    reveal_strlit("/");
    reveal_strlit("part-");
    reveal_strlit("/part-");
    assert("/part-"@ =~= "/"@ + "part-"@);
    assert(part_text(dir_text(prefix, partition, wall), part) =~= partition_root(prefix, partition)
        + ("/date="@ + key_tail(wall, part)));
}

proof fn lemma_small_powers()
    ensures
        decimal::pow10(2) == 100,
        decimal::pow10(5) == 100_000,
{
    reveal_with_fuel(decimal::pow10, 6);
}

proof fn lemma_days_in_range(wall: int)
    requires
        wall <= LAST_WALL,
    ensures
        0 <= calendar::unix_seconds(wall) / 86_400 <= calendar::LAST_DAY,
        0 <= calendar::hour_at(wall) < 24,
        hour_of(wall) == 24 * (calendar::unix_seconds(wall) / 86_400) + calendar::hour_at(wall),
{
}

/// Below a root there is one directory for an hour.
pub proof fn lemma_one_directory_an_hour(
    prefix: Seq<char>,
    partition: Seq<char>,
    a: int,
    other_prefix: Seq<char>,
    other_partition: Seq<char>,
    b: int,
)
    requires
        partition_root(prefix, partition) == partition_root(other_prefix, other_partition),
        a <= LAST_WALL,
        b <= LAST_WALL,
        hour_of(a) == hour_of(b),
    ensures
        dir_text(prefix, partition, a) == dir_text(other_prefix, other_partition, b),
{
    lemma_days_in_range(a);
    lemma_days_in_range(b);
}

/// A partition's files are in key order as they were begun: below one root the key
/// of a later hour, and in one hour that of a higher part, comes later in a
/// dictionary.
pub proof fn law_later_parts_have_later_keys(
    prefix: Seq<char>,
    partition: Seq<char>,
    a: int,
    m: nat,
    other_prefix: Seq<char>,
    other_partition: Seq<char>,
    b: int,
    n: nat,
)
    requires
        partition_root(prefix, partition) == partition_root(other_prefix, other_partition),
        a <= LAST_WALL,
        b <= LAST_WALL,
        m < 100_000,
        n < 100_000,
        hour_of(a) < hour_of(b) || (hour_of(a) == hour_of(b) && m < n),
    ensures
        text::text_before(
            part_text(dir_text(prefix, partition, a), m),
            part_text(dir_text(other_prefix, other_partition, b), n),
        ),
{
    lemma_small_powers();
    lemma_days_in_range(a);
    lemma_days_in_range(b);
    lemma_key_parts(prefix, partition, a, m);
    lemma_key_parts(other_prefix, other_partition, b, n);
    let root = partition_root(prefix, partition);
    text::lemma_common_beginning(root, "/date="@ + key_tail(a, m), "/date="@ + key_tail(b, n));
    text::lemma_common_beginning("/date="@, key_tail(a, m), key_tail(b, n));
    let day_a = calendar::unix_seconds(a) / 86_400;
    let day_b = calendar::unix_seconds(b) / 86_400;
    let x = calendar::hour_at(a) as nat;
    let y = calendar::hour_at(b) as nat;
    let parts_a = text::padded_number_text(m, 5) + ".parquet"@;
    let parts_b = text::padded_number_text(n, 5) + ".parquet"@;
    let hours_a = text::padded_number_text(x, 2) + ("/part-"@ + parts_a);
    let hours_b = text::padded_number_text(y, 2) + ("/part-"@ + parts_b);
    calendar::lemma_date_text(day_a);
    calendar::lemma_date_text(day_b);
    text::lemma_padded_width(x, 2);
    text::lemma_padded_width(y, 2);
    text::lemma_padded_width(m, 5);
    text::lemma_padded_width(n, 5);
    if day_a < day_b {
        calendar::law_written_dates_follow_the_days(day_a, day_b);
        text::lemma_beginning_decides(
            calendar::date_at(a),
            calendar::date_at(b),
            "/hour="@ + hours_a,
            "/hour="@ + hours_b,
        );
    } else {
        text::lemma_common_beginning(
            calendar::date_at(a),
            "/hour="@ + hours_a,
            "/hour="@ + hours_b,
        );
        text::lemma_common_beginning("/hour="@, hours_a, hours_b);
        if x < y {
            text::lemma_padded_in_order(x, y, 2);
            text::lemma_beginning_decides(
                text::padded_number_text(x, 2),
                text::padded_number_text(y, 2),
                "/part-"@ + parts_a,
                "/part-"@ + parts_b,
            );
        } else {
            text::lemma_common_beginning(
                text::padded_number_text(x, 2),
                "/part-"@ + parts_a,
                "/part-"@ + parts_b,
            );
            text::lemma_common_beginning("/part-"@, parts_a, parts_b);
            text::lemma_padded_in_order(m, n, 5);
            text::lemma_beginning_decides(
                text::padded_number_text(m, 5),
                text::padded_number_text(n, 5),
                ".parquet"@,
                ".parquet"@,
            );
        }
    }
}

/// In the tail of a key no separator is followed by a `d`.
proof fn lemma_no_date_in_the_tail(date: Seq<char>, hour: Seq<char>, number: Seq<char>, t: int)
    requires
        date.len() == 10,
        hour.len() == 2,
        number.len() == 5,
        forall|i: int| 0 <= i < 10 ==> #[trigger] date[i] != '/',
        forall|i: int| 0 <= i < 2 ==> #[trigger] hour[i] != '/',
        forall|i: int| 0 <= i < 5 ==> #[trigger] number[i] != '/',
        0 <= t,
    ensures
        ({
            let tail = date + ("/hour="@ + (hour + ("/part-"@ + (number + ".parquet"@))));
            t < tail.len() - 1 ==> !(tail[t] == '/' && tail[t + 1] == 'd')
        }),
{
    reveal_strlit("/hour=");
    reveal_strlit("/part-");
    reveal_strlit(".parquet");
    let numbered = number + ".parquet"@;
    let parted = "/part-"@ + numbered;
    let houred = hour + parted;
    let after = "/hour="@ + houred;
    let tail = date + after;
    if t < 10 {
        assert(tail[t] == date[t]);
    } else if t < 16 {
        assert(tail[t] == "/hour="@[t - 10]);
        assert(tail[11] == "/hour="@[1]);
    } else if t < 18 {
        assert(tail[t] == hour[t - 16]);
    } else if t < 24 {
        assert(tail[t] == "/part-"@[t - 18]);
        assert(tail[19] == "/part-"@[1]);
    } else if t < 29 {
        assert(tail[t] == number[t - 24]);
    } else if t < 36 {
        assert(tail[t] == ".parquet"@[t - 29]);
    }
}

/// After the date of a key there is no other.
#[verifier::spinoff_prover]
proof fn lemma_no_later_date(root: Seq<char>, mark: Seq<char>, tail: Seq<char>, j: int)
    requires
        mark.len() == 6,
        mark[0] == '/',
        mark[1] == 'd',
        forall|i: int| 0 < i < 6 ==> #[trigger] mark[i] != '/',
        forall|t: int|
            0 <= t < tail.len() - 1 ==> !(#[trigger] tail[t] == '/' && tail[t + 1] == 'd'),
        root.len() < j,
    ensures
        !text::occurs_at(root + (mark + tail), mark, j),
{
    let s = root + (mark + tail);
    if text::occurs_at(s, mark, j) {
        let found = s.subrange(j, j + 6);
        assert(found[0] == s[j]);
        assert(found[1] == s[j + 1]);
        let k = j - root.len();
        if k < 6 {
            assert(s[j] == mark[k]);
        } else {
            let t = k - 6;
            assert(s[j] == tail[t]);
            assert(s[j + 1] == tail[t + 1]);
        }
    }
}

/// What stands before the only date of a key is its partition.
#[verifier::spinoff_prover]
proof fn lemma_partition_before_the_date(root: Seq<char>, tail: Seq<char>)
    requires
        forall|t: int|
            0 <= t < tail.len() - 1 ==> !(#[trigger] tail[t] == '/' && tail[t + 1] == 'd'),
    ensures
        partition_in(root + ("/date="@ + tail)) == root,
{
    let mark = "/date="@;
    assert(mark.len() == 6 && mark[0] == '/' && mark[1] == 'd' && forall|i: int|
        0 < i < 6 ==> #[trigger] mark[i] != '/') by {
        reveal_strlit("/date=");
    }
    let s = root + (mark + tail);
    let i = root.len() as int;
    assert(s.subrange(i, i + 6) =~= mark);
    assert forall|j: int| i < j implies !#[trigger] text::occurs_at(s, mark, j) by {
        lemma_no_later_date(root, mark, tail, j);
    }
    assert(last_at(s, mark, i));
    lemma_last_is_one(s, mark, i);
    assert(s.take(i) =~= root);
}

/// A part's key belongs to its partition, and ends as the key of a file does.
pub proof fn law_a_part_key_has_its_partition(
    prefix: Seq<char>,
    partition: Seq<char>,
    wall: int,
    part: nat,
)
    requires
        wall <= LAST_WALL,
        part < 100_000,
    ensures
        partition_in(part_text(dir_text(prefix, partition, wall), part)) == partition_root(
            prefix,
            partition,
        ),
        text::ends(part_text(dir_text(prefix, partition, wall), part), ".parquet"@),
{
    let tail = key_tail(wall, part);
    assert forall|t: int| 0 <= t < tail.len() - 1 implies !(#[trigger] tail[t] == '/' && tail[t + 1]
        == 'd') by {
        lemma_small_powers();
        lemma_days_in_range(wall);
        let hour = calendar::hour_at(wall) as nat;
        calendar::lemma_date_text(calendar::unix_seconds(wall) / 86_400);
        text::lemma_padded_width(hour, 2);
        text::lemma_padded_width(part, 5);
        lemma_no_date_in_the_tail(
            calendar::date_at(wall),
            text::padded_number_text(hour, 2),
            text::padded_number_text(part, 5),
            t,
        );
    }
    lemma_key_parts(prefix, partition, wall, part);
    lemma_partition_before_the_date(partition_root(prefix, partition), tail);
    let dir = dir_text(prefix, partition, wall);
    let named = dir + "part-"@ + text::padded_number_text(part, 5);
    assert((named + ".parquet"@).skip(named.len() as int) =~= ".parquet"@);
}

/// A name that a path can have is kept as it is; any other keeps its length, and
/// each character that a path can have.
pub proof fn law_a_safe_name_is_kept(symbol: Seq<char>)
    requires
        exists|i: int| 0 <= i < symbol.len() && #[trigger] symbol[i] != '.',
    ensures
        partition_text(symbol).len() == symbol.len(),
        forall|i: int|
            0 <= i < symbol.len() && is_safe(#[trigger] symbol[i]) ==> partition_text(symbol)[i]
                == symbol[i],
        (forall|i: int| 0 <= i < symbol.len() ==> is_safe(#[trigger] symbol[i]))
            ==> partition_text(symbol) == symbol,
{
    let safe = symbol.map_values(|c: char| safe_char(c));
    let i = choose|i: int| 0 <= i < symbol.len() && #[trigger] symbol[i] != '.';
    assert(safe[i] != '.');
    assert(!only_dots(safe));
    if forall|i: int| 0 <= i < symbol.len() ==> is_safe(#[trigger] symbol[i]) {
        assert(safe =~= symbol);
    }
}

/// What follows the last of a character is the end of the text, holds no such
/// character, and starts right after one or where the text does.
pub proof fn law_the_tail_starts_after_the_last(s: Seq<char>, c: char)
    ensures
        ({
            let tail = after_last(s, c);
            let n = s.len() - tail.len();
            &&& 0 <= n
            &&& s.skip(n) == tail
            &&& forall|i: int| 0 <= i < tail.len() ==> #[trigger] tail[i] != c
            &&& n == 0 || s[n - 1] == c
        }),
    decreases s.len(),
{
    if s.len() == 0 || s.last() == c {
        assert(s.skip(s.len() as int) =~= after_last(s, c));
    } else {
        law_the_tail_starts_after_the_last(s.drop_last(), c);
        let short = after_last(s.drop_last(), c);
        let tail = after_last(s, c);
        let n = s.len() - tail.len();
        assert(s.skip(n) =~= tail) by {
            assert forall|i: int| 0 <= i < tail.len() implies s.skip(n)[i] == tail[i] by {
                if i < short.len() {
                    assert(s.drop_last().skip(n)[i] == short[i]);
                }
            }
        }
    }
}

/// What stands before the last of a text ends where that text stands for the last
/// time.
pub proof fn law_the_head_ends_before_the_last(s: Seq<char>, needle: Seq<char>, i: int)
    requires
        last_at(s, needle, i),
    ensures
        head_before(s, needle) == Some(s.take(i)),
{
    lemma_last_is_one(s, needle, i);
}

/// The next part's number is one past the highest that a directory holds, and zero
/// where it holds no part.
pub proof fn law_the_next_part_follows_the_highest(existing: Seq<String>)
    ensures
        (forall|i: int| 0 <= i < existing.len() ==> part_number((#[trigger] existing[i])@) is None)
            ==> next_number(existing) == 0,
        highest_part(existing) matches Some(n) ==> exists|i: int|
            0 <= i < existing.len() && part_number((#[trigger] existing[i])@) == Some(n),
        highest_part(existing) matches Some(n) ==> (n < u64::MAX ==> next_number(existing) == n + 1),
    decreases existing.len(),
{
    if existing.len() > 0 {
        let most = existing.drop_last();
        law_the_next_part_follows_the_highest(most);
        let last = existing.len() - 1;
        assert(existing[last] == existing.last());
        if forall|i: int| 0 <= i < existing.len() ==> part_number((#[trigger] existing[i])@) is None {
            assert forall|i: int| 0 <= i < most.len() implies part_number((#[trigger] most[i])@)
                is None by {
                assert(most[i] == existing[i]);
            }
            assert(part_number(existing[last]@) is None);
        }
        if highest_part(existing) is Some {
            let n = highest_part(existing)->0;
            if part_number(existing[last]@) != Some(n) {
                assert(highest_part(most) == Some(n));
                let i = choose|i: int|
                    0 <= i < most.len() && part_number((#[trigger] most[i])@) == Some(n);
                assert(existing[i] == most[i]);
            }
        }
    }
}

/// The digits that a number is written with stand for it, with as many zeros
/// before them as the width asks for.
pub proof fn law_a_written_number_reads_back(n: nat, width: nat)
    ensures
        all_digits(text::padded_number_text(n, width)),
        numeral(text::padded_number_text(n, width)) == n,
        text::padded_number_text(n, width).len() >= width,
{
    lemma_digits_stand_for(n);
    let ds = text::number_text(n);
    if n == 0 {
        assert(ds.drop_last() =~= Seq::empty());
        assert(numeral(ds.drop_last()) == 0);
    }
    if ds.len() < width {
        lemma_zeros_before((width - ds.len()) as nat, ds);
    }
}

} // verus!
