//! Where finished files go: keys below a root, and what a listing shows.
use vstd::prelude::*;

use crate::keys;
use crate::text;

verus! {

/// What a store can fail with.
#[derive(Debug)]
pub enum StoreError {
    Io { key: String, source: String },
    Rejected { key: String, message: String },
    Config(String),
}

/// What a store's error says.
pub open spec fn store_error_text(e: StoreError) -> Seq<char> {
    match e {
        StoreError::Io { key, source } => "i/o error at "@ + key@ + ": "@ + source@,
        StoreError::Rejected { key, message } => "object store rejected "@ + key@ + ": "@
            + message@,
        StoreError::Config(message) => message@,
    }
}

impl StoreError {
    /// What went wrong, in words.
    pub fn message(&self) -> (m: String)
        ensures
            m@ == store_error_text(*self),
    {
        let mut out: Vec<char> = Vec::new();
        match self {
            StoreError::Io { key, source } => {
                text::push_text(&mut out, "i/o error at ");
                text::push_text(&mut out, key.as_str());
                text::push_text(&mut out, ": ");
                text::push_text(&mut out, source.as_str());
            },
            StoreError::Rejected { key, message } => {
                text::push_text(&mut out, "object store rejected ");
                text::push_text(&mut out, key.as_str());
                text::push_text(&mut out, ": ");
                text::push_text(&mut out, message.as_str());
            },
            StoreError::Config(message) => {
                text::push_text(&mut out, message.as_str());
            },
        }
        text::text_of(&out)
    }
}

/// Whether the characters from one place up to another are a whole component of
/// a path.
pub open spec fn is_component(key: Seq<char>, i: int, j: int) -> bool {
    &&& 0 <= i <= j <= key.len()
    &&& i == 0 || key[i - 1] == '/'
    &&& j == key.len() || key[j] == '/'
    &&& forall|k: int| i <= k < j ==> #[trigger] key[k] != '/'
}

/// Whether a component of a path leads out of where it stands: one that means
/// the directory above, or the first where it means the directory itself.
pub open spec fn leads_away(key: Seq<char>, i: int, j: int) -> bool {
    is_component(key, i, j) && (key.subrange(i, j) == seq!['.', '.'] || (i == 0 && key.subrange(
        i,
        j,
    ) == seq!['.']))
}

/// Why a key is refused, if it is.
pub open spec fn refusal(key: Seq<char>) -> Option<Seq<char>> {
    if key.len() == 0 {
        Some("empty key"@)
    } else if key[0] == '/' {
        Some("absolute keys would escape the store root"@)
    } else if exists|i: int, j: int| leads_away(key, i, j) {
        Some("key contains a traversal or root component"@)
    } else {
        None
    }
}

/// A directory on this machine.
#[derive(Debug)]
pub struct LocalStore {
    pub root: String,
}

impl Clone for LocalStore {
    fn clone(&self) -> (s: LocalStore)
        ensures
            s == *self,
    {
        LocalStore { root: self.root.clone() }
    }
}

impl LocalStore {
    pub fn new(root: &str) -> (s: LocalStore)
        ensures
            s.root@ == root@,
    {
        LocalStore { root: root.to_owned() }
    }

    /// Where this store writes, for an operator.
    pub fn describe(&self) -> (d: String)
        ensures
            d@ == "local:"@ + self.root@,
    {
        let mut out = text::characters("local:");
        text::push_text(&mut out, self.root.as_str());
        text::text_of(&out)
    }

    /// The path of a key below the root. A key that would leave the root is
    /// refused.
    pub fn resolve(&self, key: &str) -> (r: Result<String, StoreError>)
        ensures
            match r {
                Ok(path) => refusal(key@) is None && path@ == text::joined(self.root@, key@),
                Err(StoreError::Rejected { key: k, message }) => k@ == key@ && refusal(key@)
                    == Some(message@),
                Err(_) => false,
            },
    {
        let chars = text::characters(key);
        if chars.len() == 0 {
            return Err(rejected(key, "empty key"));
        }
        if chars[0] == '/' {
            return Err(rejected(key, "absolute keys would escape the store root"));
        }
        if leads_out(&chars) {
            return Err(rejected(key, "key contains a traversal or root component"));
        }
        Ok(text::join(self.root.as_str(), key))
    }
}

/// A refused key.
fn rejected(key: &str, message: &str) -> (e: StoreError)
    ensures
        e matches StoreError::Rejected { key: k, message: m } && k@ == key@ && m@ == message@,
{
    StoreError::Rejected { key: key.to_owned(), message: message.to_owned() }
}

/// Whether a component that ends at a place leads away.
fn component_leads_away(chars: &[char], i: usize, j: usize) -> (b: bool)
    requires
        is_component(chars@, i as int, j as int),
    ensures
        b == leads_away(chars@, i as int, j as int),
{
    let part = text::part_of(chars, i, j);
    let up: Vec<char> = vec!['.', '.'];
    let here: Vec<char> = vec!['.'];
    assert(up@ =~= seq!['.', '.']);
    assert(here@ =~= seq!['.']);
    text::same_chars(&part, &up) || (i == 0 && text::same_chars(&part, &here))
}

/// Whether a component leads away.
fn leads_out(chars: &[char]) -> (b: bool)
    ensures
        b == exists|i: int, j: int| leads_away(chars@, i, j),
{
    let mut start: usize = 0;
    let mut i: usize = 0;
    while i < chars.len()
        invariant
            start <= i <= chars@.len(),
            start == 0 || chars@[start - 1] == '/',
            forall|k: int| start <= k < i ==> #[trigger] chars@[k] != '/',
            forall|a: int, b: int| b < start ==> !#[trigger] leads_away(chars@, a, b),
        decreases chars@.len() - i,
    {
        if chars[i] == '/' {
            if component_leads_away(chars, start, i) {
                assert(leads_away(chars@, start as int, i as int));
                return true;
            }
            proof {
                assert forall|a: int, b: int| b < i + 1 implies !#[trigger] leads_away(
                    chars@,
                    a,
                    b,
                ) by {
                    if is_component(chars@, a, b) && b >= start {
                        lemma_component_start(chars@, a, b, start as int, i as int);
                    }
                }
            }
            start = i + 1;
        }
        i += 1;
    }
    if component_leads_away(chars, start, chars.len()) {
        assert(leads_away(chars@, start as int, chars@.len() as int));
        return true;
    }
    proof {
        assert forall|a: int, b: int| !#[trigger] leads_away(chars@, a, b) by {
            if is_component(chars@, a, b) && b >= start {
                lemma_component_start(chars@, a, b, start as int, chars@.len() as int);
            }
        }
    }
    false
}

/// A component that ends between the start of another and its end is that
/// component.
proof fn lemma_component_start(key: Seq<char>, a: int, b: int, start: int, end: int)
    requires
        is_component(key, a, b),
        is_component(key, start, end),
        start <= b <= end,
    ensures
        a == start,
        b == end,
{
    if b < end {
        assert(key[b] != '/');
    }
    if a < start {
        assert(key[start - 1] != '/');
    }
    if start < a {
        assert(key[a - 1] != '/');
    }
}

/// Whether a file is one still being written: its name has the extension that
/// files carry until they are complete.
pub open spec fn half_written(path: Seq<char>) -> bool {
    let name = keys::after_last(path, '/');
    name.len() > 8 && text::ends(name, ".partial"@)
}

/// A path as a key: its separators are slashes.
pub open spec fn key_of(path: Seq<char>) -> Seq<char> {
    path.map_values(
        |c: char|
            if c == '\\' {
                '/'
            } else {
                c
            },
    )
}

/// The keys that a listing shows of the files found below the root: those that
/// are complete and begin with the prefix.
pub open spec fn shown(found: Seq<String>, prefix: Seq<char>) -> Seq<Seq<char>>
    decreases found.len(),
{
    if found.len() == 0 {
        Seq::empty()
    } else {
        let rest = shown(found.drop_last(), prefix);
        let path = found.last()@;
        if !half_written(path) && text::begins(key_of(path), prefix) {
            rest.push(key_of(path))
        } else {
            rest
        }
    }
}

/// A path as a key.
fn to_key(chars: &[char]) -> (key: Vec<char>)
    ensures
        key@ == key_of(chars@),
{
    let mut out: Vec<char> = Vec::new();
    let mut i: usize = 0;
    while i < chars.len()
        invariant
            i <= chars@.len(),
            out@ == key_of(chars@.take(i as int)),
        decreases chars@.len() - i,
    {
        let c: char = chars[i];
        out.push(
            if c == '\\' {
                '/'
            } else {
                c
            },
        );
        i += 1;
        assert(out@ =~= key_of(chars@.take(i as int)));
    }
    assert(chars@.take(chars@.len() as int) =~= chars@);
    out
}

/// The keys that a listing shows, sorted.
pub fn listing(found: &[String], prefix: &str) -> (listed: Vec<String>)
    ensures
        text::sorted(text::views(listed@)),
        text::views(listed@).to_multiset() == shown(found@, prefix@).to_multiset(),
{
    let start = text::characters(prefix);
    let ending = text::characters(".partial");
    let mut out: Vec<String> = Vec::new();
    let mut i: usize = 0;
    assert(found@.take(0) =~= Seq::empty());
    assert(text::views(out@) =~= Seq::empty());
    while i < found.len()
        invariant
            i <= found@.len(),
            start@ == prefix@,
            ending@ == ".partial"@,
            text::views(out@) == shown(found@.take(i as int), prefix@),
        decreases found@.len() - i,
    {
        let chars = text::characters(found[i].as_str());
        let name = keys::tail_after(&chars, '/');
        let key = to_key(&chars);
        let ghost before = out@;
        assert(found@.take(i + 1).drop_last() =~= found@.take(i as int));
        assert(found@.take(i + 1).last() == found@[i as int]);
        let partial = name.len() > 8 && text::ends_with(&name, &ending);
        if !partial && text::begins_with(&key, &start) {
            out.push(text::text_of(&key));
            assert(text::views(out@) =~= text::views(before).push(key@));
        }
        i += 1;
    }
    assert(found@.take(found@.len() as int) =~= found@);
    text::sort_texts(out)
}

/// A key that is accepted names something below the root: it is not empty, does
/// not start at the root, and no component of it means the directory above. Every
/// other key of plain components is accepted.
pub proof fn law_an_accepted_key_stays_below(key: Seq<char>)
    ensures
        refusal(key) is None ==> key.len() > 0 && key[0] != '/' && forall|i: int, j: int|
            #[trigger] is_component(key, i, j) ==> key.subrange(i, j) != seq!['.', '.'],
        key.len() > 0 && key[0] != '/' && (forall|i: int, j: int|
            #[trigger] is_component(key, i, j) ==> key.subrange(i, j) != seq!['.', '.']
                && key.subrange(i, j) != seq!['.']) ==> refusal(key) is None,
{
    if refusal(key) is None {
        assert forall|i: int, j: int| #[trigger] is_component(key, i, j) implies key.subrange(i, j)
            != seq!['.', '.'] by {
            assert(!leads_away(key, i, j));
        }
    }
    if exists|i: int, j: int| leads_away(key, i, j) {
        let (i, j) = choose|i: int, j: int| leads_away(key, i, j);
        assert(is_component(key, i, j));
    }
}

/// A path is turned into a key one character for one: separators of either kind
/// become slashes, and nothing else changes.
pub proof fn law_a_key_has_slashes(path: Seq<char>)
    ensures
        key_of(path).len() == path.len(),
        forall|i: int|
            0 <= i < path.len() ==> #[trigger] key_of(path)[i] == (if path[i] == '\\' {
                '/'
            } else {
                path[i]
            }),
{
}

/// A listing leaves out exactly what is not complete or not under the prefix: one
/// file more adds its key, or nothing.
pub proof fn law_a_listing_shows_every_complete_file(
    found: Seq<String>,
    file: String,
    prefix: Seq<char>,
)
    ensures
        shown(Seq::empty(), prefix).len() == 0,
        ({
            let before = shown(found, prefix);
            let key = key_of(file@);
            let kept = !half_written(file@) && prefix.len() <= key.len() && forall|i: int|
                0 <= i < prefix.len() ==> #[trigger] key[i] == prefix[i];
            shown(found.push(file), prefix) == (if kept {
                before.push(key)
            } else {
                before
            })
        }),
{
    let more = found.push(file);
    assert(more.drop_last() =~= found);
    let key = key_of(file@);
    if prefix.len() <= key.len() {
        if text::begins(key, prefix) {
            assert forall|i: int| 0 <= i < prefix.len() implies #[trigger] key[i] == prefix[i] by {
                assert(key.take(prefix.len() as int)[i] == prefix[i]);
            }
        } else if forall|i: int| 0 <= i < prefix.len() ==> #[trigger] key[i] == prefix[i] {
            assert(key.take(prefix.len() as int) =~= prefix);
        }
    }
}

/// A file is taken for unfinished by the end of its name alone, and never by that
/// of a directory that it lies in.
pub proof fn law_only_a_name_tells_what_is_unfinished(dir: Seq<char>, stem: Seq<char>)
    requires
        forall|i: int| 0 <= i < stem.len() ==> #[trigger] stem[i] != '/',
    ensures
        stem.len() > 0 ==> half_written(dir + seq!['/'] + stem + ".partial"@),
        half_written(dir + seq!['/'] + stem) ==> text::ends(stem, ".partial"@),
{
    reveal_strlit(".partial");
    let whole = dir + seq!['/'] + stem;
    lemma_name_of(dir, stem);
    let longer = stem + ".partial"@;
    assert(dir + seq!['/'] + stem + ".partial"@ =~= dir + seq!['/'] + longer);
    lemma_name_of(dir, longer);
    assert(longer.skip(longer.len() - 8) =~= ".partial"@);
}

/// What follows the last separator of a directory and a name is the name.
proof fn lemma_name_of(dir: Seq<char>, name: Seq<char>)
    requires
        forall|i: int| 0 <= i < name.len() ==> #[trigger] name[i] != '/',
    ensures
        keys::after_last(dir + seq!['/'] + name, '/') == name,
{
    let path = dir + seq!['/'] + name;
    keys::law_the_tail_starts_after_the_last(path, '/');
    let tail = keys::after_last(path, '/');
    let n = path.len() - tail.len();
    let start = dir.len() + 1;
    if n < start {
        assert(path.skip(n)[start - 1 - n] == path[start - 1]);
        assert(path[start - 1] == '/');
    }
    if n > start {
        assert(path[n - 1] == name[n - 1 - start]);
    }
    assert(tail =~= name);
}

} // verus!
