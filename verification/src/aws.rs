//! Which keys of a bucket this process may reach, and whether it may reach any.
use vstd::prelude::*;

use crate::store::StoreError;
use crate::text;

verus! {

/// What reaching a bucket can fail with.
#[derive(Debug)]
pub enum AwsError {
    /// The address, the environment or the credentials are wrong. The process
    /// should not run.
    Config(String),
    /// The service refused, or could not be reached, for one key.
    Rejected { key: String, message: String },
}

/// What an error says.
pub open spec fn aws_error_text(e: AwsError) -> Seq<char> {
    match e {
        AwsError::Config(message) => message@,
        AwsError::Rejected { key, message } => "s3 rejected "@ + key@ + ": "@ + message@,
    }
}

impl AwsError {
    /// What went wrong, in words.
    pub fn message(&self) -> (m: String)
        ensures
            m@ == aws_error_text(*self),
    {
        let mut out: Vec<char> = Vec::new();
        match self {
            AwsError::Config(message) => {
                text::push_text(&mut out, message.as_str());
            },
            AwsError::Rejected { key, message } => {
                text::push_text(&mut out, "s3 rejected ");
                text::push_text(&mut out, key.as_str());
                text::push_text(&mut out, ": ");
                text::push_text(&mut out, message.as_str());
            },
        }
        text::text_of(&out)
    }
}

/// The same failure of a store: what is fatal stays fatal, and what was one
/// operation's stays one operation's.
pub fn into_store_error(e: AwsError) -> (r: StoreError)
    ensures
        match e {
            AwsError::Config(m) => r == StoreError::Config(m),
            AwsError::Rejected { key, message } => r == (StoreError::Rejected { key, message }),
        },
{
    match e {
        AwsError::Config(message) => StoreError::Config(message),
        AwsError::Rejected { key, message } => StoreError::Rejected { key, message },
    }
}

/// The variable an operator sets to assert that the credentials are scoped.
pub const ACK_VAR: &'static str = "MA_S3_ACK_SCOPED_IAM";

/// What is said where the assertion is missing.
pub const INTERLOCK_REFUSAL: &'static str = "refusing to reach S3 without MA_S3_ACK_SCOPED_IAM=1. Set it only once an IAM user scoped to this one bucket prefix has replaced any root credentials — see the sequencing rule. Setting it asserts the scoping; `verify_scope` then tests it against the bucket and refuses to start if the credentials reach wider.";

/// What is said where a prefix is empty.
pub const EMPTY_PREFIX: &'static str = "an S3 handle must be scoped to a non-empty prefix";

/// Whether a text is the assertion.
pub open spec fn asserts_scoping(ack: Option<Seq<char>>) -> bool {
    ack == Some(seq!['1'])
}

/// The interlock, as a function of what the environment said: nothing but `1`
/// opens it.
pub fn check_interlock(ack: Option<&str>) -> (r: Result<(), AwsError>)
    ensures
        r is Ok <==> asserts_scoping(
            match ack {
                Some(s) => Some(s@),
                None => None,
            },
        ),
        r matches Err(e) ==> e matches AwsError::Config(m) && m@ == INTERLOCK_REFUSAL@,
{
    if let Some(s) = ack {
        proof {
            reveal_strlit("1");
            assert("1"@ =~= seq!['1']);
        }
        if text::same_text(s, "1") {
            return Ok(());
        }
    }
    Err(AwsError::Config(INTERLOCK_REFUSAL.to_owned()))
}

/// Whether an error, written out, says that the bucket may not be listed, as
/// opposed to the request never arriving.
pub open spec fn is_denial(rendered: Seq<char>) -> bool {
    ||| text::occurs(rendered, "AccessDenied"@)
    ||| text::occurs(rendered, "AllAccessDisabled"@)
    ||| text::occurs(rendered, "NoSuchBucket"@)
    ||| text::occurs(rendered, "403"@)
}

/// Whether an error, written out, says that the bucket may not be listed.
pub fn denied_shape(rendered: &str) -> (b: bool)
    ensures
        b == is_denial(rendered@),
{
    text::contains_text(rendered, "AccessDenied") || text::contains_text(
        rendered,
        "AllAccessDisabled",
    ) || text::contains_text(rendered, "NoSuchBucket") || text::contains_text(rendered, "403")
}

/// What came of asking for a listing of a whole bucket.
#[derive(Debug)]
pub enum Probe {
    /// It was listed.
    Listed,
    /// It was not; the error, written out.
    Failed(String),
}

/// What is said where credentials reach the whole bucket.
pub open spec fn too_wide_text(bucket: Seq<char>, prefix: Seq<char>) -> Seq<char> {
    "these credentials can list the whole of s3://"@ + bucket
        + ", so they are not scoped to the prefix "@ + text::quoted_text(prefix)
        + " they were given. "@ + ACK_VAR@
        + " asserts the scoping; this check tests it, and it failed.\nThe usual cause is an ambient root session or a default profile picked up from the environment — run with AWS_PROFILE set to the scoped user, and confirm with `aws sts get-caller-identity`. See the sequencing rule."@
}

/// What is said where a bucket could not be reached.
pub open spec fn unreachable_text(bucket: Seq<char>, rendered: Seq<char>) -> Seq<char> {
    "could not reach s3://"@ + bucket + " to verify credential scope: "@ + rendered
        + ". This is a connectivity or configuration failure, not a scoping result — startup is refused rather than assuming the credentials are confined."@
}

/// What a probe of the whole bucket means for a handle that is to be confined to
/// a prefix. A denial is the only proof of scoping: credentials that can list the
/// bucket are too wide, and a bucket that could not be reached proves nothing.
pub fn verify_scope(bucket: &str, prefix: &str, probe: &Probe) -> (r: Result<(), AwsError>)
    ensures
        match *probe {
            Probe::Listed => r matches Err(AwsError::Config(m)) && m@ == too_wide_text(
                bucket@,
                prefix@,
            ),
            Probe::Failed(rendered) => if is_denial(rendered@) {
                r is Ok
            } else {
                r matches Err(AwsError::Config(m)) && m@ == unreachable_text(bucket@, rendered@)
            },
        },
{
    match probe {
        Probe::Listed => {
            let mut out = text::characters("these credentials can list the whole of s3://");
            text::push_text(&mut out, bucket);
            text::push_text(&mut out, ", so they are not scoped to the prefix ");
            text::push_text(&mut out, text::quoted(prefix).as_str());
            text::push_text(&mut out, " they were given. ");
            text::push_text(&mut out, ACK_VAR);
            text::push_text(
                &mut out,
                " asserts the scoping; this check tests it, and it failed.\nThe usual cause is an ambient root session or a default profile picked up from the environment — run with AWS_PROFILE set to the scoped user, and confirm with `aws sts get-caller-identity`. See the sequencing rule.",
            );
            Err(AwsError::Config(text::text_of(&out)))
        },
        Probe::Failed(rendered) => {
            if denied_shape(rendered.as_str()) {
                return Ok(());
            }
            let mut out = text::characters("could not reach s3://");
            text::push_text(&mut out, bucket);
            text::push_text(&mut out, " to verify credential scope: ");
            text::push_text(&mut out, rendered.as_str());
            text::push_text(
                &mut out,
                ". This is a connectivity or configuration failure, not a scoping result — startup is refused rather than assuming the credentials are confined.",
            );
            Err(AwsError::Config(text::text_of(&out)))
        },
    }
}

/// The place of the first separator, or the text's length.
pub open spec fn first_slash(s: Seq<char>) -> int
    decreases s.len(),
{
    if s.len() == 0 || s[0] == '/' {
        0
    } else {
        1 + first_slash(s.drop_first())
    }
}

/// What an address names: a bucket, and a prefix without separators at its ends.
pub open spec fn uri_parts(rest: Seq<char>) -> (Seq<char>, Seq<char>) {
    let i = first_slash(rest);
    (rest.take(i), text::trimmed(rest.skip(i + 1), '/'))
}

/// Why an address is refused, if it is.
pub open spec fn uri_refusal(rest: Seq<char>) -> Option<Seq<char>> {
    if first_slash(rest) == rest.len() {
        Some(
            "s3://"@ + rest
                + " names no prefix. A prefix is required: this process should be scoped to one, and a writer that can reach a bucket root can overwrite everything in it. Use s3://"@
                + rest + "/<prefix>."@,
        )
    } else if uri_parts(rest).0.len() == 0 || uri_parts(rest).1.len() == 0 {
        Some("s3://"@ + rest + " is missing a bucket or a prefix"@)
    } else {
        None
    }
}

/// The first separator stands where nothing before it is one.
proof fn lemma_first_slash(s: Seq<char>, i: int)
    requires
        0 <= i <= s.len(),
        i < s.len() ==> s[i] == '/',
        forall|k: int| 0 <= k < i ==> #[trigger] s[k] != '/',
    ensures
        first_slash(s) == i,
    decreases s.len(),
{
    if i > 0 {
        assert(s[0] != '/');
        let rest = s.drop_first();
        assert forall|k: int| 0 <= k < i - 1 implies #[trigger] rest[k] != '/' by {
            assert(rest[k] == s[k + 1]);
        }
        lemma_first_slash(rest, i - 1);
    }
}

/// A bucket, confined to one key prefix.
#[derive(Debug)]
pub struct ScopedBucket {
    bucket: String,
    prefix: String,
}

impl Clone for ScopedBucket {
    fn clone(&self) -> (b: ScopedBucket)
        ensures
            b == *self,
    {
        proof {
            use_type_invariant(self);
        }
        ScopedBucket { bucket: self.bucket.clone(), prefix: self.prefix.clone() }
    }
}

impl ScopedBucket {
    /// The bucket's name.
    pub closed spec fn name(self) -> Seq<char> {
        self.bucket@
    }

    /// The prefix of every key.
    pub closed spec fn scope(self) -> Seq<char> {
        self.prefix@
    }

    /// Never the bucket's root.
    #[verifier::type_invariant]
    closed spec fn confined(self) -> bool {
        self.prefix@.len() > 0
    }

    /// Splits `bucket/prefix`, the part after `s3://`. The prefix is not
    /// optional.
    pub fn parse_uri(rest: &str) -> (r: Result<(String, String), AwsError>)
        ensures
            match r {
                Ok(parts) => uri_refusal(rest@) is None && (parts.0@, parts.1@) == uri_parts(
                    rest@,
                ),
                Err(AwsError::Config(m)) => uri_refusal(rest@) == Some(m@),
                Err(_) => false,
            },
    {
        let chars = text::characters(rest);
        let i: usize = text::first_place(&chars, '/');
        proof {
            lemma_first_slash(rest@, i as int);
        }
        if i == chars.len() {
            let mut out = text::characters("s3://");
            text::push_text(&mut out, rest);
            text::push_text(
                &mut out,
                " names no prefix. A prefix is required: this process should be scoped to one, and a writer that can reach a bucket root can overwrite everything in it. Use s3://",
            );
            text::push_text(&mut out, rest);
            text::push_text(&mut out, "/<prefix>.");
            return Err(AwsError::Config(text::text_of(&out)));
        }
        let bucket = text::part_of(&chars, 0, i);
        let after = text::part_of(&chars, i + 1, chars.len());
        assert(bucket@ =~= rest@.take(i as int));
        assert(after@ =~= rest@.skip(i + 1));
        let prefix = text::without_ends(&after, '/');
        if bucket.len() == 0 || prefix.len() == 0 {
            let mut out = text::characters("s3://");
            text::push_text(&mut out, rest);
            text::push_text(&mut out, " is missing a bucket or a prefix");
            return Err(AwsError::Config(text::text_of(&out)));
        }
        Ok((text::text_of(&bucket), text::text_of(&prefix)))
    }

    /// A handle confined to a prefix, once the scope has been verified.
    pub fn scoped(bucket: &str, prefix: &str) -> (r: Result<ScopedBucket, AwsError>)
        ensures
            match r {
                Ok(b) => b.name() == bucket@ && b.scope() == text::trimmed(prefix@, '/')
                    && b.scope().len() > 0,
                Err(e) => text::trimmed(prefix@, '/').len() == 0 && (e matches AwsError::Config(m)
                    && m@ == EMPTY_PREFIX@),
            },
    {
        let chars = text::characters(prefix);
        let inner = text::without_ends(&chars, '/');
        if inner.len() == 0 {
            return Err(AwsError::Config(EMPTY_PREFIX.to_owned()));
        }
        Ok(ScopedBucket { bucket: bucket.to_owned(), prefix: text::text_of(&inner) })
    }

    /// Where this handle reaches, for an operator.
    pub fn describe(&self) -> (d: String)
        ensures
            d@ == "s3://"@ + self.name() + "/"@ + self.scope(),
    {
        let mut out = text::characters("s3://");
        text::push_text(&mut out, self.bucket.as_str());
        text::push_text(&mut out, "/");
        text::push_text(&mut out, self.prefix.as_str());
        text::text_of(&out)
    }

    /// The absolute key for a caller's relative one: always below the prefix.
    pub fn key(&self, key: &str) -> (k: String)
        ensures
            k@ == self.scope().push('/') + text::trim_front(key@, '/'),
            text::begins(k@, self.scope().push('/')),
    {
        let chars = text::characters(key);
        let relative = text::without_front(&chars, '/');
        let mut out = text::characters(self.prefix.as_str());
        out.push('/');
        text::push_all(&mut out, &relative);
        assert(out@.take(self.scope().len() as int + 1) =~= self.scope().push('/'));
        text::text_of(&out)
    }

    /// The absolute keys of a listing, relative to the prefix and sorted. A key
    /// that is not below the prefix is passed over.
    pub fn relative_keys(&self, found: &[String]) -> (listed: Vec<String>)
        ensures
            text::sorted(text::views(listed@)),
            text::views(listed@).to_multiset() == below(found@, self.scope().push('/')).to_multiset(),
    {
        let mut start = text::characters(self.prefix.as_str());
        start.push('/');
        let mut out: Vec<String> = Vec::new();
        let mut i: usize = 0;
        assert(found@.take(0) =~= Seq::empty());
        assert(text::views(out@) =~= Seq::empty());
        while i < found.len()
            invariant
                i <= found@.len(),
                start@ == self.scope().push('/'),
                text::views(out@) == below(found@.take(i as int), start@),
            decreases found@.len() - i,
        {
            let chars = text::characters(found[i].as_str());
            let ghost before = out@;
            assert(found@.take(i + 1).drop_last() =~= found@.take(i as int));
            assert(found@.take(i + 1).last() == found@[i as int]);
            if text::begins_with(&chars, &start) {
                let rest = text::part_of(&chars, start.len(), chars.len());
                assert(rest@ =~= found@[i as int]@.skip(start@.len() as int));
                out.push(text::text_of(&rest));
                assert(text::views(out@) =~= text::views(before).push(rest@));
            }
            i += 1;
        }
        assert(found@.take(found@.len() as int) =~= found@);
        text::sort_texts(out)
    }
}

/// The keys that begin with a text, without it.
pub open spec fn below(found: Seq<String>, start: Seq<char>) -> Seq<Seq<char>>
    decreases found.len(),
{
    if found.len() == 0 {
        Seq::empty()
    } else {
        let rest = below(found.drop_last(), start);
        let key = found.last()@;
        if text::begins(key, start) {
            rest.push(key.skip(start.len() as int))
        } else {
            rest
        }
    }
}

/// Where an operator's address leads.
#[derive(Debug)]
pub enum Target {
    /// A bucket: the part after `s3://`.
    Bucket(String),
    /// A directory on this machine.
    Directory(String),
}

/// Where an operator's address leads: a bucket if it begins with `s3://`, a
/// directory otherwise.
pub fn target_of(uri: &str) -> (t: Target)
    ensures
        match t {
            Target::Bucket(rest) => text::begins(uri@, "s3://"@) && rest@ == uri@.skip(5),
            Target::Directory(path) => !text::begins(uri@, "s3://"@) && path@ == uri@,
        },
{
    proof {
        reveal_strlit("s3://");
    }
    let chars = text::characters(uri);
    let scheme = text::characters("s3://");
    if text::begins_with(&chars, &scheme) {
        let rest = text::part_of(&chars, 5, chars.len());
        assert(rest@ =~= uri@.skip(5));
        Target::Bucket(text::text_of(&rest))
    } else {
        Target::Directory(uri.to_owned())
    }
}

/// A key is taken apart at its prefix: one key more adds what follows the prefix,
/// or nothing where it does not begin with it.
pub proof fn law_a_listing_is_relative_to_its_prefix(
    found: Seq<String>,
    key: String,
    start: Seq<char>,
)
    ensures
        below(Seq::empty(), start).len() == 0,
        forall|name: Seq<char>|
            key@ == #[trigger] (start + name) ==> below(found.push(key), start) == below(
                found,
                start,
            ).push(name),
        (forall|name: Seq<char>| key@ != #[trigger] (start + name)) ==> below(
            found.push(key),
            start,
        ) == below(found, start),
{
    let more = found.push(key);
    assert(more.drop_last() =~= found);
    let n = start.len() as int;
    assert forall|name: Seq<char>| key@ == #[trigger] (start + name) implies below(more, start)
        == below(found, start).push(name) by {
        assert(key@.take(n) =~= start);
        assert(key@.skip(n) =~= name);
    }
    if text::begins(key@, start) {
        assert(key@ =~= start + key@.skip(n));
    }
}

/// An address is split at its first separator: a bucket's name holds none, and the
/// bucket, a separator and what follows make the whole address.
pub proof fn law_an_address_is_split_at_its_first_separator(bucket: Seq<char>, path: Seq<char>)
    requires
        forall|i: int| 0 <= i < bucket.len() ==> #[trigger] bucket[i] != '/',
    ensures
        uri_parts(bucket + seq!['/'] + path) == (bucket, text::trimmed(path, '/')),
        uri_refusal(bucket) is Some,
        uri_refusal(bucket + seq!['/'] + path) is None <==> bucket.len() > 0 && exists|i: int|
            0 <= i < path.len() && #[trigger] path[i] != '/',
{
    let rest = bucket + seq!['/'] + path;
    lemma_first_slash(rest, bucket.len() as int);
    lemma_first_slash(bucket, bucket.len() as int);
    assert(rest.take(bucket.len() as int) =~= bucket);
    assert(rest.skip(bucket.len() as int + 1) =~= path);
    text::law_trimming_takes_only_the_ends(path, '/');
    let (i, j) = choose|i: int, j: int|
        {
            &&& 0 <= i <= j <= path.len()
            &&& #[trigger] path.subrange(i, j) == text::trimmed(path, '/')
            &&& forall|k: int| 0 <= k < i ==> #[trigger] path[k] == '/'
            &&& forall|k: int| j <= k < path.len() ==> #[trigger] path[k] == '/'
        };
    if text::trimmed(path, '/').len() > 0 {
        assert(path.subrange(i, j)[0] == path[i]);
        assert(path[i] != '/');
    } else if exists|k: int| 0 <= k < path.len() && #[trigger] path[k] != '/' {
        let k = choose|k: int| 0 <= k < path.len() && #[trigger] path[k] != '/';
        assert(i <= k < j);
    }
}

} // verus!
