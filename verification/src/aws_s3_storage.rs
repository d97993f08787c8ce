//! What the S3 storage works out: object addresses, range headers, paging, and
//! the buffer of a file that is being written.

use vstd::prelude::*;
use vstd::string::StringExecFns;
use crate::bytes::push_bytes;
use crate::text::{begins_with, chars_of, decimal, push_decimal, starts_with, string_of};

verus! {

/// What an object's address begins with.
pub const S3_PREFIX: &'static str = "s3://";

/// An object's bucket and key.
#[derive(Debug)]
pub struct S3Path {
    pub bucket: String,
    pub key: String,
}

/// Where a character first stands; the length where it does not.
pub open spec fn first_index(s: Seq<char>, c: char) -> int
    decreases s.len(),
{
    if s.len() == 0 || s[0] == c {
        0
    } else {
        1 + first_index(s.skip(1), c)
    }
}

/// The bucket and key of an address: what stands before the first slash after
/// the prefix, and what stands after it.
pub open spec fn s3_parts(path: Seq<char>) -> Result<(Seq<char>, Seq<char>), Seq<char>> {
    let rest = path.skip(S3_PREFIX@.len() as int);
    let slash = first_index(rest, '/');
    if !begins_with(path, S3_PREFIX@) {
        Err("expected an s3:// URL, got "@ + path)
    } else if slash >= rest.len() {
        Err("s3 URL is missing a key: "@ + path)
    } else {
        Ok((rest.take(slash), rest.skip(slash + 1)))
    }
}

proof fn lemma_first_index(s: Seq<char>, c: char, i: int)
    requires
        0 <= i <= s.len(),
        forall|j: int| 0 <= j < i ==> #[trigger] s[j] != c,
        i < s.len() ==> s[i] == c,
    ensures
        first_index(s, c) == i,
    decreases s.len(),
{
    if s.len() > 0 && i > 0 {
        let rest = s.skip(1);
        assert forall|j: int| 0 <= j < i - 1 implies #[trigger] rest[j] != c by {
            assert(rest[j] == s[j + 1]);
        }
        lemma_first_index(rest, c, i - 1);
    }
}

/// Split an object's address into bucket and key.
pub fn parse_s3_path(path: &str) -> (r: Result<S3Path, String>)
    ensures
        match s3_parts(path@) {
            Ok((bucket, key)) => r is Ok && r->Ok_0.bucket@ == bucket && r->Ok_0.key@ == key,
            Err(m) => r is Err && r->Err_0@ == m,
        },
{
    proof {
        reveal_strlit("s3://");
    }
    if !starts_with(path, S3_PREFIX) {
        let mut m = "expected an s3:// URL, got ".to_string();
        m.append(path);
        return Err(m);
    }
    let chars = chars_of(path);
    let len: usize = chars.len();
    let from: usize = 5;
    let ghost rest = path@.skip(5);
    let mut i: usize = from;
    while i < len && chars[i] != '/'
        invariant
            chars@ == path@,
            len == chars@.len(),
            from == 5,
            from <= i <= len,
            rest == path@.skip(5),
            forall|j: int| 0 <= j < i - from ==> #[trigger] rest[j] != '/',
        decreases len - i,
    {
        assert(rest[i - from] == path@[i as int]);
        i += 1;
    }
    proof {
        if i < len {
            assert(rest[i - from] == '/');
        }
        lemma_first_index(rest, '/', i - from);
    }
    if i == len {
        let mut m = "s3 URL is missing a key: ".to_string();
        m.append(path);
        return Err(m);
    }
    let bucket = string_of(&chars, from, i);
    let key = string_of(&chars, i + 1, len);
    proof {
        assert(bucket@ =~= rest.take(i - from));
        assert(key@ =~= rest.skip(i - from + 1));
    }
    Ok(S3Path { bucket, key })
}

/// Putting a bucket without a slash and a key together and taking them apart
/// again gives the bucket and the key.
pub proof fn law_addresses_are_taken_apart(bucket: Seq<char>, key: Seq<char>)
    requires
        !bucket.contains('/'),
    ensures
        s3_parts(S3_PREFIX@ + bucket + seq!['/'] + key) == Ok::<(Seq<char>, Seq<char>), Seq<char>>(
            (bucket, key),
        ),
{
    let path = S3_PREFIX@ + bucket + seq!['/'] + key;
    let n = S3_PREFIX@.len() as int;
    let rest = path.skip(n);
    assert(path.take(n) =~= S3_PREFIX@);
    assert(rest =~= bucket + seq!['/'] + key);
    assert forall|j: int| 0 <= j < bucket.len() implies #[trigger] rest[j] != '/' by {
        assert(rest[j] == bucket[j]);
        assert(bucket.contains(bucket[j]));
    }
    assert(rest[bucket.len() as int] == '/');
    lemma_first_index(rest, '/', bucket.len() as int);
    assert(rest.take(bucket.len() as int) =~= bucket);
    assert(rest.skip(bucket.len() as int + 1) =~= key);
}

/// The `Range` header for the bytes from `start` up to, but not including, `end`.
pub open spec fn range_text(start: u64, end: u64) -> Seq<char> {
    "bytes="@ + decimal(start as nat) + "-"@ + decimal(
        if end == 0 {
            0
        } else {
            (end - 1) as nat
        },
    )
}

/// The `Range` header for the bytes from `start` up to, but not including, `end`:
/// S3 counts the last byte in.
pub fn range_header(start: u64, end: u64) -> (r: String)
    ensures
        r@ == range_text(start, end),
{
    let mut r = "bytes=".to_string();
    push_decimal(&mut r, start);
    r.append("-");
    push_decimal(&mut r, end.saturating_sub(1));
    r
}

/// The size of an object as S3 reports it: 0 where it does not, or reports a
/// negative one.
pub fn object_size(content_length: Option<i64>) -> (r: u64)
    ensures
        r == match content_length {
            Some(n) => if n > 0 {
                n as int
            } else {
                0
            },
            None => 0,
        },
{
    match content_length {
        Some(n) => if n > 0 {
            n as u64
        } else {
            0
        },
        None => 0,
    }
}

/// The page of a listing to ask for next: none where the listing is complete, or
/// does not say how to go on.
pub fn next_page(truncated: Option<bool>, token: Option<String>) -> (r: Option<String>)
    ensures
        r == if truncated == Some(true) {
            token
        } else {
            None
        },
{
    match truncated {
        Some(true) => token,
        _ => None,
    }
}

/// The contents of a file that is being written. They are kept until the file is
/// closed, and then sent as one object.
#[derive(Debug)]
pub struct WriteBuffer {
    contents: Option<Vec<u8>>,
}

impl View for WriteBuffer {
    /// The contents; `None` once the file is closed.
    type V = Option<Seq<u8>>;

    closed spec fn view(&self) -> Option<Seq<u8>> {
        match self.contents {
            Some(v) => Some(v@),
            None => None,
        }
    }
}

impl WriteBuffer {
    /// A file with no contents.
    pub fn new() -> (r: WriteBuffer)
        ensures
            r@ == Some(Seq::<u8>::empty()),
    {
        WriteBuffer { contents: Some(Vec::new()) }
    }

    /// Add to the contents of a file that is not closed.
    pub fn write(&mut self, bytes: &[u8]) -> (r: Result<(), &'static str>)
        ensures
            match old(self)@ {
                Some(c) => r is Ok && final(self)@ == Some(c + bytes@),
                None => r is Err && r->Err_0@ == "Cannot write to a closed file"@ && final(self)@
                    is None,
            },
    {
        match self.contents.take() {
            Some(mut c) => {
                push_bytes(&mut c, bytes);
                self.contents = Some(c);
                Ok(())
            },
            None => Err("Cannot write to a closed file"),
        }
    }

    /// Close a file and hand its contents out, once.
    pub fn close(&mut self) -> (r: Result<Vec<u8>, &'static str>)
        ensures
            match old(self)@ {
                Some(c) => r is Ok && r->Ok_0@ == c,
                None => r is Err && r->Err_0@ == "File already closed"@,
            },
            final(self)@ is None,
    {
        match self.contents.take() {
            Some(c) => Ok(c),
            None => Err("File already closed"),
        }
    }
}

} // verus!
