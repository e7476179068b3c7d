//! Object-store addressing: where output goes, and the keys and content types
//! of what is put there.
use vstd::prelude::*;
use crate::text::{chars_of, ends_with, find_char, has_prefix, has_suffix, index_of, starts_with};

verus! {

/// Where output goes: a local directory or a bucket of an S3-compatible store.
#[derive(Debug, Clone)]
pub enum OutputDestination {
    Local(String),
    S3 { bucket: String, prefix: String },
}

/// Whether a destination text names a remote store.
pub open spec fn is_remote(s: Seq<char>) -> bool {
    has_prefix(s, "s3://"@) || has_prefix(s, "r2://"@)
}

/// The bucket of a remote destination text: up to the first `/` after the
/// scheme.
pub open spec fn bucket_of(s: Seq<char>) -> Seq<char> {
    let rest = s.subrange(5, s.len() as int);
    rest.subrange(0, index_of(rest, '/'))
}

/// The key prefix of a remote destination text: what follows the bucket's
/// `/`, or nothing.
pub open spec fn prefix_of(s: Seq<char>) -> Seq<char> {
    let rest = s.subrange(5, s.len() as int);
    let k = index_of(rest, '/');
    if k < rest.len() {
        rest.subrange(k + 1, rest.len() as int)
    } else {
        Seq::empty()
    }
}

impl OutputDestination {
    /// Reads a destination: `s3://bucket/prefix` or `r2://bucket/prefix` name
    /// a remote store, anything else a local path.
    pub fn from_str(s: &str) -> (r: OutputDestination)
        ensures
            is_remote(s@) ==> (r matches OutputDestination::S3 { bucket, prefix } && bucket@ == bucket_of(s@)
                && prefix@ == prefix_of(s@)),
            !is_remote(s@) ==> (r matches OutputDestination::Local(p) && p@ == s@),
    {
        proof {
            reveal_strlit("s3://");
            reveal_strlit("r2://");
        }
        let cs = chars_of(s);
        if !(starts_with(&cs, "s3://") || starts_with(&cs, "r2://")) {
            return OutputDestination::Local(String::from_str(s));
        }
        let n = cs.len();
        let k = find_char(&cs, 5, '/');
        let bucket = String::from_str(s.substring_char(5, k));
        let prefix = if k < n {
            String::from_str(s.substring_char(k + 1, n))
        } else {
            String::from_str(s.substring_char(n, n))
        };
        proof {
            let rest = s@.subrange(5, s@.len() as int);
            assert(rest.subrange(0, index_of(rest, '/')) =~= s@.subrange(5, k as int));
            if k < n {
                assert(rest.subrange(index_of(rest, '/') + 1, rest.len() as int) =~= s@.subrange(k + 1, n as int));
            } else {
                assert(s@.subrange(n as int, n as int) =~= Seq::<char>::empty());
            }
        }
        OutputDestination::S3 { bucket, prefix }
    }
}

/// `s` without its trailing `/` characters.
pub open spec fn trim_trailing_slashes(s: Seq<char>) -> Seq<char>
    decreases s.len(),
{
    if s.len() > 0 && s.last() == '/' {
        trim_trailing_slashes(s.drop_last())
    } else {
        s
    }
}

/// The store key of `key` under `prefix`: `key` itself under an empty prefix,
/// else the prefix without trailing `/`, a `/`, and `key`.
pub open spec fn object_key_of(prefix: Seq<char>, key: Seq<char>) -> Seq<char> {
    if prefix.len() == 0 {
        key
    } else {
        trim_trailing_slashes(prefix) + "/"@ + key
    }
}

/// The store key of `key` under `prefix`.
pub fn object_key(prefix: &str, key: &str) -> (r: String)
    ensures
        r@ == object_key_of(prefix@, key@),
{
    let cs = chars_of(prefix);
    if cs.len() == 0 {
        return String::from_str(key);
    }
    let mut end = cs.len();
    assert(prefix@.subrange(0, end as int) =~= prefix@);
    while end > 0 && cs[end - 1] == '/'
        invariant
            end <= cs@.len(),
            cs@ == prefix@,
            trim_trailing_slashes(prefix@) == trim_trailing_slashes(prefix@.subrange(0, end as int)),
        decreases end,
    {
        assert(prefix@.subrange(0, end as int).drop_last() =~= prefix@.subrange(0, end - 1));
        end = end - 1;
    }
    let mut r = String::from_str(prefix.substring_char(0, end));
    r.append("/");
    r.append(key);
    r
}

/// The content type of a stored object: JSON for `.json` keys, raw bytes
/// otherwise.
pub open spec fn content_type_of(key: Seq<char>) -> Seq<char> {
    if has_suffix(key, ".json"@) {
        "application/json"@
    } else {
        "application/octet-stream"@
    }
}

/// The content type of the object stored under `key`.
pub fn content_type_for(key: &str) -> (r: &'static str)
    ensures
        r@ == content_type_of(key@),
{
    if ends_with(&chars_of(key), ".json") {
        "application/json"
    } else {
        "application/octet-stream"
    }
}

/// The `s3://bucket/key` URL of a stored object.
pub fn s3_url(bucket: &str, key: &str) -> (r: String)
    ensures
        r@ == "s3://"@ + bucket@ + "/"@ + key@,
{
    let mut r = String::from_str("s3://");
    r.append(bucket);
    r.append("/");
    r.append(key);
    r
}

/// The key of the persisted date axis, relative to the store root.
pub open spec fn is_axis_key(key: Seq<char>) -> bool {
    key == "dates.json"@
}

/// The keys of `keys` that satisfy `axis == is_axis_key(key)`, in order.
pub open spec fn keys_where(keys: Seq<Seq<char>>, axis: bool) -> Seq<Seq<char>>
    decreases keys.len(),
{
    if keys.len() == 0 {
        Seq::empty()
    } else {
        let r = keys_where(keys.drop_last(), axis);
        if is_axis_key(keys.last()) == axis {
            r.push(keys.last())
        } else {
            r
        }
    }
}

/// Orders the keys of a staged store for upload: every other object first,
/// in the given order, then `dates.json`, so that an interrupted upload
/// never leaves an axis that points past the chunks stored.
pub fn upload_order(keys: &Vec<String>) -> (r: Vec<String>)
    ensures
        r.deep_view() == keys_where(keys.deep_view(), false) + keys_where(keys.deep_view(), true),
{
    let ghost kv = keys.deep_view();
    let mut first: Vec<String> = Vec::new();
    let mut last: Vec<String> = Vec::new();
    let axis = String::from_str("dates.json");
    let mut i: usize = 0;
    while i < keys.len()
        invariant
            kv == keys.deep_view(),
            axis@ == "dates.json"@,
            i <= keys@.len(),
            first.deep_view() == keys_where(kv.subrange(0, i as int), false),
            last.deep_view() == keys_where(kv.subrange(0, i as int), true),
        decreases keys@.len() - i,
    {
        let ghost sub = kv.subrange(0, i + 1);
        assert(sub.drop_last() =~= kv.subrange(0, i as int));
        assert(sub.last() == keys@[i as int]@);
        let k = keys[i].clone();
        if keys[i] == axis {
            let ghost o = last.deep_view();
            last.push(k);
            assert(last.deep_view() =~= o.push(keys@[i as int]@));
        } else {
            let ghost o = first.deep_view();
            first.push(k);
            assert(first.deep_view() =~= o.push(keys@[i as int]@));
        }
        i = i + 1;
    }
    assert(kv.subrange(0, kv.len() as int) =~= kv);
    let ghost f = first.deep_view();
    let ghost l = last.deep_view();
    first.append(&mut last);
    assert(first.deep_view() =~= f + l);
    first
}

} // verus!
