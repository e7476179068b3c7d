//! Unpacking of a daily SNODAS archive into its product payloads.
//!
//! The archive is a tar file whose members are gzip payloads, or tar files
//! holding such payloads. Each `.dat.gz` payload whose name decodes (see
//! `snodas`) and whose product passes the filter is decompressed.
use vstd::prelude::*;
use std::io::Read;
use crate::snodas::{decode_payload, ProductId, SnodasFile};
use crate::text::{chars_of, ends_with, has_suffix};

verus! {

/// A member of a tar archive: its path and its bytes.
pub struct TarMember {
    pub path: String,
    pub data: Vec<u8>,
}

/// The path and bytes of each member.
pub open spec fn members_view(ms: Seq<TarMember>) -> Seq<(Seq<char>, Seq<u8>)> {
    Seq::new(ms.len(), |i: int| (ms[i].path@, ms[i].data@))
}

/// Names the members that the `tar` crate reads from an archive, in order, or
/// `None` when it cannot read them.
pub uninterp spec fn tar_members_of(archive: Seq<u8>) -> Option<Seq<(Seq<char>, Seq<u8>)>>;

/// Names the bytes that `flate2` decompresses from gzip data, or `None` when
/// the data is not valid gzip.
pub uninterp spec fn gunzip_of(data: Seq<u8>) -> Option<Seq<u8>>;

/// Relies on `tar::Archive::entries`, read in order: each member's path, as
/// lossy UTF-8, and its bytes; `None` when the archive or a member cannot be
/// read.
#[verifier::external_body]
fn tar_members(archive: &Vec<u8>) -> (r: Option<Vec<TarMember>>)
    ensures
        match r {
            Some(v) => tar_members_of(archive@) == Some(members_view(v@)),
            None => tar_members_of(archive@) is None,
        },
{
    let mut ar = tar::Archive::new(archive.as_slice());
    let mut out = Vec::new();
    for entry in ar.entries().ok()? {
        let mut entry = entry.ok()?;
        let path = entry.path().ok()?.to_string_lossy().to_string();
        let mut data = Vec::new();
        entry.read_to_end(&mut data).ok()?;
        out.push(TarMember { path, data });
    }
    Some(out)
}

/// Relies on `flate2::read::GzDecoder`, read to the end: the decompressed
/// bytes, or `None` when the data is not valid gzip.
#[verifier::external_body]
fn gunzip(data: &Vec<u8>) -> (r: Option<Vec<u8>>)
    ensures
        match r {
            Some(v) => gunzip_of(data@) == Some(v@),
            None => gunzip_of(data@) is None,
        },
{
    let mut out = Vec::new();
    flate2::read::GzDecoder::new(data.as_slice()).read_to_end(&mut out).ok()?;
    Some(out)
}

/// The members whose path ends in `.gz`.
pub open spec fn gz_only(ms: Seq<(Seq<char>, Seq<u8>)>) -> Seq<(Seq<char>, Seq<u8>)>
    decreases ms.len(),
{
    if ms.len() == 0 {
        Seq::empty()
    } else {
        let r = gz_only(ms.drop_last());
        if has_suffix(ms.last().0, ".gz"@) {
            r.push(ms.last())
        } else {
            r
        }
    }
}

/// The gzip members of an archive's members: `.gz` members themselves and
/// the `.gz` members of nested `.tar` members; `None` when a nested archive
/// cannot be read.
pub open spec fn gz_payloads(ms: Seq<(Seq<char>, Seq<u8>)>) -> Option<Seq<(Seq<char>, Seq<u8>)>>
    decreases ms.len(),
{
    if ms.len() == 0 {
        Some(Seq::empty())
    } else {
        match gz_payloads(ms.drop_last()) {
            None => None,
            Some(r) => {
                let m = ms.last();
                if has_suffix(m.0, ".tar"@) {
                    match tar_members_of(m.1) {
                        Some(inner) => Some(r + gz_only(inner)),
                        None => None,
                    }
                } else if has_suffix(m.0, ".gz"@) {
                    Some(r.push(m))
                } else {
                    Some(r)
                }
            },
        }
    }
}

/// The gzip members of an archive, nested archives opened; `None` when the
/// archive or a nested one cannot be read.
pub open spec fn archive_gz(archive: Seq<u8>) -> Option<Seq<(Seq<char>, Seq<u8>)>> {
    match tar_members_of(archive) {
        Some(ms) => gz_payloads(ms),
        None => None,
    }
}

/// What follows the last `/` of a path.
pub open spec fn after_last_slash(s: Seq<char>) -> Seq<char>
    decreases s.len(),
{
    if s.len() == 0 {
        s
    } else if s.last() == '/' {
        Seq::empty()
    } else {
        after_last_slash(s.drop_last()).push(s.last())
    }
}

/// The payload name of a `.dat.gz` member: its file name without `.gz`.
pub open spec fn payload_name(path: Seq<char>) -> Seq<char> {
    after_last_slash(path.subrange(0, path.len() - 3))
}

/// Member `i` is the last with its path; an archive that repeats a path
/// yields only its last copy.
pub open spec fn last_of_path(gz: Seq<(Seq<char>, Seq<u8>)>, i: int) -> bool {
    forall|j: int| i < j < gz.len() ==> #[trigger] gz[j].0 != gz[i].0
}

/// A product passes the filter: any does without one.
pub open spec fn passes(filter: Option<Seq<ProductId>>, p: ProductId) -> bool {
    match filter {
        Some(f) => f.contains(p),
        None => true,
    }
}

/// Member `i` is a payload to extract.
pub open spec fn is_selected(gz: Seq<(Seq<char>, Seq<u8>)>, i: int, filter: Option<Seq<ProductId>>) -> bool {
    &&& last_of_path(gz, i)
    &&& has_suffix(gz[i].0, ".dat.gz"@)
    &&& match decode_payload(payload_name(gz[i].0)) {
        Some(d) => passes(filter, d.0),
        None => false,
    }
}

/// The positions of the payloads to extract among the first `n` members.
pub open spec fn selected_upto(gz: Seq<(Seq<char>, Seq<u8>)>, n: int, filter: Option<Seq<ProductId>>) -> Seq<int>
    decreases n,
{
    if n <= 0 {
        Seq::empty()
    } else {
        let r = selected_upto(gz, n - 1, filter);
        if is_selected(gz, n - 1, filter) {
            r.push(n - 1)
        } else {
            r
        }
    }
}

/// A decoded payload with its decompressed raster bytes.
pub struct ExtractedData {
    pub snodas_file: SnodasFile,
    pub data: Vec<u8>,
}

/// Why an archive could not be unpacked.
#[derive(Debug, Clone, Copy, PartialEq, Eq, Structural)]
pub enum ExtractError {
    /// The archive, or a nested one, cannot be read.
    Archive,
    /// A selected payload is not valid gzip.
    Decompress,
}

/// The filter as a sequence of products.
pub open spec fn filter_view(filter: Option<&Vec<ProductId>>) -> Option<Seq<ProductId>> {
    match filter {
        Some(f) => Some(f@),
        None => None,
    }
}

/// `e` is the extraction of member `m`.
pub open spec fn extracted_from(e: ExtractedData, m: (Seq<char>, Seq<u8>)) -> bool {
    &&& decode_payload(payload_name(m.0)) == Some(
        (e.snodas_file.product_id, e.snodas_file.date, e.snodas_file.hour, e.snodas_file.is_model),
    )
    &&& e.snodas_file.filename@ == payload_name(m.0)
    &&& gunzip_of(m.1) == Some(e.data@)
}

/// A copy of the member list's `.gz` members, appended to `out`.
fn push_gz_members(out: &mut Vec<TarMember>, inner: Vec<TarMember>)
    ensures
        members_view(final(out)@) == members_view(old(out)@) + gz_only(members_view(inner@)),
{
    let ghost iv = members_view(inner@);
    let mut rest = inner;
    let ghost start = members_view(old(out)@);
    let ghost mut k: int = 0;
    while rest.len() > 0
        invariant
            0 <= k <= iv.len(),
            members_view(rest@) == iv.subrange(k, iv.len() as int),
            members_view(out@) == start + gz_only(iv.subrange(0, k)),
        decreases rest@.len(),
    {
        let ghost before = rest@;
        assert(members_view(before).len() == before.len());
        let m = rest.remove(0);
        proof {
            assert(members_view(rest@) =~= members_view(before).drop_first());
            assert(members_view(before)[0] == (m.path@, m.data@));
            assert(k < iv.len());
            assert(iv.subrange(k, iv.len() as int)[0] == iv[k]);
            assert(iv.subrange(0, k + 1).drop_last() =~= iv.subrange(0, k));
            assert(iv.subrange(0, k + 1).last() == (m.path@, m.data@));
            assert(members_view(rest@) =~= iv.subrange(k + 1, iv.len() as int));
        }
        if ends_with(&chars_of(m.path.as_str()), ".gz") {
            let ghost o = out@;
            out.push(m);
            assert(members_view(out@) =~= members_view(o).push(members_view(out@).last()));
        }
        proof {
            k = k + 1;
        }
    }
    assert(members_view(rest@).len() == rest@.len());
    assert(iv.subrange(0, iv.len() as int) =~= iv);
}

/// The gzip members of an archive, nested archives opened.
fn collect_gz(tar_bytes: &Vec<u8>) -> (r: Option<Vec<TarMember>>)
    ensures
        match r {
            Some(v) => archive_gz(tar_bytes@) == Some(members_view(v@)),
            None => archive_gz(tar_bytes@) is None,
        },
{
    let outer = match tar_members(tar_bytes) {
        Some(v) => v,
        None => return None,
    };
    let ghost ov = members_view(outer@);
    let mut rest = outer;
    let mut gz: Vec<TarMember> = Vec::new();
    let ghost mut k: int = 0;
    assert(members_view(gz@) =~= Seq::<(Seq<char>, Seq<u8>)>::empty());
    while rest.len() > 0
        invariant
            0 <= k <= ov.len(),
            ov == members_view(outer@),
            tar_members_of(tar_bytes@) == Some(ov),
            members_view(rest@) == ov.subrange(k, ov.len() as int),
            gz_payloads(ov.subrange(0, k)) == Some(members_view(gz@)),
        decreases rest@.len(),
    {
        let ghost before = rest@;
        let m = rest.remove(0);
        let ghost pre = ov.subrange(0, k);
        proof {
            assert(members_view(rest@) =~= members_view(before).drop_first());
            assert(members_view(before)[0] == (m.path@, m.data@));
            assert(k < ov.len());
            assert(ov.subrange(k, ov.len() as int)[0] == ov[k]);
            assert(ov.subrange(0, k + 1).drop_last() =~= pre);
            assert(ov.subrange(0, k + 1).last() == (m.path@, m.data@));
            assert(members_view(rest@) =~= ov.subrange(k + 1, ov.len() as int));
        }
        let name = chars_of(m.path.as_str());
        if ends_with(&name, ".tar") {
            let inner = match tar_members(&m.data) {
                Some(v) => v,
                None => {
                    proof {
                        lemma_gz_payloads_none_extends(ov, k);
                    }
                    return None;
                },
            };
            push_gz_members(&mut gz, inner);
        } else if ends_with(&name, ".gz") {
            let ghost o = gz@;
            gz.push(m);
            assert(members_view(gz@) =~= members_view(o).push(members_view(gz@).last()));
        }
        proof {
            k = k + 1;
        }
    }
    assert(members_view(rest@).len() == rest@.len());
    assert(ov.subrange(0, ov.len() as int) =~= ov);
    Some(gz)
}

/// Once a prefix of the members fails, the whole list fails.
proof fn lemma_gz_payloads_none_extends(ms: Seq<(Seq<char>, Seq<u8>)>, k: int)
    requires
        0 <= k < ms.len(),
        gz_payloads(ms.subrange(0, k + 1)) is None,
    ensures
        gz_payloads(ms) is None,
    decreases ms.len() - k,
{
    if k + 1 < ms.len() {
        assert(ms.subrange(0, k + 2).drop_last() =~= ms.subrange(0, k + 1));
        lemma_gz_payloads_none_extends(ms, k + 1);
    } else {
        assert(ms.subrange(0, k + 1) =~= ms);
    }
}

proof fn lemma_after_last_slash(s: Seq<char>, k: int)
    requires
        0 <= k <= s.len(),
        forall|j: int| k <= j < s.len() ==> s[j] != '/',
        k == 0 || s[k - 1] == '/',
    ensures
        after_last_slash(s) == s.subrange(k, s.len() as int),
    decreases s.len(),
{
    if s.len() == 0 {
    } else if k == s.len() {
        assert(s.subrange(k, s.len() as int) =~= Seq::<char>::empty());
    } else {
        lemma_after_last_slash(s.drop_last(), k);
        assert(s.subrange(k, s.len() as int) =~= s.drop_last().subrange(k, s.len() - 1).push(s.last()));
    }
}

/// The payload name of a `.dat.gz` member path.
fn payload_name_of(path: &str) -> (r: &str)
    requires
        path@.len() >= 3,
    ensures
        r@ == payload_name(path@),
{
    let cs = chars_of(path);
    let end = cs.len() - 3;
    let mut k = end;
    while k > 0 && cs[k - 1] != '/'
        invariant
            k <= end,
            end == cs@.len() - 3,
            cs@ == path@,
            forall|j: int| k <= j < end ==> cs@[j] != '/',
        decreases k,
    {
        k = k - 1;
    }
    proof {
        let s = path@.subrange(0, end as int);
        lemma_after_last_slash(s, k as int);
        assert(s.subrange(k as int, s.len() as int) =~= path@.subrange(k as int, end as int));
    }
    path.substring_char(k, end)
}

/// Whether a product passes the filter.
fn passes_filter(filter: Option<&Vec<ProductId>>, p: ProductId) -> (b: bool)
    ensures
        b == passes(filter_view(filter), p),
{
    match filter {
        None => true,
        Some(f) => {
            assert(filter_view(filter) == Some(f@));
            let mut i: usize = 0;
            while i < f.len()
                invariant
                    filter_view(filter) == Some(f@),
                    i <= f@.len(),
                    forall|j: int| 0 <= j < i ==> f@[j] != p,
                decreases f@.len() - i,
            {
                if f[i] == p {
                    assert(f@[i as int] == p);
                    assert(f@.contains(p));
                    return true;
                }
                i = i + 1;
            }
            false
        },
    }
}

/// Whether member `i` is the last with its path.
fn is_last_of_path(gz: &Vec<TarMember>, i: usize) -> (b: bool)
    requires
        i < gz@.len(),
    ensures
        b == last_of_path(members_view(gz@), i as int),
{
    let n = gz.len();
    let mut j = i + 1;
    while j < n
        invariant
            n == gz@.len(),
            i < j <= gz@.len(),
            forall|q: int| i < q < j ==> #[trigger] members_view(gz@)[q].0 != members_view(gz@)[i as int].0,
        decreases gz@.len() - j,
    {
        if gz[j].path == gz[i].path {
            assert(members_view(gz@)[j as int].0 == members_view(gz@)[i as int].0);
            return false;
        }
        j = j + 1;
    }
    true
}

/// The decoded payload of member `i`, when it is one to extract.
fn select_member(gz: &Vec<TarMember>, i: usize, product_filter: Option<&Vec<ProductId>>) -> (r: Option<SnodasFile>)
    requires
        i < gz@.len(),
    ensures
        r is Some == is_selected(members_view(gz@), i as int, filter_view(product_filter)),
        r matches Some(f) ==> decode_payload(payload_name(members_view(gz@)[i as int].0)) == Some(
            (f.product_id, f.date, f.hour, f.is_model),
        ) && f.filename@ == payload_name(members_view(gz@)[i as int].0),
{
    proof {
        reveal_strlit(".dat.gz");
    }
    let ghost gv = members_view(gz@);
    assert(gv[i as int].0 == gz@[i as int].path@);
    let path = gz[i].path.as_str();
    if !ends_with(&chars_of(path), ".dat.gz") || !is_last_of_path(gz, i) {
        return None;
    }
    let name = payload_name_of(path);
    match SnodasFile::parse_filename(name) {
        Some(f) => {
            if passes_filter(product_filter, f.product_id) {
                Some(f)
            } else {
                None
            }
        },
        None => None,
    }
}

/// `out` holds the extractions of the selected members below `n`, in order.
#[verifier::opaque]
pub open spec fn extracted_upto(
    out: Seq<ExtractedData>,
    gz: Seq<(Seq<char>, Seq<u8>)>,
    n: int,
    filter: Option<Seq<ProductId>>,
) -> bool {
    &&& out.len() == selected_upto(gz, n, filter).len()
    &&& forall|k: int| 0 <= k < out.len() ==> extracted_from(#[trigger] out[k], gz[selected_upto(gz, n, filter)[k]])
}

/// Some payload to extract does not decompress.
#[verifier::opaque]
pub open spec fn some_payload_fails(gz: Seq<(Seq<char>, Seq<u8>)>, filter: Option<Seq<ProductId>>) -> bool {
    exists|k: int|
        0 <= k < selected_upto(gz, gz.len() as int, filter).len() && gunzip_of(
            gz[#[trigger] selected_upto(gz, gz.len() as int, filter)[k]].1,
        ) is None
}

/// Extracts member `i` when it is selected; `false` when its bytes do not
/// decompress.
fn extract_member(
    gz: &Vec<TarMember>,
    i: usize,
    product_filter: Option<&Vec<ProductId>>,
    out: &mut Vec<ExtractedData>,
) -> (ok: bool)
    requires
        i < gz@.len(),
        extracted_upto(old(out)@, members_view(gz@), i as int, filter_view(product_filter)),
    ensures
        ok ==> extracted_upto(final(out)@, members_view(gz@), i + 1, filter_view(product_filter)),
        !ok ==> is_selected(members_view(gz@), i as int, filter_view(product_filter)) && gunzip_of(
            members_view(gz@)[i as int].1,
        ) is None,
{
    let ghost gv = members_view(gz@);
    let ghost fv = filter_view(product_filter);
    let ghost sel = selected_upto(gv, i as int, fv);
    reveal(extracted_upto);
    match select_member(gz, i, product_filter) {
        Some(f) => {
            assert(gv[i as int].1 == gz@[i as int].data@);
            let data = match gunzip(&gz[i].data) {
                Some(d) => d,
                None => return false,
            };
            let ghost o = out@;
            out.push(ExtractedData { snodas_file: f, data });
            proof {
                let sel2 = selected_upto(gv, i + 1, fv);
                assert(sel2 == sel.push(i as int));
                assert forall|k: int| 0 <= k < out@.len() implies extracted_from(#[trigger] out@[k], gv[sel2[k]]) by {
                    if k < o.len() {
                        assert(out@[k] == o[k]);
                        assert(sel2[k] == sel[k]);
                    }
                }
            }
            true
        },
        None => {
            assert(selected_upto(gv, i + 1, fv) == sel);
            true
        },
    }
}

/// Unpacks a daily archive: every `.dat.gz` payload, nested archives
/// included, whose name decodes and whose product passes the filter, with its
/// bytes decompressed. A path that occurs twice counts once, with its last
/// copy.
pub fn extract_tar(tar_bytes: &Vec<u8>, product_filter: Option<&Vec<ProductId>>) -> (r: Result<
    Vec<ExtractedData>,
    ExtractError,
>)
    ensures
        match r {
            Ok(v) => archive_gz(tar_bytes@) is Some && extracted_upto(
                v@,
                archive_gz(tar_bytes@)->0,
                archive_gz(tar_bytes@)->0.len() as int,
                filter_view(product_filter),
            ),
            Err(ExtractError::Archive) => archive_gz(tar_bytes@) is None,
            Err(ExtractError::Decompress) => archive_gz(tar_bytes@) is Some && some_payload_fails(
                archive_gz(tar_bytes@)->0,
                filter_view(product_filter),
            ),
        },
{
    let gz = match collect_gz(tar_bytes) {
        Some(v) => v,
        None => return Err(ExtractError::Archive),
    };
    let ghost gv = members_view(gz@);
    let ghost fv = filter_view(product_filter);
    let mut out: Vec<ExtractedData> = Vec::new();
    let mut i: usize = 0;
    proof {
        lemma_extracted_none(gv, fv);
    }
    while i < gz.len()
        invariant
            gv == members_view(gz@),
            archive_gz(tar_bytes@) == Some(gv),
            fv == filter_view(product_filter),
            i <= gz@.len(),
            extracted_upto(out@, gv, i as int, fv),
        decreases gz@.len() - i,
    {
        if !extract_member(&gz, i, product_filter, &mut out) {
            proof {
                lemma_decompress_failure(gv, i as int, fv);
            }
            return Err(ExtractError::Decompress);
        }
        i = i + 1;
    }
    Ok(out)
}

proof fn lemma_extracted_none(gz: Seq<(Seq<char>, Seq<u8>)>, filter: Option<Seq<ProductId>>)
    ensures
        extracted_upto(Seq::empty(), gz, 0, filter),
{
    reveal(extracted_upto);
}

proof fn lemma_decompress_failure(gz: Seq<(Seq<char>, Seq<u8>)>, i: int, filter: Option<Seq<ProductId>>)
    requires
        0 <= i < gz.len(),
        is_selected(gz, i, filter),
        gunzip_of(gz[i].1) is None,
    ensures
        some_payload_fails(gz, filter),
{
    reveal(some_payload_fails);
    lemma_selected_prefix(gz, i, filter);
    let all = selected_upto(gz, gz.len() as int, filter);
    let k = selected_upto(gz, i, filter).len() as int;
    assert(all[k] == i);
}

/// The selected positions below `n` start the full selection.
proof fn lemma_selected_prefix(gz: Seq<(Seq<char>, Seq<u8>)>, n: int, filter: Option<Seq<ProductId>>)
    requires
        0 <= n < gz.len(),
        is_selected(gz, n, filter),
    ensures
        selected_upto(gz, gz.len() as int, filter).len() > selected_upto(gz, n, filter).len(),
        selected_upto(gz, gz.len() as int, filter)[selected_upto(gz, n, filter).len() as int] == n,
    decreases gz.len() - n,
{
    lemma_selected_extends(gz, n + 1, gz.len() as int, filter);
}

/// The selection below `a` is a prefix of the selection below `b`.
proof fn lemma_selected_extends(gz: Seq<(Seq<char>, Seq<u8>)>, a: int, b: int, filter: Option<Seq<ProductId>>)
    requires
        0 <= a <= b,
    ensures
        selected_upto(gz, b, filter).len() >= selected_upto(gz, a, filter).len(),
        forall|k: int| 0 <= k < selected_upto(gz, a, filter).len() ==> #[trigger] selected_upto(gz, b, filter)[k]
            == selected_upto(gz, a, filter)[k],
    decreases b - a,
{
    if a < b {
        lemma_selected_extends(gz, a, b - 1, filter);
    }
}

} // verus!
