//! Format-polymorphic access to the image entries of comic archives.
//!
//! Zip-family containers (`.cbz`) are random-access and are read from their
//! bytes; RAR-family containers (`.cbr`) expose only a forward cursor over
//! headers and payloads and are read from their path in a single pass per
//! operation.  Only entries whose names end in an image extension are
//! image pages; listing returns them in natural order.

use vstd::prelude::*;

use crate::chars::{chars_of, string_of};
use crate::order::{
    has_name,
    contains_name,
    sorted_names,
    sort_names,
    sorted_pairs,
    sort_pairs,
    pair_views,
    pair_names,
};
use crate::paths::{
    normalize_seq,
    normalize_chars,
    extension_spec,
    extension_chars,
    is_image_entry_spec,
    is_image_entry_chars,
};

verus! {

/// Why an archive operation failed.
#[derive(Debug)]
pub enum ArchiveError {
    /// The container could not be opened or parsed.
    OpenFailed(String),
    /// A header or entry could not be read.
    ReadFailed(String),
    /// A requested entry name never appeared in the container.
    EntryNotFound(String),
    /// The path carries neither recognized archive extension.
    UnsupportedFormat(String),
}

/// The two container families, told apart by extension.
#[derive(Clone, Copy, PartialEq, Eq, Structural, Debug)]
pub enum ArchiveKind {
    Zip,
    Rar,
}

/// An archive to read: zip-family containers from their bytes, RAR-family
/// containers from their path.
pub enum ArchiveSource {
    Zip(Vec<u8>),
    Rar(String),
}

/// The container family of a path: `.cbz` is zip-family, `.cbr` is
/// RAR-family, anything else is refused.
pub fn classify_archive_path(path: &str) -> (r: Result<ArchiveKind, ArchiveError>)
    ensures
        r matches Ok(k) ==> (k == ArchiveKind::Zip <==> extension_spec(path@) == Some(
            seq!['c', 'b', 'z'],
        )) && (k == ArchiveKind::Rar <==> extension_spec(path@) == Some(seq!['c', 'b', 'r'])),
        r is Err ==> extension_spec(path@) != Some(seq!['c', 'b', 'z']) && extension_spec(path@)
            != Some(seq!['c', 'b', 'r']),
        r is Err ==> r matches Err(ArchiveError::UnsupportedFormat(_)),
{
    let v = chars_of(path);
    match extension_chars(&v) {
        Some(e) => {
            if e.len() == 3 && e[0] == 'c' && e[1] == 'b' && e[2] == 'z' {
                proof {
                    assert(e@ =~= seq!['c', 'b', 'z']);
                }
                Ok(ArchiveKind::Zip)
            } else if e.len() == 3 && e[0] == 'c' && e[1] == 'b' && e[2] == 'r' {
                proof {
                    assert(e@ =~= seq!['c', 'b', 'r']);
                }
                Ok(ArchiveKind::Rar)
            } else {
                proof {
                    if e@ == seq!['c', 'b', 'z'] {
                        assert(e@.len() == 3 && e@[0] == 'c' && e@[1] == 'b' && e@[2] == 'z');
                    }
                    if e@ == seq!['c', 'b', 'r'] {
                        assert(e@.len() == 3 && e@[0] == 'c' && e@[1] == 'b' && e@[2] == 'r');
                    }
                }
                Err(ArchiveError::UnsupportedFormat(String::from_str(path)))
            }
        },
        None => Err(ArchiveError::UnsupportedFormat(String::from_str(path))),
    }
}

/// Whether these bytes parse as a zip-family container.
pub uninterp spec fn zip_parses(data: Seq<u8>) -> bool;

/// The decoded entry names of a zip-family container, one per distinct
/// stored name, in central-directory order.
pub uninterp spec fn zip_names(data: Seq<u8>) -> Seq<Seq<char>>;

/// The decompressed bytes of the named entry, when the entry exists and
/// reads cleanly.
pub uninterp spec fn zip_entry_data(data: Seq<u8>, name: Seq<char>) -> Option<Seq<u8>>;

/// Whether looking the name up in the container's entry table succeeds.
/// The table is keyed by the raw stored name bytes and probed with the
/// query's UTF-8 bytes, so this can differ from membership in the decoded
/// name list for legacy archives with non-UTF-8 names.
pub uninterp spec fn zip_has_entry(data: Seq<u8>, name: Seq<char>) -> bool;

/// Relies on `zip::ZipArchive::new` and `ZipArchive::file_names`: parsing
/// the bytes succeeds or fails deterministically, and listing yields the
/// decoded name of every distinct stored entry name, in central-directory
/// order (a repeated stored name appears once).
#[verifier::external_body]
fn zip_list_names(data: &Vec<u8>) -> (r: Result<Vec<String>, String>)
    ensures
        r is Ok <==> zip_parses(data@),
        r matches Ok(names) ==> names.deep_view() == zip_names(data@),
{
    match zip::ZipArchive::new(std::io::Cursor::new(data.as_slice())) {
        Ok(a) => Ok(a.file_names().map(|n| n.to_string()).collect()),
        Err(e) => Err(format!("failed to read archive: {e}")),
    }
}

/// Relies on `zip::ZipArchive::by_name` and `Read::read_to_end`: the named
/// entry's bytes are a function of the container bytes and the name;
/// `by_name` probes the raw-keyed entry table with the query's bytes and
/// reports a miss as `FileNotFound`, and nothing else reports that kind.
#[verifier::external_body]
fn zip_read_entry(data: &Vec<u8>, name: &str) -> (r: Result<Vec<u8>, (bool, String)>)
    ensures
        r matches Ok(bytes) ==> zip_entry_data(data@, name@) == Some(bytes@),
        r is Err ==> zip_entry_data(data@, name@) is None,
        !zip_parses(data@) ==> r is Err,
        zip_parses(data@) && !zip_has_entry(data@, name@) ==> r is Err,
        r matches Err(e) ==> (e.0 <==> zip_parses(data@) && !zip_has_entry(data@, name@)),
{
    let mut a = zip::ZipArchive::new(std::io::Cursor::new(data.as_slice())).map_err(
        |e| (false, format!("failed to read archive: {e}")),
    )?;
    let mut f = a.by_name(name).map_err(
        |e| (matches!(e, zip::result::ZipError::FileNotFound), format!("entry {name}: {e}")),
    )?;
    let mut bytes = Vec::new();
    std::io::Read::read_to_end(&mut f, &mut bytes).map_err(
        |e| (false, format!("failed to read entry {name}: {e}")),
    )?;
    Ok(bytes)
}

/// The image entry names among `names`, normalized, in order.
pub open spec fn image_names_from(names: Seq<Seq<char>>, k: int) -> Seq<Seq<char>>
    decreases names.len() - k,
    when 0 <= k <= names.len()
{
    if k >= names.len() {
        Seq::<Seq<char>>::empty()
    } else {
        let n = normalize_seq(names[k]);
        let rest = image_names_from(names, k + 1);
        if is_image_entry_spec(n) {
            seq![n] + rest
        } else {
            rest
        }
    }
}

/// The image entry names among `names`, normalized.
pub open spec fn image_entry_names(names: Seq<Seq<char>>) -> Seq<Seq<char>> {
    image_names_from(names, 0)
}

/// Normalize the names, keep those naming images.
#[verifier::loop_isolation(false)]
fn filter_image_names(names: &Vec<String>) -> (r: Vec<String>)
    ensures
        r.deep_view() == image_entry_names(names.deep_view()),
{
    let ghost nv = names.deep_view();
    let mut r: Vec<String> = Vec::new();
    let mut k: usize = 0;
    let n = names.len();
    proof {
        assert(nv.len() == n);
        assert(r.deep_view() + image_names_from(nv, 0) =~= image_names_from(nv, 0));
    }
    while k < n
        invariant
            k <= n,
            r.deep_view() + image_names_from(nv, k as int) == image_names_from(nv, 0),
        decreases n - k,
    {
        proof {
            assert(nv[k as int] == names@[k as int]@);
        }
        let cs = chars_of(names[k].as_str());
        let norm = normalize_chars(&cs);
        if is_image_entry_chars(&norm) {
            r.push(string_of(&norm));
            proof {
                assert(r.deep_view() =~~= old_push_view(r@, nv, k as int));
                assert(r.deep_view() + image_names_from(nv, k + 1) =~~= image_names_from(nv, 0));
            }
        } else {
            proof {
                assert(r.deep_view() + image_names_from(nv, k + 1) =~~= image_names_from(nv, 0));
            }
        }
        k = k + 1;
    }
    proof {
        assert(image_names_from(nv, n as int) =~= Seq::<Seq<char>>::empty());
        assert(r.deep_view() =~~= image_names_from(nv, 0));
    }
    r
}

/// The views of `r` itself: its last element is the normalized `k`-th name.
spec fn old_push_view(r: Seq<String>, nv: Seq<Seq<char>>, k: int) -> Seq<Seq<char>> {
    r.take(r.len() - 1).map_values(|s: String| s@).push(normalize_seq(nv[k]))
}

proof fn lemma_image_names_only(names: Seq<Seq<char>>, k: int)
    requires
        0 <= k <= names.len(),
    ensures
        forall|j: int|
            0 <= j < image_names_from(names, k).len() ==> is_image_entry_spec(
                #[trigger] image_names_from(names, k)[j],
            ),
    decreases names.len() - k,
{
    if k < names.len() {
        lemma_image_names_only(names, k + 1);
        let cur = image_names_from(names, k);
        let rest = image_names_from(names, k + 1);
        if is_image_entry_spec(normalize_seq(names[k])) {
            assert forall|j: int| 0 <= j < cur.len() implies is_image_entry_spec(
                #[trigger] cur[j],
            ) by {
                if j > 0 {
                    assert(cur[j] == rest[j - 1]);
                }
            }
        }
    }
}

/// The image-entry listing of a raw name list: names normalized, image
/// names only, in natural order.  The value-level aggregation behind both
/// containers' listings.
pub fn image_entry_listing(names: Vec<String>) -> (r: Vec<String>)
    ensures
        sorted_names(r.deep_view()),
        r.deep_view().to_multiset() == image_entry_names(names.deep_view()).to_multiset(),
        forall|nm: Seq<char>|
            r.deep_view().contains(nm) <==> image_entry_names(names.deep_view()).contains(nm),
        forall|k: int|
            0 <= k < r.deep_view().len() ==> is_image_entry_spec(#[trigger] r.deep_view()[k]),
{
    let filtered = filter_image_names(&names);
    let sorted = sort_names(filtered);
    proof {
        broadcast use vstd::seq_lib::group_to_multiset_ensures;

        let sv = sorted.deep_view();
        let iv = image_entry_names(names.deep_view());
        sv.to_multiset_ensures();
        iv.to_multiset_ensures();
        assert forall|nm: Seq<char>| sv.contains(nm) <==> iv.contains(nm) by {
            assert(sv.contains(nm) <==> sv.to_multiset().count(nm) > 0);
            assert(iv.contains(nm) <==> iv.to_multiset().count(nm) > 0);
        }
        lemma_image_names_only(names.deep_view(), 0);
        assert forall|k: int| 0 <= k < sv.len() implies is_image_entry_spec(
            #[trigger] sv[k],
        ) by {
            assert(sv.contains(sv[k]));
            assert(iv.contains(sv[k]));
            let w = choose|j: int| 0 <= j < iv.len() && iv[j] == sv[k];
            assert(is_image_entry_spec(iv[w]));
        }
    }
    sorted
}

/// The image entries among raw-named pairs, names normalized, in order.
pub open spec fn image_pairs_from(entries: Seq<(Seq<char>, Seq<u8>)>, k: int) -> Seq<
    (Seq<char>, Seq<u8>),
>
    decreases entries.len() - k,
    when 0 <= k <= entries.len()
{
    if k >= entries.len() {
        Seq::<(Seq<char>, Seq<u8>)>::empty()
    } else {
        let n = normalize_seq(entries[k].0);
        let rest = image_pairs_from(entries, k + 1);
        if is_image_entry_spec(n) {
            seq![(n, entries[k].1)] + rest
        } else {
            rest
        }
    }
}

proof fn lemma_image_pairs_only(entries: Seq<(Seq<char>, Seq<u8>)>, k: int)
    requires
        0 <= k <= entries.len(),
    ensures
        forall|j: int|
            0 <= j < image_pairs_from(entries, k).len() ==> is_image_entry_spec(
                #[trigger] image_pairs_from(entries, k)[j].0,
            ),
    decreases entries.len() - k,
{
    if k < entries.len() {
        lemma_image_pairs_only(entries, k + 1);
        let cur = image_pairs_from(entries, k);
        let rest = image_pairs_from(entries, k + 1);
        if is_image_entry_spec(normalize_seq(entries[k].0)) {
            assert forall|j: int| 0 <= j < cur.len() implies is_image_entry_spec(
                #[trigger] cur[j].0,
            ) by {
                if j > 0 {
                    assert(cur[j] == rest[j - 1]);
                }
            }
        }
    }
}

/// Normalize the names of raw-named entries, keep those naming images,
/// and order them naturally: the value-level aggregation behind both
/// containers' read-all.
#[verifier::loop_isolation(false)]
pub fn image_entry_pairs(entries: Vec<(String, Vec<u8>)>) -> (r: Vec<(String, Vec<u8>)>)
    ensures
        sorted_pairs(pair_views(r@)),
        pair_views(r@).to_multiset() == image_pairs_from(pair_views(entries@), 0).to_multiset(),
        forall|k: int|
            0 <= k < r@.len() ==> is_image_entry_spec(#[trigger] pair_views(r@)[k].0),
{
    let ghost ev = pair_views(entries@);
    let mut filtered: Vec<(String, Vec<u8>)> = Vec::new();
    let mut k: usize = 0;
    let n = entries.len();
    proof {
        assert(ev.len() == n);
        assert(pair_views(filtered@) + image_pairs_from(ev, 0) =~= image_pairs_from(ev, 0));
        assert(pair_views(entries@) =~= ev);
    }
    while k < n
        invariant
            k <= n,
            entries@.len() == n,
            pair_views(entries@) == ev,
            pair_views(filtered@) + image_pairs_from(ev, k as int) == image_pairs_from(ev, 0),
        decreases n - k,
    {
        proof {
            assert(ev[k as int] == (entries@[k as int].0@, entries@[k as int].1@));
        }
        let cs = chars_of(entries[k].0.as_str());
        let norm = normalize_chars(&cs);
        if is_image_entry_chars(&norm) {
            let bytes = clone_bytes(&entries[k].1);
            let ghost fb = pair_views(filtered@);
            filtered.push((string_of(&norm), bytes));
            proof {
                assert(pair_views(filtered@) =~= fb.push(
                    (normalize_seq(ev[k as int].0), ev[k as int].1),
                )) by {
                    assert forall|j: int| 0 <= j < filtered@.len() implies pair_views(
                        filtered@,
                    )[j] == fb.push((normalize_seq(ev[k as int].0), ev[k as int].1))[j] by {
                        if j < fb.len() {
                            assert(pair_views(filtered@)[j] == (
                                filtered@[j].0@,
                                filtered@[j].1@,
                            ));
                        }
                    }
                }
                assert(pair_views(filtered@) + image_pairs_from(ev, k + 1)
                    =~= image_pairs_from(ev, 0));
            }
        } else {
            proof {
                assert(pair_views(filtered@) + image_pairs_from(ev, k + 1)
                    =~= image_pairs_from(ev, 0));
            }
        }
        k = k + 1;
    }
    proof {
        assert(image_pairs_from(ev, n as int) =~= Seq::<(Seq<char>, Seq<u8>)>::empty());
        assert(pair_views(filtered@) =~= image_pairs_from(ev, 0));
    }
    let sorted = sort_pairs(filtered);
    proof {
        broadcast use vstd::seq_lib::group_to_multiset_ensures;

        let sv = pair_views(sorted@);
        let fv = image_pairs_from(ev, 0);
        sv.to_multiset_ensures();
        fv.to_multiset_ensures();
        lemma_image_pairs_only(ev, 0);
        assert forall|j: int| 0 <= j < sorted@.len() implies is_image_entry_spec(
            #[trigger] pair_views(sorted@)[j].0,
        ) by {
            assert(sv.contains(sv[j]));
            assert(sv.to_multiset().count(sv[j]) > 0);
            assert(fv.to_multiset().count(sv[j]) > 0);
            assert(fv.contains(sv[j]));
            let w = choose|m: int| 0 <= m < fv.len() && fv[m] == sv[j];
            assert(is_image_entry_spec(fv[w].0));
        }
    }
    sorted
}

/// The image entries of a zip-family container, natural-sorted.  Succeeds
/// exactly when the bytes parse as such a container.
pub fn zip_list_image_entries(data: &Vec<u8>) -> (r: Result<Vec<String>, ArchiveError>)
    ensures
        r is Ok <==> zip_parses(data@),
        r matches Ok(names) ==> sorted_names(names.deep_view())
            && names.deep_view().to_multiset() == image_entry_names(
            zip_names(data@),
        ).to_multiset(),
        r matches Ok(names) ==> forall|nm: Seq<char>|
            names.deep_view().contains(nm) <==> image_entry_names(zip_names(data@)).contains(nm),
        r is Err ==> r matches Err(ArchiveError::OpenFailed(_)),
{
    match zip_list_names(data) {
        Ok(names) => Ok(image_entry_listing(names)),
        Err(m) => Err(ArchiveError::OpenFailed(m)),
    }
}

/// Copy a byte vector.
fn clone_bytes(v: &Vec<u8>) -> (r: Vec<u8>)
    ensures
        r@ == v@,
{
    let mut r: Vec<u8> = Vec::new();
    let mut i: usize = 0;
    while i < v.len()
        invariant
            i <= v.len(),
            r@ == v@.take(i as int),
        decreases v.len() - i,
    {
        r.push(v[i]);
        i = i + 1;
        proof {
            assert(r@ =~= v@.take(i as int));
        }
    }
    proof {
        assert(r@ =~= v@);
    }
    r
}

/// One image entry of a zip-family container, by name.  Succeeds exactly
/// when the container holds readable bytes under that name, and a parsed
/// container without the name fails as not found.
pub fn zip_read_image_entry(data: &Vec<u8>, name: &str) -> (r: Result<Vec<u8>, ArchiveError>)
    ensures
        r matches Ok(bytes) ==> zip_entry_data(data@, name@) == Some(bytes@),
        r is Err <==> zip_entry_data(data@, name@) is None,
        r matches Err(ArchiveError::EntryNotFound(_)) <==> zip_parses(data@) && !zip_has_entry(
            data@,
            name@,
        ),
{
    match zip_read_entry(data, name) {
        Ok(bytes) => Ok(bytes),
        Err((not_found, m)) => {
            if not_found {
                Err(ArchiveError::EntryNotFound(m))
            } else {
                Err(ArchiveError::ReadFailed(m))
            }
        },
    }
}

/// Several image entries of a zip-family container, in the requested
/// order; the whole call fails when any one read fails.
#[verifier::loop_isolation(false)]
pub fn zip_read_image_entries_batch(data: &Vec<u8>, names: &Vec<String>) -> (r: Result<
    Vec<Vec<u8>>,
    ArchiveError,
>)
    ensures
        r matches Ok(out) ==> out@.len() == names@.len() && forall|i: int|
            0 <= i < names@.len() ==> zip_entry_data(data@, #[trigger] names@[i]@) == Some(
                out@[i]@,
            ),
        r is Err ==> exists|i: int|
            0 <= i < names@.len() && zip_entry_data(data@, #[trigger] names@[i]@) is None,
        (forall|i: int| 0 <= i < names@.len() ==> zip_entry_data(data@, #[trigger] names@[i]@)
            is Some) ==> r is Ok,
        r is Ok ==> (zip_parses(data@) ==> forall|i: int|
            0 <= i < names@.len() ==> zip_has_entry(data@, #[trigger] names@[i]@)),
        r matches Err(ArchiveError::EntryNotFound(_)) ==> exists|i: int|
            0 <= i < names@.len() && zip_parses(data@) && !zip_has_entry(
                data@,
                #[trigger] names@[i]@,
            ),
{
    let mut out: Vec<Vec<u8>> = Vec::new();
    let mut i: usize = 0;
    let n = names.len();
    while i < n
        invariant
            i <= n,
            out@.len() == i,
            forall|k: int|
                0 <= k < i ==> zip_entry_data(data@, #[trigger] names@[k]@) == Some(out@[k]@),
            forall|k: int|
                0 <= k < i ==> (zip_parses(data@) ==> zip_has_entry(
                    data@,
                    #[trigger] names@[k]@,
                )),
        decreases n - i,
    {
        match zip_read_entry(data, names[i].as_str()) {
            Ok(bytes) => {
                out.push(bytes);
            },
            Err((not_found, m)) => {
                if not_found {
                    return Err(ArchiveError::EntryNotFound(m));
                }
                return Err(ArchiveError::ReadFailed(m));
            },
        }
        i = i + 1;
    }
    Ok(out)
}

/// The image entries of a container's name list with the bytes each
/// stored name reads to: output names normalized, reads by the stored
/// name.
pub open spec fn zip_image_pairs_from(names: Seq<Seq<char>>, data: Seq<u8>, k: int) -> Seq<
    (Seq<char>, Seq<u8>),
>
    decreases names.len() - k,
    when 0 <= k <= names.len()
{
    if k >= names.len() {
        Seq::<(Seq<char>, Seq<u8>)>::empty()
    } else {
        let n = normalize_seq(names[k]);
        let rest = zip_image_pairs_from(names, data, k + 1);
        if is_image_entry_spec(n) {
            seq![(n, zip_entry_data(data, names[k])->Some_0)] + rest
        } else {
            rest
        }
    }
}

/// Every image entry of the name list reads cleanly by its stored name.
pub open spec fn zip_image_entries_readable(names: Seq<Seq<char>>, data: Seq<u8>) -> bool {
    forall|k: int|
        0 <= k < names.len() && is_image_entry_spec(normalize_seq(#[trigger] names[k]))
            ==> zip_entry_data(data, names[k]) is Some
}

/// The name column of the read pairs is the image entry name list.
proof fn lemma_zip_image_pairs_names(names: Seq<Seq<char>>, data: Seq<u8>, k: int)
    requires
        0 <= k <= names.len(),
    ensures
        pair_names(zip_image_pairs_from(names, data, k)) == image_names_from(names, k),
    decreases names.len() - k,
{
    if k < names.len() {
        lemma_zip_image_pairs_names(names, data, k + 1);
        let cur = zip_image_pairs_from(names, data, k);
        let rest = zip_image_pairs_from(names, data, k + 1);
        if is_image_entry_spec(normalize_seq(names[k])) {
            assert(pair_names(cur) =~= image_names_from(names, k)) by {
                assert forall|j: int| 0 <= j < cur.len() implies pair_names(cur)[j]
                    == image_names_from(names, k)[j] by {
                    assert(pair_names(cur)[j] == cur[j].0);
                    if j > 0 {
                        assert(cur[j] == rest[j - 1]);
                        assert(pair_names(rest)[j - 1] == rest[j - 1].0);
                    }
                }
            }
        } else {
            assert(pair_names(cur) =~= image_names_from(names, k)) by {
                assert forall|j: int| 0 <= j < cur.len() implies pair_names(cur)[j]
                    == image_names_from(names, k)[j] by {
                    assert(pair_names(cur)[j] == cur[j].0);
                }
            }
        }
    }
}

/// Every image entry of a zip-family container with its bytes, read by
/// its stored name, in natural order of the normalized names.  Succeeds
/// exactly when the container parses and every image entry reads.
#[verifier::loop_isolation(false)]
#[verifier::rlimit(100)]
pub fn zip_read_all_image_entries(data: &Vec<u8>) -> (r: Result<
    Vec<(String, Vec<u8>)>,
    ArchiveError,
>)
    ensures
        r matches Ok(out) ==> sorted_pairs(pair_views(out@)),
        r matches Ok(out) ==> zip_parses(data@) && pair_views(out@).to_multiset()
            == zip_image_pairs_from(zip_names(data@), data@, 0).to_multiset(),
        r matches Ok(out) ==> pair_names(pair_views(out@)).to_multiset() == image_entry_names(
            zip_names(data@),
        ).to_multiset(),
        r is Err ==> !zip_parses(data@) || !zip_image_entries_readable(zip_names(data@), data@),
        zip_parses(data@) && zip_image_entries_readable(zip_names(data@), data@) ==> r is Ok,
{
    broadcast use vstd::seq_lib::group_to_multiset_ensures;

    let names = match zip_list_names(data) {
        Ok(names) => names,
        Err(m) => {
            return Err(ArchiveError::OpenFailed(m));
        },
    };
    let ghost nv = names.deep_view();
    let mut collected: Vec<(String, Vec<u8>)> = Vec::new();
    let mut k: usize = 0;
    let n = names.len();
    proof {
        assert(nv.len() == n);
        assert(pair_views(collected@) + zip_image_pairs_from(nv, data@, 0)
            =~= zip_image_pairs_from(nv, data@, 0));
    }
    while k < n
        invariant
            k <= n,
            pair_views(collected@) + zip_image_pairs_from(nv, data@, k as int)
                == zip_image_pairs_from(nv, data@, 0),
        decreases n - k,
    {
        proof {
            assert(nv[k as int] == names@[k as int]@);
        }
        let cs = chars_of(names[k].as_str());
        let norm = normalize_chars(&cs);
        if is_image_entry_chars(&norm) {
            match zip_read_entry(data, names[k].as_str()) {
                Ok(bytes) => {
                    let ghost cb = pair_views(collected@);
                    collected.push((string_of(&norm), bytes));
                    proof {
                        assert(pair_views(collected@) =~= cb.push(
                            (normalize_seq(nv[k as int]), zip_entry_data(
                                data@,
                                nv[k as int],
                            )->Some_0),
                        )) by {
                            assert forall|j: int| 0 <= j < collected@.len() implies pair_views(
                                collected@,
                            )[j] == cb.push(
                                (normalize_seq(nv[k as int]), zip_entry_data(
                                    data@,
                                    nv[k as int],
                                )->Some_0),
                            )[j] by {
                                if j < cb.len() {
                                    assert(pair_views(collected@)[j] == (
                                        collected@[j].0@,
                                        collected@[j].1@,
                                    ));
                                }
                            }
                        }
                        assert(pair_views(collected@) + zip_image_pairs_from(nv, data@, k + 1)
                            =~= zip_image_pairs_from(nv, data@, 0));
                    }
                },
                Err((_, m)) => {
                    proof {
                        assert(zip_entry_data(data@, nv[k as int]) is None);
                        assert(!zip_image_entries_readable(nv, data@));
                    }
                    return Err(ArchiveError::ReadFailed(m));
                },
            }
        } else {
            proof {
                assert(pair_views(collected@) + zip_image_pairs_from(nv, data@, k + 1)
                    =~= zip_image_pairs_from(nv, data@, 0));
            }
        }
        k = k + 1;
    }
    proof {
        assert(zip_image_pairs_from(nv, data@, n as int) =~= Seq::<(Seq<char>, Seq<u8>)>::empty());
        assert(pair_views(collected@) =~= zip_image_pairs_from(nv, data@, 0));
        lemma_zip_image_pairs_names(nv, data@, 0);
    }
    let sorted = sort_pairs(collected);
    Ok(sorted)
}

/// The bytes of the last entry with the given name, scanning a collected
/// entry list; the one a single forward pass with overwrite ends up with.
pub open spec fn last_match(entries: Seq<(Seq<char>, Seq<u8>)>, name: Seq<char>) -> Option<Seq<u8>>
    decreases entries.len(),
{
    if entries.len() == 0 {
        None
    } else if entries.last().0 == name {
        Some(entries.last().1)
    } else {
        last_match(entries.drop_last(), name)
    }
}

/// The bytes of the first entry with the given name; what a single
/// stop-at-first-hit read returns.
pub open spec fn first_match(entries: Seq<(Seq<char>, Seq<u8>)>, name: Seq<char>) -> Option<
    Seq<u8>,
>
    decreases entries.len(),
{
    if entries.len() == 0 {
        None
    } else if entries[0].0 == name {
        Some(entries[0].1)
    } else {
        first_match(entries.drop_first(), name)
    }
}

/// No two entries share a name.
pub open spec fn distinct_names(entries: Seq<(Seq<char>, Seq<u8>)>) -> bool {
    forall|i: int, j: int|
        0 <= i < j < entries.len() ==> (#[trigger] entries[i].0) != (#[trigger] entries[j].0)
}

proof fn lemma_no_match(entries: Seq<(Seq<char>, Seq<u8>)>, name: Seq<char>)
    requires
        forall|k: int| 0 <= k < entries.len() ==> (#[trigger] entries[k].0) != name,
    ensures
        last_match(entries, name) is None,
        first_match(entries, name) is None,
    decreases entries.len(),
{
    if entries.len() > 0 {
        assert(forall|k: int|
            0 <= k < entries.drop_last().len() ==> (#[trigger] entries.drop_last()[k].0) != name);
        assert(forall|k: int|
            0 <= k < entries.drop_first().len() ==> (#[trigger] entries.drop_first()[k].0)
                != name) by {
            assert(forall|k: int|
                0 <= k < entries.len() - 1 ==> entries.drop_first()[k] == entries[k + 1]);
        }
        lemma_no_match(entries.drop_last(), name);
        lemma_no_match(entries.drop_first(), name);
    }
}

proof fn lemma_last_match_front(entries: Seq<(Seq<char>, Seq<u8>)>, name: Seq<char>)
    requires
        entries.len() > 0,
    ensures
        last_match(entries, name) == (match last_match(entries.drop_first(), name) {
            Some(b) => Some(b),
            None => {
                if entries[0].0 == name {
                    Some(entries[0].1)
                } else {
                    None::<Seq<u8>>
                }
            },
        }),
    decreases entries.len(),
{
    let tail = entries.drop_first();
    if entries.len() == 1 {
        assert(tail =~= Seq::<(Seq<char>, Seq<u8>)>::empty());
        assert(entries.last() == entries[0]);
    } else {
        assert(entries.last() == tail.last());
        if entries.last().0 == name {
        } else {
            assert(entries.drop_last().drop_first() =~= tail.drop_last());
            assert(entries.drop_last()[0] == entries[0]);
            lemma_last_match_front(entries.drop_last(), name);
        }
    }
}

/// Law: when entry names are distinct, the value a batch pass keeps for a
/// name (its last occurrence) is the value a single read finds (its first
/// occurrence), so reading many agrees with reading one by one.
pub proof fn lemma_batch_read_agrees(entries: Seq<(Seq<char>, Seq<u8>)>, name: Seq<char>)
    requires
        distinct_names(entries),
    ensures
        last_match(entries, name) == first_match(entries, name),
    decreases entries.len(),
{
    if entries.len() == 0 {
    } else {
        let tail = entries.drop_first();
        assert(forall|k: int| 0 <= k < tail.len() ==> #[trigger] tail[k] == entries[k + 1]);
        assert(distinct_names(tail));
        lemma_batch_read_agrees(tail, name);
        lemma_last_match_front(entries, name);
        if entries[0].0 == name {
            assert(forall|k: int| 0 <= k < tail.len() ==> (#[trigger] tail[k].0) != name);
            lemma_no_match(tail, name);
        }
    }
}

/// Law: a batch over distinct names returns, position by position, exactly
/// the bytes single reads of the same names return.
pub proof fn lemma_zip_batch_agrees(
    data: Seq<u8>,
    names: Seq<Seq<char>>,
    batch: Seq<Seq<u8>>,
    singles: Seq<Seq<u8>>,
)
    requires
        batch.len() == names.len(),
        singles.len() == names.len(),
        forall|i: int|
            0 <= i < names.len() ==> zip_entry_data(data, #[trigger] names[i]) == Some(batch[i]),
        forall|i: int|
            0 <= i < names.len() ==> zip_entry_data(data, #[trigger] names[i]) == Some(singles[i]),
    ensures
        batch == singles,
{
    assert forall|i: int| 0 <= i < batch.len() implies batch[i] == singles[i] by {
        assert(zip_entry_data(data, names[i]) == Some(batch[i]));
        assert(zip_entry_data(data, names[i]) == Some(singles[i]));
    }
    assert(batch =~= singles);
}

/// The bytes of the last collected entry with the given name, if any.
fn find_last_match(entries: &Vec<(String, Vec<u8>)>, name: &String) -> (r: Option<Vec<u8>>)
    ensures
        match r {
            Some(b) => last_match(pair_views(entries@), name@) == Some(b@),
            None => last_match(pair_views(entries@), name@) is None,
        },
{
    let ghost ev = pair_views(entries@);
    let mut j: usize = entries.len();
    proof {
        assert(ev.take(j as int) =~= ev);
    }
    while j > 0
        invariant
            j <= entries.len(),
            ev == pair_views(entries@),
            last_match(ev, name@) == last_match(ev.take(j as int), name@),
        decreases j,
    {
        proof {
            assert(ev.take(j as int).last() == ev[j - 1]);
            assert(ev[j - 1] == (entries@[j - 1].0@, entries@[j - 1].1@));
            assert(ev.take(j as int).drop_last() =~= ev.take(j - 1));
        }
        if entries[j - 1].0 == *name {
            return Some(clone_bytes(&entries[j - 1].1));
        }
        j = j - 1;
    }
    proof {
        assert(ev.take(0) =~= Seq::<(Seq<char>, Seq<u8>)>::empty());
    }
    None
}

/// The requested entries' bytes, in the requested order, out of the
/// entries one forward pass collected; fails with the first name that was
/// never encountered.
#[verifier::loop_isolation(false)]
pub fn batch_output(entries: &Vec<(String, Vec<u8>)>, requested: &Vec<String>) -> (r: Result<
    Vec<Vec<u8>>,
    ArchiveError,
>)
    ensures
        r matches Ok(out) ==> out@.len() == requested@.len() && forall|i: int|
            0 <= i < requested@.len() ==> last_match(pair_views(entries@), #[trigger] requested@[i]@)
                == Some(out@[i]@),
        r is Err ==> exists|i: int|
            0 <= i < requested@.len() && last_match(pair_views(entries@), #[trigger] requested@[i]@)
                is None,
        (forall|i: int|
            0 <= i < requested@.len() ==> last_match(pair_views(entries@), #[trigger] requested@[i]@)
                is Some) ==> r is Ok,
{
    let mut out: Vec<Vec<u8>> = Vec::new();
    let mut i: usize = 0;
    let n = requested.len();
    while i < n
        invariant
            i <= n,
            out@.len() == i,
            forall|k: int|
                0 <= k < i ==> last_match(pair_views(entries@), #[trigger] requested@[k]@) == Some(
                    out@[k]@,
                ),
        decreases n - i,
    {
        match find_last_match(entries, &requested[i]) {
            Some(b) => {
                out.push(b);
            },
            None => {
                return Err(ArchiveError::EntryNotFound(requested[i].clone()));
            },
        }
        i = i + 1;
    }
    Ok(out)
}

/// A RAR-family container's forward cursor, standing before the next entry
/// header.  The wrapped `unrar` cursor type cannot be declared to the
/// verifier (its type parameters are bound by unexported traits), so the
/// collection is held opaquely and walked through the trusted functions
/// below; what came from disk is never assumed, only computed with.
#[verifier::external_body]
pub struct RarCursor {
    inner: unrar::OpenArchive<unrar::Process, unrar::CursorBeforeHeader>,
}

/// A RAR-family cursor standing before an entry's payload, after its
/// header was read.
#[verifier::external_body]
pub struct RarEntry {
    inner: unrar::OpenArchive<unrar::Process, unrar::CursorBeforeFile>,
}

/// Relies on `unrar::Archive::new` and `Archive::open_for_processing`:
/// opens the container at the path for one forward pass.  What it yields
/// depends on the file system, so nothing is assumed of the outcome.
#[verifier::external_body]
fn rar_open(path: &str) -> (r: Result<RarCursor, String>)
{
    match unrar::Archive::new(path).open_for_processing() {
        Ok(inner) => Ok(RarCursor { inner }),
        Err(e) => Err(format!("failed to open archive {path}: {e}")),
    }
}

/// Relies on `OpenArchive::read_header` and `FileHeader::filename`: steps
/// the cursor to the next entry, handing back its name, or `None` at the
/// container's end.
#[verifier::external_body]
fn rar_read_header(c: RarCursor) -> (r: Result<Option<(String, RarEntry)>, String>)
{
    match c.inner.read_header() {
        Ok(Some(e)) => {
            let name = e.entry().filename.to_string_lossy().into_owned();
            Ok(Some((name, RarEntry { inner: e })))
        },
        Ok(None) => Ok(None),
        Err(e) => Err(format!("failed to read header: {e}")),
    }
}

/// Relies on `OpenArchive::read`: reads the current entry's payload and
/// moves the cursor past it.
#[verifier::external_body]
fn rar_read_data(e: RarEntry) -> (r: Result<(Vec<u8>, RarCursor), String>)
{
    match e.inner.read() {
        Ok((data, inner)) => Ok((data, RarCursor { inner })),
        Err(err) => Err(format!("failed to read entry: {err}")),
    }
}

/// Relies on `OpenArchive::skip`: moves the cursor past the current
/// entry's payload without reading it.
#[verifier::external_body]
fn rar_skip(e: RarEntry) -> (r: Result<RarCursor, String>)
{
    match e.inner.skip() {
        Ok(inner) => Ok(RarCursor { inner }),
        Err(err) => Err(format!("failed to skip entry: {err}")),
    }
}

/// More headers than any real container holds; the scan loops below stop
/// there rather than run unbounded.
pub const MAX_ARCHIVE_ENTRIES: usize = 1000000000;

/// The image entry names of a RAR-family container, natural-sorted: one
/// forward pass over the headers, skipping every payload.
#[verifier::loop_isolation(false)]
pub fn rar_list_image_entries(path: &str) -> (r: Result<Vec<String>, ArchiveError>)
    ensures
        r matches Ok(names) ==> sorted_names(names.deep_view()) && forall|k: int|
            0 <= k < names@.len() ==> is_image_entry_spec(#[trigger] names@[k]@),
{
    let mut cursor = match rar_open(path) {
        Ok(c) => c,
        Err(m) => {
            return Err(ArchiveError::OpenFailed(m));
        },
    };
    let mut names: Vec<String> = Vec::new();
    let mut steps: usize = 0;
    loop
        invariant
            steps <= MAX_ARCHIVE_ENTRIES,
        decreases MAX_ARCHIVE_ENTRIES - steps,
    {
        if steps == MAX_ARCHIVE_ENTRIES {
            return Err(
                ArchiveError::ReadFailed(String::from_str("archive holds too many entries")),
            );
        }
        steps = steps + 1;
        let entry = match rar_read_header(cursor) {
            Ok(Some(e)) => e,
            Ok(None) => {
                break ;
            },
            Err(m) => {
                return Err(ArchiveError::ReadFailed(m));
            },
        };
        names.push(entry.0);
        cursor = match rar_skip(entry.1) {
            Ok(c) => c,
            Err(m) => {
                return Err(ArchiveError::ReadFailed(m));
            },
        };
    }
    let listed = image_entry_listing(names);
    proof {
        assert forall|k: int| 0 <= k < listed@.len() implies is_image_entry_spec(
            #[trigger] listed@[k]@,
        ) by {
            assert(listed.deep_view()[k] == listed@[k]@);
        }
    }
    Ok(listed)
}

/// One image entry of a RAR-family container: scan headers forward,
/// reading the first entry whose normalized name is the requested one and
/// skipping every other payload.
#[verifier::loop_isolation(false)]
pub fn rar_read_image_entry(path: &str, entry_name: &str) -> (r: Result<Vec<u8>, ArchiveError>)
{
    let mut cursor = match rar_open(path) {
        Ok(c) => c,
        Err(m) => {
            return Err(ArchiveError::OpenFailed(m));
        },
    };
    let target = chars_of(entry_name);
    let mut steps: usize = 0;
    loop
        invariant
            steps <= MAX_ARCHIVE_ENTRIES,
        decreases MAX_ARCHIVE_ENTRIES - steps,
    {
        if steps == MAX_ARCHIVE_ENTRIES {
            return Err(
                ArchiveError::ReadFailed(String::from_str("archive holds too many entries")),
            );
        }
        steps = steps + 1;
        let entry = match rar_read_header(cursor) {
            Ok(Some(e)) => e,
            Ok(None) => {
                break ;
            },
            Err(m) => {
                return Err(ArchiveError::ReadFailed(m));
            },
        };
        let raw = chars_of(entry.0.as_str());
        let norm = normalize_chars(&raw);
        if crate::paths::chars_eq(&norm, &target) {
            match rar_read_data(entry.1) {
                Ok((data, _)) => {
                    return Ok(data);
                },
                Err(m) => {
                    return Err(ArchiveError::ReadFailed(m));
                },
            }
        }
        cursor = match rar_skip(entry.1) {
            Ok(c) => c,
            Err(m) => {
                return Err(ArchiveError::ReadFailed(m));
            },
        };
    }
    Err(ArchiveError::EntryNotFound(String::from_str(entry_name)))
}

/// One forward pass collecting every entry whose normalized name is among
/// the requested ones; other payloads are skipped.  The collected list
/// keeps archive order, so a later duplicate stands behind an earlier one.
#[verifier::loop_isolation(false)]
pub fn rar_collect_requested(path: &str, requested: &Vec<String>) -> (r: Result<
    Vec<(String, Vec<u8>)>,
    ArchiveError,
>)
    ensures
        r matches Ok(out) ==> forall|k: int|
            0 <= k < out@.len() ==> has_name(requested@, #[trigger] out@[k].0@),
{
    let mut cursor = match rar_open(path) {
        Ok(c) => c,
        Err(m) => {
            return Err(ArchiveError::OpenFailed(m));
        },
    };
    let mut out: Vec<(String, Vec<u8>)> = Vec::new();
    let mut steps: usize = 0;
    loop
        invariant
            steps <= MAX_ARCHIVE_ENTRIES,
            forall|k: int|
                0 <= k < out@.len() ==> has_name(requested@, #[trigger] out@[k].0@),
        decreases MAX_ARCHIVE_ENTRIES - steps,
    {
        if steps == MAX_ARCHIVE_ENTRIES {
            return Err(
                ArchiveError::ReadFailed(String::from_str("archive holds too many entries")),
            );
        }
        steps = steps + 1;
        let entry = match rar_read_header(cursor) {
            Ok(Some(e)) => e,
            Ok(None) => {
                break ;
            },
            Err(m) => {
                return Err(ArchiveError::ReadFailed(m));
            },
        };
        let raw = chars_of(entry.0.as_str());
        let norm = normalize_chars(&raw);
        if contains_name(requested, &norm) {
            match rar_read_data(entry.1) {
                Ok((data, c)) => {
                    out.push((string_of(&norm), data));
                    cursor = c;
                    proof {
                        assert(out@.last().0@ == norm@);
                        assert(has_name(requested@, out@.last().0@));
                    }
                },
                Err(m) => {
                    return Err(ArchiveError::ReadFailed(m));
                },
            }
        } else {
            cursor = match rar_skip(entry.1) {
                Ok(c) => c,
                Err(m) => {
                    return Err(ArchiveError::ReadFailed(m));
                },
            };
        }
    }
    Ok(out)
}

/// Several image entries of a RAR-family container, in the requested
/// order: exactly one forward pass collects the payloads, and each
/// requested name is served the last occurrence that pass kept; a name the
/// pass never met fails the whole call.
pub fn rar_read_image_entries_batch(path: &str, requested: &Vec<String>) -> (r: Result<
    Vec<Vec<u8>>,
    ArchiveError,
>)
    ensures
        r matches Ok(out) ==> out@.len() == requested@.len(),
{
    let collected = match rar_collect_requested(path, requested) {
        Ok(c) => c,
        Err(e) => {
            return Err(e);
        },
    };
    batch_output(&collected, requested)
}

/// Every image entry of a RAR-family container with its bytes, natural-
/// sorted by name: one forward pass reading image payloads and skipping
/// the rest.
#[verifier::loop_isolation(false)]
#[verifier::rlimit(100)]
#[verifier::spinoff_prover]
pub fn rar_read_all_image_entries(path: &str) -> (r: Result<Vec<(String, Vec<u8>)>, ArchiveError>)
    ensures
        r matches Ok(out) ==> sorted_pairs(pair_views(out@)) && forall|k: int|
            0 <= k < out@.len() ==> is_image_entry_spec(#[trigger] pair_views(out@)[k].0),
{
    let mut cursor = match rar_open(path) {
        Ok(c) => c,
        Err(m) => {
            return Err(ArchiveError::OpenFailed(m));
        },
    };
    let mut entries: Vec<(String, Vec<u8>)> = Vec::new();
    let mut steps: usize = 0;
    loop
        invariant
            steps <= MAX_ARCHIVE_ENTRIES,
        decreases MAX_ARCHIVE_ENTRIES - steps,
    {
        if steps == MAX_ARCHIVE_ENTRIES {
            return Err(
                ArchiveError::ReadFailed(String::from_str("archive holds too many entries")),
            );
        }
        steps = steps + 1;
        let entry = match rar_read_header(cursor) {
            Ok(Some(e)) => e,
            Ok(None) => {
                break ;
            },
            Err(m) => {
                return Err(ArchiveError::ReadFailed(m));
            },
        };
        let raw = chars_of(entry.0.as_str());
        let norm = normalize_chars(&raw);
        if is_image_entry_chars(&norm) {
            match rar_read_data(entry.1) {
                Ok((data, c)) => {
                    entries.push((entry.0, data));
                    cursor = c;
                },
                Err(m) => {
                    return Err(ArchiveError::ReadFailed(m));
                },
            }
        } else {
            cursor = match rar_skip(entry.1) {
                Ok(c) => c,
                Err(m) => {
                    return Err(ArchiveError::ReadFailed(m));
                },
            };
        }
    }
    Ok(image_entry_pairs(entries))
}

/// The image entry names of an archive, natural-sorted.
pub fn list_archive_image_entries(src: &ArchiveSource) -> (r: Result<Vec<String>, ArchiveError>)
    ensures
        r matches Ok(names) ==> sorted_names(names.deep_view()),
        src matches ArchiveSource::Zip(data) ==> (r is Ok <==> zip_parses(data@)),
        src matches ArchiveSource::Zip(data) ==> (r matches Ok(names) ==> names.deep_view()
            .to_multiset() == image_entry_names(zip_names(data@)).to_multiset()),
{
    match src {
        ArchiveSource::Zip(data) => zip_list_image_entries(data),
        ArchiveSource::Rar(path) => rar_list_image_entries(path.as_str()),
    }
}

/// One image entry of an archive, by name.
pub fn read_archive_image_entry(src: &ArchiveSource, entry_name: &str) -> (r: Result<
    Vec<u8>,
    ArchiveError,
>)
    ensures
        src matches ArchiveSource::Zip(data) ==> (r matches Ok(bytes) ==> zip_entry_data(
            data@,
            entry_name@,
        ) == Some(bytes@)),
        src matches ArchiveSource::Zip(data) ==> (r is Err <==> zip_entry_data(
            data@,
            entry_name@,
        ) is None),
        src matches ArchiveSource::Zip(data) ==> (r matches Err(ArchiveError::EntryNotFound(_))
            <==> zip_parses(data@) && !zip_has_entry(data@, entry_name@)),
{
    match src {
        ArchiveSource::Zip(data) => zip_read_image_entry(data, entry_name),
        ArchiveSource::Rar(path) => rar_read_image_entry(path.as_str(), entry_name),
    }
}

/// Several entries of an archive, in the requested order; the whole call
/// fails when any requested name cannot be served.
pub fn read_archive_image_entries_batch(src: &ArchiveSource, entry_names: &Vec<String>) -> (r:
    Result<Vec<Vec<u8>>, ArchiveError>)
    ensures
        r matches Ok(out) ==> out@.len() == entry_names@.len(),
        entry_names@.len() == 0 ==> (r matches Ok(out) && out@.len() == 0),
        src matches ArchiveSource::Zip(data) ==> (r matches Ok(out) ==> forall|i: int|
            0 <= i < entry_names@.len() ==> zip_entry_data(data@, #[trigger] entry_names@[i]@)
                == Some(out@[i]@)),
        src matches ArchiveSource::Zip(data) ==> (r is Err ==> exists|i: int|
            0 <= i < entry_names@.len() && zip_entry_data(data@, #[trigger] entry_names@[i]@)
                is None),
        src matches ArchiveSource::Zip(data) ==> ((forall|i: int|
            0 <= i < entry_names@.len() ==> zip_entry_data(data@, #[trigger] entry_names@[i]@)
                is Some) ==> r is Ok),
        src matches ArchiveSource::Zip(data) ==> (r is Ok ==> (zip_parses(data@) ==> forall|
            i: int,
        |
            0 <= i < entry_names@.len() ==> zip_has_entry(data@, #[trigger] entry_names@[i]@))),
        src matches ArchiveSource::Zip(data) ==> (r matches Err(ArchiveError::EntryNotFound(_))
            ==> exists|i: int|
            0 <= i < entry_names@.len() && zip_parses(data@) && !zip_has_entry(
                data@,
                #[trigger] entry_names@[i]@,
            )),
{
    if entry_names.len() == 0 {
        return Ok(Vec::new());
    }
    match src {
        ArchiveSource::Zip(data) => zip_read_image_entries_batch(data, entry_names),
        ArchiveSource::Rar(path) => rar_read_image_entries_batch(path.as_str(), entry_names),
    }
}

/// Every image entry of an archive with its bytes, natural-sorted by
/// entry name.
pub fn read_all_archive_image_entries(src: &ArchiveSource) -> (r: Result<
    Vec<(String, Vec<u8>)>,
    ArchiveError,
>)
    ensures
        r matches Ok(out) ==> sorted_pairs(pair_views(out@)),
        src matches ArchiveSource::Zip(data) ==> (r matches Ok(out) ==> zip_parses(data@)
            && pair_views(out@).to_multiset() == zip_image_pairs_from(
            zip_names(data@),
            data@,
            0,
        ).to_multiset()),
        src matches ArchiveSource::Zip(data) ==> (r matches Ok(out) ==> pair_names(
            pair_views(out@),
        ).to_multiset() == image_entry_names(zip_names(data@)).to_multiset()),
        src matches ArchiveSource::Zip(data) ==> (zip_parses(data@) && zip_image_entries_readable(
            zip_names(data@),
            data@,
        ) ==> r is Ok),
{
    match src {
        ArchiveSource::Zip(data) => zip_read_all_image_entries(data),
        ArchiveSource::Rar(path) => rar_read_all_image_entries(path.as_str()),
    }
}

} // verus!
