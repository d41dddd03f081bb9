//! Indexed pages, comics, and the aggregation that builds the index
//! payload.
//!
//! Candidates are visited one by one in natural order; each either becomes
//! an indexed comic, is skipped silently (no pattern match, or no pages),
//! or is recorded as a per-candidate error.  A completed run always hands
//! back everything that succeeded together with the recorded failures.

use vstd::prelude::*;

use crate::chars::{chars_of, string_of};
use crate::numfmt::{dec_digits, u64_to_chars};
use crate::order::{sorted_names, sort_names};
use crate::paths::{normalize_seq, normalize_chars, file_name_spec, file_name_chars,
    is_image_file_spec, is_image_file_chars};
use crate::scan::{ComicCandidate, SourceType};
use crate::pattern::{extract_spec, extract_metadata, metadata_view, PatternMetadata};
use crate::paths::{get_relative_path, relative_path_spec};
use crate::pdf::{pdf_page_count_of, count_pdf_pages};

verus! {

/// One image file found in a comic directory, in page order.
pub struct ImagePageEntry {
    pub file_path: String,
    pub file_name: String,
    pub page_number: i64,
}

/// One externally visible page record.
pub struct IndexedPage {
    pub page_number: i64,
    pub file_path: String,
    pub file_name: String,
    pub source_type: SourceType,
    pub source_path: String,
    pub archive_entry_path: Option<String>,
    pub pdf_page_number: Option<i64>,
    pub thumbnail_path: Option<String>,
}

/// One indexed comic with its ordered pages.
pub struct IndexedComic {
    pub path: String,
    pub title: String,
    pub source_type: SourceType,
    pub artist: Option<String>,
    pub series: Option<String>,
    pub issue: Option<String>,
    pub cover_image_path: Option<String>,
    pub page_count: i64,
    pub pages: Vec<IndexedPage>,
}

/// One candidate that failed, with a human-readable message.
pub struct IndexingError {
    pub path: String,
    pub message: String,
}

/// The result of a whole indexing run.
pub struct IndexPayload {
    pub comics: Vec<IndexedComic>,
    pub active_comic_paths: Vec<String>,
    pub errors: Vec<IndexingError>,
}

/// Page numbers are one-based and contiguous.
pub open spec fn pages_wf(ps: Seq<IndexedPage>) -> bool {
    forall|i: int| 0 <= i < ps.len() ==> (#[trigger] ps[i].page_number) == i + 1
}

/// A comic's invariant: the count matches the pages, the pages are
/// numbered one-based and contiguously, and the cover is the first page's
/// file.
pub open spec fn comic_wf(c: IndexedComic) -> bool {
    &&& c.page_count == c.pages@.len()
    &&& pages_wf(c.pages@)
    &&& c.pages@.len() > 0 ==> c.cover_image_path == Some(c.pages@[0].file_path)
}

/// The image files among `names`, in order.
pub open spec fn image_files_from(names: Seq<Seq<char>>, k: int) -> Seq<Seq<char>>
    decreases names.len() - k,
    when 0 <= k <= names.len()
{
    if k >= names.len() {
        Seq::<Seq<char>>::empty()
    } else {
        let rest = image_files_from(names, k + 1);
        if is_image_file_spec(names[k]) {
            seq![names[k]] + rest
        } else {
            rest
        }
    }
}

#[verifier::loop_isolation(false)]
fn filter_image_files(names: &Vec<String>) -> (r: Vec<String>)
    ensures
        r.deep_view() == image_files_from(names.deep_view(), 0),
{
    let ghost nv = names.deep_view();
    let mut r: Vec<String> = Vec::new();
    let mut k: usize = 0;
    let n = names.len();
    proof {
        assert(nv.len() == n);
        assert(r.deep_view() + image_files_from(nv, 0) =~= image_files_from(nv, 0));
    }
    while k < n
        invariant
            k <= n,
            r.deep_view() + image_files_from(nv, k as int) == image_files_from(nv, 0),
        decreases n - k,
    {
        proof {
            assert(nv[k as int] == names@[k as int]@);
        }
        let cs = chars_of(names[k].as_str());
        if is_image_file_chars(&cs) {
            r.push(names[k].clone());
            proof {
                assert(r.deep_view() + image_files_from(nv, k + 1) =~~= image_files_from(nv, 0));
            }
        } else {
            proof {
                assert(r.deep_view() + image_files_from(nv, k + 1) =~~= image_files_from(nv, 0));
            }
        }
        k = k + 1;
    }
    proof {
        assert(image_files_from(nv, n as int) =~= Seq::<Seq<char>>::empty());
        assert(r.deep_view() =~~= image_files_from(nv, 0));
    }
    r
}

/// The ordered image pages of a comic directory, given the names of its
/// regular files: image files only, natural-sorted, numbered from one;
/// each page's path is the directory path and the file name.
#[verifier::loop_isolation(false)]
pub fn image_pages_from_names(dir_path: &str, file_names: Vec<String>) -> (r: Vec<ImagePageEntry>)
    requires
        file_names@.len() <= 0x7fffffffffffffff,
    ensures
        forall|i: int|
            0 <= i < r@.len() ==> (#[trigger] r@[i].page_number) == i + 1 && r@[i].file_path@
                == normalize_seq(dir_path@) + seq!['/'] + r@[i].file_name@,
        sorted_names(r@.map_values(|e: ImagePageEntry| e.file_name@)),
        r@.map_values(|e: ImagePageEntry| e.file_name@).to_multiset() == image_files_from(
            file_names.deep_view(),
            0,
        ).to_multiset(),
{
    broadcast use vstd::seq_lib::group_to_multiset_ensures;

    let filtered = filter_image_files(&file_names);
    proof {
        filtered.deep_view().to_multiset_ensures();
    }
    let sorted = sort_names(filtered);
    let ghost sv = sorted.deep_view();
    let dv = chars_of(dir_path);
    let base = normalize_chars(&dv);
    let mut r: Vec<ImagePageEntry> = Vec::new();
    let mut i: usize = 0;
    let n = sorted.len();
    proof {
        assert(sv.len() == n);
        assert(n <= file_names@.len()) by {
            assert(sv.to_multiset().len() == sv.len());
            assert(image_files_from(file_names.deep_view(), 0).to_multiset().len()
                == image_files_from(file_names.deep_view(), 0).len());
            lemma_image_files_len(file_names.deep_view(), 0);
        }
    }
    while i < n
        invariant
            i <= n,
            r@.len() == i,
            forall|k: int| 0 <= k < i ==> (#[trigger] r@[k].file_name@) == sv[k],
            forall|k: int|
                0 <= k < i ==> (#[trigger] r@[k].page_number) == k + 1 && r@[k].file_path@
                    == normalize_seq(dir_path@) + seq!['/'] + r@[k].file_name@,
        decreases n - i,
    {
        proof {
            assert(sv[i as int] == sorted@[i as int]@);
        }
        let name = sorted[i].clone();
        let ncs = chars_of(name.as_str());
        let mut pcs: Vec<char> = Vec::new();
        let ghost bvv = base@;
        let mut j: usize = 0;
        while j < base.len()
            invariant
                j <= base@.len(),
                pcs@ == base@.take(j as int),
            decreases base@.len() - j,
        {
            pcs.push(base[j]);
            j = j + 1;
            proof {
                assert(pcs@ =~= base@.take(j as int));
            }
        }
        proof {
            assert(base@.take(base@.len() as int) =~= base@);
        }
        pcs.push('/');
        let mut j2: usize = 0;
        while j2 < ncs.len()
            invariant
                j2 <= ncs@.len(),
                pcs@ == base@ + seq!['/'] + ncs@.take(j2 as int),
            decreases ncs@.len() - j2,
        {
            pcs.push(ncs[j2]);
            j2 = j2 + 1;
            proof {
                assert(pcs@ =~= base@ + seq!['/'] + ncs@.take(j2 as int));
            }
        }
        proof {
            assert(ncs@.take(ncs@.len() as int) =~= ncs@);
        }
        let entry = ImagePageEntry {
            file_path: string_of(&pcs),
            file_name: name,
            page_number: (i as i64) + 1,
        };
        r.push(entry);
        i = i + 1;
    }
    proof {
        let fv = r@.map_values(|e: ImagePageEntry| e.file_name@);
        assert(fv =~= sv);
    }
    r
}

proof fn lemma_image_files_len(names: Seq<Seq<char>>, k: int)
    requires
        0 <= k <= names.len(),
    ensures
        image_files_from(names, k).len() <= names.len() - k,
    decreases names.len() - k,
{
    if k < names.len() {
        lemma_image_files_len(names, k + 1);
    }
}

/// The indexed pages of an image-directory comic: each listed page with
/// its generated thumbnail path.
#[verifier::loop_isolation(false)]
pub fn assemble_image_pages(entries: &Vec<ImagePageEntry>, thumbnail_paths: &Vec<String>) -> (r:
    Vec<IndexedPage>)
    requires
        entries@.len() == thumbnail_paths@.len(),
    ensures
        r@.len() == entries@.len(),
        forall|i: int|
            0 <= i < r@.len() ==> {
                let p = #[trigger] r@[i];
                &&& p.page_number == entries@[i].page_number
                &&& p.file_path == entries@[i].file_path
                &&& p.file_name == entries@[i].file_name
                &&& p.source_type == SourceType::Image
                &&& p.source_path == entries@[i].file_path
                &&& p.archive_entry_path is None
                &&& p.pdf_page_number is None
                &&& p.thumbnail_path == Some(thumbnail_paths@[i])
            },
{
    let mut r: Vec<IndexedPage> = Vec::new();
    let mut i: usize = 0;
    let n = entries.len();
    while i < n
        invariant
            i <= n,
            r@.len() == i,
            forall|k: int|
                0 <= k < i ==> {
                    let p = #[trigger] r@[k];
                    &&& p.page_number == entries@[k].page_number
                    &&& p.file_path == entries@[k].file_path
                    &&& p.file_name == entries@[k].file_name
                    &&& p.source_type == SourceType::Image
                    &&& p.source_path == entries@[k].file_path
                    &&& p.archive_entry_path is None
                    &&& p.pdf_page_number is None
                    &&& p.thumbnail_path == Some(thumbnail_paths@[k])
                },
        decreases n - i,
    {
        let e = &entries[i];
        r.push(
            IndexedPage {
                page_number: e.page_number,
                file_path: e.file_path.clone(),
                file_name: e.file_name.clone(),
                source_type: SourceType::Image,
                source_path: e.file_path.clone(),
                archive_entry_path: None,
                pdf_page_number: None,
                thumbnail_path: Some(thumbnail_paths[i].clone()),
            },
        );
        i = i + 1;
    }
    r
}

/// The file name an archive entry's page shows: the part after the last
/// slash, or the whole entry name when that part is empty.
pub open spec fn entry_file_name(entry: Seq<char>) -> Seq<char> {
    if file_name_spec(entry).len() == 0 {
        entry
    } else {
        file_name_spec(entry)
    }
}

/// The indexed pages of an archive comic: the natural-sorted entry names,
/// each with its generated thumbnail path.
#[verifier::loop_isolation(false)]
pub fn assemble_archive_pages(
    comic_path: &str,
    entry_names: &Vec<String>,
    thumbnail_paths: &Vec<String>,
) -> (r: Vec<IndexedPage>)
    requires
        entry_names@.len() == thumbnail_paths@.len(),
        entry_names@.len() <= 0x7fffffffffffffff,
    ensures
        r@.len() == entry_names@.len(),
        forall|i: int|
            0 <= i < r@.len() ==> {
                let p = #[trigger] r@[i];
                &&& p.page_number == i + 1
                &&& p.file_path@ == normalize_seq(comic_path@)
                &&& p.file_name@ == entry_file_name(entry_names@[i]@)
                &&& p.source_type == SourceType::Archive
                &&& p.source_path@ == normalize_seq(comic_path@)
                &&& p.archive_entry_path == Some(entry_names@[i])
                &&& p.pdf_page_number is None
                &&& p.thumbnail_path == Some(thumbnail_paths@[i])
            },
{
    let cv = chars_of(comic_path);
    let norm = normalize_chars(&cv);
    let normalized = string_of(&norm);
    let mut r: Vec<IndexedPage> = Vec::new();
    let mut i: usize = 0;
    let n = entry_names.len();
    while i < n
        invariant
            i <= n,
            r@.len() == i,
            normalized@ == normalize_seq(comic_path@),
            forall|k: int|
                0 <= k < i ==> {
                    let p = #[trigger] r@[k];
                    &&& p.page_number == k + 1
                    &&& p.file_path@ == normalize_seq(comic_path@)
                    &&& p.file_name@ == entry_file_name(entry_names@[k]@)
                    &&& p.source_type == SourceType::Archive
                    &&& p.source_path@ == normalize_seq(comic_path@)
                    &&& p.archive_entry_path == Some(entry_names@[k])
                    &&& p.pdf_page_number is None
                    &&& p.thumbnail_path == Some(thumbnail_paths@[k])
                },
        decreases n - i,
    {
        let entry = entry_names[i].clone();
        let ecs = chars_of(entry.as_str());
        let fname = file_name_chars(&ecs);
        let file_name = if fname.len() == 0 {
            entry.clone()
        } else {
            string_of(&fname)
        };
        r.push(
            IndexedPage {
                page_number: (i as i64) + 1,
                file_path: normalized.clone(),
                file_name,
                source_type: SourceType::Archive,
                source_path: normalized.clone(),
                archive_entry_path: Some(entry),
                pdf_page_number: None,
                thumbnail_path: Some(thumbnail_paths[i].clone()),
            },
        );
        i = i + 1;
    }
    r
}

/// A PDF page's synthetic file name: `page-<n>.pdf`.
pub open spec fn pdf_page_file_name(n: int) -> Seq<char> {
    seq!['p', 'a', 'g', 'e', '-'] + dec_digits(n as nat) + seq!['.', 'p', 'd', 'f']
}

/// The indexed pages of a PDF comic, one per page, with no file locator
/// and no thumbnail: rendering is deferred to an external collaborator.
#[verifier::loop_isolation(false)]
pub fn pdf_pages(comic_path: &str, page_count: usize) -> (r: Vec<IndexedPage>)
    requires
        page_count <= 0x7fffffffffffffff,
    ensures
        r@.len() == page_count,
        forall|i: int|
            0 <= i < r@.len() ==> {
                let p = #[trigger] r@[i];
                &&& p.page_number == i + 1
                &&& p.file_path@ == normalize_seq(comic_path@)
                &&& p.file_name@ == pdf_page_file_name(i + 1)
                &&& p.source_type == SourceType::Pdf
                &&& p.source_path@ == normalize_seq(comic_path@)
                &&& p.archive_entry_path is None
                &&& p.pdf_page_number == Some((i + 1) as i64)
                &&& p.thumbnail_path is None
            },
{
    let cv = chars_of(comic_path);
    let norm = normalize_chars(&cv);
    let normalized = string_of(&norm);
    let mut r: Vec<IndexedPage> = Vec::new();
    let mut i: usize = 0;
    while i < page_count
        invariant
            i <= page_count,
            r@.len() == i,
            normalized@ == normalize_seq(comic_path@),
            forall|k: int|
                0 <= k < i ==> {
                    let p = #[trigger] r@[k];
                    &&& p.page_number == k + 1
                    &&& p.file_path@ == normalize_seq(comic_path@)
                    &&& p.file_name@ == pdf_page_file_name(k + 1)
                    &&& p.source_type == SourceType::Pdf
                    &&& p.source_path@ == normalize_seq(comic_path@)
                    &&& p.archive_entry_path is None
                    &&& p.pdf_page_number == Some((k + 1) as i64)
                    &&& p.thumbnail_path is None
                },
        decreases page_count - i,
    {
        let number: i64 = (i as i64) + 1;
        let digits = u64_to_chars(number as u64);
        let mut fcs: Vec<char> = Vec::new();
        fcs.push('p');
        fcs.push('a');
        fcs.push('g');
        fcs.push('e');
        fcs.push('-');
        let ghost head = fcs@;
        let mut j: usize = 0;
        while j < digits.len()
            invariant
                j <= digits@.len(),
                fcs@ == head + digits@.take(j as int),
            decreases digits@.len() - j,
        {
            fcs.push(digits[j]);
            j = j + 1;
            proof {
                assert(fcs@ =~= head + digits@.take(j as int));
            }
        }
        proof {
            assert(digits@.take(digits@.len() as int) =~= digits@);
        }
        fcs.push('.');
        fcs.push('p');
        fcs.push('d');
        fcs.push('f');
        proof {
            assert(fcs@ =~= pdf_page_file_name(i + 1));
        }
        r.push(
            IndexedPage {
                page_number: number,
                file_path: normalized.clone(),
                file_name: string_of(&fcs),
                source_type: SourceType::Pdf,
                source_path: normalized.clone(),
                archive_entry_path: None,
                pdf_page_number: Some(number),
                thumbnail_path: None,
            },
        );
        i = i + 1;
    }
    r
}

/// The page records of a PDF comic, from its bytes: count the pages by
/// parsing the document, then synthesize the page list.  Fails exactly
/// when the bytes do not parse as a PDF document (or the count cannot be
/// represented).
pub fn build_pdf_pages(comic_path: &str, data: &Vec<u8>) -> (r: Result<Vec<IndexedPage>, String>)
    ensures
        r matches Ok(ps) ==> pdf_page_count_of(data@) == Some(ps@.len() as nat) && pages_wf(ps@),
        r matches Ok(ps) ==> forall|i: int|
            0 <= i < ps@.len() ==> {
                let p = #[trigger] ps@[i];
                &&& p.page_number == i + 1
                &&& p.file_path@ == normalize_seq(comic_path@)
                &&& p.file_name@ == pdf_page_file_name(i + 1)
                &&& p.source_type == SourceType::Pdf
                &&& p.source_path@ == normalize_seq(comic_path@)
                &&& p.archive_entry_path is None
                &&& p.pdf_page_number == Some((i + 1) as i64)
                &&& p.thumbnail_path is None
            },
        pdf_page_count_of(data@) is None ==> r is Err,
        (pdf_page_count_of(data@) matches Some(n) && n <= 0x7fffffffffffffff) ==> r is Ok,
{
    let count = match count_pdf_pages(data) {
        Ok(c) => c,
        Err(m) => {
            return Err(m);
        },
    };
    if (count as u64) > 0x7fffffffffffffffu64 {
        return Err(String::from_str("pdf page count does not fit a page number"));
    }
    let ps = pdf_pages(comic_path, count);
    Ok(ps)
}

/// The filter gate between scanning and page building: the candidate's
/// path relative to the base, matched against the pattern.  `None` means
/// the candidate is excluded from the index, not that anything failed.
pub fn filter_candidate(base_path: &str, comic_path: &str, pattern: &str) -> (r: Option<
    PatternMetadata,
>)
    ensures
        match r {
            Some(m) => extract_spec(relative_path_spec(base_path@, comic_path@), pattern@) == Some(
                metadata_view(m),
            ),
            None => extract_spec(relative_path_spec(base_path@, comic_path@), pattern@) is None,
        },
{
    let relative = get_relative_path(base_path, comic_path);
    extract_metadata(relative.as_str(), pattern)
}

/// An empty run result.
pub fn new_index_payload() -> (r: IndexPayload)
    ensures
        r.comics@.len() == 0,
        r.active_comic_paths@.len() == 0,
        r.errors@.len() == 0,
{
    IndexPayload { comics: Vec::new(), active_comic_paths: Vec::new(), errors: Vec::new() }
}

/// Record one visited candidate's outcome: pages make it a comic, no
/// pages skip it silently, and a failure is recorded as an error without
/// stopping the run.
pub fn record_candidate(
    acc: &mut IndexPayload,
    candidate: &ComicCandidate,
    metadata: PatternMetadata,
    pages: Result<Vec<IndexedPage>, String>,
) -> (accepted: bool)
    requires
        pages matches Ok(ps) ==> ps@.len() <= 0x7fffffffffffffff,
    ensures
        pages matches Ok(ps) ==> (ps@.len() > 0 ==> {
            &&& accepted
            &&& final(acc).comics@ == old(acc).comics@.push(
                IndexedComic {
                    path: candidate.path,
                    title: candidate.title,
                    source_type: candidate.source_type,
                    artist: metadata.artist,
                    series: metadata.series,
                    issue: metadata.issue,
                    cover_image_path: Some(ps@[0].file_path),
                    page_count: ps@.len() as i64,
                    pages: ps,
                },
            )
            &&& final(acc).active_comic_paths@ == old(acc).active_comic_paths@.push(
                candidate.path,
            )
            &&& final(acc).errors@ == old(acc).errors@
        }),
        pages matches Ok(ps) ==> (ps@.len() == 0 ==> {
            &&& !accepted
            &&& final(acc).comics@ == old(acc).comics@
            &&& final(acc).active_comic_paths@ == old(acc).active_comic_paths@
            &&& final(acc).errors@ == old(acc).errors@
        }),
        pages matches Err(m) ==> ({
            &&& !accepted
            &&& final(acc).comics@ == old(acc).comics@
            &&& final(acc).active_comic_paths@ == old(acc).active_comic_paths@
            &&& final(acc).errors@ == old(acc).errors@.push(
                IndexingError { path: candidate.path, message: m },
            )
        }),
{
    match pages {
        Ok(ps) => {
            if ps.len() == 0 {
                return false;
            }
            let cover = ps[0].file_path.clone();
            let count: i64 = ps.len() as i64;
            let comic = IndexedComic {
                path: candidate.path.clone(),
                title: candidate.title.clone(),
                source_type: candidate.source_type,
                artist: metadata.artist,
                series: metadata.series,
                issue: metadata.issue,
                cover_image_path: Some(cover),
                page_count: count,
                pages: ps,
            };
            acc.comics.push(comic);
            acc.active_comic_paths.push(candidate.path.clone());
            true
        },
        Err(m) => {
            acc.errors.push(IndexingError { path: candidate.path.clone(), message: m });
            false
        },
    }
}

/// Law: a recorded comic with well-formed pages is itself well-formed,
/// and recording never disturbs what was already recorded.
pub proof fn lemma_record_preserves_wf(
    before: Seq<IndexedComic>,
    after: Seq<IndexedComic>,
    c: IndexedComic,
)
    requires
        forall|i: int| 0 <= i < before.len() ==> comic_wf(#[trigger] before[i]),
        after == before.push(c),
        comic_wf(c),
    ensures
        forall|i: int| 0 <= i < after.len() ==> comic_wf(#[trigger] after[i]),
{
    assert forall|i: int| 0 <= i < after.len() implies comic_wf(#[trigger] after[i]) by {
        if i < before.len() {
            assert(after[i] == before[i]);
        } else {
            assert(after[i] == c);
        }
    }
}

/// The progress percentage, in hundredths of a percent: the visited share
/// of the candidates, clamped, and zero for an empty run.
pub fn progress_percent_hundredths(total: usize, current: usize) -> (r: u64)
    ensures
        total == 0 ==> r == 0,
        total > 0 ==> r == (if (current as int) * 10000 / (total as int) > 10000 {
            10000int
        } else {
            (current as int) * 10000 / (total as int)
        }),
{
    if total == 0 {
        return 0;
    }
    let v: u128 = (current as u128) * 10000 / (total as u128);
    proof {
        assert(v == (current as int) * 10000 / (total as int)) by (nonlinear_arith)
            requires
                total > 0,
                v == (current as u128) * 10000 as int / (total as u128) as int,
        ;
    }
    if v > 10000 {
        10000
    } else {
        v as u64
    }
}

} // verus!
