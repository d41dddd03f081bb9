//! Comic candidates discovered in a file-system tree.
//!
//! One directory's regular files yield one candidate per archive or PDF
//! file, in order, and one candidate for the directory itself when it holds
//! at least one image file directly.  The recursive walk and the final
//! natural-order sort over all directories' candidates are driven by the
//! caller.

use vstd::prelude::*;
use core::cmp::Ordering;

use crate::chars::{chars_of, string_of};
use crate::natural::{natural_cmp, natural_cmp_spec};
use crate::order::{sorted_names, lemma_insert_multiset, lemma_insert_sorted_names};
use crate::paths::{
    normalize_seq,
    normalize_chars,
    file_name_spec,
    file_name_chars,
    file_stem_spec,
    file_stem_chars,
    is_image_file_spec,
    is_image_file_chars,
    is_archive_file_spec,
    is_archive_file_chars,
    is_pdf_file_spec,
    is_pdf_file_chars,
};

verus! {

/// How a candidate's pages are stored: a directory of image files, an
/// archive container, or a PDF document.
#[derive(Clone, Copy, PartialEq, Eq, Structural, Debug)]
pub enum SourceType {
    Image,
    Archive,
    Pdf,
}

/// A discovered file-system object that may become one indexed comic.
pub struct ComicCandidate {
    pub path: String,
    pub title: String,
    pub source_type: SourceType,
}

/// The candidate's value at the specification level.
pub struct SpecCandidate {
    pub path: Seq<char>,
    pub title: Seq<char>,
    pub source_type: SourceType,
}

pub open spec fn cand_view(c: ComicCandidate) -> SpecCandidate {
    SpecCandidate { path: c.path@, title: c.title@, source_type: c.source_type }
}

pub open spec fn cand_views(s: Seq<ComicCandidate>) -> Seq<SpecCandidate> {
    s.map_values(|c: ComicCandidate| cand_view(c))
}

/// The stem, or a default title when the stem is empty.
pub open spec fn title_or(stem: Seq<char>, dflt: Seq<char>) -> Seq<char> {
    if stem.len() == 0 {
        dflt
    } else {
        stem
    }
}

/// The candidate a single file contributes: a PDF or archive file becomes
/// one candidate; any other file contributes none on its own.
pub open spec fn file_candidates(files: Seq<Seq<char>>, k: int) -> Seq<SpecCandidate>
    decreases files.len() - k,
    when 0 <= k <= files.len()
{
    if k >= files.len() {
        Seq::<SpecCandidate>::empty()
    } else {
        let f = files[k];
        let rest = file_candidates(files, k + 1);
        if is_pdf_file_spec(f) {
            seq![
                SpecCandidate {
                    path: normalize_seq(f),
                    title: title_or(file_stem_spec(normalize_seq(f)), seq!['P', 'D', 'F']),
                    source_type: SourceType::Pdf,
                },
            ] + rest
        } else if is_archive_file_spec(f) {
            seq![
                SpecCandidate {
                    path: normalize_seq(f),
                    title: title_or(
                        file_stem_spec(normalize_seq(f)),
                        seq!['A', 'r', 'c', 'h', 'i', 'v', 'e'],
                    ),
                    source_type: SourceType::Archive,
                },
            ] + rest
        } else {
            rest
        }
    }
}

/// Whether some file in the list is an image file.
pub open spec fn has_image_file(files: Seq<Seq<char>>) -> bool {
    exists|i: int| 0 <= i < files.len() && is_image_file_spec(#[trigger] files[i])
}

/// The candidate the directory itself contributes when it holds images.
pub open spec fn dir_image_candidate(dir: Seq<char>) -> SpecCandidate {
    SpecCandidate {
        path: normalize_seq(dir),
        title: title_or(file_name_spec(normalize_seq(dir)), seq!['C', 'o', 'm', 'i', 'c']),
        source_type: SourceType::Image,
    }
}

/// All candidates one directory's files contribute: per-file candidates in
/// file order, then the directory's own image candidate when some file is
/// an image.
pub open spec fn dir_candidates_spec(dir: Seq<char>, files: Seq<Seq<char>>) -> Seq<SpecCandidate> {
    file_candidates(files, 0) + (if has_image_file(files) {
        seq![dir_image_candidate(dir)]
    } else {
        Seq::<SpecCandidate>::empty()
    })
}

/// The candidates contributed by one directory, given its regular files'
/// paths (the caller lists the directory and recurses into
/// subdirectories).
#[verifier::loop_isolation(false)]
pub fn candidates_for_directory(dir_path: &str, file_paths: &Vec<String>) -> (r: Vec<
    ComicCandidate,
>)
    ensures
        cand_views(r@) == dir_candidates_spec(dir_path@, file_paths.deep_view()),
{
    let ghost files = file_paths.deep_view();
    let mut r: Vec<ComicCandidate> = Vec::new();
    let mut found_image: bool = false;
    let mut k: usize = 0;
    let n = file_paths.len();
    proof {
        assert(files.len() == n);
        assert(cand_views(r@) + file_candidates(files, 0) =~= file_candidates(files, 0));
    }
    while k < n
        invariant
            k <= n,
            cand_views(r@) + file_candidates(files, k as int) == file_candidates(files, 0),
            found_image <==> exists|i: int|
                0 <= i < k && is_image_file_spec(#[trigger] files[i]),
        decreases n - k,
    {
        let f = &file_paths[k];
        proof {
            assert(files[k as int] == file_paths@[k as int]@);
        }
        let fv = chars_of(f.as_str());
        let ghost before = cand_views(r@);
        if is_pdf_file_chars(&fv) {
            let nv = normalize_chars(&fv);
            let stem = file_stem_chars(&nv);
            let title = if stem.len() == 0 {
                let t = String::from_str("PDF");
                proof {
                    reveal_strlit("PDF");
                    assert(t@ =~= seq!['P', 'D', 'F']);
                }
                t
            } else {
                string_of(&stem)
            };
            r.push(
                ComicCandidate {
                    path: string_of(&nv),
                    title,
                    source_type: SourceType::Pdf,
                },
            );
            proof {
                reveal_strlit("PDF");
                assert(cand_views(r@) =~= before + seq![cand_view(r@.last())]);
                assert(cand_views(r@) + file_candidates(files, k + 1) =~= file_candidates(
                    files,
                    0,
                ));
            }
        } else if is_archive_file_chars(&fv) {
            let nv = normalize_chars(&fv);
            let stem = file_stem_chars(&nv);
            let title = if stem.len() == 0 {
                let t = String::from_str("Archive");
                proof {
                    reveal_strlit("Archive");
                    assert(t@ =~= seq!['A', 'r', 'c', 'h', 'i', 'v', 'e']);
                }
                t
            } else {
                string_of(&stem)
            };
            r.push(
                ComicCandidate {
                    path: string_of(&nv),
                    title,
                    source_type: SourceType::Archive,
                },
            );
            proof {
                reveal_strlit("Archive");
                assert(cand_views(r@) =~= before + seq![cand_view(r@.last())]);
                assert(cand_views(r@) + file_candidates(files, k + 1) =~= file_candidates(
                    files,
                    0,
                ));
            }
        } else {
            if is_image_file_chars(&fv) {
                found_image = true;
            }
            proof {
                assert(cand_views(r@) + file_candidates(files, k + 1) =~= file_candidates(
                    files,
                    0,
                ));
            }
        }
        k = k + 1;
    }
    proof {
        assert(file_candidates(files, n as int) =~= Seq::<SpecCandidate>::empty());
        assert(cand_views(r@) =~= file_candidates(files, 0));
        assert(found_image == has_image_file(files));
    }
    if found_image {
        let dv = chars_of(dir_path);
        let nv = normalize_chars(&dv);
        let name = file_name_chars(&nv);
        let title = if name.len() == 0 {
            let t = String::from_str("Comic");
            proof {
                reveal_strlit("Comic");
                assert(t@ =~= seq!['C', 'o', 'm', 'i', 'c']);
            }
            t
        } else {
            string_of(&name)
        };
        r.push(
            ComicCandidate { path: string_of(&nv), title, source_type: SourceType::Image },
        );
        proof {
            reveal_strlit("Comic");
            assert(cand_views(r@) =~= dir_candidates_spec(dir_path@, files));
        }
    } else {
        proof {
            assert(cand_views(r@) =~= dir_candidates_spec(dir_path@, files));
        }
    }
    r
}

/// The candidate paths, in order.
pub open spec fn cand_paths(s: Seq<SpecCandidate>) -> Seq<Seq<char>> {
    s.map_values(|c: SpecCandidate| c.path)
}

/// Adjacent natural order of candidates, by path.
pub open spec fn sorted_candidates(s: Seq<SpecCandidate>) -> bool {
    sorted_names(cand_paths(s))
}

proof fn lemma_cand_views_insert(ow: Seq<ComicCandidate>, p: int, item: ComicCandidate)
    requires
        0 <= p <= ow.len(),
    ensures
        cand_views(ow.insert(p, item)) == cand_views(ow).insert(p, cand_view(item)),
        cand_paths(cand_views(ow).insert(p, cand_view(item))) == cand_paths(
            cand_views(ow),
        ).insert(p, item.path@),
{
    let itemv = cand_view(item);
    let ov = cand_views(ow);
    let keys = cand_paths(ov);
    ow.insert_ensures(p, item);
    ov.insert_ensures(p, itemv);
    keys.insert_ensures(p, itemv.path);
    assert(cand_views(ow.insert(p, item)) =~= ov.insert(p, itemv)) by {
        assert forall|k: int| 0 <= k < ow.len() + 1 implies cand_views(ow.insert(p, item))[k]
            == ov.insert(p, itemv)[k] by {
            if k < p {
                assert(ow.insert(p, item)[k] == ow[k]);
            } else if k == p {
                assert(ow.insert(p, item)[k] == item);
            } else {
                assert(ow.insert(p, item)[k] == ow[k - 1]);
            }
        }
    }
    assert(cand_paths(ov.insert(p, itemv)) =~= keys.insert(p, itemv.path)) by {
        assert forall|k: int| 0 <= k < ov.len() + 1 implies cand_paths(ov.insert(p, itemv))[k]
            == keys.insert(p, itemv.path)[k] by {
            assert(cand_paths(ov.insert(p, itemv))[k] == ov.insert(p, itemv)[k].path);
            if k < p {
                assert(ov.insert(p, itemv)[k] == ov[k]);
            } else if k == p {
                assert(ov.insert(p, itemv)[k] == itemv);
            } else {
                assert(ov.insert(p, itemv)[k] == ov[k - 1]);
            }
        }
    }
}

/// Insert `item` into the already-ordered candidate list `out`.
#[verifier::rlimit(100)]
#[verifier::spinoff_prover]
fn insert_candidate_sorted(out: &mut Vec<ComicCandidate>, item: ComicCandidate)
    requires
        sorted_candidates(cand_views(old(out)@)),
    ensures
        sorted_candidates(cand_views(final(out)@)),
        cand_views(final(out)@).to_multiset() == cand_views(old(out)@).to_multiset().insert(
            cand_view(item),
        ),
{
    let ghost ov = cand_views(out@);
    let ghost keys = cand_paths(ov);
    let mut p: usize = out.len();
    loop
        invariant
            p <= out.len(),
            out@ == old(out)@,
            ov == cand_views(out@),
            keys == cand_paths(ov),
            sorted_candidates(ov),
            forall|k: int|
                p <= k < keys.len() ==> natural_cmp_spec(#[trigger] keys[k], item.path@)
                    == Ordering::Greater,
        ensures
            p <= out.len(),
            out@ == old(out)@,
            forall|k: int|
                p <= k < keys.len() ==> natural_cmp_spec(#[trigger] keys[k], item.path@)
                    == Ordering::Greater,
            p > 0 ==> natural_cmp_spec(keys[p - 1], item.path@) != Ordering::Greater,
        decreases p,
    {
        if p == 0 {
            break ;
        }
        let c = natural_cmp(out[p - 1].path.as_str(), item.path.as_str());
        proof {
            assert(keys[p - 1] == out@[p - 1].path@);
        }
        if !matches!(c, Ordering::Greater) {
            break ;
        }
        p = p - 1;
    }
    let ghost itemv = cand_view(item);
    let ghost ow = out@;
    proof {
        lemma_insert_sorted_names(keys, itemv.path, p as int);
        lemma_insert_multiset(ov, p as int, itemv);
        lemma_cand_views_insert(ow, p as int, item);
    }
    out.insert(p, item);
    proof {
        assert(out@ == ow.insert(p as int, item));
    }
}

/// The candidates, ordered by the natural comparison of their paths: the
/// order in which the index is built.
pub fn sort_candidates(v: Vec<ComicCandidate>) -> (r: Vec<ComicCandidate>)
    ensures
        sorted_candidates(cand_views(r@)),
        cand_views(r@).to_multiset() == cand_views(v@).to_multiset(),
{
    let mut v = v;
    let n = v.len();
    let ghost iv = cand_views(v@);
    let mut r: Vec<ComicCandidate> = Vec::new();
    let mut i: usize = 0;
    proof {
        assert(cand_views(r@) =~= Seq::<SpecCandidate>::empty());
        assert(cand_paths(cand_views(r@)) =~= Seq::<Seq<char>>::empty());
        assert(iv.take(0) =~= Seq::<SpecCandidate>::empty());
        assert(cand_views(r@).to_multiset() =~= iv.take(0).to_multiset());
        assert(iv.skip(0) =~= iv);
    }
    while v.len() > 0
        invariant
            iv.len() == n,
            i + v@.len() == n,
            cand_views(v@) == iv.skip(i as int),
            sorted_candidates(cand_views(r@)),
            cand_views(r@).to_multiset() == iv.take(i as int).to_multiset(),
        decreases v@.len(),
    {
        let ghost vb = v@;
        let item = v.remove(0);
        proof {
            assert(v@ == vb.remove(0));
            assert(item == vb[0]);
            assert(cand_views(vb)[0] == iv.skip(i as int)[0]);
            assert(cand_view(item) == iv[i as int]);
            assert(cand_views(v@) =~= iv.skip(i as int + 1)) by {
                vb.remove_ensures(0);
                assert forall|k: int| 0 <= k < v@.len() implies cand_views(v@)[k] == iv.skip(
                    i as int + 1,
                )[k] by {
                    assert(v@[k] == vb[k + 1]);
                    assert(cand_views(vb)[k + 1] == cand_view(vb[k + 1]));
                    assert(cand_views(vb)[k + 1] == iv.skip(i as int)[k + 1]);
                    assert(iv.skip(i as int)[k + 1] == iv[i + 1 + k]);
                }
            }
            assert(iv.take(i + 1) =~= iv.take(i as int).push(iv[i as int]));
            iv.take(i as int).to_multiset_ensures();
            assert(iv.take(i as int).push(iv[i as int]).to_multiset() =~= iv.take(
                i as int,
            ).to_multiset().insert(iv[i as int]));
        }
        insert_candidate_sorted(&mut r, item);
        i = i + 1;
    }
    proof {
        assert(iv.take(i as int) =~= iv);
    }
    r
}

} // verus!
