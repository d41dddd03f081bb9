//! Path and file-name utilities over forward-slash path strings.
//!
//! Paths are handled as plain strings.  Backslashes are normalized to
//! forward slashes, and a path's file name, stem and extension are read off
//! the text after the last slash.

use vstd::prelude::*;

verus! {

/// `c` with an ASCII upper-case letter lowered; other characters unchanged.
pub open spec fn lower_char(c: char) -> char {
    if 65 <= c as u32 && c as u32 <= 90 {
        (((c as u32) + 32) as u32) as char
    } else {
        c
    }
}

/// `s` with every ASCII upper-case letter lowered.
pub open spec fn lower_seq(s: Seq<char>) -> Seq<char> {
    s.map_values(|c: char| lower_char(c))
}

/// `s` with every backslash replaced by a forward slash.
pub open spec fn normalize_seq(s: Seq<char>) -> Seq<char> {
    s.map_values(
        |c: char|
            if c == '\\' {
                '/'
            } else {
                c
            },
    )
}

/// The last position of `c` in `s`, or `-1` when `c` does not occur.
pub open spec fn last_index_of(s: Seq<char>, c: char) -> int
    decreases s.len(),
{
    if s.len() == 0 {
        -1
    } else if s.last() == c {
        s.len() - 1
    } else {
        last_index_of(s.drop_last(), c)
    }
}

/// The file name of a path: everything after the last slash.
pub open spec fn file_name_spec(p: Seq<char>) -> Seq<char> {
    p.skip(last_index_of(p, '/') + 1)
}

/// The file stem: the file name up to its last dot, unless the dot is the
/// first character or absent.
pub open spec fn file_stem_spec(p: Seq<char>) -> Seq<char> {
    let name = file_name_spec(p);
    let d = last_index_of(name, '.');
    if d <= 0 {
        name
    } else {
        name.take(d)
    }
}

/// The lower-cased extension of a path, when its file name has one after a
/// nonempty stem.
pub open spec fn extension_spec(p: Seq<char>) -> Option<Seq<char>> {
    let name = file_name_spec(p);
    let d = last_index_of(name, '.');
    if d <= 0 {
        None
    } else {
        Some(lower_seq(name.skip(d + 1)))
    }
}

/// Whether `e` is one of the recognized image extensions.
pub open spec fn is_image_ext(e: Seq<char>) -> bool {
    ||| e == seq!['j', 'p', 'g']
    ||| e == seq!['j', 'p', 'e', 'g']
    ||| e == seq!['p', 'n', 'g']
    ||| e == seq!['g', 'i', 'f']
    ||| e == seq!['w', 'e', 'b', 'p']
    ||| e == seq!['b', 'm', 'p']
}

/// Whether `e` is one of the recognized archive extensions.
pub open spec fn is_archive_ext(e: Seq<char>) -> bool {
    ||| e == seq!['c', 'b', 'z']
    ||| e == seq!['c', 'b', 'r']
}

/// Whether the path names an image file, by extension.
pub open spec fn is_image_file_spec(p: Seq<char>) -> bool {
    match extension_spec(p) {
        Some(e) => is_image_ext(e),
        None => false,
    }
}

/// Whether the path names an archive file, by extension.
pub open spec fn is_archive_file_spec(p: Seq<char>) -> bool {
    match extension_spec(p) {
        Some(e) => is_archive_ext(e),
        None => false,
    }
}

/// Whether the path names a PDF file, by extension.
pub open spec fn is_pdf_file_spec(p: Seq<char>) -> bool {
    match extension_spec(p) {
        Some(e) => e == seq!['p', 'd', 'f'],
        None => false,
    }
}

/// Whether `suf` is a suffix of `s`.
pub open spec fn has_suffix(s: Seq<char>, suf: Seq<char>) -> bool {
    suf.len() <= s.len() && s.skip(s.len() - suf.len()) == suf
}

/// Whether an archive entry name, lower-cased, ends in an image extension.
pub open spec fn is_image_entry_spec(name: Seq<char>) -> bool {
    let l = lower_seq(name);
    ||| has_suffix(l, seq!['.', 'j', 'p', 'g'])
    ||| has_suffix(l, seq!['.', 'j', 'p', 'e', 'g'])
    ||| has_suffix(l, seq!['.', 'p', 'n', 'g'])
    ||| has_suffix(l, seq!['.', 'g', 'i', 'f'])
    ||| has_suffix(l, seq!['.', 'w', 'e', 'b', 'p'])
    ||| has_suffix(l, seq!['.', 'b', 'm', 'p'])
}

/// `s` without its trailing slashes.
pub open spec fn strip_trailing_slashes(s: Seq<char>) -> Seq<char>
    decreases s.len(),
{
    if s.len() > 0 && s.last() == '/' {
        strip_trailing_slashes(s.drop_last())
    } else {
        s
    }
}

/// The path of `target` relative to `base`, both in forward-slash form:
/// the part after `base` and its separator when `base` — its trailing
/// slashes ignored — is a proper path prefix, the empty path when they
/// name the same path, and `target` itself otherwise (an empty `base`
/// strips nothing).
pub open spec fn relative_path_spec(base: Seq<char>, target: Seq<char>) -> Seq<char> {
    let nb = normalize_seq(base);
    let b = strip_trailing_slashes(nb);
    let t = normalize_seq(target);
    if nb.len() == 0 {
        t
    } else if t == b {
        Seq::<char>::empty()
    } else if t.len() > b.len() && t.take(b.len() as int) == b && t[b.len() as int] == '/' {
        t.skip(b.len() as int + 1)
    } else {
        t
    }
}

fn strip_trailing_slash_chars(v: Vec<char>) -> (r: Vec<char>)
    ensures
        r@ == strip_trailing_slashes(v@),
{
    let mut r = v;
    let ghost v0 = r@;
    loop
        invariant
            v0 == v@,
            strip_trailing_slashes(r@) == strip_trailing_slashes(v0),
        decreases r@.len(),
    {
        let n = r.len();
        if n == 0 {
            return r;
        }
        if r[n - 1] != '/' {
            return r;
        }
        let ghost before = r@;
        r.pop();
        proof {
            assert(r@ =~= before.drop_last());
        }
    }
}

fn lower_char_of(c: char) -> (r: char)
    ensures
        r == lower_char(c),
{
    let u = c as u32;
    if 65 <= u && u <= 90 {
        ((u as u8) + 32) as char
    } else {
        c
    }
}

/// `v` with ASCII upper-case letters lowered.
pub fn lower_chars(v: &Vec<char>) -> (r: Vec<char>)
    ensures
        r@ == lower_seq(v@),
{
    let mut r: Vec<char> = Vec::new();
    let mut i: usize = 0;
    while i < v.len()
        invariant
            i <= v.len(),
            r@.len() == i,
            forall|k: int| 0 <= k < i ==> r@[k] == lower_char(v@[k]),
        decreases v.len() - i,
    {
        r.push(lower_char_of(v[i]));
        i = i + 1;
    }
    proof {
        assert(r@ =~= lower_seq(v@));
    }
    r
}

/// `v` with backslashes replaced by forward slashes.
pub fn normalize_chars(v: &Vec<char>) -> (r: Vec<char>)
    ensures
        r@ == normalize_seq(v@),
{
    let mut r: Vec<char> = Vec::new();
    let mut i: usize = 0;
    while i < v.len()
        invariant
            i <= v.len(),
            r@.len() == i,
            forall|k: int|
                0 <= k < i ==> r@[k] == (if v@[k] == '\\' {
                    '/'
                } else {
                    v@[k]
                }),
        decreases v.len() - i,
    {
        let c = v[i];
        if c == '\\' {
            r.push('/');
        } else {
            r.push(c);
        }
        i = i + 1;
    }
    proof {
        assert(r@ =~= normalize_seq(v@));
    }
    r
}

/// The characters of `v` from `from` (inclusive) to `to` (exclusive).
pub fn sub_chars(v: &Vec<char>, from: usize, to: usize) -> (r: Vec<char>)
    requires
        from <= to <= v.len(),
    ensures
        r@ == v@.subrange(from as int, to as int),
{
    let mut r: Vec<char> = Vec::new();
    let mut i: usize = from;
    while i < to
        invariant
            from <= i <= to <= v.len(),
            r@.len() == i - from,
            forall|k: int| 0 <= k < i - from ==> r@[k] == v@[from + k],
        decreases to - i,
    {
        r.push(v[i]);
        i = i + 1;
    }
    proof {
        assert(r@ =~= v@.subrange(from as int, to as int));
    }
    r
}

/// Element-wise equality of two character vectors.
pub fn chars_eq(a: &Vec<char>, b: &Vec<char>) -> (r: bool)
    ensures
        r == (a@ == b@),
{
    if a.len() != b.len() {
        proof {
            assert(a@ != b@);
        }
        return false;
    }
    let mut i: usize = 0;
    while i < a.len()
        invariant
            i <= a.len(),
            a@.len() == b@.len(),
            forall|k: int| 0 <= k < i ==> a@[k] == b@[k],
        decreases a.len() - i,
    {
        if a[i] != b[i] {
            proof {
                assert(a@ != b@);
            }
            return false;
        }
        i = i + 1;
    }
    proof {
        assert(a@ =~= b@);
    }
    true
}

proof fn lemma_last_index_of_is(s: Seq<char>, c: char, p: int)
    requires
        0 <= p < s.len(),
        s[p] == c,
        forall|k: int| p < k < s.len() ==> s[k] != c,
    ensures
        last_index_of(s, c) == p,
    decreases s.len(),
{
    if p == s.len() - 1 {
    } else {
        assert(s.last() != c);
        assert(forall|k: int|
            p < k < s.drop_last().len() ==> #[trigger] s.drop_last()[k] != c) by {
            assert(forall|k: int| p < k < s.len() - 1 ==> s[k] != c);
        }
        lemma_last_index_of_is(s.drop_last(), c, p);
    }
}

proof fn lemma_last_index_of_none(s: Seq<char>, c: char)
    requires
        forall|k: int| 0 <= k < s.len() ==> s[k] != c,
    ensures
        last_index_of(s, c) == -1,
    decreases s.len(),
{
    if s.len() > 0 {
        lemma_last_index_of_none(s.drop_last(), c);
    }
}

/// The last position of `c` in `v`, if any.
pub fn last_index_of_chars(v: &Vec<char>, c: char) -> (r: Option<usize>)
    ensures
        match r {
            Some(i) => last_index_of(v@, c) == i && i < v@.len(),
            None => last_index_of(v@, c) == -1,
        },
{
    let mut i: usize = v.len();
    while i > 0
        invariant
            i <= v.len(),
            forall|k: int| i <= k < v.len() ==> v@[k] != c,
        decreases i,
    {
        if v[i - 1] == c {
            proof {
                lemma_last_index_of_is(v@, c, i - 1);
            }
            return Some(i - 1);
        }
        i = i - 1;
    }
    proof {
        lemma_last_index_of_none(v@, c);
    }
    None
}

/// The file name part of `v`: everything after the last slash.
pub fn file_name_chars(v: &Vec<char>) -> (r: Vec<char>)
    ensures
        r@ == file_name_spec(v@),
{
    let start: usize = match last_index_of_chars(v, '/') {
        Some(i) => i + 1,
        None => 0,
    };
    proof {
        assert(v@.skip(start as int) == file_name_spec(v@));
    }
    sub_chars(v, start, v.len())
}

/// The file stem part of `v`.
pub fn file_stem_chars(v: &Vec<char>) -> (r: Vec<char>)
    ensures
        r@ == file_stem_spec(v@),
{
    let name = file_name_chars(v);
    match last_index_of_chars(&name, '.') {
        Some(d) if d > 0 => sub_chars(&name, 0, d),
        _ => name,
    }
}

/// The lower-cased extension of `v`, when present.
pub fn extension_chars(v: &Vec<char>) -> (r: Option<Vec<char>>)
    ensures
        match r {
            Some(e) => extension_spec(v@) == Some(e@),
            None => extension_spec(v@) is None,
        },
{
    let name = file_name_chars(v);
    let li = last_index_of_chars(&name, '.');
    match li {
        Some(d) if d > 0 => {
            let nl = name.len();
            proof {
                assert(d < nl);
            }
            let raw = sub_chars(&name, d + 1, nl);
            Some(lower_chars(&raw))
        },
        _ => None,
    }
}

fn eq3(e: &Vec<char>, a: char, b: char, c: char) -> (r: bool)
    ensures
        r == (e@ == seq![a, b, c]),
{
    let r = e.len() == 3 && e[0] == a && e[1] == b && e[2] == c;
    proof {
        if r {
            assert(e@ =~= seq![a, b, c]);
        } else if e@ == seq![a, b, c] {
            assert(e@.len() == 3 && e@[0] == a && e@[1] == b && e@[2] == c);
        }
    }
    r
}

fn eq4(e: &Vec<char>, a: char, b: char, c: char, d: char) -> (r: bool)
    ensures
        r == (e@ == seq![a, b, c, d]),
{
    let r = e.len() == 4 && e[0] == a && e[1] == b && e[2] == c && e[3] == d;
    proof {
        if r {
            assert(e@ =~= seq![a, b, c, d]);
        } else if e@ == seq![a, b, c, d] {
            assert(e@.len() == 4 && e@[0] == a && e@[1] == b && e@[2] == c && e@[3] == d);
        }
    }
    r
}

/// Whether `e` is a recognized image extension.
pub fn is_image_ext_chars(e: &Vec<char>) -> (r: bool)
    ensures
        r == is_image_ext(e@),
{
    eq3(e, 'j', 'p', 'g') || eq4(e, 'j', 'p', 'e', 'g') || eq3(e, 'p', 'n', 'g') || eq3(
        e,
        'g',
        'i',
        'f',
    ) || eq4(e, 'w', 'e', 'b', 'p') || eq3(e, 'b', 'm', 'p')
}

/// Whether the path (as characters) names an image file.
pub fn is_image_file_chars(v: &Vec<char>) -> (r: bool)
    ensures
        r == is_image_file_spec(v@),
{
    match extension_chars(v) {
        Some(e) => is_image_ext_chars(&e),
        None => false,
    }
}

/// Whether the path (as characters) names an archive file.
pub fn is_archive_file_chars(v: &Vec<char>) -> (r: bool)
    ensures
        r == is_archive_file_spec(v@),
{
    match extension_chars(v) {
        Some(e) => eq3(&e, 'c', 'b', 'z') || eq3(&e, 'c', 'b', 'r'),
        None => false,
    }
}

/// Whether the path (as characters) names a PDF file.
pub fn is_pdf_file_chars(v: &Vec<char>) -> (r: bool)
    ensures
        r == is_pdf_file_spec(v@),
{
    match extension_chars(v) {
        Some(e) => eq3(&e, 'p', 'd', 'f'),
        None => false,
    }
}

/// Whether the path names an image file, by its extension.
pub fn is_image_file(path: &str) -> (r: bool)
    ensures
        r == is_image_file_spec(path@),
{
    let v = crate::chars::chars_of(path);
    is_image_file_chars(&v)
}

/// Whether the path names an archive file, by its extension.
pub fn is_archive_file(path: &str) -> (r: bool)
    ensures
        r == is_archive_file_spec(path@),
{
    let v = crate::chars::chars_of(path);
    is_archive_file_chars(&v)
}

/// Whether the path names a PDF file, by its extension.
pub fn is_pdf_file(path: &str) -> (r: bool)
    ensures
        r == is_pdf_file_spec(path@),
{
    let v = crate::chars::chars_of(path);
    is_pdf_file_chars(&v)
}

/// The lower-cased extension of a path, when present.
pub fn extension_of(path: &str) -> (r: Option<String>)
    ensures
        match r {
            Some(e) => extension_spec(path@) == Some(e@),
            None => extension_spec(path@) is None,
        },
{
    let v = crate::chars::chars_of(path);
    match extension_chars(&v) {
        Some(e) => Some(crate::chars::string_of(&e)),
        None => None,
    }
}

fn suffix_matches_3(l: &Vec<char>, a: char, b: char, c: char) -> (r: bool)
    ensures
        r == has_suffix(l@, seq!['.', a, b, c]),
{
    if l.len() < 4 {
        return false;
    }
    let t = sub_chars(l, l.len() - 4, l.len());
    let r = t[0] == '.' && t[1] == a && t[2] == b && t[3] == c;
    proof {
        if r {
            assert(l@.skip(l@.len() - 4) =~= seq!['.', a, b, c]);
        } else if has_suffix(l@, seq!['.', a, b, c]) {
            let s = l@.skip(l@.len() - 4);
            assert(t@[0] == s[0] && t@[1] == s[1] && t@[2] == s[2] && t@[3] == s[3]);
        }
    }
    r
}

fn suffix_matches_4(l: &Vec<char>, a: char, b: char, c: char, d: char) -> (r: bool)
    ensures
        r == has_suffix(l@, seq!['.', a, b, c, d]),
{
    if l.len() < 5 {
        return false;
    }
    let t = sub_chars(l, l.len() - 5, l.len());
    let r = t[0] == '.' && t[1] == a && t[2] == b && t[3] == c && t[4] == d;
    proof {
        if r {
            assert(l@.skip(l@.len() - 5) =~= seq!['.', a, b, c, d]);
        } else if has_suffix(l@, seq!['.', a, b, c, d]) {
            let s = l@.skip(l@.len() - 5);
            assert(t@[0] == s[0] && t@[1] == s[1] && t@[2] == s[2] && t@[3] == s[3] && t@[4]
                == s[4]);
        }
    }
    r
}

/// Whether an archive entry name ends in an image extension, after
/// lower-casing.
pub fn is_image_entry_chars(name: &Vec<char>) -> (r: bool)
    ensures
        r == is_image_entry_spec(name@),
{
    let l = lower_chars(name);
    suffix_matches_3(&l, 'j', 'p', 'g') || suffix_matches_4(&l, 'j', 'p', 'e', 'g')
        || suffix_matches_3(&l, 'p', 'n', 'g') || suffix_matches_3(&l, 'g', 'i', 'f')
        || suffix_matches_4(&l, 'w', 'e', 'b', 'p') || suffix_matches_3(&l, 'b', 'm', 'p')
}

/// Whether an archive entry name ends in an image extension, after
/// lower-casing.
pub fn is_image_entry_name(name: &str) -> (r: bool)
    ensures
        r == is_image_entry_spec(name@),
{
    let v = crate::chars::chars_of(name);
    is_image_entry_chars(&v)
}

/// The path with backslashes replaced by forward slashes.
pub fn normalize_path_string(path: &str) -> (r: String)
    ensures
        r@ == normalize_seq(path@),
{
    let v = crate::chars::chars_of(path);
    let n = normalize_chars(&v);
    crate::chars::string_of(&n)
}

/// The path of `target` relative to `base`; see `relative_path_spec`.
pub fn get_relative_path(base: &str, target: &str) -> (r: String)
    ensures
        r@ == relative_path_spec(base@, target@),
{
    let bv = crate::chars::chars_of(base);
    let tv = crate::chars::chars_of(target);
    let nb = normalize_chars(&bv);
    let t = normalize_chars(&tv);
    if nb.len() == 0 {
        return crate::chars::string_of(&t);
    }
    let b = strip_trailing_slash_chars(nb);
    if chars_eq(&t, &b) {
        proof {
            assert(Seq::<char>::empty() =~= relative_path_spec(base@, target@));
        }
        return String::new();
    }
    if t.len() > b.len() {
        let prefix = sub_chars(&t, 0, b.len());
        if chars_eq(&prefix, &b) && t[b.len()] == '/' {
            let rest = sub_chars(&t, b.len() + 1, t.len());
            proof {
                assert(rest@ =~= relative_path_spec(base@, target@));
            }
            return crate::chars::string_of(&rest);
        }
    }
    crate::chars::string_of(&t)
}

} // verus!
