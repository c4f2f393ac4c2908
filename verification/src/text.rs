//! Character-level text handling: the string operations the parsers of this
//! crate are built from, each with a specification over `Seq<char>`.
use vstd::prelude::*;

verus! {

broadcast use vstd::string::group_string_axioms;

// ---------------------------------------------------------------------------
// Names for the results of standard-library routines whose behaviour rests on
// Unicode tables or on the platform's path rules.
// ---------------------------------------------------------------------------

/// Whether `c` has the Unicode `White_Space` property, as `char::is_whitespace`
/// tests it: tab through carriage return, space, next line, no-break space,
/// ogham space mark, the spaces U+2000 to U+200A, the line and paragraph
/// separators, narrow no-break space, medium mathematical space and
/// ideographic space.
pub open spec fn is_space(c: char) -> bool {
    ('\u{9}' <= c && c <= '\u{d}') || c == ' ' || c == '\u{85}' || c == '\u{a0}' || c
        == '\u{1680}' || ('\u{2000}' <= c && c <= '\u{200a}') || c == '\u{2028}' || c
        == '\u{2029}' || c == '\u{202f}' || c == '\u{205f}' || c == '\u{3000}'
}

/// The Unicode lowercase mapping of a whole string (`str::to_lowercase`).
pub uninterp spec fn lowercase(s: Seq<char>) -> Seq<char>;

/// The Unicode uppercase mapping of one character (`char::to_uppercase`).
pub uninterp spec fn uppercase_char(c: char) -> Seq<char>;

/// `char::is_whitespace`: whether `c` has the Unicode `White_Space` property.
pub fn is_whitespace(c: char) -> (r: bool)
    ensures
        r == is_space(c),
{
    ('\u{9}' <= c && c <= '\u{d}') || c == ' ' || c == '\u{85}' || c == '\u{a0}' || c
        == '\u{1680}' || ('\u{2000}' <= c && c <= '\u{200a}') || c == '\u{2028}' || c
        == '\u{2029}' || c == '\u{202f}' || c == '\u{205f}' || c == '\u{3000}'
}

/// `str::to_lowercase`, applied to the string that `s` spells. The Unicode
/// case mapping it applies is not stated; its result is named `lowercase`.
#[verifier::external_body]
pub(crate) fn to_lowercase(s: &Vec<char>) -> (r: Vec<char>)
    ensures
        r@ == lowercase(s@),
{
    let text: String = s.iter().collect();
    text.to_lowercase().chars().collect()
}

/// `char::to_uppercase`, collected into its characters. The Unicode case
/// mapping it applies is not stated; its result is named `uppercase_char`.
#[verifier::external_body]
pub(crate) fn to_uppercase_char(c: char) -> (r: Vec<char>)
    ensures
        r@ == uppercase_char(c),
{
    c.to_uppercase().collect()
}

/// Collects characters into a `String` (`FromIterator<char> for String`):
/// the string holds exactly those characters, in order.
#[verifier::external_body]
pub(crate) fn string_of(v: &Vec<char>) -> (s: String)
    ensures
        s@ == v@,
{
    v.iter().collect()
}

// ---------------------------------------------------------------------------
// Basic conversions and slicing.
// ---------------------------------------------------------------------------

/// The characters of `s`, in order.
pub fn chars_of(s: &str) -> (v: Vec<char>)
    ensures
        v@ == s@,
{
    let mut v: Vec<char> = Vec::new();
    for c in it: s.chars()
        invariant
            v@ == it.seq().take(it.index() as int),
    {
        v.push(c);
    }
    v
}

/// The characters of `s` from index `from` up to (not including) `to`.
pub fn slice(s: &Vec<char>, from: usize, to: usize) -> (r: Vec<char>)
    requires
        from <= to <= s.len(),
    ensures
        r@ == s@.subrange(from as int, to as int),
{
    let mut r: Vec<char> = Vec::new();
    let mut i = from;
    while i < to
        invariant
            from <= i <= to <= s.len(),
            r@ == s@.subrange(from as int, i as int),
        decreases to - i,
    {
        r.push(s[i]);
        i += 1;
        assert(r@ =~= s@.subrange(from as int, i as int));
    }
    r
}

/// Appends the characters of `t` to `out`.
pub fn push_all(out: &mut Vec<char>, t: &Vec<char>)
    ensures
        final(out)@ == old(out)@ + t@,
{
    let mut i: usize = 0;
    while i < t.len()
        invariant
            i <= t.len(),
            out@ == old(out)@ + t@.take(i as int),
        decreases t.len() - i,
    {
        out.push(t[i]);
        i += 1;
        assert(out@ =~= old(out)@ + t@.take(i as int));
    }
    assert(t@.take(t.len() as int) =~= t@);
}

/// Appends the characters of `t` to `out`.
pub fn push_str(out: &mut Vec<char>, t: &str)
    ensures
        final(out)@ == old(out)@ + t@,
{
    let v = chars_of(t);
    push_all(out, &v);
}

/// Whether `a` and `b` hold the same characters.
pub fn same_chars(a: &Vec<char>, b: &Vec<char>) -> (r: bool)
    ensures
        r == (a@ == b@),
{
    if a.len() != b.len() {
        return false;
    }
    let mut i: usize = 0;
    while i < a.len()
        invariant
            i <= a.len() == b.len(),
            forall|k: int| 0 <= k < i ==> a@[k] == b@[k],
        decreases a.len() - i,
    {
        if a[i] != b[i] {
            return false;
        }
        i += 1;
    }
    assert(a@ =~= b@);
    true
}

// ---------------------------------------------------------------------------
// Prefixes, suffixes and substrings.
// ---------------------------------------------------------------------------

/// Whether `p` occurs in `s` starting at index `i`.
pub open spec fn matches_at(s: Seq<char>, p: Seq<char>, i: int) -> bool {
    0 <= i && i + p.len() <= s.len() && s.subrange(i, i + p.len()) == p
}

/// `str::starts_with`.
pub open spec fn starts_with(s: Seq<char>, p: Seq<char>) -> bool {
    matches_at(s, p, 0)
}

/// `str::ends_with`.
pub open spec fn ends_with(s: Seq<char>, p: Seq<char>) -> bool {
    matches_at(s, p, s.len() - p.len())
}

/// Whether `p` occurs in `s` at index `i` (executable).
pub fn match_at(s: &Vec<char>, p: &Vec<char>, i: usize) -> (r: bool)
    ensures
        r == matches_at(s@, p@, i as int),
{
    if p.len() > s.len() || i > s.len() - p.len() {
        return false;
    }
    let mut k: usize = 0;
    while k < p.len()
        invariant
            k <= p.len(),
            i + p.len() <= s.len(),
            forall|j: int| 0 <= j < k ==> s@[i + j] == p@[j],
        decreases p.len() - k,
    {
        if s[i + k] != p[k] {
            assert(s@.subrange(i as int, i + p.len())[k as int] != p@[k as int]);
            return false;
        }
        k += 1;
    }
    assert(s@.subrange(i as int, i + p.len()) =~= p@);
    true
}

/// `str::starts_with` (executable).
pub fn has_prefix(s: &Vec<char>, p: &Vec<char>) -> (r: bool)
    ensures
        r == starts_with(s@, p@),
{
    match_at(s, p, 0)
}

/// `str::ends_with` (executable).
pub fn has_suffix(s: &Vec<char>, p: &Vec<char>) -> (r: bool)
    ensures
        r == ends_with(s@, p@),
{
    if p.len() > s.len() {
        false
    } else {
        match_at(s, p, s.len() - p.len())
    }
}

/// The first index at or after `i` at which `p` occurs in `s`.
pub open spec fn find_from(s: Seq<char>, p: Seq<char>, i: int) -> Option<int>
    decreases s.len() + 1 - i,
{
    if i < 0 || i + p.len() > s.len() {
        None
    } else if s.subrange(i, i + p.len()) == p {
        Some(i)
    } else {
        find_from(s, p, i + 1)
    }
}

/// `str::find` with a string pattern: the first index at which `p` occurs.
pub open spec fn find(s: Seq<char>, p: Seq<char>) -> Option<int> {
    find_from(s, p, 0)
}

/// `str::contains` with a string pattern.
pub open spec fn contains(s: Seq<char>, p: Seq<char>) -> bool {
    find(s, p) is Some
}

/// The first index at which `p` occurs in `s` (executable).
pub fn find_first(s: &Vec<char>, p: &Vec<char>) -> (r: Option<usize>)
    ensures
        r matches Some(i) ==> find(s@, p@) == Some(i as int),
        r is None ==> find(s@, p@) is None,
{
    if p.len() > s.len() {
        return None;
    }
    let mut i: usize = 0;
    loop
        invariant
            p.len() <= s.len(),
            i <= s.len() - p.len(),
            find(s@, p@) == find_from(s@, p@, i as int),
        decreases s.len() - p.len() - i,
    {
        if match_at(s, p, i) {
            return Some(i);
        }
        if i == s.len() - p.len() {
            assert(find_from(s@, p@, i + 1) is None);
            return None;
        }
        i += 1;
    }
}

/// `str::contains` with a string pattern (executable).
pub fn has_substring(s: &Vec<char>, p: &Vec<char>) -> (r: bool)
    ensures
        r == contains(s@, p@),
{
    find_first(s, p).is_some()
}

/// Index of the first `c` at or after `i`.
pub open spec fn find_char_from(s: Seq<char>, c: char, i: int) -> Option<int>
    decreases s.len() - i,
{
    if i < 0 || i >= s.len() {
        None
    } else if s[i] == c {
        Some(i)
    } else {
        find_char_from(s, c, i + 1)
    }
}

/// `str::find` with a character pattern.
pub open spec fn find_char(s: Seq<char>, c: char) -> Option<int> {
    find_char_from(s, c, 0)
}

/// Index of the last `c` before index `j`.
pub open spec fn rfind_char_before(s: Seq<char>, c: char, j: int) -> Option<int>
    decreases j,
{
    if j <= 0 || j > s.len() {
        None
    } else if s[j - 1] == c {
        Some(j - 1)
    } else {
        rfind_char_before(s, c, j - 1)
    }
}

/// `str::rfind` with a character pattern.
pub open spec fn rfind_char(s: Seq<char>, c: char) -> Option<int> {
    rfind_char_before(s, c, s.len() as int)
}

/// The first index of `c` in `s` (executable).
pub fn first_char(s: &Vec<char>, c: char) -> (r: Option<usize>)
    ensures
        r matches Some(i) ==> find_char(s@, c) == Some(i as int),
        r is None ==> find_char(s@, c) is None,
{
    let mut i: usize = 0;
    while i < s.len()
        invariant
            i <= s.len(),
            find_char(s@, c) == find_char_from(s@, c, i as int),
        decreases s.len() - i,
    {
        if s[i] == c {
            return Some(i);
        }
        i += 1;
    }
    None
}

/// The last index of `c` in `s` (executable).
pub fn last_char(s: &Vec<char>, c: char) -> (r: Option<usize>)
    ensures
        r matches Some(i) ==> rfind_char(s@, c) == Some(i as int),
        r is None ==> rfind_char(s@, c) is None,
{
    let mut j: usize = s.len();
    while j > 0
        invariant
            j <= s.len(),
            rfind_char(s@, c) == rfind_char_before(s@, c, j as int),
        decreases j,
    {
        if s[j - 1] == c {
            return Some(j - 1);
        }
        j -= 1;
    }
    None
}

/// Lemma: a found index lies inside the string and holds the character.
pub proof fn lemma_find_char_from(s: Seq<char>, c: char, i: int)
    ensures
        find_char_from(s, c, i) matches Some(k) ==> i <= k < s.len() && s[k] == c,
    decreases s.len() - i,
{
    if 0 <= i < s.len() && s[i] != c {
        lemma_find_char_from(s, c, i + 1);
    }
}

/// Lemma: a found index lies inside the string and holds the character.
pub proof fn lemma_rfind_char_before(s: Seq<char>, c: char, j: int)
    ensures
        rfind_char_before(s, c, j) matches Some(k) ==> 0 <= k < j && k < s.len() && s[k] == c,
    decreases j,
{
    if 0 < j <= s.len() && s[j - 1] != c {
        lemma_rfind_char_before(s, c, j - 1);
    }
}

/// Lemma: a found occurrence is an occurrence.
pub proof fn lemma_find_from(s: Seq<char>, p: Seq<char>, i: int)
    ensures
        find_from(s, p, i) matches Some(k) ==> i <= k && matches_at(s, p, k),
    decreases s.len() + 1 - i,
{
    if 0 <= i && i + p.len() <= s.len() && s.subrange(i, i + p.len()) != p {
        lemma_find_from(s, p, i + 1);
    }
}

/// Lemma: the search for a one-character pattern from `j` stops at the
/// first index holding that character.
proof fn lemma_find_one_char(s: Seq<char>, c: char, j: int, b: int)
    requires
        0 <= j <= b < s.len(),
        s[b] == c,
        forall|m: int| j <= m < b ==> s[m] != c,
    ensures
        find_from(s, seq![c], j) == Some(b),
    decreases b - j,
{
    if j < b {
        assert(s.subrange(j, j + 1)[0] == s[j]);
        assert(s.subrange(j, j + 1) != seq![c]);
        lemma_find_one_char(s, c, j + 1, b);
    } else {
        assert(s.subrange(b, b + 1) =~= seq![c]);
    }
}

/// Lemma: text made of a key without `c`, then `c`, then a value splits at
/// that `c` into the key and the value.
pub proof fn lemma_split_once_key_value(k: Seq<char>, c: char, v: Seq<char>)
    requires
        forall|m: int| 0 <= m < k.len() ==> k[m] != c,
    ensures
        split_once(k + seq![c] + v, seq![c]) == Some((k, v)),
{
    let s = k + seq![c] + v;
    assert forall|m: int| 0 <= m < k.len() implies s[m] != c by {
        assert(s[m] == k[m]);
    }
    lemma_find_one_char(s, c, 0, k.len() as int);
    assert(s.take(k.len() as int) =~= k);
    assert(s.skip(k.len() + 1int) =~= v);
}

/// Lemma: when `split_once` on a one-character pattern gives the key `k`,
/// the text starts with `k` followed by that character.
pub proof fn lemma_split_once_starts_with(s: Seq<char>, c: char)
    ensures
        split_once(s, seq![c]) matches Some((k, v)) ==> starts_with(s, k + seq![c]),
{
    lemma_find_from(s, seq![c], 0);
    if let Some(i) = find(s, seq![c]) {
        assert(matches_at(s, seq![c], i));
        assert(s.subrange(0, i + 1) =~= s.take(i) + seq![c]) by {
            assert(s.subrange(i, i + 1) == seq![c]);
            assert forall|m: int| 0 <= m < i + 1 implies s.subrange(0, i + 1)[m] == (s.take(i)
                + seq![c])[m] by {
                if m == i {
                    assert(s.subrange(i, i + 1)[0] == s[i]);
                }
            }
        }
    }
}

/// `str::split_once` with a string pattern.
pub open spec fn split_once(s: Seq<char>, p: Seq<char>) -> Option<(Seq<char>, Seq<char>)> {
    match find(s, p) {
        Some(i) => Some((s.take(i), s.skip(i + p.len()))),
        None => None,
    }
}

/// `str::split_once` with a string pattern (executable).
pub fn split_at_first(s: &Vec<char>, p: &Vec<char>) -> (r: Option<(Vec<char>, Vec<char>)>)
    ensures
        r matches Some((a, b)) ==> split_once(s@, p@) == Some((a@, b@)),
        r is None ==> split_once(s@, p@) is None,
{
    match find_first(s, p) {
        Some(i) => {
            proof {
                lemma_find_from(s@, p@, 0);
                assert(matches_at(s@, p@, i as int));
            }
            assert(i + p.len() <= s.len());
            let a = slice(s, 0, i);
            let b = slice(s, i + p.len(), s.len());
            assert(a@ =~= s@.take(i as int));
            assert(b@ =~= s@.skip(i + p.len()));
            Some((a, b))
        },
        None => None,
    }
}

// ---------------------------------------------------------------------------
// Splitting and path components.
// ---------------------------------------------------------------------------

/// `str::split` with a character, where the current piece began at `start`
/// and the scan has reached `i`: every piece, empty ones included.
pub open spec fn split_scan(s: Seq<char>, c: char, start: int, i: int) -> Seq<Seq<char>>
    decreases s.len() - i,
{
    if i < 0 || i >= s.len() {
        seq![s.subrange(start, s.len() as int)]
    } else if s[i] == c {
        seq![s.subrange(start, i)] + split_scan(s, c, i + 1, i + 1)
    } else {
        split_scan(s, c, start, i + 1)
    }
}

/// `str::split` with a character.
pub open spec fn pieces(s: Seq<char>, c: char) -> Seq<Seq<char>> {
    split_scan(s, c, 0, 0)
}

/// `str::split` with a character (executable).
pub fn split_on(s: &Vec<char>, c: char) -> (r: Vec<Vec<char>>)
    ensures
        views(r@) == pieces(s@, c),
{
    let mut r: Vec<Vec<char>> = Vec::new();
    let mut start: usize = 0;
    let mut i: usize = 0;
    while i < s.len()
        invariant
            start <= i <= s.len(),
            views(r@) + split_scan(s@, c, start as int, i as int) == pieces(s@, c),
        decreases s.len() - i,
    {
        if s[i] == c {
            let piece = slice(s, start, i);
            let ghost before = views(r@);
            proof {
                lemma_views_push(r@, piece);
            }
            r.push(piece);
            assert(before + split_scan(s@, c, start as int, i as int) =~= views(r@) + split_scan(
                s@,
                c,
                i + 1,
                i + 1,
            ));
            i += 1;
            start = i;
        } else {
            i += 1;
        }
    }
    let piece = slice(s, start, s.len());
    let ghost before = views(r@);
    proof {
        lemma_views_push(r@, piece);
    }
    r.push(piece);
    assert(views(r@) =~= before + split_scan(s@, c, start as int, i as int));
    r
}

/// The normal components among the pieces of a path between `/`
/// separators: empty pieces (from repeated, leading or trailing separators)
/// and `.` are left out; `..` stays.
pub open spec fn normal_parts(ps: Seq<Seq<char>>) -> Seq<Seq<char>>
    decreases ps.len(),
{
    if ps.len() == 0 {
        Seq::empty()
    } else {
        let init = normal_parts(ps.drop_last());
        let x = ps.last();
        if x.len() == 0 || x == "."@ {
            init
        } else {
            init.push(x)
        }
    }
}

/// The components of a Unix path, as `Path::components` yields them: the
/// root (`/`) when the path starts with `/`; the current directory (`.`)
/// when it starts with `.` followed by `/` or nothing; then the normal
/// components (see `normal_parts`).
pub open spec fn path_components(path: Seq<char>) -> Seq<Seq<char>> {
    let root = if path.len() > 0 && path[0] == '/' {
        seq!["/"@]
    } else {
        Seq::empty()
    };
    let current = if path.len() > 0 && path[0] == '.' && (path.len() == 1 || path[1] == '/') {
        seq!["."@]
    } else {
        Seq::empty()
    };
    root + current + normal_parts(pieces(path, '/'))
}

/// The file name of a Unix path (`Path::file_name`): its last component
/// when that is a normal one other than `..`; none for a path that is
/// empty, only a root or `.`, or ends in `..`.
pub open spec fn path_file_name(path: Seq<char>) -> Option<Seq<char>> {
    let parts = normal_parts(pieces(path, '/'));
    if parts.len() > 0 && parts.last() != ".."@ {
        Some(parts.last())
    } else {
        None
    }
}

/// Whether two Unix paths are equal component by component (`Path == Path`).
pub open spec fn same_path(a: Seq<char>, b: Seq<char>) -> bool {
    path_components(a) == path_components(b)
}

/// Whether a piece of a path is a normal component.
fn is_normal_part(x: &Vec<char>) -> (r: bool)
    ensures
        r == !(x@.len() == 0 || x@ == "."@),
{
    proof {
        reveal_strlit(".");
    }
    let r = !(x.len() == 0 || (x.len() == 1 && x[0] == '.'));
    proof {
        if x@.len() == 1 && x@[0] == '.' {
            assert(x@ =~= "."@);
        }
    }
    r
}

/// The normal components of the pieces of a path (see `normal_parts`).
fn normal_parts_of(ps: &Vec<Vec<char>>) -> (r: Vec<Vec<char>>)
    ensures
        views(r@) == normal_parts(views(ps@)),
{
    let ghost all = views(ps@);
    let mut r: Vec<Vec<char>> = Vec::new();
    let mut i: usize = 0;
    while i < ps.len()
        invariant
            i <= ps.len(),
            all == views(ps@),
            views(r@) == normal_parts(all.take(i as int)),
        decreases ps.len() - i,
    {
        assert(all.take(i + 1).drop_last() =~= all.take(i as int));
        assert(all.take(i + 1).last() == ps@[i as int]@);
        if is_normal_part(&ps[i]) {
            let x = ps[i].clone();
            proof {
                lemma_views_push(r@, x);
            }
            r.push(x);
        }
        i += 1;
    }
    assert(all.take(i as int) =~= all);
    r
}

/// `Path::file_name` followed by `OsStr::to_str`, on the Unix path that
/// `path` spells (see `path_file_name`; the name of a path given as text is
/// always text).
pub(crate) fn file_name(path: &Vec<char>) -> (r: Option<Vec<char>>)
    ensures
        r matches Some(n) ==> path_file_name(path@) == Some(n@),
        r is None ==> path_file_name(path@) is None,
{
    proof {
        reveal_strlit("..");
    }
    let parts = normal_parts_of(&split_on(path, '/'));
    if parts.len() == 0 {
        return None;
    }
    let last = parts[parts.len() - 1].clone();
    assert(views(parts@).last() == last@);
    let up = last.len() == 2 && last[0] == '.' && last[1] == '.';
    proof {
        if last@.len() == 2 && last@[0] == '.' && last@[1] == '.' {
            assert(last@ =~= ".."@);
        }
    }
    if up {
        None
    } else {
        Some(last)
    }
}

/// The components of a Unix path (see `path_components`).
fn components_of(path: &Vec<char>) -> (r: Vec<Vec<char>>)
    ensures
        views(r@) == path_components(path@),
{
    proof {
        reveal_strlit("/");
        reveal_strlit(".");
    }
    let mut r: Vec<Vec<char>> = Vec::new();
    if path.len() > 0 && path[0] == '/' {
        r.push(chars_of("/"));
    }
    if path.len() > 0 && path[0] == '.' && (path.len() == 1 || path[1] == '/') {
        let c = chars_of(".");
        proof {
            lemma_views_push(r@, c);
        }
        r.push(c);
    }
    let ghost head = views(r@);
    let rest = normal_parts_of(&split_on(path, '/'));
    let mut k: usize = 0;
    while k < rest.len()
        invariant
            k <= rest.len(),
            views(r@) == head + views(rest@).take(k as int),
        decreases rest.len() - k,
    {
        let x = rest[k].clone();
        proof {
            lemma_views_push(r@, x);
        }
        r.push(x);
        assert(views(rest@).take(k + 1) =~= views(rest@).take(k as int).push(rest@[k as int]@));
        k += 1;
    }
    assert(views(rest@).take(k as int) =~= views(rest@));
    assert(views(r@) =~= path_components(path@));
    r
}

/// `Path == Path` on the two Unix paths that `a` and `b` spell: equal
/// component by component (see `same_path`).
pub(crate) fn paths_equal(a: &Vec<char>, b: &Vec<char>) -> (r: bool)
    ensures
        r == same_path(a@, b@),
{
    let ca = components_of(a);
    let cb = components_of(b);
    if ca.len() != cb.len() {
        assert(views(ca@).len() != views(cb@).len());
        return false;
    }
    let mut i: usize = 0;
    while i < ca.len()
        invariant
            i <= ca.len() == cb.len(),
            views(ca@) == path_components(a@),
            views(cb@) == path_components(b@),
            forall|k: int| 0 <= k < i ==> ca@[k]@ == cb@[k]@,
        decreases ca.len() - i,
    {
        if !same_chars(&ca[i], &cb[i]) {
            assert(views(ca@)[i as int] == ca@[i as int]@);
            assert(views(cb@)[i as int] == cb@[i as int]@);
            assert(views(ca@) != views(cb@));
            return false;
        }
        i += 1;
    }
    assert(views(ca@) =~= views(cb@)) by {
        assert forall|k: int| 0 <= k < views(ca@).len() implies views(ca@)[k] == views(cb@)[k] by {
            assert(ca@[k]@ == cb@[k]@);
        }
    }
    true
}

// ---------------------------------------------------------------------------
// Trimming.
// ---------------------------------------------------------------------------

/// `s` without the white space before index `i` and from `i` on.
pub open spec fn trim_start_from(s: Seq<char>, i: int) -> Seq<char>
    decreases s.len() - i,
{
    if 0 <= i < s.len() && is_space(s[i]) {
        trim_start_from(s, i + 1)
    } else {
        s.skip(i)
    }
}

/// The first `j` characters of `s`, without trailing white space.
pub open spec fn trim_end_to(s: Seq<char>, j: int) -> Seq<char>
    decreases j,
{
    if 0 < j <= s.len() && is_space(s[j - 1]) {
        trim_end_to(s, j - 1)
    } else {
        s.take(j)
    }
}

/// `str::trim_start`.
pub open spec fn trim_start(s: Seq<char>) -> Seq<char> {
    trim_start_from(s, 0)
}

/// `str::trim_end`.
pub open spec fn trim_end(s: Seq<char>) -> Seq<char> {
    trim_end_to(s, s.len() as int)
}

/// `str::trim`: leading and trailing white space removed.
pub open spec fn trim(s: Seq<char>) -> Seq<char> {
    trim_end(trim_start(s))
}

/// `str::trim_start` (executable).
pub fn trimmed_start(s: &Vec<char>) -> (r: Vec<char>)
    ensures
        r@ == trim_start(s@),
{
    let mut i: usize = 0;
    while i < s.len() && is_whitespace(s[i])
        invariant
            i <= s.len(),
            trim_start(s@) == trim_start_from(s@, i as int),
        decreases s.len() - i,
    {
        i += 1;
    }
    let r = slice(s, i, s.len());
    assert(r@ =~= s@.skip(i as int));
    r
}

/// `str::trim_end` (executable).
pub fn trimmed_end(s: &Vec<char>) -> (r: Vec<char>)
    ensures
        r@ == trim_end(s@),
{
    let mut j: usize = s.len();
    while j > 0 && is_whitespace(s[j - 1])
        invariant
            j <= s.len(),
            trim_end(s@) == trim_end_to(s@, j as int),
        decreases j,
    {
        j -= 1;
    }
    let r = slice(s, 0, j);
    assert(r@ =~= s@.take(j as int));
    r
}

/// `str::trim` (executable).
pub fn trimmed(s: &Vec<char>) -> (r: Vec<char>)
    ensures
        r@ == trim(s@),
{
    let t = trimmed_start(s);
    trimmed_end(&t)
}

/// `str::trim_start_matches` with a string pattern, from index `i` on.
pub open spec fn trim_start_matches_from(s: Seq<char>, p: Seq<char>, i: int) -> Seq<char>
    decreases s.len() - i,
{
    if p.len() > 0 && matches_at(s, p, i) {
        trim_start_matches_from(s, p, i + p.len())
    } else {
        s.skip(i)
    }
}

/// `str::trim_start_matches`: every leading copy of `p` removed.
pub open spec fn trim_start_matches(s: Seq<char>, p: Seq<char>) -> Seq<char> {
    trim_start_matches_from(s, p, 0)
}

/// `str::trim_end_matches` with a string pattern, on the first `j` characters.
pub open spec fn trim_end_matches_to(s: Seq<char>, p: Seq<char>, j: int) -> Seq<char>
    decreases j,
{
    if p.len() > 0 && j <= s.len() && matches_at(s, p, j - p.len()) {
        trim_end_matches_to(s, p, j - p.len())
    } else {
        s.take(j)
    }
}

/// `str::trim_end_matches`: every trailing copy of `p` removed.
pub open spec fn trim_end_matches(s: Seq<char>, p: Seq<char>) -> Seq<char> {
    trim_end_matches_to(s, p, s.len() as int)
}

/// `str::trim_start_matches` (executable).
pub fn strip_leading(s: &Vec<char>, p: &Vec<char>) -> (r: Vec<char>)
    ensures
        r@ == trim_start_matches(s@, p@),
{
    let mut i: usize = 0;
    while p.len() > 0 && i <= s.len() && match_at(s, p, i)
        invariant
            i <= s.len(),
            trim_start_matches(s@, p@) == trim_start_matches_from(s@, p@, i as int),
        decreases s.len() - i,
    {
        i += p.len();
    }
    let r = slice(s, i, s.len());
    assert(r@ =~= s@.skip(i as int));
    r
}

/// `str::trim_end_matches` (executable).
pub fn strip_trailing(s: &Vec<char>, p: &Vec<char>) -> (r: Vec<char>)
    ensures
        r@ == trim_end_matches(s@, p@),
{
    let mut j: usize = s.len();
    while p.len() > 0 && p.len() <= j && match_at(s, p, j - p.len())
        invariant
            j <= s.len(),
            trim_end_matches(s@, p@) == trim_end_matches_to(s@, p@, j as int),
        decreases j,
    {
        j -= p.len();
    }
    let r = slice(s, 0, j);
    assert(r@ =~= s@.take(j as int));
    r
}

/// Lemma: trimming the start from `i` skips to the first non-space at or after `i`.
pub proof fn lemma_trim_start_from_shape(s: Seq<char>, i: int)
    requires
        0 <= i <= s.len(),
    ensures
        exists|j: int|
            i <= j <= s.len() && trim_start_from(s, i) == s.skip(j) && (j < s.len() ==> !is_space(
                s[j],
            )),
    decreases s.len() - i,
{
    if i < s.len() && is_space(s[i]) {
        lemma_trim_start_from_shape(s, i + 1);
        let j = choose|j: int|
            i + 1 <= j <= s.len() && trim_start_from(s, i + 1) == s.skip(j) && (j < s.len()
                ==> !is_space(s[j]));
        assert(i <= j);
    } else {
        assert(trim_start_from(s, i) == s.skip(i));
    }
}

/// Lemma: trimming the end keeps a prefix that ends in a non-space (or is empty).
pub proof fn lemma_trim_end_to_shape(s: Seq<char>, j: int)
    requires
        0 <= j <= s.len(),
    ensures
        exists|k: int| 0 <= k <= j && trim_end_to(s, j) == s.take(k) && (k > 0 ==> !is_space(s[k - 1])),
    decreases j,
{
    if j > 0 && is_space(s[j - 1]) {
        lemma_trim_end_to_shape(s, j - 1);
    } else {
        assert(trim_end_to(s, j) == s.take(j));
    }
}

/// Lemma: trimmed text is empty or starts and ends with a non-space.
pub proof fn lemma_trim_shape(s: Seq<char>)
    ensures
        trim(s).len() > 0 ==> !is_space(trim(s)[0]) && !is_space(trim(s).last()),
{
    lemma_trim_start_from_shape(s, 0);
    let j = choose|j: int|
        0 <= j <= s.len() && trim_start_from(s, 0) == s.skip(j) && (j < s.len() ==> !is_space(
            s[j],
        ));
    let u = s.skip(j);
    lemma_trim_end_to_shape(u, u.len() as int);
    let k = choose|k: int|
        0 <= k <= u.len() && trim_end_to(u, u.len() as int) == u.take(k) && (k > 0 ==> !is_space(
            u[k - 1],
        ));
    if k > 0 {
        assert(trim(s) == u.take(k));
        assert(trim(s)[0] == s[j]);
        assert(trim(s).last() == u[k - 1]);
    }
}

/// Lemma: trimming twice is trimming once.
pub proof fn lemma_trim_idempotent(s: Seq<char>)
    ensures
        trim(trim(s)) == trim(s),
{
    let t = trim(s);
    lemma_trim_shape(s);
    if t.len() > 0 {
        assert(trim_start_from(t, 0) == t.skip(0));
        assert(t.skip(0) =~= t);
        assert(trim_end_to(t, t.len() as int) == t.take(t.len() as int));
        assert(t.take(t.len() as int) =~= t);
    } else {
        assert(t.skip(0) =~= t);
        assert(t.take(0) =~= t);
    }
}

/// Lemma: text that starts and ends with a non-space is its own trim.
pub proof fn lemma_trim_of_unpadded(s: Seq<char>)
    requires
        s.len() > 0,
        !is_space(s[0]),
        !is_space(s.last()),
    ensures
        trim(s) == s,
{
    assert(trim_start_from(s, 0) == s.skip(0));
    assert(s.skip(0) =~= s);
    assert(trim_end_to(s, s.len() as int) == s.take(s.len() as int));
    assert(s.take(s.len() as int) =~= s);
}

/// Lemma: trimming the end of the first `j` characters keeps every
/// character up to a non-space one at `m`.
proof fn lemma_trim_end_to_keeps(s: Seq<char>, j: int, m: int)
    requires
        0 <= m < j <= s.len(),
        !is_space(s[m]),
    ensures
        m < trim_end_to(s, j).len() <= j,
        trim_end_to(s, j) == s.take(trim_end_to(s, j).len() as int),
    decreases j,
{
    if is_space(s[j - 1]) {
        lemma_trim_end_to_keeps(s, j - 1, m);
    }
}

/// Lemma: text that starts with a non-space keeps that first character when
/// trimmed.
pub proof fn lemma_trim_keeps_first(s: Seq<char>)
    requires
        s.len() > 0,
        !is_space(s[0]),
    ensures
        trim(s).len() > 0,
        trim(s)[0] == s[0],
{
    assert(trim_start_from(s, 0) == s.skip(0));
    assert(s.skip(0) =~= s);
    lemma_trim_end_to_keeps(s, s.len() as int, 0);
    let t = trim_end_to(s, s.len() as int);
    assert(trim(s) == t);
    assert(t[0] == s.take(t.len() as int)[0]);
}

/// Lemma: trimming the end of the first `j` characters only looks at those
/// characters.
proof fn lemma_trim_end_to_prefix(s: Seq<char>, m: int, j: int)
    requires
        0 <= j <= m <= s.len(),
    ensures
        trim_end_to(s.take(m), j) == trim_end_to(s, j),
    decreases j,
{
    let t = s.take(m);
    if 0 < j && is_space(s[j - 1]) {
        assert(t[j - 1] == s[j - 1]);
        lemma_trim_end_to_prefix(s, m, j - 1);
    } else {
        assert(t.take(j) =~= s.take(j));
    }
}

/// Lemma: with a space at the end of `s`, trimming from `i` on the text
/// without that space gives what trimming `s` from `i` on gives, minus the
/// final space, or nothing when that is nothing.
proof fn lemma_trim_start_from_without_last(s: Seq<char>, i: int)
    requires
        s.len() > 0,
        is_space(s.last()),
        0 <= i < s.len(),
    ensures
        trim_start_from(s, i).len() == 0 ==> trim_start_from(s.drop_last(), i).len() == 0,
        trim_start_from(s, i).len() > 0 ==> trim_start_from(s.drop_last(), i) == trim_start_from(
            s,
            i,
        ).drop_last() && trim_start_from(s, i).last() == s.last(),
    decreases s.len() - i,
{
    let d = s.drop_last();
    if i == s.len() - 1 {
        assert(trim_start_from(s, i + 1) == s.skip(s.len() as int));
        assert(trim_start_from(d, i) == d.skip(i));
    } else {
        assert(d[i] == s[i]);
        if is_space(s[i]) {
            lemma_trim_start_from_without_last(s, i + 1);
        } else {
            assert(d.skip(i) =~= s.skip(i).drop_last());
        }
    }
}

/// Lemma: a final white-space character makes no difference to the trim.
pub proof fn lemma_trim_without_final_space(s: Seq<char>)
    requires
        s.len() > 0,
        is_space(s.last()),
    ensures
        trim(s.drop_last()) == trim(s),
{
    lemma_trim_start_from_without_last(s, 0);
    let u = trim_start(s);
    if u.len() == 0 {
        assert(trim_end(u) == u.take(0));
        assert(trim_end(trim_start(s.drop_last())) == trim_start(s.drop_last()).take(0));
        assert(u.take(0) =~= trim_start(s.drop_last()).take(0));
    } else {
        assert(u.drop_last() =~= u.take(u.len() - 1));
        lemma_trim_end_to_prefix(u, u.len() - 1, u.len() - 1);
        assert(trim_end_to(u, u.len() as int) == trim_end_to(u, u.len() - 1));
    }
}

/// Lemma: dropping a carriage return that ends a line makes no difference
/// to its trim.
pub proof fn lemma_trim_of_strip_cr(line: Seq<char>)
    ensures
        trim(strip_cr(line)) == trim(line),
{
    if line.len() > 0 && line.last() == '\r' {
        lemma_trim_without_final_space(line);
    }
}

// ---------------------------------------------------------------------------
// Replacement.
// ---------------------------------------------------------------------------

/// `str::replace` with a non-empty string pattern, from index `i` on:
/// occurrences are taken left to right and do not overlap.
pub open spec fn replace_from(s: Seq<char>, from: Seq<char>, to: Seq<char>, i: int) -> Seq<char>
    decreases s.len() - i,
{
    if i < 0 || i >= s.len() {
        Seq::empty()
    } else if from.len() > 0 && matches_at(s, from, i) {
        to + replace_from(s, from, to, i + from.len())
    } else {
        seq![s[i]] + replace_from(s, from, to, i + 1)
    }
}

/// `str::replace` with a non-empty string pattern.
pub open spec fn replace(s: Seq<char>, from: Seq<char>, to: Seq<char>) -> Seq<char> {
    replace_from(s, from, to, 0)
}

/// `str::replace` (executable).
pub fn replaced(s: &Vec<char>, from: &Vec<char>, to: &Vec<char>) -> (r: Vec<char>)
    ensures
        r@ == replace(s@, from@, to@),
{
    let mut out: Vec<char> = Vec::new();
    let mut i: usize = 0;
    while i < s.len()
        invariant
            i <= s.len(),
            out@ + replace_from(s@, from@, to@, i as int) == replace(s@, from@, to@),
        decreases s.len() - i,
    {
        let ghost before = out@;
        if from.len() > 0 && match_at(s, from, i) {
            push_all(&mut out, to);
            assert(before + replace_from(s@, from@, to@, i as int) =~= out@ + replace_from(
                s@,
                from@,
                to@,
                i + from.len(),
            ));
            i += from.len();
        } else {
            out.push(s[i]);
            assert(before + replace_from(s@, from@, to@, i as int) =~= out@ + replace_from(
                s@,
                from@,
                to@,
                i + 1,
            ));
            i += 1;
        }
    }
    assert(out@ =~= out@ + replace_from(s@, from@, to@, i as int));
    out
}

// ---------------------------------------------------------------------------
// ASCII case.
// ---------------------------------------------------------------------------

/// `char::to_ascii_lowercase`.
pub open spec fn ascii_lower(c: char) -> char {
    if 'A' <= c <= 'Z' {
        ((c as u32) + 32) as char
    } else {
        c
    }
}

/// `str::eq_ignore_ascii_case`.
pub open spec fn eq_ignore_ascii_case(a: Seq<char>, b: Seq<char>) -> bool {
    a.len() == b.len() && forall|i: int| 0 <= i < a.len() ==> ascii_lower(a[i]) == ascii_lower(b[i])
}

/// `char::to_ascii_lowercase` (executable).
pub fn to_ascii_lower(c: char) -> (r: char)
    ensures
        r == ascii_lower(c),
{
    if 'A' <= c && c <= 'Z' {
        let code: u32 = c as u32 + 32;
        assert(0x61 <= code <= 0x7a);
        char_from_ascii(code)
    } else {
        c
    }
}

/// The character with an ASCII code.
fn char_from_ascii(code: u32) -> (r: char)
    requires
        code < 128,
    ensures
        r == code as char,
{
    let b: u8 = code as u8;
    b as char
}

/// `str::eq_ignore_ascii_case` (executable).
pub fn equal_ignoring_ascii_case(a: &Vec<char>, b: &Vec<char>) -> (r: bool)
    ensures
        r == eq_ignore_ascii_case(a@, b@),
{
    if a.len() != b.len() {
        return false;
    }
    let mut i: usize = 0;
    while i < a.len()
        invariant
            i <= a.len() == b.len(),
            forall|k: int| 0 <= k < i ==> ascii_lower(a@[k]) == ascii_lower(b@[k]),
        decreases a.len() - i,
    {
        if to_ascii_lower(a[i]) != to_ascii_lower(b[i]) {
            return false;
        }
        i += 1;
    }
    true
}


// ---------------------------------------------------------------------------
// Lines and words.
// ---------------------------------------------------------------------------

/// The views of a vector of character vectors.
pub open spec fn views(v: Seq<Vec<char>>) -> Seq<Seq<char>> {
    v.map_values(|x: Vec<char>| x@)
}

/// A line as `str::lines` yields it: a carriage return that ended it,
/// right before its line feed, removed.
pub open spec fn strip_cr(line: Seq<char>) -> Seq<char> {
    if line.len() > 0 && line.last() == '\r' {
        line.drop_last()
    } else {
        line
    }
}

/// `str::lines` on `s`, where the current line began at `start` and the
/// scan has reached `i`.
pub open spec fn lines_scan(s: Seq<char>, start: int, i: int) -> Seq<Seq<char>>
    decreases s.len() - i,
{
    if i < 0 || i >= s.len() {
        if 0 <= start < s.len() {
            seq![s.subrange(start, s.len() as int)]
        } else {
            Seq::empty()
        }
    } else if s[i] == '\n' {
        seq![strip_cr(s.subrange(start, i))] + lines_scan(s, i + 1, i + 1)
    } else {
        lines_scan(s, start, i + 1)
    }
}

/// `str::lines`: the text split at `\n` (a `\r` right before it dropped), with
/// no empty line after a final line feed.
pub open spec fn lines(s: Seq<char>) -> Seq<Seq<char>> {
    lines_scan(s, 0, 0)
}

/// `str::lines` (executable).
pub fn lines_of(s: &Vec<char>) -> (r: Vec<Vec<char>>)
    ensures
        views(r@) == lines(s@),
{
    let mut r: Vec<Vec<char>> = Vec::new();
    let mut start: usize = 0;
    let mut i: usize = 0;
    while i < s.len()
        invariant
            start <= i <= s.len(),
            views(r@) + lines_scan(s@, start as int, i as int) == lines(s@),
        decreases s.len() - i,
    {
        if s[i] == '\n' {
            let mut line = slice(s, start, i);
            if line.len() > 0 && line[line.len() - 1] == '\r' {
                line.pop();
                assert(line@ =~= strip_cr(s@.subrange(start as int, i as int)));
            }
            let ghost before = views(r@);
            r.push(line);
            assert(views(r@) =~= before.push(line@));
            assert(before + lines_scan(s@, start as int, i as int) =~= views(r@) + lines_scan(
                s@,
                i + 1,
                i + 1,
            ));
            i += 1;
            start = i;
        } else {
            i += 1;
        }
    }
    if start < s.len() {
        let line = slice(s, start, s.len());
        let ghost before = views(r@);
        r.push(line);
        assert(views(r@) =~= before.push(line@));
        assert(views(r@) =~= before + lines_scan(s@, start as int, i as int));
    } else {
        assert(views(r@) =~= views(r@) + lines_scan(s@, start as int, i as int));
    }
    r
}

/// Text without a line feed.
pub open spec fn no_line_feed(t: Seq<char>) -> bool {
    forall|k: int| 0 <= k < t.len() ==> t[k] != '\n'
}

/// Lemma: `lines_scan` is unchanged by text put before the part it reads.
proof fn lemma_lines_scan_shift(p: Seq<char>, t: Seq<char>, a: int, b: int)
    requires
        0 <= a <= b <= t.len(),
    ensures
        lines_scan(p + t, p.len() + a, p.len() + b) == lines_scan(t, a, b),
    decreases t.len() - b,
{
    let s = p + t;
    if b == t.len() {
        if a < t.len() {
            assert(s.subrange(p.len() + a, s.len() as int) =~= t.subrange(a, t.len() as int));
        }
    } else {
        assert(s[p.len() + b] == t[b]);
        if t[b] == '\n' {
            lemma_lines_scan_shift(p, t, b + 1, b + 1);
            assert(s.subrange(p.len() + a, p.len() + b) =~= t.subrange(a, b));
        } else {
            lemma_lines_scan_shift(p, t, a, b + 1);
        }
    }
}

/// Lemma: `lines_scan` runs on to the next line feed.
proof fn lemma_lines_scan_to_line_feed(s: Seq<char>, start: int, i: int, j: int)
    requires
        0 <= start <= i <= j < s.len(),
        s[j] == '\n',
        forall|k: int| i <= k < j ==> s[k] != '\n',
    ensures
        lines_scan(s, start, i) == seq![strip_cr(s.subrange(start, j))] + lines_scan(s, j + 1, j + 1),
    decreases j - i,
{
    if i < j {
        lemma_lines_scan_to_line_feed(s, start, i + 1, j);
    }
}

/// Lemma: a line without a line feed, a line feed, then more text: the line
/// (without a carriage return that ended it) comes first.
pub proof fn lemma_lines_cons(a: Seq<char>, b: Seq<char>)
    requires
        no_line_feed(a),
    ensures
        lines(a + seq!['\n'] + b) == seq![strip_cr(a)] + lines(b),
{
    let p = a + seq!['\n'];
    let s = p + b;
    assert(s[a.len() as int] == '\n');
    assert forall|k: int| 0 <= k < a.len() implies s[k] != '\n' by {
        assert(s[k] == a[k]);
    }
    lemma_lines_scan_to_line_feed(s, 0, 0, a.len() as int);
    assert(s.subrange(0, a.len() as int) =~= a);
    lemma_lines_scan_shift(p, b, 0, 0);
}

/// Lemma: one line ended by a line feed is that line.
pub proof fn lemma_lines_one(a: Seq<char>)
    requires
        no_line_feed(a),
    ensures
        lines(a + seq!['\n']) == seq![strip_cr(a)],
{
    lemma_lines_cons(a, Seq::empty());
    assert(a + seq!['\n'] + Seq::<char>::empty() =~= a + seq!['\n']);
    assert(lines(Seq::<char>::empty()) =~= Seq::<Seq<char>>::empty());
    assert(seq![strip_cr(a)] + Seq::<Seq<char>>::empty() =~= seq![strip_cr(a)]);
}

/// The first line feed at or after `i` in text that ends with one.
proof fn first_line_feed(a: Seq<char>, i: int) -> (j: int)
    requires
        0 <= i < a.len(),
        a.last() == '\n',
        forall|k: int| 0 <= k < i ==> a[k] != '\n',
    ensures
        i <= j < a.len(),
        a[j] == '\n',
        forall|k: int| 0 <= k < j ==> a[k] != '\n',
    decreases a.len() - i,
{
    if a[i] == '\n' {
        i
    } else {
        first_line_feed(a, i + 1)
    }
}

/// Lemma: text that is empty or ends with a line feed, then more text: the
/// lines of the first, then the lines of the second.
pub proof fn lemma_lines_append(a: Seq<char>, b: Seq<char>)
    requires
        a.len() == 0 || a.last() == '\n',
    ensures
        lines(a + b) == lines(a) + lines(b),
    decreases a.len(),
{
    if a.len() == 0 {
        assert(a + b =~= b);
        assert(lines(a) =~= Seq::<Seq<char>>::empty());
        assert(lines(a) + lines(b) =~= lines(b));
    } else {
        let j = first_line_feed(a, 0);
        let a1 = a.take(j);
        let a2 = a.skip(j + 1);
        assert(a =~= a1 + seq!['\n'] + a2);
        assert(a + b =~= a1 + seq!['\n'] + (a2 + b));
        lemma_lines_cons(a1, a2);
        lemma_lines_cons(a1, a2 + b);
        if a2.len() > 0 {
            assert(a2.last() == a.last());
        }
        lemma_lines_append(a2, b);
        assert(seq![strip_cr(a1)] + (lines(a2) + lines(b)) =~= (seq![strip_cr(a1)] + lines(a2))
            + lines(b));
    }
}

/// Lemma: `lines_scan` yields lines without line feeds.
proof fn lemma_lines_scan_no_line_feed(s: Seq<char>, start: int, i: int)
    requires
        0 <= start <= i,
        forall|k: int| start <= k < i && k < s.len() ==> s[k] != '\n',
    ensures
        forall|j: int| 0 <= j < lines_scan(s, start, i).len() ==> no_line_feed(
            #[trigger] lines_scan(s, start, i)[j],
        ),
    decreases s.len() - i,
{
    if i < 0 || i >= s.len() {
        if 0 <= start < s.len() {
            let t = s.subrange(start, s.len() as int);
            assert forall|k: int| 0 <= k < t.len() implies t[k] != '\n' by {
                assert(t[k] == s[start + k]);
            }
            assert(no_line_feed(t));
            assert(lines_scan(s, start, i) == seq![t]);
            assert(lines_scan(s, start, i)[0] == t);
        } else {
            assert(lines_scan(s, start, i).len() == 0);
        }
    } else if s[i] == '\n' {
        lemma_lines_scan_no_line_feed(s, i + 1, i + 1);
        let t = strip_cr(s.subrange(start, i));
        assert forall|k: int| 0 <= k < t.len() implies t[k] != '\n' by {
            assert(t[k] == s[start + k]);
        }
        let rest = lines_scan(s, i + 1, i + 1);
        assert(no_line_feed(t));
        assert(lines_scan(s, start, i) == seq![t] + rest);
        assert forall|j: int| 0 <= j < lines_scan(s, start, i).len() implies no_line_feed(
            #[trigger] lines_scan(s, start, i)[j],
        ) by {
            if j > 0 {
                assert(lines_scan(s, start, i)[j] == rest[j - 1]);
                assert(no_line_feed(rest[j - 1]));
            } else {
                assert(lines_scan(s, start, i)[j] == t);
            }
        }
    } else {
        lemma_lines_scan_no_line_feed(s, start, i + 1);
        assert(lines_scan(s, start, i) == lines_scan(s, start, i + 1));
    }
}

/// Lemma: the lines of a text hold no line feed.
pub proof fn lemma_lines_have_no_line_feed(s: Seq<char>)
    ensures
        forall|j: int| 0 <= j < lines(s).len() ==> no_line_feed(#[trigger] lines(s)[j]),
{
    lemma_lines_scan_no_line_feed(s, 0, 0);
}

/// `str::split_whitespace` on `s`, where the current word began at `start`
/// (no word is open when `start == i`) and the scan has reached `i`.
pub open spec fn words_scan(s: Seq<char>, start: int, i: int) -> Seq<Seq<char>>
    decreases s.len() - i,
{
    if i < 0 || i >= s.len() {
        if 0 <= start < i {
            seq![s.subrange(start, i)]
        } else {
            Seq::empty()
        }
    } else if is_space(s[i]) {
        (if 0 <= start < i {
            seq![s.subrange(start, i)]
        } else {
            Seq::empty()
        }) + words_scan(s, i + 1, i + 1)
    } else {
        words_scan(s, start, i + 1)
    }
}

/// `str::split_whitespace`: the maximal runs of non-white-space characters.
pub open spec fn words(s: Seq<char>) -> Seq<Seq<char>> {
    words_scan(s, 0, 0)
}

/// `str::split_whitespace` (executable).
pub fn words_of(s: &Vec<char>) -> (r: Vec<Vec<char>>)
    ensures
        views(r@) == words(s@),
{
    let mut r: Vec<Vec<char>> = Vec::new();
    let mut start: usize = 0;
    let mut i: usize = 0;
    while i < s.len()
        invariant
            start <= i <= s.len(),
            views(r@) + words_scan(s@, start as int, i as int) == words(s@),
        decreases s.len() - i,
    {
        if is_whitespace(s[i]) {
            let ghost before = views(r@);
            if start < i {
                let word = slice(s, start, i);
                r.push(word);
                assert(views(r@) =~= before.push(word@));
            }
            assert(before + words_scan(s@, start as int, i as int) =~= views(r@) + words_scan(
                s@,
                i + 1,
                i + 1,
            ));
            i += 1;
            start = i;
        } else {
            i += 1;
        }
    }
    let ghost before = views(r@);
    if start < i {
        let word = slice(s, start, i);
        r.push(word);
        assert(views(r@) =~= before.push(word@));
    }
    assert(views(r@) =~= before + words_scan(s@, start as int, i as int));
    r
}

// ---------------------------------------------------------------------------
// Integers.
// ---------------------------------------------------------------------------

/// Whether `c` is one of `0`..=`9`.
pub open spec fn is_digit(c: char) -> bool {
    '0' <= c <= '9'
}

/// The value of a decimal digit.
pub open spec fn digit_value(c: char) -> int {
    (c as u32) - ('0' as u32)
}

/// Whether every character of `d` is a decimal digit.
pub open spec fn all_digits(d: Seq<char>) -> bool {
    forall|i: int| 0 <= i < d.len() ==> is_digit(#[trigger] d[i])
}

/// Lemma: appending a character keeps a digit string one exactly when it is a digit.
pub proof fn lemma_all_digits_push(d: Seq<char>, c: char)
    ensures
        all_digits(d.push(c)) == (all_digits(d) && is_digit(c)),
{
    if all_digits(d.push(c)) {
        assert(d.push(c)[d.len() as int] == c);
        assert forall|i: int| 0 <= i < d.len() implies is_digit(#[trigger] d[i]) by {
            assert(d.push(c)[i] == d[i]);
        }
    }
    if all_digits(d) && is_digit(c) {
        assert forall|i: int| 0 <= i < d.len() + 1 implies is_digit(#[trigger] d.push(c)[i]) by {
            if i < d.len() {
                assert(d.push(c)[i] == d[i]);
            }
        }
    }
}

/// The number that the digits `d` spell in base ten.
pub open spec fn digits_value(d: Seq<char>) -> int
    decreases d.len(),
{
    if d.len() == 0 {
        0
    } else {
        digits_value(d.drop_last()) * 10 + digit_value(d.last())
    }
}

/// What `str::parse` gives for an integer type: an optional `+` (or `-`
/// where `signed`), then one or more decimal digits, nothing else; the value
/// is the mathematical one, range checks left to the caller.
pub open spec fn integer_text_value(s: Seq<char>, signed: bool) -> Option<int> {
    let negative = signed && s.len() > 0 && s[0] == '-';
    let body = if s.len() > 0 && (s[0] == '+' || negative) {
        s.drop_first()
    } else {
        s
    };
    if body.len() == 0 || !all_digits(body) {
        None
    } else if negative {
        Some(-digits_value(body))
    } else {
        Some(digits_value(body))
    }
}

/// `<u64 as FromStr>::from_str`.
pub open spec fn parse_u64_spec(s: Seq<char>) -> Option<u64> {
    match integer_text_value(s, false) {
        Some(v) => if v <= u64::MAX {
            Some(v as u64)
        } else {
            None
        },
        None => None,
    }
}

/// `<u32 as FromStr>::from_str`.
pub open spec fn parse_u32_spec(s: Seq<char>) -> Option<u32> {
    match integer_text_value(s, false) {
        Some(v) => if v <= u32::MAX {
            Some(v as u32)
        } else {
            None
        },
        None => None,
    }
}

/// `<i32 as FromStr>::from_str`.
pub open spec fn parse_i32_spec(s: Seq<char>) -> Option<i32> {
    match integer_text_value(s, true) {
        Some(v) => if i32::MIN <= v <= i32::MAX {
            Some(v as i32)
        } else {
            None
        },
        None => None,
    }
}

/// Lemma: digit strings have non-negative values that do not shrink as digits are appended.
pub proof fn lemma_digits_value_grows(d: Seq<char>, k: int)
    requires
        all_digits(d),
        0 <= k <= d.len(),
    ensures
        0 <= digits_value(d.take(k)) <= digits_value(d),
    decreases d.len(),
{
    if d.len() > 0 {
        let e = d.drop_last();
        assert(all_digits(e)) by {
            assert forall|i: int| 0 <= i < e.len() implies is_digit(#[trigger] e[i]) by {
                assert(e[i] == d[i]);
            }
        }
        assert(is_digit(d[d.len() - 1]));
        if k == d.len() {
            assert(d.take(k) =~= d);
            lemma_digits_value_grows(e, e.len() as int);
            assert(e.take(e.len() as int) =~= e);
        } else {
            lemma_digits_value_grows(e, k);
            assert(e.take(k) =~= d.take(k));
            lemma_digits_value_grows(e, e.len() as int);
            assert(e.take(e.len() as int) =~= e);
        }
    }
}

/// The magnitude spelled by the digits `d`, or `None` when it is above `limit`
/// or `d` is empty or holds a non-digit.
fn digits_up_to(d: &Vec<char>, from: usize, limit: u64) -> (r: Option<u64>)
    requires
        from <= d.len(),
        limit >= 9,
    ensures
        ({
            let body = d@.skip(from as int);
            match r {
                Some(v) => body.len() > 0 && all_digits(body) && v == digits_value(body) && v
                    <= limit,
                None => body.len() == 0 || !all_digits(body) || digits_value(body) > limit,
            }
        }),
{
    let ghost body = d@.skip(from as int);
    if from == d.len() {
        return None;
    }
    let mut value: u64 = 0;
    let mut i = from;
    while i < d.len()
        invariant
            from <= i <= d.len(),
            body == d@.skip(from as int),
            all_digits(body.take(i - from)),
            value == digits_value(body.take(i - from)),
            value <= limit,
            limit >= 9,
        decreases d.len() - i,
    {
        let c = d[i];
        if !('0' <= c && c <= '9') {
            assert(body[i - from] == c);
            return None;
        }
        let dv: u64 = (c as u32 - '0' as u32) as u64;
        assert(dv <= 9 && dv == digit_value(c));
        assert(body.take(i - from + 1).drop_last() =~= body.take(i - from));
        assert(body.take(i - from + 1).last() == c);
        assert(all_digits(body.take(i - from + 1))) by {
            assert forall|k: int| 0 <= k < i - from + 1 implies is_digit(
                #[trigger] body.take(i - from + 1)[k],
            ) by {
                if k < i - from {
                    assert(body.take(i - from + 1)[k] == body.take(i - from)[k]);
                }
            }
        }
        if value > (limit - dv) / 10 {
            proof {
                assert(value * 10 + dv > limit) by (nonlinear_arith)
                    requires
                        value > (limit - dv) / 10,
                        dv <= limit,
                ;
            }
            proof {
                if all_digits(body) {
                    lemma_digits_value_grows(body, i - from + 1);
                }
            }
            return None;
        }
        proof {
            assert(value * 10 + dv <= limit) by (nonlinear_arith)
                requires
                    value <= (limit - dv) / 10,
                    dv <= limit,
            ;
        }
        value = value * 10 + dv;
        i += 1;
    }
    assert(body.take(i - from) =~= body);
    Some(value)
}

/// `<u64 as FromStr>::from_str` (executable).
pub fn parse_u64(s: &Vec<char>) -> (r: Option<u64>)
    ensures
        r == parse_u64_spec(s@),
{
    let from: usize = if s.len() > 0 && s[0] == '+' {
        1
    } else {
        0
    };
    assert(s@.skip(from as int) =~= (if from == 1 {
        s@.drop_first()
    } else {
        s@
    }));
    digits_up_to(s, from, u64::MAX)
}

/// `<u32 as FromStr>::from_str` (executable).
pub fn parse_u32(s: &Vec<char>) -> (r: Option<u32>)
    ensures
        r == parse_u32_spec(s@),
{
    let from: usize = if s.len() > 0 && s[0] == '+' {
        1
    } else {
        0
    };
    assert(s@.skip(from as int) =~= (if from == 1 {
        s@.drop_first()
    } else {
        s@
    }));
    match digits_up_to(s, from, u32::MAX as u64) {
        Some(v) => Some(v as u32),
        None => None,
    }
}

/// `<i32 as FromStr>::from_str` (executable).
pub fn parse_i32(s: &Vec<char>) -> (r: Option<i32>)
    ensures
        r == parse_i32_spec(s@),
{
    let negative = s.len() > 0 && s[0] == '-';
    let from: usize = if s.len() > 0 && (s[0] == '+' || negative) {
        1
    } else {
        0
    };
    assert(s@.skip(from as int) =~= (if from == 1 {
        s@.drop_first()
    } else {
        s@
    }));
    if negative {
        match digits_up_to(s, from, 0x8000_0000u64) {
            Some(v) => Some((-(v as i64)) as i32),
            None => None,
        }
    } else {
        match digits_up_to(s, from, 0x7fff_ffffu64) {
            Some(v) => Some(v as i32),
            None => None,
        }
    }
}

/// The character of a decimal digit.
pub open spec fn digit_char(d: int) -> char {
    (('0' as u32) + d) as char
}

/// The decimal spelling of `n`, as `Display` writes an unsigned integer.
pub open spec fn decimal(n: nat) -> Seq<char>
    decreases n,
{
    if n < 10 {
        seq![digit_char(n as int)]
    } else {
        decimal(n / 10) + seq![digit_char((n % 10) as int)]
    }
}

/// The decimal spelling of `n`, as `Display` writes a signed integer.
pub open spec fn signed_decimal(n: int) -> Seq<char> {
    if n < 0 {
        seq!['-'] + decimal((-n) as nat)
    } else {
        decimal(n as nat)
    }
}

/// Appends the decimal spelling of `n` to `out`.
pub fn push_decimal(out: &mut Vec<char>, n: u64)
    ensures
        final(out)@ == old(out)@ + decimal(n as nat),
    decreases n,
{
    if n >= 10 {
        push_decimal(out, n / 10);
    }
    let d: u8 = (n % 10) as u8;
    let c: char = ('0' as u8 + d) as char;
    assert(c == digit_char((n % 10) as int));
    out.push(c);
    proof {
        if n >= 10 {
            assert(out@ =~= old(out)@ + decimal(n as nat));
        } else {
            assert(n % 10 == n);
            assert(out@ =~= old(out)@ + decimal(n as nat));
        }
    }
}

/// Appends the decimal spelling of `n` to `out`, with a `-` when negative.
pub fn push_signed_decimal(out: &mut Vec<char>, n: i64)
    ensures
        final(out)@ == old(out)@ + signed_decimal(n as int),
{
    if n < 0 {
        out.push('-');
        let magnitude: u64 = (-(n as i128)) as u64;
        push_decimal(out, magnitude);
        assert(out@ =~= old(out)@ + signed_decimal(n as int));
    } else {
        push_decimal(out, n as u64);
    }
}

/// The decimal spelling of `n`.
pub fn decimal_string(n: u64) -> (r: Vec<char>)
    ensures
        r@ == decimal(n as nat),
{
    let mut r: Vec<char> = Vec::new();
    push_decimal(&mut r, n);
    assert(r@ =~= decimal(n as nat));
    r
}

// ---------------------------------------------------------------------------
// Paths.
// ---------------------------------------------------------------------------

/// `PathBuf::join` on Unix: an absolute component replaces the path; otherwise
/// the component is appended, after a `/` unless the path is empty or already
/// ends with one.
pub open spec fn joined(base: Seq<char>, component: Seq<char>) -> Seq<char> {
    if component.len() > 0 && component[0] == '/' {
        component
    } else if base.len() == 0 || base.last() == '/' {
        base + component
    } else {
        base + seq!['/'] + component
    }
}

/// `PathBuf::join` on Unix (executable).
pub fn join_path(base: &Vec<char>, component: &str) -> (r: Vec<char>)
    ensures
        r@ == joined(base@, component@),
{
    let c = chars_of(component);
    if c.len() > 0 && c[0] == '/' {
        return c;
    }
    let mut r = base.clone();
    assert(r@ == base@);
    if base.len() > 0 && base[base.len() - 1] != '/' {
        r.push('/');
    }
    push_all(&mut r, &c);
    r
}

/// Lemma: the views of a pushed vector are the views with the new view pushed.
pub proof fn lemma_views_push(v: Seq<Vec<char>>, x: Vec<char>)
    ensures
        views(v.push(x)) == views(v).push(x@),
{
    assert(views(v.push(x)) =~= views(v).push(x@));
}

/// The views of a sequence of strings.
pub open spec fn string_views(v: Seq<String>) -> Seq<Seq<char>> {
    v.map_values(|x: String| x@)
}

/// Lemma: the views of a pushed string vector are the views with the new view pushed.
pub proof fn lemma_string_views_push(v: Seq<String>, x: String)
    ensures
        string_views(v.push(x)) == string_views(v).push(x@),
{
    assert(string_views(v.push(x)) =~= string_views(v).push(x@));
}

/// The characters of each string.
pub fn strings_to_chars(v: &Vec<String>) -> (r: Vec<Vec<char>>)
    ensures
        views(r@) == string_views(v@),
{
    let mut r: Vec<Vec<char>> = Vec::new();
    let mut i: usize = 0;
    while i < v.len()
        invariant
            i <= v.len(),
            views(r@) == string_views(v@).take(i as int),
        decreases v.len() - i,
    {
        let c = chars_of(&v[i]);
        proof {
            lemma_views_push(r@, c);
        }
        r.push(c);
        assert(string_views(v@).take(i + 1) =~= string_views(v@).take(i as int).push(v@[i as int]@));
        i += 1;
    }
    assert(string_views(v@).take(i as int) =~= string_views(v@));
    r
}

/// Each character vector as a string.
pub fn chars_to_strings(v: &Vec<Vec<char>>) -> (r: Vec<String>)
    ensures
        string_views(r@) == views(v@),
{
    let mut r: Vec<String> = Vec::new();
    let mut i: usize = 0;
    while i < v.len()
        invariant
            i <= v.len(),
            string_views(r@) == views(v@).take(i as int),
        decreases v.len() - i,
    {
        let s = string_of(&v[i]);
        proof {
            lemma_string_views_push(r@, s);
        }
        r.push(s);
        assert(views(v@).take(i + 1) =~= views(v@).take(i as int).push(v@[i as int]@));
        i += 1;
    }
    assert(views(v@).take(i as int) =~= views(v@));
    r
}

// ---------------------------------------------------------------------------
// Ordering.
// ---------------------------------------------------------------------------

/// `a` sorts strictly before `b` in `String` order: character by character
/// by code point (which is the byte order of their UTF-8), a proper prefix
/// first.
pub open spec fn lex_lt(a: Seq<char>, b: Seq<char>) -> bool
    decreases a.len(),
{
    if b.len() == 0 {
        false
    } else if a.len() == 0 {
        true
    } else if a[0] < b[0] {
        true
    } else if a[0] == b[0] {
        lex_lt(a.drop_first(), b.drop_first())
    } else {
        false
    }
}

/// Lemma: `lex_lt` is a strict total order.
pub proof fn lemma_lex_lt_strict_total(a: Seq<char>, b: Seq<char>)
    ensures
        !lex_lt(a, a),
        lex_lt(a, b) ==> !lex_lt(b, a),
        a != b ==> lex_lt(a, b) || lex_lt(b, a),
    decreases a.len(),
{
    if a.len() > 0 {
        lemma_lex_lt_strict_total(a.drop_first(), a.drop_first());
        if b.len() > 0 {
            lemma_lex_lt_strict_total(a.drop_first(), b.drop_first());
            if a[0] == b[0] && a != b {
                assert(a.drop_first() != b.drop_first()) by {
                    if a.drop_first() == b.drop_first() {
                        assert(a =~= seq![a[0]] + a.drop_first());
                        assert(b =~= seq![b[0]] + b.drop_first());
                    }
                }
            }
        }
    } else if b.len() > 0 {
    } else {
        assert(a =~= b);
    }
}

/// Lemma: `lex_lt` is transitive.
pub proof fn lemma_lex_lt_transitive(a: Seq<char>, b: Seq<char>, c: Seq<char>)
    requires
        lex_lt(a, b),
        lex_lt(b, c),
    ensures
        lex_lt(a, c),
    decreases a.len(),
{
    if a.len() > 0 && b.len() > 0 && c.len() > 0 {
        if a[0] == b[0] && b[0] == c[0] {
            lemma_lex_lt_transitive(a.drop_first(), b.drop_first(), c.drop_first());
        }
    }
}

/// Whether `a` sorts strictly before `b` in `String` order (executable).
pub fn precedes(a: &Vec<char>, b: &Vec<char>) -> (r: bool)
    ensures
        r == lex_lt(a@, b@),
{
    let mut k: usize = 0;
    assert(a@.skip(0) =~= a@);
    assert(b@.skip(0) =~= b@);
    loop
        invariant
            k <= a.len(),
            k <= b.len(),
            lex_lt(a@, b@) == lex_lt(a@.skip(k as int), b@.skip(k as int)),
        decreases a.len() - k,
    {
        if k == b.len() {
            return false;
        }
        if k == a.len() {
            return true;
        }
        if a[k] < b[k] {
            return true;
        }
        if a[k] != b[k] {
            return false;
        }
        assert(a@.skip(k as int).drop_first() =~= a@.skip(k + 1));
        assert(b@.skip(k as int).drop_first() =~= b@.skip(k + 1));
        k += 1;
    }
}

} // verus!
