//! Which source files are exposed and under which virtual paths: the `.m4a`
//! test, the mapping of a source path to its `.mkv` path, numbered names
//! for clashing paths, and the indexing of a scanned source tree.
use vstd::prelude::*;

use crate::path::{
    extension, file_stem, parent, path_wf, render, rendered, strip_prefix, valid_name, with_extension,
    Component, FsPath,
};
use crate::json::{get, json_get, parse_json, spec_parse_json, JsonValue};
use crate::text::{
    chars_eq_ignore_case, chars_of, decimal, eq_ic, is_ascii_alnum, is_ascii_alnum_char,
    lemma_decimal_injective, push_char, push_chars, push_decimal, str_eq_ignore_case,
};

verus! {

/// A modification time: `secs` and `nanos` after the Unix epoch, or before it
/// when `before_epoch` holds.
#[derive(Debug, Clone, Copy, PartialEq, Eq)]
pub struct FileTime {
    pub before_epoch: bool,
    pub secs: u64,
    pub nanos: u32,
}

/// One exposed source file.
#[derive(Debug, PartialEq, Eq)]
pub struct MediaItem {
    pub source_path: FsPath,
    pub relative_m4a: FsPath,
    pub virtual_path: FsPath,
    pub size: u64,
    pub mtime: FileTime,
}

/// The value of a `MediaItem`: its paths as components, each with its text.
pub struct MediaItemView {
    pub source_path: Seq<Component>,
    /// The text of the source path, which its cache key hashes.
    pub source_text: Seq<char>,
    pub relative_m4a: Seq<Component>,
    pub relative_text: Seq<char>,
    pub virtual_path: Seq<Component>,
    pub virtual_text: Seq<char>,
    pub size: u64,
    pub mtime: FileTime,
}

impl View for MediaItem {
    type V = MediaItemView;

    open spec fn view(&self) -> MediaItemView {
        MediaItemView {
            source_path: self.source_path@,
            source_text: self.source_path.text@,
            relative_m4a: self.relative_m4a@,
            relative_text: self.relative_m4a.text@,
            virtual_path: self.virtual_path@,
            virtual_text: self.virtual_path.text@,
            size: self.size,
            mtime: self.mtime,
        }
    }
}

/// Why a source tree could not be indexed.
#[derive(Debug, PartialEq, Eq)]
pub enum ScanError {
    /// The walk of the source tree failed.
    Walk { root: String, message: String },
    /// A file does not lie under the source root.
    OutsideRoot { file: String, root: String },
    /// The metadata of an eligible file could not be read.
    Stat { path: String, message: String },
    /// The modification time of an eligible file could not be read.
    Mtime { path: String, message: String },
}

pub open spec fn m4a_text() -> Seq<char> {
    seq!['m', '4', 'a']
}

pub open spec fn mkv_text() -> Seq<char> {
    seq!['m', 'k', 'v']
}

pub open spec fn track_text() -> Seq<char> {
    seq!['t', 'r', 'a', 'c', 'k']
}

/// A path whose extension is `m4a` in any ASCII case.
pub open spec fn spec_is_m4a_path(p: Seq<Component>) -> bool {
    match extension(p) {
        Some(e) => eq_ic(e, m4a_text()),
        None => false,
    }
}

/// `true` when the path's extension is `m4a`, ignoring ASCII case.
pub fn is_m4a_path(path: &FsPath) -> (r: bool)
    ensures
        r == spec_is_m4a_path(path@),
{
    match path.extension() {
        Some(e) => {
            let r = str_eq_ignore_case(e.as_str(), "m4a");
            proof {
                reveal_strlit("m4a");
                assert("m4a"@ =~= m4a_text());
            }
            r
        },
        None => false,
    }
}

/// The virtual path of a file below the source root: its path relative to
/// the root, with the extension `mkv`.
pub open spec fn spec_virtual_path(root: Seq<Component>, file: Seq<Component>) -> Option<Seq<Component>> {
    match strip_prefix(file, root) {
        Some(rel) => Some(with_extension(rel, mkv_text())),
        None => None,
    }
}

/// The virtual `.mkv` path of `file` below `source_root`; an error when the
/// file is not below the root.
pub fn virtual_path_for(source_root: &FsPath, file: &FsPath) -> (r: Result<FsPath, ScanError>)
    ensures
        match r {
            Ok(v) => spec_virtual_path(source_root@, file@) == Some(v@) && rendered(v),
            Err(e) => {
                &&& spec_virtual_path(source_root@, file@) is None
                &&& e matches ScanError::OutsideRoot { file: f, root: t }
                &&& f@ == render(file@)
                &&& t@ == render(source_root@)
            },
        },
{
    match file.strip_prefix(source_root) {
        Some(rel) => {
            proof {
                reveal_strlit("mkv");
                assert("mkv"@ =~= mkv_text());
            }
            Ok(rel.with_extension("mkv"))
        },
        None => Err(ScanError::OutsideRoot { file: file.render(), root: source_root.render() }),
    }
}

/// The paths of a list, as values.
pub open spec fn path_views(paths: Seq<FsPath>) -> Seq<Seq<Component>> {
    paths.map_values(|q: FsPath| q@)
}

/// The name `"{stem} ({k}).{ext}"`.
pub open spec fn numbered_name(stem: Seq<char>, k: nat, ext: Seq<char>) -> Seq<char> {
    stem + seq![' ', '('] + decimal(k) + seq![')', '.'] + ext
}

pub open spec fn parent_or_empty(p: Seq<Component>) -> Seq<Component> {
    match parent(p) {
        Some(q) => q,
        None => seq![],
    }
}

pub open spec fn stem_or_track(p: Seq<Component>) -> Seq<char> {
    match file_stem(p) {
        Some(s) => s,
        None => track_text(),
    }
}

pub open spec fn extension_or_mkv(p: Seq<Component>) -> Seq<char> {
    match extension(p) {
        Some(e) => e,
        None => mkv_text(),
    }
}

/// The `k`-th numbered alternative of `p`: a sibling named
/// `"{stem} ({k}).{ext}"`, with `track` and `mkv` where `p` has no stem or
/// no extension.
pub open spec fn numbered_candidate(p: Seq<Component>, k: nat) -> Seq<Component> {
    parent_or_empty(p).push(Component::Normal(numbered_name(stem_or_track(p), k, extension_or_mkv(p))))
}

pub proof fn lemma_numbered_name_injective(stem: Seq<char>, a: nat, b: nat, ext: Seq<char>)
    requires
        numbered_name(stem, a, ext) == numbered_name(stem, b, ext),
    ensures
        a == b,
{
    let pre = stem + seq![' ', '('];
    let post = seq![')', '.'] + ext;
    let da = decimal(a);
    let db = decimal(b);
    assert(numbered_name(stem, a, ext) =~= pre + da + post);
    assert(numbered_name(stem, b, ext) =~= pre + db + post);
    assert(da.len() == db.len());
    assert((pre + da + post).subrange(pre.len() as int, (pre.len() + da.len()) as int) =~= da);
    assert((pre + db + post).subrange(pre.len() as int, (pre.len() + db.len()) as int) =~= db);
    lemma_decimal_injective(a, b);
}

/// Distinct numbers give distinct candidates.
pub proof fn lemma_numbered_candidate_injective(p: Seq<Component>, a: nat, b: nat)
    requires
        numbered_candidate(p, a) == numbered_candidate(p, b),
    ensures
        a == b,
{
    let x = numbered_candidate(p, a);
    let y = numbered_candidate(p, b);
    assert(x.last() == y.last());
    lemma_numbered_name_injective(stem_or_track(p), a, b, extension_or_mkv(p));
}

/// The result of `unique_virtual_path`: the path itself when no listed path
/// equals it, else the first numbered candidate, counting from 2, that no
/// listed path equals.
pub open spec fn is_unique_choice(p: Seq<Component>, existing: Seq<Seq<Component>>, r: Seq<Component>) -> bool {
    if !existing.contains(p) {
        r == p
    } else {
        exists|k: nat|
            #![trigger numbered_candidate(p, k)]
            {
                &&& k >= 2
                &&& r == numbered_candidate(p, k)
                &&& !existing.contains(r)
                &&& forall|j: nat| 2 <= j < k ==> existing.contains(#[trigger] numbered_candidate(p, j))
            }
    }
}

/// `true` when some listed path equals `p`.
pub fn contains_path(existing: &Vec<FsPath>, p: &FsPath) -> (r: bool)
    ensures
        r == path_views(existing@).contains(p@),
{
    for i in 0..existing.len()
        invariant
            forall|j: int| 0 <= j < i ==> existing@[j]@ != p@,
    {
        if existing[i].same_as(p) {
            assert(path_views(existing@)[i as int] == p@);
            return true;
        }
    }
    assert forall|j: int| 0 <= j < path_views(existing@).len() implies path_views(existing@)[j] != p@ by {
        assert(path_views(existing@)[j] == existing@[j]@);
    }
    false
}

/// The file name `"{stem} ({number}).{ext}"`.
fn numbered_file_name(stem: &String, number: u128, ext: &String) -> (r: String)
    ensures
        r@ == numbered_name(stem@, number as nat, ext@),
{
    let mut s = String::new();
    let sv = chars_of(stem.as_str());
    push_chars(&mut s, sv.as_slice());
    push_char(&mut s, ' ');
    push_char(&mut s, '(');
    push_decimal(&mut s, number);
    push_char(&mut s, ')');
    push_char(&mut s, '.');
    let ev = chars_of(ext.as_str());
    push_chars(&mut s, ev.as_slice());
    assert(s@ =~= numbered_name(stem@, number as nat, ext@));
    s
}

/// `path` when no path of `existing` equals it; otherwise the first free
/// sibling `"{stem} (2).{ext}"`, `"{stem} (3).{ext}"`, ...
pub fn unique_virtual_path(path: &FsPath, existing: &Vec<FsPath>) -> (r: FsPath)
    requires
        path_wf(path@),
    ensures
        is_unique_choice(path@, path_views(existing@), r@),
        !path_views(existing@).contains(r@),
        path_wf(r@),
        rendered(*path) ==> rendered(r),
{
    let ghost views = path_views(existing@);
    if !contains_path(existing, path) {
        return path.duplicate();
    }
    let dir = match path.parent() {
        Some(q) => q,
        None => FsPath::empty(),
    };
    let stem = match path.file_stem() {
        Some(s) => s,
        None => {
            let mut t = String::new();
            push_chars(&mut t, &['t', 'r', 'a', 'c', 'k']);
            assert(t@ =~= track_text());
            t
        },
    };
    let ext = match path.extension() {
        Some(e) => e,
        None => {
            let mut t = String::new();
            push_chars(&mut t, &['m', 'k', 'v']);
            assert(t@ =~= mkv_text());
            t
        },
    };
    proof {
        lemma_name_parts_valid(path@);
        assert(stem@ == stem_or_track(path@));
        assert(ext@ == extension_or_mkv(path@));
        assert forall|k: nat| valid_name(#[trigger] numbered_name(stem@, k, ext@)) by {
            assert(valid_name(numbered_name(stem_or_track(path@), k, extension_or_mkv(path@))));
        }
    }
    let ghost all: Set<Seq<Component>> = views.to_set();
    let ghost mut rest: Set<Seq<Component>> = all;
    proof {
        views.lemma_cardinality_of_set();
        assert(views.len() == existing@.len());
    }
    let count = existing.len();
    let mut number: u128 = 2;
    loop
        invariant
            count == existing@.len(),
            views == path_views(existing@),
            all == views.to_set(),
            all.finite(),
            all.len() <= views.len(),
            views.len() == existing@.len(),
            views.contains(path@),
            path_wf(path@),
            2 <= number,
            rest.finite(),
            rest.len() + (number - 2) == all.len(),
            rest =~= all.difference(
                Set::new(|q: Seq<Component>| exists|k: nat| 2 <= k < number && q == numbered_candidate(path@, k)),
            ),
            forall|j: nat| 2 <= j < number ==> views.contains(#[trigger] numbered_candidate(path@, j)),
            dir@ == parent_or_empty(path@),
            stem@ == stem_or_track(path@),
            ext@ == extension_or_mkv(path@),
            valid_name(numbered_name(stem@, number as nat, ext@)),
            forall|k: nat| valid_name(#[trigger] numbered_name(stem@, k, ext@)),
            path_wf(dir@),
        decreases rest.len(),
    {
        let name = numbered_file_name(&stem, number, &ext);
        let candidate = dir.join_name(name);
        assert(candidate@ == numbered_candidate(path@, number as nat));
        if !contains_path(existing, &candidate) {
            proof {
                lemma_push_name_wf(dir@, numbered_name(stem@, number as nat, ext@));
            }
            return candidate;
        }
        proof {
            let c = candidate@;
            assert(all.contains(c));
            assert forall|k: nat| 2 <= k < number implies c != numbered_candidate(path@, k) by {
                if c == numbered_candidate(path@, k) {
                    lemma_numbered_candidate_injective(path@, number as nat, k);
                }
            }
            assert(rest.contains(c));
            let old_rest = rest;
            rest = rest.remove(c);
            assert(rest.len() == old_rest.len() - 1);
            assert(rest =~= all.difference(
                Set::new(|q: Seq<Component>| exists|k: nat| 2 <= k < number + 1 && q == numbered_candidate(path@, k)),
            )) by {
                assert forall|q: Seq<Component>| rest.contains(q) <==> all.difference(
                    Set::new(|q: Seq<Component>| exists|k: nat| 2 <= k < number + 1 && q == numbered_candidate(path@, k)),
                ).contains(q) by {
                    if q == c {
                        assert(exists|k: nat| 2 <= k < number + 1 && q == numbered_candidate(path@, k)) by {
                            assert(q == numbered_candidate(path@, number as nat));
                        }
                    }
                    if exists|k: nat| 2 <= k < number + 1 && q == numbered_candidate(path@, k) {
                        let k = choose|k: nat| 2 <= k < number + 1 && q == numbered_candidate(path@, k);
                        if k < number {
                            assert(exists|k: nat| 2 <= k < number && q == numbered_candidate(path@, k));
                        }
                    }
                }
            }
        }
        number = number + 1;
    }
}

/// The stem and extension of a well-formed path are names without
/// separators, so every numbered name is a valid name.
pub proof fn lemma_name_parts_valid(p: Seq<Component>)
    requires
        path_wf(p),
    ensures
        forall|k: nat| valid_name(#[trigger] numbered_name(stem_or_track(p), k, extension_or_mkv(p))),
        path_wf(parent_or_empty(p)),
{
    let stem = stem_or_track(p);
    let ext = extension_or_mkv(p);
    if p.len() > 0 && p.last() is Normal {
        let n = p.last()->Normal_0;
        assert(p[p.len() - 1] == p.last());
        assert(valid_name(n));
        crate::path::lemma_last_dot_range(n);
        let i = crate::path::last_dot(n);
        if i > 0 {
            assert forall|j: int| 0 <= j < stem.len() implies stem[j] != '/' by {
                assert(stem[j] == n[j]);
            }
            assert forall|j: int| 0 <= j < ext.len() implies ext[j] != '/' by {
                assert(ext[j] == n[j + i + 1]);
            }
        }
        assert(!stem.contains('/'));
        assert(!ext.contains('/'));
    } else {
        assert(!stem.contains('/')) by {
            assert forall|j: int| 0 <= j < stem.len() implies stem[j] != '/' by {}
        }
        assert(!ext.contains('/')) by {
            assert forall|j: int| 0 <= j < ext.len() implies ext[j] != '/' by {}
        }
    }
    assert forall|k: nat| valid_name(#[trigger] numbered_name(stem, k, ext)) by {
        let nm = numbered_name(stem, k, ext);
        let d = decimal(k);
        assert forall|j: int| 0 <= j < d.len() implies d[j] != '/' by {
            lemma_decimal_digits(k, j);
        }
        assert forall|j: int| 0 <= j < nm.len() implies nm[j] != '/' by {
            if j < stem.len() {
                assert(nm[j] == stem[j]);
            } else if j < stem.len() + 2 {
            } else if j < stem.len() + 2 + d.len() {
                assert(nm[j] == d[j - stem.len() - 2]);
            } else if j < stem.len() + 4 + d.len() {
            } else {
                assert(nm[j] == ext[j - stem.len() - 4 - d.len()]);
            }
        }
        assert(nm[stem.len() as int + 1] == '(');
        assert(nm.len() >= 4);
        assert(nm != crate::path::dot());
        assert(nm != crate::path::dot_dot());
    }
    if p.len() > 0 && !(p.last() is Root) {
        assert forall|i: int| 0 <= i < p.drop_last().len() implies #[trigger] p.drop_last()[i] == p[i] by {}
    }
}

/// Every character of a decimal rendering is a digit.
pub proof fn lemma_decimal_digits(k: nat, j: int)
    requires
        0 <= j < decimal(k).len(),
    ensures
        '0' <= decimal(k)[j] <= '9',
    decreases k,
{
    if k >= 10 {
        if j < decimal(k).len() - 1 {
            lemma_decimal_digits(k / 10, j);
        }
    }
}

/// Adding a valid name to a well-formed path keeps it well-formed.
pub proof fn lemma_push_name_wf(p: Seq<Component>, n: Seq<char>)
    requires
        path_wf(p),
        valid_name(n),
    ensures
        path_wf(p.push(Component::Normal(n))),
{
    let q = p.push(Component::Normal(n));
    assert forall|i: int| 0 <= i < q.len() implies {
        &&& (#[trigger] q[i] is Root ==> i == 0)
        &&& (q[i] is Cur ==> i == 0)
        &&& (q[i] matches Component::Normal(m) ==> valid_name(m))
    } by {
        if i < p.len() {
            assert(q[i] == p[i]);
        }
    }
}

pub open spec fn joc_text() -> Seq<char> {
    seq!['j', 'o', 'c']
}

pub open spec fn atmos_text() -> Seq<char> {
    seq!['a', 't', 'm', 'o', 's']
}

/// `w` occurs at `i` in `t`, ignoring ASCII case, as a whole token: the
/// characters around it, where there are any, are not ASCII alphanumeric.
pub open spec fn token_at(t: Seq<char>, i: int, w: Seq<char>) -> bool {
    &&& 0 <= i
    &&& i + w.len() <= t.len()
    &&& eq_ic(t.subrange(i, i + w.len()), w)
    &&& (i == 0 || !is_ascii_alnum(t[i - 1]))
    &&& (i + w.len() == t.len() || !is_ascii_alnum(t[i + w.len()]))
}

/// The text, split at every character that is not ASCII alphanumeric, has
/// a token equal to `joc` or `atmos` in any ASCII case.
pub open spec fn spec_str_has_marker(t: Seq<char>) -> bool {
    exists|i: int|
        #![trigger token_at(t, i, joc_text())]
        #![trigger token_at(t, i, atmos_text())]
        token_at(t, i, joc_text()) || token_at(t, i, atmos_text())
}

/// Whether `w` occurs at `i` in `t` as a whole token, given that the
/// character before `i` (if any) is not alphanumeric.
fn token_ends_at(t: &Vec<char>, i: usize, w: &[char]) -> (r: bool)
    requires
        i <= t@.len(),
        w@.len() > 0,
    ensures
        r == (i + w@.len() <= t@.len() && eq_ic(t@.subrange(i as int, i + w@.len()), w@) && (i
            + w@.len() == t@.len() || !is_ascii_alnum(t@[i + w@.len()]))),
{
    let n = t.len();
    let m = w.len();
    if m > n - i {
        return false;
    }
    let window = &t.as_slice()[i..i + m];
    if !chars_eq_ignore_case(window, w) {
        return false;
    }
    i + m == n || !is_ascii_alnum_char(t[i + m])
}

/// `true` when the text has a token `joc` or `atmos`, ignoring ASCII case,
/// between characters that are not ASCII alphanumeric.
pub fn str_contains_atmos_marker(text: &str) -> (r: bool)
    ensures
        r == spec_str_has_marker(text@),
{
    let t = chars_of(text);
    let n = t.len();
    let joc: [char; 3] = ['j', 'o', 'c'];
    let atmos: [char; 5] = ['a', 't', 'm', 'o', 's'];
    assert(joc@ =~= joc_text());
    assert(atmos@ =~= atmos_text());
    for i in 0..n
        invariant
            n == t@.len(),
            t@ == text@,
            joc@ == joc_text(),
            atmos@ == atmos_text(),
            forall|j: int| 0 <= j < i ==> !token_at(t@, j, joc_text()) && !token_at(t@, j, atmos_text()),
    {
        if i == 0 || !is_ascii_alnum_char(t[i - 1]) {
            if token_ends_at(&t, i, joc.as_slice()) {
                assert(token_at(t@, i as int, joc_text()));
                return true;
            }
            if token_ends_at(&t, i, atmos.as_slice()) {
                assert(token_at(t@, i as int, atmos_text()));
                return true;
            }
        }
    }
    assert forall|j: int| !token_at(t@, j, joc_text()) && !token_at(t@, j, atmos_text()) by {}
    false
}

/// A JSON value holds, at any depth, a string with a `joc` or `atmos` token.
pub open spec fn value_has_marker(v: JsonValue) -> bool
    decreases v,
{
    match v {
        JsonValue::String(s) => spec_str_has_marker(s@),
        JsonValue::Array(a) => values_have_marker(a@),
        JsonValue::Object(m) => members_have_marker(m@),
        _ => false,
    }
}

pub open spec fn values_have_marker(s: Seq<JsonValue>) -> bool
    decreases s,
{
    if s.len() == 0 {
        false
    } else {
        value_has_marker(s[0]) || values_have_marker(s.subrange(1, s.len() as int))
    }
}

pub open spec fn members_have_marker(s: Seq<(String, JsonValue)>) -> bool
    decreases s,
{
    if s.len() == 0 {
        false
    } else {
        value_has_marker(s[0].1) || members_have_marker(s.subrange(1, s.len() as int))
    }
}

/// `true` when the value holds, at any depth, a string with a `joc` or
/// `atmos` token.
pub fn value_contains_atmos_marker(v: &JsonValue) -> (r: bool)
    ensures
        r == value_has_marker(*v),
    decreases v,
{
    match v {
        JsonValue::String(s) => str_contains_atmos_marker(s.as_str()),
        JsonValue::Array(a) => {
            let n = a.len();
            assert(a@.subrange(0, n as int) =~= a@);
            for i in 0..n
                invariant
                    n == a@.len(),
                    *v == JsonValue::Array(*a),
                    value_has_marker(*v) == values_have_marker(a@),
                    values_have_marker(a@) == values_have_marker(a@.subrange(i as int, n as int)),
            {
                let ghost rest = a@.subrange(i as int, n as int);
                assert(rest[0] == a@[i as int]);
                assert(rest.subrange(1, rest.len() as int) =~= a@.subrange(i + 1, n as int));
                proof {
                    assert(decreases_to!(*v => *a));
                    assert(decreases_to!(*a => a@));
                    assert(decreases_to!(a@ => a@[i as int]));
                    assert(decreases_to!(*v => a@[i as int]));
                }
                if value_contains_atmos_marker(&a[i]) {
                    return true;
                }
            }
            false
        },
        JsonValue::Object(m) => {
            let n = m.len();
            assert(m@.subrange(0, n as int) =~= m@);
            for i in 0..n
                invariant
                    n == m@.len(),
                    *v == JsonValue::Object(*m),
                    value_has_marker(*v) == members_have_marker(m@),
                    members_have_marker(m@) == members_have_marker(m@.subrange(i as int, n as int)),
            {
                let ghost rest = m@.subrange(i as int, n as int);
                assert(rest[0] == m@[i as int]);
                assert(rest.subrange(1, rest.len() as int) =~= m@.subrange(i + 1, n as int));
                proof {
                    assert(decreases_to!(*v => *m));
                    assert(decreases_to!(*m => m@));
                    assert(decreases_to!(m@ => m@[i as int]));
                    assert(decreases_to!(m@[i as int] => m@[i as int].1));
                    assert(decreases_to!(*v => m@[i as int].1));
                }
                if value_contains_atmos_marker(&m[i].1) {
                    return true;
                }
            }
            false
        },
        _ => false,
    }
}

/// The member `field` is a string with a marker token.
pub open spec fn str_field_has_marker(v: JsonValue, field: Seq<char>) -> bool {
    match json_get(v, field) {
        Some(JsonValue::String(s)) => spec_str_has_marker(s@),
        _ => false,
    }
}

/// The member `field` exists and holds a marker at any depth.
pub open spec fn field_has_marker(v: JsonValue, field: Seq<char>) -> bool {
    match json_get(v, field) {
        Some(x) => value_has_marker(x),
        None => false,
    }
}

/// The member `field` is a string equal to `w`, ignoring ASCII case.
pub open spec fn str_field_is(v: JsonValue, field: Seq<char>, w: Seq<char>) -> bool {
    match json_get(v, field) {
        Some(JsonValue::String(s)) => eq_ic(s@, w),
        _ => false,
    }
}

/// A stream carries an Atmos marker in its profile, codec tag, codec long
/// name, tags or side data.
pub open spec fn spec_stream_has_marker(stream: JsonValue) -> bool {
    ||| str_field_has_marker(stream, "profile"@)
    ||| str_field_has_marker(stream, "codec_tag_string"@)
    ||| str_field_has_marker(stream, "codec_long_name"@)
    ||| field_has_marker(stream, "tags"@)
    ||| field_has_marker(stream, "side_data_list"@)
}

/// A stream is audio coded as E-AC-3.
pub open spec fn spec_is_eac3_audio(stream: JsonValue) -> bool {
    str_field_is(stream, "codec_type"@, "audio"@) && str_field_is(stream, "codec_name"@, "eac3"@)
}

/// The `streams` member, when it is an array.
pub open spec fn streams_of(v: JsonValue) -> Option<Seq<JsonValue>> {
    match json_get(v, "streams"@) {
        Some(JsonValue::Array(a)) => Some(a@),
        _ => None,
    }
}

pub open spec fn any_eac3_audio(s: Seq<JsonValue>) -> bool {
    exists|i: int| 0 <= i < s.len() && #[trigger] spec_is_eac3_audio(s[i])
}

pub open spec fn any_stream_marker(s: Seq<JsonValue>) -> bool {
    exists|i: int| 0 <= i < s.len() && #[trigger] spec_stream_has_marker(s[i])
}

pub open spec fn some_stream_is_eac3_audio(v: JsonValue) -> bool {
    match streams_of(v) {
        Some(s) => any_eac3_audio(s),
        None => false,
    }
}

pub open spec fn some_stream_has_marker(v: JsonValue) -> bool {
    match streams_of(v) {
        Some(s) => any_stream_marker(s),
        None => false,
    }
}

pub open spec fn format_tags_have_marker(v: JsonValue) -> bool {
    match json_get(v, "format"@) {
        Some(f) => field_has_marker(f, "tags"@),
        None => false,
    }
}

/// An ffprobe report of an E-AC-3 audio stream with a Dolby Atmos (JOC)
/// marker in some stream or in the format tags.
pub open spec fn spec_probe_is_atmos_eac3(v: JsonValue) -> bool {
    some_stream_is_eac3_audio(v) && (some_stream_has_marker(v) || format_tags_have_marker(v))
}

/// A report is accepted exactly when some stream, at any position, has
/// `codec_type` audio and `codec_name` eac3, and some stream or the format
/// tags carry a marker: where the E-AC-3 stream stands and what other
/// streams come before or after it do not matter.
pub proof fn lemma_probe_any_stream(v: JsonValue)
    ensures
        spec_probe_is_atmos_eac3(v) <==> (streams_of(v) matches Some(s) && (exists|i: int|
            0 <= i < s.len() && #[trigger] str_field_is(s[i], "codec_type"@, "audio"@) && str_field_is(
                s[i],
                "codec_name"@,
                "eac3"@,
            )) && (some_stream_has_marker(v) || format_tags_have_marker(v))),
{
    if let Some(s) = streams_of(v) {
        if exists|i: int|
            0 <= i < s.len() && #[trigger] str_field_is(s[i], "codec_type"@, "audio"@) && str_field_is(
                s[i],
                "codec_name"@,
                "eac3"@,
            ) {
            let i = choose|i: int|
                0 <= i < s.len() && #[trigger] str_field_is(s[i], "codec_type"@, "audio"@) && str_field_is(
                    s[i],
                    "codec_name"@,
                    "eac3"@,
                );
            assert(spec_is_eac3_audio(s[i]));
        }
        if any_eac3_audio(s) {
            let i = choose|i: int| 0 <= i < s.len() && #[trigger] spec_is_eac3_audio(s[i]);
            assert(str_field_is(s[i], "codec_type"@, "audio"@));
        }
    }
}

/// Two reports whose streams are the same up to order, with the same
/// format section, are accepted alike.
pub proof fn lemma_probe_ignores_stream_order(v: JsonValue, w: JsonValue)
    requires
        streams_of(v) is Some,
        streams_of(w) is Some,
        streams_of(v)->Some_0.to_multiset() == streams_of(w)->Some_0.to_multiset(),
        json_get(v, "format"@) == json_get(w, "format"@),
    ensures
        spec_probe_is_atmos_eac3(v) == spec_probe_is_atmos_eac3(w),
{
    broadcast use vstd::seq_lib::group_to_multiset_ensures;
    let s = streams_of(v)->Some_0;
    let t = streams_of(w)->Some_0;
    if any_eac3_audio(s) {
        let i = choose|i: int| 0 <= i < s.len() && #[trigger] spec_is_eac3_audio(s[i]);
        assert(s.to_multiset().count(s[i]) > 0);
        assert(t.contains(s[i]));
        let j = choose|j: int| 0 <= j < t.len() && t[j] == s[i];
        assert(spec_is_eac3_audio(t[j]));
    }
    if any_eac3_audio(t) {
        let i = choose|i: int| 0 <= i < t.len() && #[trigger] spec_is_eac3_audio(t[i]);
        assert(t.to_multiset().count(t[i]) > 0);
        assert(s.contains(t[i]));
        let j = choose|j: int| 0 <= j < s.len() && s[j] == t[i];
        assert(spec_is_eac3_audio(s[j]));
    }
    if any_stream_marker(s) {
        let i = choose|i: int| 0 <= i < s.len() && #[trigger] spec_stream_has_marker(s[i]);
        assert(s.to_multiset().count(s[i]) > 0);
        assert(t.contains(s[i]));
        let j = choose|j: int| 0 <= j < t.len() && t[j] == s[i];
        assert(spec_stream_has_marker(t[j]));
    }
    if any_stream_marker(t) {
        let i = choose|i: int| 0 <= i < t.len() && #[trigger] spec_stream_has_marker(t[i]);
        assert(t.to_multiset().count(t[i]) > 0);
        assert(s.contains(t[i]));
        let j = choose|j: int| 0 <= j < s.len() && s[j] == t[i];
        assert(spec_stream_has_marker(s[j]));
    }
}

fn str_field_contains_marker(v: &JsonValue, field: &str) -> (r: bool)
    ensures
        r == str_field_has_marker(*v, field@),
{
    match get(v, field) {
        Some(JsonValue::String(s)) => str_contains_atmos_marker(s.as_str()),
        _ => false,
    }
}

fn field_contains_marker(v: &JsonValue, field: &str) -> (r: bool)
    ensures
        r == field_has_marker(*v, field@),
{
    match get(v, field) {
        Some(x) => value_contains_atmos_marker(x),
        None => false,
    }
}

fn str_field_equals(v: &JsonValue, field: &str, w: &str) -> (r: bool)
    ensures
        r == str_field_is(*v, field@, w@),
{
    match get(v, field) {
        Some(JsonValue::String(s)) => str_eq_ignore_case(s.as_str(), w),
        _ => false,
    }
}

/// `true` when the stream has a marker token in its profile, codec tag,
/// codec long name, tags or side data.
pub fn stream_has_atmos_marker(stream: &JsonValue) -> (r: bool)
    ensures
        r == spec_stream_has_marker(*stream),
{
    str_field_contains_marker(stream, "profile") || str_field_contains_marker(stream, "codec_tag_string")
        || str_field_contains_marker(stream, "codec_long_name") || field_contains_marker(stream, "tags")
        || field_contains_marker(stream, "side_data_list")
}

/// `true` when some stream or the format tags carry a marker token.
pub fn has_atmos_marker(value: &JsonValue) -> (r: bool)
    ensures
        r == (some_stream_has_marker(*value) || format_tags_have_marker(*value)),
{
    let format_marker = match get(value, "format") {
        Some(f) => field_contains_marker(f, "tags"),
        None => false,
    };
    match get(value, "streams") {
        Some(JsonValue::Array(streams)) => {
            let n = streams.len();
            for i in 0..n
                invariant
                    n == streams@.len(),
                    streams_of(*value) == Some(streams@),
                    forall|j: int| 0 <= j < i ==> !spec_stream_has_marker(#[trigger] streams@[j]),
            {
                if stream_has_atmos_marker(&streams[i]) {
                    assert(spec_stream_has_marker(streams@[i as int]));
                    let ghost ss = streams@;
                    assert(streams_of(*value) == Some(ss));
                    assert(any_stream_marker(ss));
                    assert(some_stream_has_marker(*value));
                    return true;
                }
            }
        },
        _ => {},
    }
    format_marker
}

/// `true` when the ffprobe report, taken as a parsed value, shows an
/// E-AC-3 audio stream and an Atmos marker.
pub fn probe_value_is_atmos_eac3(value: &JsonValue) -> (r: bool)
    ensures
        r == spec_probe_is_atmos_eac3(*value),
{
    match get(value, "streams") {
        Some(JsonValue::Array(streams)) => {
            let n = streams.len();
            for i in 0..n
                invariant
                    n == streams@.len(),
                    streams_of(*value) == Some(streams@),
                    forall|j: int| 0 <= j < i ==> !spec_is_eac3_audio(#[trigger] streams@[j]),
            {
                if str_field_equals(&streams[i], "codec_type", "audio") && str_field_equals(
                    &streams[i],
                    "codec_name",
                    "eac3",
                ) {
                    assert(spec_is_eac3_audio(streams@[i as int]));
                    return has_atmos_marker(value);
                }
            }
            false
        },
        _ => false,
    }
}

/// `true` when the text is an ffprobe JSON report with an E-AC-3 audio
/// stream and an Atmos marker; `false` for text that is not JSON.
pub fn is_atmos_eac3_probe_json(json: &str) -> (r: bool)
    ensures
        r == match spec_parse_json(json@) {
            Some(v) => spec_probe_is_atmos_eac3(v),
            None => false,
        },
{
    match parse_json(json) {
        Some(v) => probe_value_is_atmos_eac3(&v),
        None => false,
    }
}

} // verus!
