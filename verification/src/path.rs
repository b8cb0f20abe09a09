//! Paths as sequences of components, with the Unix semantics of
//! `std::path`: parsing, rendering, comparison by components, file names,
//! stems and extensions, prefixes, parents and joining.
use vstd::prelude::*;

use crate::text::{chars_equal, chars_of, push_char, push_chars, string_from_chars};

verus! {

/// One component of a path (`std::path::Component` on Unix).
#[derive(Debug, PartialEq, Eq)]
pub enum PathComponent {
    RootDir,
    CurDir,
    ParentDir,
    Normal(String),
}

/// The mathematical model of a component.
pub enum Component {
    Root,
    Cur,
    Parent,
    Normal(Seq<char>),
}

impl View for PathComponent {
    type V = Component;

    open spec fn view(&self) -> Component {
        match self {
            PathComponent::RootDir => Component::Root,
            PathComponent::CurDir => Component::Cur,
            PathComponent::ParentDir => Component::Parent,
            PathComponent::Normal(s) => Component::Normal(s@),
        }
    }
}

/// A path, held as its components and its text.  The text is the one the
/// path was parsed from (`parse`), kept by `duplicate`, and the rendering of
/// its components for every path built from others (`rendered`).  Two
/// paths are equal exactly when their components are, as for
/// `std::path::Path`, so the view is the components; the contracts that
/// produce a path state its text beside its view.
#[derive(Debug)]
pub struct FsPath {
    pub components: Vec<PathComponent>,
    pub text: String,
}

impl PartialEq for FsPath {
    fn eq(&self, other: &FsPath) -> (r: bool) {
        self.same_as(other)
    }
}

impl Eq for FsPath {
}

impl vstd::std_specs::cmp::PartialEqSpecImpl for FsPath {
    open spec fn obeys_eq_spec() -> bool {
        true
    }

    open spec fn eq_spec(&self, other: &FsPath) -> bool {
        self@ == other@
    }
}

/// The text of a path built from others: the rendering of its components.
pub open spec fn rendered(p: FsPath) -> bool {
    p.text@ == render(p@)
}

/// A path with these components and their rendering as its text.
fn with_components(components: Vec<PathComponent>) -> (r: FsPath)
    ensures
        r.components@ == components@,
        r.text@ == render(r@),
{
    let mut r = FsPath { components, text: String::new() };
    r.text = r.render();
    r
}

impl View for FsPath {
    type V = Seq<Component>;

    open spec fn view(&self) -> Seq<Component> {
        self.components@.map_values(|c: PathComponent| c@)
    }
}

pub open spec fn dot() -> Seq<char> {
    seq!['.']
}

pub open spec fn dot_dot() -> Seq<char> {
    seq!['.', '.']
}

/// A name that a `Normal` component can carry.
pub open spec fn valid_name(n: Seq<char>) -> bool {
    &&& n.len() > 0
    &&& !n.contains('/')
    &&& n != dot()
    &&& n != dot_dot()
}

/// The shape of the components of a parsed path: a root or a current
/// directory only in front, and well-formed names.
pub open spec fn path_wf(p: Seq<Component>) -> bool {
    forall|i: int|
        0 <= i < p.len() ==> {
            &&& (#[trigger] p[i] is Root ==> i == 0)
            &&& (p[i] is Cur ==> i == 0)
            &&& (p[i] matches Component::Normal(n) ==> valid_name(n))
        }
}

/// The text between the separators of `s`, read character by character:
/// every `'/'` starts a new piece.
pub open spec fn split_pieces(s: Seq<char>) -> Seq<Seq<char>>
    decreases s.len(),
{
    if s.len() == 0 {
        seq![Seq::<char>::empty()]
    } else {
        let p = split_pieces(s.drop_last());
        if s.last() == '/' {
            p.push(Seq::<char>::empty())
        } else {
            p.update(p.len() - 1, p.last().push(s.last()))
        }
    }
}

/// The component a piece between separators stands for, if any: empty
/// pieces and `.` are dropped, `..` is the parent directory.
pub open spec fn piece_component(piece: Seq<char>) -> Seq<Component> {
    if piece.len() == 0 || piece == dot() {
        seq![]
    } else if piece == dot_dot() {
        seq![Component::Parent]
    } else {
        seq![Component::Normal(piece)]
    }
}

pub open spec fn body_components(pieces: Seq<Seq<char>>) -> Seq<Component>
    decreases pieces.len(),
{
    if pieces.len() == 0 {
        seq![]
    } else {
        body_components(pieces.drop_last()) + piece_component(pieces.last())
    }
}

pub open spec fn starts_absolute(s: Seq<char>) -> bool {
    s.len() > 0 && s[0] == '/'
}

pub open spec fn starts_with_cur_dir(s: Seq<char>) -> bool {
    !starts_absolute(s) && s.len() > 0 && s[0] == '.' && (s.len() == 1 || s[1] == '/')
}

/// The components of the text of a path (`Path::components` on Unix).
pub open spec fn components_of(s: Seq<char>) -> Seq<Component> {
    (if starts_absolute(s) { seq![Component::Root] } else { seq![] })
        + (if starts_with_cur_dir(s) { seq![Component::Cur] } else { seq![] })
        + body_components(split_pieces(s))
}

/// The text of one component (`Component::as_os_str`).
pub open spec fn component_text(c: Component) -> Seq<char> {
    match c {
        Component::Root => seq!['/'],
        Component::Cur => dot(),
        Component::Parent => dot_dot(),
        Component::Normal(n) => n,
    }
}

/// `PathBuf::push` on text: an absolute piece replaces the buffer, otherwise
/// a separator is added unless the buffer is empty or already ends in one.
pub open spec fn push_text(buf: Seq<char>, piece: Seq<char>) -> Seq<char> {
    if piece.len() > 0 && piece[0] == '/' {
        piece
    } else if buf.len() > 0 && buf.last() != '/' {
        buf.push('/') + piece
    } else {
        buf + piece
    }
}

/// The text of a path built by pushing its components in order.
pub open spec fn render(p: Seq<Component>) -> Seq<char>
    decreases p.len(),
{
    if p.len() == 0 {
        seq![]
    } else {
        push_text(render(p.drop_last()), component_text(p.last()))
    }
}

/// `Path::file_name`: the last component when it is a name.
pub open spec fn file_name(p: Seq<Component>) -> Option<Seq<char>> {
    if p.len() > 0 && p.last() is Normal {
        Some(p.last()->Normal_0)
    } else {
        None
    }
}

/// The index of the last `'.'` of `n`, or -1.
pub open spec fn last_dot(n: Seq<char>) -> int
    decreases n.len(),
{
    if n.len() == 0 {
        -1
    } else if n.last() == '.' {
        n.len() - 1
    } else {
        last_dot(n.drop_last())
    }
}

/// The stem of a file name: before the last `'.'`, unless that dot is the
/// first character or there is none.
pub open spec fn name_stem(n: Seq<char>) -> Seq<char> {
    let i = last_dot(n);
    if i <= 0 { n } else { n.subrange(0, i) }
}

/// The extension of a file name: after the last `'.'`, unless that dot is
/// the first character or there is none.
pub open spec fn name_extension(n: Seq<char>) -> Option<Seq<char>> {
    let i = last_dot(n);
    if i <= 0 { None } else { Some(n.subrange(i + 1, n.len() as int)) }
}

/// `Path::file_stem`.
pub open spec fn file_stem(p: Seq<Component>) -> Option<Seq<char>> {
    match file_name(p) {
        Some(n) => Some(name_stem(n)),
        None => None,
    }
}

/// `Path::extension`.
pub open spec fn extension(p: Seq<Component>) -> Option<Seq<char>> {
    match file_name(p) {
        Some(n) => name_extension(n),
        None => None,
    }
}

/// `Path::strip_prefix`: the components after `base` when `base`'s
/// components start `p`'s.
pub open spec fn strip_prefix(p: Seq<Component>, base: Seq<Component>) -> Option<Seq<Component>> {
    if base.len() <= p.len() && p.subrange(0, base.len() as int) == base {
        Some(p.subrange(base.len() as int, p.len() as int))
    } else {
        None
    }
}

/// `PathBuf::set_extension` with an extension that holds no separator: the
/// last name keeps its stem and takes the new extension (none when empty);
/// a path without a final name is unchanged.
pub open spec fn with_extension(p: Seq<Component>, ext: Seq<char>) -> Seq<Component> {
    match file_name(p) {
        Some(n) => p.update(
            p.len() - 1,
            Component::Normal(
                if ext.len() == 0 { name_stem(n) } else { name_stem(n).push('.') + ext },
            ),
        ),
        None => p,
    }
}

/// `Path::parent`: every component but the last, unless the path is empty
/// or ends at the root.
pub open spec fn parent(p: Seq<Component>) -> Option<Seq<Component>> {
    if p.len() > 0 && !(p.last() is Root) {
        Some(p.drop_last())
    } else {
        None
    }
}

/// `PathBuf::push` of one component's text.
pub open spec fn push_component(p: Seq<Component>, c: Component) -> Seq<Component> {
    match c {
        Component::Root => seq![Component::Root],
        Component::Cur => if p.len() == 0 { seq![Component::Cur] } else { p },
        _ => p.push(c),
    }
}

pub proof fn lemma_split_pieces(s: Seq<char>)
    ensures
        split_pieces(s).len() >= 1,
        forall|i: int| 0 <= i < split_pieces(s).len() ==> !#[trigger] split_pieces(s)[i].contains('/'),
    decreases s.len(),
{
    if s.len() > 0 {
        lemma_split_pieces(s.drop_last());
        let p = split_pieces(s.drop_last());
        if s.last() != '/' {
            let q = p.update(p.len() - 1, p.last().push(s.last()));
            assert forall|i: int| 0 <= i < q.len() implies !#[trigger] q[i].contains('/') by {
                if i == p.len() - 1 {
                    if q[i].contains('/') {
                        let k = choose|k: int| 0 <= k < q[i].len() && q[i][k] == '/';
                        assert(p[i].contains('/') || k == p[i].len());
                        if k < p[i].len() {
                            assert(p[i][k] == '/');
                        }
                    }
                } else {
                    assert(q[i] == p[i]);
                }
            }
        } else {
            let q = p.push(Seq::<char>::empty());
            assert forall|i: int| 0 <= i < q.len() implies !#[trigger] q[i].contains('/') by {
                if i < p.len() {
                    assert(q[i] == p[i]);
                }
            }
        }
    }
}

pub proof fn lemma_body_components_wf(pieces: Seq<Seq<char>>)
    requires
        forall|i: int| 0 <= i < pieces.len() ==> !#[trigger] pieces[i].contains('/'),
    ensures
        forall|i: int|
            0 <= i < body_components(pieces).len() ==> {
                &&& !(#[trigger] body_components(pieces)[i] is Root)
                &&& !(body_components(pieces)[i] is Cur)
                &&& (body_components(pieces)[i] matches Component::Normal(n) ==> valid_name(n))
            },
    decreases pieces.len(),
{
    if pieces.len() > 0 {
        let d = pieces.drop_last();
        assert forall|i: int| 0 <= i < d.len() implies !#[trigger] d[i].contains('/') by {
            assert(d[i] == pieces[i]);
        }
        lemma_body_components_wf(d);
        assert(!pieces.last().contains('/')) by {
            assert(pieces.last() == pieces[pieces.len() - 1]);
        }
    }
}

/// Parsed paths have the shape of `path_wf`.
pub proof fn lemma_components_of_wf(s: Seq<char>)
    ensures
        path_wf(components_of(s)),
{
    lemma_split_pieces(s);
    lemma_body_components_wf(split_pieces(s));
    let pre = (if starts_absolute(s) { seq![Component::Root] } else { seq![] })
        + (if starts_with_cur_dir(s) { seq![Component::Cur] } else { seq![] });
    assert(pre.len() <= 1);
    let b = body_components(split_pieces(s));
    let c = components_of(s);
    assert forall|i: int| 0 <= i < c.len() implies {
        &&& (#[trigger] c[i] is Root ==> i == 0)
        &&& (c[i] is Cur ==> i == 0)
        &&& (c[i] matches Component::Normal(n) ==> valid_name(n))
    } by {
        if i >= pre.len() {
            assert(c[i] == b[i - pre.len()]);
        }
    }
}

impl PathComponent {
    pub fn clone_component(&self) -> (r: PathComponent)
        ensures
            r@ == self@,
    {
        match self {
            PathComponent::RootDir => PathComponent::RootDir,
            PathComponent::CurDir => PathComponent::CurDir,
            PathComponent::ParentDir => PathComponent::ParentDir,
            PathComponent::Normal(s) => PathComponent::Normal(s.clone()),
        }
    }

    pub fn same_as(&self, other: &PathComponent) -> (r: bool)
        ensures
            r == (self@ == other@),
    {
        match (self, other) {
            (PathComponent::RootDir, PathComponent::RootDir) => true,
            (PathComponent::CurDir, PathComponent::CurDir) => true,
            (PathComponent::ParentDir, PathComponent::ParentDir) => true,
            (PathComponent::Normal(a), PathComponent::Normal(b)) => {
                let va = chars_of(a.as_str());
                let vb = chars_of(b.as_str());
                chars_equal(va.as_slice(), vb.as_slice())
            },
            _ => false,
        }
    }

    /// The text of the component (`Component::as_os_str`).
    pub fn text(&self) -> (r: String)
        ensures
            r@ == component_text(self@),
    {
        match self {
            PathComponent::RootDir => {
                let mut s = String::new();
                push_char(&mut s, '/');
                s
            },
            PathComponent::CurDir => {
                let mut s = String::new();
                push_char(&mut s, '.');
                s
            },
            PathComponent::ParentDir => {
                let mut s = String::new();
                push_char(&mut s, '.');
                push_char(&mut s, '.');
                s
            },
            PathComponent::Normal(n) => n.clone(),
        }
    }
}

/// The component for one piece of text between separators, if any.
fn piece_to_component(piece: &Vec<char>) -> (r: Option<PathComponent>)
    ensures
        match r {
            Some(c) => piece_component(piece@) == seq![c@],
            None => piece_component(piece@) == Seq::<Component>::empty(),
        },
{
    if piece.len() == 0 {
        None
    } else if piece.len() == 1 && piece[0] == '.' {
        assert(piece@ =~= dot());
        None
    } else if piece.len() == 2 && piece[0] == '.' && piece[1] == '.' {
        assert(piece@ =~= dot_dot());
        Some(PathComponent::ParentDir)
    } else {
        assert(piece@ != dot());
        assert(piece@ != dot_dot());
        Some(PathComponent::Normal(string_from_chars(piece.as_slice())))
    }
}

impl FsPath {
    /// The empty path.
    pub fn empty() -> (r: FsPath)
        ensures
            r@ == Seq::<Component>::empty(),
            rendered(r),
    {
        let r = with_components(Vec::new());
        assert(r@ =~= Seq::<Component>::empty());
        r
    }

    /// Parses the text of a path into its components, as `Path::components`
    /// does on Unix.
    pub fn parse(s: &str) -> (r: FsPath)
        ensures
            r@ == components_of(s@),
            r.text@ == s@,
            path_wf(r@),
    {
        let v = chars_of(s);
        let len = v.len();
        let mut comps: Vec<PathComponent> = Vec::new();
        let absolute = len > 0 && v[0] == '/';
        let cur = !absolute && len > 0 && v[0] == '.' && (len == 1 || v[1] == '/');
        if absolute {
            comps.push(PathComponent::RootDir);
        }
        if cur {
            comps.push(PathComponent::CurDir);
        }
        let ghost pre = comps@.map_values(|c: PathComponent| c@);
        assert(pre =~= (if starts_absolute(s@) { seq![Component::Root] } else { seq![] })
            + (if starts_with_cur_dir(s@) { seq![Component::Cur] } else { seq![] }));
        let mut piece: Vec<char> = Vec::new();
        assert(v@.subrange(0, 0) =~= Seq::<char>::empty());
        for i in 0..len
            invariant
                len == v@.len(),
                v@ == s@,
                comps@.map_values(|c: PathComponent| c@)
                    == pre + body_components(split_pieces(v@.subrange(0, i as int)).drop_last()),
                piece@ == split_pieces(v@.subrange(0, i as int)).last(),
        {
            let ghost t = v@.subrange(0, i as int);
            let ghost t1 = v@.subrange(0, i + 1);
            assert(t1.drop_last() =~= t);
            assert(t1.last() == v@[i as int]);
            proof {
                lemma_split_pieces(t);
            }
            if v[i] == '/' {
                let ghost before = comps@.map_values(|c: PathComponent| c@);
                match piece_to_component(&piece) {
                    Some(c) => {
                        comps.push(c);
                    },
                    None => {},
                }
                assert(split_pieces(t1).drop_last() =~= split_pieces(t));
                assert(split_pieces(t) =~= split_pieces(t).drop_last().push(split_pieces(t).last()));
                assert(body_components(split_pieces(t)) == body_components(split_pieces(t).drop_last())
                    + piece_component(split_pieces(t).last()));
                assert(comps@.map_values(|c: PathComponent| c@) =~= before + piece_component(piece@));
                piece = Vec::new();
                assert(piece@ =~= split_pieces(t1).last());
            } else {
                piece.push(v[i]);
                assert(split_pieces(t1).drop_last() =~= split_pieces(t).drop_last());
            }
        }
        proof {
            lemma_split_pieces(v@);
        }
        assert(v@.subrange(0, len as int) =~= v@);
        let ghost before = comps@.map_values(|c: PathComponent| c@);
        match piece_to_component(&piece) {
            Some(c) => {
                comps.push(c);
            },
            None => {},
        }
        let ghost ps = split_pieces(v@);
        assert(ps =~= ps.drop_last().push(ps.last()));
        assert(body_components(ps) == body_components(ps.drop_last()) + piece_component(ps.last()));
        assert(comps@.map_values(|c: PathComponent| c@) =~= before + piece_component(piece@));
        let r = FsPath { components: comps, text: string_from_chars(v.as_slice()) };
        assert(r@ =~= components_of(s@));
        proof {
            lemma_components_of_wf(s@);
        }
        r
    }

    /// A component-by-component copy.
    pub fn duplicate(&self) -> (r: FsPath)
        ensures
            r@ == self@,
            r.text@ == self.text@,
    {
        let mut comps: Vec<PathComponent> = Vec::new();
        for i in 0..self.components.len()
            invariant
                comps@.map_values(|c: PathComponent| c@) == self@.take(i as int),
        {
            comps.push(self.components[i].clone_component());
            assert(self@.take(i + 1) =~= self@.take(i as int).push(self@[i as int]));
            assert(comps@.map_values(|c: PathComponent| c@) =~= self@.take(i + 1));
        }
        let r = FsPath { components: comps, text: self.text.clone() };
        assert(r@ =~= self@);
        r
    }

    /// Equality by components (`Path`'s `==`).
    pub fn same_as(&self, other: &FsPath) -> (r: bool)
        ensures
            r == (self@ == other@),
    {
        let n = self.components.len();
        if n != other.components.len() {
            assert(self@.len() != other@.len());
            return false;
        }
        for i in 0..n
            invariant
                n == self@.len(),
                n == other@.len(),
                forall|j: int| 0 <= j < i ==> self@[j] == other@[j],
        {
            if !self.components[i].same_as(&other.components[i]) {
                assert(self@[i as int] != other@[i as int]);
                return false;
            }
        }
        assert(self@ =~= other@);
        true
    }

    /// The text of the path: its components pushed in order onto an empty
    /// buffer.
    pub fn render(&self) -> (r: String)
        ensures
            r@ == render(self@),
    {
        let mut s = String::new();
        for i in 0..self.components.len()
            invariant
                s@ == render(self@.take(i as int)),
        {
            let t = self.components[i].text();
            let ghost prev = s@;
            let tv = chars_of(t.as_str());
            if tv.len() > 0 && tv[0] == '/' {
                s = t;
            } else {
                let n = chars_of(s.as_str());
                if n.len() > 0 && n[n.len() - 1] != '/' {
                    push_char(&mut s, '/');
                }
                push_chars(&mut s, tv.as_slice());
            }
            assert(self@.take(i + 1).drop_last() =~= self@.take(i as int));
            assert(render(self@.take(i + 1)) =~= push_text(prev, t@));
        }
        assert(self@.take(self@.len() as int) =~= self@);
        s
    }

    /// The last component's name, if the path ends in one.
    pub fn file_name(&self) -> (r: Option<String>)
        ensures
            match r {
                Some(n) => file_name(self@) == Some(n@),
                None => file_name(self@) is None,
            },
    {
        let n = self.components.len();
        if n == 0 {
            return None;
        }
        match &self.components[n - 1] {
            PathComponent::Normal(s) => Some(s.clone()),
            _ => None,
        }
    }

    /// `Path::strip_prefix`.
    pub fn strip_prefix(&self, base: &FsPath) -> (r: Option<FsPath>)
        ensures
            match r {
                Some(rest) => strip_prefix(self@, base@) == Some(rest@) && rendered(rest),
                None => strip_prefix(self@, base@) is None,
            },
    {
        let n = self.components.len();
        let m = base.components.len();
        if m > n {
            return None;
        }
        for i in 0..m
            invariant
                n == self@.len(),
                m == base@.len(),
                m <= n,
                forall|j: int| 0 <= j < i ==> self@[j] == base@[j],
        {
            if !self.components[i].same_as(&base.components[i]) {
                assert(self@.subrange(0, m as int)[i as int] != base@[i as int]);
                return None;
            }
        }
        assert(self@.subrange(0, m as int) =~= base@);
        let mut comps: Vec<PathComponent> = Vec::new();
        for i in m..n
            invariant
                n == self@.len(),
                m <= n,
                comps@.map_values(|c: PathComponent| c@) == self@.subrange(m as int, i as int),
        {
            comps.push(self.components[i].clone_component());
            assert(self@.subrange(m as int, i + 1) =~= self@.subrange(m as int, i as int).push(self@[i as int]));
            assert(comps@.map_values(|c: PathComponent| c@) =~= self@.subrange(m as int, i + 1));
        }
        Some(with_components(comps))
    }

    /// `Path::parent`.
    pub fn parent(&self) -> (r: Option<FsPath>)
        ensures
            match r {
                Some(p) => parent(self@) == Some(p@) && rendered(p),
                None => parent(self@) is None,
            },
    {
        let n = self.components.len();
        if n == 0 {
            return None;
        }
        match &self.components[n - 1] {
            PathComponent::RootDir => {
                return None;
            },
            _ => {},
        }
        let mut comps: Vec<PathComponent> = Vec::new();
        for i in 0..n - 1
            invariant
                n == self@.len(),
                n >= 1,
                comps@.map_values(|c: PathComponent| c@) == self@.take(i as int),
        {
            comps.push(self.components[i].clone_component());
            assert(self@.take(i + 1) =~= self@.take(i as int).push(self@[i as int]));
            assert(comps@.map_values(|c: PathComponent| c@) =~= self@.take(i + 1));
        }
        let r = with_components(comps);
        assert(r@ =~= self@.drop_last());
        Some(r)
    }

    /// `PathBuf::push` of one component's text.
    pub fn pushed(&self, c: &PathComponent) -> (r: FsPath)
        ensures
            r@ == push_component(self@, c@),
            rendered(r),
    {
        match c {
            PathComponent::RootDir => {
                let mut comps: Vec<PathComponent> = Vec::new();
                comps.push(PathComponent::RootDir);
                let r = with_components(comps);
                assert(r@ =~= seq![Component::Root]);
                r
            },
            PathComponent::CurDir => {
                if self.components.len() == 0 {
                    let mut comps: Vec<PathComponent> = Vec::new();
                    comps.push(PathComponent::CurDir);
                    let r = with_components(comps);
                    assert(r@ =~= seq![Component::Cur]);
                    r
                } else {
                    let comps = self.duplicate().components;
                    let r = with_components(comps);
                    assert(r@ =~= self@);
                    r
                }
            },
            _ => {
                let mut comps = self.duplicate().components;
                let ghost before = comps@;
                comps.push(c.clone_component());
                let r = with_components(comps);
                assert(comps@ == before.push(comps@[before.len() as int]));
                assert(r@ =~= self@.push(c@));
                r
            },
        }
    }
}

/// The index of the last `'.'` in `v`.
pub fn find_last_dot(v: &[char]) -> (r: Option<usize>)
    ensures
        match r {
            Some(i) => i == last_dot(v@) && i < v@.len(),
            None => last_dot(v@) == -1,
        },
{
    let mut i = v.len();
    assert(v@.take(i as int) =~= v@);
    while i > 0
        invariant
            i <= v@.len(),
            last_dot(v@) == last_dot(v@.take(i as int)),
        decreases i,
    {
        let ghost t = v@.take(i as int);
        assert(t.drop_last() =~= v@.take(i - 1));
        if v[i - 1] == '.' {
            return Some(i - 1);
        }
        i = i - 1;
    }
    None
}

pub proof fn lemma_last_dot_range(n: Seq<char>)
    ensures
        -1 <= last_dot(n) < n.len(),
        last_dot(n) >= 0 ==> n[last_dot(n)] == '.',
        forall|k: int| last_dot(n) < k < n.len() ==> n[k] != '.',
    decreases n.len(),
{
    if n.len() > 0 {
        lemma_last_dot_range(n.drop_last());
        assert forall|k: int| last_dot(n) < k < n.len() implies n[k] != '.' by {
            if k < n.len() - 1 {
                assert(n[k] == n.drop_last()[k]);
            }
        }
    }
}

/// The stem and the extension of a file name (`Path::file_stem` and
/// `Path::extension` of a one-name path).
pub fn name_parts(name: &str) -> (r: (String, Option<String>))
    ensures
        r.0@ == name_stem(name@),
        match r.1 {
            Some(e) => name_extension(name@) == Some(e@),
            None => name_extension(name@) is None,
        },
{
    let v = chars_of(name);
    let vs = v.as_slice();
    let len = v.len();
    match find_last_dot(vs) {
        Some(i) => {
            assert(i < len);
            if i == 0 {
                (string_from_chars(v.as_slice()), None)
            } else {
                let stem = string_from_chars(&v[0..i]);
                let ext = string_from_chars(&v[i + 1..len]);
                (stem, Some(ext))
            }
        },
        None => (string_from_chars(v.as_slice()), None),
    }
}

impl FsPath {
    /// `Path::file_stem`.
    pub fn file_stem(&self) -> (r: Option<String>)
        ensures
            match r {
                Some(n) => file_stem(self@) == Some(n@),
                None => file_stem(self@) is None,
            },
    {
        match self.file_name() {
            Some(n) => Some(name_parts(n.as_str()).0),
            None => None,
        }
    }

    /// `Path::extension`.
    pub fn extension(&self) -> (r: Option<String>)
        ensures
            match r {
                Some(n) => extension(self@) == Some(n@),
                None => extension(self@) is None,
            },
    {
        match self.file_name() {
            Some(n) => name_parts(n.as_str()).1,
            None => None,
        }
    }

    /// `Path::with_extension` for an extension without separators.
    pub fn with_extension(&self, ext: &str) -> (r: FsPath)
        requires
            !ext@.contains('/'),
        ensures
            r@ == with_extension(self@, ext@),
            rendered(r),
    {
        let n = self.components.len();
        match self.file_name() {
            Some(name) => {
                let (stem, _) = name_parts(name.as_str());
                let mut new_name = stem;
                let e = chars_of(ext);
                if e.len() > 0 {
                    push_char(&mut new_name, '.');
                    push_chars(&mut new_name, e.as_slice());
                }
                let mut comps: Vec<PathComponent> = Vec::new();
                for i in 0..n - 1
                    invariant
                        n == self@.len(),
                        n >= 1,
                        comps@.map_values(|c: PathComponent| c@) == self@.take(i as int),
                {
                    comps.push(self.components[i].clone_component());
                    assert(self@.take(i + 1) =~= self@.take(i as int).push(self@[i as int]));
                    assert(comps@.map_values(|c: PathComponent| c@) =~= self@.take(i + 1));
                }
                let ghost nn = new_name@;
                assert(file_name(self@) == Some(name@));
                assert(nn =~= (if ext@.len() == 0 { name_stem(name@) } else { name_stem(name@).push('.') + ext@ }));
                let ghost before = comps@;
                comps.push(PathComponent::Normal(new_name));
                assert(comps@ == before.push(comps@[n - 1]));
                assert(comps@.map_values(|c: PathComponent| c@) =~= self@.take(n - 1).push(Component::Normal(nn)));
                let r = with_components(comps);
                assert(r@ =~= self@.update(n - 1, Component::Normal(nn)));
                r
            },
            None => {
                let comps = self.duplicate().components;
                let r = with_components(comps);
                assert(r@ =~= self@);
                r
            },
        }
    }

    /// `Path::join` with a single name.
    pub fn join_name(&self, name: String) -> (r: FsPath)
        requires
            valid_name(name@),
        ensures
            r@ == self@.push(Component::Normal(name@)),
            rendered(r),
    {
        let mut comps = self.duplicate().components;
        let ghost nn = name@;
        let ghost before = comps@;
        comps.push(PathComponent::Normal(name));
        let r = with_components(comps);
        assert(comps@ == before.push(comps@[before.len() as int]));
        assert(r@ =~= self@.push(Component::Normal(nn)));
        r
    }
}

/// What is left of a well-formed path after a prefix is well-formed.
pub proof fn lemma_strip_prefix_wf(p: Seq<Component>, base: Seq<Component>)
    requires
        path_wf(p),
        strip_prefix(p, base) is Some,
    ensures
        path_wf(strip_prefix(p, base)->Some_0),
{
    let r = strip_prefix(p, base)->Some_0;
    let b = base.len() as int;
    assert forall|i: int| 0 <= i < r.len() implies {
        &&& (#[trigger] r[i] is Root ==> i == 0)
        &&& (r[i] is Cur ==> i == 0)
        &&& (r[i] matches Component::Normal(m) ==> valid_name(m))
    } by {
        assert(r[i] == p[i + b]);
    }
}

/// Giving a well-formed path a non-empty extension without separators
/// keeps it well-formed.
pub proof fn lemma_with_extension_wf(p: Seq<Component>, ext: Seq<char>)
    requires
        path_wf(p),
        ext.len() > 0,
        !ext.contains('/'),
    ensures
        path_wf(with_extension(p, ext)),
{
    if let Some(n) = file_name(p) {
        let q = with_extension(p, ext);
        assert(p[p.len() - 1] == p.last());
        assert(valid_name(n));
        lemma_last_dot_range(n);
        let stem = name_stem(n);
        let m = stem.push('.') + ext;
        assert forall|j: int| 0 <= j < stem.len() implies stem[j] != '/' by {
            assert(stem[j] == n[j]);
        }
        assert forall|j: int| 0 <= j < m.len() implies m[j] != '/' by {
            if j < stem.len() {
                assert(m[j] == stem[j]);
            } else if j > stem.len() {
                assert(m[j] == ext[j - stem.len() - 1]);
            }
        }
        assert(stem.len() > 0);
        assert(m.len() >= 3);
        assert(m != dot());
        assert(m != dot_dot());
        assert forall|i: int| 0 <= i < q.len() implies {
            &&& (#[trigger] q[i] is Root ==> i == 0)
            &&& (q[i] is Cur ==> i == 0)
            &&& (q[i] matches Component::Normal(x) ==> valid_name(x))
        } by {
            if i < q.len() - 1 {
                assert(q[i] == p[i]);
            }
        }
    }
}

/// A relative path made of well-formed names only.
pub open spec fn relative_names(p: Seq<Component>) -> bool {
    forall|i: int| 0 <= i < p.len() ==> (#[trigger] p[i] matches Component::Normal(n) && valid_name(n))
}

/// The names of a path of names.
pub open spec fn names_of(p: Seq<Component>) -> Seq<Seq<char>> {
    p.map_values(|c: Component| c->Normal_0)
}

/// Adding text without separators extends the last piece.
proof fn lemma_split_append(s: Seq<char>, t: Seq<char>)
    requires
        !t.contains('/'),
    ensures
        split_pieces(s + t) == split_pieces(s).update(
            split_pieces(s).len() - 1,
            split_pieces(s).last() + t,
        ),
    decreases t.len(),
{
    lemma_split_pieces(s);
    let q = split_pieces(s);
    if t.len() == 0 {
        assert(s + t =~= s);
        assert(q.last() + t =~= q.last());
        assert(q.update(q.len() - 1, q.last() + t) =~= q);
    } else {
        let t0 = t.drop_last();
        assert(!t0.contains('/')) by {
            assert forall|j: int| 0 <= j < t0.len() implies t0[j] != '/' by {
                assert(t0[j] == t[j]);
            }
        }
        lemma_split_append(s, t0);
        assert((s + t).drop_last() =~= s + t0);
        assert((s + t).last() == t.last());
        assert(t.last() != '/') by {
            assert(t[t.len() - 1] == t.last());
        }
        let p = split_pieces(s + t0);
        assert(p.last() == q.last() + t0);
        assert((q.last() + t0).push(t.last()) =~= q.last() + t);
        assert(p.update(p.len() - 1, p.last().push(t.last())) =~= q.update(q.len() - 1, q.last() + t));
    }
}

/// The text of a non-empty path of names: it starts with the first name
/// and splits into the names.
proof fn lemma_render_names(p: Seq<Component>)
    requires
        relative_names(p),
        p.len() > 0,
    ensures
        render(p).len() >= names_of(p)[0].len() > 0,
        forall|j: int| 0 <= j < names_of(p)[0].len() ==> render(p)[j] == names_of(p)[0][j],
        render(p).last() != '/',
        split_pieces(render(p)) == names_of(p),
    decreases p.len(),
{
    let d = p.drop_last();
    let n = p.last()->Normal_0;
    assert(p[p.len() - 1] == p.last());
    assert(valid_name(n));
    assert(n.last() != '/') by {
        assert(n[n.len() - 1] == n.last());
    }
    assert(names_of(p) =~= names_of(d).push(n));
    if d.len() == 0 {
        assert(render(p) =~= n) by {
            assert(render(d) =~= Seq::<char>::empty());
            assert(component_text(p.last()) == n);
            assert(!(n.len() > 0 && n[0] == '/'));
        }
        lemma_split_append(Seq::<char>::empty(), n);
        assert(Seq::<char>::empty() + n =~= n);
        assert(split_pieces(Seq::<char>::empty()) =~= seq![Seq::<char>::empty()]);
        assert(Seq::<char>::empty() + n =~= n);
        assert(split_pieces(n) =~= seq![n]);
        assert(names_of(p) =~= seq![n]);
    } else {
        assert forall|i: int| 0 <= i < d.len() implies (#[trigger] d[i] matches Component::Normal(m) && valid_name(m)) by {
            assert(d[i] == p[i]);
        }
        lemma_render_names(d);
        let r = render(d);
        assert(names_of(d)[0] == names_of(p)[0]);
        assert(!(n.len() > 0 && n[0] == '/'));
        assert(render(p) == r.push('/') + n);
        lemma_split_append(r.push('/'), n);
        assert(r.push('/').drop_last() =~= r);
        assert(split_pieces(r.push('/')) == split_pieces(r).push(Seq::<char>::empty()));
        assert(Seq::<char>::empty() + n =~= n);
        assert(split_pieces(render(p)) =~= names_of(d).push(n));
        assert(render(p).last() == n.last());
        assert forall|j: int| 0 <= j < names_of(p)[0].len() implies render(p)[j] == names_of(p)[0][j] by {
            assert(render(p)[j] == r[j]);
        }
    }
}

/// The components of a sequence of names, piece by piece.
proof fn lemma_body_of_names(p: Seq<Component>)
    requires
        relative_names(p),
    ensures
        body_components(names_of(p)) == p,
    decreases p.len(),
{
    if p.len() > 0 {
        let d = p.drop_last();
        assert forall|i: int| 0 <= i < d.len() implies (#[trigger] d[i] matches Component::Normal(m) && valid_name(m)) by {
            assert(d[i] == p[i]);
        }
        lemma_body_of_names(d);
        assert(names_of(p).drop_last() =~= names_of(d));
        assert(p[p.len() - 1] == p.last());
        let n = p.last()->Normal_0;
        assert(names_of(p).last() == n);
        assert(piece_component(n) == seq![p.last()]);
        assert(d + seq![p.last()] =~= p);
    } else {
        assert(names_of(p) =~= Seq::<Seq<char>>::empty());
    }
}

/// Parsing the text of a relative path of names gives the path back.
pub proof fn lemma_parse_render(p: Seq<Component>)
    requires
        relative_names(p),
    ensures
        components_of(render(p)) == p,
{
    if p.len() == 0 {
        assert(render(p) =~= Seq::<char>::empty());
        assert(split_pieces(Seq::<char>::empty()) =~= seq![Seq::<char>::empty()]);
        let q = seq![Seq::<char>::empty()];
        assert(body_components(q) =~= Seq::<Component>::empty()) by {
            assert(q.drop_last() =~= Seq::<Seq<char>>::empty());
            assert(q.last() == Seq::<char>::empty());
            assert(piece_component(q.last()) =~= Seq::<Component>::empty());
            assert(body_components(q.drop_last()) =~= Seq::<Component>::empty());
        }
        assert(components_of(render(p)) =~= p);
    } else {
        lemma_render_names(p);
        lemma_body_of_names(p);
        let s = render(p);
        let n = names_of(p)[0];
        assert(p[0] matches Component::Normal(m) && valid_name(m));
        assert(n == p[0]->Normal_0);
        assert(s[0] == n[0]);
        assert(!starts_absolute(s)) by {
            assert(!n.contains('/'));
            assert(n[0] != '/');
        }
        assert(!starts_with_cur_dir(s)) by {
            if s[0] == '.' {
                if n.len() == 1 {
                    assert(n =~= dot());
                } else {
                    assert(s[1] == n[1]);
                    assert(n[1] != '/');
                }
            }
        }
        assert(components_of(s) =~= body_components(split_pieces(s)));
    }
}

/// The last `'.'` of a name is the one after which no other comes.
pub proof fn lemma_last_dot_at(n: Seq<char>, j: int)
    requires
        0 <= j < n.len(),
        n[j] == '.',
        forall|k: int| j < k < n.len() ==> n[k] != '.',
    ensures
        last_dot(n) == j,
    decreases n.len(),
{
    if j < n.len() - 1 {
        assert(n.last() == n[n.len() - 1]);
        let d = n.drop_last();
        assert(d[j] == n[j]);
        assert forall|k: int| j < k < d.len() implies d[k] != '.' by {
            assert(d[k] == n[k]);
        }
        lemma_last_dot_at(d, j);
    }
}

} // verus!
