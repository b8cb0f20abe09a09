//! The lexicographic order of names by code point, which is the byte order
//! of their UTF-8 text (the order of `OsStr`), and the order of paths by
//! their components (the order of `Path`).
use vstd::prelude::*;

use crate::path::{Component, FsPath, PathComponent};
use crate::text::chars_of;

verus! {

/// Distinct characters have distinct code points.
pub proof fn lemma_char_code_injective(a: char, b: char)
    requires
        a as u32 == b as u32,
    ensures
        a == b,
{
    vstd::utf8::char_u32_cast(a, a as u32);
    vstd::utf8::char_u32_cast(b, b as u32);
}

/// `a` comes strictly before `b`, comparing characters by code point and a
/// proper prefix first.
pub open spec fn seq_lt(a: Seq<char>, b: Seq<char>) -> bool
    decreases a.len(),
{
    if a.len() == 0 {
        b.len() > 0
    } else if b.len() == 0 {
        false
    } else if a[0] == b[0] {
        seq_lt(a.subrange(1, a.len() as int), b.subrange(1, b.len() as int))
    } else {
        (a[0] as u32) < (b[0] as u32)
    }
}

pub proof fn lemma_seq_lt_irreflexive(a: Seq<char>)
    ensures
        !seq_lt(a, a),
    decreases a.len(),
{
    if a.len() > 0 {
        lemma_seq_lt_irreflexive(a.subrange(1, a.len() as int));
    }
}

pub proof fn lemma_seq_lt_transitive(a: Seq<char>, b: Seq<char>, c: Seq<char>)
    requires
        seq_lt(a, b),
        seq_lt(b, c),
    ensures
        seq_lt(a, c),
    decreases a.len(),
{
    if a.len() > 0 && b.len() > 0 && c.len() > 0 {
        if a[0] == b[0] && b[0] == c[0] {
            lemma_seq_lt_transitive(
                a.subrange(1, a.len() as int),
                b.subrange(1, b.len() as int),
                c.subrange(1, c.len() as int),
            );
        } else {
            assert((a[0] as u32) <= (b[0] as u32));
            assert((b[0] as u32) <= (c[0] as u32));
            if a[0] as u32 == b[0] as u32 {
                lemma_char_code_injective(a[0], b[0]);
            }
            if b[0] as u32 == c[0] as u32 {
                lemma_char_code_injective(b[0], c[0]);
            }
            if a[0] as u32 == c[0] as u32 {
                lemma_char_code_injective(a[0], c[0]);
            }
        }
    }
}

pub proof fn lemma_seq_lt_total(a: Seq<char>, b: Seq<char>)
    requires
        a != b,
    ensures
        seq_lt(a, b) || seq_lt(b, a),
    decreases a.len(),
{
    if a.len() > 0 && b.len() > 0 {
        if a[0] == b[0] {
            let a1 = a.subrange(1, a.len() as int);
            let b1 = b.subrange(1, b.len() as int);
            if a1 == b1 {
                assert(a =~= seq![a[0]] + a1);
                assert(b =~= seq![b[0]] + b1);
            }
            lemma_seq_lt_total(a1, b1);
        } else {
            if a[0] as u32 == b[0] as u32 {
                lemma_char_code_injective(a[0], b[0]);
            }
        }
    } else if a.len() == 0 && b.len() == 0 {
        assert(a =~= b);
    }
}

/// `seq_lt` on two character slices.
pub fn chars_less(a: &[char], b: &[char]) -> (r: bool)
    ensures
        r == seq_lt(a@, b@),
{
    let n = a.len();
    let m = b.len();
    let mut i: usize = 0;
    assert(a@.subrange(0, n as int) =~= a@);
    assert(b@.subrange(0, m as int) =~= b@);
    while i < n && i < m
        invariant
            n == a@.len(),
            m == b@.len(),
            i <= n,
            i <= m,
            seq_lt(a@, b@) == seq_lt(a@.subrange(i as int, n as int), b@.subrange(i as int, m as int)),
        decreases n - i,
    {
        let ghost sa = a@.subrange(i as int, n as int);
        let ghost sb = b@.subrange(i as int, m as int);
        assert(sa[0] == a@[i as int]);
        assert(sb[0] == b@[i as int]);
        if a[i] != b[i] {
            return (a[i] as u32) < (b[i] as u32);
        }
        assert(sa.subrange(1, sa.len() as int) =~= a@.subrange(i + 1, n as int));
        assert(sb.subrange(1, sb.len() as int) =~= b@.subrange(i + 1, m as int));
        i = i + 1;
    }
    m > i
}

/// The order of the kinds of component: a root, a current directory, a
/// parent directory, then names (the declaration order of
/// `std::path::Component`).
pub open spec fn component_rank(c: Component) -> int {
    match c {
        Component::Root => 0,
        Component::Cur => 1,
        Component::Parent => 2,
        Component::Normal(_) => 3,
    }
}

/// `a` comes strictly before `b`: by kind, and two names by their text.
pub open spec fn component_lt(a: Component, b: Component) -> bool {
    match (a, b) {
        (Component::Normal(x), Component::Normal(y)) => seq_lt(x, y),
        _ => component_rank(a) < component_rank(b),
    }
}

/// `a` comes strictly before `b`, comparing paths component by component
/// and a proper prefix first.
pub open spec fn path_lt(a: Seq<Component>, b: Seq<Component>) -> bool
    decreases a.len(),
{
    if a.len() == 0 {
        b.len() > 0
    } else if b.len() == 0 {
        false
    } else if a[0] == b[0] {
        path_lt(a.subrange(1, a.len() as int), b.subrange(1, b.len() as int))
    } else {
        component_lt(a[0], b[0])
    }
}

pub proof fn lemma_component_lt_irreflexive(a: Component)
    ensures
        !component_lt(a, a),
{
    if let Component::Normal(x) = a {
        lemma_seq_lt_irreflexive(x);
    }
}

pub proof fn lemma_component_lt_transitive(a: Component, b: Component, c: Component)
    requires
        component_lt(a, b),
        component_lt(b, c),
    ensures
        component_lt(a, c),
{
    if let (Component::Normal(x), Component::Normal(y), Component::Normal(z)) = (a, b, c) {
        lemma_seq_lt_transitive(x, y, z);
    }
}

pub proof fn lemma_path_lt_irreflexive(a: Seq<Component>)
    ensures
        !path_lt(a, a),
    decreases a.len(),
{
    if a.len() > 0 {
        lemma_path_lt_irreflexive(a.subrange(1, a.len() as int));
    }
}

/// Path order is transitive.
pub proof fn lemma_path_lt_transitive(a: Seq<Component>, b: Seq<Component>, c: Seq<Component>)
    requires
        path_lt(a, b),
        path_lt(b, c),
    ensures
        path_lt(a, c),
    decreases a.len(),
{
    if a.len() > 0 && b.len() > 0 && c.len() > 0 {
        if a[0] == b[0] && b[0] == c[0] {
            lemma_path_lt_transitive(
                a.subrange(1, a.len() as int),
                b.subrange(1, b.len() as int),
                c.subrange(1, c.len() as int),
            );
        } else if a[0] == b[0] {
        } else if b[0] == c[0] {
        } else {
            lemma_component_lt_transitive(a[0], b[0], c[0]);
            if a[0] == c[0] {
                lemma_component_lt_transitive(c[0], b[0], c[0]);
                lemma_component_lt_irreflexive(c[0]);
            }
        }
    }
}

/// `component_lt` on two components.
pub fn component_less(a: &PathComponent, b: &PathComponent) -> (r: bool)
    ensures
        r == component_lt(a@, b@),
{
    match (a, b) {
        (PathComponent::Normal(x), PathComponent::Normal(y)) => {
            let xv = chars_of(x.as_str());
            let yv = chars_of(y.as_str());
            chars_less(xv.as_slice(), yv.as_slice())
        },
        _ => {
            let ra: u8 = match a {
                PathComponent::RootDir => 0,
                PathComponent::CurDir => 1,
                PathComponent::ParentDir => 2,
                PathComponent::Normal(_) => 3,
            };
            let rb: u8 = match b {
                PathComponent::RootDir => 0,
                PathComponent::CurDir => 1,
                PathComponent::ParentDir => 2,
                PathComponent::Normal(_) => 3,
            };
            ra < rb
        },
    }
}

/// `path_lt` on two paths: the order of `Path::cmp`.
pub fn path_less(a: &FsPath, b: &FsPath) -> (r: bool)
    ensures
        r == path_lt(a@, b@),
{
    let n = a.components.len();
    let m = b.components.len();
    let mut i: usize = 0;
    assert(a@.subrange(0, n as int) =~= a@);
    assert(b@.subrange(0, m as int) =~= b@);
    while i < n && i < m
        invariant
            n == a@.len(),
            m == b@.len(),
            i <= n,
            i <= m,
            path_lt(a@, b@) == path_lt(a@.subrange(i as int, n as int), b@.subrange(i as int, m as int)),
        decreases n - i,
    {
        let ghost sa = a@.subrange(i as int, n as int);
        let ghost sb = b@.subrange(i as int, m as int);
        assert(sa[0] == a@[i as int]);
        assert(sb[0] == b@[i as int]);
        if !a.components[i].same_as(&b.components[i]) {
            return component_less(&a.components[i], &b.components[i]);
        }
        assert(sa.subrange(1, sa.len() as int) =~= a@.subrange(i + 1, n as int));
        assert(sb.subrange(1, sb.len() as int) =~= b@.subrange(i + 1, m as int));
        i = i + 1;
    }
    m > i
}

} // verus!
