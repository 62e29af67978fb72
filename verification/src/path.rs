//! Paths as sequences of components, with the component-wise operations and
//! ordering that the vault and the sidebar rely on.
use vstd::prelude::*;
use vstd::relations::{sorted_by, total_ordering};

use crate::text::{chars_of, lemma_strings_view_push, strings_view};

verus! {

broadcast use lemma_strings_view_push;

/// A file-system path held as its components, in order. An absolute path
/// starts with the component `/`; the other components are the names
/// between separators.
pub struct VaultPath {
    pub components: Vec<String>,
}

impl View for VaultPath {
    type V = Seq<Seq<char>>;

    open spec fn view(&self) -> Seq<Seq<char>> {
        strings_view(self.components@)
    }
}

/// The views of a sequence of paths.
pub open spec fn path_views(v: Seq<VaultPath>) -> Seq<Seq<Seq<char>>> {
    v.map_values(|p: VaultPath| p@)
}

/// Viewing a sequence of paths commutes with appending one.
pub broadcast proof fn lemma_path_views_push(v: Seq<VaultPath>, p: VaultPath)
    ensures
        #[trigger] path_views(v.push(p)) == path_views(v).push(p@),
{
    assert(path_views(v.push(p)) =~= path_views(v).push(p@));
}

/// The root component `/`.
pub open spec fn root_component() -> Seq<char> {
    seq!['/']
}

/// A component that names a file or directory: not the root, `.` or `..`.
pub open spec fn is_normal_component(c: Seq<char>) -> bool {
    c != seq!['/'] && c != seq!['.'] && c != seq!['.', '.']
}

/// The final component of `p` when it names something.
pub open spec fn path_file_name(p: Seq<Seq<char>>) -> Option<Seq<char>> {
    if p.len() > 0 && is_normal_component(p.last()) {
        Some(p.last())
    } else {
        None
    }
}

/// `p` without its final component; none for the empty path and for a path
/// that ends in the root.
pub open spec fn path_parent(p: Seq<Seq<char>>) -> Option<Seq<Seq<char>>> {
    if p.len() > 0 && p.last() != root_component() {
        Some(p.drop_last())
    } else {
        None
    }
}

/// Whether the component at index `i` of a path may stand there: the root
/// `/` only first, anything else a non-empty name without a `/`.
pub open spec fn component_ok(c: Seq<char>, i: int) -> bool {
    (i == 0 && c == root_component()) || (c.len() > 0 && !c.contains('/'))
}

/// A well-formed path: every component may stand where it is.
pub open spec fn path_wf(p: Seq<Seq<char>>) -> bool {
    forall|i: int| 0 <= i < p.len() ==> component_ok(#[trigger] p[i], i)
}

/// Whether `p` is absolute: it starts at the root.
pub open spec fn path_is_absolute(p: Seq<Seq<char>>) -> bool {
    p.len() > 0 && p[0] == root_component()
}

/// `b` appended to `a`; an absolute `b` replaces `a`.
pub open spec fn path_join(a: Seq<Seq<char>>, b: Seq<Seq<char>>) -> Seq<Seq<char>> {
    if b.len() > 0 && b[0] == root_component() {
        b
    } else {
        a + b
    }
}

/// Whether the components of `base` are the leading components of `p`.
pub open spec fn path_starts_with(p: Seq<Seq<char>>, base: Seq<Seq<char>>) -> bool {
    base.len() <= p.len() && p.take(base.len() as int) == base
}

/// `p` relative to `base`, when `base` leads `p`.
pub open spec fn path_strip_prefix(p: Seq<Seq<char>>, base: Seq<Seq<char>>) -> Option<
    Seq<Seq<char>>,
> {
    if path_starts_with(p, base) {
        Some(p.skip(base.len() as int))
    } else {
        None
    }
}

/// The index of the last `.` in `name`, if any.
pub open spec fn last_dot(name: Seq<char>) -> Option<int>
    decreases name.len(),
{
    if name.len() == 0 {
        None
    } else if name.last() == '.' {
        Some(name.len() - 1)
    } else {
        last_dot(name.drop_last())
    }
}

/// The extension of a file name: what follows the last `.`, when that dot
/// is not the first character (and the name is not `..`).
pub open spec fn name_extension(name: Seq<char>) -> Option<Seq<char>> {
    if name == seq!['.', '.'] {
        None
    } else {
        match last_dot(name) {
            Some(k) => if k > 0 {
                Some(name.skip(k + 1))
            } else {
                None
            },
            None => None,
        }
    }
}

/// The stem of a file name: what precedes the last `.`, or the whole name
/// when it has no extension.
pub open spec fn name_stem(name: Seq<char>) -> Seq<char> {
    if name == seq!['.', '.'] {
        name
    } else {
        match last_dot(name) {
            Some(k) => if k > 0 {
                name.take(k)
            } else {
                name
            },
            None => name,
        }
    }
}

/// Lexicographic order of character sequences by code point, as `str`
/// orders them.
pub open spec fn chars_leq(a: Seq<char>, b: Seq<char>) -> bool
    decreases a.len(),
{
    if a.len() == 0 {
        true
    } else if b.len() == 0 {
        false
    } else if a[0] != b[0] {
        a[0] < b[0]
    } else {
        chars_leq(a.drop_first(), b.drop_first())
    }
}

/// Component-wise lexicographic order of paths, as `Path` orders them.
pub open spec fn path_leq(a: Seq<Seq<char>>, b: Seq<Seq<char>>) -> bool
    decreases a.len(),
{
    if a.len() == 0 {
        true
    } else if b.len() == 0 {
        false
    } else if a[0] != b[0] {
        chars_leq(a[0], b[0])
    } else {
        path_leq(a.drop_first(), b.drop_first())
    }
}

/// The path order as a relation.
pub open spec fn path_order() -> spec_fn(Seq<Seq<char>>, Seq<Seq<char>>) -> bool {
    |a: Seq<Seq<char>>, b: Seq<Seq<char>>| path_leq(a, b)
}

proof fn lemma_chars_leq_refl(a: Seq<char>)
    ensures
        chars_leq(a, a),
    decreases a.len(),
{
    if a.len() > 0 {
        lemma_chars_leq_refl(a.drop_first());
    }
}

proof fn lemma_chars_leq_antisym(a: Seq<char>, b: Seq<char>)
    requires
        chars_leq(a, b),
        chars_leq(b, a),
    ensures
        a == b,
    decreases a.len(),
{
    if a.len() > 0 && b.len() > 0 {
        lemma_chars_leq_antisym(a.drop_first(), b.drop_first());
        assert(a =~= seq![a[0]] + a.drop_first());
        assert(b =~= seq![b[0]] + b.drop_first());
    }
}

proof fn lemma_chars_leq_trans(a: Seq<char>, b: Seq<char>, c: Seq<char>)
    requires
        chars_leq(a, b),
        chars_leq(b, c),
    ensures
        chars_leq(a, c),
    decreases a.len(),
{
    if a.len() > 0 && b.len() > 0 && c.len() > 0 {
        if a[0] == b[0] && b[0] == c[0] {
            lemma_chars_leq_trans(a.drop_first(), b.drop_first(), c.drop_first());
        }
    }
}

proof fn lemma_chars_leq_total(a: Seq<char>, b: Seq<char>)
    ensures
        chars_leq(a, b) || chars_leq(b, a),
    decreases a.len(),
{
    if a.len() > 0 && b.len() > 0 && a[0] == b[0] {
        lemma_chars_leq_total(a.drop_first(), b.drop_first());
    }
}

proof fn lemma_path_leq_refl(a: Seq<Seq<char>>)
    ensures
        path_leq(a, a),
    decreases a.len(),
{
    if a.len() > 0 {
        lemma_path_leq_refl(a.drop_first());
    }
}

proof fn lemma_path_leq_antisym(a: Seq<Seq<char>>, b: Seq<Seq<char>>)
    requires
        path_leq(a, b),
        path_leq(b, a),
    ensures
        a == b,
    decreases a.len(),
{
    if a.len() > 0 && b.len() > 0 {
        if a[0] != b[0] {
            lemma_chars_leq_antisym(a[0], b[0]);
        } else {
            lemma_path_leq_antisym(a.drop_first(), b.drop_first());
            assert(a =~= seq![a[0]] + a.drop_first());
            assert(b =~= seq![b[0]] + b.drop_first());
        }
    }
}

proof fn lemma_path_leq_trans(a: Seq<Seq<char>>, b: Seq<Seq<char>>, c: Seq<Seq<char>>)
    requires
        path_leq(a, b),
        path_leq(b, c),
    ensures
        path_leq(a, c),
    decreases a.len(),
{
    if a.len() > 0 && b.len() > 0 && c.len() > 0 {
        if a[0] == b[0] && b[0] == c[0] {
            lemma_path_leq_trans(a.drop_first(), b.drop_first(), c.drop_first());
        } else if a[0] != b[0] && b[0] != c[0] {
            lemma_chars_leq_trans(a[0], b[0], c[0]);
            if a[0] == c[0] {
                lemma_chars_leq_antisym(a[0], b[0]);
            }
        }
    }
}

proof fn lemma_path_leq_total(a: Seq<Seq<char>>, b: Seq<Seq<char>>)
    ensures
        path_leq(a, b) || path_leq(b, a),
    decreases a.len(),
{
    if a.len() > 0 && b.len() > 0 {
        if a[0] == b[0] {
            lemma_path_leq_total(a.drop_first(), b.drop_first());
        } else {
            lemma_chars_leq_total(a[0], b[0]);
        }
    }
}

/// The path order is a total order.
pub proof fn lemma_path_order_total()
    ensures
        total_ordering(path_order()),
{
    assert forall|a: Seq<Seq<char>>| #[trigger] path_order()(a, a) by {
        lemma_path_leq_refl(a);
    }
    assert forall|a: Seq<Seq<char>>, b: Seq<Seq<char>>|
        #[trigger] path_order()(a, b) && #[trigger] path_order()(b, a) implies a == b by {
        lemma_path_leq_antisym(a, b);
    }
    assert forall|a: Seq<Seq<char>>, b: Seq<Seq<char>>, c: Seq<Seq<char>>|
        #[trigger] path_order()(a, b) && #[trigger] path_order()(b, c) implies path_order()(
        a,
        c,
    ) by {
        lemma_path_leq_trans(a, b, c);
    }
    assert forall|a: Seq<Seq<char>>, b: Seq<Seq<char>>|
        #[trigger] path_order()(a, b) || #[trigger] path_order()(b, a) by {
        lemma_path_leq_total(a, b);
    }
}

/// Whether `a` orders before or equal to `b`, comparing code points.
pub fn str_leq(a: &String, b: &String) -> (r: bool)
    ensures
        r == chars_leq(a@, b@),
{
    let x = chars_of(a.as_str());
    let y = chars_of(b.as_str());
    let mut i: usize = 0;
    assert(x@.skip(0) =~= x@);
    assert(y@.skip(0) =~= y@);
    while i < x.len() && i < y.len() && x[i] == y[i]
        invariant
            i <= x@.len(),
            i <= y@.len(),
            chars_leq(a@, b@) == chars_leq(x@.skip(i as int), y@.skip(i as int)),
            x@ == a@,
            y@ == b@,
        decreases x@.len() - i,
    {
        assert(x@.skip(i as int).drop_first() =~= x@.skip(i + 1));
        assert(y@.skip(i as int).drop_first() =~= y@.skip(i + 1));
        i = i + 1;
    }
    if i == x.len() {
        true
    } else if i == y.len() {
        false
    } else {
        x[i] < y[i]
    }
}

/// Whether two strings hold the same characters.
pub fn str_eq(a: &String, b: &String) -> (r: bool)
    ensures
        r == (a@ == b@),
{
    *a == *b
}

impl VaultPath {
    /// A path with the given components.
    pub fn new(components: Vec<String>) -> (p: VaultPath)
        ensures
            p.components == components,
    {
        VaultPath { components }
    }

    /// A copy of this path.
    pub fn duplicate(&self) -> (p: VaultPath)
        ensures
            p@ == self@,
    {
        let mut cs: Vec<String> = Vec::new();
        let mut i: usize = 0;
        while i < self.components.len()
            invariant
                i <= self.components@.len(),
                strings_view(cs@) == self@.take(i as int),
            decreases self.components@.len() - i,
        {
            cs.push(self.components[i].clone());
            assert(strings_view(cs@) =~= self@.take(i + 1));
            i = i + 1;
        }
        assert(self@.take(self@.len() as int) =~= self@);
        VaultPath { components: cs }
    }

    /// Whether the two paths have the same components.
    pub fn same_as(&self, other: &VaultPath) -> (r: bool)
        ensures
            r == (self@ == other@),
    {
        if self.components.len() != other.components.len() {
            assert(self@.len() != other@.len());
            return false;
        }
        let mut i: usize = 0;
        while i < self.components.len()
            invariant
                i <= self.components@.len(),
                self.components@.len() == other.components@.len(),
                forall|k: int| 0 <= k < i ==> self@[k] == other@[k],
            decreases self.components@.len() - i,
        {
            if !str_eq(&self.components[i], &other.components[i]) {
                assert(self@[i as int] != other@[i as int]);
                return false;
            }
            i = i + 1;
        }
        assert(self@ =~= other@);
        true
    }

    /// Whether this path orders before or equal to `other`.
    pub fn ordered_before_or_same(&self, other: &VaultPath) -> (r: bool)
        ensures
            r == path_leq(self@, other@),
    {
        let n = self.components.len();
        let m = other.components.len();
        let mut i: usize = 0;
        assert(self@.skip(0) =~= self@);
        assert(other@.skip(0) =~= other@);
        while i < n && i < m && str_eq(&self.components[i], &other.components[i])
            invariant
                n == self@.len(),
                m == other@.len(),
                i <= n,
                i <= m,
                path_leq(self@, other@) == path_leq(self@.skip(i as int), other@.skip(i as int)),
            decreases n - i,
        {
            assert(self@.skip(i as int).drop_first() =~= self@.skip(i + 1));
            assert(other@.skip(i as int).drop_first() =~= other@.skip(i + 1));
            i = i + 1;
        }
        if i == n {
            true
        } else if i == m {
            false
        } else {
            str_leq(&self.components[i], &other.components[i])
        }
    }

    /// The final component, when it names a file or directory.
    pub fn file_name(&self) -> (r: Option<String>)
        ensures
            match r {
                Some(n) => path_file_name(self@) == Some(n@),
                None => path_file_name(self@) is None,
            },
    {
        let n = self.components.len();
        if n == 0 {
            return None;
        }
        let last = &self.components[n - 1];
        let cs = chars_of(last.as_str());
        let is_root = cs.len() == 1 && cs[0] == '/';
        let is_cur = cs.len() == 1 && cs[0] == '.';
        let is_up = cs.len() == 2 && cs[0] == '.' && cs[1] == '.';
        proof {
            if cs@.len() == 1 {
                if cs@[0] == '/' {
                    assert(cs@ =~= seq!['/']);
                }
                if cs@[0] == '.' {
                    assert(cs@ =~= seq!['.']);
                }
            }
            if cs@.len() == 2 && cs@[0] == '.' && cs@[1] == '.' {
                assert(cs@ =~= seq!['.', '.']);
            }
        }
        if is_root || is_cur || is_up {
            None
        } else {
            Some(last.clone())
        }
    }

    /// This path without its final component.
    pub fn parent(&self) -> (r: Option<VaultPath>)
        ensures
            match r {
                Some(p) => path_parent(self@) == Some(p@),
                None => path_parent(self@) is None,
            },
    {
        let n = self.components.len();
        if n == 0 {
            return None;
        }
        let cs = chars_of(self.components[n - 1].as_str());
        if cs.len() == 1 && cs[0] == '/' {
            assert(cs@ =~= seq!['/']);
            return None;
        }
        let mut out: Vec<String> = Vec::new();
        let mut i: usize = 0;
        while i < n - 1
            invariant
                n == self@.len(),
                n > 0,
                i <= n - 1,
                strings_view(out@) == self@.take(i as int),
            decreases n - 1 - i,
        {
            out.push(self.components[i].clone());
            assert(strings_view(out@) =~= self@.take(i + 1));
            i = i + 1;
        }
        assert(self@.take(n - 1) =~= self@.drop_last());
        Some(VaultPath { components: out })
    }

    /// `other` appended to this path; an absolute `other` replaces it.
    pub fn join(&self, other: &VaultPath) -> (r: VaultPath)
        ensures
            r@ == path_join(self@, other@),
    {
        if other.components.len() > 0 {
            let cs = chars_of(other.components[0].as_str());
            if cs.len() == 1 && cs[0] == '/' {
                assert(cs@ =~= seq!['/']);
                return other.duplicate();
            }
            proof {
                if other@[0] == root_component() {
                    assert(cs@[0] == '/');
                }
            }
        }
        let mut out = self.duplicate().components;
        let mut i: usize = 0;
        while i < other.components.len()
            invariant
                i <= other@.len(),
                strings_view(out@) == self@ + other@.take(i as int),
            decreases other@.len() - i,
        {
            out.push(other.components[i].clone());
            assert(strings_view(out@) =~= self@ + other@.take(i + 1));
            i = i + 1;
        }
        assert(other@.take(other@.len() as int) =~= other@);
        VaultPath { components: out }
    }

    /// Whether `base` leads this path, component by component.
    pub fn starts_with(&self, base: &VaultPath) -> (r: bool)
        ensures
            r == path_starts_with(self@, base@),
    {
        if base.components.len() > self.components.len() {
            return false;
        }
        let mut i: usize = 0;
        while i < base.components.len()
            invariant
                base@.len() <= self@.len(),
                i <= base@.len(),
                forall|k: int| 0 <= k < i ==> self@[k] == base@[k],
            decreases base@.len() - i,
        {
            if !str_eq(&self.components[i], &base.components[i]) {
                assert(self@.take(base@.len() as int)[i as int] != base@[i as int]);
                return false;
            }
            i = i + 1;
        }
        assert(self@.take(base@.len() as int) =~= base@);
        true
    }

    /// This path relative to `base`, when `base` leads it.
    pub fn strip_prefix(&self, base: &VaultPath) -> (r: Option<VaultPath>)
        ensures
            match r {
                Some(p) => path_strip_prefix(self@, base@) == Some(p@),
                None => path_strip_prefix(self@, base@) is None,
            },
    {
        if !self.starts_with(base) {
            return None;
        }
        let k = base.components.len();
        let mut out: Vec<String> = Vec::new();
        let mut i: usize = k;
        while i < self.components.len()
            invariant
                k == base@.len(),
                k <= i <= self@.len(),
                strings_view(out@) == self@.subrange(k as int, i as int),
            decreases self@.len() - i,
        {
            out.push(self.components[i].clone());
            assert(strings_view(out@) =~= self@.subrange(k as int, i + 1));
            i = i + 1;
        }
        assert(self@.subrange(k as int, self@.len() as int) =~= self@.skip(k as int));
        Some(VaultPath { components: out })
    }
}

} // verus!

verus! {

/// The paths of `v` in path order.
pub open spec fn sorted_paths(v: Seq<Seq<Seq<char>>>) -> Seq<Seq<Seq<char>>> {
    v.sort_by(path_order())
}

/// A sorted sequence with the same elements as `v` is `v` sorted.
pub proof fn lemma_sorted_is_sort(s: Seq<Seq<Seq<char>>>, v: Seq<Seq<Seq<char>>>)
    requires
        sorted_by(s, path_order()),
        s.to_multiset() == v.to_multiset(),
    ensures
        s == sorted_paths(v),
{
    lemma_path_order_total();
    v.lemma_sort_by_ensures(path_order());
    vstd::seq_lib::lemma_sorted_unique(s, sorted_paths(v), path_order());
}

/// `v` sorted into path order.
pub fn sort_paths(v: &Vec<VaultPath>) -> (r: Vec<VaultPath>)
    ensures
        path_views(r@) == sorted_paths(path_views(v@)),
{
    broadcast use vstd::seq_lib::group_to_multiset_ensures, vstd::multiset::group_multiset_axioms;

    let mut out: Vec<VaultPath> = Vec::new();
    let mut i: usize = 0;
    proof {
        lemma_path_order_total();
    }
    while i < v.len()
        invariant
            i <= v@.len(),
            total_ordering(path_order()),
            sorted_by(path_views(out@), path_order()),
            path_views(out@).to_multiset() == path_views(v@.take(i as int)).to_multiset(),
        decreases v@.len() - i,
    {
        let x = v[i].duplicate();
        let mut j: usize = 0;
        while j < out.len() && out[j].ordered_before_or_same(&x)
            invariant
                j <= out@.len(),
                forall|k: int| 0 <= k < j ==> path_leq(#[trigger] out@[k]@, x@),
            decreases out@.len() - j,
        {
            j = j + 1;
        }
        let ghost before = path_views(out@);
        out.insert(j, x);
        proof {
            let after = path_views(out@);
            assert(after =~= before.insert(j as int, x@));
            assert forall|a: int, b: int| 0 <= a < b < after.len() implies #[trigger] path_order()(
                after[a],
                after[b],
            ) by {
                if b < j {
                    assert(path_order()(before[a], before[b]));
                } else if b == j {
                } else if a < j {
                    assert(path_leq(before[a], x@));
                    assert(!path_leq(before[j as int], x@));
                    lemma_path_leq_total(x@, before[j as int]);
                    assert(path_order()(x@, before[j as int]));
                    if b - 1 > j {
                        assert(path_order()(before[j as int], before[b - 1]));
                    }
                } else if a == j {
                    assert(!path_leq(before[j as int], x@));
                    lemma_path_leq_total(x@, before[j as int]);
                    assert(path_order()(x@, before[j as int]));
                    if b - 1 > j {
                        assert(path_order()(before[j as int], before[b - 1]));
                    }
                } else {
                    assert(path_order()(before[a - 1], before[b - 1]));
                }
            }
            assert(after.remove(j as int) =~= before);
            assert(after[j as int] == x@);
            assert(after.contains(x@));
            after.to_multiset_ensures();
            assert(after.remove(j as int).to_multiset() =~= after.to_multiset().remove(x@));
            assert(after.to_multiset().count(x@) > 0);
            assert(path_views(v@.take(i + 1)) =~= path_views(v@.take(i as int)).push(v@[i as int]@));
            assert(after.to_multiset() =~= before.to_multiset().insert(x@));
            path_views(v@.take(i as int)).to_multiset_ensures();
            assert(x@ == v@[i as int]@);
        }
        i = i + 1;
    }
    proof {
        assert(v@.take(v@.len() as int) =~= v@);
        lemma_sorted_is_sort(path_views(out@), path_views(v@));
    }
    out
}

} // verus!

verus! {

/// The index of the last `.` in `cs`.
pub fn last_dot_index(cs: &[char]) -> (r: Option<usize>)
    ensures
        match r {
            Some(k) => last_dot(cs@) == Some(k as int) && k < cs@.len() && cs@[k as int] == '.',
            None => last_dot(cs@) is None,
        },
{
    let mut j = cs.len();
    assert(cs@.take(j as int) =~= cs@);
    while j > 0
        invariant
            j <= cs@.len(),
            last_dot(cs@) == last_dot(cs@.take(j as int)),
        decreases j,
    {
        assert(cs@.take(j as int).last() == cs@[j - 1]);
        if cs[j - 1] == '.' {
            return Some(j - 1);
        }
        assert(cs@.take(j as int).drop_last() =~= cs@.take(j - 1));
        j = j - 1;
    }
    None
}

/// Whether `cs` is `..`.
fn is_dot_dot(cs: &[char]) -> (b: bool)
    ensures
        b == (cs@ == seq!['.', '.']),
{
    if cs.len() == 2 && cs[0] == '.' && cs[1] == '.' {
        assert(cs@ =~= seq!['.', '.']);
        true
    } else {
        false
    }
}

/// The extension of a file name, as `Path::extension` takes it.
pub fn file_name_extension(name: &str) -> (r: Option<String>)
    ensures
        match r {
            Some(e) => name_extension(name@) == Some(e@),
            None => name_extension(name@) is None,
        },
{
    let cs = chars_of(name);
    if is_dot_dot(cs.as_slice()) {
        return None;
    }
    match last_dot_index(cs.as_slice()) {
        Some(k) => if k > 0 {
            let mut out = String::new();
            let mut i = k + 1;
            while i < cs.len()
                invariant
                    k + 1 <= i <= cs@.len(),
                    out@ == cs@.subrange(k + 1, i as int),
                decreases cs@.len() - i,
            {
                crate::text::push_char(&mut out, cs[i]);
                assert(cs@.subrange(k + 1, i + 1) =~= cs@.subrange(k + 1, i as int).push(cs@[i as int]));
                i = i + 1;
            }
            assert(cs@.subrange(k + 1, cs@.len() as int) =~= cs@.skip(k + 1));
            Some(out)
        } else {
            None
        },
        None => None,
    }
}

/// The stem of a file name, as `Path::file_stem` takes it.
pub fn file_name_stem(name: &str) -> (r: String)
    ensures
        r@ == name_stem(name@),
{
    let cs = chars_of(name);
    if is_dot_dot(cs.as_slice()) {
        return crate::text::string_from_chars(cs.as_slice());
    }
    match last_dot_index(cs.as_slice()) {
        Some(k) => if k > 0 {
            let r = crate::text::string_from_chars(&cs[0..k]);
            assert(cs@.subrange(0, k as int) =~= cs@.take(k as int));
            r
        } else {
            crate::text::string_from_chars(cs.as_slice())
        },
        None => crate::text::string_from_chars(cs.as_slice()),
    }
}

impl VaultPath {
    /// The stem of the file name, when the path has one.
    pub fn file_stem(&self) -> (r: Option<String>)
        ensures
            match r {
                Some(s) => path_file_name(self@) matches Some(n) && s@ == name_stem(n),
                None => path_file_name(self@) is None,
            },
    {
        match self.file_name() {
            Some(n) => Some(file_name_stem(n.as_str())),
            None => None,
        }
    }

    /// The extension of the file name, when there is one.
    pub fn extension(&self) -> (r: Option<String>)
        ensures
            match r {
                Some(e) => path_file_name(self@) matches Some(n) && name_extension(n) == Some(e@),
                None => match path_file_name(self@) {
                    Some(n) => name_extension(n) is None,
                    None => true,
                },
            },
    {
        match self.file_name() {
            Some(n) => file_name_extension(n.as_str()),
            None => None,
        }
    }
}

} // verus!
