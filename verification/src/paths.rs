//! Paths of a scan. A path is a root (`"/"`, a drive, or nothing for a relative
//! path), the names that lead down from it, and the mark that stands between
//! the names where the path is written out. Folder totals are folded along
//! these names, so the library keeps them apart instead of parsing text.

use crate::order::lemma_lex_irreflexive;
use crate::order::lemma_lex_total;
use crate::order::lemma_lex_transitive;
use crate::order::lex_lt;
use crate::order::lex_witness;
use crate::order::strict_total;
use crate::text::lemma_text_order_strict_total;
use crate::text::str_equals;
use crate::text::str_less;
use crate::text::text_lt;
use crate::text::text_order;
use vstd::prelude::*;
use vstd::string::StringExecFns;

verus! {

/// What stands between the names of a path where it is written out: `/`,
/// or `\` as on Windows.
#[derive(Clone, Copy, Debug, PartialEq, Eq, Structural)]
pub enum PathSeparator {
    Slash,
    Backslash,
}

impl PathSeparator {
    /// The character of the separator.
    pub open spec fn mark(self) -> char {
        match self {
            PathSeparator::Slash => '/',
            PathSeparator::Backslash => '\\',
        }
    }

    /// `self` comes strictly before `other`, as their characters do.
    pub open spec fn lt(self, other: PathSeparator) -> bool {
        self == PathSeparator::Slash && other == PathSeparator::Backslash
    }
}

/// A path as the contracts speak of it.
#[verifier::ext_equal]
pub struct PathModel {
    pub root: Seq<char>,
    pub separator: PathSeparator,
    pub parts: Seq<Seq<char>>,
}

impl PathModel {
    /// The number of names below the root.
    pub open spec fn depth(self) -> nat {
        self.parts.len()
    }

    /// The path without its last name; the root alone has no parent.
    pub open spec fn parent(self) -> Option<PathModel> {
        if self.parts.len() > 0 {
            Some(
                PathModel {
                    root: self.root,
                    separator: self.separator,
                    parts: self.parts.drop_last(),
                },
            )
        } else {
            None
        }
    }

    /// The path one name further down.
    pub open spec fn child(self, name: Seq<char>) -> PathModel {
        PathModel { root: self.root, separator: self.separator, parts: self.parts.push(name) }
    }

    /// `self` is `ancestor` or lies anywhere below it.
    pub open spec fn is_within(self, ancestor: PathModel) -> bool {
        self.root == ancestor.root && self.separator == ancestor.separator
            && ancestor.parts.is_prefix_of(self.parts)
    }

    /// The last name, or the root where there is none.
    pub open spec fn name(self) -> Seq<char> {
        if self.parts.len() > 0 {
            self.parts.last()
        } else {
            self.root
        }
    }

    /// `self` comes strictly before `other`: by root first, then by
    /// separator, then name by name.
    pub open spec fn lt(self, other: PathModel) -> bool {
        text_lt(self.root, other.root) || (self.root == other.root && (self.separator.lt(
            other.separator,
        ) || (self.separator == other.separator && lex_lt(
            text_order(),
            self.parts,
            other.parts,
        ))))
    }

    /// The path written out: the root, then the names with the separator
    /// of the path between them.
    pub open spec fn text(self) -> Seq<char> {
        self.root + joined(self.parts, self.separator.mark())
    }
}

/// The names with `mark` between them.
pub open spec fn joined(parts: Seq<Seq<char>>, mark: char) -> Seq<char>
    decreases parts.len(),
{
    if parts.len() == 0 {
        Seq::empty()
    } else if parts.len() == 1 {
        parts[0]
    } else {
        joined(parts.drop_last(), mark) + seq![mark] + parts.last()
    }
}

/// Every path lies within itself.
pub proof fn lemma_within_reflexive(p: PathModel)
    ensures
        p.is_within(p),
{
}

/// What lies within a folder lies within every folder that one lies within.
pub proof fn lemma_within_transitive(p: PathModel, q: PathModel, r: PathModel)
    requires
        p.is_within(q),
        q.is_within(r),
    ensures
        p.is_within(r),
{
}

/// A path lies within a folder exactly when it is that folder or its parent
/// lies within it.
pub proof fn lemma_within_by_parent(p: PathModel, ancestor: PathModel)
    ensures
        p.is_within(ancestor) <==> (p == ancestor || (p.parent() is Some
            && p.parent()->0.is_within(ancestor))),
{
    if p.is_within(ancestor) && p != ancestor {
        if ancestor.parts.len() == p.parts.len() {
            assert(ancestor.parts =~= p.parts);
            assert(p =~= ancestor);
        }
        assert(ancestor.parts.is_prefix_of(p.parts.drop_last()));
    }
    if p.parent() is Some && p.parent()->0.is_within(ancestor) {
        assert(ancestor.parts.is_prefix_of(p.parts));
    }
}

/// No path comes before itself.
pub proof fn lemma_path_lt_irreflexive(p: PathModel)
    ensures
        !p.lt(p),
{
    lemma_text_order_strict_total();
    lemma_lex_irreflexive(text_order(), p.parts);
    let order = text_order();
    assert(!order(p.root, p.root));
}

/// The order of paths is transitive.
pub proof fn lemma_path_lt_transitive(p: PathModel, q: PathModel, r: PathModel)
    requires
        p.lt(q),
        q.lt(r),
    ensures
        p.lt(r),
{
    lemma_text_order_strict_total();
    let order = text_order();
    if text_lt(p.root, q.root) && text_lt(q.root, r.root) {
        assert(order(p.root, q.root) && order(q.root, r.root));
        assert(order(p.root, r.root));
    } else if p.root == q.root && q.root == r.root {
        if p.separator == q.separator && q.separator == r.separator {
            lemma_lex_transitive(text_order(), p.parts, q.parts, r.parts);
        }
    }
}

/// Of two different paths one comes before the other.
pub proof fn lemma_path_lt_total(p: PathModel, q: PathModel)
    ensures
        p == q || p.lt(q) || q.lt(p),
{
    lemma_text_order_strict_total();
    let order = text_order();
    if p.root == q.root {
        if p.separator == q.separator {
            lemma_lex_total(text_order(), p.parts, q.parts);
            if p.parts == q.parts {
                assert(p =~= q);
            }
        }
    } else {
        assert(order(p.root, q.root) || order(q.root, p.root));
    }
}

/// What lies below a folder comes after it.
pub proof fn lemma_within_comes_after(p: PathModel, ancestor: PathModel)
    requires
        p.is_within(ancestor),
        p != ancestor,
    ensures
        ancestor.lt(p),
{
    if ancestor.parts.len() == p.parts.len() {
        assert(ancestor.parts =~= p.parts);
        assert(p =~= ancestor);
    }
    assert(lex_witness(text_order(), ancestor.parts, p.parts, ancestor.parts.len() as int));
}

/// In the order of paths a folder is followed at once by all that lies
/// below it: what stands between a folder and something below it lies below
/// the folder too.
pub proof fn lemma_subtree_is_contiguous(folder: PathModel, between: PathModel, below: PathModel)
    requires
        folder.lt(between),
        between.lt(below),
        below.is_within(folder),
    ensures
        between.is_within(folder),
{
    lemma_text_order_strict_total();
    let order = text_order();
    assert(!order(folder.root, folder.root));
    if text_lt(folder.root, between.root) {
        assert(order(folder.root, between.root));
        if text_lt(between.root, below.root) {
            assert(order(between.root, folder.root));
            assert(order(folder.root, folder.root));
        }
    }
    assert(folder.root == between.root);
    assert(folder.separator == between.separator);
    let p = folder.parts;
    let m = between.parts;
    let k = below.parts;
    let k1 = choose|i: int| #[trigger] lex_witness(text_order(), p, m, i);
    let k2 = choose|i: int| #[trigger] lex_witness(text_order(), m, k, i);
    if k1 < p.len() {
        assert(order(p[k1], m[k1]));
        assert(k[k1] == p[k1]);
        assert(!order(p[k1], p[k1]));
        if k2 < k1 {
            assert(m[k2] == p[k2]);
            assert(k[k2] == p[k2]);
            assert(!order(p[k2], p[k2]));
        } else if k2 == k1 {
            assert(order(m[k1], p[k1]));
            assert(order(p[k1], p[k1]));
        } else {
            assert(m[k1] == k[k1]);
        }
        assert(false);
    }
    assert(m.subrange(0, p.len() as int) =~= p);
}

/// How one path stands to another in the order of paths.
#[derive(Clone, Copy, Debug, PartialEq, Eq, Structural)]
pub enum PathRelation {
    Before,
    Same,
    After,
}

/// A path of a scan.
#[derive(Debug)]
pub struct ScanPath {
    /// Where the path starts: `"/"`, a drive, or nothing for a relative path.
    pub root: String,
    /// What stands between the names where the path is written out.
    pub separator: PathSeparator,
    /// The names below the root, outermost first.
    pub components: Vec<String>,
}

impl View for ScanPath {
    type V = PathModel;

    open spec fn view(&self) -> PathModel {
        PathModel {
            root: self.root@,
            separator: self.separator,
            parts: Seq::new(self.components@.len(), |i: int| self.components@[i]@),
        }
    }
}

impl ScanPath {
    /// A path from its root and the names below it, written with `/`.
    pub fn new(root: String, components: Vec<String>) -> (path: ScanPath)
        ensures
            path.root == root,
            path.separator == PathSeparator::Slash,
            path.components == components,
    {
        ScanPath { root, separator: PathSeparator::Slash, components }
    }

    /// A path from its root and the names below it, written with
    /// `separator` between the names.
    pub fn with_separator(root: String, separator: PathSeparator, components: Vec<String>) -> (path:
        ScanPath)
        ensures
            path.root == root,
            path.separator == separator,
            path.components == components,
    {
        ScanPath { root, separator, components }
    }

    /// The number of names below the root.
    pub fn depth(&self) -> (depth: usize)
        ensures
            depth == self@.depth(),
    {
        self.components.len()
    }

    /// A copy of the first `count` names.
    fn leading_names(&self, count: usize) -> (names: Vec<String>)
        requires
            count <= self.components@.len(),
        ensures
            names@.len() == count,
            forall|i: int| 0 <= i < count ==> names@[i]@ == self.components@[i]@,
    {
        let mut names: Vec<String> = Vec::new();
        let mut i: usize = 0;
        while i < count
            invariant
                i <= count,
                count <= self.components@.len(),
                names@.len() == i,
                forall|k: int| 0 <= k < i ==> names@[k]@ == self.components@[k]@,
            decreases count - i,
        {
            names.push(self.components[i].clone());
            i += 1;
        }
        names
    }

    /// A copy of this path.
    pub fn duplicate(&self) -> (copy: ScanPath)
        ensures
            copy@ == self@,
    {
        let copy = ScanPath {
            root: self.root.clone(),
            separator: self.separator,
            components: self.leading_names(self.components.len()),
        };
        assert(copy@ =~= self@);
        copy
    }

    /// The path without its last name, or `None` for a root alone.
    pub fn parent(&self) -> (parent: Option<ScanPath>)
        ensures
            match parent {
                Some(p) => self@.parent() == Some(p@),
                None => self@.parent() is None,
            },
    {
        let n = self.components.len();
        if n == 0 {
            None
        } else {
            let p = ScanPath {
                root: self.root.clone(),
                separator: self.separator,
                components: self.leading_names(n - 1),
            };
            assert(p@ =~= self@.parent()->0);
            Some(p)
        }
    }

    /// The path one name further down.
    pub fn join(&self, name: &str) -> (child: ScanPath)
        ensures
            child@ == self@.child(name@),
    {
        let mut components = self.leading_names(self.components.len());
        components.push(String::from_str(name));
        let child = ScanPath { root: self.root.clone(), separator: self.separator, components };
        assert(child@ =~= self@.child(name@));
        child
    }

    /// The last name, or the root where there is none.
    pub fn file_name(&self) -> (name: String)
        ensures
            name@ == self@.name(),
    {
        let n = self.components.len();
        if n == 0 {
            self.root.clone()
        } else {
            self.components[n - 1].clone()
        }
    }

    /// Whether two paths are the same.
    pub fn same_as(&self, other: &ScanPath) -> (same: bool)
        ensures
            same == (self@ == other@),
    {
        if !str_equals(self.root.as_str(), other.root.as_str()) {
            return false;
        }
        if self.separator != other.separator {
            return false;
        }
        let n = self.components.len();
        if n != other.components.len() {
            assert(self@.parts.len() != other@.parts.len());
            return false;
        }
        let mut i: usize = 0;
        while i < n
            invariant
                i <= n,
                n == self.components@.len(),
                n == other.components@.len(),
                forall|k: int| 0 <= k < i ==> self@.parts[k] == other@.parts[k],
            decreases n - i,
        {
            if !str_equals(self.components[i].as_str(), other.components[i].as_str()) {
                assert(self@.parts[i as int] != other@.parts[i as int]);
                return false;
            }
            i += 1;
        }
        assert(self@ =~= other@);
        true
    }

    /// Whether this path is `ancestor` or lies anywhere below it.
    pub fn is_within(&self, ancestor: &ScanPath) -> (within: bool)
        ensures
            within == self@.is_within(ancestor@),
    {
        if !str_equals(self.root.as_str(), ancestor.root.as_str()) {
            return false;
        }
        if self.separator != ancestor.separator {
            return false;
        }
        let n = ancestor.components.len();
        if n > self.components.len() {
            return false;
        }
        let mut i: usize = 0;
        while i < n
            invariant
                i <= n,
                n == ancestor.components@.len(),
                n <= self.components@.len(),
                forall|k: int| 0 <= k < i ==> self@.parts[k] == ancestor@.parts[k],
            decreases n - i,
        {
            if !str_equals(self.components[i].as_str(), ancestor.components[i].as_str()) {
                assert(self@.parts[i as int] != ancestor@.parts[i as int]);
                assert(self@.parts.subrange(0, n as int)[i as int] == self@.parts[i as int]);
                return false;
            }
            i += 1;
        }
        assert(self@.parts.subrange(0, n as int) =~= ancestor@.parts);
        true
    }

    /// How this path stands to `other`: before it, the same, or after it.
    pub fn relation(&self, other: &ScanPath) -> (relation: PathRelation)
        ensures
            relation == PathRelation::Before <==> self@.lt(other@),
            relation == PathRelation::Same <==> self@ == other@,
            relation == PathRelation::After <==> other@.lt(self@),
    {
        proof {
            lemma_text_order_strict_total();
            lemma_path_lt_total(self@, other@);
            lemma_path_lt_irreflexive(self@);
            if self@.lt(other@) && other@.lt(self@) {
                lemma_path_lt_transitive(self@, other@, self@);
            }
        }
        let ghost order = text_order();
        if !str_equals(self.root.as_str(), other.root.as_str()) {
            let less = str_less(self.root.as_str(), other.root.as_str());
            return if less {
                PathRelation::Before
            } else {
                PathRelation::After
            };
        }
        assert(!order(self@.root, other@.root));
        if self.separator != other.separator {
            return match self.separator {
                PathSeparator::Slash => PathRelation::Before,
                PathSeparator::Backslash => PathRelation::After,
            };
        }
        let n: usize = if self.components.len() < other.components.len() {
            self.components.len()
        } else {
            other.components.len()
        };
        let mut i: usize = 0;
        while i < n
            invariant
                i <= n,
                n <= self.components@.len(),
                n <= other.components@.len(),
                n == self.components@.len() || n == other.components@.len(),
                strict_total(text_order()),
                self@.root == other@.root,
                self@.separator == other@.separator,
                !text_lt(self@.root, other@.root),
                self@ == other@ || self@.lt(other@) || other@.lt(self@),
                !(self@.lt(other@) && other@.lt(self@)),
                !self@.lt(self@),
                forall|k: int| 0 <= k < i ==> self@.parts[k] == other@.parts[k],
            decreases n - i,
        {
            let a = self.components[i].as_str();
            let b = other.components[i].as_str();
            if !str_equals(a, b) {
                let less = str_less(a, b);
                proof {
                    let x = self@.parts;
                    let y = other@.parts;
                    let order = text_order();
                    assert(x[i as int] == a@ && y[i as int] == b@);
                    if less {
                        assert(order(x[i as int], y[i as int]));
                        assert(lex_witness(text_order(), x, y, i as int));
                    } else {
                        assert forall|k: int| !#[trigger] lex_witness(text_order(), x, y, k) by {
                            if lex_witness(text_order(), x, y, k) {
                                if k < i {
                                    assert(x[k] == y[k]);
                                    assert(!order(x[k], x[k]));
                                } else if k > i {
                                    assert(x[i as int] == y[i as int]);
                                }
                            }
                        }
                        assert(self@ != other@);
                    }
                }
                return if less {
                    PathRelation::Before
                } else {
                    PathRelation::After
                };
            }
            i += 1;
        }
        proof {
            let x = self@.parts;
            let y = other@.parts;
            let order = text_order();
            if x.len() < y.len() {
                assert(lex_witness(text_order(), x, y, n as int));
            } else {
                assert forall|k: int| !#[trigger] lex_witness(text_order(), x, y, k) by {
                    if lex_witness(text_order(), x, y, k) {
                        if k < n {
                            assert(x[k] == y[k]);
                            assert(!order(x[k], x[k]));
                        }
                    }
                }
                if x.len() == y.len() {
                    assert(self@ =~= other@);
                } else {
                    assert(self@ != other@);
                }
            }
        }
        if self.components.len() < other.components.len() {
            PathRelation::Before
        } else if self.components.len() == other.components.len() {
            PathRelation::Same
        } else {
            PathRelation::After
        }
    }

    /// Whether this path comes strictly before `other`.
    pub fn precedes(&self, other: &ScanPath) -> (before: bool)
        ensures
            before == self@.lt(other@),
    {
        match self.relation(other) {
            PathRelation::Before => true,
            _ => false,
        }
    }

    /// The path written out: the root, then the names with the separator
    /// of the path between them.
    pub fn to_text(&self) -> (text: String)
        ensures
            text@ == self@.text(),
    {
        let ghost mark = self@.separator.mark();
        let mut text = self.root.clone();
        let n = self.components.len();
        let mut i: usize = 0;
        while i < n
            invariant
                i <= n,
                n == self.components@.len(),
                mark == self@.separator.mark(),
                text@ == self@.root + joined(self@.parts.subrange(0, i as int), mark),
            decreases n - i,
        {
            let ghost before = text@;
            if i > 0 {
                match self.separator {
                    PathSeparator::Slash => {
                        text.append("/");
                    },
                    PathSeparator::Backslash => {
                        text.append("\\");
                    },
                }
            }
            proof {
                reveal_strlit("/");
                reveal_strlit("\\");
                assert("/"@ =~= seq!['/']);
                assert("\\"@ =~= seq!['\\']);
                if i > 0 {
                    assert(text@ =~= before + seq![mark]);
                }
            }
            text.append(self.components[i].as_str());
            proof {
                let parts = self@.parts.subrange(0, i + 1);
                assert(parts.drop_last() =~= self@.parts.subrange(0, i as int));
                assert(parts.last() == self.components@[i as int]@);
                if i == 0 {
                    assert(joined(parts, mark) =~= parts[0]);
                    assert(joined(parts.drop_last(), mark) =~= Seq::<char>::empty());
                    assert(text@ =~= self@.root + joined(parts, mark));
                } else {
                    assert(text@ =~= self@.root + joined(parts, mark));
                }
            }
            i += 1;
        }
        assert(self@.parts.subrange(0, n as int) =~= self@.parts);
        text
    }
}

} // verus!
