use crate::error::TranspileError;
use crate::error::ErrorKind;
use crate::text::lemma_lex_total;
use crate::text::lemma_lex_transitive;
use crate::text::lemma_lex_irreflexive;
use crate::text::lex_lt;
use crate::text::segments;
use crate::text::split_path;
use crate::text::str_lt;
use crate::text::views;
use vstd::prelude::*;
use vstd::string::*;

verus! {

/// The mathematical value of a module tree: its children, each under its
/// path segment, and the text attached to the node itself.
pub struct ModuleModel {
    pub children: Seq<(Seq<char>, ModuleModel)>,
    pub contents: Seq<char>,
}

impl ModuleModel {
    /// The tree with no children and no text.
    pub open spec fn empty() -> ModuleModel {
        ModuleModel { children: Seq::empty(), contents: Seq::empty() }
    }

    /// Children stand in strictly increasing lexicographic order of their
    /// segments, at every level. So no segment occurs twice under one node.
    pub open spec fn wf(self) -> bool
        decreases self,
    {
        &&& forall|i: int, j: int|
            0 <= i < j < self.children.len() ==> lex_lt(
                #[trigger] self.children[i].0,
                #[trigger] self.children[j].0,
            )
        &&& forall|i: int|
            0 <= i < self.children.len() ==> (#[trigger] self.children[i]).1.wf()
    }

    /// The first index at or after `from` whose child does not come before
    /// `name`; the number of children if there is none.
    pub open spec fn slot_from(self, name: Seq<char>, from: int) -> int
        decreases self.children.len() - from,
    {
        if 0 <= from < self.children.len() && lex_lt(self.children[from].0, name) {
            self.slot_from(name, from + 1)
        } else {
            from
        }
    }

    /// Where the child named `name` stands, or would stand.
    pub open spec fn slot(self, name: Seq<char>) -> int {
        self.slot_from(name, 0)
    }

    /// Whether a child named `name` exists.
    pub open spec fn has_child(self, name: Seq<char>) -> bool {
        self.slot(name) < self.children.len() && self.children[self.slot(name)].0 == name
    }

    /// The tree after `contents` was attached at `path`: missing nodes on the
    /// way are created without text, the last node's text is replaced, and
    /// nothing else changes.
    pub open spec fn inserted(self, path: Seq<Seq<char>>, contents: Seq<char>) -> ModuleModel
        decreases path.len(),
    {
        if path.len() == 0 {
            ModuleModel { children: self.children, contents }
        } else {
            let name = path[0];
            let i = self.slot(name);
            if self.has_child(name) {
                ModuleModel {
                    children: self.children.update(
                        i,
                        (name, self.children[i].1.inserted(path.drop_first(), contents)),
                    ),
                    contents: self.contents,
                }
            } else {
                ModuleModel {
                    children: self.children.insert(
                        i,
                        (name, Self::empty().inserted(path.drop_first(), contents)),
                    ),
                    contents: self.contents,
                }
            }
        }
    }

    /// The text attached at `path`, if a node stands there.
    pub open spec fn contents_at(self, path: Seq<Seq<char>>) -> Option<Seq<char>>
        decreases path.len(),
    {
        if path.len() == 0 {
            Some(self.contents)
        } else if self.has_child(path[0]) {
            self.children[self.slot(path[0])].1.contents_at(path.drop_first())
        } else {
            None
        }
    }

    /// The text of the first `n` children: each as a named block around its
    /// own serialization, each followed by a line break.
    pub open spec fn rendered(self, n: nat) -> Seq<char>
        decreases self, n,
    {
        if n == 0 || n > self.children.len() {
            Seq::empty()
        } else {
            let child = self.children[n - 1];
            self.rendered((n - 1) as nat) + "pub mod "@ + child.0 + " {\n"@ + (child.1.rendered(
                child.1.children.len(),
            ) + child.1.contents) + "\n}"@ + "\n"@
        }
    }

    /// The whole text: every child's block, then the node's own text.
    pub open spec fn serialized(self) -> Seq<char> {
        self.rendered(self.children.len()) + self.contents
    }
}

/// What `slot_from` finds: every child it passed comes before `name`, and
/// the child it stopped at does not.
pub proof fn lemma_slot(t: ModuleModel, name: Seq<char>, from: int)
    requires
        0 <= from <= t.children.len(),
    ensures
        from <= t.slot_from(name, from) <= t.children.len(),
        forall|j: int| from <= j < t.slot_from(name, from) ==> lex_lt(t.children[j].0, name),
        t.slot_from(name, from) < t.children.len() ==> !lex_lt(
            t.children[t.slot_from(name, from)].0,
            name,
        ),
    decreases t.children.len() - from,
{
    if from < t.children.len() && lex_lt(t.children[from].0, name) {
        lemma_slot(t, name, from + 1);
    }
}

/// In a well-formed tree every child after the slot of an absent name comes
/// after that name.
pub proof fn lemma_after_slot(t: ModuleModel, name: Seq<char>)
    requires
        t.wf(),
        !t.has_child(name),
    ensures
        forall|j: int| t.slot(name) <= j < t.children.len() ==> lex_lt(name, t.children[j].0),
{
    lemma_slot(t, name, 0);
    let i = t.slot(name);
    assert forall|j: int| i <= j < t.children.len() implies lex_lt(name, t.children[j].0) by {
        if !lex_lt(name, t.children[i].0) {
            lemma_lex_total(name, t.children[i].0, 0);
        }
        if j > i {
            lemma_lex_transitive(name, t.children[i].0, t.children[j].0, 0);
        }
    }
}

/// Insertion keeps a tree well-formed.
pub proof fn lemma_inserted_wf(t: ModuleModel, path: Seq<Seq<char>>, contents: Seq<char>)
    requires
        t.wf(),
    ensures
        t.inserted(path, contents).wf(),
    decreases path.len(),
{
    let r = t.inserted(path, contents);
    if path.len() > 0 {
        let name = path[0];
        let i = t.slot(name);
        lemma_slot(t, name, 0);
        if t.has_child(name) {
            lemma_inserted_wf(t.children[i].1, path.drop_first(), contents);
            assert forall|a: int, b: int| 0 <= a < b < r.children.len() implies lex_lt(
                #[trigger] r.children[a].0,
                #[trigger] r.children[b].0,
            ) by {
                assert(r.children[a].0 == t.children[a].0);
                assert(r.children[b].0 == t.children[b].0);
            }
            assert forall|a: int| 0 <= a < r.children.len() implies (#[trigger] r.children[a]).1.wf() by {
                if a != i {
                    assert(r.children[a] == t.children[a]);
                }
            }
        } else {
            lemma_after_slot(t, name);
            lemma_inserted_wf(ModuleModel::empty(), path.drop_first(), contents);
            assert forall|a: int, b: int| 0 <= a < b < r.children.len() implies lex_lt(
                #[trigger] r.children[a].0,
                #[trigger] r.children[b].0,
            ) by {
                if b < i {
                    assert(r.children[a] == t.children[a]);
                    assert(r.children[b] == t.children[b]);
                } else if b == i {
                    assert(r.children[a] == t.children[a]);
                } else if a < i {
                    assert(r.children[a] == t.children[a]);
                    assert(r.children[b] == t.children[b - 1]);
                } else if a == i {
                    assert(r.children[b] == t.children[b - 1]);
                } else {
                    assert(r.children[a] == t.children[a - 1]);
                    assert(r.children[b] == t.children[b - 1]);
                }
            }
            assert forall|a: int| 0 <= a < r.children.len() implies (#[trigger] r.children[a]).1.wf() by {
                if a < i {
                    assert(r.children[a] == t.children[a]);
                } else if a > i {
                    assert(r.children[a] == t.children[a - 1]);
                }
            }
        }
    } else {
        assert(r.children == t.children);
    }
}

/// The slot is the only index that every earlier child comes before `name`
/// and whose own child does not.
pub proof fn lemma_slot_unique(t: ModuleModel, name: Seq<char>, i: int, from: int)
    requires
        0 <= from <= i <= t.children.len(),
        forall|j: int| 0 <= j < i ==> lex_lt(t.children[j].0, name),
        i < t.children.len() ==> !lex_lt(t.children[i].0, name),
    ensures
        t.slot_from(name, from) == i,
    decreases i - from,
{
    if from < i {
        lemma_slot_unique(t, name, i, from + 1);
    }
}

/// In a well-formed tree no two children of a node share a name: a path
/// names at most one node.
pub proof fn lemma_names_distinct(t: ModuleModel, i: int, j: int)
    requires
        t.wf(),
        0 <= i < t.children.len(),
        0 <= j < t.children.len(),
        i != j,
    ensures
        t.children[i].0 != t.children[j].0,
{
    lemma_lex_irreflexive(t.children[i].0, 0);
}

/// After an insertion at a path, the child named by the path's first segment
/// exists, stands where that name belongs, and is the former child of that
/// name (or a new empty node) after insertion of the rest of the path. Every
/// other child is one of the former children.
pub proof fn lemma_inserted_child(t: ModuleModel, path: Seq<Seq<char>>, contents: Seq<char>)
    requires
        t.wf(),
        path.len() > 0,
    ensures
        t.inserted(path, contents).has_child(path[0]),
        t.inserted(path, contents).slot(path[0]) == t.slot(path[0]),
        t.inserted(path, contents).children[t.slot(path[0])].1 == (if t.has_child(path[0]) {
            t.children[t.slot(path[0])].1
        } else {
            ModuleModel::empty()
        }).inserted(path.drop_first(), contents),
        t.inserted(path, contents).contents == t.contents,
{
    let r = t.inserted(path, contents);
    let name = path[0];
    let i = t.slot(name);
    lemma_slot(t, name, 0);
    lemma_lex_irreflexive(name, 0);
    assert forall|j: int| 0 <= j < i implies lex_lt(r.children[j].0, name) by {
        assert(r.children[j] == t.children[j]);
    }
    lemma_slot_unique(r, name, i, 0);
}

/// What was attached at a path is found there.
pub proof fn lemma_inserted_is_found(t: ModuleModel, path: Seq<Seq<char>>, contents: Seq<char>)
    requires
        t.wf(),
    ensures
        t.inserted(path, contents).contents_at(path) == Some(contents),
    decreases path.len(),
{
    if path.len() > 0 {
        lemma_inserted_child(t, path, contents);
        let i = t.slot(path[0]);
        lemma_slot(t, path[0], 0);
        if t.has_child(path[0]) {
            assert(t.children[i].1.wf());
            lemma_inserted_is_found(t.children[i].1, path.drop_first(), contents);
        } else {
            lemma_inserted_is_found(ModuleModel::empty(), path.drop_first(), contents);
        }
    }
}

/// A second insertion at the same path replaces the first: nothing of the
/// first text is left, and the tree is otherwise the same.
pub proof fn lemma_insert_replaces(
    t: ModuleModel,
    path: Seq<Seq<char>>,
    first: Seq<char>,
    second: Seq<char>,
)
    requires
        t.wf(),
    ensures
        t.inserted(path, first).inserted(path, second) == t.inserted(path, second),
    decreases path.len(),
{
    let once = t.inserted(path, first);
    let twice = once.inserted(path, second);
    let direct = t.inserted(path, second);
    if path.len() > 0 {
        let i = t.slot(path[0]);
        lemma_slot(t, path[0], 0);
        lemma_inserted_child(t, path, first);
        if t.has_child(path[0]) {
            lemma_insert_replaces(t.children[i].1, path.drop_first(), first, second);
        } else {
            lemma_insert_replaces(ModuleModel::empty(), path.drop_first(), first, second);
        }
        assert(twice.children =~= direct.children);
    }
}

/// A node that an insertion had to create on the way to its path holds no
/// text and nothing but the next node on the way.
pub proof fn lemma_new_wrapper_is_empty(path: Seq<Seq<char>>, contents: Seq<char>)
    requires
        path.len() > 0,
    ensures
        ModuleModel::empty().inserted(path, contents).contents.len() == 0,
        ModuleModel::empty().inserted(path, contents).children.len() == 1,
        ModuleModel::empty().inserted(path, contents).children[0].0 == path[0],
        ModuleModel::empty().inserted(path, contents).children[0].1
            == ModuleModel::empty().inserted(path.drop_first(), contents),
{
    lemma_slot(ModuleModel::empty(), path[0], 0);
}

/// The text of a single path: one block for each segment, each nested in the
/// one before, around the contents.
pub open spec fn nested_text(path: Seq<Seq<char>>, contents: Seq<char>) -> Seq<char>
    decreases path.len(),
{
    if path.len() == 0 {
        contents
    } else {
        "pub mod "@ + path[0] + " {\n"@ + nested_text(path.drop_first(), contents) + "\n}"@
            + "\n"@
    }
}

/// An insertion into the empty tree serializes to one nested block for each
/// segment of the path, empty but for the next block, with the contents in
/// the innermost.
pub proof fn lemma_fresh_path_text(path: Seq<Seq<char>>, contents: Seq<char>)
    ensures
        ModuleModel::empty().inserted(path, contents).serialized() == nested_text(path, contents),
    decreases path.len(),
{
    let r = ModuleModel::empty().inserted(path, contents);
    assert(r.rendered(0) =~= Seq::<char>::empty());
    if path.len() == 0 {
        assert(r.serialized() =~= contents);
    } else {
        lemma_new_wrapper_is_empty(path, contents);
        lemma_fresh_path_text(path.drop_first(), contents);
        let child = r.children[0];
        assert(child.1.serialized() == nested_text(path.drop_first(), contents));
        assert(r.rendered(1) == r.rendered(0) + "pub mod "@ + child.0 + " {\n"@
            + child.1.serialized() + "\n}"@ + "\n"@);
        assert(r.serialized() =~= nested_text(path, contents));
    }
}

/// Two paths with the same first segment and the same rest are the same.
pub proof fn lemma_same_head_and_rest(p: Seq<Seq<char>>, q: Seq<Seq<char>>)
    requires
        p.len() > 0,
        q.len() > 0,
        p[0] == q[0],
        p.drop_first() == q.drop_first(),
    ensures
        p == q,
{
    assert(p.len() == p.drop_first().len() + 1);
    assert(q.len() == q.drop_first().len() + 1);
    assert forall|j: int| 0 <= j < p.len() implies p[j] == q[j] by {
        if j > 0 {
            assert(p[j] == p.drop_first()[j - 1]);
            assert(q[j] == q.drop_first()[j - 1]);
        }
    }
    assert(p =~= q);
}

/// An insertion leaves the text at every other path as it was.
pub proof fn lemma_insert_keeps_others(
    t: ModuleModel,
    p: Seq<Seq<char>>,
    contents: Seq<char>,
    q: Seq<Seq<char>>,
)
    requires
        t.wf(),
        p != q,
        t.contents_at(q) is Some,
    ensures
        t.inserted(p, contents).contents_at(q) == t.contents_at(q),
    decreases q.len(),
{
    let r = t.inserted(p, contents);
    if q.len() == 0 {
        if p.len() == 0 {
            assert(p =~= q);
        }
    } else if p.len() == 0 {
        lemma_same_names(r, t, q[0], 0);
    } else {
        let n = p[0];
        let m = q[0];
        let i = t.slot(n);
        let k = t.slot(m);
        lemma_slot(t, n, 0);
        lemma_slot(t, m, 0);
        lemma_lex_irreflexive(m, 0);
        if n == m {
            if p.drop_first() == q.drop_first() {
                lemma_same_head_and_rest(p, q);
            }
            lemma_inserted_child(t, p, contents);
            assert(t.children[i].1.wf());
            lemma_insert_keeps_others(t.children[i].1, p.drop_first(), contents, q.drop_first());
        } else if t.has_child(n) {
            lemma_same_names(r, t, m, 0);
            assert(r.children[k] == t.children[k]);
        } else {
            lemma_after_slot(t, n);
            if k < i {
                assert forall|j: int| 0 <= j < k implies lex_lt(r.children[j].0, m) by {
                    assert(r.children[j] == t.children[j]);
                }
                assert(r.children[k] == t.children[k]);
                lemma_slot_unique(r, m, k, 0);
            } else {
                assert forall|j: int| 0 <= j < k + 1 implies lex_lt(r.children[j].0, m) by {
                    if j < i {
                        assert(r.children[j] == t.children[j]);
                    } else if j > i {
                        assert(r.children[j] == t.children[j - 1]);
                    }
                }
                assert(r.children[k + 1] == t.children[k]);
                lemma_slot_unique(r, m, k + 1, 0);
            }
        }
    }
}

/// The slot of a name depends on the children's names alone.
pub proof fn lemma_same_names(s: ModuleModel, t: ModuleModel, name: Seq<char>, from: int)
    requires
        0 <= from,
        s.children.len() == t.children.len(),
        forall|j: int| 0 <= j < t.children.len() ==> s.children[j].0 == t.children[j].0,
    ensures
        s.slot_from(name, from) == t.slot_from(name, from),
    decreases t.children.len() - from,
{
    if from < t.children.len() && lex_lt(t.children[from].0, name) {
        lemma_same_names(s, t, name, from + 1);
    }
}

/// The slot of an earlier name is not after the slot of a later name.
pub proof fn lemma_slot_order(t: ModuleModel, first: Seq<char>, second: Seq<char>)
    requires
        lex_lt(first, second),
    ensures
        t.slot(first) <= t.slot(second),
{
    lemma_slot(t, first, 0);
    lemma_slot(t, second, 0);
    let k = t.slot(second);
    if k < t.slot(first) {
        lemma_lex_transitive(t.children[k].0, first, second, 0);
    }
}

/// Attaching text to the root and inserting below it can be done in either
/// order.
pub proof fn lemma_insert_commutes_with_root(
    t: ModuleModel,
    root: Seq<Seq<char>>,
    a: Seq<char>,
    q: Seq<Seq<char>>,
    b: Seq<char>,
)
    requires
        root.len() == 0,
        q.len() > 0,
    ensures
        t.inserted(root, a).inserted(q, b) == t.inserted(q, b).inserted(root, a),
{
    lemma_same_names(t.inserted(root, a), t, q[0], 0);
}

/// Insertions below two different children of the root can be done in
/// either order.
pub proof fn lemma_insert_commutes_apart(
    t: ModuleModel,
    p: Seq<Seq<char>>,
    a: Seq<char>,
    q: Seq<Seq<char>>,
    b: Seq<char>,
)
    requires
        t.wf(),
        p.len() > 0,
        q.len() > 0,
        lex_lt(p[0], q[0]),
    ensures
        t.inserted(p, a).inserted(q, b) == t.inserted(q, b).inserted(p, a),
{
    let n = p[0];
    let m = q[0];
    let i = t.slot(n);
    let k = t.slot(m);
    let left = t.inserted(p, a);
    let right = t.inserted(q, b);
    lemma_slot(t, n, 0);
    lemma_slot(t, m, 0);
    lemma_slot_order(t, n, m);
    lemma_lex_irreflexive(n, 0);
    lemma_lex_irreflexive(m, 0);
    assert(n != m);
    if lex_lt(m, n) {
        lemma_lex_transitive(n, m, n, 0);
    }
    assert forall|j: int| 0 <= j < i implies lex_lt(t.children[j].0, m) by {
        lemma_lex_transitive(t.children[j].0, n, m, 0);
    }
    if t.has_child(n) {
        assert(i < k);
        lemma_same_names(left, t, m, 0);
        assert forall|j: int| 0 <= j < i implies lex_lt(right.children[j].0, n) by {
            assert(right.children[j] == t.children[j]);
        }
        assert(right.children[i].0 == n);
        lemma_slot_unique(right, n, i, 0);
        if k < t.children.len() {
            assert(left.children[k] == t.children[k]);
        }
        assert(right.children[i] == t.children[i]);
    } else if t.has_child(m) {
        lemma_same_names(right, t, n, 0);
        assert(left.children[k + 1] == t.children[k]);
        assert forall|j: int| 0 <= j < k + 1 implies lex_lt(left.children[j].0, m) by {
            if j < i {
                assert(left.children[j] == t.children[j]);
            } else if j > i {
                assert(left.children[j] == t.children[j - 1]);
            }
        }
        lemma_slot_unique(left, m, k + 1, 0);
        if i == k {
            assert(right.children[i].0 == m);
        } else {
            assert(right.children[i] == t.children[i]);
        }
        assert(!right.has_child(n));
    } else {
        assert forall|j: int| 0 <= j < k + 1 implies lex_lt(left.children[j].0, m) by {
            if j < i {
                assert(left.children[j] == t.children[j]);
            } else if j > i {
                assert(left.children[j] == t.children[j - 1]);
            }
        }
        if k < t.children.len() {
            assert(left.children[k + 1] == t.children[k]);
        }
        lemma_slot_unique(left, m, k + 1, 0);
        assert(!left.has_child(m));
        assert forall|j: int| 0 <= j < i implies lex_lt(right.children[j].0, n) by {
            assert(right.children[j] == t.children[j]);
        }
        if i < k {
            assert(right.children[i] == t.children[i]);
        } else {
            assert(right.children[i].0 == m);
        }
        lemma_slot_unique(right, n, i, 0);
        assert(!right.has_child(n));
    }
    assert(left.inserted(q, b).children =~= right.inserted(p, a).children);
}

/// The tree does not depend on the order of insertions: two insertions at
/// different paths give the same tree, and so the same text, in either
/// order.
pub proof fn lemma_insert_commutes(
    t: ModuleModel,
    p: Seq<Seq<char>>,
    a: Seq<char>,
    q: Seq<Seq<char>>,
    b: Seq<char>,
)
    requires
        t.wf(),
        p != q,
    ensures
        t.inserted(p, a).inserted(q, b) == t.inserted(q, b).inserted(p, a),
        t.inserted(p, a).inserted(q, b).serialized() == t.inserted(q, b).inserted(
            p,
            a,
        ).serialized(),
    decreases p.len(),
{
    if p.len() == 0 {
        if q.len() == 0 {
            assert(p =~= q);
        }
        lemma_insert_commutes_with_root(t, p, a, q, b);
    } else if q.len() == 0 {
        lemma_insert_commutes_with_root(t, q, b, p, a);
    } else if p[0] == q[0] {
        let i = t.slot(p[0]);
        lemma_slot(t, p[0], 0);
        if p.drop_first() == q.drop_first() {
            lemma_same_head_and_rest(p, q);
        }
        lemma_inserted_child(t, p, a);
        lemma_inserted_child(t, q, b);
        lemma_inserted_wf(t, p, a);
        lemma_inserted_wf(t, q, b);
        if t.has_child(p[0]) {
            assert(t.children[i].1.wf());
            lemma_insert_commutes(t.children[i].1, p.drop_first(), a, q.drop_first(), b);
        } else {
            lemma_insert_commutes(ModuleModel::empty(), p.drop_first(), a, q.drop_first(), b);
        }
        assert(t.inserted(p, a).inserted(q, b).children =~= t.inserted(q, b).inserted(
            p,
            a,
        ).children);
    } else if lex_lt(p[0], q[0]) {
        lemma_insert_commutes_apart(t, p, a, q, b);
    } else {
        if !lex_lt(q[0], p[0]) {
            lemma_lex_total(p[0], q[0], 0);
        }
        lemma_insert_commutes_apart(t, q, b, p, a);
    }
}

/// A generated module: the modules nested in it, by name, and its own text.
#[derive(Debug)]
pub struct RustModule {
    modules: Vec<(String, RustModule)>,
    contents: String,
}

impl View for RustModule {
    type V = ModuleModel;

    closed spec fn view(&self) -> ModuleModel {
        self.model()
    }
}

impl RustModule {
    /// The value of the module: each child's name and value, and the text.
    pub closed spec fn model(&self) -> ModuleModel
        decreases self,
    {
        ModuleModel {
            children: Seq::new(
                self.modules@.len(),
                |i: int|
                    if 0 <= i < self.modules@.len() {
                        (self.modules@[i].0@, self.modules@[i].1.model())
                    } else {
                        arbitrary()
                    },
            ),
            contents: self.contents@,
        }
    }

    /// The invariant of the type: children sorted by name, at every level.
    pub open spec fn wf(&self) -> bool {
        self@.wf()
    }

    /// A module with no children and no text.
    pub fn new() -> (r: Self)
        ensures
            r@ == ModuleModel::empty(),
            r.wf(),
    {
        let r = RustModule { modules: Vec::new(), contents: String::new() };
        assert(r@.children =~= Seq::empty());
        r
    }

    fn find_slot(&self, name: &String) -> (i: usize)
        ensures
            i == self@.slot(name@),
            i <= self.modules@.len(),
    {
        let mut i: usize = 0;
        proof {
            lemma_slot(self@, name@, 0);
        }
        while i < self.modules.len() && str_lt(self.modules[i].0.as_str(), name.as_str())
            invariant
                i <= self.modules@.len(),
                self@.children.len() == self.modules@.len(),
                self@.slot(name@) == self@.slot_from(name@, i as int),
            decreases self.modules@.len() - i,
        {
            assert(self@.children[i as int].0 == self.modules@[i as int].0@);
            i += 1;
        }
        proof {
            if i < self.modules@.len() {
                assert(self@.children[i as int].0 == self.modules@[i as int].0@);
            }
        }
        i
    }

    fn insert_at(&mut self, path: &Vec<String>, from: usize, contents: String)
        requires
            old(self).wf(),
            from <= path@.len(),
        ensures
            final(self)@ == old(self)@.inserted(views(path@).skip(from as int), contents@),
            final(self).wf(),
        decreases path@.len() - from,
    {
        let ghost before = self@;
        let ghost rest = views(path@).skip(from as int);
        proof {
            lemma_inserted_wf(before, rest, contents@);
        }
        if from == path.len() {
            self.contents = contents;
            assert(self@.children =~= before.children);
            return ;
        }
        let name: &String = &path[from];
        assert(rest[0] == name@);
        assert(rest.drop_first() =~= views(path@).skip(from + 1));
        let i: usize = self.find_slot(name);
        let found: bool = i < self.modules.len() && self.modules[i].0 == *name;
        assert(i < self.modules@.len() ==> before.children[i as int].0 == self.modules@[i as int].0@);
        assert(found == before.has_child(name@));
        if found {
            let ghost old_modules = self.modules@;
            let (key, mut child) = self.modules.remove(i);
            assert(child@ == before.children[i as int].1);
            assert(child.wf());
            child.insert_at(path, from + 1, contents);
            self.modules.insert(i, (key, child));
            proof {
                let want = before.inserted(rest, contents@);
                assert forall|j: int| 0 <= j < self@.children.len() implies self@.children[j]
                    == want.children[j] by {
                    if j != i {
                        assert(self.modules@[j] == old_modules[j]);
                        assert(before.children[j] == (old_modules[j].0@, old_modules[j].1@));
                    }
                }
                assert(self@.children =~= want.children);
            }
        } else {
            let ghost old_modules = self.modules@;
            let mut child = RustModule::new();
            child.insert_at(path, from + 1, contents);
            self.modules.insert(i, (name.clone(), child));
            proof {
                let want = before.inserted(rest, contents@);
                assert forall|j: int| 0 <= j < self@.children.len() implies self@.children[j]
                    == want.children[j] by {
                    if j < i {
                        assert(self.modules@[j] == old_modules[j]);
                        assert(before.children[j] == (old_modules[j].0@, old_modules[j].1@));
                    } else if j > i {
                        assert(self.modules@[j] == old_modules[j - 1]);
                        assert(before.children[j - 1] == (old_modules[j - 1].0@, old_modules[j - 1].1@));
                    }
                }
                assert(self@.children =~= want.children);
            }
        }
    }

    /// Attaches `contents` at the dotted path `module_name`, creating the
    /// modules on the way and replacing what the last one held. The empty
    /// path is refused and leaves the tree as it was.
    pub fn insert_module(&mut self, module_name: &str, contents: String) -> (r: Result<
        (),
        TranspileError,
    >)
        requires
            old(self).wf(),
        ensures
            final(self).wf(),
            module_name@.len() == 0 ==> r is Err && r->Err_0@ == (
                ErrorKind::InvalidPath,
                Seq::<char>::empty(),
            ) && final(self)@ == old(self)@,
            module_name@.len() > 0 ==> r is Ok && final(self)@ == old(self)@.inserted(
                segments(module_name@),
                contents@,
            ),
    {
        if module_name.unicode_len() == 0 {
            return Err(TranspileError { kind: ErrorKind::InvalidPath, detail: String::new() });
        }
        let path: Vec<String> = split_path(module_name);
        assert(views(path@).skip(0) =~= views(path@));
        self.insert_at(&path, 0, contents);
        Ok(())
    }

    /// The module as text: the nested modules in lexicographic order of
    /// their names, each as a `pub mod` block, then the module's own text.
    /// It never fails.
    pub fn serialize(&self) -> (r: Result<String, TranspileError>)
        ensures
            r is Ok,
            r->Ok_0@ == self@.serialized(),
        decreases self,
    {
        let mut out: String = String::new();
        let mut k: usize = 0;
        while k < self.modules.len()
            invariant
                k <= self.modules@.len(),
                self@.children.len() == self.modules@.len(),
                out@ == self@.rendered(k as nat),
            decreases self.modules@.len() - k,
        {
            let inner: String = match self.modules[k].1.serialize() {
                Ok(text) => text,
                Err(e) => { return Err(e); },
            };
            assert(self@.children[k as int] == (self.modules@[k as int].0@, self.modules@[k as int].1@));
            out.append("pub mod ");
            out.append(self.modules[k].0.as_str());
            out.append(" {\n");
            out.append(inner.as_str());
            out.append("\n}");
            out.append("\n");
            k += 1;
        }
        out.append(self.contents.as_str());
        Ok(out)
    }
}

} // verus!
