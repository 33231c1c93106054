//! What a scan knows of each file, and the edges drawn between files.

use vstd::prelude::*;

use crate::sorting::Ranked;
use crate::text::{
    is_le, lemma_text_le_antisymmetric, lemma_text_le_total, lemma_text_le_transitive, same,
    text_le,
};

verus! {

// ---------------------------------------------------------------------------
// Files
// ---------------------------------------------------------------------------

/// A function of a file.
#[derive(Debug, PartialEq, Eq)]
pub struct FuncInfo {
    /// Its name.
    pub n: String,
    /// The names that it calls.
    pub co: Option<Vec<String>>,
}

/// A class of a file.
#[derive(Debug, PartialEq, Eq)]
pub struct ClassInfo {
    /// Its name.
    pub n: String,
    /// The names of its base classes.
    pub b: Option<Vec<String>>,
}

/// What parsing found in a file.
#[derive(Debug, PartialEq, Eq)]
pub struct StructuralAnalysis {
    /// The functions of the file.
    pub functions: Option<Vec<FuncInfo>>,
    /// The classes of the file.
    pub cls: Option<Vec<ClassInfo>>,
    /// The import specifiers of the file.
    pub imp: Option<Vec<String>>,
    /// The names that the file calls outside of any function.
    pub co: Option<Vec<String>>,
}

/// A file or a directory of the scan.
#[derive(Debug, PartialEq, Eq)]
pub struct FileNode {
    /// The path, relative to the root of the scan.
    pub path: String,
    /// Whether this is a directory.
    pub is_dir: bool,
    /// The language of the file.
    pub lang: String,
    /// What parsing found, if the file was parsed.
    pub sa: Option<StructuralAnalysis>,
}

/// The texts of an optional list; no list counts as an empty one.
pub open spec fn texts(list: Option<Vec<String>>) -> Seq<Seq<char>> {
    match list {
        Some(v) => v.deep_view(),
        None => Seq::empty(),
    }
}

/// The functions of a file; a file that was not parsed has none.
pub open spec fn functions_of(file: FileNode) -> Seq<FuncInfo> {
    match file.sa {
        Some(sa) => match sa.functions {
            Some(fns) => fns@,
            None => Seq::empty(),
        },
        None => Seq::empty(),
    }
}

/// The classes of a file; a file that was not parsed has none.
pub open spec fn classes_of(file: FileNode) -> Seq<ClassInfo> {
    match file.sa {
        Some(sa) => match sa.cls {
            Some(classes) => classes@,
            None => Seq::empty(),
        },
        None => Seq::empty(),
    }
}

/// The import specifiers of a file; a file that was not parsed has none.
pub open spec fn imports_of(file: FileNode) -> Seq<Seq<char>> {
    match file.sa {
        Some(sa) => texts(sa.imp),
        None => Seq::empty(),
    }
}

// ---------------------------------------------------------------------------
// Edges
// ---------------------------------------------------------------------------

/// One file imports another.
#[derive(Debug, PartialEq, Eq)]
pub struct ImportEdge {
    /// The importing file.
    pub from_file: String,
    /// The imported file.
    pub to_file: String,
}

/// What an [`ImportEdge`] holds.
pub struct ImportArc {
    pub from_file: Seq<char>,
    pub to_file: Seq<char>,
}

impl DeepView for ImportEdge {
    type V = ImportArc;

    open spec fn deep_view(&self) -> ImportArc {
        ImportArc { from_file: self.from_file@, to_file: self.to_file@ }
    }
}

/// A function of one file calls a function, or names a type, of another.
#[derive(Debug, PartialEq, Eq)]
pub struct CallEdge {
    /// The calling file.
    pub from_file: String,
    /// The calling function; empty outside of any function.
    pub from_func: String,
    /// The called file.
    pub to_file: String,
    /// The called name.
    pub to_func: String,
}

/// What a [`CallEdge`] holds.
pub struct CallArc {
    pub from_file: Seq<char>,
    pub from_func: Seq<char>,
    pub to_file: Seq<char>,
    pub to_func: Seq<char>,
}

impl DeepView for CallEdge {
    type V = CallArc;

    open spec fn deep_view(&self) -> CallArc {
        CallArc {
            from_file: self.from_file@,
            from_func: self.from_func@,
            to_file: self.to_file@,
            to_func: self.to_func@,
        }
    }
}

/// A class of one file extends a class of another.
#[derive(Debug, PartialEq, Eq)]
pub struct InheritEdge {
    /// The file of the child.
    pub child_file: String,
    /// The child.
    pub child_class: String,
    /// The file of the parent.
    pub parent_file: String,
    /// The parent.
    pub parent_class: String,
}

/// What an [`InheritEdge`] holds.
pub struct InheritArc {
    pub child_file: Seq<char>,
    pub child_class: Seq<char>,
    pub parent_file: Seq<char>,
    pub parent_class: Seq<char>,
}

impl DeepView for InheritEdge {
    type V = InheritArc;

    open spec fn deep_view(&self) -> InheritArc {
        InheritArc {
            child_file: self.child_file@,
            child_class: self.child_class@,
            parent_file: self.parent_file@,
            parent_class: self.parent_class@,
        }
    }
}

// ---------------------------------------------------------------------------
// Order of edges
// ---------------------------------------------------------------------------

/// The order of four texts: by the first one in which they differ.
pub open spec fn row_le(a: Seq<Seq<char>>, b: Seq<Seq<char>>) -> bool
    decreases a.len(),
{
    if a.len() == 0 || b.len() == 0 {
        a.len() == 0
    } else if a[0] != b[0] {
        text_le(a[0], b[0])
    } else {
        row_le(a.skip(1), b.skip(1))
    }
}

/// Any two rows are ordered one way or the other.
pub proof fn lemma_row_le_total(a: Seq<Seq<char>>, b: Seq<Seq<char>>)
    ensures
        row_le(a, b) || row_le(b, a),
    decreases a.len(),
{
    if a.len() > 0 && b.len() > 0 {
        if a[0] == b[0] {
            lemma_row_le_total(a.skip(1), b.skip(1));
        } else {
            lemma_text_le_total(a[0], b[0]);
        }
    }
}

/// The order of rows is transitive.
pub proof fn lemma_row_le_transitive(a: Seq<Seq<char>>, b: Seq<Seq<char>>, c: Seq<Seq<char>>)
    requires
        row_le(a, b),
        row_le(b, c),
    ensures
        row_le(a, c),
    decreases a.len(),
{
    if a.len() > 0 {
        if a[0] == b[0] && b[0] == c[0] {
            lemma_row_le_transitive(a.skip(1), b.skip(1), c.skip(1));
        } else if a[0] != b[0] && b[0] != c[0] {
            lemma_text_le_transitive(a[0], b[0], c[0]);
            if a[0] == c[0] {
                lemma_text_le_antisymmetric(a[0], b[0]);
            }
        }
    }
}

/// Rows that are ordered both ways are equal.
pub proof fn lemma_row_le_antisymmetric(a: Seq<Seq<char>>, b: Seq<Seq<char>>)
    requires
        row_le(a, b),
        row_le(b, a),
    ensures
        a == b,
    decreases a.len(),
{
    if a.len() > 0 && b.len() > 0 {
        if a[0] != b[0] {
            lemma_text_le_antisymmetric(a[0], b[0]);
        }
        lemma_row_le_antisymmetric(a.skip(1), b.skip(1));
        assert(a =~= seq![a[0]] + a.skip(1));
        assert(b =~= seq![b[0]] + b.skip(1));
    } else {
        assert(a =~= b);
    }
}

/// Compares four texts with four others.
fn rows_in_order(a: [&str; 4], b: [&str; 4]) -> (r: bool)
    ensures
        r == row_le(
            seq![a@[0]@, a@[1]@, a@[2]@, a@[3]@],
            seq![b@[0]@, b@[1]@, b@[2]@, b@[3]@],
        ),
{
    let ghost x = seq![a@[0]@, a@[1]@, a@[2]@, a@[3]@];
    let ghost y = seq![b@[0]@, b@[1]@, b@[2]@, b@[3]@];
    let mut i: usize = 0;
    assert(x.skip(0) =~= x);
    assert(y.skip(0) =~= y);
    while i < 4
        invariant
            i <= 4,
            x == seq![a@[0]@, a@[1]@, a@[2]@, a@[3]@],
            y == seq![b@[0]@, b@[1]@, b@[2]@, b@[3]@],
            row_le(x.skip(i as int), y.skip(i as int)) == row_le(x, y),
        decreases 4 - i,
    {
        assert(x.skip(i as int)[0] == a@[i as int]@);
        assert(y.skip(i as int)[0] == b@[i as int]@);
        if !same(a[i], b[i]) {
            return is_le(a[i], b[i]);
        }
        assert(x.skip(i as int).skip(1) =~= x.skip(i + 1));
        assert(y.skip(i as int).skip(1) =~= y.skip(i + 1));
        i += 1;
    }
    true
}

/// The four texts by which call edges are ordered.
pub open spec fn call_row(e: CallArc) -> Seq<Seq<char>> {
    seq![e.from_file, e.from_func, e.to_file, e.to_func]
}

/// The four texts by which inheritance edges are ordered.
pub open spec fn inherit_row(e: InheritArc) -> Seq<Seq<char>> {
    seq![e.child_file, e.child_class, e.parent_file, e.parent_class]
}

impl Ranked for CallEdge {
    open spec fn le(a: CallArc, b: CallArc) -> bool {
        row_le(call_row(a), call_row(b))
    }

    proof fn le_total(a: CallArc, b: CallArc) {
        lemma_row_le_total(call_row(a), call_row(b));
    }

    proof fn le_transitive(a: CallArc, b: CallArc, c: CallArc) {
        lemma_row_le_transitive(call_row(a), call_row(b), call_row(c));
    }

    fn is_le(&self, other: &Self) -> (r: bool) {
        rows_in_order(
            [&self.from_file, &self.from_func, &self.to_file, &self.to_func],
            [&other.from_file, &other.from_func, &other.to_file, &other.to_func],
        )
    }
}

impl Ranked for InheritEdge {
    open spec fn le(a: InheritArc, b: InheritArc) -> bool {
        row_le(inherit_row(a), inherit_row(b))
    }

    proof fn le_total(a: InheritArc, b: InheritArc) {
        lemma_row_le_total(inherit_row(a), inherit_row(b));
    }

    proof fn le_transitive(a: InheritArc, b: InheritArc, c: InheritArc) {
        lemma_row_le_transitive(inherit_row(a), inherit_row(b), inherit_row(c));
    }

    fn is_le(&self, other: &Self) -> (r: bool) {
        rows_in_order(
            [&self.child_file, &self.child_class, &self.parent_file, &self.parent_class],
            [&other.child_file, &other.child_class, &other.parent_file, &other.parent_class],
        )
    }
}

/// Rows of four texts are ordered by the first text in which they differ.
pub proof fn law_order_of_rows(
    a0: Seq<char>,
    a1: Seq<char>,
    a2: Seq<char>,
    a3: Seq<char>,
    b0: Seq<char>,
    b1: Seq<char>,
    b2: Seq<char>,
    b3: Seq<char>,
)
    ensures
        row_le(seq![a0, a1, a2, a3], seq![b0, b1, b2, b3]) <==> {
            ||| a0 != b0 && text_le(a0, b0)
            ||| a0 == b0 && a1 != b1 && text_le(a1, b1)
            ||| a0 == b0 && a1 == b1 && a2 != b2 && text_le(a2, b2)
            ||| a0 == b0 && a1 == b1 && a2 == b2 && text_le(a3, b3)
        },
{
    reveal_with_fuel(row_le, 5);
    lemma_text_le_total(a3, b3);
    assert(seq![a0, a1, a2, a3].skip(1) =~= seq![a1, a2, a3]);
    assert(seq![a1, a2, a3].skip(1) =~= seq![a2, a3]);
    assert(seq![a2, a3].skip(1) =~= seq![a3]);
    assert(seq![a3].skip(1) =~= Seq::<Seq<char>>::empty());
    assert(seq![b0, b1, b2, b3].skip(1) =~= seq![b1, b2, b3]);
    assert(seq![b1, b2, b3].skip(1) =~= seq![b2, b3]);
    assert(seq![b2, b3].skip(1) =~= seq![b3]);
    assert(seq![b3].skip(1) =~= Seq::<Seq<char>>::empty());
}

/// Edges are compared by their files and names, in the order in which they are
/// read.
pub proof fn law_rows_of_edges(c: CallArc, h: InheritArc)
    ensures
        call_row(c) == seq![c.from_file, c.from_func, c.to_file, c.to_func],
        inherit_row(h) == seq![h.child_file, h.child_class, h.parent_file, h.parent_class],
{
}

/// The functions, classes and imports of a file are all that parsing found, and
/// a file that was not parsed has none.
pub proof fn law_parts_of_a_file(file: FileNode)
    ensures
        functions_of(file) == (if file.sa is Some && file.sa->Some_0.functions is Some {
            file.sa->Some_0.functions->Some_0@
        } else {
            Seq::empty()
        }),
        classes_of(file) == (if file.sa is Some && file.sa->Some_0.cls is Some {
            file.sa->Some_0.cls->Some_0@
        } else {
            Seq::empty()
        }),
        imports_of(file) == (if file.sa is Some && file.sa->Some_0.imp is Some {
            file.sa->Some_0.imp->Some_0.deep_view()
        } else {
            Seq::empty()
        }),
{
}

/// An edge holds its files and its names, each in its place.
pub proof fn law_edges_hold_their_ends(i: ImportEdge, c: CallEdge, h: InheritEdge)
    ensures
        i.deep_view().from_file == i.from_file@,
        i.deep_view().to_file == i.to_file@,
        c.deep_view().from_file == c.from_file@,
        c.deep_view().from_func == c.from_func@,
        c.deep_view().to_file == c.to_file@,
        c.deep_view().to_func == c.to_func@,
        h.deep_view().child_file == h.child_file@,
        h.deep_view().child_class == h.child_class@,
        h.deep_view().parent_file == h.parent_file@,
        h.deep_view().parent_class == h.parent_class@,
{
}

} // verus!
