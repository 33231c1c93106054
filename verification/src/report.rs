//! What a command says, and how it ends.

use vstd::prelude::*;

verus! {

/// A piece of what a command writes.
#[derive(Debug, PartialEq, Eq)]
pub enum Line {
    /// A line on the standard output.
    Out(String),
    /// The beginning of a line on the standard output.
    Part(String),
    /// A line on the standard error.
    Note(String),
    /// The beginning of a line on the standard error.
    NotePart(String),
}

/// What a [`Line`] holds.
pub enum Said {
    Out(Seq<char>),
    Part(Seq<char>),
    Note(Seq<char>),
    NotePart(Seq<char>),
}

impl DeepView for Line {
    type V = Said;

    open spec fn deep_view(&self) -> Said {
        match self {
            Line::Out(s) => Said::Out(s@),
            Line::Part(s) => Said::Part(s@),
            Line::Note(s) => Said::Note(s@),
            Line::NotePart(s) => Said::NotePart(s@),
        }
    }
}

/// The end of a command: what it writes, and the code that it exits with.
#[derive(Debug, PartialEq, Eq)]
pub struct Exit {
    /// What it writes.
    pub lines: Vec<Line>,
    /// The exit code; zero is success.
    pub code: i32,
}

/// What an [`Exit`] holds.
pub struct Ended {
    pub lines: Seq<Said>,
    pub code: int,
}

impl DeepView for Exit {
    type V = Ended;

    open spec fn deep_view(&self) -> Ended {
        Ended { lines: self.lines.deep_view(), code: self.code as int }
    }
}

/// A line of fixed text on the standard output.
pub fn out(text: &str) -> (r: Line)
    ensures
        r.deep_view() == Said::Out(text@),
{
    Line::Out(text.to_owned())
}

/// A line of fixed text on the standard error.
pub fn note(text: &str) -> (r: Line)
    ensures
        r.deep_view() == Said::Note(text@),
{
    Line::Note(text.to_owned())
}

/// Joins two texts.
pub fn cat(a: &str, b: &str) -> (r: String)
    ensures
        r@ == a@ + b@,
{
    let mut s = a.to_owned();
    s.append(b);
    s
}

/// Joins three texts.
pub fn cat3(a: &str, b: &str, c: &str) -> (r: String)
    ensures
        r@ == a@ + b@ + c@,
{
    let mut s = cat(a, b);
    s.append(c);
    s
}

/// Joins four texts.
pub fn cat4(a: &str, b: &str, c: &str, d: &str) -> (r: String)
    ensures
        r@ == a@ + b@ + c@ + d@,
{
    let mut s = cat3(a, b, c);
    s.append(d);
    s
}

/// Joins five texts.
pub fn cat5(a: &str, b: &str, c: &str, d: &str, e: &str) -> (r: String)
    ensures
        r@ == a@ + b@ + c@ + d@ + e@,
{
    let mut s = cat4(a, b, c, d);
    s.append(e);
    s
}

/// The texts of a list with a separator between them.
pub open spec fn joined(list: Seq<Seq<char>>, sep: Seq<char>) -> Seq<char>
    decreases list.len(),
{
    if list.len() == 0 {
        Seq::empty()
    } else if list.len() == 1 {
        list[0]
    } else {
        joined(list.drop_last(), sep) + sep + list.last()
    }
}

/// Joins the texts of a list with a separator between them.
pub fn join(list: &Vec<String>, sep: &str) -> (r: String)
    ensures
        r@ == joined(list.deep_view(), sep@),
{
    let ghost all = list.deep_view();
    let mut s = String::new();
    let mut i: usize = 0;
    assert(s@ =~= joined(all.take(0), sep@));
    while i < list.len()
        invariant
            i <= list@.len(),
            all == list.deep_view(),
            s@ == joined(all.take(i as int), sep@),
        decreases list@.len() - i,
    {
        assert(all.take(i + 1).drop_last() =~= all.take(i as int));
        if i > 0 {
            s.append(sep);
        }
        let ghost head = s@;
        s.append(&list[i]);
        assert(s@ =~= joined(all.take(i + 1), sep@));
        i += 1;
    }
    assert(all.take(i as int) =~= all);
    s
}

/// Texts are joined in order: nothing gives nothing, one text gives itself, and
/// of two lists the texts of the second follow those of the first, with a
/// separator between them.
pub proof fn law_joined_texts(a: Seq<Seq<char>>, b: Seq<Seq<char>>, t: Seq<char>, sep: Seq<char>)
    ensures
        joined(Seq::empty(), sep).len() == 0,
        joined(seq![t], sep) == t,
        a.len() > 0 && b.len() > 0 ==> joined(a + b, sep) == joined(a, sep) + sep + joined(b, sep),
    decreases b.len(),
{
    if a.len() > 0 && b.len() > 0 {
        let all = a + b;
        assert(all.last() == b.last());
        if b.len() == 1 {
            assert(all.drop_last() =~= a);
        } else {
            law_joined_texts(a, b.drop_last(), t, sep);
            assert(all.drop_last() =~= a + b.drop_last());
            assert(joined(all, sep) =~= joined(a, sep) + sep + joined(b, sep));
        }
    }
}

/// What is said goes where it is written, word for word, and a command ends with
/// its lines in order and its code.
pub proof fn law_lines_say_what_is_written(text: String, exit: Exit, i: int)
    ensures
        Line::Out(text).deep_view() == Said::Out(text@),
        Line::Part(text).deep_view() == Said::Part(text@),
        Line::Note(text).deep_view() == Said::Note(text@),
        Line::NotePart(text).deep_view() == Said::NotePart(text@),
        exit.deep_view().code == exit.code,
        exit.deep_view().lines.len() == exit.lines@.len(),
        0 <= i < exit.lines@.len() ==> exit.deep_view().lines[i] == exit.lines@[i].deep_view(),
{
}

} // verus!
