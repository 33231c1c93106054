//! Package names out of manifest files.

use vstd::prelude::*;

use crate::document::{
    descend, json_text, parse_json, parse_toml, parse_yaml, path_keys, text_value, toml_text,
    yaml_text, Node, Tree,
};
use crate::text::{
    after_prefix, before, ends_with, find, first_piece, law_prefix_is_put_back, law_trim,
    law_trim_end, lemma_span, lines, lines_of, span, split, strip_prefix, trim, trim_of, trim_start,
    trim_start_of, white_space, CharClass,
};
use crate::xml::{extract_xml_field, field_in, xml_events};

verus! {

// ---------------------------------------------------------------------------
// Structured manifests
// ---------------------------------------------------------------------------

/// The value that a dot-separated path leads to.
pub open spec fn at_path(t: Tree, path: Seq<char>) -> Option<Tree> {
    descend(t, path_keys(path))
}

/// The string that a dot-separated path leads to.
pub open spec fn text_at_path(t: Option<Tree>, path: Seq<char>) -> Option<Seq<char>> {
    match t {
        Some(root) => match at_path(root, path) {
            Some(found) => text_value(found),
            None => None,
        },
        None => None,
    }
}

/// Splits a path like `autoload.psr-4` into its keys; a key may hold hyphens.
pub fn split_json_path(path: &str) -> (r: Vec<String>)
    ensures
        r.deep_view() == path_keys(path@),
{
    split(path, CharClass::Only('.'))
}

/// The node that a dot-separated path leads to.
pub fn navigate_json<'a>(value: &'a Node, path: &str) -> (r: Option<&'a Node>)
    ensures
        r.deep_view() == at_path(value@, path@),
{
    value.walk(&split_json_path(path))
}

/// The string at a dot-separated path of a parsed document.
pub fn text_field(document: &Option<Node>, field: &str) -> (r: Option<String>)
    ensures
        r.deep_view() == text_at_path(document.deep_view(), field@),
{
    match document {
        Some(root) => match navigate_json(root, field) {
            Some(found) => match found.as_text() {
                Some(s) => Some(s.clone()),
                None => None,
            },
            None => None,
        },
        None => None,
    }
}

/// Extracts a dot-separated field from JSON, such as `name`.
pub fn extract_json_field(content: &str, field: &str) -> (r: Option<String>)
    ensures
        r.deep_view() == text_at_path(json_text(content@), field@),
{
    text_field(&parse_json(content), field)
}

/// Extracts a dot-separated field from TOML, such as `package.name`.
pub fn extract_toml_field(content: &str, field: &str) -> (r: Option<String>)
    ensures
        r.deep_view() == text_at_path(toml_text(content@), field@),
{
    text_field(&parse_toml(content), field)
}

/// Extracts a dot-separated field from YAML, such as `project.name`.
pub fn extract_yaml_field(content: &str, field: &str) -> (r: Option<String>)
    ensures
        r.deep_view() == text_at_path(yaml_text(content@), field@),
{
    text_field(&parse_yaml(content), field)
}

// ---------------------------------------------------------------------------
// Manifests read line by line
// ---------------------------------------------------------------------------

/// The text up to the next `quote`, if there is one.
pub open spec fn quoted(inner: Seq<char>, quote: char) -> Option<Seq<char>> {
    let n = span(inner, CharClass::Only(quote));
    if n < inner.len() {
        Some(inner.take(n as int))
    } else {
        None
    }
}

/// Whether an atom follows the key of a line: its colon stands apart from the
/// key, and before a character that atoms are made of.
pub open spec fn atom_follows(rest: Seq<char>) -> bool {
    let r = trim_of(rest, CharClass::White);
    &&& rest.len() > 0 && white_space(rest[0])
    &&& r.len() > 1 && r[0] == ':' && !CharClass::NonAtom.holds(r[1])
}

/// What follows the key of a line, without white space and assignment marks.
/// The colon of an atom is no such mark.
pub open spec fn assigned(rest: Seq<char>) -> Seq<char> {
    let r = trim_of(rest, CharClass::White);
    if atom_follows(rest) {
        r
    } else {
        trim_of(trim_start_of(r, CharClass::Assign), CharClass::White)
    }
}

/// The value that stands behind a key: a quoted string, an atom or a bare
/// word. `Some(None)` is a quoted string without its closing quote; `None` is
/// no value at all.
pub open spec fn value_of(rest: Seq<char>) -> Option<Option<Seq<char>>> {
    let word = trim_of(first_piece(rest, CharClass::WordEnd), CharClass::Only('"'));
    let atom = first_piece(rest.skip(1), CharClass::NonAtom);
    if rest.len() > 0 && rest[0] == '"' {
        Some(quoted(rest.skip(1), '"'))
    } else if rest.len() > 0 && rest[0] == '\'' {
        Some(quoted(rest.skip(1), '\''))
    } else if rest.len() > 0 && rest[0] == ':' && atom.len() > 0 {
        Some(Some(atom))
    } else if word.len() > 0 {
        Some(Some(word))
    } else {
        None
    }
}

/// The value of a line that begins with `prefix`.
pub open spec fn line_value(line: Seq<char>, prefix: Seq<char>) -> Option<Option<Seq<char>>> {
    match after_prefix(trim_of(line, CharClass::White), prefix) {
        Some(rest) => value_of(assigned(rest)),
        None => None,
    }
}

/// The value of the first line that has one.
pub open spec fn first_line_value(all: Seq<Seq<char>>, prefix: Seq<char>) -> Option<Seq<char>>
    decreases all.len(),
{
    if all.len() == 0 {
        None
    } else {
        match line_value(all[0], prefix) {
            Some(found) => found,
            None => first_line_value(all.skip(1), prefix),
        }
    }
}

/// Takes the text up to the next `quote`.
fn take_quoted(inner: &str, quote: char) -> (r: Option<String>)
    ensures
        r.deep_view() == quoted(inner@, quote),
{
    let n = find(inner, CharClass::Only(quote));
    if n < inner.unicode_len() {
        let found = inner.substring_char(0, n);
        assert(found@ =~= inner@.take(n as int));
        Some(found.to_owned())
    } else {
        None
    }
}

/// Takes what follows the key of a line.
fn take_assigned<'a>(rest: &'a str) -> (r: &'a str)
    ensures
        r@ == assigned(rest@),
{
    let inner = trim(rest, CharClass::White);
    if rest.unicode_len() > 0 && CharClass::White.has(rest.get_char(0)) && inner.unicode_len() > 1
        && inner.get_char(0) == ':' && !CharClass::NonAtom.has(inner.get_char(1)) {
        return inner;
    }
    trim(trim_start(inner, CharClass::Assign), CharClass::White)
}

/// Takes the value that stands behind a key.
fn take_value(rest: &str) -> (r: Option<Option<String>>)
    ensures
        r.deep_view() == value_of(rest@),
{
    let n = rest.unicode_len();
    if n > 0 {
        let first = rest.get_char(0);
        let inner = rest.substring_char(1, n);
        assert(inner@ =~= rest@.skip(1));
        if first == '"' || first == '\'' {
            return Some(take_quoted(inner, first));
        }
        if first == ':' {
            let atom = before(inner, CharClass::NonAtom);
            if !atom.is_empty() {
                return Some(Some(atom.to_owned()));
            }
        }
    }
    let word = trim(before(rest, CharClass::WordEnd), CharClass::Only('"'));
    if !word.is_empty() {
        Some(Some(word.to_owned()))
    } else {
        None
    }
}

/// Extracts a value by scanning the lines for a prefix. Handles
/// `prefix "value"`, `prefix 'value'`, `prefix :atom` and a bare word.
pub fn extract_line_match(content: &str, prefix: &str) -> (r: Option<String>)
    ensures
        r.deep_view() == first_line_value(lines_of(content@), prefix@),
{
    let all = lines(content);
    let ghost views = all.deep_view();
    let mut i: usize = 0;
    assert(views.skip(0) =~= views);
    while i < all.len()
        invariant
            i <= all@.len(),
            views == all.deep_view(),
            views == lines_of(content@),
            first_line_value(views.skip(i as int), prefix@) == first_line_value(views, prefix@),
        decreases all@.len() - i,
    {
        assert(views.skip(i as int)[0] == all@[i as int]@);
        assert(views.skip(i as int).skip(1) =~= views.skip(i + 1));
        if let Some(rest) = strip_prefix(trim(&all[i], CharClass::White), prefix) {
            if let Some(found) = take_value(take_assigned(rest)) {
                return found;
            }
        }
        i += 1;
    }
    None
}

// ---------------------------------------------------------------------------
// Any manifest
// ---------------------------------------------------------------------------

/// The name field of a manifest, read by the format that its file name tells.
pub open spec fn name_in_manifest(
    content: Seq<char>,
    field: Seq<char>,
    filename: Seq<char>,
) -> Option<Seq<char>> {
    if ".json"@.is_suffix_of(filename) {
        text_at_path(json_text(content), field)
    } else if ".toml"@.is_suffix_of(filename) {
        text_at_path(toml_text(content), field)
    } else if ".xml"@.is_suffix_of(filename) || "proj"@.is_suffix_of(filename) {
        field_in(xml_events(content), path_keys(field), Seq::empty())
    } else if ".yaml"@.is_suffix_of(filename) || ".yml"@.is_suffix_of(filename) {
        text_at_path(yaml_text(content), field)
    } else {
        first_line_value(lines_of(content), field)
    }
}

/// Extracts a name field from a manifest. JSON, TOML, XML and YAML are told
/// by the file name; anything else is scanned line by line.
pub fn extract_name_from_manifest(content: &str, field: &str, filename: &str) -> (r: Option<String>)
    ensures
        r.deep_view() == name_in_manifest(content@, field@, filename@),
{
    if ends_with(filename, ".json") {
        extract_json_field(content, field)
    } else if ends_with(filename, ".toml") {
        extract_toml_field(content, field)
    } else if ends_with(filename, ".xml") || ends_with(filename, "proj") {
        extract_xml_field(content, field)
    } else if ends_with(filename, ".yaml") || ends_with(filename, ".yml") {
        extract_yaml_field(content, field)
    } else {
        extract_line_match(content, field)
    }
}

// ---------------------------------------------------------------------------
// Laws
// ---------------------------------------------------------------------------

/// A quoted text is all that stands before the next quote. Without one there is
/// none.
pub proof fn law_quoted_text(body: Seq<char>, quote: char, rest: Seq<char>)
    requires
        !body.contains(quote),
    ensures
        quoted(body + seq![quote] + rest, quote) == Some(body),
        quoted(body, quote) is None,
{
    let class = CharClass::Only(quote);
    let all = body + seq![quote] + rest;
    let n = body.len() as int;
    assert forall|i: int| 0 <= i < n implies !class.holds(#[trigger] body[i]) by {
        assert(body.contains(body[i]));
    }
    assert forall|i: int| 0 <= i < n implies !class.holds(#[trigger] all[i]) by {
        assert(all[i] == body[i]);
    }
    lemma_span(all, class, n);
    lemma_span(body, class, n);
    assert(all.take(n) =~= body);
}

/// A value in quotes, of either kind, is what stands between them; one whose
/// quote is not closed is no text.
pub proof fn law_quoted_value(body: Seq<char>, quote: char, rest: Seq<char>)
    requires
        quote == '"' || quote == '\'',
        !body.contains(quote),
    ensures
        value_of(seq![quote] + body + seq![quote] + rest) == Some(Some(body)),
        value_of(seq![quote] + body) == Some(None::<Seq<char>>),
{
    law_quoted_text(body, quote, rest);
    let whole = seq![quote] + body + seq![quote] + rest;
    let part = seq![quote] + body;
    assert(whole.skip(1) =~= body + seq![quote] + rest);
    assert(part.skip(1) =~= body);
    assert(whole[0] == quote);
    assert(part[0] == quote);
}

/// A colon and the letters, digits and underscores behind it are an atom.
pub proof fn law_atom_value(atom: Seq<char>, rest: Seq<char>)
    requires
        atom.len() > 0,
        forall|i: int| 0 <= i < atom.len() ==> !CharClass::NonAtom.holds(#[trigger] atom[i]),
        rest.len() == 0 || CharClass::NonAtom.holds(rest[0]),
    ensures
        value_of(seq![':'] + atom + rest) == Some(Some(atom)),
{
    let whole = seq![':'] + atom + rest;
    let tail = atom + rest;
    let n = atom.len() as int;
    assert(whole.skip(1) =~= tail);
    assert(whole[0] == ':');
    assert forall|i: int| 0 <= i < n implies !CharClass::NonAtom.holds(#[trigger] tail[i]) by {
        assert(tail[i] == atom[i]);
    }
    if rest.len() > 0 {
        assert(tail[n] == rest[0]);
    }
    lemma_span(tail, CharClass::NonAtom, n);
    assert(first_piece(tail, CharClass::NonAtom) =~= atom);
}

/// A bare word, which no quote and no atom begins, ends at white space or a
/// comma, and loses the quotes at its ends.
/// A text that begins with such a character has no value.
pub proof fn law_word_value(word: Seq<char>, rest: Seq<char>)
    requires
        word.len() > 0 ==> word[0] != '"' && word[0] != '\'',
        word.len() > 0 && word[0] == ':' ==> first_piece(
            (word + rest).skip(1),
            CharClass::NonAtom,
        ).len() == 0,
        forall|i: int| 0 <= i < word.len() ==> !CharClass::WordEnd.holds(#[trigger] word[i]),
        rest.len() == 0 || CharClass::WordEnd.holds(rest[0]),
    ensures
        word.len() == 0 ==> value_of(word + rest) is None,
        word.len() > 0 ==> value_of(word + rest) == Some(
            Some(trim_of(word, CharClass::Only('"'))),
        ),
{
    let whole = word + rest;
    let n = word.len() as int;
    assert forall|i: int| 0 <= i < n implies !CharClass::WordEnd.holds(#[trigger] whole[i]) by {
        assert(whole[i] == word[i]);
    }
    if rest.len() > 0 {
        assert(whole[n] == rest[0]);
    }
    lemma_span(whole, CharClass::WordEnd, n);
    assert(first_piece(whole, CharClass::WordEnd) =~= word);
    if n > 0 {
        assert(whole[0] == word[0]);
        assert(trim_start_of(word, CharClass::Only('"')) == word);
        law_trim(word, CharClass::Only('"'));
        law_trim_end(word, CharClass::Only('"'));
        if trim_of(word, CharClass::Only('"')).len() == 0 {
            assert(CharClass::Only('"').holds(word[0]));
        }
    } else {
        assert(trim_of(word, CharClass::Only('"')).len() == 0);
    }
}

/// What follows a key is trimmed, and loses the `=` and `:` that lead it, but
/// for the colon of an atom: one that white space stands before and a letter, a
/// digit or an underscore behind.
pub proof fn law_assigned_text(rest: Seq<char>)
    ensures
        ({
            let r = trim_of(rest, CharClass::White);
            let a = assigned(rest);
            let atom = rest.len() > 0 && CharClass::White.holds(rest[0]) && r.len() > 1 && r[0]
                == ':' && !CharClass::NonAtom.holds(r[1]);
            &&& atom ==> a == r
            &&& !atom && (r.len() == 0 || (r[0] != '=' && r[0] != ':')) ==> a == r
            &&& !atom && r.len() > 0 && (r[0] == '=' || r[0] == ':') ==> a == trim_of(
                trim_start_of(r.skip(1), CharClass::Assign),
                CharClass::White,
            )
            &&& a.len() > 0 ==> !CharClass::White.holds(a[0]) && !CharClass::White.holds(a.last())
        }),
{
    let r = trim_of(rest, CharClass::White);
    lemma_trimmed_ends(rest);
    lemma_trimmed_ends(trim_start_of(r, CharClass::Assign));
    if !atom_follows(rest) && (r.len() == 0 || (r[0] != '=' && r[0] != ':')) {
        assert(trim_start_of(r, CharClass::Assign) == r);
        lemma_trimmed_once(r);
    }
}

/// Trimming leaves no white space at the ends.
proof fn lemma_trimmed_ends(s: Seq<char>)
    ensures
        ({
            let r = trim_of(s, CharClass::White);
            r.len() > 0 ==> !CharClass::White.holds(r[0]) && !CharClass::White.holds(r.last())
        }),
{
    law_trim(s, CharClass::White);
}

/// A text without white space at its ends is not trimmed.
proof fn lemma_trimmed_once(r: Seq<char>)
    requires
        r.len() > 0 ==> !CharClass::White.holds(r[0]) && !CharClass::White.holds(r.last()),
    ensures
        trim_of(r, CharClass::White) == r,
{
    assert(trim_start_of(r, CharClass::White) == r);
}

/// A line has a value for a key where, trimmed, it is the key and something that
/// gives the value.
pub proof fn law_value_of_a_line(line: Seq<char>, prefix: Seq<char>, rest: Seq<char>)
    ensures
        trim_of(line, CharClass::White) == prefix + rest ==> line_value(line, prefix) == value_of(
            assigned(rest),
        ),
        !prefix.is_prefix_of(trim_of(line, CharClass::White)) ==> line_value(line, prefix) is None,
{
    law_prefix_is_put_back(trim_of(line, CharClass::White), prefix, rest);
}

/// The first line that has a value counts, even where it is a quote that is not
/// closed.
pub proof fn law_first_line_with_a_value_counts(all: Seq<Seq<char>>, prefix: Seq<char>, i: int)
    requires
        0 <= i <= all.len(),
        forall|j: int| 0 <= j < i ==> line_value(#[trigger] all[j], prefix) is None,
    ensures
        i == all.len() ==> first_line_value(all, prefix) is None,
        i < all.len() && line_value(all[i], prefix) is Some ==> Some(first_line_value(all, prefix))
            == line_value(all[i], prefix),
    decreases all.len(),
{
    if all.len() > 0 && i > 0 {
        let rest = all.skip(1);
        assert(line_value(all[0], prefix) is None);
        assert forall|j: int| 0 <= j < i - 1 implies line_value(#[trigger] rest[j], prefix) is None by {
            assert(rest[j] == all[j + 1]);
        }
        law_first_line_with_a_value_counts(rest, prefix, i - 1);
        if i < all.len() {
            assert(rest[i - 1] == all[i]);
        }
    }
}

/// The format of a manifest goes by the end of its name.
pub proof fn law_manifests_are_read_by_format(
    content: Seq<char>,
    field: Seq<char>,
    stem: Seq<char>,
)
    ensures
        name_in_manifest(content, field, stem + ".json"@) == text_at_path(
            json_text(content),
            field,
        ),
        name_in_manifest(content, field, stem + ".toml"@) == text_at_path(
            toml_text(content),
            field,
        ),
        name_in_manifest(content, field, stem + ".xml"@) == field_in(
            xml_events(content),
            path_keys(field),
            Seq::empty(),
        ),
        name_in_manifest(content, field, stem + "proj"@) == field_in(
            xml_events(content),
            path_keys(field),
            Seq::empty(),
        ),
        name_in_manifest(content, field, stem + ".yaml"@) == text_at_path(
            yaml_text(content),
            field,
        ),
        name_in_manifest(content, field, stem + ".yml"@) == text_at_path(
            yaml_text(content),
            field,
        ),
        !".json"@.is_suffix_of(stem) && !".toml"@.is_suffix_of(stem) && !".xml"@.is_suffix_of(stem)
            && !"proj"@.is_suffix_of(stem) && !".yaml"@.is_suffix_of(stem)
            && !".yml"@.is_suffix_of(stem) ==> name_in_manifest(content, field, stem)
            == first_line_value(lines_of(content), field),
{
    reveal_strlit(".json");
    reveal_strlit(".toml");
    reveal_strlit(".xml");
    reveal_strlit("proj");
    reveal_strlit(".yaml");
    reveal_strlit(".yml");
    let ends = seq![".json"@, ".toml"@, ".xml"@, "proj"@, ".yaml"@, ".yml"@];
    assert forall|i: int, j: int|
        #![trigger ends[i], ends[j]]
        0 <= i < ends.len() && 0 <= j < ends.len() implies (ends[j].is_suffix_of(stem + ends[i])
        <==> i == j) by {
        let whole = stem + ends[i];
        assert(whole.last() == ends[i].last());
        assert(whole[whole.len() - 2] == ends[i][ends[i].len() - 2]);
        assert(whole[whole.len() - 3] == ends[i][ends[i].len() - 3]);
        if ends[j].is_suffix_of(whole) {
            let tail = whole.subrange(whole.len() - ends[j].len(), whole.len() as int);
            assert(tail == ends[j]);
            assert(tail.last() == whole.last());
            assert(tail[tail.len() - 2] == whole[whole.len() - 2]);
            assert(tail[tail.len() - 3] == whole[whole.len() - 3]);
            assert(ends[j].last() == ends[i].last());
        }
        if i == j {
            assert(whole.subrange(whole.len() - ends[j].len(), whole.len() as int) =~= ends[j]);
        }
    }
    assert(ends[0] == ".json"@ && ends[1] == ".toml"@ && ends[2] == ".xml"@ && ends[3] == "proj"@
        && ends[4] == ".yaml"@ && ends[5] == ".yml"@);
}

/// The string at a path is a string that the path leads to; anything else gives
/// none.
pub proof fn law_text_at_a_path(root: Tree, path: Seq<char>, s: Seq<char>)
    ensures
        text_at_path(Some(root), path) == Some(s) <==> descend(root, path_keys(path)) is Some
            && text_value(descend(root, path_keys(path))->Some_0) == Some(s),
        text_at_path(None, path) is None,
        at_path(root, path) == descend(root, path_keys(path)),
{
}

} // verus!
