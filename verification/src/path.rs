//! Paths: sequences of non-empty names, written with `/` between them.

use crate::error::{ErrorView, FileSystemError};
use crate::text::{join, join_strings, push_char, texts};
use vstd::prelude::*;
use vstd::std_specs::cmp::PartialEqSpecImpl;
use vstd::std_specs::convert::FromSpecImpl;

verus! {

/// The mathematical value of a path: its names, from the root on.
pub type PathView = Seq<Seq<char>>;

/// The path of the root: no name at all.
pub open spec fn root() -> PathView {
    Seq::empty()
}

/// The character that separates the names of a path in its textual form.
pub const SEPARATOR: char = '/';

/// A name may stand in a path: it is not empty and holds no separator.
pub open spec fn valid_segment(name: Seq<char>) -> bool {
    name.len() > 0 && !name.contains(SEPARATOR)
}

/// Every name of `path` is a valid segment.
pub open spec fn valid_path(path: PathView) -> bool {
    forall|i: int| 0 <= i < path.len() ==> valid_segment(#[trigger] path[i])
}

/// The pieces of `text` between its separators, left to right. There is
/// always one piece more than there are separators, and pieces may be empty.
pub open spec fn split(text: Seq<char>) -> Seq<Seq<char>>
    decreases text.len(),
{
    if text.len() == 0 {
        seq![Seq::<char>::empty()]
    } else {
        let before = split(text.drop_last());
        if text.last() == SEPARATOR {
            before.push(Seq::<char>::empty())
        } else {
            before.update(before.len() - 1, before.last().push(text.last()))
        }
    }
}

/// The textual form of `path`: its names with one separator between
/// neighbours. The root has the empty text.
pub open spec fn render(path: PathView) -> Seq<char> {
    join(path, SEPARATOR)
}

/// The text that denotes the root.
pub open spec fn root_text() -> Seq<char> {
    seq![SEPARATOR]
}

/// What a text denotes: the root for the root text, otherwise its pieces
/// if none of them is empty, otherwise nothing.
pub open spec fn parse(text: Seq<char>) -> Option<PathView> {
    if text == root_text() {
        Some(root())
    } else if valid_path(split(text)) {
        Some(split(text))
    } else {
        None
    }
}

/// `text` has no separator at its start and no two in a row.
pub open spec fn cleanly_begun(text: Seq<char>) -> bool {
    &&& text.len() > 0 ==> text[0] != SEPARATOR
    &&& forall|i: int|
        0 <= i < text.len() - 1 ==> !(#[trigger] text[i] == SEPARATOR && text[i + 1] == SEPARATOR)
}

/// `text` has no separator at its start, none at its end, and no two in a
/// row.
pub open spec fn cleanly_separated(text: Seq<char>) -> bool {
    cleanly_begun(text) && (text.len() > 0 ==> text.last() != SEPARATOR)
}

/// All pieces but the last are non-empty.
pub open spec fn full_but_last(pieces: Seq<Seq<char>>) -> bool {
    forall|i: int| 0 <= i < pieces.len() - 1 ==> (#[trigger] pieces[i]).len() > 0
}

/// Splitting always yields at least one piece.
pub proof fn lemma_split_len(text: Seq<char>)
    ensures
        split(text).len() >= 1,
    decreases text.len(),
{
    if text.len() > 0 {
        lemma_split_len(text.drop_last());
    }
}

/// No piece of a split text holds a separator.
pub proof fn lemma_split_pieces_plain(text: Seq<char>)
    ensures
        forall|i: int|
            0 <= i < split(text).len() ==> !(#[trigger] split(text)[i]).contains(SEPARATOR),
    decreases text.len(),
{
    if text.len() > 0 {
        lemma_split_len(text.drop_last());
        lemma_split_pieces_plain(text.drop_last());
        let before = split(text.drop_last());
        if text.last() != SEPARATOR {
            let grown = before.last().push(text.last());
            assert forall|j: int| 0 <= j < grown.len() implies grown[j] != SEPARATOR by {
                if j < before.last().len() {
                    assert(before.last().contains(grown[j]));
                }
            }
        }
    }
}

/// Joining the pieces of a text gives the text back.
pub proof fn lemma_join_split(text: Seq<char>)
    ensures
        render(split(text)) == text,
    decreases text.len(),
{
    if text.len() > 0 {
        let front = text.drop_last();
        let before = split(front);
        lemma_split_len(front);
        lemma_join_split(front);
        assert(text =~= front.push(text.last()));
        if text.last() == SEPARATOR {
            assert(before.push(Seq::<char>::empty()).drop_last() =~= before);
            assert(render(before).push(SEPARATOR) + Seq::<char>::empty() =~= text);
        } else {
            let after = split(text);
            if before.len() > 1 {
                assert(after.drop_last() =~= before.drop_last());
                let stem = render(before.drop_last()).push(SEPARATOR);
                assert(stem + before.last().push(text.last()) =~= (stem + before.last()).push(
                    text.last(),
                ));
            }
        }
    }
}

/// Appending separator-free text to a text extends its last piece.
pub proof fn lemma_split_append_plain(text: Seq<char>, more: Seq<char>)
    requires
        !more.contains(SEPARATOR),
    ensures
        split(text + more) == split(text).update(
            split(text).len() - 1,
            split(text).last() + more,
        ),
    decreases more.len(),
{
    let pieces = split(text);
    lemma_split_len(text);
    if more.len() == 0 {
        assert(text + more =~= text);
        assert(pieces.last() + more =~= pieces.last());
        assert(pieces.update(pieces.len() - 1, pieces.last()) =~= pieces);
    } else {
        let shorter = more.drop_last();
        assert(more.contains(more.last()));
        assert forall|j: int| 0 <= j < shorter.len() implies shorter[j] != SEPARATOR by {
            assert(more.contains(more[j]));
        }
        lemma_split_append_plain(text, shorter);
        assert((text + more).drop_last() =~= text + shorter);
        assert((pieces.last() + shorter).push(more.last()) =~= pieces.last() + more);
        assert(split(text + more) =~= pieces.update(pieces.len() - 1, pieces.last() + more));
    }
}

/// Splitting the joined names of a non-empty path of separator-free names
/// gives the names back.
pub proof fn lemma_split_join(path: PathView)
    requires
        path.len() > 0,
        forall|i: int| 0 <= i < path.len() ==> !(#[trigger] path[i]).contains(SEPARATOR),
    ensures
        split(render(path)) == path,
    decreases path.len(),
{
    let empty = Seq::<char>::empty();
    if path.len() == 1 {
        lemma_split_append_plain(empty, path[0]);
        assert(empty + path[0] =~= path[0]);
        assert(split(path[0]) =~= path);
    } else {
        let front = path.drop_last();
        lemma_split_join(front);
        let stem = render(front).push(SEPARATOR);
        assert(stem.drop_last() =~= render(front));
        assert(split(stem) == front.push(empty));
        lemma_split_append_plain(stem, path.last());
        assert(empty + path.last() =~= path.last());
        assert(split(render(path)) =~= path);
    }
}

/// The root text splits into two empty pieces, and is the only text that
/// does.
pub proof fn lemma_split_root_text()
    ensures
        split(root_text()) == seq![Seq::<char>::empty(), Seq::<char>::empty()],
        forall|text: Seq<char>|
            #[trigger] split(text) == split(root_text()) ==> text == root_text(),
{
    let empty = Seq::<char>::empty();
    assert(root_text().drop_last() =~= empty);
    assert(split(empty) =~= seq![empty]);
    assert(split(root_text()) =~= seq![empty, empty]);
    assert forall|text: Seq<char>| #[trigger] split(text) == split(root_text()) implies
        text == root_text() by {
        lemma_join_split(text);
        lemma_join_split(root_text());
    }
}

/// The pieces of a text before the last are all non-empty exactly if the
/// text has no separator at its start and no two in a row; the last piece
/// is non-empty exactly if the text does not end in a separator.
proof fn lemma_split_pieces_empty(text: Seq<char>)
    ensures
        split(text).last().len() > 0 <==> text.len() > 0 && text.last() != SEPARATOR,
        full_but_last(split(text)) <==> cleanly_begun(text),
    decreases text.len(),
{
    lemma_split_len(text);
    if text.len() > 0 {
        let front = text.drop_last();
        let before = split(front);
        let pieces = split(text);
        lemma_split_len(front);
        lemma_split_pieces_empty(front);
        if cleanly_begun(text) {
            assert forall|i: int| 0 <= i < front.len() - 1 implies
                !(#[trigger] front[i] == SEPARATOR && front[i + 1] == SEPARATOR) by {
                assert(front[i] == text[i] && front[i + 1] == text[i + 1]);
            }
            if front.len() > 0 {
                assert(front[0] == text[0]);
            }
            assert(cleanly_begun(front));
            if text.last() == SEPARATOR {
                if front.len() == 0 {
                    assert(text[0] == SEPARATOR);
                } else if front.last() == SEPARATOR {
                    assert(text[front.len() - 1] == SEPARATOR);
                    assert(text[front.len() as int] == SEPARATOR);
                }
            }
            assert forall|i: int| 0 <= i < pieces.len() - 1 implies
                (#[trigger] pieces[i]).len() > 0 by {
                assert(pieces[i] == before[i]);
            }
        }
        if full_but_last(pieces) {
            assert forall|i: int| 0 <= i < before.len() - 1 implies
                (#[trigger] before[i]).len() > 0 by {
                assert(pieces[i] == before[i]);
            }
            assert(cleanly_begun(front));
            if text.last() == SEPARATOR {
                assert(pieces[before.len() - 1] == before.last());
                assert(front.len() > 0 && front.last() != SEPARATOR);
            }
            assert forall|i: int| 0 <= i < text.len() - 1 implies
                !(#[trigger] text[i] == SEPARATOR && text[i + 1] == SEPARATOR) by {
                if i < front.len() - 1 {
                    assert(front[i] == text[i] && front[i + 1] == text[i + 1]);
                } else {
                    assert(text[i] == front.last());
                }
            }
            if front.len() > 0 {
                assert(text[0] == front[0]);
            }
        }
    }
}

/// A text denotes a path exactly if it is the root text, or is not empty
/// and cleanly separated.
pub proof fn lemma_parse_succeeds(text: Seq<char>)
    ensures
        parse(text) is Some <==> {
            ||| text == root_text()
            ||| text.len() > 0 && cleanly_separated(text)
        },
{
    lemma_split_len(text);
    lemma_split_pieces_plain(text);
    lemma_split_pieces_empty(text);
    let pieces = split(text);
    if text != root_text() {
        if parse(text) is Some {
            assert(pieces.last().len() > 0);
            assert(full_but_last(pieces));
        }
        if text.len() > 0 && cleanly_separated(text) {
            assert forall|i: int| 0 <= i < pieces.len() implies valid_segment(
                #[trigger] pieces[i],
            ) by {
                if i == pieces.len() - 1 {
                    assert(pieces[i] == pieces.last());
                }
            }
        }
    }
}

/// What a text denotes is a valid path.
pub proof fn lemma_parse_valid(text: Seq<char>)
    ensures
        parse(text) matches Some(path) ==> valid_path(path),
{
}

/// A text that is cleanly separated, not empty and not the root text
/// denotes a path, and rendering that path gives the text back.
pub proof fn lemma_parse_then_render(text: Seq<char>)
    requires
        text != root_text(),
        text.len() > 0,
        cleanly_separated(text),
    ensures
        parse(text) is Some,
        render(parse(text).unwrap()) == text,
{
    lemma_parse_succeeds(text);
    lemma_join_split(text);
}

/// A valid path other than the root is what its rendering denotes.
pub proof fn lemma_render_then_parse(path: PathView)
    requires
        valid_path(path),
        path.len() > 0,
    ensures
        parse(render(path)) == Some(path),
{
    lemma_split_join(path);
    if render(path) == root_text() {
        lemma_split_root_text();
        assert(path[0].len() > 0);
    }
}

/// A location in the tree: the names to follow from the root, in order.
/// The empty path is the root itself.
#[derive(Debug, Hash, Eq)]
pub struct Path {
    file_names: Vec<String>,
}

impl View for Path {
    type V = PathView;

    closed spec fn view(&self) -> PathView {
        texts(self.file_names@)
    }
}

impl PartialEq for Path {
    /// Two paths are equal exactly if they hold the same names in the same
    /// order.
    fn eq(&self, other: &Self) -> (same: bool) {
        if self.file_names.len() != other.file_names.len() {
            assert(self@.len() != other@.len());
            return false;
        }
        let mut i: usize = 0;
        while i < self.file_names.len()
            invariant
                i <= self.file_names@.len(),
                self.file_names@.len() == other.file_names@.len(),
                forall|j: int| 0 <= j < i ==> self@[j] == other@[j],
            decreases self.file_names@.len() - i,
        {
            if self.file_names[i] != other.file_names[i] {
                assert(self@[i as int] != other@[i as int]);
                return false;
            }
            assert(self@[i as int] == other@[i as int]);
            i += 1;
        }
        assert(self@ =~= other@);
        true
    }
}

impl PartialEqSpecImpl for Path {
    open spec fn obeys_eq_spec() -> bool {
        true
    }

    open spec fn eq_spec(&self, other: &Self) -> bool {
        self@ == other@
    }
}

impl Clone for Path {
    fn clone(&self) -> (copy: Self)
        ensures
            copy@ == self@,
    {
        proof {
            use_type_invariant(self);
        }
        let copy = Path { file_names: self.file_names.clone() };
        assert(copy@ =~= self@);
        copy
    }
}

impl From<Path> for String {
    /// The textual form of the path.
    fn from(value: Path) -> (text: String)
        ensures
            text@ == render(value@),
    {
        value.to_string()
    }
}

impl FromSpecImpl<Path> for String {
    /// The conversion is described by the view of its result, as stated on
    /// `from`, and not by a string value.
    open spec fn obeys_from_spec() -> bool {
        false
    }

    open spec fn from_spec(value: Path) -> String {
        arbitrary()
    }
}

impl Path {
    /// Every name of a path is a valid segment.
    #[verifier::type_invariant]
    pub open spec fn well_formed(self) -> bool {
        valid_path(self@)
    }

    /// The root.
    pub fn new() -> (path: Self)
        ensures
            path@ == root(),
    {
        Path { file_names: Vec::new() }
    }

    /// The number of names.
    pub fn len(&self) -> (n: usize)
        ensures
            n == self@.len(),
    {
        self.file_names.len()
    }

    /// The name at position `index`, counted from the root.
    pub fn file_name(&self, index: usize) -> (name: &String)
        requires
            index < self@.len(),
        ensures
            name@ == self@[index as int],
            valid_segment(name@),
    {
        proof {
            use_type_invariant(self);
            assert(self@[index as int] == self.file_names@[index as int]@);
        }
        &self.file_names[index]
    }

    /// Appends a name: the path then leads one level deeper.
    pub fn push_file(&mut self, file: String)
        requires
            valid_segment(file@),
        ensures
            final(self)@ == old(self)@.push(file@),
    {
        proof {
            use_type_invariant(&*self);
        }
        let ghost before = self@;
        let mut names: Vec<String> = Vec::new();
        std::mem::swap(&mut names, &mut self.file_names);
        names.push(file);
        proof {
            let after = texts(names@);
            assert(after =~= before.push(file@));
        }
        self.file_names = names;
        assert(self@ =~= old(self)@.push(file@));
    }

    /// Removes and returns the last name; the root has none and stays as
    /// it is.
    pub fn pop_file(&mut self) -> (last: Option<String>)
        ensures
            match last {
                Some(name) => old(self)@.len() > 0 && name@ == old(self)@.last()
                    && valid_segment(name@) && final(self)@ == old(self)@.drop_last(),
                None => old(self)@.len() == 0 && final(self)@ == old(self)@,
            },
    {
        proof {
            use_type_invariant(&*self);
        }
        let ghost before = self@;
        let mut names: Vec<String> = Vec::new();
        std::mem::swap(&mut names, &mut self.file_names);
        let last = names.pop();
        proof {
            let after = texts(names@);
            if before.len() > 0 {
                assert(after =~= before.drop_last());
                assert(last->0@ == before.last());
            } else {
                assert(after =~= before);
            }
        }
        self.file_names = names;
        assert(old(self)@.len() > 0 ==> self@ =~= old(self)@.drop_last());
        assert(old(self)@.len() == 0 ==> self@ =~= old(self)@);
        last
    }

    /// Reads a path from its textual form.
    ///
    /// The root text denotes the root. Any other text denotes the names
    /// between its separators, and is rejected if one of them is empty.
    pub fn try_from(value: &str) -> (result: Result<Path, FileSystemError>)
        ensures
            match result {
                Ok(path) => parse(value@) == Some(path@),
                Err(error) => parse(value@) is None && error@ == ErrorView::BadPath(value@),
            },
    {
        let pieces = split_text(value);
        let ghost empty = Seq::<char>::empty();
        proof {
            lemma_split_pieces_plain(value@);
            lemma_split_root_text();
            assert(forall|j: int|
                0 <= j < pieces@.len() ==> (#[trigger] texts(pieces@)[j]) == pieces@[j]@);
        }
        if pieces.len() == 2 && pieces[0].as_str().is_empty() && pieces[1].as_str().is_empty() {
            proof {
                assert(texts(pieces@)[0] =~= empty && texts(pieces@)[1] =~= empty);
                assert(split(value@) =~= split(root_text()));
            }
            return Ok(Path::new());
        }
        proof {
            if value@ == root_text() {
                assert(texts(pieces@)[0] == empty && texts(pieces@)[1] == empty);
            }
        }
        let mut i: usize = 0;
        while i < pieces.len()
            invariant
                i <= pieces@.len(),
                value@ != root_text(),
                texts(pieces@) == split(value@),
                forall|j: int| 0 <= j < i ==> (#[trigger] split(value@)[j]).len() > 0,
            decreases pieces@.len() - i,
        {
            if pieces[i].as_str().is_empty() {
                assert(texts(pieces@)[i as int].len() == 0);
                return Err(FileSystemError::BadPath(value.to_owned()));
            }
            i += 1;
        }
        Ok(Path { file_names: pieces })
    }

    /// Writes the path in its textual form.
    pub fn to_string(&self) -> (text: String)
        ensures
            text@ == render(self@),
    {
        join_strings(&self.file_names, SEPARATOR)
    }
}

/// Tells whether `name` may stand in a path.
pub fn is_valid_segment(name: &str) -> (valid: bool)
    ensures
        valid == valid_segment(name@),
{
    for c in it: name.chars()
        invariant
            it.seq() == name@,
            forall|i: int| 0 <= i < it.index() ==> name@[i] != SEPARATOR,
    {
        if c == SEPARATOR {
            assert(name@.contains(name@[it.index() as int]));
            return false;
        }
    }
    !name.is_empty()
}

/// Splits `text` at its separators.
fn split_text(text: &str) -> (pieces: Vec<String>)
    ensures
        texts(pieces@) == split(text@),
{
    let mut done: Vec<String> = Vec::new();
    let mut current = String::new();
    proof {
        assert(texts(done@).push(current@) =~= split(text@.take(0)));
    }
    for c in it: text.chars()
        invariant
            it.seq() == text@,
            texts(done@).push(current@) == split(text@.take(it.index() as int)),
    {
        let ghost before = texts(done@);
        let ghost piece = current@;
        proof {
            let k: int = it.index() as int;
            assert(text@.take(k + 1).drop_last() =~= text@.take(k));
            assert(text@.take(k + 1).last() == c);
            assert(before.push(piece).last() == piece);
        }
        if c == SEPARATOR {
            done.push(current);
            current = String::new();
            assert(texts(done@) =~= before.push(piece));
        } else {
            push_char(&mut current, c);
            assert(before.push(current@) =~= before.push(piece).update(
                before.len() as int,
                piece.push(c),
            ));
        }
    }
    let ghost before = texts(done@);
    done.push(current);
    proof {
        assert(text@.take(text@.len() as int) =~= text@);
        assert(texts(done@) =~= before.push(done@[done@.len() - 1]@));
    }
    done
}

} // verus!
