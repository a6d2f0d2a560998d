use bumpalo::collections::String as BumpString;
use bumpalo::Bump;
use vstd::prelude::*;
use vstd::utf8::encode_utf8;

verus! {

/// The text of each line.
pub open spec fn lines_view(lines: Seq<String>) -> Seq<Seq<char>> {
    lines.map_values(|l: String| l@)
}

/// `lines` is `text` cut just before each newline: joined they give `text` back; a
/// newline begins every line but the first and stands nowhere else; every line but
/// the first is non-empty; and only the empty text has no lines.
pub open spec fn is_split_of(lines: Seq<Seq<char>>, text: Seq<char>) -> bool {
    &&& lines.flatten() == text
    &&& (lines.len() == 0 <==> text.len() == 0)
    &&& forall|i: int| 0 < i < lines.len() ==> (#[trigger] lines[i]).len() > 0
    &&& forall|i: int, j: int|
        0 <= i < lines.len() && 0 <= j < lines[i].len() ==> ((#[trigger] lines[i][j] == '\n') <==> (
        i > 0 && j == 0))
}

/// Relies on `String::push`: the character is appended to the text.
#[verifier::external_body]
fn push_char(s: &mut String, c: char)
    ensures
        final(s)@ == old(s)@.push(c),
{
    s.push(c)
}

/// What an arena string holds.
pub uninterp spec fn arena_text(s: BumpString) -> Seq<char>;

#[verifier::external_type_specification]
#[verifier::external_body]
pub struct ExBump<const MIN_ALIGN: usize>(Bump<MIN_ALIGN>);

#[verifier::external_type_specification]
#[verifier::external_body]
pub struct ExBumpString<'bump>(BumpString<'bump>);

/// Relies on bumpalo's `String::with_capacity_in`: a new, empty string in the arena.
#[verifier::external_body]
fn arena_string<'a>(capacity: usize, arena: &'a Bump) -> (r: BumpString<'a>)
    ensures
        arena_text(r) == Seq::<char>::empty(),
{
    BumpString::with_capacity_in(capacity, arena)
}

/// Relies on bumpalo's `String::push_str`: the text is appended.
#[verifier::external_body]
fn arena_push_str(s: &mut BumpString, t: &str)
    ensures
        arena_text(*final(s)) == arena_text(*old(s)) + t@,
{
    s.push_str(t)
}

/// Why a lookup in the editor's text failed.
#[derive(Clone, Debug, PartialEq, Eq)]
pub enum UIError {
    OutOfBounds { index: usize, collection_name: String, len: usize },
}

/// The source text of an editor buffer, kept line by line.
#[derive(Debug)]
pub struct CodeLines {
    pub lines: Vec<String>,
    pub nr_of_chars: usize,
}

impl CodeLines {
    /// Splits `code_str` into lines, each after the first starting with its newline.
    pub fn from_str(code_str: &str) -> (r: CodeLines)
        ensures
            is_split_of(lines_view(r.lines@), code_str@),
            r.nr_of_chars == code_str.len(),
    {
        CodeLines { lines: split_inclusive(code_str), nr_of_chars: code_str.len() }
    }

    /// The text of line `line_nr`, or `OutOfBounds` where there is no such line.
    pub fn get_line(&self, line_nr: usize) -> (r: Result<&str, UIError>)
        ensures
            line_nr < self.lines@.len() ==> (r matches Ok(l) && l@ == self.lines@[line_nr as int]@),
            line_nr >= self.lines@.len() ==> (r matches Err(
                UIError::OutOfBounds { index, len, .. },
            ) && index == line_nr && len == self.lines@.len()),
    {
        if line_nr < self.lines.len() {
            Ok(self.lines[line_nr].as_str())
        } else {
            Err(
                UIError::OutOfBounds {
                    index: line_nr,
                    collection_name: "lines".to_owned(),
                    len: self.lines.len(),
                },
            )
        }
    }

    /// The length in bytes of line `line_nr`, or `OutOfBounds` where there is no such
    /// line.
    pub fn line_len(&self, line_nr: usize) -> (r: Result<usize, UIError>)
        ensures
            line_nr < self.lines@.len() ==> (r matches Ok(n) && n == encode_utf8(
                self.lines@[line_nr as int]@,
            ).len() as usize),
            line_nr >= self.lines@.len() ==> (r matches Err(
                UIError::OutOfBounds { index, len, .. },
            ) && index == line_nr && len == self.lines@.len()),
    {
        match self.get_line(line_nr) {
            Ok(line) => Ok(line.len()),
            Err(e) => Err(e),
        }
    }

    /// Number of lines.
    pub fn nr_of_lines(&self) -> (r: usize)
        ensures
            r == self.lines@.len(),
    {
        self.lines.len()
    }

    /// Length in bytes of the whole text.
    pub fn nr_of_chars(&self) -> (r: usize)
        ensures
            r == self.nr_of_chars,
    {
        self.nr_of_chars
    }

    /// The whole text, all lines joined, in a string allocated in `arena`.
    pub fn all_lines<'a>(&self, arena: &'a Bump) -> (r: BumpString<'a>)
        ensures
            arena_text(r) == lines_view(self.lines@).flatten(),
    {
        let mut lines = arena_string(self.nr_of_chars(), arena);
        let mut i: usize = 0;
        while i < self.lines.len()
            invariant
                i <= self.lines@.len(),
                arena_text(lines) == lines_view(self.lines@.subrange(0, i as int)).flatten(),
            decreases self.lines@.len() - i,
        {
            arena_push_str(&mut lines, self.lines[i].as_str());
            proof {
                let before = lines_view(self.lines@.subrange(0, i as int));
                assert(lines_view(self.lines@.subrange(0, i + 1)) =~= before.push(
                    self.lines@[i as int]@,
                ));
                before.lemma_flatten_push(self.lines@[i as int]@);
            }
            i = i + 1;
        }
        proof {
            assert(self.lines@.subrange(0, self.lines@.len() as int) =~= self.lines@);
        }
        lines
    }

    /// The last character of line `line_nr` (`None` for an empty line), or
    /// `OutOfBounds` where there is no such line.
    pub fn last_char(&self, line_nr: usize) -> (r: Result<Option<char>, UIError>)
        ensures
            line_nr < self.lines@.len() ==> r == Ok::<Option<char>, UIError>(
                if self.lines@[line_nr as int]@.len() == 0 {
                    None
                } else {
                    Some(self.lines@[line_nr as int]@.last())
                },
            ),
            line_nr >= self.lines@.len() ==> (r matches Err(
                UIError::OutOfBounds { index, len, .. },
            ) && index == line_nr && len == self.lines@.len()),
    {
        broadcast use vstd::string::group_string_axioms;

        let line = match self.get_line(line_nr) {
            Ok(line) => line,
            Err(e) => {
                return Err(e);
            },
        };
        let mut last: Option<char> = None;
        let ghost text = line@;
        for c in it: line.chars()
            invariant
                it.seq() == text,
                it.index() == 0 ==> last is None,
                it.index() > 0 ==> last == Some(text[it.index() - 1]),
        {
            last = Some(c);
        }
        Ok(last)
    }
}

/// Cuts `code_str` just before each newline.
pub fn split_inclusive(code_str: &str) -> (r: Vec<String>)
    ensures
        is_split_of(lines_view(r@), code_str@),
{
    broadcast use vstd::string::group_string_axioms;

    let mut split_vec: Vec<String> = Vec::new();
    let mut temp_str = String::new();
    let ghost text = code_str@;
    for token in it: code_str.chars()
        invariant
            it.seq() == text,
            ({
                let done = lines_view(split_vec@);
                let t = temp_str@;
                &&& done.flatten() + t == text.take(it.index() as int)
                &&& forall|i: int| 0 < i < done.len() ==> (#[trigger] done[i]).len() > 0
                &&& forall|i: int, j: int|
                    0 <= i < done.len() && 0 <= j < done[i].len() ==> ((#[trigger] done[i][j]
                        == '\n') <==> (i > 0 && j == 0))
                &&& forall|j: int|
                    0 <= j < t.len() ==> ((#[trigger] t[j] == '\n') <==> (done.len() > 0 && j
                        == 0))
                &&& it.index() > 0 ==> t.len() > 0
                &&& it.index() == 0 ==> done.len() == 0 && t.len() == 0
            }),
    {
        let ghost done0 = lines_view(split_vec@);
        let ghost t0 = temp_str@;
        if token != '\n' {
            push_char(&mut temp_str, token);
            proof {
                assert(text.take(it.index() + 1) =~= text.take(it.index() as int).push(token));
                assert(done0.flatten() + temp_str@ =~= (done0.flatten() + t0).push(token));
            }
        } else {
            split_vec.push(temp_str);
            temp_str = String::new();
            push_char(&mut temp_str, token);
            proof {
                let done = lines_view(split_vec@);
                assert(done =~= done0.push(t0));
                done0.lemma_flatten_push(t0);
                assert(text.take(it.index() + 1) =~= text.take(it.index() as int).push(token));
                assert(done.flatten() + temp_str@ =~= (done0.flatten() + t0).push(token));
            }
        }
    }
    proof {
        assert(text.take(text.len() as int) =~= text);
    }
    if !temp_str.as_str().is_empty() {
        let ghost done0 = lines_view(split_vec@);
        let ghost t0 = temp_str@;
        split_vec.push(temp_str);
        proof {
            assert(lines_view(split_vec@) =~= done0.push(t0));
            done0.lemma_flatten_push(t0);
        }
    } else {
        proof {
            assert(temp_str@ =~= Seq::<char>::empty());
            assert(lines_view(split_vec@).flatten() + temp_str@ =~= lines_view(split_vec@).flatten());
        }
    }
    split_vec
}

} // verus!
