//! Cutting texts into pieces and putting pieces together.
use vstd::prelude::*;
use vstd::string::StringExecFns;

verus! {

/// `String::push` appends a character.
pub assume_specification[ std::string::String::push ](text: &mut std::string::String, character: char)
    ensures
        final(text)@ == old(text)@.push(character),
;

/// A character with Unicode's `White_Space` property.
pub open spec fn is_white_space(character: char) -> bool {
    ||| '\u{9}' <= character <= '\u{d}'
    ||| character == ' '
    ||| character == '\u{85}'
    ||| character == '\u{a0}'
    ||| character == '\u{1680}'
    ||| '\u{2000}' <= character <= '\u{200a}'
    ||| character == '\u{2028}'
    ||| character == '\u{2029}'
    ||| character == '\u{202f}'
    ||| character == '\u{205f}'
    ||| character == '\u{3000}'
}

/// `char::is_whitespace` tells whether a character has the `White_Space` property.
pub assume_specification[ char::is_whitespace ](character: char) -> (found: bool)
    ensures
        found == is_white_space(character),
;

/// What stands between two pieces of a text.
#[derive(Clone, Copy, Debug, PartialEq, Eq, Structural)]
pub enum Separator {
    Comma,
    WhiteSpace,
}

impl Separator {
    /// `character` separates pieces.
    pub open spec fn separates(self, character: char) -> bool {
        match self {
            Separator::Comma => character == ',',
            Separator::WhiteSpace => is_white_space(character),
        }
    }

    fn is_at(self, character: char) -> (found: bool)
        ensures
            found == self.separates(character),
    {
        match self {
            Separator::Comma => character == ',',
            Separator::WhiteSpace => character.is_whitespace(),
        }
    }
}

/// The pieces of a text between its separators, without the empty ones.
pub open spec fn pieces(text: Seq<char>, separator: Separator) -> Seq<Seq<char>>
    decreases text.len(),
{
    if text.len() == 0 {
        Seq::empty()
    } else {
        let before = pieces(text.drop_last(), separator);
        if separator.separates(text.last()) {
            before
        } else if text.len() > 1 && !separator.separates(text[text.len() - 2]) {
            before.drop_last().push(before.last().push(text.last()))
        } else {
            before.push(seq![text.last()])
        }
    }
}

/// A text that does not end in a separator has pieces.
proof fn lemma_pieces_end(text: Seq<char>, separator: Separator)
    ensures
        text.len() > 0 && !separator.separates(text.last()) ==> pieces(text, separator).len() > 0,
    decreases text.len(),
{
    if text.len() > 1 {
        lemma_pieces_end(text.drop_last(), separator);
    }
}

/// No piece is empty, and none holds a separator.
pub proof fn law_pieces_are_whole(text: Seq<char>, separator: Separator, i: int)
    requires
        0 <= i < pieces(text, separator).len(),
    ensures
        pieces(text, separator)[i].len() > 0,
        forall|k: int|
            0 <= k < pieces(text, separator)[i].len() ==> !separator.separates(
                #[trigger] pieces(text, separator)[i][k],
            ),
    decreases text.len(),
{
    if text.len() > 0 {
        let rest = text.drop_last();
        let before = pieces(rest, separator);
        lemma_pieces_end(rest, separator);
        if i < before.len() {
            law_pieces_are_whole(rest, separator, i);
        }
    }
}

/// The characters of a text that separate nothing.
pub open spec fn kept_characters(text: Seq<char>, separator: Separator) -> Seq<char>
    decreases text.len(),
{
    if text.len() == 0 {
        Seq::empty()
    } else if separator.separates(text.last()) {
        kept_characters(text.drop_last(), separator)
    } else {
        kept_characters(text.drop_last(), separator).push(text.last())
    }
}

/// The pieces hold all characters of the text that separate nothing, in order.
pub proof fn law_pieces_lose_nothing(text: Seq<char>, separator: Separator)
    ensures
        joined(pieces(text, separator), Seq::empty()) == kept_characters(text, separator),
    decreases text.len(),
{
    if text.len() > 0 {
        let rest = text.drop_last();
        let before = pieces(rest, separator);
        let after = pieces(text, separator);
        law_pieces_lose_nothing(rest, separator);
        lemma_pieces_end(rest, separator);
        if !separator.separates(text.last()) {
            if text.len() > 1 && !separator.separates(text[text.len() - 2]) {
                lemma_joined_last(before);
                lemma_joined_last(after);
                assert(after.drop_last() =~= before.drop_last());
                assert(joined(after, Seq::empty()) =~= joined(before, Seq::empty()).push(
                    text.last(),
                ));
            } else {
                lemma_joined_last(after);
                assert(after.drop_last() =~= before);
                assert(joined(after, Seq::empty()) =~= joined(before, Seq::empty()).push(
                    text.last(),
                ));
            }
        }
    }
}

proof fn lemma_joined_last(parts: Seq<Seq<char>>)
    requires
        parts.len() > 0,
    ensures
        joined(parts, Seq::empty()) == joined(parts.drop_last(), Seq::empty()) + parts.last(),
{
    if parts.len() == 1 {
        assert(joined(parts.drop_last(), Seq::empty()) =~= Seq::empty());
        assert(Seq::<char>::empty() + parts[0] =~= parts[0]);
    } else {
        assert(joined(parts.drop_last(), Seq::empty()) + Seq::<char>::empty() =~= joined(
            parts.drop_last(),
            Seq::empty(),
        ));
    }
}

/// The contents of some strings.
pub open spec fn texts(strings: Seq<String>) -> Seq<Seq<char>> {
    strings.map_values(|string: String| string@)
}

/// The pieces of a text between its separators, without the empty ones.
pub fn split(text: &str, separator: Separator) -> (found: Vec<String>)
    ensures
        texts(found@) == pieces(text@, separator),
{
    let mut found: Vec<String> = Vec::new();
    let mut current = String::new();
    let mut open = false;
    let ghost whole = text@;
    for character in characters: text.chars()
        invariant
            characters.seq() == whole,
            open == (characters.index() > 0 && !separator.separates(
                whole[characters.index() - 1],
            )),
            open ==> pieces(whole.take(characters.index() as int), separator) == texts(found@).push(
                current@,
            ),
            !open ==> pieces(whole.take(characters.index() as int), separator) == texts(found@)
                && current@.len() == 0,
    {
        proof {
            let i = characters.index() as int;
            assert(whole.take(i + 1).drop_last() =~= whole.take(i));
            assert(whole.take(i + 1).last() == character);
            if i > 0 {
                assert(whole.take(i + 1)[i - 1] == whole[i - 1]);
            }
        }
        let ghost before = texts(found@);
        if separator.is_at(character) {
            if open {
                found.push(current);
                current = String::new();
                open = false;
                assert(texts(found@) =~= before.push(found@.last()@));
            }
        } else {
            let ghost old_current = current@;
            current.push(character);
            assert(before.push(old_current).drop_last() =~= before);
            if !open {
                assert(current@ =~= seq![character]);
            }
            open = true;
        }
    }
    assert(whole.take(whole.len() as int) =~= whole);
    if open {
        let ghost before = texts(found@);
        found.push(current);
        assert(texts(found@) =~= before.push(found@.last()@));
    }
    found
}

/// Where the first line of a text ends: at its first newline, or at the end of the text.
pub open spec fn line_end(text: Seq<char>) -> nat
    decreases text.len(),
{
    if text.len() == 0 || text[0] == '\n' {
        0
    } else {
        1 + line_end(text.drop_first())
    }
}

/// A line without the carriage return that belongs to its ending.
pub open spec fn without_return(line: Seq<char>) -> Seq<char> {
    if line.len() > 0 && line.last() == '\r' {
        line.drop_last()
    } else {
        line
    }
}

/// The lines of a text. A newline, or a carriage return and a newline, ends a line and is not part
/// of it; the last line may go without.
pub open spec fn lines(text: Seq<char>) -> Seq<Seq<char>>
    decreases text.len(),
{
    if text.len() == 0 {
        Seq::empty()
    } else if line_end(text) >= text.len() {
        seq![text]
    } else {
        let end = line_end(text) as int;
        seq![without_return(text.take(end))] + lines(text.skip(end + 1))
    }
}

/// No line holds a newline.
pub proof fn law_lines_are_single(text: Seq<char>, i: int)
    requires
        0 <= i < lines(text).len(),
    ensures
        !lines(text)[i].contains('\n'),
    decreases text.len(),
{
    lemma_before_line_end(text);
    if line_end(text) < text.len() {
        let end = line_end(text) as int;
        let line = without_return(text.take(end));
        if i == 0 {
            assert(lines(text)[0] == line);
            assert forall|k: int| 0 <= k < line.len() implies #[trigger] line[k] != '\n' by {
                assert(line[k] == text[k]);
            }
        } else {
            law_lines_are_single(text.skip(end + 1), i - 1);
        }
    }
}

proof fn lemma_before_line_end(text: Seq<char>)
    ensures
        line_end(text) <= text.len(),
        forall|k: int| 0 <= k < line_end(text) ==> #[trigger] text[k] != '\n',
    decreases text.len(),
{
    if text.len() > 0 && text[0] != '\n' {
        let rest = text.drop_first();
        lemma_before_line_end(rest);
        assert forall|k: int| 0 <= k < line_end(text) implies #[trigger] text[k] != '\n' by {
            if k > 0 {
                assert(rest[k - 1] == text[k]);
            }
        }
    }
}

/// The first line of a text that starts with a line.
proof fn lemma_line_end(line: Seq<char>, rest: Seq<char>)
    requires
        forall|i: int| 0 <= i < line.len() ==> #[trigger] line[i] != '\n',
    ensures
        line_end(line + rest) == line.len() + line_end(rest),
    decreases line.len(),
{
    if line.len() == 0 {
        assert(line + rest =~= rest);
    } else {
        assert((line + rest).drop_first() =~= line.drop_first() + rest);
        lemma_line_end(line.drop_first(), rest);
    }
}

/// What a newline does to the lines of a text.
proof fn lemma_line(line: Seq<char>, rest: Seq<char>)
    requires
        forall|i: int| 0 <= i < line.len() ==> #[trigger] line[i] != '\n',
        rest.len() > 0,
        rest[0] == '\n',
    ensures
        lines(line + rest) == seq![without_return(line)] + lines(rest.drop_first()),
{
    lemma_line_end(line, rest);
    let text = line + rest;
    assert(text.take(line.len() as int) =~= line);
    assert(text.skip(line.len() as int + 1) =~= rest.drop_first());
}

/// A text without newlines is one line.
proof fn lemma_last_line(line: Seq<char>)
    requires
        forall|i: int| 0 <= i < line.len() ==> #[trigger] line[i] != '\n',
        line.len() > 0,
    ensures
        lines(line) == seq![line],
{
    lemma_line_end(line, Seq::empty());
    assert(line + Seq::<char>::empty() =~= line);
}

/// The lines of a text.
pub fn split_lines(text: &str) -> (found: Vec<String>)
    ensures
        texts(found@) == lines(text@),
{
    let mut found: Vec<String> = Vec::new();
    // The line so far, and whether a carriage return follows it.
    let mut current = String::new();
    let mut held = false;
    let ghost mut line: Seq<char> = Seq::empty();
    let ghost whole = text@;
    assert(whole =~= line + whole.skip(0));
    assert(texts(found@) =~= Seq::empty());
    assert(lines(whole) =~= texts(found@) + lines(line + whole.skip(0)));
    for character in characters: text.chars()
        invariant
            characters.seq() == whole,
            line == if held {
                current@.push('\r')
            } else {
                current@
            },
            !held ==> line.len() == 0 || line.last() != '\r',
            forall|i: int| 0 <= i < line.len() ==> #[trigger] line[i] != '\n',
            lines(whole) == texts(found@) + lines(line + whole.skip(characters.index() as int)),
    {
        let ghost before = texts(found@);
        let ghost rest = whole.skip(characters.index() as int);
        let ghost old_line = line;
        let ghost next = whole.skip(characters.index() + 1);
        assert(rest.drop_first() =~= next);
        assert(rest =~= seq![character] + next);
        if character == '\n' {
            proof {
                lemma_line(line, rest);
                assert(without_return(current@.push('\r')) =~= current@);
            }
            found.push(current);
            current = String::new();
            held = false;
            proof {
                line = Seq::empty();
                assert(texts(found@) =~= before.push(found@.last()@));
                assert(line + next =~= next);
            }
        } else {
            if held {
                current.push('\r');
            }
            held = character == '\r';
            if !held {
                current.push(character);
            }
            proof {
                line = line.push(character);
                assert(line + next =~= old_line + rest);
            }
        }
    }
    proof {
        assert(whole.skip(whole.len() as int) =~= Seq::empty());
        assert(line + Seq::<char>::empty() =~= line);
        if line.len() > 0 {
            lemma_last_line(line);
        }
    }
    if held {
        current.push('\r');
    }
    if !current.as_str().is_empty() {
        let ghost before = texts(found@);
        found.push(current);
        assert(texts(found@) =~= before.push(found@.last()@));
    }
    found
}

/// Some texts with a separator between them.
pub open spec fn joined(parts: Seq<Seq<char>>, separator: Seq<char>) -> Seq<char>
    decreases parts.len(),
{
    if parts.len() == 0 {
        Seq::empty()
    } else if parts.len() == 1 {
        parts[0]
    } else {
        joined(parts.drop_last(), separator) + separator + parts.last()
    }
}

/// Some texts with a separator between them.
pub fn join(parts: &Vec<String>, separator: &str) -> (whole: String)
    ensures
        whole@ == joined(texts(parts@), separator@),
{
    let mut whole = String::new();
    let mut i: usize = 0;
    while i < parts.len()
        invariant
            i <= parts.len(),
            whole@ == joined(texts(parts@).take(i as int), separator@),
        decreases parts.len() - i,
    {
        if i > 0 {
            whole.append(separator);
        }
        whole.append(parts[i].as_str());
        proof {
            let all = texts(parts@);
            assert(all.take(i + 1).drop_last() =~= all.take(i as int));
            assert(all.take(i + 1).last() == parts@[i as int]@);
            if i == 0 {
                assert(all.take(1)[0] == all[0]);
            }
        }
        i += 1;
    }
    assert(texts(parts@).take(parts.len() as int) =~= texts(parts@));
    whole
}

/// A text without separators is one piece, or none where it is empty.
pub proof fn law_piece_alone(word: Seq<char>, separator: Separator)
    requires
        forall|i: int| 0 <= i < word.len() ==> !separator.separates(#[trigger] word[i]),
    ensures
        pieces(word, separator) == if word.len() == 0 {
            Seq::<Seq<char>>::empty()
        } else {
            seq![word]
        },
    decreases word.len(),
{
    if word.len() > 0 {
        let rest = word.drop_last();
        assert(forall|i: int| 0 <= i < rest.len() ==> #[trigger] rest[i] == word[i]);
        law_piece_alone(rest, separator);
        assert(rest.push(word.last()) =~= word);
        if word.len() == 1 {
            assert(seq![word.last()] =~= word);
        } else {
            assert(!separator.separates(word[word.len() - 2]));
            assert(seq![rest].drop_last() =~= Seq::<Seq<char>>::empty());
        }
        assert(pieces(word, separator) =~= seq![word]);
    }
}

/// The pieces of two texts with a separator between them are those of the first and those of the
/// second. With the pieces of texts without separators this says what the pieces of any text are.
pub proof fn law_pieces_at_separator(
    first: Seq<char>,
    character: char,
    second: Seq<char>,
    separator: Separator,
)
    requires
        separator.separates(character),
    ensures
        pieces(first.push(character) + second, separator) == pieces(first, separator) + pieces(
            second,
            separator,
        ),
    decreases second.len(),
{
    let whole = first.push(character) + second;
    let before = pieces(first, separator);
    if second.len() == 0 {
        assert(whole =~= first.push(character));
        assert(whole.drop_last() =~= first);
        assert(before + pieces(second, separator) =~= before);
    } else {
        let rest = second.drop_last();
        let last = second.last();
        let after = pieces(rest, separator);
        law_pieces_at_separator(first, character, rest, separator);
        assert(whole.drop_last() =~= first.push(character) + rest);
        assert(whole.last() == last);
        lemma_pieces_end(rest, separator);
        if !separator.separates(last) {
            if rest.len() == 0 {
                assert(whole[whole.len() - 2] == character);
                assert((before + after).push(seq![last]) =~= before + after.push(seq![last]));
            } else {
                assert(whole[whole.len() - 2] == second[second.len() - 2]);
                if !separator.separates(second[second.len() - 2]) {
                    assert((before + after).last() == after.last());
                    assert((before + after).drop_last() =~= before + after.drop_last());
                    assert((before + after.drop_last()).push(after.last().push(last)) =~= before
                        + after.drop_last().push(after.last().push(last)));
                } else {
                    assert((before + after).push(seq![last]) =~= before + after.push(seq![last]));
                }
            }
        }
    }
}

/// Which characters separate: the comma, or those with the `White_Space` property.
pub proof fn law_separators(character: char)
    ensures
        Separator::Comma.separates(character) <==> character == ',',
        Separator::WhiteSpace.separates(character) <==> is_white_space(character),
{
}

/// The lines of a text are its first line, without the carriage return that may end it, and the
/// lines of what follows the first newline. A text without newlines is one line as it is, or none
/// where it is empty.
pub proof fn law_lines_at_newline(line: Seq<char>, rest: Seq<char>)
    requires
        !line.contains('\n'),
    ensures
        lines(line.push('\n') + rest) == seq![
            if line.len() > 0 && line[line.len() - 1] == '\r' {
                line.take(line.len() - 1)
            } else {
                line
            },
        ] + lines(rest),
        lines(line) == if line.len() == 0 {
            Seq::<Seq<char>>::empty()
        } else {
            seq![line]
        },
{
    assert forall|i: int| 0 <= i < line.len() implies #[trigger] line[i] != '\n' by {
        assert(line.contains(line[i]));
    }
    let tail = seq!['\n'] + rest;
    lemma_line(line, tail);
    assert(tail.drop_first() =~= rest);
    assert(line + tail =~= line.push('\n') + rest);
    if line.len() > 0 {
        lemma_last_line(line);
        assert(line.drop_last() =~= line.take(line.len() - 1));
    }
}

/// Joining puts the separator between two texts, and nothing before the first or after the last.
pub proof fn law_joined(parts: Seq<Seq<char>>, part: Seq<char>, separator: Seq<char>)
    ensures
        joined(Seq::empty(), separator) == Seq::<char>::empty(),
        joined(seq![part], separator) == part,
        parts.len() > 0 ==> joined(parts.push(part), separator) == joined(parts, separator)
            + separator + part,
{
    assert(parts.push(part).drop_last() =~= parts);
}

/// The contents of some strings are those of each of them.
pub proof fn law_texts(strings: Seq<String>)
    ensures
        texts(strings).len() == strings.len(),
        forall|i: int| 0 <= i < strings.len() ==> #[trigger] texts(strings)[i] == strings[i]@,
{
}

} // verus!
