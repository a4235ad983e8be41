//! Editing a proof in an editor, until it can be read or the user gives up.
use vstd::prelude::*;
use vstd::string::StringExecFns;

use crate::text::{law_lines_at_newline, lines, pieces, split, split_lines, texts, Separator};

verus! {

/// Why a text was not edited.
#[derive(Debug, PartialEq, Eq)]
pub enum EditError {
    /// The editor with that name could not be started.
    CannotStart(String),
    /// The editor ended with that status, which is not success.
    EditorFailed(String),
    /// The user did not want to go on.
    Canceled,
}

impl EditError {
    /// The text of the error.
    pub open spec fn text(self) -> Seq<char> {
        match self {
            EditError::CannotStart(editor) => "Couldn't start the editor: "@ + editor@,
            EditError::EditorFailed(status) => "Editor returned "@ + status@,
            EditError::Canceled => "User canceled"@,
        }
    }

    /// The text of the error.
    pub fn message(&self) -> (message: String)
        ensures
            message@ == self.text(),
    {
        match self {
            EditError::CannotStart(editor) => concat("Couldn't start the editor: ", editor),
            EditError::EditorFailed(status) => concat("Editor returned ", status),
            EditError::Canceled => "User canceled".to_string(),
        }
    }
}

/// Two texts, one after the other.
fn concat(first: &str, second: &String) -> (both: String)
    ensures
        both@ == first@ + second@,
{
    let mut both = first.to_string();
    both.append(second.as_str());
    both
}

/// The value of an environment variable.
#[derive(Debug, PartialEq, Eq)]
pub enum Variable {
    Text(String),
    /// A value that is not Unicode.
    Opaque,
}

/// How an editor is started.
#[derive(Debug, PartialEq, Eq)]
pub enum EditorCommand {
    /// By these words: the program and its arguments.
    Words(Vec<String>),
    /// By the value of the variable `VISUAL`, as it is.
    Visual,
    /// By the value of the variable `EDITOR`, as it is.
    Editor,
}

impl EditorCommand {
    /// The command that the two variables give: the words of the first that is set, or its value
    /// as it is where it is not Unicode, and `vi` where neither is set.
    pub open spec fn is_given_by(
        self,
        visual: Option<Variable>,
        editor: Option<Variable>,
    ) -> bool {
        match (visual, editor) {
            (Some(Variable::Text(text)), _) => self matches EditorCommand::Words(words) && texts(
                words@,
            ) == pieces(text@, Separator::WhiteSpace),
            (Some(Variable::Opaque), _) => self == EditorCommand::Visual,
            (None, Some(Variable::Text(text))) => self matches EditorCommand::Words(words)
                && texts(words@) == pieces(text@, Separator::WhiteSpace),
            (None, Some(Variable::Opaque)) => self == EditorCommand::Editor,
            (None, None) => self matches EditorCommand::Words(words) && texts(words@) == seq![
                "vi"@,
            ],
        }
    }
}

/// How to start the editor that the variables `VISUAL` and `EDITOR` give.
pub fn get_editor_to_use(visual: &Option<Variable>, editor: &Option<Variable>) -> (command:
    EditorCommand)
    ensures
        command.is_given_by(*visual, *editor),
{
    match (visual, editor) {
        (Some(Variable::Text(text)), _) => EditorCommand::Words(
            split(text.as_str(), Separator::WhiteSpace),
        ),
        (Some(Variable::Opaque), _) => EditorCommand::Visual,
        (None, Some(Variable::Text(text))) => EditorCommand::Words(
            split(text.as_str(), Separator::WhiteSpace),
        ),
        (None, Some(Variable::Opaque)) => EditorCommand::Editor,
        (None, None) => {
            let mut words: Vec<String> = Vec::new();
            words.push("vi".to_string());
            assert(texts(words@) =~= seq!["vi"@]);
            EditorCommand::Words(words)
        },
    }
}

/// What the end of an editor means: `started` says whether it ran, and if so whether it succeeded
/// and with what status.
pub fn edit_file(command: String, started: Option<(bool, String)>) -> (edited: Result<
    (),
    EditError,
>)
    ensures
        match started {
            None => edited matches Err(error) && error == EditError::CannotStart(command),
            Some((success, status)) => if success {
                edited is Ok
            } else {
                edited matches Err(error) && error == EditError::EditorFailed(status)
            },
        },
{
    match started {
        None => Err(EditError::CannotStart(command)),
        Some((success, status)) => if success {
            Ok(())
        } else {
            Err(EditError::EditorFailed(status))
        },
    }
}

/// What a proof is about.
#[derive(Clone, Copy, Debug, PartialEq, Eq, Structural)]
pub enum Content {
    Trust,
    Code,
    Package,
}

/// How each content is to be edited.
#[derive(Debug, PartialEq, Eq)]
pub struct Documentation {
    pub trust: String,
    pub code_review: String,
    pub package_review: String,
}

/// How a content is to be edited.
pub fn get_documentation_for<'a>(content: Content, documentation: &'a Documentation) -> (text:
    &'a String)
    ensures
        *text == match content {
            Content::Trust => documentation.trust,
            Content::Code => documentation.code_review,
            Content::Package => documentation.package_review,
        },
{
    match content {
        Content::Trust => &documentation.trust,
        Content::Code => &documentation.code_review,
        Content::Package => &documentation.package_review,
    }
}

/// A line of a comment.
pub open spec fn comment(line: Seq<char>) -> Seq<char> {
    "# "@ + line + "\n"@
}

/// Some lines as a comment.
pub open spec fn comments(lines: Seq<Seq<char>>) -> Seq<char>
    decreases lines.len(),
{
    if lines.len() == 0 {
        Seq::empty()
    } else {
        comments(lines.drop_last()) + comment(lines.last())
    }
}

/// The text that is edited first: the title as a comment, the draft, and the documentation as a
/// comment.
pub open spec fn first_text(title: Seq<char>, draft: Seq<char>, documentation: Seq<char>) -> Seq<
    char,
> {
    comment(title) + draft + "\n\n"@ + comments(lines(documentation))
}

/// Appends a line of a comment.
fn append_comment(text: &mut String, line: &String)
    ensures
        final(text)@ == old(text)@ + comment(line@),
{
    text.append("# ");
    text.append(line.as_str());
    text.append("\n");
    assert(text@ =~= old(text)@ + comment(line@));
}

/// The text that is edited first.
fn compose(title: &String, draft: &String, documentation: &String) -> (text: String)
    ensures
        text@ == first_text(title@, draft@, documentation@),
{
    let mut text = String::new();
    append_comment(&mut text, title);
    text.append(draft.as_str());
    text.append("\n\n");
    let ghost head = comment(title@) + draft@ + "\n\n"@;
    assert(text@ =~= head);
    let found = split_lines(documentation.as_str());
    let mut i: usize = 0;
    assert(head + comments(texts(found@).take(0)) =~= head);
    while i < found.len()
        invariant
            i <= found.len(),
            text@ == head + comments(texts(found@).take(i as int)),
        decreases found.len() - i,
    {
        append_comment(&mut text, &found[i]);
        proof {
            let all = texts(found@);
            assert(all.take(i + 1).drop_last() =~= all.take(i as int));
            assert(all.take(i + 1).last() == found@[i as int]@);
            assert(text@ =~= head + comments(all.take(i + 1)));
        }
        i += 1;
    }
    assert(texts(found@).take(i as int) =~= texts(found@));
    text
}

/// What to do next in a session.
#[derive(Clone, Copy, Debug, PartialEq, Eq, Structural)]
pub enum EditStep {
    /// Have the text edited.
    Edit,
    /// Read a content from the text.
    Parse,
    /// Show the message and ask the question.
    Ask,
    /// Take the outcome.
    Finish,
}

/// Where a session stands.
pub enum Stage<T> {
    /// The text is to be edited.
    Editing,
    /// The edited text is to be read.
    Parsing,
    /// The text could not be read, for that reason.
    Asking(String),
    /// The session is over.
    Over(Result<T, EditError>),
}

/// The editing of a proof.
pub struct EditSession<T> {
    /// The text as it stands.
    pub text: String,
    pub stage: Stage<T>,
}

/// Starts the editing of a proof with that title and draft.
pub fn edit_proof_content_iteractively<T>(
    title: &String,
    draft: &String,
    documentation: &String,
) -> (session: EditSession<T>)
    ensures
        session.text@ == first_text(title@, draft@, documentation@),
        session.text@.len() >= title@.len() + draft@.len() + 5,
        session.text@.subrange(2, title@.len() as int + 2) == title@,
        session.text@.subrange(
            title@.len() as int + 3,
            title@.len() as int + 3 + draft@.len(),
        ) == draft@,
        session.stage == Stage::<T>::Editing,
{
    let text = compose(title, draft, documentation);
    proof {
        law_first_text_holds_draft(title@, draft@, documentation@);
    }
    EditSession { text, stage: Stage::Editing }
}

impl<T> EditSession<T> {
    /// The session after its text was edited, or after the editor gave an error.
    pub open spec fn with_edit(self, outcome: Result<String, EditError>) -> EditSession<T> {
        match outcome {
            Ok(text) => EditSession { text, stage: Stage::Parsing },
            Err(error) => EditSession { stage: Stage::Over(Err(error)), ..self },
        }
    }

    /// The session after a content was read from its text, or could not be.
    pub open spec fn with_content(self, outcome: Result<T, String>) -> EditSession<T> {
        EditSession {
            stage: match outcome {
                Ok(content) => Stage::Over(Ok(content)),
                Err(reason) => Stage::Asking(reason),
            },
            ..self
        }
    }

    /// The session after the user said whether to go on.
    pub open spec fn with_answer(self, yes: bool) -> EditSession<T> {
        EditSession {
            stage: if yes {
                Stage::Editing
            } else {
                Stage::Over(Err(EditError::Canceled))
            },
            ..self
        }
    }

    /// What to do next.
    pub fn step(&self) -> (step: EditStep)
        ensures
            step == match self.stage {
                Stage::Editing => EditStep::Edit,
                Stage::Parsing => EditStep::Parse,
                Stage::Asking(_) => EditStep::Ask,
                Stage::Over(_) => EditStep::Finish,
            },
    {
        match &self.stage {
            Stage::Editing => EditStep::Edit,
            Stage::Parsing => EditStep::Parse,
            Stage::Asking(_) => EditStep::Ask,
            Stage::Over(_) => EditStep::Finish,
        }
    }

    /// Takes the text that was edited, or the error that the editor gave.
    pub fn edited(&mut self, outcome: Result<String, EditError>)
        requires
            old(self).stage is Editing,
        ensures
            *final(self) == old(self).with_edit(outcome),
    {
        match outcome {
            Ok(text) => {
                self.text = text;
                self.stage = Stage::Parsing;
            },
            Err(error) => {
                self.stage = Stage::Over(Err(error));
            },
        }
    }

    /// Takes the content that was read from the text, or the reason why none was.
    pub fn parsed(&mut self, outcome: Result<T, String>)
        requires
            old(self).stage is Parsing,
        ensures
            *final(self) == old(self).with_content(outcome),
    {
        self.stage = match outcome {
            Ok(content) => Stage::Over(Ok(content)),
            Err(reason) => Stage::Asking(reason),
        };
    }

    /// What to show where the text could not be read.
    pub fn message(&self) -> (message: String)
        requires
            self.stage is Asking,
        ensures
            self.stage matches Stage::Asking(reason) && message@
                == "There was an error parsing content: "@ + reason@,
    {
        match &self.stage {
            Stage::Asking(reason) => concat("There was an error parsing content: ", reason),
            _ => String::new(),
        }
    }

    /// What to ask where the text could not be read.
    pub fn question(&self) -> (question: String)
        requires
            self.stage is Asking,
        ensures
            question@ == "Try again (y/n) "@,
    {
        "Try again (y/n) ".to_string()
    }

    /// Takes the answer: with yes the same text is edited once more, with no the session is over.
    pub fn answered(&mut self, yes: bool)
        requires
            old(self).stage is Asking,
        ensures
            *final(self) == old(self).with_answer(yes),
    {
        self.stage = if yes {
            Stage::Editing
        } else {
            Stage::Over(Err(EditError::Canceled))
        };
    }

    /// The content that was read, or the error that ended the session.
    pub fn finish(self) -> (outcome: Result<T, EditError>)
        requires
            self.stage is Over,
        ensures
            self.stage == Stage::Over(outcome),
    {
        match self.stage {
            Stage::Over(outcome) => outcome,
            _ => Err(EditError::Canceled),
        }
    }
}

/// Where a text could not be read and the user goes on, it is the text that was edited last that is
/// edited again.
pub proof fn law_retry_keeps_text<T>(session: EditSession<T>, text: String, reason: String)
    requires
        session.stage is Editing,
    ensures
        session.with_edit(Ok(text)).with_content(Err(reason)).with_answer(true) == (EditSession {
            text,
            stage: Stage::<T>::Editing,
        }),
{
}

/// A session ends with a content as soon as one can be read, with the editor's error as soon as
/// there is one, and with a cancellation as soon as the user does not go on.
pub proof fn law_session_ends<T>(
    session: EditSession<T>,
    text: String,
    reason: String,
    content: T,
    error: EditError,
)
    requires
        session.stage is Editing,
    ensures
        session.with_edit(Err(error)).stage == Stage::<T>::Over(Err(error)),
        session.with_edit(Ok(text)).with_content(Ok(content)).stage == Stage::Over(Ok(content)),
        session.with_edit(Ok(text)).with_content(Err(reason)).with_answer(false).stage == Stage::<
            T,
        >::Over(Err(EditError::Canceled)),
{
}

/// Whether a result is no error, and what to print of it.
pub fn err_eprint_and_ignore<O>(result: Result<O, String>) -> (outcome: (bool, Option<String>))
    ensures
        outcome == match result {
            Ok(_) => (true, None),
            Err(message) => (false, Some(message)),
        },
{
    match result {
        Ok(_) => (true, None),
        Err(message) => (false, Some(message)),
    }
}

proof fn lemma_literals()
    ensures
        "# "@ == seq!['#', ' '],
        "\n"@ == seq!['\n'],
        "\n\n"@ == seq!['\n', '\n'],
{
    reveal_strlit("# ");
    reveal_strlit("\n");
    reveal_strlit("\n\n");
    assert("# "@ =~= seq!['#', ' ']);
    assert("\n"@ =~= seq!['\n']);
    assert("\n\n"@ =~= seq!['\n', '\n']);
}

/// The text that is edited first is a number sign, a space, the title, a newline, the draft as it is
/// and two newlines; the documentation follows, and where there is none that is all.
pub proof fn law_first_text_holds_draft(
    title: Seq<char>,
    draft: Seq<char>,
    documentation: Seq<char>,
)
    ensures
        ({
            let text = first_text(title, draft, documentation);
            let t = title.len() as int;
            let d = draft.len() as int;
            &&& text.len() >= t + d + 5
            &&& text[0] == '#'
            &&& text[1] == ' '
            &&& text.subrange(2, t + 2) == title
            &&& text[t + 2] == '\n'
            &&& text.subrange(t + 3, t + 3 + d) == draft
            &&& text[t + d + 3] == '\n'
            &&& text[t + d + 4] == '\n'
            &&& documentation.len() == 0 ==> text.len() == t + d + 5
        }),
{
    lemma_literals();
    let text = first_text(title, draft, documentation);
    let t = title.len() as int;
    let d = draft.len() as int;
    let head = comment(title);
    assert(head.len() == t + 3);
    assert forall|k: int| 0 <= k < t implies #[trigger] text[k + 2] == title[k] by {}
    assert(text.subrange(2, t + 2) =~= title);
    assert(text.subrange(t + 3, t + 3 + d) =~= draft);
    if documentation.len() == 0 {
        assert(comments(lines(documentation)) =~= Seq::empty());
    }
}

/// Each line of the documentation follows as a number sign, a space, the line without its ending,
/// and a newline, in order.
pub proof fn law_first_text_holds_documentation(
    title: Seq<char>,
    draft: Seq<char>,
    line: Seq<char>,
    rest: Seq<char>,
)
    requires
        !line.contains('\n'),
        line.len() == 0 || line[line.len() - 1] != '\r',
    ensures
        ({
            let start = first_text(title, draft, Seq::empty());
            let shown = start + seq!['#', ' '] + line + seq!['\n'];
            let after = first_text(title, draft, rest).skip(start.len() as int);
            &&& first_text(title, draft, line.push('\n') + rest) == shown + after
            &&& first_text(title, draft, line.push('\r').push('\n') + rest) == shown + after
            &&& line.len() > 0 ==> first_text(title, draft, line) == shown
        }),
{
    lemma_literals();
    let start = first_text(title, draft, Seq::empty());
    let head = comment(title) + draft + "\n\n"@;
    assert(lines(Seq::<char>::empty()) =~= Seq::empty());
    assert(start =~= head);
    assert(first_text(title, draft, rest) =~= start + comments(lines(rest)));
    let after = first_text(title, draft, rest).skip(start.len() as int);
    assert(after =~= comments(lines(rest)));
    law_lines_at_newline(line, rest);
    lemma_comments_concat(seq![line], lines(rest));
    assert(seq![line].drop_last() =~= Seq::<Seq<char>>::empty());
    assert(comments(seq![line]) =~= seq!['#', ' '] + line + seq!['\n']) by {
        assert(comments(Seq::<Seq<char>>::empty()) =~= Seq::empty());
    }
    let shown = start + seq!['#', ' '] + line + seq!['\n'];
    assert(first_text(title, draft, line.push('\n') + rest) =~= shown + after);
    let returned = line.push('\r');
    assert forall|i: int| 0 <= i < returned.len() implies #[trigger] returned[i] != '\n' by {
        if i < line.len() {
            assert(line.contains(line[i]));
        }
    }
    law_lines_at_newline(returned, rest);
    assert(returned.take(returned.len() - 1) =~= line);
    assert(first_text(title, draft, returned.push('\n') + rest) =~= shown + after);
    if line.len() > 0 {
        assert(first_text(title, draft, line) =~= shown);
    }
}

proof fn lemma_comments_concat(a: Seq<Seq<char>>, b: Seq<Seq<char>>)
    ensures
        comments(a + b) == comments(a) + comments(b),
    decreases b.len(),
{
    if b.len() == 0 {
        assert(a + b =~= a);
        assert(comments(a) + comments(b) =~= comments(a));
    } else {
        assert((a + b).drop_last() =~= a + b.drop_last());
        lemma_comments_concat(a, b.drop_last());
        assert(comments(a + b) =~= comments(a) + comments(b));
    }
}

/// The first variable that is set gives the command, whatever the second is: by the words of its
/// value, or as it is where it is not Unicode. Where neither is set the command is the word `vi`.
pub proof fn law_editor_of_variables(
    command: EditorCommand,
    visual: Option<Variable>,
    editor: Option<Variable>,
)
    requires
        command.is_given_by(visual, editor),
    ensures
        visual == Some(Variable::Opaque) ==> command is Visual,
        visual is None && editor == Some(Variable::Opaque) ==> command is Editor,
        visual matches Some(Variable::Text(text)) ==> {
            &&& command matches EditorCommand::Words(words)
            &&& words@.len() == pieces(text@, Separator::WhiteSpace).len()
            &&& forall|i: int|
                0 <= i < words@.len() ==> (#[trigger] words@[i])@ == pieces(
                    text@,
                    Separator::WhiteSpace,
                )[i]
        },
        visual is None ==> (editor matches Some(Variable::Text(text)) ==> {
            &&& command matches EditorCommand::Words(words)
            &&& words@.len() == pieces(text@, Separator::WhiteSpace).len()
            &&& forall|i: int|
                0 <= i < words@.len() ==> (#[trigger] words@[i])@ == pieces(
                    text@,
                    Separator::WhiteSpace,
                )[i]
        }),
        visual is None && editor is None ==> (command matches EditorCommand::Words(words)
            && words@.len() == 1 && words@[0]@ == "vi"@),
{
    if let EditorCommand::Words(words) = command {
        assert(texts(words@).len() == words@.len());
        assert(forall|i: int| 0 <= i < words@.len() ==> #[trigger] texts(words@)[i] == words@[i]@);
        if visual is None && editor is None {
            assert(texts(words@).len() == 1);
            assert(texts(words@)[0] == "vi"@);
        }
    }
}

/// What the errors say.
pub proof fn law_edit_error_texts(text: String)
    ensures
        EditError::CannotStart(text).text() == "Couldn't start the editor: "@ + text@,
        EditError::EditorFailed(text).text() == "Editor returned "@ + text@,
        EditError::Canceled.text() == "User canceled"@,
{
}

} // verus!
