use crev_repo::edit::{
    edit_file, edit_proof_content_iteractively, err_eprint_and_ignore, get_documentation_for,
    get_editor_to_use, Content, Documentation, EditError, EditSession, EditStep, EditorCommand,
    Variable,
};

fn text(text: &str) -> Option<Variable> {
    Some(Variable::Text(text.to_string()))
}

fn words(words: &[&str]) -> EditorCommand {
    EditorCommand::Words(words.iter().map(|word| word.to_string()).collect())
}

#[test]
fn visual_comes_before_editor() {
    assert_eq!(get_editor_to_use(&text("emacs"), &text("nano")), words(&["emacs"]));
    assert_eq!(get_editor_to_use(&None, &text("nano -w")), words(&["nano", "-w"]));
    assert_eq!(get_editor_to_use(&None, &None), words(&["vi"]));
    assert_eq!(get_editor_to_use(&text(""), &text("nano")), words(&[]));
}

#[test]
fn a_value_that_is_not_unicode_is_taken_as_it_is() {
    assert_eq!(get_editor_to_use(&Some(Variable::Opaque), &text("nano")), EditorCommand::Visual);
    assert_eq!(get_editor_to_use(&None, &Some(Variable::Opaque)), EditorCommand::Editor);
}

#[test]
fn the_end_of_an_editor_is_judged() {
    let vi = || "vi".to_string();
    let status = || "exit code: 1".to_string();
    assert_eq!(edit_file(vi(), Some((true, "exit code: 0".to_string()))), Ok(()));
    assert_eq!(edit_file(vi(), Some((false, status()))), Err(EditError::EditorFailed(status())));
    assert_eq!(edit_file(vi(), None), Err(EditError::CannotStart(vi())));
}

#[test]
fn every_error_has_its_text() {
    let vi = "vi".to_string();
    assert_eq!(EditError::CannotStart(vi).message(), "Couldn't start the editor: vi");
    let status = "exit code: 1".to_string();
    assert_eq!(EditError::EditorFailed(status).message(), "Editor returned exit code: 1");
    assert_eq!(EditError::Canceled.message(), "User canceled");
}

#[test]
fn each_content_has_its_documentation() {
    let documentation = Documentation {
        trust: "t".to_string(),
        code_review: "c".to_string(),
        package_review: "p".to_string(),
    };
    assert_eq!(get_documentation_for(Content::Trust, &documentation), "t");
    assert_eq!(get_documentation_for(Content::Code, &documentation), "c");
    assert_eq!(get_documentation_for(Content::Package, &documentation), "p");
}

fn session() -> EditSession<u8> {
    edit_proof_content_iteractively(
        &"Title".to_string(),
        &"rating: good".to_string(),
        &"first\n\nthird\r\n".to_string(),
    )
}

#[test]
fn the_first_text_holds_title_draft_and_documentation() {
    let session = session();
    assert_eq!(session.step(), EditStep::Edit);
    assert_eq!(session.text, "# Title\nrating: good\n\n# first\n# \n# third\n");
}

#[test]
fn a_text_that_can_be_read_ends_the_session() {
    let mut session = session();
    session.edited(Ok("rating: strong".to_string()));
    assert_eq!(session.step(), EditStep::Parse);
    session.parsed(Ok(7));
    assert_eq!(session.step(), EditStep::Finish);
    assert_eq!(session.finish(), Ok(7));
}

#[test]
fn a_text_that_cannot_be_read_is_edited_again() {
    let mut session = session();
    session.edited(Ok("rating:".to_string()));
    session.parsed(Err("missing value".to_string()));
    assert_eq!(session.step(), EditStep::Ask);
    assert_eq!(session.message(), "There was an error parsing content: missing value");
    assert_eq!(session.question(), "Try again (y/n) ");
    session.answered(true);
    assert_eq!(session.step(), EditStep::Edit);
    assert_eq!(session.text, "rating:");
    session.edited(Ok("rating: good".to_string()));
    session.parsed(Ok(1));
    assert_eq!(session.finish(), Ok(1));
}

#[test]
fn the_user_can_cancel() {
    let mut session = session();
    session.edited(Ok("rating:".to_string()));
    session.parsed(Err("missing value".to_string()));
    session.answered(false);
    assert_eq!(session.step(), EditStep::Finish);
    assert_eq!(session.finish(), Err(EditError::Canceled));
}

#[test]
fn an_editor_that_fails_ends_the_session() {
    let mut session = session();
    session.edited(Err(EditError::EditorFailed("signal: 9".to_string())));
    assert_eq!(session.step(), EditStep::Finish);
    assert_eq!(session.finish(), Err(EditError::EditorFailed("signal: 9".to_string())));
}

#[test]
fn an_error_is_printed_and_ignored() {
    assert_eq!(err_eprint_and_ignore(Ok(3)), (true, None));
    let failed: Result<u8, String> = Err("no".to_string());
    assert_eq!(err_eprint_and_ignore(failed), (false, Some("no".to_string())));
}
