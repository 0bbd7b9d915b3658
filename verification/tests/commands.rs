use hvp_archive::commands::utils::{is_dir, is_file};
use hvp_archive::commands::{
    answer_is_yes, create, dump, extract, is_modified, ChecksumValidation, ChecksumVerdict,
    Commands, Game, Operation,
};

fn extract_op() -> Operation {
    Operation::Extract(extract::Commands {
        input: "game/data.hvp".to_string(),
        output_folder: None,
        checksum_validation: ChecksumValidation::Yes,
    })
}

#[test]
fn input_path_of_every_operation() {
    assert_eq!(extract_op().input_hvp_path(), "game/data.hvp");
    let create = Operation::Create(create::Commands {
        input_hvp: "a.hvp".to_string(),
        input_folder: "folder".to_string(),
        output: Some("out.hvp".to_string()),
        skip_compression: false,
        checksum_validation: ChecksumValidation::Prompt,
        update_all_files: false,
        generate_anyway: true,
    });
    assert_eq!(create.input_hvp_path(), "a.hvp");
    let dump = Operation::Dump(dump::Commands { input: "b.hvp".to_string(), output: None });
    assert_eq!(dump.input_hvp_path(), "b.hvp");
    let commands = Commands { operation: extract_op(), game: Game::default() };
    assert_eq!(commands.operation.input_hvp_path(), "game/data.hvp");
    assert_eq!(commands.game, Game::Auto);
}

#[test]
fn layout_named_on_the_command_line() {
    assert_eq!(Game::Auto.hint(), None);
    assert_eq!(Game::Obscure1.hint(), Some(hvp_archive::Game::Obscure1));
    assert_eq!(Game::Obscure2.hint(), Some(hvp_archive::Game::Obscure2));
    assert_eq!(Game::FinalExam.hint(), Some(hvp_archive::Game::FinalExam));
}

#[test]
fn paths_that_name_no_file_are_refused() {
    assert_eq!(is_file("a.hvp", true), Ok("a.hvp".to_string()));
    assert_eq!(is_file("a.hvp", false), Err("You need to pass a valid file path.".to_string()));
    assert_eq!(is_dir("data", true), Ok("data".to_string()));
    assert_eq!(is_dir("data", false), Err("You need to pass a valid dir path.".to_string()));
}

#[test]
fn what_to_do_about_checksums() {
    assert_eq!(ChecksumValidation::default(), ChecksumValidation::Yes);
    assert!(ChecksumValidation::Yes.wants_check());
    assert!(ChecksumValidation::Prompt.wants_check());
    assert!(!ChecksumValidation::No.wants_check());
    assert_eq!(ChecksumValidation::Yes.verdict(true), ChecksumVerdict::Proceed);
    assert_eq!(ChecksumValidation::Yes.verdict(false), ChecksumVerdict::Abort);
    assert_eq!(ChecksumValidation::Prompt.verdict(true), ChecksumVerdict::Proceed);
    assert_eq!(ChecksumValidation::Prompt.verdict(false), ChecksumVerdict::Ask);
    assert_eq!(ChecksumValidation::No.verdict(false), ChecksumVerdict::Proceed);
}

#[test]
fn only_the_letter_y_means_yes() {
    assert!(answer_is_yes("y"));
    assert!(!answer_is_yes("n"));
    assert!(!answer_is_yes("yes"));
    assert!(!answer_is_yes(""));
    assert!(!answer_is_yes("Y"));
}

#[test]
fn a_file_is_modified_unless_its_hash_is_the_recorded_one() {
    assert!(is_modified(None, 5));
    assert!(is_modified(Some(4), 5));
    assert!(!is_modified(Some(5), 5));
}
