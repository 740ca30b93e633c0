//! The commands that the editor may send.

use vstd::prelude::*;
use crate::completion::stats::option_view;
use crate::server::uri::{check_uri, checked_uri, UriCheck};
use crate::word_frequency::string_views;

verus! {

/// The string that a JSON text holds, as `serde_json` parses it; `None` where the text is no
/// JSON string.
pub uninterp spec fn json_string_value(text: Seq<char>) -> Option<Seq<char>>;

/// Whether a JSON text is a string without escapes.
pub open spec fn is_plain_json_string(text: Seq<char>) -> bool {
    &&& text.len() >= 2
    &&& text.first() == '"'
    &&& text.last() == '"'
    &&& forall|i: int|
        1 <= i < text.len() - 1 ==> (#[trigger] text[i]) != '"' && text[i] != '\\' && (
        text[i] as u32) >= 32
}

/// `serde_json::from_str` for a `String`: its result is named by [`json_string_value`]; a string
/// without escapes holds what stands between its quotes.
#[verifier::external_body]
fn parse_json_string(text: &str) -> (r: Option<String>)
    ensures
        option_view(r) == json_string_value(text@),
        is_plain_json_string(text@) ==> option_view(r) == Some(
            text@.subrange(1, text@.len() - 1),
        ),
{
    serde_json::from_str::<String>(text).ok()
}

/// A dictionary that words can be added to.
#[derive(Debug, Clone, Copy, PartialEq, Eq, Structural)]
pub enum WordStore {
    /// The user's dictionary.
    User,
    /// The dictionary of the workspace.
    Workspace,
    /// The dictionary of one document.
    File,
}

/// What a command asks for.
#[derive(Debug)]
pub enum Command {
    /// Nothing is done.
    Nothing,
    /// A problem that was dealt with is recorded; it is given as JSON.
    RecordLint(String),
    /// A word is added to a dictionary, and a document is looked through anew.
    AddWord(WordStore, String, String),
    /// An address is opened outside of the editor.
    Open(String),
    /// A problem in a document, given as JSON, is no longer reported.
    IgnoreLint(String, String),
}

/// What a command asks for, in mathematical terms.
pub enum CommandView {
    Nothing,
    RecordLint(Seq<char>),
    AddWord(WordStore, Seq<char>, Seq<char>),
    Open(Seq<char>),
    IgnoreLint(Seq<char>, Seq<char>),
}

impl View for Command {
    type V = CommandView;

    open spec fn view(&self) -> CommandView {
        match *self {
            Command::Nothing => CommandView::Nothing,
            Command::RecordLint(lint) => CommandView::RecordLint(lint@),
            Command::AddWord(store, word, uri) => CommandView::AddWord(store, word@, uri@),
            Command::Open(address) => CommandView::Open(address@),
            Command::IgnoreLint(uri, lint) => CommandView::IgnoreLint(uri@, lint@),
        }
    }
}

/// Why a command cannot be carried out at all.
#[derive(Debug, Clone, Copy, PartialEq, Eq, Structural)]
pub enum CommandError {
    /// An argument that must be a string is none.
    NotAString,
    /// An argument that must name a document does not.
    NotAUri,
}

/// The dictionary that a command adds a word to, if it does so.
pub open spec fn store_of(command: Seq<char>) -> Option<WordStore> {
    if command == "HarperAddToUserDict"@ {
        Some(WordStore::User)
    } else if command == "HarperAddToWSDict"@ {
        Some(WordStore::Workspace)
    } else if command == "HarperAddToFileDict"@ {
        Some(WordStore::File)
    } else {
        None
    }
}

/// The dictionary that a command adds a word to, if it does so.
fn word_store(command: &str) -> (store: Option<WordStore>)
    ensures
        store == store_of(command@),
{
    let name = command.to_owned();
    if name == "HarperAddToUserDict".to_owned() {
        Some(WordStore::User)
    } else if name == "HarperAddToWSDict".to_owned() {
        Some(WordStore::Workspace)
    } else if name == "HarperAddToFileDict".to_owned() {
        Some(WordStore::File)
    } else {
        None
    }
}

/// A second argument that was looked at.
#[derive(Debug)]
pub struct SecondArgument {
    /// The argument as it was sent.
    pub json: String,
    /// The string that it holds, if it is one.
    pub text: Option<String>,
    /// Whether that string names a document.
    pub uri: UriCheck,
}

/// A second argument that was looked at, in mathematical terms.
pub struct SecondView {
    pub json: Seq<char>,
    pub text: Option<Seq<char>>,
    pub uri: UriCheck,
}

impl View for SecondArgument {
    type V = SecondView;

    open spec fn view(&self) -> SecondView {
        SecondView {
            json: self.json@,
            text: option_view(self.text),
            uri: self.uri,
        }
    }
}

/// What a command with arguments asks for.
///
/// To add a word the document must be named too, and without it nothing is done. To ignore a
/// problem the first argument must name a document; where it does not, or where the second
/// argument is missing, nothing is done. An unknown command does nothing.
pub open spec fn planned(
    command: Seq<char>,
    first: Seq<char>,
    first_uri: UriCheck,
    second: Option<SecondView>,
) -> Result<CommandView, CommandError> {
    if command == "HarperRecordLint"@ {
        Ok(CommandView::RecordLint(first))
    } else if store_of(command) is Some {
        match second {
            None => Ok(CommandView::Nothing),
            Some(argument) => match argument.text {
                None => Err(CommandError::NotAString),
                Some(uri) => if argument.uri == UriCheck::Valid {
                    Ok(CommandView::AddWord(store_of(command).unwrap(), first, uri))
                } else {
                    Err(CommandError::NotAUri)
                },
            },
        }
    } else if command == "HarperOpen"@ {
        Ok(CommandView::Open(first))
    } else if command == "HarperIgnoreLint"@ {
        match first_uri {
            UriCheck::TooLong => Err(CommandError::NotAUri),
            UriCheck::Invalid => Ok(CommandView::Nothing),
            UriCheck::Valid => match second {
                None => Ok(CommandView::Nothing),
                Some(argument) => Ok(CommandView::IgnoreLint(first, argument.json)),
            },
        }
    } else {
        Ok(CommandView::Nothing)
    }
}

/// A planned command in mathematical terms.
pub open spec fn plan_view(plan: Result<Command, CommandError>) -> Result<
    CommandView,
    CommandError,
> {
    match plan {
        Ok(command) => Ok(command@),
        Err(error) => Err(error),
    }
}

/// Decides what a command with arguments asks for, when its arguments were looked at.
pub fn plan_command(
    command: &str,
    first: String,
    first_uri: UriCheck,
    second: Option<SecondArgument>,
) -> (plan: Result<Command, CommandError>)
    ensures
        plan_view(plan) == planned(
            command@,
            first@,
            first_uri,
            match second {
                Some(argument) => Some(argument@),
                None => None,
            },
        ),
{
    let name = command.to_owned();
    if name == "HarperRecordLint".to_owned() {
        return Ok(Command::RecordLint(first));
    }
    if let Some(store) = word_store(command) {
        return match second {
            None => Ok(Command::Nothing),
            Some(argument) => match argument.text {
                None => Err(CommandError::NotAString),
                Some(uri) => if matches!(argument.uri, UriCheck::Valid) {
                    Ok(Command::AddWord(store, first, uri))
                } else {
                    Err(CommandError::NotAUri)
                },
            },
        };
    }
    if name == "HarperOpen".to_owned() {
        return Ok(Command::Open(first));
    }
    if name == "HarperIgnoreLint".to_owned() {
        return match first_uri {
            UriCheck::TooLong => Err(CommandError::NotAUri),
            UriCheck::Invalid => Ok(Command::Nothing),
            UriCheck::Valid => match second {
                None => Ok(Command::Nothing),
                Some(argument) => Ok(Command::IgnoreLint(first, argument.json)),
            },
        };
    }
    Ok(Command::Nothing)
}

/// A second argument, given as JSON, when it was looked at.
pub open spec fn looked_at(json: Seq<char>) -> SecondView {
    let text = json_string_value(json);
    SecondView {
        json,
        text,
        uri: match text {
            Some(s) => checked_uri(s),
            None => UriCheck::Invalid,
        },
    }
}

/// What a command asks for whose arguments are given as JSON. Without arguments nothing is done.
pub open spec fn requested(command: Seq<char>, arguments: Seq<Seq<char>>) -> Result<
    CommandView,
    CommandError,
> {
    if arguments.len() == 0 {
        Ok(CommandView::Nothing)
    } else {
        match json_string_value(arguments[0]) {
            None => Err(CommandError::NotAString),
            Some(first) => planned(
                command,
                first,
                checked_uri(first),
                if arguments.len() > 1 {
                    Some(looked_at(arguments[1]))
                } else {
                    None
                },
            ),
        }
    }
}

/// Decides what a command asks for whose arguments are given as JSON.
pub fn execute_command(command: &str, arguments: &Vec<String>) -> (plan: Result<
    Command,
    CommandError,
>)
    ensures
        plan_view(plan) == requested(
            command@,
            string_views(arguments@),
        ),
{
    if arguments.len() == 0 {
        return Ok(Command::Nothing);
    }
    let first = match parse_json_string(arguments[0].as_str()) {
        Some(first) => first,
        None => {
            return Err(CommandError::NotAString);
        },
    };
    let second = if arguments.len() > 1 {
        let json = arguments[1].clone();
        let text = parse_json_string(json.as_str());
        let uri = match &text {
            Some(s) => check_uri(s.as_str()),
            None => UriCheck::Invalid,
        };
        Some(SecondArgument { json, text, uri })
    } else {
        None
    };
    let first_uri = check_uri(first.as_str());
    plan_command(command, first, first_uri, second)
}

/// The commands that the server offers.
pub open spec fn command_list() -> Seq<Seq<char>> {
    seq![
        "HarperRecordLint"@,
        "HarperAddToUserDict"@,
        "HarperAddToWSDict"@,
        "HarperAddToFileDict"@,
        "HarperOpen"@,
        "HarperIgnoreLint"@,
    ]
}

/// The commands that the server offers.
pub fn command_names() -> (names: Vec<String>)
    ensures
        string_views(names@) == command_list(),
{
    let mut names: Vec<String> = Vec::new();
    names.push("HarperRecordLint".to_owned());
    names.push("HarperAddToUserDict".to_owned());
    names.push("HarperAddToWSDict".to_owned());
    names.push("HarperAddToFileDict".to_owned());
    names.push("HarperOpen".to_owned());
    names.push("HarperIgnoreLint".to_owned());
    assert(string_views(names@) =~= command_list());
    names
}

/// A command that the server does not offer does nothing, whatever its arguments are, as long as
/// the first one is a string.
pub proof fn other_commands_do_nothing(command: Seq<char>, arguments: Seq<Seq<char>>)
    requires
        !command_list().contains(command),
    ensures
        requested(command, arguments) == Ok::<CommandView, CommandError>(CommandView::Nothing)
            || arguments.len() > 0 && json_string_value(arguments[0]) is None,
{
    let list = command_list();
    assert(list[0] == "HarperRecordLint"@);
    assert(list[1] == "HarperAddToUserDict"@);
    assert(list[2] == "HarperAddToWSDict"@);
    assert(list[3] == "HarperAddToFileDict"@);
    assert(list[4] == "HarperOpen"@);
    assert(list[5] == "HarperIgnoreLint"@);
}

/// Each command does what it is named for, with the strings that its arguments hold: records the
/// first, adds the first as a word to its dictionary for the document that the second names,
/// opens the first, or ignores the second, as it was sent, in the document that the first names.
pub proof fn each_command_does_what_it_is_named_for(
    first: Seq<char>,
    second: Seq<char>,
    first_text: Seq<char>,
    second_text: Seq<char>,
)
    requires
        json_string_value(first) == Some(first_text),
        json_string_value(second) == Some(second_text),
        checked_uri(second_text) == UriCheck::Valid,
        checked_uri(first_text) == UriCheck::Valid,
    ensures
        ({
            let both = seq![first, second];
            let ok = |c: CommandView| Ok::<CommandView, CommandError>(c);
            &&& requested("HarperRecordLint"@, both) == ok(CommandView::RecordLint(first_text))
            &&& requested("HarperAddToUserDict"@, both) == ok(
                CommandView::AddWord(WordStore::User, first_text, second_text),
            )
            &&& requested("HarperAddToWSDict"@, both) == ok(
                CommandView::AddWord(WordStore::Workspace, first_text, second_text),
            )
            &&& requested("HarperAddToFileDict"@, both) == ok(
                CommandView::AddWord(WordStore::File, first_text, second_text),
            )
            &&& requested("HarperOpen"@, both) == ok(CommandView::Open(first_text))
            &&& requested("HarperIgnoreLint"@, both) == ok(
                CommandView::IgnoreLint(first_text, second),
            )
        }),
{
    names_differ();
}

proof fn names_differ()
    ensures
        "HarperRecordLint"@.len() == 16,
        "HarperAddToUserDict"@.len() == 19,
        "HarperAddToWSDict"@.len() == 17,
        "HarperAddToFileDict"@.len() == 19,
        "HarperAddToUserDict"@ != "HarperAddToFileDict"@,
        "HarperOpen"@.len() == 10,
        "HarperIgnoreLint"@.len() == 16,
        "HarperRecordLint"@ != "HarperIgnoreLint"@,
{
    reveal_strlit("HarperRecordLint");
    reveal_strlit("HarperAddToUserDict");
    reveal_strlit("HarperAddToWSDict");
    reveal_strlit("HarperAddToFileDict");
    reveal_strlit("HarperOpen");
    reveal_strlit("HarperIgnoreLint");
    assert("HarperAddToUserDict"@[11] != "HarperAddToFileDict"@[11]);
    assert("HarperRecordLint"@[6] != "HarperIgnoreLint"@[6]);
}

/// Nothing is done without arguments, without the document that a word is added for, or without
/// the problem that is to be ignored, or where no document is named to ignore it in. It is an
/// error where an argument that must be a string is none, or one that must name the document of a
/// word does not.
pub proof fn incomplete_commands_do_nothing_or_fail(
    command: Seq<char>,
    first: Seq<char>,
    second: Seq<char>,
)
    ensures
        ({
            let nothing = Ok::<CommandView, CommandError>(CommandView::Nothing);
            let adds = command == "HarperAddToUserDict"@ || command == "HarperAddToWSDict"@
                || command == "HarperAddToFileDict"@;
            let no_string = Err::<CommandView, CommandError>(CommandError::NotAString);
            let no_uri = Err::<CommandView, CommandError>(CommandError::NotAUri);
            &&& requested(command, Seq::empty()) == nothing
            &&& json_string_value(first) is None ==> requested(command, seq![first]) == no_string
            &&& json_string_value(first) is None ==> requested(command, seq![first, second])
                == no_string
            &&& json_string_value(first) is Some && adds ==> requested(command, seq![first])
                == nothing
            &&& json_string_value(first) is Some && adds && json_string_value(second) is None
                ==> requested(command, seq![first, second]) == no_string
            &&& (json_string_value(first) is Some && adds && (json_string_value(
                second,
            ) matches Some(text) && checked_uri(text) != UriCheck::Valid)) ==> requested(
                command,
                seq![first, second],
            ) == no_uri
            &&& (json_string_value(first) matches Some(text) && command == "HarperIgnoreLint"@
                && checked_uri(text) == UriCheck::Valid) ==> requested(command, seq![first])
                == nothing
            &&& (json_string_value(first) matches Some(text) && command == "HarperIgnoreLint"@
                && checked_uri(text) == UriCheck::Invalid) ==> requested(
                command,
                seq![first, second],
            ) == nothing
        }),
{
    names_differ();
}

/// Six commands are offered, one for each thing that a command can ask for.
pub proof fn six_commands_are_offered(command: Seq<char>)
    ensures
        command_list().len() == 6,
        command_list().contains(command) == (command == "HarperRecordLint"@ || command
            == "HarperAddToUserDict"@ || command == "HarperAddToWSDict"@ || command
            == "HarperAddToFileDict"@ || command == "HarperOpen"@ || command
            == "HarperIgnoreLint"@),
{
    let list = command_list();
    assert(list[0] == "HarperRecordLint"@);
    assert(list[1] == "HarperAddToUserDict"@);
    assert(list[2] == "HarperAddToWSDict"@);
    assert(list[3] == "HarperAddToFileDict"@);
    assert(list[4] == "HarperOpen"@);
    assert(list[5] == "HarperIgnoreLint"@);
}

} // verus!
