//! The command line: which mode of operation the arguments ask for.
use vstd::prelude::*;

use crate::text::same_text;

verus! {

/// What the program is asked to do.
#[derive(Debug)]
pub enum Command {
    /// Capture face samples of that name and store their averaged embedding.
    Enroll(String),
    /// Enrol, but the name is missing.
    EnrollWithoutName,
    /// Live recognition against the enrolled identities.
    Recognize,
    /// Hand landmark tracking.
    Hands,
    /// Interactive first-time setup.
    Setup,
    /// No mode of operation.
    Unknown(String),
}

/// What the arguments behind the program's own name ask for: recognition if
/// there are none.
pub open spec fn asked(args: Seq<String>, command: Command) -> bool {
    if args.len() < 2 || args[1]@ == "recognize"@ {
        command is Recognize
    } else if args[1]@ == "enroll"@ {
        if args.len() < 3 {
            command is EnrollWithoutName
        } else {
            command matches Command::Enroll(name) && name@ == args[2]@
        }
    } else if args[1]@ == "hands"@ || args[1]@ == "hand"@ {
        command is Hands
    } else if args[1]@ == "setup"@ || args[1]@ == "install"@ {
        command is Setup
    } else {
        command matches Command::Unknown(other) && other@ == args[1]@
    }
}

/// The mode of operation that the arguments, the program's own name first, ask
/// for.
pub fn parse_command(args: &Vec<String>) -> (command: Command)
    ensures
        asked(args@, command),
{
    proof {
        reveal_strlit("recognize");
        reveal_strlit("enroll");
    }
    if args.len() < 2 {
        return Command::Recognize;
    }
    let word: &str = args[1].as_str();
    if same_text(word, "enroll") {
        assert("enroll"@.len() != "recognize"@.len());
        if args.len() < 3 {
            Command::EnrollWithoutName
        } else {
            Command::Enroll(args[2].clone())
        }
    } else if same_text(word, "recognize") {
        Command::Recognize
    } else if same_text(word, "hands") || same_text(word, "hand") {
        Command::Hands
    } else if same_text(word, "setup") || same_text(word, "install") {
        Command::Setup
    } else {
        Command::Unknown(args[1].clone())
    }
}

/// What is said of a word that is no mode of operation.
pub fn unknown_text(other: &str) -> (text: String)
    ensures
        text@ == "[-] Unknown command: "@ + other@
            + "\nUsage:\n  cargo run -- setup            Interactive first-time setup\n  cargo run -- enroll <name>    Enroll a face\n  cargo run -- recognize       Live recognition\n  cargo run -- hand[s]         Hand tracking"@,
{
    let mut text: String = "[-] Unknown command: ".to_owned();
    text.append(other);
    text.append(
        "\nUsage:\n  cargo run -- setup            Interactive first-time setup\n  cargo run -- enroll <name>    Enroll a face\n  cargo run -- recognize       Live recognition\n  cargo run -- hand[s]         Hand tracking",
    );
    text
}

/// The first word alone decides on the mode, letter for letter, and enrolment
/// needs a second one, which is the name; whatever follows has no influence.
pub proof fn law_words_decide_on_the_mode(args: Seq<String>, command: Command)
    requires
        asked(args, command),
    ensures
        ({
            let none = args.len() < 2;
            let word = args[1]@;
            &&& command is Recognize <==> none || word == "recognize"@
            &&& command is EnrollWithoutName <==> !none && word == "enroll"@ && args.len() == 2
            &&& command is Enroll <==> !none && word == "enroll"@ && args.len() > 2
            &&& command matches Command::Enroll(name) ==> name@ == args[2]@
            &&& command is Hands <==> !none && (word == "hands"@ || word == "hand"@)
            &&& command is Setup <==> !none && (word == "setup"@ || word == "install"@)
            &&& command matches Command::Unknown(other) ==> other@ == word
        }),
{
    reveal_strlit("recognize");
    reveal_strlit("enroll");
    reveal_strlit("hands");
    reveal_strlit("hand");
    reveal_strlit("setup");
    reveal_strlit("install");
    assert("recognize"@.len() == 9 && "enroll"@.len() == 6 && "hands"@.len() == 5 && "hand"@.len()
        == 4 && "setup"@.len() == 5 && "install"@.len() == 7);
    assert("hands"@[0] != "setup"@[0]);
}

} // verus!
