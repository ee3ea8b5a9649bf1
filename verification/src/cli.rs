//! The command line.
use vstd::prelude::*;

use crate::config;
use crate::text;

verus! {

/// Where the configuration is unless the command line says otherwise.
pub const DEFAULT_CONFIG: &'static str = "tperf.toml";

/// What the program is asked to do.
#[derive(Debug, Clone)]
pub enum Command {
    /// Drive a test with the configuration in this file.
    Client(String),
    /// Serve, with the configuration in this file if one is named.
    Server(Option<String>),
    /// Summarize a database; these are the arguments that say which.
    Analyze(Vec<String>),
    /// Show the usage.
    Help,
    /// Show the usage and fail: there is no such command.
    Unknown(String),
}

/// What a [`Command`] says.
pub enum CommandView {
    Client(Seq<char>),
    Server(Option<Seq<char>>),
    Analyze(Seq<Seq<char>>),
    Help,
    Unknown(Seq<char>),
}

impl View for Command {
    type V = CommandView;

    open spec fn view(&self) -> CommandView {
        match self {
            Command::Client(path) => CommandView::Client(path@),
            Command::Server(Some(path)) => CommandView::Server(Some(path@)),
            Command::Server(None) => CommandView::Server(None),
            Command::Analyze(args) => CommandView::Analyze(text::texts(args@)),
            Command::Help => CommandView::Help,
            Command::Unknown(name) => CommandView::Unknown(name@),
        }
    }
}

/// What the arguments, without the name of the program, ask for.
pub open spec fn command_of(args: Seq<Seq<char>>) -> CommandView {
    if args.len() == 0 || args[0] == "help"@ || args[0] == ""@ {
        CommandView::Help
    } else if args[0] == "client"@ {
        CommandView::Client(
            if args.len() > 1 {
                args[1]
            } else {
                DEFAULT_CONFIG@
            },
        )
    } else if args[0] == "server"@ {
        CommandView::Server(
            if args.len() > 1 {
                Some(args[1])
            } else {
                None
            },
        )
    } else if args[0] == "analyze"@ {
        CommandView::Analyze(args.skip(1))
    } else {
        CommandView::Unknown(args[0])
    }
}

fn copy_text(s: &str) -> (res: String)
    ensures
        res@ == s@,
{
    let mut out = String::new();
    out.append(s);
    assert(out@ =~= s@);
    out
}

/// What the arguments, without the name of the program, ask for.
pub fn parse_command(args: &[String]) -> (res: Command)
    ensures
        res@ == command_of(text::texts(args@)),
{
    proof {
        reveal_strlit("help");
        reveal_strlit("");
        reveal_strlit("client");
        reveal_strlit("server");
        reveal_strlit("analyze");
        assert("client"@[0] == 'c' && "server"@[0] == 's' && "analyze"@[0] == 'a');
    }
    let n: usize = args.len();
    if n == 0 {
        return Command::Help;
    }
    let cmd = args[0].as_str();
    if text::same_text(cmd, "help") || text::same_text(cmd, "") {
        Command::Help
    } else if text::same_text(cmd, "client") {
        if n > 1 {
            Command::Client(args[1].clone())
        } else {
            Command::Client(copy_text(DEFAULT_CONFIG))
        }
    } else if text::same_text(cmd, "server") {
        if n > 1 {
            Command::Server(Some(args[1].clone()))
        } else {
            Command::Server(None)
        }
    } else if text::same_text(cmd, "analyze") {
        let mut rest: Vec<String> = Vec::new();
        let ghost all = text::texts(args@);
        let mut i: usize = 1;
        assert(text::texts(rest@) =~= all.subrange(1, 1));
        while i < n
            invariant
                n == args@.len(),
                1 <= i <= n,
                all == text::texts(args@),
                text::texts(rest@) == all.subrange(1, i as int),
            decreases n - i,
        {
            let ghost before = text::texts(rest@);
            rest.push(args[i].clone());
            assert(text::texts(rest@) =~= before.push(args@[i as int]@));
            i += 1;
            assert(text::texts(rest@) =~= all.subrange(1, i as int));
        }
        assert(all.subrange(1, n as int) =~= all.skip(1));
        Command::Analyze(rest)
    } else {
        Command::Unknown(args[0].clone())
    }
}

/// The file that a server takes its control address from: the one that is named,
/// else the default one if there is one.
pub fn server_config(explicit: Option<String>, default_exists: bool) -> (res: Option<String>)
    ensures
        match (explicit, res) {
            (Some(path), Some(file)) => file == path,
            (None, Some(file)) => default_exists && file@ == DEFAULT_CONFIG@,
            (None, None) => !default_exists,
            (Some(_), None) => false,
        },
{
    match explicit {
        Some(path) => Some(path),
        None => {
            if default_exists {
                Some(copy_text(DEFAULT_CONFIG))
            } else {
                None
            }
        },
    }
}

/// The control address of a server: that of the configuration, or the default
/// one if there is no configuration.
pub fn server_addr(loaded: Option<String>) -> (res: String)
    ensures
        match loaded {
            Some(addr) => res == addr,
            None => res@ == config::DEFAULT_CLIENT_ADDR@,
        },
{
    match loaded {
        Some(addr) => addr,
        None => copy_text(config::DEFAULT_CLIENT_ADDR),
    }
}

/// The message for an unknown command.
pub fn unknown_command(name: &str) -> (res: String)
    ensures
        res@ == "unknown command "@ + text::quoted(name@),
{
    let mut out = String::new();
    out.append("unknown command ");
    out.append(text::quote(name).as_str());
    out
}

/// What the first argument asks for: `client`, with the file in the second argument or
/// `tperf.toml`; `server`, with the file in the second argument or none; `analyze`, with
/// all the other arguments; the usage for `help`, an empty one, or none; and nothing that
/// there is for any other.
pub proof fn law_commands(args: Seq<Seq<char>>)
    ensures
        args.len() == 0 ==> command_of(args) == CommandView::Help,
        args.len() > 0 ==> {
            let word = args[0];
            let client = seq!['c', 'l', 'i', 'e', 'n', 't'];
            let server = seq!['s', 'e', 'r', 'v', 'e', 'r'];
            let analyze = seq!['a', 'n', 'a', 'l', 'y', 'z', 'e'];
            let help = seq!['h', 'e', 'l', 'p'];
            &&& word == client && args.len() > 1 ==> command_of(args) == CommandView::Client(args[1])
            &&& word == client && args.len() == 1 ==> command_of(args) == CommandView::Client(
                seq!['t', 'p', 'e', 'r', 'f', '.', 't', 'o', 'm', 'l'],
            )
            &&& word == server && args.len() > 1 ==> command_of(args) == CommandView::Server(
                Some(args[1]),
            )
            &&& word == server && args.len() == 1 ==> command_of(args) == CommandView::Server(None)
            &&& word == analyze ==> command_of(args) == CommandView::Analyze(args.skip(1))
            &&& word == help || word.len() == 0 ==> command_of(args) == CommandView::Help
            &&& word.len() > 0 && word != client && word != server && word != analyze && word != help
                ==> command_of(args) == CommandView::Unknown(word)
        },
{
    reveal_strlit("help");
    reveal_strlit("");
    reveal_strlit("client");
    reveal_strlit("server");
    reveal_strlit("analyze");
    reveal_strlit("tperf.toml");
    assert("help"@ =~= seq!['h', 'e', 'l', 'p']);
    assert("client"@ =~= seq!['c', 'l', 'i', 'e', 'n', 't']);
    assert("server"@ =~= seq!['s', 'e', 'r', 'v', 'e', 'r']);
    assert("analyze"@ =~= seq!['a', 'n', 'a', 'l', 'y', 'z', 'e']);
    assert("tperf.toml"@ =~= seq!['t', 'p', 'e', 'r', 'f', '.', 't', 'o', 'm', 'l']);
    assert("client"@[0] == 'c' && "server"@[0] == 's');
    if args.len() > 0 && args[0].len() == 0 {
        assert(args[0] =~= ""@);
    }
}

/// What is said of a command is said of what it holds.
pub proof fn law_content_of_a_command(c: Command)
    ensures
        match c {
            Command::Client(path) => c@ == CommandView::Client(path@),
            Command::Server(Some(path)) => c@ == CommandView::Server(Some(path@)),
            Command::Server(None) => c@ == CommandView::Server(None),
            Command::Analyze(args) => c@ matches CommandView::Analyze(all) && all.len()
                == args@.len() && forall|i: int| 0 <= i < all.len() ==> #[trigger] all[i]
                == args@[i]@,
            Command::Help => c@ == CommandView::Help,
            Command::Unknown(name) => c@ == CommandView::Unknown(name@),
        },
{
}

} // verus!
