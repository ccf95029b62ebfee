//! Which commands there are.
use vstd::prelude::*;
use vstd::string::StringExecFns;
use crate::text::str_eq;

verus! {

/// A command.
#[derive(Debug, Clone, Copy, PartialEq, Eq, Structural)]
pub enum CommandId {
    Colon,
    Cd,
    Env,
    Exit,
    Export,
    False,
    Pwd,
    SetOption,
    True,
    Unset,
    Cat,
    Find,
    Ls,
    Mkdir,
    Rm,
    Touch,
    Cut,
    Echo,
    Grep,
    Head,
    Jq,
    Printf,
    Sort,
    Tail,
    Tee,
    Tr,
    Uniq,
    Wc,
    Xxd,
    Test,
    Sh,
    Date,
    Sleep,
    Time,
    Help,
    Node,
    Tool,
    Tools,
}

/// Command metadata for help and registration.
#[derive(Debug, Clone)]
pub struct CommandInfo {
    /// Primary command name.
    pub name: &'static str,
    /// Optional aliases (e.g., "bash" for "sh").
    pub aliases: Vec<&'static str>,
    /// Short description for help output.
    pub description: &'static str,
}

/// The name, the aliases and the description of a command.
pub struct Entry {
    pub name: Seq<char>,
    pub aliases: Seq<Seq<char>>,
    pub description: Seq<char>,
}

impl CommandInfo {
    /// What is said of the command.
    pub open spec fn entry(self) -> Entry {
        Entry {
            name: self.name@,
            aliases: slices(self.aliases@),
            description: self.description@,
        }
    }
}

/// The texts of a row.
pub open spec fn slices(v: Seq<&'static str>) -> Seq<Seq<char>> {
    v.map_values(|s: &'static str| s@)
}

/// The commands in the order in which they are listed.
pub open spec fn listed() -> Seq<CommandId> {
    seq![
        CommandId::Colon,
        CommandId::Cd,
        CommandId::Env,
        CommandId::Exit,
        CommandId::Export,
        CommandId::False,
        CommandId::Pwd,
        CommandId::SetOption,
        CommandId::True,
        CommandId::Unset,
        CommandId::Cat,
        CommandId::Find,
        CommandId::Ls,
        CommandId::Mkdir,
        CommandId::Rm,
        CommandId::Touch,
        CommandId::Cut,
        CommandId::Echo,
        CommandId::Grep,
        CommandId::Head,
        CommandId::Jq,
        CommandId::Printf,
        CommandId::Sort,
        CommandId::Tail,
        CommandId::Tee,
        CommandId::Tr,
        CommandId::Uniq,
        CommandId::Wc,
        CommandId::Xxd,
        CommandId::Test,
        CommandId::Sh,
        CommandId::Date,
        CommandId::Sleep,
        CommandId::Time,
        CommandId::Help,
        CommandId::Node,
        CommandId::Tool,
        CommandId::Tools,
    ]
}

impl CommandId {
    /// What is said of a command.
    pub open spec fn entry(self) -> Entry {
        match self {
            CommandId::Colon => Entry {
                name: ":"@,
                aliases: Seq::empty(),
                description: "No-op command (always succeeds)"@,
            },
            CommandId::Cd => Entry {
                name: "cd"@,
                aliases: Seq::empty(),
                description: "Change working directory"@,
            },
            CommandId::Env => Entry {
                name: "env"@,
                aliases: Seq::empty(),
                description: "Print environment variables"@,
            },
            CommandId::Exit => Entry {
                name: "exit"@,
                aliases: Seq::empty(),
                description: "Exit the shell with optional code"@,
            },
            CommandId::Export => Entry {
                name: "export"@,
                aliases: Seq::empty(),
                description: "Set environment variable"@,
            },
            CommandId::False => Entry {
                name: "false"@,
                aliases: Seq::empty(),
                description: "Exit with failure status"@,
            },
            CommandId::Pwd => Entry {
                name: "pwd"@,
                aliases: Seq::empty(),
                description: "Print working directory"@,
            },
            CommandId::SetOption => Entry {
                name: "set"@,
                aliases: Seq::empty(),
                description: "Set shell options"@,
            },
            CommandId::True => Entry {
                name: "true"@,
                aliases: Seq::empty(),
                description: "Exit with success status"@,
            },
            CommandId::Unset => Entry {
                name: "unset"@,
                aliases: Seq::empty(),
                description: "Remove environment variable"@,
            },
            CommandId::Cat => Entry {
                name: "cat"@,
                aliases: Seq::empty(),
                description: "Concatenate and print files"@,
            },
            CommandId::Find => Entry {
                name: "find"@,
                aliases: Seq::empty(),
                description: "Search for files in directory hierarchy"@,
            },
            CommandId::Ls => Entry {
                name: "ls"@,
                aliases: Seq::empty(),
                description: "List directory contents"@,
            },
            CommandId::Mkdir => Entry {
                name: "mkdir"@,
                aliases: Seq::empty(),
                description: "Create directories"@,
            },
            CommandId::Rm => Entry {
                name: "rm"@,
                aliases: Seq::empty(),
                description: "Remove files or directories"@,
            },
            CommandId::Touch => Entry {
                name: "touch"@,
                aliases: Seq::empty(),
                description: "Create empty file or update timestamp"@,
            },
            CommandId::Cut => Entry {
                name: "cut"@,
                aliases: Seq::empty(),
                description: "Extract fields from lines"@,
            },
            CommandId::Echo => Entry {
                name: "echo"@,
                aliases: Seq::empty(),
                description: "Print arguments to stdout"@,
            },
            CommandId::Grep => Entry {
                name: "grep"@,
                aliases: Seq::empty(),
                description: "Search for patterns in text"@,
            },
            CommandId::Head => Entry {
                name: "head"@,
                aliases: Seq::empty(),
                description: "Output first lines of files"@,
            },
            CommandId::Jq => Entry {
                name: "jq"@,
                aliases: Seq::empty(),
                description: "Process JSON with jq expressions"@,
            },
            CommandId::Printf => Entry {
                name: "printf"@,
                aliases: Seq::empty(),
                description: "Format and print data"@,
            },
            CommandId::Sort => Entry {
                name: "sort"@,
                aliases: Seq::empty(),
                description: "Sort lines of text"@,
            },
            CommandId::Tail => Entry {
                name: "tail"@,
                aliases: Seq::empty(),
                description: "Output last lines of files"@,
            },
            CommandId::Tee => Entry {
                name: "tee"@,
                aliases: Seq::empty(),
                description: "Read stdin, write to stdout and files"@,
            },
            CommandId::Tr => Entry {
                name: "tr"@,
                aliases: Seq::empty(),
                description: "Translate or delete characters"@,
            },
            CommandId::Uniq => Entry {
                name: "uniq"@,
                aliases: Seq::empty(),
                description: "Report or filter repeated lines"@,
            },
            CommandId::Wc => Entry {
                name: "wc"@,
                aliases: Seq::empty(),
                description: "Count lines, words, and bytes"@,
            },
            CommandId::Xxd => Entry {
                name: "xxd"@,
                aliases: Seq::empty(),
                description: "Hex dump or reverse"@,
            },
            CommandId::Test => Entry {
                name: "test"@,
                aliases: seq!["["@],
                description: "Evaluate conditional expression"@,
            },
            CommandId::Sh => Entry {
                name: "sh"@,
                aliases: seq!["bash"@],
                description: "Execute shell commands"@,
            },
            CommandId::Date => Entry {
                name: "date"@,
                aliases: Seq::empty(),
                description: "Print or set system date/time"@,
            },
            CommandId::Sleep => Entry {
                name: "sleep"@,
                aliases: Seq::empty(),
                description: "Pause for specified duration"@,
            },
            CommandId::Time => Entry {
                name: "time"@,
                aliases: Seq::empty(),
                description: "Measure command execution time"@,
            },
            CommandId::Help => Entry {
                name: "help"@,
                aliases: Seq::empty(),
                description: "Show available commands"@,
            },
            CommandId::Node => Entry {
                name: "node"@,
                aliases: Seq::empty(),
                description: "Execute JavaScript code"@,
            },
            CommandId::Tool => Entry {
                name: "tool"@,
                aliases: Seq::empty(),
                description: "Invoke external tools"@,
            },
            CommandId::Tools => Entry {
                name: "tools"@,
                aliases: Seq::empty(),
                description: "Search and discover tools"@,
            },
        }
    }

    /// Whether a command goes by a name: by its own, or by an alias.
    pub open spec fn goes_by(self, name: Seq<char>) -> bool {
        self.entry().name == name || self.entry().aliases.contains(name)
    }

    /// What is said of a command.
    pub fn info(self) -> (r: CommandInfo)
        ensures
            r.entry() == self.entry(),
    {
        let mut aliases: Vec<&'static str> = Vec::new();
        let (name, alias, description): (&'static str, Option<&'static str>, &'static str) = match self {
            CommandId::Colon => (":", None, "No-op command (always succeeds)"),
            CommandId::Cd => ("cd", None, "Change working directory"),
            CommandId::Env => ("env", None, "Print environment variables"),
            CommandId::Exit => ("exit", None, "Exit the shell with optional code"),
            CommandId::Export => ("export", None, "Set environment variable"),
            CommandId::False => ("false", None, "Exit with failure status"),
            CommandId::Pwd => ("pwd", None, "Print working directory"),
            CommandId::SetOption => ("set", None, "Set shell options"),
            CommandId::True => ("true", None, "Exit with success status"),
            CommandId::Unset => ("unset", None, "Remove environment variable"),
            CommandId::Cat => ("cat", None, "Concatenate and print files"),
            CommandId::Find => ("find", None, "Search for files in directory hierarchy"),
            CommandId::Ls => ("ls", None, "List directory contents"),
            CommandId::Mkdir => ("mkdir", None, "Create directories"),
            CommandId::Rm => ("rm", None, "Remove files or directories"),
            CommandId::Touch => ("touch", None, "Create empty file or update timestamp"),
            CommandId::Cut => ("cut", None, "Extract fields from lines"),
            CommandId::Echo => ("echo", None, "Print arguments to stdout"),
            CommandId::Grep => ("grep", None, "Search for patterns in text"),
            CommandId::Head => ("head", None, "Output first lines of files"),
            CommandId::Jq => ("jq", None, "Process JSON with jq expressions"),
            CommandId::Printf => ("printf", None, "Format and print data"),
            CommandId::Sort => ("sort", None, "Sort lines of text"),
            CommandId::Tail => ("tail", None, "Output last lines of files"),
            CommandId::Tee => ("tee", None, "Read stdin, write to stdout and files"),
            CommandId::Tr => ("tr", None, "Translate or delete characters"),
            CommandId::Uniq => ("uniq", None, "Report or filter repeated lines"),
            CommandId::Wc => ("wc", None, "Count lines, words, and bytes"),
            CommandId::Xxd => ("xxd", None, "Hex dump or reverse"),
            CommandId::Test => ("test", Some("["), "Evaluate conditional expression"),
            CommandId::Sh => ("sh", Some("bash"), "Execute shell commands"),
            CommandId::Date => ("date", None, "Print or set system date/time"),
            CommandId::Sleep => ("sleep", None, "Pause for specified duration"),
            CommandId::Time => ("time", None, "Measure command execution time"),
            CommandId::Help => ("help", None, "Show available commands"),
            CommandId::Node => ("node", None, "Execute JavaScript code"),
            CommandId::Tool => ("tool", None, "Invoke external tools"),
            CommandId::Tools => ("tools", None, "Search and discover tools"),
        };
        if let Some(a) = alias {
            aliases.push(a);
        }
        let r = CommandInfo { name, aliases, description };
        proof {
            assert(slices(r.aliases@) =~= self.entry().aliases);
        }
        r
    }
}

/// The commands in the order in which they are listed.
pub fn command_ids() -> (r: Vec<CommandId>)
    ensures
        r@ == listed(),
{
    let r = vec![
        CommandId::Colon,
        CommandId::Cd,
        CommandId::Env,
        CommandId::Exit,
        CommandId::Export,
        CommandId::False,
        CommandId::Pwd,
        CommandId::SetOption,
        CommandId::True,
        CommandId::Unset,
        CommandId::Cat,
        CommandId::Find,
        CommandId::Ls,
        CommandId::Mkdir,
        CommandId::Rm,
        CommandId::Touch,
        CommandId::Cut,
        CommandId::Echo,
        CommandId::Grep,
        CommandId::Head,
        CommandId::Jq,
        CommandId::Printf,
        CommandId::Sort,
        CommandId::Tail,
        CommandId::Tee,
        CommandId::Tr,
        CommandId::Uniq,
        CommandId::Wc,
        CommandId::Xxd,
        CommandId::Test,
        CommandId::Sh,
        CommandId::Date,
        CommandId::Sleep,
        CommandId::Time,
        CommandId::Help,
        CommandId::Node,
        CommandId::Tool,
        CommandId::Tools,
    ];
    proof {
        assert(r@ =~= listed());
    }
    r
}

/// What is said of a row of commands.
pub open spec fn entries(infos: Seq<CommandInfo>) -> Seq<Entry> {
    infos.map_values(|c: CommandInfo| c.entry())
}

/// Get metadata for all registered commands.
pub fn all_commands() -> (r: Vec<CommandInfo>)
    ensures
        entries(r@) == listed().map_values(|c: CommandId| c.entry()),
{
    let ids = command_ids();
    let mut r: Vec<CommandInfo> = Vec::new();
    let mut i: usize = 0;
    while i < ids.len()
        invariant
            i <= ids@.len(),
            ids@ == listed(),
            r@.len() == i,
            forall|k: int| 0 <= k < i ==> (#[trigger] r@[k]).entry() == listed()[k].entry(),
        decreases ids@.len() - i,
    {
        r.push(ids[i].info());
        i += 1;
    }
    proof {
        assert(entries(r@) =~= listed().map_values(|c: CommandId| c.entry()));
    }
    r
}

/// The first command from the `i`th on that goes by a name.
pub open spec fn command_from(name: Seq<char>, i: int) -> Option<CommandId>
    decreases listed().len() - i,
{
    if i < 0 || i >= listed().len() {
        None
    } else if listed()[i].goes_by(name) {
        Some(listed()[i])
    } else {
        command_from(name, i + 1)
    }
}

impl CommandInfo {
    /// Tests whether the command goes by a name.
    pub fn goes_by(&self, name: &str) -> (r: bool)
        ensures
            r == (self.entry().name == name@ || self.entry().aliases.contains(name@)),
    {
        if str_eq(self.name, name) {
            return true;
        }
        let mut i: usize = 0;
        while i < self.aliases.len()
            invariant
                i <= self.aliases@.len(),
                forall|k: int| 0 <= k < i ==> (#[trigger] self.aliases@[k])@ != name@,
            decreases self.aliases@.len() - i,
        {
            if str_eq(self.aliases[i], name) {
                proof {
                    assert(slices(self.aliases@)[i as int] == name@);
                }
                return true;
            }
            i += 1;
        }
        proof {
            if slices(self.aliases@).contains(name@) {
                let k = choose|k: int|
                    0 <= k < slices(self.aliases@).len() && slices(self.aliases@)[k] == name@;
                assert(self.aliases@[k]@ == name@);
            }
        }
        false
    }
}

/// Look up a command by name.
pub fn get_command(name: &str) -> (r: Option<CommandId>)
    ensures
        r == command_from(name@, 0),
{
    let ids = command_ids();
    let mut i: usize = 0;
    while i < ids.len()
        invariant
            i <= ids@.len(),
            ids@ == listed(),
            command_from(name@, i as int) == command_from(name@, 0),
        decreases ids@.len() - i,
    {
        let info = ids[i].info();
        if info.goes_by(name) {
            return Some(ids[i]);
        }
        i += 1;
    }
    None
}

/// The names that the commands from the `i`th on go by, each followed by its aliases.
pub open spec fn names_from(i: int) -> Seq<Seq<char>>
    decreases listed().len() - i,
{
    if i < 0 || i >= listed().len() {
        Seq::empty()
    } else {
        seq![listed()[i].entry().name] + listed()[i].entry().aliases + names_from(i + 1)
    }
}

/// List all available command names (for compatibility).
pub fn available_commands() -> (r: Vec<&'static str>)
    ensures
        slices(r@) == names_from(0),
{
    let ids = command_ids();
    let mut r: Vec<&'static str> = Vec::new();
    let mut i: usize = 0;
    proof {
        assert(slices(r@) + names_from(0) =~= names_from(0));
    }
    while i < ids.len()
        invariant
            i <= ids@.len(),
            ids@ == listed(),
            slices(r@) + names_from(i as int) == names_from(0),
        decreases ids@.len() - i,
    {
        let ghost before = r@;
        let mut info = ids[i].info();
        let ghost aliases = info.aliases@;
        r.push(info.name);
        r.append(&mut info.aliases);
        proof {
            assert(slices(r@) =~= slices(before) + (seq![ids@[i as int].entry().name] + slices(aliases)));
            assert(slices(before) + (seq![ids@[i as int].entry().name] + slices(aliases)) + names_from(
                i + 1,
            ) =~= slices(before) + names_from(i as int));
        }
        i += 1;
    }
    proof {
        assert(slices(r@) =~= names_from(0));
    }
    r
}

/// A command is found by a name exactly where the name is available.
pub proof fn law_available_is_found(name: Seq<char>)
    ensures
        command_from(name, 0) is Some <==> names_from(0).contains(name),
        command_from(name, 0) matches Some(c) ==> c.goes_by(name),
{
    lemma_found(name, 0);
}

proof fn lemma_found(name: Seq<char>, i: int)
    requires
        0 <= i <= listed().len(),
    ensures
        command_from(name, i) is Some <==> names_from(i).contains(name),
        command_from(name, i) matches Some(c) ==> c.goes_by(name),
    decreases listed().len() - i,
{
    if i < listed().len() {
        lemma_found(name, i + 1);
        let e = listed()[i].entry();
        let head = seq![e.name] + e.aliases;
        let rest = names_from(i + 1);
        assert(names_from(i) == head + rest);
        if e.name == name {
            assert((head + rest)[0] == name);
        } else if e.aliases.contains(name) {
            let k = choose|k: int| 0 <= k < e.aliases.len() && e.aliases[k] == name;
            assert((head + rest)[k + 1] == name);
        } else if rest.contains(name) {
            let k = choose|k: int| 0 <= k < rest.len() && rest[k] == name;
            assert((head + rest)[head.len() + k] == name);
        } else if (head + rest).contains(name) {
            let k = choose|k: int| 0 <= k < (head + rest).len() && (head + rest)[k] == name;
            if k == 0 {
                assert(e.name == name);
            } else if k < head.len() {
                assert(e.aliases[k - 1] == name);
            } else {
                assert(rest[k - head.len()] == name);
            }
        }
    } else {
        assert(!names_from(i).contains(name));
    }
}

/// A number that tells the names of the commands apart: made of the length of a name
/// and its first three characters.
spec fn mark(name: Seq<char>) -> int {
    let a = name[0] as int;
    let b = if name.len() > 1 {
        name[1] as int
    } else {
        0
    };
    let c = if name.len() > 2 {
        name[2] as int
    } else {
        0
    };
    ((name.len() * 128 + a) * 128 + b) * 128 + c
}

/// The command that a name belongs to.
spec fn owner(name: Seq<char>) -> CommandId {
    let c = mark(name);
    if c == 3047424 {
        CommandId::Colon
    } else if c == 5829120 {
        CommandId::Cd
    } else if c == 7960438 {
        CommandId::Env
    } else if c == 10058857 {
        CommandId::Exit
    } else if c == 14253168 {
        CommandId::Export
    } else if c == 12169452 {
        CommandId::False
    } else if c == 8141796 {
        CommandId::Pwd
    } else if c == 8188660 {
        CommandId::SetOption
    } else if c == 10303861 {
        CommandId::True
    } else if c == 12416883 {
        CommandId::Unset
    } else if c == 7926004 {
        CommandId::Cat
    } else if c == 10073326 {
        CommandId::Find
    } else if c == 5978496 {
        CommandId::Ls
    } else if c == 12285412 {
        CommandId::Mkdir
    } else if c == 6076032 {
        CommandId::Rm
    } else if c == 12400629 {
        CommandId::Touch
    } else if c == 7928564 {
        CommandId::Cut
    } else if c == 10056168 {
        CommandId::Echo
    } else if c == 10090853 {
        CommandId::Grep
    } else if c == 10105569 {
        CommandId::Head
    } else if c == 5945472 {
        CommandId::Jq
    } else if c == 14432617 {
        CommandId::Printf
    } else if c == 10287090 {
        CommandId::Sort
    } else if c == 10301673 {
        CommandId::Tail
    } else if c == 8205029 {
        CommandId::Tee
    } else if c == 6109440 {
        CommandId::Tr
    } else if c == 10319721 {
        CommandId::Uniq
    } else if c == 6156672 {
        CommandId::Wc
    } else if c == 8272996 {
        CommandId::Xxd
    } else if c == 10302195 || c == 3588096 {
        CommandId::Test
    } else if c == 6091776 || c == 10006771 {
        CommandId::Sh
    } else if c == 10039540 {
        CommandId::Date
    } else if c == 12383845 {
        CommandId::Sleep
    } else if c == 10302701 {
        CommandId::Time
    } else if c == 10105580 {
        CommandId::Help
    } else if c == 10205156 {
        CommandId::Node
    } else if c == 10303471 {
        CommandId::Tool
    } else if c == 12400623 {
        CommandId::Tools
    } else {
        CommandId::Colon
    }
}

/// The place of a command in the list.
spec fn place(id: CommandId) -> int {
    match id {
        CommandId::Colon => 0,
        CommandId::Cd => 1,
        CommandId::Env => 2,
        CommandId::Exit => 3,
        CommandId::Export => 4,
        CommandId::False => 5,
        CommandId::Pwd => 6,
        CommandId::SetOption => 7,
        CommandId::True => 8,
        CommandId::Unset => 9,
        CommandId::Cat => 10,
        CommandId::Find => 11,
        CommandId::Ls => 12,
        CommandId::Mkdir => 13,
        CommandId::Rm => 14,
        CommandId::Touch => 15,
        CommandId::Cut => 16,
        CommandId::Echo => 17,
        CommandId::Grep => 18,
        CommandId::Head => 19,
        CommandId::Jq => 20,
        CommandId::Printf => 21,
        CommandId::Sort => 22,
        CommandId::Tail => 23,
        CommandId::Tee => 24,
        CommandId::Tr => 25,
        CommandId::Uniq => 26,
        CommandId::Wc => 27,
        CommandId::Xxd => 28,
        CommandId::Test => 29,
        CommandId::Sh => 30,
        CommandId::Date => 31,
        CommandId::Sleep => 32,
        CommandId::Time => 33,
        CommandId::Help => 34,
        CommandId::Node => 35,
        CommandId::Tool => 36,
        CommandId::Tools => 37,
    }
}

proof fn lemma_owner(id: CommandId)
    ensures
        owner(id.entry().name) == id,
        forall|k: int|
            0 <= k < id.entry().aliases.len() ==> owner(#[trigger] id.entry().aliases[k]) == id,
        forall|k: int|
            0 <= k < id.entry().aliases.len() ==> (#[trigger] id.entry().aliases[k])
                != id.entry().name,
        id.entry().aliases.len() <= 1,
{
    match id {
        CommandId::Colon => {
            reveal_strlit(":");
            assert(mark(":"@) == 3047424);
        },
        CommandId::Cd => {
            reveal_strlit("cd");
            assert(mark("cd"@) == 5829120);
        },
        CommandId::Env => {
            reveal_strlit("env");
            assert(mark("env"@) == 7960438);
        },
        CommandId::Exit => {
            reveal_strlit("exit");
            assert(mark("exit"@) == 10058857);
        },
        CommandId::Export => {
            reveal_strlit("export");
            assert(mark("export"@) == 14253168);
        },
        CommandId::False => {
            reveal_strlit("false");
            assert(mark("false"@) == 12169452);
        },
        CommandId::Pwd => {
            reveal_strlit("pwd");
            assert(mark("pwd"@) == 8141796);
        },
        CommandId::SetOption => {
            reveal_strlit("set");
            assert(mark("set"@) == 8188660);
        },
        CommandId::True => {
            reveal_strlit("true");
            assert(mark("true"@) == 10303861);
        },
        CommandId::Unset => {
            reveal_strlit("unset");
            assert(mark("unset"@) == 12416883);
        },
        CommandId::Cat => {
            reveal_strlit("cat");
            assert(mark("cat"@) == 7926004);
        },
        CommandId::Find => {
            reveal_strlit("find");
            assert(mark("find"@) == 10073326);
        },
        CommandId::Ls => {
            reveal_strlit("ls");
            assert(mark("ls"@) == 5978496);
        },
        CommandId::Mkdir => {
            reveal_strlit("mkdir");
            assert(mark("mkdir"@) == 12285412);
        },
        CommandId::Rm => {
            reveal_strlit("rm");
            assert(mark("rm"@) == 6076032);
        },
        CommandId::Touch => {
            reveal_strlit("touch");
            assert(mark("touch"@) == 12400629);
        },
        CommandId::Cut => {
            reveal_strlit("cut");
            assert(mark("cut"@) == 7928564);
        },
        CommandId::Echo => {
            reveal_strlit("echo");
            assert(mark("echo"@) == 10056168);
        },
        CommandId::Grep => {
            reveal_strlit("grep");
            assert(mark("grep"@) == 10090853);
        },
        CommandId::Head => {
            reveal_strlit("head");
            assert(mark("head"@) == 10105569);
        },
        CommandId::Jq => {
            reveal_strlit("jq");
            assert(mark("jq"@) == 5945472);
        },
        CommandId::Printf => {
            reveal_strlit("printf");
            assert(mark("printf"@) == 14432617);
        },
        CommandId::Sort => {
            reveal_strlit("sort");
            assert(mark("sort"@) == 10287090);
        },
        CommandId::Tail => {
            reveal_strlit("tail");
            assert(mark("tail"@) == 10301673);
        },
        CommandId::Tee => {
            reveal_strlit("tee");
            assert(mark("tee"@) == 8205029);
        },
        CommandId::Tr => {
            reveal_strlit("tr");
            assert(mark("tr"@) == 6109440);
        },
        CommandId::Uniq => {
            reveal_strlit("uniq");
            assert(mark("uniq"@) == 10319721);
        },
        CommandId::Wc => {
            reveal_strlit("wc");
            assert(mark("wc"@) == 6156672);
        },
        CommandId::Xxd => {
            reveal_strlit("xxd");
            assert(mark("xxd"@) == 8272996);
        },
        CommandId::Test => {
            reveal_strlit("test");
            assert(mark("test"@) == 10302195);
            reveal_strlit("[");
            assert(mark("["@) == 3588096);
        },
        CommandId::Sh => {
            reveal_strlit("sh");
            assert(mark("sh"@) == 6091776);
            reveal_strlit("bash");
            assert(mark("bash"@) == 10006771);
        },
        CommandId::Date => {
            reveal_strlit("date");
            assert(mark("date"@) == 10039540);
        },
        CommandId::Sleep => {
            reveal_strlit("sleep");
            assert(mark("sleep"@) == 12383845);
        },
        CommandId::Time => {
            reveal_strlit("time");
            assert(mark("time"@) == 10302701);
        },
        CommandId::Help => {
            reveal_strlit("help");
            assert(mark("help"@) == 10105580);
        },
        CommandId::Node => {
            reveal_strlit("node");
            assert(mark("node"@) == 10205156);
        },
        CommandId::Tool => {
            reveal_strlit("tool");
            assert(mark("tool"@) == 10303471);
        },
        CommandId::Tools => {
            reveal_strlit("tools");
            assert(mark("tools"@) == 12400623);
        },
    }
}

proof fn lemma_place(j: int)
    requires
        0 <= j < listed().len(),
    ensures
        place(listed()[j]) == j,
{
    if j == 0 {
        assert(listed()[0] == CommandId::Colon);
    } else if j == 1 {
        assert(listed()[1] == CommandId::Cd);
    } else if j == 2 {
        assert(listed()[2] == CommandId::Env);
    } else if j == 3 {
        assert(listed()[3] == CommandId::Exit);
    } else if j == 4 {
        assert(listed()[4] == CommandId::Export);
    } else if j == 5 {
        assert(listed()[5] == CommandId::False);
    } else if j == 6 {
        assert(listed()[6] == CommandId::Pwd);
    } else if j == 7 {
        assert(listed()[7] == CommandId::SetOption);
    } else if j == 8 {
        assert(listed()[8] == CommandId::True);
    } else if j == 9 {
        assert(listed()[9] == CommandId::Unset);
    } else if j == 10 {
        assert(listed()[10] == CommandId::Cat);
    } else if j == 11 {
        assert(listed()[11] == CommandId::Find);
    } else if j == 12 {
        assert(listed()[12] == CommandId::Ls);
    } else if j == 13 {
        assert(listed()[13] == CommandId::Mkdir);
    } else if j == 14 {
        assert(listed()[14] == CommandId::Rm);
    } else if j == 15 {
        assert(listed()[15] == CommandId::Touch);
    } else if j == 16 {
        assert(listed()[16] == CommandId::Cut);
    } else if j == 17 {
        assert(listed()[17] == CommandId::Echo);
    } else if j == 18 {
        assert(listed()[18] == CommandId::Grep);
    } else if j == 19 {
        assert(listed()[19] == CommandId::Head);
    } else if j == 20 {
        assert(listed()[20] == CommandId::Jq);
    } else if j == 21 {
        assert(listed()[21] == CommandId::Printf);
    } else if j == 22 {
        assert(listed()[22] == CommandId::Sort);
    } else if j == 23 {
        assert(listed()[23] == CommandId::Tail);
    } else if j == 24 {
        assert(listed()[24] == CommandId::Tee);
    } else if j == 25 {
        assert(listed()[25] == CommandId::Tr);
    } else if j == 26 {
        assert(listed()[26] == CommandId::Uniq);
    } else if j == 27 {
        assert(listed()[27] == CommandId::Wc);
    } else if j == 28 {
        assert(listed()[28] == CommandId::Xxd);
    } else if j == 29 {
        assert(listed()[29] == CommandId::Test);
    } else if j == 30 {
        assert(listed()[30] == CommandId::Sh);
    } else if j == 31 {
        assert(listed()[31] == CommandId::Date);
    } else if j == 32 {
        assert(listed()[32] == CommandId::Sleep);
    } else if j == 33 {
        assert(listed()[33] == CommandId::Time);
    } else if j == 34 {
        assert(listed()[34] == CommandId::Help);
    } else if j == 35 {
        assert(listed()[35] == CommandId::Node);
    } else if j == 36 {
        assert(listed()[36] == CommandId::Tool);
    } else if j == 37 {
        assert(listed()[37] == CommandId::Tools);
    }
}

proof fn lemma_owners(i: int, k: int) -> (j: int)
    requires
        0 <= i <= listed().len(),
        0 <= k < names_from(i).len(),
    ensures
        i <= j < listed().len(),
        owner(names_from(i)[k]) == listed()[j],
    decreases listed().len() - i,
{
    let e = listed()[i].entry();
    let head = seq![e.name] + e.aliases;
    let rest = names_from(i + 1);
    assert(names_from(i) == head + rest);
    lemma_owner(listed()[i]);
    if k == 0 {
        i
    } else if k < head.len() {
        assert((head + rest)[k] == e.aliases[k - 1]);
        i
    } else {
        assert((head + rest)[k] == rest[k - head.len()]);
        lemma_owners(i + 1, k - head.len())
    }
}

/// No two available names are alike, and each name and alias of a command is available.
pub proof fn law_names_are_distinct()
    ensures
        names_from(0).no_duplicates(),
        forall|j: int|
            0 <= j < listed().len() ==> names_from(0).contains((#[trigger] listed()[j]).entry().name),
        forall|j: int, k: int|
            0 <= j < listed().len() && 0 <= k < listed()[j].entry().aliases.len()
                ==> names_from(0).contains(#[trigger] listed()[j].entry().aliases[k]),
{
    lemma_distinct(0);
    assert forall|j: int| 0 <= j < listed().len() implies names_from(0).contains(
        (#[trigger] listed()[j]).entry().name,
    ) by {
        lemma_named(0, j);
    }
    assert forall|j: int, k: int|
        0 <= j < listed().len() && 0 <= k < listed()[j].entry().aliases.len() implies names_from(
        0,
    ).contains(#[trigger] listed()[j].entry().aliases[k]) by {
        lemma_named(0, j);
    }
}

proof fn lemma_named(i: int, j: int)
    requires
        0 <= i <= j < listed().len(),
    ensures
        names_from(i).contains(listed()[j].entry().name),
        forall|k: int|
            0 <= k < listed()[j].entry().aliases.len() ==> names_from(i).contains(
                #[trigger] listed()[j].entry().aliases[k],
            ),
    decreases j - i,
{
    let e = listed()[i].entry();
    let head = seq![e.name] + e.aliases;
    let rest = names_from(i + 1);
    let own = listed()[j].entry();
    assert(names_from(i) == head + rest);
    if i == j {
        assert((head + rest)[0] == e.name);
        assert forall|k: int| 0 <= k < own.aliases.len() implies names_from(i).contains(
            #[trigger] own.aliases[k],
        ) by {
            assert((head + rest)[k + 1] == own.aliases[k]);
        }
    } else {
        lemma_named(i + 1, j);
        let at = choose|at: int| 0 <= at < rest.len() && rest[at] == own.name;
        assert((head + rest)[head.len() + at] == own.name);
        assert forall|k: int| 0 <= k < own.aliases.len() implies names_from(i).contains(
            #[trigger] own.aliases[k],
        ) by {
            assert(rest.contains(own.aliases[k]));
            let at = choose|at: int| 0 <= at < rest.len() && rest[at] == own.aliases[k];
            assert((head + rest)[head.len() + at] == own.aliases[k]);
        }
    }
}

proof fn lemma_distinct(i: int)
    requires
        0 <= i <= listed().len(),
    ensures
        names_from(i).no_duplicates(),
    decreases listed().len() - i,
{
    if i < listed().len() {
        lemma_distinct(i + 1);
        let e = listed()[i].entry();
        let head = seq![e.name] + e.aliases;
        let rest = names_from(i + 1);
        let all = names_from(i);
        assert(all == head + rest);
        lemma_owner(listed()[i]);
        assert forall|a: int, b: int|
            0 <= a < all.len() && 0 <= b < all.len() && a != b implies all[a] != all[b] by {
            if a >= head.len() {
                assert(all[a] == rest[a - head.len()]);
                let j = lemma_owners(i + 1, a - head.len());
                lemma_place(j);
                lemma_place(i);
            } else if a > 0 {
                assert(all[a] == e.aliases[a - 1]);
            }
            if b >= head.len() {
                assert(all[b] == rest[b - head.len()]);
                let j = lemma_owners(i + 1, b - head.len());
                lemma_place(j);
                lemma_place(i);
            } else if b > 0 {
                assert(all[b] == e.aliases[b - 1]);
            }
        }
    }
}

/// Each command goes by its name, and two of them by another one too.
pub proof fn law_names_of_commands()
    ensures
        CommandId::Colon.entry().name == ":"@,
        CommandId::Cd.entry().name == "cd"@,
        CommandId::Env.entry().name == "env"@,
        CommandId::Exit.entry().name == "exit"@,
        CommandId::Export.entry().name == "export"@,
        CommandId::False.entry().name == "false"@,
        CommandId::Pwd.entry().name == "pwd"@,
        CommandId::SetOption.entry().name == "set"@,
        CommandId::True.entry().name == "true"@,
        CommandId::Unset.entry().name == "unset"@,
        CommandId::Cat.entry().name == "cat"@,
        CommandId::Find.entry().name == "find"@,
        CommandId::Ls.entry().name == "ls"@,
        CommandId::Mkdir.entry().name == "mkdir"@,
        CommandId::Rm.entry().name == "rm"@,
        CommandId::Touch.entry().name == "touch"@,
        CommandId::Cut.entry().name == "cut"@,
        CommandId::Echo.entry().name == "echo"@,
        CommandId::Grep.entry().name == "grep"@,
        CommandId::Head.entry().name == "head"@,
        CommandId::Jq.entry().name == "jq"@,
        CommandId::Printf.entry().name == "printf"@,
        CommandId::Sort.entry().name == "sort"@,
        CommandId::Tail.entry().name == "tail"@,
        CommandId::Tee.entry().name == "tee"@,
        CommandId::Tr.entry().name == "tr"@,
        CommandId::Uniq.entry().name == "uniq"@,
        CommandId::Wc.entry().name == "wc"@,
        CommandId::Xxd.entry().name == "xxd"@,
        CommandId::Test.entry().name == "test"@,
        CommandId::Sh.entry().name == "sh"@,
        CommandId::Date.entry().name == "date"@,
        CommandId::Sleep.entry().name == "sleep"@,
        CommandId::Time.entry().name == "time"@,
        CommandId::Help.entry().name == "help"@,
        CommandId::Node.entry().name == "node"@,
        CommandId::Tool.entry().name == "tool"@,
        CommandId::Tools.entry().name == "tools"@,
        CommandId::Test.entry().aliases == seq!["["@],
        CommandId::Sh.entry().aliases == seq!["bash"@],
{
}

} // verus!
