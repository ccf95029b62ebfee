//! help - Display available commands and their descriptions.
use vstd::prelude::*;
use vstd::string::StringExecFns;
use crate::commands::registry::{all_commands, entries, listed, slices, CommandId, CommandInfo, Entry};
use crate::commands::Said;
use crate::text::{blanks, join, join_from, pad_right, repeated, to_chars};

verus! {

/// Texts from `i` on, with a comma and a blank before each.
pub open spec fn also_from(aliases: Seq<Seq<char>>, i: int) -> Seq<char>
    decreases aliases.len() - i,
{
    if i < 0 || i >= aliases.len() {
        Seq::empty()
    } else {
        ", "@ + aliases[i] + also_from(aliases, i + 1)
    }
}

impl Entry {
    /// The name of a command, with its aliases behind it.
    pub open spec fn label(self) -> Seq<char> {
        self.name + also_from(self.aliases, 0)
    }
}

/// The entries of all commands.
pub open spec fn known() -> Seq<Entry> {
    listed().map_values(|c: CommandId| c.entry())
}

/// The length of the longest label from the `i`th on.
pub open spec fn widest_from(es: Seq<Entry>, i: int) -> nat
    decreases es.len() - i,
{
    if i < 0 || i >= es.len() {
        0
    } else {
        let rest = widest_from(es, i + 1);
        if es[i].label().len() > rest {
            es[i].label().len()
        } else {
            rest
        }
    }
}

/// The lines of the commands from the `i`th on: the descriptions stand in a column.
pub open spec fn list_from(es: Seq<Entry>, width: int, i: int) -> Seq<char>
    decreases es.len() - i,
{
    if i < 0 || i >= es.len() {
        Seq::empty()
    } else {
        "  "@ + es[i].label() + repeated(' ', width - es[i].label().len() + 2)
            + es[i].description + "\n"@ + list_from(es, width, i + 1)
    }
}

/// The list of all commands.
pub open spec fn all_text(es: Seq<Entry>) -> Seq<char> {
    "Available commands:\n\n"@ + list_from(es, widest_from(es, 0) as int, 0)
        + "\nUse 'help <command>' for more information on a specific command.\nUse '<command> --help' for detailed usage of most commands.\n"@
}

/// The first entry from the `i`th on whose name or alias is `name`.
pub open spec fn entry_from(es: Seq<Entry>, name: Seq<char>, i: int) -> Option<Entry>
    decreases es.len() - i,
{
    if i < 0 || i >= es.len() {
        None
    } else if es[i].name == name || es[i].aliases.contains(name) {
        Some(es[i])
    } else {
        entry_from(es, name, i + 1)
    }
}

/// The help of one command.
pub open spec fn one_text(e: Entry) -> Seq<char> {
    e.name + ": "@ + e.description + "\n"@ + (if e.aliases.len() == 0 {
        Seq::empty()
    } else {
        "Aliases: "@ + e.aliases[0] + also_from(e.aliases, 1) + "\n"@
    }) + "\nRun '"@ + e.name + " --help' for detailed usage.\n"@
}

fn push_also(out: &mut String, aliases: &Vec<&'static str>, from: usize)
    requires
        from <= aliases@.len(),
    ensures
        final(out)@ == old(out)@ + also_from(slices(aliases@), from as int),
{
    let ghost start = out@;
    let ghost all = slices(aliases@);
    let mut i = from;
    while i < aliases.len()
        invariant
            from <= i <= aliases@.len(),
            all == slices(aliases@),
            out@ + also_from(all, i as int) == start + also_from(all, from as int),
        decreases aliases@.len() - i,
    {
        let ghost before = out@;
        out.append(", ");
        out.append(aliases[i]);
        proof {
            assert(all[i as int] == aliases@[i as int]@);
            let rest = also_from(all, i + 1);
            assert(before + ", "@ + all[i as int] + rest =~= before + (", "@ + all[i as int] + rest));
        }
        i += 1;
    }
    proof {
        assert(out@ + also_from(all, i as int) =~= out@);
    }
}

fn label(info: &CommandInfo) -> (r: String)
    ensures
        r@ == info.entry().label(),
{
    let mut r = info.name.to_owned();
    push_also(&mut r, &info.aliases, 0);
    r
}

fn print_all_commands(infos: &Vec<CommandInfo>) -> (r: String)
    ensures
        r@ == all_text(entries(infos@)),
{
    let ghost es = entries(infos@);
    let mut width: usize = 0;
    let mut i = infos.len();
    while i > 0
        invariant
            i <= infos@.len(),
            es == entries(infos@),
            width == widest_from(es, i as int),
        decreases i,
    {
        i -= 1;
        proof {
            assert(es[i as int] == infos@[i as int].entry());
        }
        let l = label(&infos[i]);
        let n = to_chars(l.as_str()).len();
        if n > width {
            width = n;
        }
    }
    let mut out = "Available commands:\n\n".to_owned();
    let ghost start = out@;
    let ghost w = width as int;
    let mut k: usize = 0;
    while k < infos.len()
        invariant
            k <= infos@.len(),
            es == entries(infos@),
            w == width,
            w == widest_from(es, 0),
            out@ + list_from(es, w, k as int) == start + list_from(es, w, 0),
        decreases infos@.len() - k,
    {
        let ghost before = out@;
        proof {
            assert(es[k as int] == infos@[k as int].entry());
            lemma_widest(es, 0, k as int);
        }
        let l = label(&infos[k]);
        let n = to_chars(l.as_str()).len();
        let gap = blanks(width - n);
        out.append("  ");
        out.append(l.as_str());
        out.append(gap.as_str());
        out.append("  ");
        out.append(infos[k].description);
        out.append("\n");
        proof {
            reveal_strlit("  ");
            let e = es[k as int];
            let rest = list_from(es, w, k + 1);
            let line = "  "@ + e.label() + repeated(' ', w - e.label().len() + 2) + e.description
                + "\n"@;
            assert(repeated(' ', w - n) + "  "@ =~= repeated(' ', w - n + 2));
            assert(out@ =~= before + line) by {
                assert("  "@ + e.label() + repeated(' ', w - n) + "  "@ =~= "  "@ + e.label() + (
                repeated(' ', w - n) + "  "@));
            }
            assert(before + line + rest =~= before + (line + rest));
        }
        k += 1;
    }
    out.append("\nUse 'help <command>' for more information on a specific command.\nUse '<command> --help' for detailed usage of most commands.\n");
    out
}

proof fn lemma_widest(es: Seq<Entry>, from: int, k: int)
    requires
        0 <= from <= k < es.len(),
    ensures
        es[k].label().len() <= widest_from(es, from),
    decreases es.len() - from,
{
    if from < k {
        lemma_widest(es, from + 1, k);
    }
}

fn print_command_help(infos: &Vec<CommandInfo>, name: &str) -> (r: Said)
    ensures
        match entry_from(entries(infos@), name@, 0) {
            Some(e) => r.says(one_text(e), Seq::empty(), 0),
            None => r.says(
                Seq::empty(),
                "help: unknown command: "@ + name@
                    + "\nRun 'help' for a list of available commands.\n"@,
                0,
            ),
        },
{
    let ghost es = entries(infos@);
    let mut i: usize = 0;
    while i < infos.len()
        invariant
            i <= infos@.len(),
            es == entries(infos@),
            entry_from(es, name@, i as int) == entry_from(es, name@, 0),
        decreases infos@.len() - i,
    {
        let info = &infos[i];
        proof {
            assert(es[i as int] == info.entry());
        }
        if info.goes_by(name) {
            let mut out = info.name.to_owned();
            out.append(": ");
            out.append(info.description);
            out.append("\n");
            let ghost head = out@;
            if info.aliases.len() > 0 {
                out.append("Aliases: ");
                out.append(info.aliases[0]);
                push_also(&mut out, &info.aliases, 1);
                out.append("\n");
                proof {
                    let a = info.entry().aliases;
                    assert(a[0] == info.aliases@[0]@);
                    let line = "Aliases: "@ + a[0] + also_from(a, 1) + "\n"@;
                    assert(out@ =~= head + line);
                }
            } else {
                proof {
                    assert(out@ =~= head + Seq::<char>::empty());
                }
            }
            out.append("\nRun '");
            out.append(info.name);
            out.append(" --help' for detailed usage.\n");
            return Said { out, err: String::new(), code: 0 };
        }
        i += 1;
    }
    let mut err = "help: unknown command: ".to_owned();
    err.append(name);
    err.append("\nRun 'help' for a list of available commands.\n");
    Said { out: String::new(), err, code: 0 }
}

/// help [command]
///
/// Display help information.
///
/// With no arguments, lists all available commands.
/// With a command name, shows detailed help for that command.
pub fn run(argv: &Vec<String>) -> (r: Said)
    ensures
        argv@.len() <= 1 ==> r.says(all_text(known()), Seq::empty(), 0),
        argv@.len() > 1 ==> match entry_from(known(), argv@[1]@, 0) {
            Some(e) => r.says(one_text(e), Seq::empty(), 0),
            None => r.says(
                Seq::empty(),
                "help: unknown command: "@ + argv@[1]@
                    + "\nRun 'help' for a list of available commands.\n"@,
                0,
            ),
        },
{
    let infos = all_commands();
    if argv.len() <= 1 {
        Said { out: print_all_commands(&infos), err: String::new(), code: 0 }
    } else {
        print_command_help(&infos, argv[1].as_str())
    }
}

/// A command is shown by its name and its other names, with commas between them.
pub proof fn law_labels(e: Entry)
    ensures
        e.label() == join(seq![e.name] + e.aliases, seq![',', ' ']),
{
    reveal_strlit(", ");
    assert(", "@ =~= seq![',', ' ']);
    lemma_also(e.name, e.aliases, 0);
    let all = seq![e.name] + e.aliases;
    assert(all[0] == e.name);
    if e.aliases.len() == 0 {
        assert(e.name + also_from(e.aliases, 0) =~= e.name);
    } else {
        assert(join(all, seq![',', ' ']) == e.name + seq![',', ' '] + join_from(
            all,
            seq![',', ' '],
            1,
        ));
        assert(e.label() =~= e.name + seq![',', ' '] + join_from(all, seq![',', ' '], 1));
    }
}

proof fn lemma_also(name: Seq<char>, aliases: Seq<Seq<char>>, i: int)
    requires
        0 <= i <= aliases.len(),
    ensures
        i < aliases.len() ==> also_from(aliases, i) == seq![',', ' '] + join_from(
            seq![name] + aliases,
            seq![',', ' '],
            i + 1,
        ),
        i == aliases.len() ==> also_from(aliases, i).len() == 0,
    decreases aliases.len() - i,
{
    reveal_strlit(", ");
    assert(", "@ =~= seq![',', ' ']);
    let all = seq![name] + aliases;
    if i < aliases.len() {
        assert(all[i + 1] == aliases[i]);
        lemma_also(name, aliases, i + 1);
        if i + 1 == aliases.len() {
            assert(aliases[i] + also_from(aliases, i + 1) =~= aliases[i]);
        }
        assert(also_from(aliases, i) =~= seq![',', ' '] + join_from(all, seq![',', ' '], i + 1));
    }
}

/// The widest label is as wide as one of them, and no narrower than any.
pub proof fn law_widest(es: Seq<Entry>, from: int)
    requires
        0 <= from <= es.len(),
    ensures
        forall|k: int|
            from <= k < es.len() ==> (#[trigger] es[k]).label().len() <= widest_from(es, from),
        from < es.len() ==> exists|k: int|
            from <= k < es.len() && (#[trigger] es[k]).label().len() == widest_from(es, from),
        from == es.len() ==> widest_from(es, from) == 0,
    decreases es.len() - from,
{
    if from < es.len() {
        law_widest(es, from + 1);
        if es[from].label().len() > widest_from(es, from + 1) {
            assert(es[from].label().len() == widest_from(es, from));
        } else if from + 1 < es.len() {
            let k = choose|k: int|
                from + 1 <= k < es.len() && (#[trigger] es[k]).label().len() == widest_from(
                    es,
                    from + 1,
                );
            assert(es[k].label().len() == widest_from(es, from));
        } else {
            assert(es[from].label().len() == widest_from(es, from));
        }
    }
}

/// Each line of the list is a label to the width of the widest, two blanks and the
/// description, behind two blanks.
pub proof fn law_lines_of_the_list(es: Seq<Entry>, width: int, i: int)
    requires
        0 <= i < es.len(),
        es[i].label().len() <= width,
    ensures
        list_from(es, width, i) == seq![' ', ' '] + pad_right(es[i].label(), width) + seq![' ', ' ']
            + es[i].description + seq!['\n'] + list_from(es, width, i + 1),
        list_from(es, width, es.len() as int).len() == 0,
{
    reveal_strlit("  ");
    reveal_strlit("\n");
    assert("  "@ =~= seq![' ', ' ']);
    assert("\n"@ =~= seq!['\n']);
    let label = es[i].label();
    assert(repeated(' ', width - label.len() + 2) =~= repeated(' ', width - label.len()) + seq![
        ' ',
        ' ',
    ]);
    assert(list_from(es, width, i) =~= seq![' ', ' '] + pad_right(label, width) + seq![' ', ' ']
        + es[i].description + seq!['\n'] + list_from(es, width, i + 1));
}

/// A name leads to the first entry that has it, as its name or as another one.
pub proof fn law_entry_of_a_name(es: Seq<Entry>, name: Seq<char>, i: int)
    requires
        0 <= i < es.len(),
        es[i].name == name || es[i].aliases.contains(name),
        forall|k: int|
            0 <= k < i ==> (#[trigger] es[k]).name != name && !es[k].aliases.contains(name),
    ensures
        entry_from(es, name, 0) == Some(es[i]),
{
    lemma_entry_is(es, name, 0, i);
}

proof fn lemma_entry_is(es: Seq<Entry>, name: Seq<char>, from: int, i: int)
    requires
        0 <= from <= i < es.len(),
        es[i].name == name || es[i].aliases.contains(name),
        forall|k: int|
            0 <= k < i ==> (#[trigger] es[k]).name != name && !es[k].aliases.contains(name),
    ensures
        entry_from(es, name, from) == Some(es[i]),
    decreases i - from,
{
    if from < i {
        assert(es[from].name != name);
        lemma_entry_is(es, name, from + 1, i);
    }
}

/// What is said of one command: its description, its other names and where to find more.
pub proof fn law_text_of_one(e: Entry)
    ensures
        e.aliases.len() == 0 ==> one_text(e) == e.name + ": "@ + e.description + "\n"@
            + "\nRun '"@ + e.name + " --help' for detailed usage.\n"@,
        e.aliases.len() == 1 ==> one_text(e) == e.name + ": "@ + e.description + "\n"@
            + "Aliases: "@ + e.aliases[0] + "\n"@ + "\nRun '"@ + e.name
            + " --help' for detailed usage.\n"@,
{
    let none = Seq::<char>::empty();
    let front = e.name + ": "@ + e.description + "\n"@;
    assert(front + none =~= front);
    if e.aliases.len() == 1 {
        assert(also_from(e.aliases, 1) =~= none);
        let also = "Aliases: "@ + e.aliases[0];
        assert(also + none =~= also);
        assert(front + (also + "\n"@) =~= front + "Aliases: "@ + e.aliases[0] + "\n"@);
    }
}

} // verus!
