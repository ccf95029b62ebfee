//! find - search for files in a directory hierarchy
use vstd::prelude::*;
use vstd::string::StringExecFns;
use crate::commands::{lemma_text_to, text_to, write_text, written, Channel, Report};
use crate::context::CmdContext;
use crate::fs::{lemma_longest, lemma_node_names, longest, DirEntry, Node};
use crate::list::{strings_of, Strings};
use crate::num::{decimal, law_decimal_is_read, parse_usize, read_usize};
use crate::path::{
    child, child_path, is_normal, law_normal_form, law_normal_is_stable, lemma_child_is_normal,
    names,
};
use crate::text::{basename, last_part, str_eq, strs, to_chars};

verus! {

pub const HELP: &'static str = "find - search for files in a directory hierarchy\n\nUsage: find [PATH...] [EXPRESSION]\n\nIf no path is given, defaults to current directory.\n\nExpressions:\n  -name PATTERN     Match filename (supports * and ? wildcards)\n  -type TYPE        Match file type: f (file), d (directory)\n  -maxdepth N       Descend at most N levels\n  -mindepth N       Don't apply tests at levels less than N\n  -print            Print matching path (default action)\n\nExamples:\n  find                        List all files recursively\n  find .                      Same as above\n  find /workspace -name '*.rs'  Find all Rust files\n  find . -type f              Find only regular files\n  find . -type d              Find only directories\n  find . -name 'test*' -type f  Combine conditions\n  find . -maxdepth 1          List immediate contents only\n";

/// Options and filters for find.
pub struct FindOptions {
    /// Name pattern to match (with * and ? wildcards).
    pub name_pattern: Option<String>,
    /// File type filter: 'f' for file, 'd' for directory.
    pub file_type: Option<char>,
    /// Maximum depth to descend.
    pub max_depth: Option<usize>,
    /// Minimum depth before applying tests.
    pub min_depth: usize,
    /// Whether -print was explicitly specified.
    pub print_explicit: bool,
}

/// What find is asked for.
pub struct Query {
    /// The pattern of the names.
    pub name: Option<Seq<char>>,
    /// The type of the files.
    pub kind: Option<char>,
    /// How deep to go.
    pub max: Option<nat>,
    /// From where on to test.
    pub min: nat,
    /// Whether -print was specified.
    pub print: bool,
}

impl FindOptions {
    /// What these options ask for.
    pub open spec fn query(self) -> Query {
        Query {
            name: match self.name_pattern {
                Some(s) => Some(s@),
                None => None,
            },
            kind: self.file_type,
            max: match self.max_depth {
                Some(n) => Some(n as nat),
                None => None,
            },
            min: self.min_depth as nat,
            print: self.print_explicit,
        }
    }

    fn new() -> (r: FindOptions)
        ensures
            r.query() == all(),
    {
        FindOptions {
            name_pattern: None,
            file_type: None,
            max_depth: None,
            min_depth: 0,
            print_explicit: false,
        }
    }
}

/// The query that everything meets.
pub open spec fn all() -> Query {
    Query { name: None, kind: None, max: None, min: 0, print: false }
}

// ---------------------------------------------------------------------------
// Names
// ---------------------------------------------------------------------------

/// Whether a pattern from `j` on fits a name from `i` on: `*` stands for any
/// characters, `?` for one.
pub open spec fn fits_at(name: Seq<char>, i: int, pattern: Seq<char>, j: int) -> bool
    decreases pattern.len() - j, name.len() - i,
{
    if j < 0 || j >= pattern.len() {
        i == name.len()
    } else if pattern[j] == '*' {
        fits_at(name, i, pattern, j + 1) || (0 <= i < name.len() && fits_at(
            name,
            i + 1,
            pattern,
            j,
        ))
    } else {
        0 <= i < name.len() && (pattern[j] == '?' || pattern[j] == name[i]) && fits_at(
            name,
            i + 1,
            pattern,
            j + 1,
        )
    }
}

/// Whether a pattern fits a name.
pub open spec fn fits(name: Seq<char>, pattern: Seq<char>) -> bool {
    fits_at(name, 0, pattern, 0)
}

fn matches_glob_inner(name: &[char], from: usize, pattern: &[char], at: usize) -> (r: bool)
    requires
        from <= name@.len(),
        at <= pattern@.len(),
    ensures
        r == fits_at(name@, from as int, pattern@, at as int),
    decreases pattern@.len() - at,
{
    let mut i = from;
    let mut j = at;
    while j < pattern.len()
        invariant
            i <= name@.len(),
            at <= j <= pattern@.len(),
            fits_at(name@, from as int, pattern@, at as int) == fits_at(
                name@,
                i as int,
                pattern@,
                j as int,
            ),
        decreases pattern@.len() - j,
    {
        let p = pattern[j];
        if p == '*' {
            let mut k = i;
            loop
                invariant
                    i <= k <= name@.len(),
                    at <= j < pattern@.len() <= usize::MAX,
                    pattern@[j as int] == '*',
                    fits_at(name@, from as int, pattern@, at as int) == fits_at(
                        name@,
                        k as int,
                        pattern@,
                        j as int,
                    ),
                decreases name@.len() - k,
            {
                if matches_glob_inner(name, k, pattern, j + 1) {
                    return true;
                }
                if k == name.len() {
                    return false;
                }
                k += 1;
            }
        }
        if i >= name.len() || (p != '?' && p != name[i]) {
            return false;
        }
        i += 1;
        j += 1;
    }
    i == name.len()
}

/// Simple glob matching supporting * and ?
pub fn matches_glob(name: &str, pattern: &str) -> (r: bool)
    ensures
        r == fits(name@, pattern@),
{
    let n = to_chars(name);
    let p = to_chars(pattern);
    matches_glob_inner(&n, 0, &p, 0)
}

/// A star fits every name.
pub proof fn law_star_fits_all(name: Seq<char>)
    ensures
        fits(name, seq!['*']),
{
    lemma_star_fits(name, 0);
}

proof fn lemma_star_fits(name: Seq<char>, i: int)
    requires
        0 <= i <= name.len(),
    ensures
        fits_at(name, i, seq!['*'], 0),
    decreases name.len() - i,
{
    let pattern = seq!['*'];
    if i < name.len() {
        lemma_star_fits(name, i + 1);
    } else {
        assert(fits_at(name, i, pattern, 0int + 1));
    }
}

/// A pattern without a star and a question mark fits one name: itself.
pub proof fn law_plain_pattern(name: Seq<char>, pattern: Seq<char>)
    requires
        forall|k: int| 0 <= k < pattern.len() ==> pattern[k] != '*' && pattern[k] != '?',
    ensures
        fits(name, pattern) == (name == pattern),
{
    lemma_plain_pattern(name, pattern, 0);
    assert(name.skip(0) =~= name);
    assert(pattern.skip(0) =~= pattern);
}

proof fn lemma_plain_pattern(name: Seq<char>, pattern: Seq<char>, i: int)
    requires
        forall|k: int| 0 <= k < pattern.len() ==> pattern[k] != '*' && pattern[k] != '?',
        0 <= i <= pattern.len(),
        i <= name.len(),
    ensures
        fits_at(name, i, pattern, i) == (name.skip(i) == pattern.skip(i)),
    decreases pattern.len() - i,
{
    if i < pattern.len() {
        if i < name.len() {
            lemma_plain_pattern(name, pattern, i + 1);
            let a = name.skip(i);
            let b = pattern.skip(i);
            assert(a.skip(1) =~= name.skip(i + 1));
            assert(b.skip(1) =~= pattern.skip(i + 1));
            if name[i] == pattern[i] && a.skip(1) == b.skip(1) {
                assert forall|k: int| 0 <= k < a.len() implies a[k] == b[k] by {
                    if k > 0 {
                        assert(a[k] == a.skip(1)[k - 1]);
                        assert(b[k] == b.skip(1)[k - 1]);
                    }
                }
                assert(a.skip(1).len() == b.skip(1).len());
                assert(a =~= b);
            }
            if a == b {
                assert(a[0] == name[i] && b[0] == pattern[i]);
            }
        } else {
            assert(name.skip(i).len() == 0);
            assert(pattern.skip(i).len() > 0);
        }
    } else if name.skip(i) == pattern.skip(i) {
        assert(pattern.skip(i).len() == 0);
        assert(name.skip(i).len() == 0);
    } else {
        if i == name.len() {
            assert(name.skip(i) =~= pattern.skip(i));
        }
    }
}

// ---------------------------------------------------------------------------
// The walk
// ---------------------------------------------------------------------------

impl Query {
    /// Whether a path is of the type and has a name that the query asks for.
    pub open spec fn accepts(self, ctx: CmdContext, path: Seq<char>, shown: Seq<char>) -> bool {
        &&& self.kind == Some('f') ==> ctx.has_file(path)
        &&& self.kind == Some('d') ==> ctx.has_dir(path)
        &&& self.name matches Some(pattern) ==> fits(basename(shown), pattern)
    }

    /// What find writes of a path alone.
    pub open spec fn own(
        self,
        ctx: CmdContext,
        path: Seq<char>,
        shown: Seq<char>,
        depth: nat,
    ) -> Seq<(Channel, Seq<char>)> {
        if depth >= self.min && self.accepts(ctx, path, shown) {
            seq![(Channel::Stdout, shown + "\n"@)]
        } else {
            Seq::empty()
        }
    }

    /// What find writes of a path and of all that is under it: lines to stdout, and
    /// complaints to stderr.
    pub open spec fn walk(
        self,
        ctx: CmdContext,
        path: Seq<char>,
        shown: Seq<char>,
        depth: nat,
    ) -> Seq<(Channel, Seq<char>)>
        decreases room(ctx, path), 1int, 0int,
    {
        let own = self.own(ctx, path, shown, depth);
        if self.max matches Some(m) && depth >= m {
            own
        } else {
            match ctx.fs.node(path) {
                Some(Node::Dir(entries)) => own + self.walk_from(
                    ctx,
                    path,
                    shown,
                    entries@,
                    0,
                    depth,
                ),
                Some(Node::Closed(_, m)) => own.push(
                    (Channel::Stderr, "find: '"@ + shown + "': "@ + m@ + "\n"@),
                ),
                _ => own,
            }
        }
    }

    /// What find writes of the entries of a directory from `i` on.
    pub open spec fn walk_from(
        self,
        ctx: CmdContext,
        path: Seq<char>,
        shown: Seq<char>,
        entries: Seq<DirEntry>,
        i: int,
        depth: nat,
    ) -> Seq<(Channel, Seq<char>)>
        decreases room(ctx, path), 0int, entries.len() - i,
    {
        if i < 0 || i >= entries.len() {
            Seq::empty()
        } else {
            let name = entries[i].name@;
            let first = if room(ctx, child(path, name)) < room(ctx, path) {
                self.walk(ctx, child(path, name), child(shown, name), depth + 1)
            } else {
                Seq::empty()
            };
            first + self.walk_from(ctx, path, shown, entries, i + 1, depth)
        }
    }

    /// What find writes of the paths from `i` on.
    pub open spec fn walk_all(self, ctx: CmdContext, paths: Seq<Seq<char>>, i: int) -> Seq<
        (Channel, Seq<char>),
    >
        decreases paths.len() - i,
    {
        if i < 0 || i >= paths.len() {
            Seq::empty()
        } else {
            let start = ctx.absolute(paths[i]);
            let first = if ctx.has(start) {
                self.walk(ctx, start, paths[i], 0)
            } else {
                seq![(Channel::Stderr, "find: '"@ + paths[i] + "': No such file or directory\n"@)]
            };
            first + self.walk_all(ctx, paths, i + 1)
        }
    }
}

/// How much longer than `path` a path that exists can be.
pub open spec fn room(ctx: CmdContext, path: Seq<char>) -> nat {
    let most = longest(ctx.fs.nodes@) + 1;
    if path.len() <= most {
        (most - path.len()) as nat
    } else {
        0
    }
}

fn matches_criteria(ctx: &CmdContext, path: &str, shown: &str, opts: &FindOptions) -> (r: bool)
    ensures
        r == opts.query().accepts(*ctx, path@, shown@),
{
    match opts.file_type {
        Some(t) => {
            if t == 'f' && !ctx.is_file(path) {
                return false;
            }
            if t == 'd' && !ctx.is_dir(path) {
                return false;
            }
        },
        None => {},
    }
    match &opts.name_pattern {
        Some(pattern) => {
            let name = last_part(shown);
            if !matches_glob(name.as_str(), pattern.as_str()) {
                return false;
            }
        },
        None => {},
    }
    true
}

/// Walks over a path and all that is under it. `skip` levels are left before the
/// tests apply; `below` levels can still be entered.
fn find_recursive(
    ctx: &CmdContext,
    path: &str,
    shown: &str,
    opts: &FindOptions,
    Ghost(depth): Ghost<nat>,
    skip: usize,
    below: Option<usize>,
    texts: &mut Vec<(Channel, String)>,
)
    requires
        ctx.fs.well_named(),
        is_normal(path@),
        skip == if opts.min_depth > depth {
            opts.min_depth - depth
        } else {
            0
        },
        match (opts.max_depth, below) {
            (Some(m), Some(b)) => b + depth == m,
            (None, None) => true,
            _ => false,
        },
    ensures
        written(final(texts)@) == written(old(texts)@) + opts.query().walk(
            *ctx,
            path@,
            shown@,
            depth,
        ),
    decreases room(*ctx, path@), 1int, 0int,
{
    let ghost q = opts.query();
    let ghost whole = q.walk(*ctx, path@, shown@, depth);
    let ghost start = written(texts@);
    let ghost own = q.own(*ctx, path@, shown@, depth);
    proof {
        law_normal_is_stable(path@);
        lemma_starts_at_root(path@);
        assert(ctx.absolute(path@) == path@);
    }
    if skip == 0 && matches_criteria(ctx, path, shown, opts) {
        let mut line = shown.to_owned();
        line.append("\n");
        write_text(texts, Channel::Stdout, line);
    }
    proof {
        assert(written(texts@) =~= start + own);
    }
    if ctx.is_dir(path) {
        let deeper = match below {
            Some(b) => {
                if b == 0 {
                    return;
                }
                Some(b - 1)
            },
            None => None,
        };
        match ctx.list_dir(path) {
            Ok(entries) => {
                proof {
                    lemma_longest(ctx.fs.nodes@, path@, 0);
                    lemma_node_names(ctx.fs, path@, 0);
                }
                find_entries(
                    ctx,
                    path,
                    shown,
                    opts,
                    Ghost(depth),
                    if skip > 0 {
                        skip - 1
                    } else {
                        0
                    },
                    deeper,
                    entries,
                    texts,
                );
                proof {
                    let below = q.walk_from(*ctx, path@, shown@, entries@, 0, depth);
                    assert(start + own + below =~= start + (own + below));
                }
            },
            Err(e) => {
                let mut line = "find: '".to_owned();
                line.append(shown);
                line.append("': ");
                let m = e.message();
                line.append(m.as_str());
                line.append("\n");
                write_text(texts, Channel::Stderr, line);
                proof {
                    assert(written(texts@) =~= start + whole);
                }
            },
        }
    }
}

fn find_entries(
    ctx: &CmdContext,
    path: &str,
    shown: &str,
    opts: &FindOptions,
    Ghost(depth): Ghost<nat>,
    skip: usize,
    below: Option<usize>,
    entries: &Vec<DirEntry>,
    texts: &mut Vec<(Channel, String)>,
)
    requires
        ctx.fs.well_named(),
        is_normal(path@),
        path@.len() <= longest(ctx.fs.nodes@),
        crate::fs::entries_name(entries@),
        skip == if opts.min_depth > depth + 1 {
            opts.min_depth - depth - 1
        } else {
            0
        },
        match (opts.max_depth, below) {
            (Some(m), Some(b)) => b + depth + 1 == m,
            (None, None) => true,
            _ => false,
        },
    ensures
        written(final(texts)@) == written(old(texts)@) + opts.query().walk_from(
            *ctx,
            path@,
            shown@,
            entries@,
            0,
            depth,
        ),
    decreases room(*ctx, path@), 0int, 0int,
{
    let ghost q = opts.query();
    let ghost whole = q.walk_from(*ctx, path@, shown@, entries@, 0, depth);
    let ghost start = written(texts@);
    let mut i: usize = 0;
    while i < entries.len()
        invariant
            ctx.fs.well_named(),
            is_normal(path@),
            path@.len() <= longest(ctx.fs.nodes@),
            crate::fs::entries_name(entries@),
            skip == if opts.min_depth > depth + 1 {
                opts.min_depth - depth - 1
            } else {
                0
            },
            match (opts.max_depth, below) {
                (Some(m), Some(b)) => b + depth + 1 == m,
                (None, None) => true,
                _ => false,
            },
            q == opts.query(),
            i <= entries@.len(),
            written(texts@) + q.walk_from(*ctx, path@, shown@, entries@, i as int, depth) == start
                + whole,
        decreases entries@.len() - i,
    {
        let ghost name = entries@[i as int].name@;
        proof {
            assert(names(name));
            lemma_child_is_normal(path@, name);
            assert(room(*ctx, child(path@, name)) < room(*ctx, path@));
        }
        let ghost before = written(texts@);
        let child_abs = child_path(path, entries[i].name.as_str());
        let child_display = child_path(shown, entries[i].name.as_str());
        find_recursive(
            ctx,
            child_abs.as_str(),
            child_display.as_str(),
            opts,
            Ghost(depth + 1),
            skip,
            below,
            texts,
        );
        proof {
            let first = q.walk(*ctx, child(path@, name), child(shown@, name), depth + 1);
            let rest = q.walk_from(*ctx, path@, shown@, entries@, i + 1, depth);
            assert(before + first + rest =~= before + (first + rest));
        }
        i += 1;
    }
    proof {
        assert(written(texts@) =~= start + whole);
    }
}

proof fn lemma_starts_at_root(path: Seq<char>)
    requires
        is_normal(path),
    ensures
        path.len() > 0 && path[0] == '/',
{
}

// ---------------------------------------------------------------------------
// Arguments
// ---------------------------------------------------------------------------

pub open spec fn is_one_of(s: Seq<char>, short: Seq<char>, long: Seq<char>) -> bool {
    s == short || s == long
}

/// Whether an option has its value in the argument behind it.
pub open spec fn takes_value(a: Seq<char>) -> bool {
    is_one_of(a, "-name"@, "--name"@) || is_one_of(a, "-type"@, "--type"@) || is_one_of(
        a,
        "-maxdepth"@,
        "--maxdepth"@,
    ) || is_one_of(a, "-mindepth"@, "--mindepth"@)
}

/// What an option makes of a query with its value. A depth that is no number is no
/// limit.
pub open spec fn with_value(a: Seq<char>, value: Seq<char>, q: Query) -> Query {
    if is_one_of(a, "-name"@, "--name"@) {
        Query { name: Some(value), ..q }
    } else if is_one_of(a, "-type"@, "--type"@) {
        Query {
            kind: if value.len() > 0 {
                Some(value[0])
            } else {
                None
            },
            ..q
        }
    } else if is_one_of(a, "-maxdepth"@, "--maxdepth"@) {
        Query { max: read_usize(value), ..q }
    } else {
        Query {
            min: match read_usize(value) {
                Some(n) => n,
                None => 0,
            },
            ..q
        }
    }
}

/// What the arguments from `i` on make of a query and a row of paths: nothing where
/// they ask for help.
pub open spec fn read_args(
    args: Seq<Seq<char>>,
    i: int,
    q: Query,
    paths: Seq<Seq<char>>,
) -> Option<(Query, Seq<Seq<char>>)>
    decreases args.len() - i,
{
    if i < 0 || i >= args.len() {
        Some((q, paths))
    } else {
        let a = args[i];
        if a == "-h"@ || a == "--help"@ || a == "-help"@ {
            None
        } else if takes_value(a) {
            if i + 1 < args.len() {
                read_args(args, i + 2, with_value(a, args[i + 1], q), paths)
            } else {
                Some((q, paths))
            }
        } else if is_one_of(a, "-print"@, "--print"@) {
            read_args(args, i + 1, Query { print: true, ..q }, paths)
        } else if a.len() > 0 && a[0] == '-' {
            read_args(args, i + 1, q, paths)
        } else {
            read_args(args, i + 1, q, paths.push(a))
        }
    }
}

/// Reads the arguments behind the command name.
pub fn parse_args(argv: &Vec<String>) -> (r: Option<(FindOptions, Strings)>)
    ensures
        match (r, read_args(strs(argv@), 1, all(), Seq::empty())) {
            (None, None) => true,
            (Some((o, paths)), Some((q, ps))) => o.query() == q && strings_of(paths) == ps,
            _ => false,
        },
{
    let ghost args = strs(argv@);
    let mut o = FindOptions::new();
    let mut paths = Strings::new();
    let mut i: usize = 1;
    while i < argv.len()
        invariant
            args == strs(argv@),
            read_args(args, i as int, o.query(), strings_of(paths)) == read_args(
                args,
                1,
                all(),
                Seq::empty(),
            ),
        decreases argv@.len() - i,
    {
        proof {
            assert(args[i as int] == argv@[i as int]@);
        }
        let arg = argv[i].as_str();
        if str_eq(arg, "-h") || str_eq(arg, "--help") || str_eq(arg, "-help") {
            return None;
        }
        let named = str_eq(arg, "-name") || str_eq(arg, "--name");
        let typed = str_eq(arg, "-type") || str_eq(arg, "--type");
        let max = str_eq(arg, "-maxdepth") || str_eq(arg, "--maxdepth");
        let min = str_eq(arg, "-mindepth") || str_eq(arg, "--mindepth");
        if named || typed || max || min {
            i += 1;
            if i < argv.len() {
                proof {
                    assert(args[i as int] == argv@[i as int]@);
                }
                let cs = to_chars(argv[i].as_str());
                if named {
                    o.name_pattern = Some(argv[i].clone());
                } else if typed {
                    o.file_type = if cs.len() > 0 {
                        Some(cs[0])
                    } else {
                        None
                    };
                } else if max {
                    o.max_depth = parse_usize(&cs);
                } else {
                    o.min_depth = match parse_usize(&cs) {
                        Some(n) => n,
                        None => 0,
                    };
                }
            } else {
                return Some((o, paths));
            }
        } else if str_eq(arg, "-print") || str_eq(arg, "--print") {
            o.print_explicit = true;
        } else {
            let cs = to_chars(arg);
            if !(cs.len() > 0 && cs[0] == '-') {
                paths.push(arg.to_owned());
            }
        }
        i += 1;
    }
    Some((o, paths))
}

/// The paths to start from: the current directory where none is given.
pub open spec fn starts(paths: Seq<Seq<char>>) -> Seq<Seq<char>> {
    if paths.len() == 0 {
        seq!["."@]
    } else {
        paths
    }
}

/// find [PATH...] [EXPRESSION]
pub fn run(ctx: &CmdContext) -> (r: Report)
    requires
        ctx.fs.well_named(),
    ensures
        r.code == 0,
        written(r.texts@) == match read_args(strs(ctx.argv@), 1, all(), Seq::empty()) {
            None => seq![(Channel::Stdout, HELP@)],
            Some((q, paths)) => q.walk_all(*ctx, starts(paths), 0),
        },
{
    let (opts, mut paths) = match parse_args(&ctx.argv) {
        None => {
            let mut texts: Vec<(Channel, String)> = Vec::new();
            write_text(&mut texts, Channel::Stdout, HELP.to_owned());
            proof {
                assert(written(texts@) =~= seq![(Channel::Stdout, HELP@)]);
            }
            return Report { texts, code: 0 };
        },
        Some(x) => x,
    };
    let ghost given = strings_of(paths);
    if paths.len() == 0 {
        paths.push(".".to_owned());
        proof {
            assert(strings_of(paths) =~= seq!["."@]);
        }
    }
    let ghost all_paths = strings_of(paths);
    let ghost q = opts.query();
    let ghost whole = q.walk_all(*ctx, all_paths, 0);
    let mut texts: Vec<(Channel, String)> = Vec::new();
    let n = paths.len();
    let mut i: usize = 0;
    proof {
        assert(written(texts@) + whole =~= whole);
    }
    while i < n
        invariant
            ctx.fs.well_named(),
            n == all_paths.len(),
            all_paths == strings_of(paths),
            i <= n,
            q == opts.query(),
            written(texts@) + q.walk_all(*ctx, all_paths, i as int) == whole,
        decreases n - i,
    {
        let ghost before = written(texts@);
        let ghost rest = q.walk_all(*ctx, all_paths, i + 1);
        let arg = paths.at(i);
        let start = ctx.resolve_path(arg);
        if ctx.path_exists(start.as_str()) {
            proof {
                lemma_absolute_is_normal(*ctx, arg@);
            }
            find_recursive(
                ctx,
                start.as_str(),
                arg,
                &opts,
                Ghost(0),
                opts.min_depth,
                opts.max_depth,
                &mut texts,
            );
            proof {
                let first = q.walk(*ctx, start@, arg@, 0);
                assert(before + first + rest =~= before + (first + rest));
            }
        } else {
            let mut line = "find: '".to_owned();
            line.append(arg);
            line.append("': No such file or directory\n");
            write_text(&mut texts, Channel::Stderr, line);
            proof {
                let first = seq![(Channel::Stderr, line@)];
                assert(written(texts@) + rest =~= before + (first + rest));
            }
        }
        i += 1;
    }
    proof {
        assert(written(texts@) =~= whole);
    }
    Report { texts, code: 0 }
}

proof fn lemma_absolute_is_normal(ctx: CmdContext, path: Seq<char>)
    ensures
        is_normal(ctx.absolute(path)),
{
    let cwd = ctx.cwd@;
    if path.len() > 0 && path[0] == '/' {
        law_normal_form(path);
    } else if cwd.len() > 0 && cwd.last() == '/' {
        law_normal_form(cwd + path);
    } else {
        law_normal_form(cwd + seq!['/'] + path);
    }
}

/// With a greatest depth of zero, find writes at most the path that it starts from.
pub proof fn law_depth_zero(q: Query, ctx: CmdContext, path: Seq<char>, shown: Seq<char>)
    requires
        q.max == Some(0nat),
    ensures
        q.walk(ctx, path, shown, 0) == q.own(ctx, path, shown, 0),
{
}

/// The lines of some places: of each, its path, how it is shown, and how deep it is.
pub open spec fn lines_of(places: Seq<(Seq<char>, Seq<char>, nat)>) -> Seq<char>
    decreases places.len(),
{
    if places.len() == 0 {
        Seq::empty()
    } else {
        lines_of(places.drop_last()) + (places.last().1 + "\n"@)
    }
}

impl Query {
    /// Whether a place passes all tests: its type, its name and its depth.
    pub open spec fn passes(self, ctx: CmdContext, place: (Seq<char>, Seq<char>, nat)) -> bool {
        &&& self.accepts(ctx, place.0, place.1)
        &&& self.min <= place.2
        &&& self.max matches Some(m) ==> place.2 <= m
    }

    /// Whether all of some places pass.
    pub open spec fn all_pass(
        self,
        ctx: CmdContext,
        places: Seq<(Seq<char>, Seq<char>, nat)>,
    ) -> bool {
        forall|i: int| 0 <= i < places.len() ==> self.passes(ctx, #[trigger] places[i])
    }
}

proof fn lemma_lines_of(
    a: Seq<(Seq<char>, Seq<char>, nat)>,
    b: Seq<(Seq<char>, Seq<char>, nat)>,
)
    ensures
        lines_of(a + b) == lines_of(a) + lines_of(b),
    decreases b.len(),
{
    if b.len() == 0 {
        assert(a + b =~= a);
        assert(lines_of(a) + lines_of(b) =~= lines_of(a));
    } else {
        assert((a + b).drop_last() =~= a + b.drop_last());
        lemma_lines_of(a, b.drop_last());
        assert(lines_of(a + b) =~= lines_of(a) + lines_of(b));
    }
}

proof fn lemma_walk_places(q: Query, ctx: CmdContext, path: Seq<char>, shown: Seq<char>, depth: nat) -> (
    places: Seq<(Seq<char>, Seq<char>, nat)>)
    requires
        q.max matches Some(m) ==> depth <= m,
    ensures
        text_to(q.walk(ctx, path, shown, depth), Channel::Stdout) == lines_of(places),
        q.all_pass(ctx, places),
    decreases room(ctx, path), 1int, 0int,
{
    let own: Seq<(Seq<char>, Seq<char>, nat)> = if depth >= q.min && q.accepts(ctx, path, shown) {
        seq![(path, shown, depth)]
    } else {
        Seq::empty()
    };
    let texts = q.own(ctx, path, shown, depth);
    assert(lines_of(own) =~= text_to(texts, Channel::Stdout)) by {
        reveal_with_fuel(lines_of, 2);
        reveal_with_fuel(text_to, 2);
        if texts.len() > 0 {
            assert(texts.drop_last() =~= Seq::empty());
            assert(own.drop_last() =~= Seq::empty());
        }
    }
    if q.max matches Some(m) && depth >= m {
        own
    } else {
        match ctx.fs.node(path) {
            Some(Node::Dir(entries)) => {
                let under = lemma_walk_entries(q, ctx, path, shown, entries@, 0, depth);
                lemma_lines_of(own, under);
                let below = q.walk_from(ctx, path, shown, entries@, 0, depth);
                lemma_text_to(texts, below, Channel::Stdout);
                own + under
            },
            Some(Node::Closed(_, m)) => {
                let line = (Channel::Stderr, "find: '"@ + shown + "': "@ + m@ + "\n"@);
                assert(texts.push(line).drop_last() =~= texts);
                own
            },
            _ => own,
        }
    }
}

proof fn lemma_walk_entries(
    q: Query,
    ctx: CmdContext,
    path: Seq<char>,
    shown: Seq<char>,
    entries: Seq<DirEntry>,
    i: int,
    depth: nat,
) -> (places: Seq<(Seq<char>, Seq<char>, nat)>)
    requires
        q.max matches Some(m) ==> depth < m,
    ensures
        text_to(q.walk_from(ctx, path, shown, entries, i, depth), Channel::Stdout) == lines_of(places),
        q.all_pass(ctx, places),
    decreases room(ctx, path), 0int, entries.len() - i,
{
    if i < 0 || i >= entries.len() {
        Seq::empty()
    } else {
        let name = entries[i].name@;
        let first = if room(ctx, child(path, name)) < room(ctx, path) {
            lemma_walk_places(q, ctx, child(path, name), child(shown, name), depth + 1)
        } else {
            Seq::empty()
        };
        let rest = lemma_walk_entries(q, ctx, path, shown, entries, i + 1, depth);
        lemma_lines_of(first, rest);
        let texts = if room(ctx, child(path, name)) < room(ctx, path) {
            q.walk(ctx, child(path, name), child(shown, name), depth + 1)
        } else {
            Seq::empty()
        };
        let others = q.walk_from(ctx, path, shown, entries, i + 1, depth);
        lemma_text_to(texts, others, Channel::Stdout);
        first + rest
    }
}

/// What find writes of a path to stdout are the lines of places that pass its tests: of the type,
/// with a name that fits, and neither too deep nor too shallow.
pub proof fn law_only_what_passes(q: Query, ctx: CmdContext, path: Seq<char>, shown: Seq<char>)
    ensures
        exists|places: Seq<(Seq<char>, Seq<char>, nat)>| #[trigger]
            q.all_pass(ctx, places) && text_to(q.walk(ctx, path, shown, 0), Channel::Stdout)
                == lines_of(places),
{
    let places = lemma_walk_places(q, ctx, path, shown, 0);
    assert(q.all_pass(ctx, places));
}

proof fn lemma_fits_skip(name: Seq<char>, i: int, pattern: Seq<char>, j: int)
    requires
        0 <= i <= name.len(),
        0 <= j <= pattern.len(),
    ensures
        fits_at(name, i, pattern, j) == fits(name.skip(i), pattern.skip(j)),
{
    lemma_fits_shift(name, i, pattern, j, 0, 0);
}

proof fn lemma_fits_shift(name: Seq<char>, a: int, pattern: Seq<char>, b: int, i: int, j: int)
    requires
        0 <= a && 0 <= b && 0 <= i && 0 <= j,
        a + i <= name.len(),
        b + j <= pattern.len(),
    ensures
        fits_at(name, a + i, pattern, b + j) == fits_at(name.skip(a), i, pattern.skip(b), j),
    decreases pattern.len() - b - j, name.len() - a - i,
{
    let n = name.skip(a);
    let p = pattern.skip(b);
    if b + j < pattern.len() {
        assert(p[j] == pattern[b + j]);
        if pattern[b + j] == '*' {
            lemma_fits_shift(name, a, pattern, b, i, j + 1);
            if a + i < name.len() {
                lemma_fits_shift(name, a, pattern, b, i + 1, j);
            }
        } else if a + i < name.len() {
            assert(n[i] == name[a + i]);
            lemma_fits_shift(name, a, pattern, b, i + 1, j + 1);
        }
    }
}

/// A question mark stands for one character and any other character for itself, and what is
/// left of the name has to fit the rest of the pattern.
pub proof fn law_one_character_of_a_pattern(c: char, name: Seq<char>, rest: Seq<char>)
    requires
        c != '*',
    ensures
        fits(Seq::empty(), Seq::empty()),
        name.len() > 0 ==> !fits(name, Seq::empty()),
        !fits(Seq::empty(), seq![c] + rest),
        name.len() > 0 ==> fits(name, seq![c] + rest) == ((c == '?' || c == name[0]) && fits(
            name.skip(1),
            rest,
        )),
{
    let p = seq![c] + rest;
    assert(p[0] == c);
    if name.len() > 0 {
        lemma_fits_skip(name, 1, p, 1);
        assert(p.skip(1) =~= rest);
    }
}

/// A star stands for any number of characters.
pub proof fn law_star_takes_any_number(name: Seq<char>, rest: Seq<char>)
    ensures
        fits(name, seq!['*'] + rest) == (exists|k: int|
            0 <= k <= name.len() && fits(#[trigger] name.skip(k), rest)),
{
    let p = seq!['*'] + rest;
    lemma_star_from(name, p, rest, 0);
    if exists|k: int| 0 <= k <= name.len() && fits(#[trigger] name.skip(k), rest) {
        let k = choose|k: int| 0 <= k <= name.len() && fits(#[trigger] name.skip(k), rest);
        assert(0 <= k <= name.len() && fits(name.skip(k), rest));
    }
}

proof fn lemma_star_from(name: Seq<char>, p: Seq<char>, rest: Seq<char>, i: int)
    requires
        p == seq!['*'] + rest,
        0 <= i <= name.len(),
    ensures
        fits_at(name, i, p, 0) == (exists|k: int|
            i <= k <= name.len() && fits(#[trigger] name.skip(k), rest)),
    decreases name.len() - i,
{
    assert(p[0] == '*');
    assert(p.skip(1) =~= rest);
    lemma_fits_skip(name, i, p, 1);
    if i < name.len() {
        lemma_star_from(name, p, rest, i + 1);
        if fits_at(name, i + 1, p, 0) {
            let k = choose|k: int| i + 1 <= k <= name.len() && fits(#[trigger] name.skip(k), rest);
            assert(i <= k <= name.len() && fits(name.skip(k), rest));
        }
    }
    if fits_at(name, i, p, 1) {
        assert(i <= i <= name.len() && fits(name.skip(i), rest));
    }
    if exists|k: int| i <= k <= name.len() && fits(#[trigger] name.skip(k), rest) {
        let k = choose|k: int| i <= k <= name.len() && fits(#[trigger] name.skip(k), rest);
        if k > i {
            assert(i + 1 <= k <= name.len() && fits(name.skip(k), rest));
        }
    }
}

/// A path is printed where it is deep enough and passes the tests: its type, and its last
/// name.
pub proof fn law_what_is_printed(
    q: Query,
    ctx: CmdContext,
    path: Seq<char>,
    shown: Seq<char>,
    depth: nat,
)
    ensures
        depth < q.min ==> q.own(ctx, path, shown, depth).len() == 0,
        q.kind == Some('f') && !ctx.has_file(path) ==> q.own(ctx, path, shown, depth).len() == 0,
        q.kind == Some('d') && !ctx.has_dir(path) ==> q.own(ctx, path, shown, depth).len() == 0,
        (q.name matches Some(p) && !fits(basename(shown), p)) ==> q.own(
            ctx,
            path,
            shown,
            depth,
        ).len() == 0,
        depth >= q.min && (q.kind is None || (q.kind == Some('f') && ctx.has_file(path)) || (q.kind
            == Some('d') && ctx.has_dir(path))) && (q.name is None || fits(
            basename(shown),
            q.name->0,
        )) ==> q.own(ctx, path, shown, depth) == seq![(Channel::Stdout, shown + seq!['\n'])],
{
    reveal_strlit("\n");
    assert("\n"@ =~= seq!['\n']);
}

/// The walk goes no deeper than it was asked to, and says so where a directory cannot be
/// listed.
pub proof fn law_how_deep(q: Query, ctx: CmdContext, path: Seq<char>, shown: Seq<char>, depth: nat)
    ensures
        (q.max matches Some(m) && depth >= m) ==> q.walk(ctx, path, shown, depth) == q.own(
            ctx,
            path,
            shown,
            depth,
        ),
        (q.max is None || depth < q.max->0) && !(ctx.fs.node(path) matches Some(Node::Dir(_)))
            && !(ctx.fs.node(path) matches Some(Node::Closed(_, _))) ==> q.walk(
            ctx,
            path,
            shown,
            depth,
        ) == q.own(ctx, path, shown, depth),
        (q.max is None || depth < q.max->0) ==> (ctx.fs.node(path) matches Some(Node::Closed(_, m))
            ==> q.walk(ctx, path, shown, depth) == q.own(ctx, path, shown, depth).push(
            (Channel::Stderr, "find: '"@ + shown + "': "@ + m@ + "\n"@),
        )),
{
}

/// Everything below a directory is walked, one level deeper, in the order of its entries and
/// behind the directory itself.
pub proof fn law_entries_are_walked(
    q: Query,
    ctx: CmdContext,
    path: Seq<char>,
    shown: Seq<char>,
    depth: nat,
    entries: Vec<DirEntry>,
    k: int,
) -> (r: (Seq<(Channel, Seq<char>)>, Seq<(Channel, Seq<char>)>))
    requires
        q.max is None || depth < q.max->0,
        ctx.fs.node(path) == Some(Node::Dir(entries)),
        0 <= k < entries@.len(),
        room(ctx, child(path, entries@[k].name@)) < room(ctx, path),
    ensures
        q.walk(ctx, path, shown, depth) == q.own(ctx, path, shown, depth) + r.0 + q.walk(
            ctx,
            child(path, entries@[k].name@),
            child(shown, entries@[k].name@),
            depth + 1,
        ) + r.1,
        r.1 == q.walk_from(ctx, path, shown, entries@, k + 1, depth),
        k == 0 ==> r.0.len() == 0,
{
    let es = entries@;
    let front = lemma_walk_front(q, ctx, path, shown, es, 0, k, depth);
    let own = q.own(ctx, path, shown, depth);
    let one = q.walk(ctx, child(path, es[k].name@), child(shown, es[k].name@), depth + 1);
    let rest = q.walk_from(ctx, path, shown, es, k + 1, depth);
    assert(q.walk_from(ctx, path, shown, es, k, depth) == one + rest);
    assert(own + (front + (one + rest)) =~= own + front + one + rest);
    (front, rest)
}

proof fn lemma_walk_front(
    q: Query,
    ctx: CmdContext,
    path: Seq<char>,
    shown: Seq<char>,
    entries: Seq<DirEntry>,
    i: int,
    k: int,
    depth: nat,
) -> (front: Seq<(Channel, Seq<char>)>)
    requires
        0 <= i <= k < entries.len(),
    ensures
        q.walk_from(ctx, path, shown, entries, i, depth) == front + q.walk_from(
            ctx,
            path,
            shown,
            entries,
            k,
            depth,
        ),
        i == k ==> front.len() == 0,
    decreases k - i,
{
    if i == k {
        let none = Seq::<(Channel, Seq<char>)>::empty();
        let rest = q.walk_from(ctx, path, shown, entries, k, depth);
        assert(none + rest =~= rest);
        none
    } else {
        let name = entries[i].name@;
        let first = if room(ctx, child(path, name)) < room(ctx, path) {
            q.walk(ctx, child(path, name), child(shown, name), depth + 1)
        } else {
            Seq::empty()
        };
        let more = lemma_walk_front(q, ctx, path, shown, entries, i + 1, k, depth);
        let rest = q.walk_from(ctx, path, shown, entries, k, depth);
        assert(first + (more + rest) =~= (first + more) + rest);
        first + more
    }
}

/// The paths are walked one after the other, each that exists, and each other one is
/// complained about.
pub proof fn law_paths_are_walked_in_turn(
    q: Query,
    ctx: CmdContext,
    paths: Seq<Seq<char>>,
    i: int,
)
    requires
        0 <= i < paths.len(),
    ensures
        ctx.has(ctx.absolute(paths[i])) ==> q.walk_all(ctx, paths, i) == q.walk(
            ctx,
            ctx.absolute(paths[i]),
            paths[i],
            0,
        ) + q.walk_all(ctx, paths, i + 1),
        !ctx.has(ctx.absolute(paths[i])) ==> q.walk_all(ctx, paths, i) == seq![
            (Channel::Stderr, "find: '"@ + paths[i] + "': No such file or directory\n"@),
        ] + q.walk_all(ctx, paths, i + 1),
        q.walk_all(ctx, paths, paths.len() as int).len() == 0,
        starts(Seq::empty()) == seq![seq!['.']],
        starts(paths) == paths,
{
    reveal_strlit(".");
    assert("."@ =~= seq!['.']);
}

proof fn lemma_option_words()
    ensures
        "-name"@.len() == 5 && "--name"@.len() == 6 && "-type"@.len() == 5 && "--type"@.len() == 6,
        "-maxdepth"@.len() == 9 && "--maxdepth"@.len() == 10 && "-mindepth"@.len() == 9
            && "--mindepth"@.len() == 10,
        "-print"@.len() == 6 && "--print"@.len() == 7 && "-h"@.len() == 2 && "--help"@.len() == 6
            && "-help"@.len() == 5,
        "-name"@[1] == 'n' && "--name"@[2] == 'n' && "-type"@[1] == 't' && "--type"@[2] == 't',
        "-maxdepth"@[2] == 'a' && "--maxdepth"@[3] == 'a' && "-mindepth"@[2] == 'i'
            && "--mindepth"@[3] == 'i',
        "-print"@[1] == 'p' && "--print"@[2] == 'p' && "--help"@[2] == 'h' && "-help"@[1] == 'h',
        "--name"@[1] == '-' && "--type"@[1] == '-' && "--help"@[1] == '-',
        "-name"@[0] == '-' && "--name"@[0] == '-' && "-type"@[0] == '-' && "--type"@[0] == '-',
        "-maxdepth"@[0] == '-' && "--maxdepth"@[0] == '-' && "-mindepth"@[0] == '-'
            && "--mindepth"@[0] == '-',
        "-print"@[0] == '-' && "--print"@[0] == '-' && "-h"@[0] == '-' && "--help"@[0] == '-'
            && "-help"@[0] == '-',
{
    reveal_strlit("-name");
    reveal_strlit("--name");
    reveal_strlit("-type");
    reveal_strlit("--type");
    reveal_strlit("-maxdepth");
    reveal_strlit("--maxdepth");
    reveal_strlit("-mindepth");
    reveal_strlit("--mindepth");
    reveal_strlit("-print");
    reveal_strlit("--print");
    reveal_strlit("-h");
    reveal_strlit("--help");
    reveal_strlit("-help");
}

/// Each option sets its test to the value behind it and leaves the others; arguments that a
/// dash does not start are paths.
pub proof fn law_find_options(
    args: Seq<Seq<char>>,
    i: int,
    q: Query,
    paths: Seq<Seq<char>>,
    n: usize,
)
    requires
        0 <= i < args.len(),
    ensures
        (args[i] == "-name"@ || args[i] == "--name"@) && i + 1 < args.len() ==> read_args(
            args,
            i,
            q,
            paths,
        ) == read_args(args, i + 2, Query { name: Some(args[i + 1]), ..q }, paths),
        (args[i] == "-type"@ || args[i] == "--type"@) && i + 1 < args.len() && args[i + 1].len() > 0
            ==> read_args(args, i, q, paths) == read_args(
            args,
            i + 2,
            Query { kind: Some(args[i + 1][0]), ..q },
            paths,
        ),
        (args[i] == "-maxdepth"@ || args[i] == "--maxdepth"@) && i + 1 < args.len() && args[i + 1]
            == decimal(n as nat) ==> read_args(args, i, q, paths) == read_args(
            args,
            i + 2,
            Query { max: Some(n as nat), ..q },
            paths,
        ),
        (args[i] == "-mindepth"@ || args[i] == "--mindepth"@) && i + 1 < args.len() && args[i + 1]
            == decimal(n as nat) ==> read_args(args, i, q, paths) == read_args(
            args,
            i + 2,
            Query { min: n as nat, ..q },
            paths,
        ),
        (args[i] == "-print"@ || args[i] == "--print"@) ==> read_args(args, i, q, paths)
            == read_args(args, i + 1, Query { print: true, ..q }, paths),
        (args[i] == "-h"@ || args[i] == "--help"@) ==> read_args(args, i, q, paths) is None,
        args[i].len() == 0 || args[i][0] != '-' ==> read_args(args, i, q, paths) == read_args(
            args,
            i + 1,
            q,
            paths.push(args[i]),
        ),
        read_args(args, args.len() as int, q, paths) == Some((q, paths)),
        i + 1 == args.len() && (args[i] == "-name"@ || args[i] == "-type"@ || args[i]
            == "-maxdepth"@ || args[i] == "-mindepth"@) ==> read_args(args, i, q, paths) == Some(
            (q, paths),
        ),
        all() == (Query { name: None, kind: None, max: None, min: 0, print: false }),
{
    lemma_option_words();
    law_decimal_is_read(n as nat, 'x', Seq::empty());
}

} // verus!
