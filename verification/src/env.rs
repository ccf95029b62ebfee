//! Environment variables and their expansion in text.
use vstd::prelude::*;
use vstd::string::StringExecFns;
use crate::num::{signed_decimal, write_signed};
use crate::text::{
    char_is_alpha, char_is_digit, find_char, find_from, is_alnum, is_alpha, is_digit,
    lemma_find_behind, lemma_find_is, push_chars, str_eq, text_part, to_chars,
};

verus! {

/// Environment variables: a value for each name that is set.
pub struct Environment {
    vars: Vec<(String, String)>,
}

/// The assignment that a list of variables makes.
spec fn assignment(vars: Seq<(String, String)>) -> Map<Seq<char>, Seq<char>>
    decreases vars.len(),
{
    if vars.len() == 0 {
        Map::empty()
    } else {
        assignment(vars.drop_last()).insert(vars.last().0@, vars.last().1@)
    }
}

spec fn names_differ(vars: Seq<(String, String)>) -> bool {
    forall|i: int, j: int|
        0 <= i < j < vars.len() ==> (#[trigger] vars[i]).0@ != (#[trigger] vars[j]).0@
}

proof fn lemma_assignment(vars: Seq<(String, String)>)
    requires
        names_differ(vars),
    ensures
        forall|i: int|
            0 <= i < vars.len() ==> assignment(vars).contains_pair(
                (#[trigger] vars[i]).0@,
                vars[i].1@,
            ),
        forall|k: Seq<char>| #[trigger]
            assignment(vars).dom().contains(k) ==> exists|i: int|
                0 <= i < vars.len() && (#[trigger] vars[i]).0@ == k,
        assignment(vars).dom().finite(),
        assignment(vars).dom().len() == vars.len(),
    decreases vars.len(),
{
    if vars.len() > 0 {
        let front = vars.drop_last();
        assert forall|i: int, j: int| 0 <= i < j < front.len() implies (#[trigger] front[i]).0@
            != (#[trigger] front[j]).0@ by {
            assert(vars[i] == front[i] && vars[j] == front[j]);
        }
        lemma_assignment(front);
        let last = vars.last();
        assert(!assignment(front).dom().contains(last.0@)) by {
            if assignment(front).dom().contains(last.0@) {
                let i = choose|i: int| 0 <= i < front.len() && (#[trigger] front[i]).0@ == last.0@;
                assert(vars[i] == front[i]);
                assert(vars[vars.len() - 1] == last);
            }
        }
        assert(assignment(vars).dom() =~= assignment(front).dom().insert(last.0@));
        assert forall|i: int| 0 <= i < vars.len() implies assignment(vars).contains_pair(
            (#[trigger] vars[i]).0@,
            vars[i].1@,
        ) by {
            if i < front.len() {
                assert(front[i] == vars[i]);
            }
        }
        assert forall|k: Seq<char>| #[trigger]
            assignment(vars).dom().contains(k) implies exists|i: int|
            0 <= i < vars.len() && (#[trigger] vars[i]).0@ == k by {
            if k == last.0@ {
                assert(vars[vars.len() - 1].0@ == k);
            } else {
                let i = choose|i: int| 0 <= i < front.len() && (#[trigger] front[i]).0@ == k;
                assert(vars[i].0@ == k);
            }
        }
    }
}

impl View for Environment {
    type V = Map<Seq<char>, Seq<char>>;

    closed spec fn view(&self) -> Map<Seq<char>, Seq<char>> {
        assignment(self.vars@)
    }
}

/// The value of a variable; nothing where it is not set.
pub open spec fn lookup(vars: Map<Seq<char>, Seq<char>>, name: Seq<char>) -> Seq<char> {
    lookup_or(vars, name, Seq::empty())
}

/// The value of a variable, or another text where it is not set.
pub open spec fn lookup_or(
    vars: Map<Seq<char>, Seq<char>>,
    name: Seq<char>,
    other: Seq<char>,
) -> Seq<char> {
    if vars.dom().contains(name) {
        vars[name]
    } else {
        other
    }
}

/// A character that a variable's name may hold.
pub open spec fn is_name_char(c: char) -> bool {
    is_alnum(c) || c == '_'
}

/// Where the name that starts at `from` ends.
pub open spec fn name_end(s: Seq<char>, from: int) -> int
    decreases s.len() - from,
{
    if 0 <= from < s.len() && is_name_char(s[from]) {
        name_end(s, from + 1)
    } else {
        from
    }
}

/// What the text at position `i` expands to, and where the text behind it starts.
pub open spec fn expansion_at(
    vars: Map<Seq<char>, Seq<char>>,
    s: Seq<char>,
    last_exit: int,
    i: int,
) -> (Seq<char>, int) {
    if s[i] != '$' || i + 1 >= s.len() {
        (seq![s[i]], i + 1)
    } else {
        let c = s[i + 1];
        if c == '{' {
            let j = find_from(s, '}', i + 2);
            (lookup(vars, s.subrange(i + 2, j)), if j < s.len() {
                j + 1
            } else {
                j
            })
        } else if c == '?' {
            (signed_decimal(last_exit), i + 2)
        } else if c == '$' {
            (seq!['1'], i + 2)
        } else if c == '!' {
            (lookup(vars, seq!['!']), i + 2)
        } else if c == '0' {
            (lookup_or(vars, seq!['0'], seq!['s', 'h']), i + 2)
        } else if c == '#' {
            (lookup_or(vars, seq!['#'], seq!['0']), i + 2)
        } else if c == '@' || c == '*' {
            (lookup(vars, seq!['@']), i + 2)
        } else if is_digit(c) {
            (lookup(vars, seq![c]), i + 2)
        } else if is_alpha(c) || c == '_' {
            let j = name_end(s, i + 1);
            (lookup(vars, s.subrange(i + 1, j)), j)
        } else {
            (seq!['$'], i + 1)
        }
    }
}

/// The expansion of a text from position `i` on.
pub open spec fn expand_from(
    vars: Map<Seq<char>, Seq<char>>,
    s: Seq<char>,
    last_exit: int,
    i: int,
) -> Seq<char>
    decreases s.len() - i,
{
    if i < 0 || i >= s.len() {
        Seq::empty()
    } else {
        let (text, next) = expansion_at(vars, s, last_exit, i);
        if i < next <= s.len() {
            text + expand_from(vars, s, last_exit, next)
        } else {
            text
        }
    }
}

proof fn lemma_name_end(s: Seq<char>, from: int)
    requires
        0 <= from <= s.len(),
    ensures
        from <= name_end(s, from) <= s.len(),
        forall|k: int| from <= k < name_end(s, from) ==> is_name_char(#[trigger] s[k]),
    decreases s.len() - from,
{
    if from < s.len() && is_name_char(s[from]) {
        lemma_name_end(s, from + 1);
    }
}

impl Environment {
    #[verifier::type_invariant]
    spec fn distinct(self) -> bool {
        names_differ(self.vars@)
    }

    /// An environment in which nothing is set.
    pub fn new() -> (r: Self)
        ensures
            r@ == Map::<Seq<char>, Seq<char>>::empty(),
    {
        Environment { vars: Vec::new() }
    }

    /// An environment with the standard variables.
    pub fn with_defaults() -> (r: Self)
        ensures
            r@ == map![
                "PATH"@ => "/bin:/usr/bin"@,
                "HOME"@ => "/home"@,
                "SHELL"@ => "/bin/sh"@,
                "PWD"@ => "/"@,
            ],
    {
        let mut env = Self::new();
        env.set("PATH", "/bin:/usr/bin");
        env.set("HOME", "/home");
        env.set("SHELL", "/bin/sh");
        env.set("PWD", "/");
        env
    }

    fn position(&self, name: &str) -> (r: Option<usize>)
        ensures
            match r {
                Some(i) => i < self.vars@.len() && self.vars@[i as int].0@ == name@,
                None => forall|i: int|
                    0 <= i < self.vars@.len() ==> (#[trigger] self.vars@[i]).0@ != name@,
            },
    {
        let mut i: usize = 0;
        while i < self.vars.len()
            invariant
                i <= self.vars@.len(),
                forall|k: int| 0 <= k < i ==> (#[trigger] self.vars@[k]).0@ != name@,
            decreases self.vars@.len() - i,
        {
            if str_eq(self.vars[i].0.as_str(), name) {
                return Some(i);
            }
            i += 1;
        }
        None
    }

    /// The value of a variable, where it is set.
    pub fn get(&self, name: &str) -> (r: Option<&str>)
        ensures
            match r {
                Some(v) => self@.dom().contains(name@) && v@ == self@[name@],
                None => !self@.dom().contains(name@),
            },
    {
        proof {
            use_type_invariant(self);
            lemma_assignment(self.vars@);
        }
        match self.position(name) {
            Some(i) => Some(self.vars[i].1.as_str()),
            None => None,
        }
    }

    /// Sets a variable.
    pub fn set(&mut self, name: &str, value: &str)
        ensures
            final(self)@ == old(self)@.insert(name@, value@),
    {
        proof {
            use_type_invariant(&*self);
            lemma_assignment(self.vars@);
        }
        let at = self.position(name);
        let mut vars: Vec<(String, String)> = Vec::new();
        std::mem::swap(&mut vars, &mut self.vars);
        let ghost before = vars@;
        match at {
            Some(i) => {
                let pair = (name.to_owned(), value.to_owned());
                vars.set(i, pair);
                proof {
                    assert(vars@ == before.update(i as int, pair));
                    assert(names_differ(vars@));
                    lemma_assignment(vars@);
                    let new = assignment(vars@);
                    let want = assignment(before).insert(name@, value@);
                    assert(new.contains_pair(vars@[i as int].0@, vars@[i as int].1@));
                    assert forall|k: Seq<char>| #[trigger] new.dom().contains(k)
                        == #[trigger] want.dom().contains(k)
                            && (new.dom().contains(k) ==> new[k] == want[k]) by {
                        if new.dom().contains(k) {
                            let m = choose|m: int|
                                0 <= m < vars@.len() && (#[trigger] vars@[m]).0@ == k;
                            if m != i {
                                assert(vars@[m] == before[m]);
                                assert(before[m].0@ != before[i as int].0@);
                            }
                        }
                        if want.dom().contains(k) && k != name@ {
                            let m = choose|m: int|
                                0 <= m < before.len() && (#[trigger] before[m]).0@ == k;
                            assert(vars@[m] == before[m]);
                        }
                    }
                    assert(new.dom() =~= want.dom());
                    assert(new =~= want);
                }
            },
            None => {
                vars.push((name.to_owned(), value.to_owned()));
                proof {
                    assert(vars@.drop_last() =~= before);
                    assert forall|i: int, j: int| 0 <= i < j < vars@.len() implies (
                    #[trigger] vars@[i]).0@ != (#[trigger] vars@[j]).0@ by {
                        assert(vars@[i] == before[i]);
                        if j < before.len() {
                            assert(vars@[j] == before[j]);
                        }
                    }
                }
            },
        }
        self.vars = vars;
    }

    /// Unsets a variable.
    pub fn unset(&mut self, name: &str)
        ensures
            final(self)@ == old(self)@.remove(name@),
    {
        proof {
            use_type_invariant(&*self);
            lemma_assignment(self.vars@);
        }
        let at = self.position(name);
        let mut vars: Vec<(String, String)> = Vec::new();
        std::mem::swap(&mut vars, &mut self.vars);
        let ghost before = vars@;
        match at {
            Some(i) => {
                vars.remove(i);
                proof {
                    assert(vars@ =~= before.remove(i as int));
                    assert forall|a: int, b: int| 0 <= a < b < vars@.len() implies (
                    #[trigger] vars@[a]).0@ != (#[trigger] vars@[b]).0@ by {
                        let a2 = if a < i { a } else { a + 1 };
                        let b2 = if b < i { b } else { b + 1 };
                        assert(vars@[a] == before[a2] && vars@[b] == before[b2]);
                    }
                    lemma_assignment(vars@);
                    let new = assignment(vars@);
                    let want = assignment(before).remove(name@);
                    assert forall|k: Seq<char>| #[trigger] new.dom().contains(k)
                        == #[trigger] want.dom().contains(k)
                            && (new.dom().contains(k) ==> new[k] == want[k]) by {
                        if new.dom().contains(k) {
                            let m = choose|m: int|
                                0 <= m < vars@.len() && (#[trigger] vars@[m]).0@ == k;
                            let m2 = if m < i { m } else { m + 1 };
                            assert(vars@[m] == before[m2]);
                            assert(before[m2].0@ != before[i as int].0@);
                        }
                        if want.dom().contains(k) {
                            let m = choose|m: int|
                                0 <= m < before.len() && (#[trigger] before[m]).0@ == k;
                            let m2 = if m < i { m } else { m - 1 };
                            assert(vars@[m2] == before[m]);
                        }
                    }
                    assert(new.dom() =~= want.dom());
                    assert(new =~= want);
                }
            },
            None => {
                proof {
                    assert(!assignment(before).dom().contains(name@));
                    assert(assignment(before) =~= assignment(before).remove(name@));
                }
            },
        }
        self.vars = vars;
    }

    /// Tests whether a variable is set.
    pub fn contains(&self, name: &str) -> (r: bool)
        ensures
            r == self@.dom().contains(name@),
    {
        self.get(name).is_some()
    }

    /// All variables with their values, each once.
    pub fn iter(&self) -> (r: Vec<(&str, &str)>)
        ensures
            r@.len() == self@.dom().len(),
            self@.dom().finite(),
            forall|i: int|
                0 <= i < r@.len() ==> self@.contains_pair((#[trigger] r@[i]).0@, r@[i].1@),
            forall|i: int, j: int|
                0 <= i < j < r@.len() ==> (#[trigger] r@[i]).0@ != (#[trigger] r@[j]).0@,
            forall|k: Seq<char>| #[trigger]
                self@.dom().contains(k) ==> exists|i: int|
                    0 <= i < r@.len() && (#[trigger] r@[i]).0@ == k,
    {
        proof {
            use_type_invariant(self);
            lemma_assignment(self.vars@);
        }
        let mut out: Vec<(&str, &str)> = Vec::new();
        let mut i: usize = 0;
        while i < self.vars.len()
            invariant
                i <= self.vars@.len(),
                out@.len() == i,
                forall|k: int|
                    0 <= k < i ==> (#[trigger] out@[k]).0@ == self.vars@[k].0@ && out@[k].1@
                        == self.vars@[k].1@,
            decreases self.vars@.len() - i,
        {
            let v = &self.vars[i];
            out.push((v.0.as_str(), v.1.as_str()));
            i += 1;
        }
        proof {
            assert forall|a: int, b: int| 0 <= a < b < out@.len() implies (#[trigger] out@[a]).0@
                != (#[trigger] out@[b]).0@ by {
                assert(self.vars@[a].0@ != self.vars@[b].0@);
            }
            assert forall|k: int| 0 <= k < out@.len() implies self@.contains_pair(
                (#[trigger] out@[k]).0@,
                out@[k].1@,
            ) by {
                assert(assignment(self.vars@).contains_pair(self.vars@[k].0@, self.vars@[k].1@));
            }
            assert forall|n: Seq<char>| #[trigger] self@.dom().contains(n) implies exists|i: int|
                0 <= i < out@.len() && (#[trigger] out@[i]).0@ == n by {
                let m = choose|m: int|
                    0 <= m < self.vars@.len() && (#[trigger] self.vars@[m]).0@ == n;
                assert(out@[m].0@ == n);
            }
        }
        out
    }

    /// How many variables are set.
    pub fn len(&self) -> (r: usize)
        ensures
            r == self@.dom().len(),
            self@.dom().finite(),
    {
        proof {
            use_type_invariant(self);
            lemma_assignment(self.vars@);
        }
        self.vars.len()
    }

    /// Tests whether no variable is set.
    pub fn is_empty(&self) -> (r: bool)
        ensures
            r == (self@ == Map::<Seq<char>, Seq<char>>::empty()),
    {
        proof {
            use_type_invariant(self);
            lemma_assignment(self.vars@);
        }
        let r = self.vars.len() == 0;
        proof {
            if self.vars@.len() > 0 {
                assert(self@.contains_pair(self.vars@[0].0@, self.vars@[0].1@));
            }
        }
        r
    }

    /// A second environment with the same variables.
    pub fn duplicate(&self) -> (r: Self)
        ensures
            r@ == self@,
    {
        proof {
            use_type_invariant(self);
        }
        let mut vars: Vec<(String, String)> = Vec::new();
        let mut i: usize = 0;
        while i < self.vars.len()
            invariant
                i <= self.vars@.len(),
                vars@ =~= self.vars@.take(i as int),
            decreases self.vars@.len() - i,
        {
            let v = &self.vars[i];
            vars.push((v.0.clone(), v.1.clone()));
            i += 1;
        }
        proof {
            assert(vars@ =~= self.vars@);
        }
        Environment { vars }
    }

    fn push_value(&self, out: &mut String, name: &str, other: &str)
        ensures
            final(out)@ == old(out)@ + lookup_or(self@, name@, other@),
    {
        match self.get(name) {
            Some(v) => out.append(v),
            None => out.append(other),
        }
    }

    /// Expands the variables in a text: `$NAME`, `${NAME}`, `$?`, `$$`, `$!`, `$0`,
    /// `$#`, `$@`, `$*` and `$1` to `$9`.
    pub fn expand(&self, s: &str, last_exit: i32) -> (r: String)
        ensures
            r@ == expand_from(self@, s@, last_exit as int, 0),
    {
        let cs = to_chars(s);
        let mut out: String = String::new();
        let mut i: usize = 0;
        let ghost whole = expand_from(self@, s@, last_exit as int, 0);
        proof {
            assert(out@ + whole =~= whole);
            reveal_strlit("");
            reveal_strlit("!");
            reveal_strlit("0");
            reveal_strlit("sh");
            reveal_strlit("#");
            reveal_strlit("@");
            assert(""@ =~= Seq::<char>::empty());
            assert("!"@ =~= seq!['!']);
            assert("0"@ =~= seq!['0']);
            assert("sh"@ =~= seq!['s', 'h']);
            assert("#"@ =~= seq!['#']);
            assert("@"@ =~= seq!['@']);
        }
        while i < cs.len()
            invariant
                cs@ == s@,
                i <= cs@.len(),
                out@ + expand_from(self@, s@, last_exit as int, i as int) == whole,
                ""@ == Seq::<char>::empty(),
                "!"@ == seq!['!'],
                "0"@ == seq!['0'],
                "sh"@ == seq!['s', 'h'],
                "#"@ == seq!['#'],
                "@"@ == seq!['@'],
            decreases cs@.len() - i,
        {
            let ghost before = out@;
            let ghost at = i as int;
            if cs[i] != '$' || i + 1 >= cs.len() {
                out.push(cs[i]);
                i += 1;
                proof {
                    assert(before.push(s@[at]) =~= before + seq![s@[at]]);
                }
            } else {
                let c = cs[i + 1];
                if c == '{' {
                    let j = find_char(&cs, '}', i + 2);
                    let name = text_part(&cs, i + 2, j);
                    self.push_value(&mut out, name.as_str(), "");
                    i = if j < cs.len() {
                        j + 1
                    } else {
                        j
                    };
                } else if c == '?' {
                    let ds = write_signed(last_exit as i64);
                    push_chars(&mut out, &ds);
                    i += 2;
                } else if c == '$' {
                    out.push('1');
                    i += 2;
                    proof {
                        assert(before.push('1') =~= before + seq!['1']);
                    }
                } else if c == '!' {
                    self.push_value(&mut out, "!", "");
                    i += 2;
                } else if c == '0' {
                    self.push_value(&mut out, "0", "sh");
                    i += 2;
                } else if c == '#' {
                    self.push_value(&mut out, "#", "0");
                    i += 2;
                } else if c == '@' || c == '*' {
                    self.push_value(&mut out, "@", "");
                    i += 2;
                } else if char_is_digit(c) {
                    let name = text_part(&cs, i + 1, i + 2);
                    proof {
                        assert(name@ =~= seq![c]);
                    }
                    self.push_value(&mut out, name.as_str(), "");
                    i += 2;
                } else if char_is_alpha(c) || c == '_' {
                    let mut j: usize = i + 1;
                    while j < cs.len() && (char_is_alpha(cs[j]) || char_is_digit(cs[j]) || cs[j]
                        == '_')
                        invariant
                            cs@ == s@,
                            i + 1 <= j <= cs@.len(),
                            name_end(s@, i + 1) == name_end(s@, j as int),
                        decreases cs@.len() - j,
                    {
                        j += 1;
                    }
                    proof {
                        lemma_name_end(s@, i + 1);
                        assert(name_end(s@, i + 1) > i + 1);
                    }
                    let name = text_part(&cs, i + 1, j);
                    self.push_value(&mut out, name.as_str(), "");
                    i = j;
                } else {
                    out.push('$');
                    i += 1;
                    proof {
                        assert(before.push('$') =~= before + seq!['$']);
                    }
                }
            }
            proof {
                let (text, next) = expansion_at(self@, s@, last_exit as int, at);
                assert(out@ == before + text);
                assert(i == next);
                assert((before + text) + expand_from(self@, s@, last_exit as int, next) =~= before
                    + expand_from(self@, s@, last_exit as int, at));
            }
        }
        proof {
            assert(out@ + expand_from(self@, s@, last_exit as int, i as int) =~= out@);
        }
        out
    }
}

impl Default for Environment {
    fn default() -> (r: Self)
        ensures
            r@ == Map::<Seq<char>, Seq<char>>::empty(),
    {
        Environment::new()
    }
}

// ---------------------------------------------------------------------------
// Laws
// ---------------------------------------------------------------------------

/// A text without a dollar sign expands to itself.
pub proof fn law_plain_text_stays(
    vars: Map<Seq<char>, Seq<char>>,
    s: Seq<char>,
    last_exit: int,
    i: int,
)
    requires
        0 <= i <= s.len(),
        forall|k: int| 0 <= k < s.len() ==> s[k] != '$',
    ensures
        expand_from(vars, s, last_exit, i) == s.skip(i),
    decreases s.len() - i,
{
    if i < s.len() {
        law_plain_text_stays(vars, s, last_exit, i + 1);
        assert(s.skip(i) =~= seq![s[i]] + s.skip(i + 1));
    } else {
        assert(s.skip(i) =~= Seq::<char>::empty());
    }
}

/// `$NAME` and `${NAME}` both expand to the value of the variable `NAME`, and to
/// nothing where it is not set, for every name made of letters, digits and
/// underscores that does not start with a digit.
pub proof fn law_braces_are_optional(
    vars: Map<Seq<char>, Seq<char>>,
    name: Seq<char>,
    last_exit: int,
)
    requires
        name.len() > 0,
        is_alpha(name[0]) || name[0] == '_',
        forall|k: int| 0 <= k < name.len() ==> is_name_char(#[trigger] name[k]),
    ensures
        expand_from(vars, seq!['$'] + name, last_exit, 0) == lookup(vars, name),
        expand_from(vars, seq!['$', '{'] + name + seq!['}'], last_exit, 0) == lookup(vars, name),
{
    let a = seq!['$'] + name;
    let n = name.len() as int;
    lemma_name_reaches_end(a, 1);
    assert(a.subrange(1, a.len() as int) =~= name);
    assert(expansion_at(vars, a, last_exit, 0) == (lookup(vars, name), a.len() as int));
    assert(expand_from(vars, a, last_exit, a.len() as int) =~= Seq::<char>::empty());
    assert(expand_from(vars, a, last_exit, 0) =~= lookup(vars, name));
    let b = seq!['$', '{'] + name + seq!['}'];
    assert forall|k: int| 2 <= k < n + 2 implies b[k] != '}' by {
        assert(b[k] == name[k - 2]);
        assert(is_name_char(name[k - 2]));
    }
    lemma_find_is(b, '}', 2, n + 2);
    assert(b.subrange(2, n + 2) =~= name);
    assert(expansion_at(vars, b, last_exit, 0) == (lookup(vars, name), b.len() as int));
    assert(expand_from(vars, b, last_exit, b.len() as int) =~= Seq::<char>::empty());
    assert(expand_from(vars, b, last_exit, 0) =~= lookup(vars, name));
}

proof fn lemma_name_reaches_end(s: Seq<char>, from: int)
    requires
        0 <= from <= s.len(),
        forall|k: int| from <= k < s.len() ==> is_name_char(#[trigger] s[k]),
    ensures
        name_end(s, from) == s.len(),
    decreases s.len() - from,
{
    if from < s.len() {
        lemma_name_reaches_end(s, from + 1);
    }
}

/// A variable that is set is read back, one that is unset is not there, and all
/// other variables stay as they were.
pub proof fn law_set_is_read_back(
    vars: Map<Seq<char>, Seq<char>>,
    name: Seq<char>,
    value: Seq<char>,
    other: Seq<char>,
)
    ensures
        vars.insert(name, value).contains_pair(name, value),
        !vars.remove(name).dom().contains(name),
        other != name ==> {
            &&& vars.insert(name, value).dom().contains(other) == vars.dom().contains(other)
            &&& vars.remove(name).dom().contains(other) == vars.dom().contains(other)
            &&& lookup(vars.insert(name, value), other) == lookup(vars, other)
            &&& lookup(vars.remove(name), other) == lookup(vars, other)
        },
{
}

proof fn lemma_name_shift(a: Seq<char>, b: Seq<char>, i: int)
    requires
        0 <= i <= b.len(),
    ensures
        name_end(a + b, a.len() + i) == a.len() + name_end(b, i),
        i <= name_end(b, i) <= b.len(),
    decreases b.len() - i,
{
    if i < b.len() {
        assert((a + b)[a.len() + i] == b[i]);
        if is_name_char(b[i]) {
            lemma_name_shift(a, b, i + 1);
        }
    }
}

proof fn lemma_expand_skip(
    vars: Map<Seq<char>, Seq<char>>,
    a: Seq<char>,
    b: Seq<char>,
    last_exit: int,
    i: int,
)
    requires
        0 <= i <= b.len(),
    ensures
        expand_from(vars, a + b, last_exit, a.len() + i) == expand_from(vars, b, last_exit, i),
    decreases b.len() - i,
{
    let n = a.len() as int;
    if i < b.len() {
        assert((a + b)[n + i] == b[i]);
        if i + 1 < b.len() {
            assert((a + b)[n + i + 1] == b[i + 1]);
            lemma_name_shift(a, b, i + 1);
            let e = name_end(b, i + 1);
            assert((a + b).subrange(n + i + 1, n + e) =~= b.subrange(i + 1, e));
            lemma_find_behind(a, b, '}', i + 2);
            crate::text::lemma_find_from(b, '}', i + 2);
            let j = find_from(b, '}', i + 2);
            assert((a + b).subrange(n + i + 2, n + j) =~= b.subrange(i + 2, j));
        }
        let (text, next) = expansion_at(vars, b, last_exit, i);
        assert(expansion_at(vars, a + b, last_exit, n + i) == (text, n + next));
        if i < next <= b.len() {
            lemma_expand_skip(vars, a, b, last_exit, next);
        }
    }
}

proof fn lemma_expand_first(
    vars: Map<Seq<char>, Seq<char>>,
    a: Seq<char>,
    b: Seq<char>,
    last_exit: int,
)
    requires
        a.len() > 0,
        expansion_at(vars, a + b, last_exit, 0).1 == a.len(),
    ensures
        expand_from(vars, a + b, last_exit, 0) == expansion_at(vars, a + b, last_exit, 0).0
            + expand_from(vars, b, last_exit, 0),
{
    lemma_expand_skip(vars, a, b, last_exit, 0);
}

/// A character stays, and what follows is expanded on its own.
pub proof fn law_characters_stay(
    vars: Map<Seq<char>, Seq<char>>,
    c: char,
    rest: Seq<char>,
    last_exit: int,
)
    requires
        c != '$',
    ensures
        expand_from(vars, seq![c] + rest, last_exit, 0) == seq![c] + expand_from(
            vars,
            rest,
            last_exit,
            0,
        ),
        expand_from(vars, Seq::empty(), last_exit, 0).len() == 0,
        expand_from(vars, seq!['$'], last_exit, 0) == seq!['$'],
{
    assert((seq![c] + rest)[0] == c);
    lemma_expand_first(vars, seq![c], rest, last_exit);
    assert(expand_from(vars, seq!['$'], last_exit, 1).len() == 0);
    assert(expand_from(vars, seq!['$'], last_exit, 0) =~= seq!['$']);
}

/// A name behind a dollar sign, with braces or without, is replaced by the value of the
/// variable, or by nothing where there is none, and what follows is expanded on its own.
pub proof fn law_variables_are_replaced(
    vars: Map<Seq<char>, Seq<char>>,
    name: Seq<char>,
    rest: Seq<char>,
    last_exit: int,
)
    requires
        name.len() > 0,
        is_alpha(name[0]) || name[0] == '_',
        forall|k: int| 0 <= k < name.len() ==> is_name_char(#[trigger] name[k]),
    ensures
        ({
            let value = if vars.dom().contains(name) {
                vars[name]
            } else {
                Seq::empty()
            };
            let more = expand_from(vars, rest, last_exit, 0);
            &&& rest.len() == 0 || !is_name_char(rest[0]) ==> expand_from(
                vars,
                seq!['$'] + name + rest,
                last_exit,
                0,
            ) == value + more
            &&& expand_from(vars, seq!['$', '{'] + name + seq!['}'] + rest, last_exit, 0) == value
                + more
        }),
{
    let n = name.len() as int;
    let a = seq!['$'] + name;
    let s = a + rest;
    assert(s[0] == '$');
    assert(s[1] == name[0]);
    if rest.len() == 0 || !is_name_char(rest[0]) {
        assert forall|k: int| 1 <= k < n + 1 implies is_name_char(#[trigger] s[k]) by {
            assert(s[k] == name[k - 1]);
        }
        if rest.len() > 0 {
            assert(s[n + 1] == rest[0]);
        }
        lemma_name_stops(s, 1, n + 1);
        assert(s.subrange(1, n + 1) =~= name);
        lemma_expand_first(vars, a, rest, last_exit);
    }
    let b = seq!['$', '{'] + name + seq!['}'];
    let t = b + rest;
    assert(t[0] == '$' && t[1] == '{' && t[n + 2] == '}');
    assert forall|k: int| 2 <= k < n + 2 implies t[k] != '}' by {
        assert(t[k] == name[k - 2]);
        assert(is_name_char(name[k - 2]));
    }
    lemma_find_is(t, '}', 2, n + 2);
    assert(t.subrange(2, n + 2) =~= name);
    lemma_expand_first(vars, b, rest, last_exit);
}

proof fn lemma_name_stops(s: Seq<char>, from: int, to: int)
    requires
        0 <= from <= to <= s.len(),
        forall|k: int| from <= k < to ==> is_name_char(#[trigger] s[k]),
        to < s.len() ==> !is_name_char(s[to]),
    ensures
        name_end(s, from) == to,
    decreases to - from,
{
    if from < to {
        assert(is_name_char(s[from]));
        lemma_name_stops(s, from + 1, to);
    }
}

/// The parameters with names of one character: the exit code, the process, the command, the
/// number of parameters, all parameters and those with a number.
pub proof fn law_special_parameters(
    vars: Map<Seq<char>, Seq<char>>,
    d: char,
    rest: Seq<char>,
    last_exit: int,
)
    requires
        '1' <= d <= '9',
    ensures
        ({
            let more = expand_from(vars, rest, last_exit, 0);
            &&& expand_from(vars, seq!['$', '?'] + rest, last_exit, 0) == signed_decimal(last_exit)
                + more
            &&& expand_from(vars, seq!['$', '$'] + rest, last_exit, 0) == seq!['1'] + more
            &&& vars.dom().contains(seq!['!']) ==> expand_from(
                vars,
                seq!['$', '!'] + rest,
                last_exit,
                0,
            ) == vars[seq!['!']] + more
            &&& vars.dom().contains(seq!['0']) ==> expand_from(
                vars,
                seq!['$', '0'] + rest,
                last_exit,
                0,
            ) == vars[seq!['0']] + more
            &&& !vars.dom().contains(seq!['0']) ==> expand_from(
                vars,
                seq!['$', '0'] + rest,
                last_exit,
                0,
            ) == seq!['s', 'h'] + more
            &&& vars.dom().contains(seq!['#']) ==> expand_from(
                vars,
                seq!['$', '#'] + rest,
                last_exit,
                0,
            ) == vars[seq!['#']] + more
            &&& !vars.dom().contains(seq!['#']) ==> expand_from(
                vars,
                seq!['$', '#'] + rest,
                last_exit,
                0,
            ) == seq!['0'] + more
            &&& vars.dom().contains(seq!['@']) ==> expand_from(
                vars,
                seq!['$', '@'] + rest,
                last_exit,
                0,
            ) == vars[seq!['@']] + more
            &&& expand_from(vars, seq!['$', '*'] + rest, last_exit, 0) == expand_from(
                vars,
                seq!['$', '@'] + rest,
                last_exit,
                0,
            )
            &&& vars.dom().contains(seq![d]) ==> expand_from(
                vars,
                seq!['$', d] + rest,
                last_exit,
                0,
            ) == vars[seq![d]] + more
        }),
{
    lemma_special(vars, '?', rest, last_exit);
    lemma_special(vars, '$', rest, last_exit);
    lemma_special(vars, '!', rest, last_exit);
    lemma_special(vars, '0', rest, last_exit);
    lemma_special(vars, '#', rest, last_exit);
    lemma_special(vars, '@', rest, last_exit);
    lemma_special(vars, '*', rest, last_exit);
    lemma_special(vars, d, rest, last_exit);
}

proof fn lemma_special(
    vars: Map<Seq<char>, Seq<char>>,
    c: char,
    rest: Seq<char>,
    last_exit: int,
)
    requires
        c == '?' || c == '$' || c == '!' || c == '#' || c == '@' || c == '*' || is_digit(c),
    ensures
        (seq!['$', c] + rest)[0] == '$',
        (seq!['$', c] + rest)[1] == c,
        expand_from(vars, seq!['$', c] + rest, last_exit, 0) == expansion_at(
            vars,
            seq!['$', c] + rest,
            last_exit,
            0,
        ).0 + expand_from(vars, rest, last_exit, 0),
{
    let s = seq!['$', c] + rest;
    assert(s[0] == '$' && s[1] == c);
    lemma_expand_first(vars, seq!['$', c], rest, last_exit);
}

} // verus!
