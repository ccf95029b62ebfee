//! Paths.
use vstd::prelude::*;
use vstd::string::StringExecFns;
use crate::text::{
    find_from, join, join_chars, join_from, law_joined_is_split, law_split_at_a_separator,
    lemma_find_from, lemma_find_is, rows, split, split_chars, split_from, str_eq, to_chars,
};

verus! {

/// What is left of a path's parts when empty parts and `.` are dropped and each
/// `..` takes the part before it away.
pub open spec fn kept(parts: Seq<Seq<char>>) -> Seq<Seq<char>>
    decreases parts.len(),
{
    if parts.len() == 0 {
        Seq::empty()
    } else {
        let front = kept(parts.drop_last());
        let last = parts.last();
        if last == Seq::<char>::empty() || last == seq!['.'] {
            front
        } else if last == seq!['.', '.'] {
            if front.len() == 0 {
                front
            } else {
                front.drop_last()
            }
        } else {
            front.push(last)
        }
    }
}

/// A path without empty parts, `.` and `..`.
pub open spec fn normal(path: Seq<char>) -> Seq<char> {
    seq!['/'] + join(kept(split(path, '/')), seq!['/'])
}

/// The absolute path that `path` means in the directory `cwd`.
pub open spec fn resolved(cwd: Seq<char>, path: Seq<char>) -> Seq<char> {
    if path.len() > 0 && path[0] == '/' {
        normal(path)
    } else if cwd.len() > 0 && cwd.last() == '/' {
        normal(cwd + path)
    } else {
        normal(cwd + seq!['/'] + path)
    }
}

/// A name in a directory.
pub open spec fn child(base: Seq<char>, name: Seq<char>) -> Seq<char> {
    if base == seq!['/'] {
        seq!['/'] + name
    } else {
        base + seq!['/'] + name
    }
}

/// A part that names something: it is not empty, not `.` and not `..`, and it
/// holds no slash.
pub open spec fn names(part: Seq<char>) -> bool {
    &&& part != Seq::<char>::empty()
    &&& part != seq!['.']
    &&& part != seq!['.', '.']
    &&& forall|i: int| 0 <= i < part.len() ==> part[i] != '/'
}

/// The root, or a slash before each of a row of names.
pub open spec fn is_normal(path: Seq<char>) -> bool {
    exists|parts: Seq<Seq<char>>| #[trigger] all_name(parts)
        && path == seq!['/'] + join(parts, seq!['/'])
}

pub open spec fn all_name(parts: Seq<Seq<char>>) -> bool {
    forall|i: int| 0 <= i < parts.len() ==> names(#[trigger] parts[i])
}

proof fn lemma_split_parts(s: Seq<char>, from: int)
    requires
        0 <= from <= s.len(),
    ensures
        forall|i: int, k: int|
            0 <= i < split_from(s, '/', from).len() && 0 <= k < split_from(s, '/', from)[i].len()
                ==> #[trigger] split_from(s, '/', from)[i][k] != '/',
    decreases s.len() - from,
{
    lemma_find_from(s, '/', from);
    let j = find_from(s, '/', from);
    if j < s.len() {
        lemma_split_parts(s, j + 1);
        let rest = split_from(s, '/', j + 1);
        let all = split_from(s, '/', from);
        assert forall|i: int, k: int| 0 <= i < all.len() && 0 <= k < all[i].len() implies
            #[trigger] all[i][k] != '/' by {
            if i > 0 {
                assert(all[i] == rest[i - 1]);
            }
        }
    }
}

proof fn lemma_kept_names(parts: Seq<Seq<char>>)
    requires
        forall|i: int, k: int|
            0 <= i < parts.len() && 0 <= k < parts[i].len() ==> #[trigger] parts[i][k] != '/',
    ensures
        all_name(kept(parts)),
    decreases parts.len(),
{
    if parts.len() > 0 {
        assert forall|i: int, k: int|
            0 <= i < parts.drop_last().len() && 0 <= k < parts.drop_last()[i].len() implies
            #[trigger] parts.drop_last()[i][k] != '/' by {
            assert(parts.drop_last()[i] == parts[i]);
        }
        lemma_kept_names(parts.drop_last());
        let last = parts.last();
        let at = parts.len() - 1;
        assert forall|k: int| 0 <= k < last.len() implies last[k] != '/' by {
            assert(parts[at][k] != '/');
        }
    }
}

proof fn lemma_kept_all(parts: Seq<Seq<char>>)
    requires
        all_name(parts),
    ensures
        kept(seq![Seq::<char>::empty()] + parts) == parts,
    decreases parts.len(),
{
    let lead = seq![Seq::<char>::empty()];
    if parts.len() > 0 {
        assert((lead + parts).drop_last() =~= lead + parts.drop_last());
        lemma_kept_all(parts.drop_last());
        assert((lead + parts).last() == parts.last());
        assert(names(parts[parts.len() - 1]));
        assert(parts.drop_last().push(parts.last()) =~= parts);
    } else {
        assert((lead + parts) =~= lead);
        assert(lead.drop_last() =~= Seq::<Seq<char>>::empty());
        assert(kept(lead.drop_last()) == Seq::<Seq<char>>::empty());
        assert(kept(lead) == Seq::<Seq<char>>::empty());
    }
}

/// Splitting what was joined gives the parts back.
proof fn lemma_split_join(pre: Seq<char>, parts: Seq<Seq<char>>, k: int)
    requires
        all_name(parts),
        0 <= k < parts.len(),
    ensures
        split_from(pre + join_from(parts, seq!['/'], k), '/', pre.len() as int) == parts.skip(k),
    decreases parts.len() - k,
{
    let s = pre + join_from(parts, seq!['/'], k);
    let from = pre.len() as int;
    let p = parts[k];
    assert(names(p));
    if k + 1 == parts.len() {
        assert forall|i: int| from <= i < s.len() implies s[i] != '/' by {
            assert(s[i] == p[i - from]);
        }
        lemma_find_is(s, '/', from, s.len() as int);
        assert(s.skip(from) =~= p);
        assert(parts.skip(k) =~= seq![p]);
    } else {
        let rest = join_from(parts, seq!['/'], k + 1);
        let at = from + p.len();
        assert(s =~= pre + p + seq!['/'] + rest);
        assert forall|i: int| from <= i < at implies s[i] != '/' by {
            assert(s[i] == p[i - from]);
        }
        assert(s[at] == '/');
        lemma_find_is(s, '/', from, at);
        assert(s.subrange(from, at) =~= p);
        lemma_split_join(pre + p + seq!['/'], parts, k + 1);
        assert(parts.skip(k) =~= seq![p] + parts.skip(k + 1));
    }
}

/// Normalising the slash-separated form of names gives that form back.
pub proof fn lemma_normal_of_names(parts: Seq<Seq<char>>)
    requires
        all_name(parts),
    ensures
        normal(seq!['/'] + join(parts, seq!['/'])) == seq!['/'] + join(parts, seq!['/']),
{
    let s = seq!['/'] + join(parts, seq!['/']);
    let lead = seq![Seq::<char>::empty()];
    lemma_find_is(s, '/', 0, 0);
    assert(s.subrange(0, 0) =~= Seq::<char>::empty());
    if parts.len() == 0 {
        assert(s =~= seq!['/']);
        lemma_find_is(s, '/', 1, 1);
        assert(s.skip(1) =~= Seq::<char>::empty());
        assert(split_from(s, '/', 1) =~= lead);
        assert(split(s, '/') =~= lead + lead);
        assert((lead + lead).drop_last() =~= lead);
        lemma_kept_all(parts);
        assert(lead + parts =~= lead);
        assert(kept(lead + lead) == kept(lead));
        assert(kept(lead) =~= parts);
    } else {
        lemma_split_join(seq!['/'], parts, 0);
        assert(parts.skip(0) =~= parts);
        assert(split(s, '/') =~= lead + parts);
        lemma_kept_all(parts);
    }
}

/// A normalised path is the root or a slash before each of a row of names.
pub proof fn law_normal_form(path: Seq<char>)
    ensures
        is_normal(normal(path)),
{
    lemma_split_parts(path, 0);
    lemma_kept_names(split(path, '/'));
    let parts = kept(split(path, '/'));
    assert(all_name(parts));
}

/// Normalising a normalised path changes nothing.
pub proof fn law_normal_is_stable(path: Seq<char>)
    requires
        is_normal(path),
    ensures
        normal(path) == path,
{
    let parts = choose|parts: Seq<Seq<char>>| #[trigger]
        all_name(parts) && path == seq!['/'] + join(parts, seq!['/']);
    lemma_normal_of_names(parts);
}

/// A resolved path means the same from every directory.
pub proof fn law_resolved_is_absolute(cwd: Seq<char>, other: Seq<char>, path: Seq<char>)
    ensures
        resolved(other, resolved(cwd, path)) == resolved(cwd, path),
{
    let p = if path.len() > 0 && path[0] == '/' {
        path
    } else if cwd.len() > 0 && cwd.last() == '/' {
        cwd + path
    } else {
        cwd + seq!['/'] + path
    };
    law_normal_form(p);
    law_normal_is_stable(normal(p));
}

/// A name in a normalised directory is a normalised path.
pub proof fn lemma_child_is_normal(base: Seq<char>, name: Seq<char>)
    requires
        is_normal(base),
        names(name),
    ensures
        is_normal(child(base, name)),
        child(base, name).len() > base.len(),
{
    let parts = choose|parts: Seq<Seq<char>>| #[trigger]
        all_name(parts) && base == seq!['/'] + join(parts, seq!['/']);
    let more = parts.push(name);
    assert(all_name(more));
    lemma_names_long(name);
    if parts.len() == 0 {
        assert(base =~= seq!['/']);
        assert(join(more, seq!['/']) == name);
    } else {
        lemma_join_push(parts, name, 0);
        assert(names(parts[0]));
        lemma_names_long(parts[0]);
        lemma_join_long(parts, 0);
        assert(base.len() > 1);
        assert(seq!['/'] + join(more, seq!['/']) =~= base + seq!['/'] + name);
    }
}

proof fn lemma_names_long(part: Seq<char>)
    requires
        names(part),
    ensures
        part.len() > 0,
{
    if part.len() == 0 {
        assert(part =~= Seq::<char>::empty());
    }
}

proof fn lemma_join_long(parts: Seq<Seq<char>>, k: int)
    requires
        0 <= k < parts.len(),
    ensures
        join_from(parts, seq!['/'], k).len() >= parts[k].len(),
{
}

proof fn lemma_join_push(parts: Seq<Seq<char>>, name: Seq<char>, k: int)
    requires
        0 <= k < parts.len(),
    ensures
        join_from(parts.push(name), seq!['/'], k) == join_from(parts, seq!['/'], k) + seq!['/']
            + name,
    decreases parts.len() - k,
{
    let more = parts.push(name);
    if k + 1 == parts.len() {
        assert(join_from(more, seq!['/'], k + 1) == name);
        assert(more[k] == parts[k]);
    } else {
        lemma_join_push(parts, name, k + 1);
        assert(more[k] == parts[k]);
        assert(join_from(more, seq!['/'], k) =~= join_from(parts, seq!['/'], k) + seq!['/'] + name);
    }
}

/// Resolves the parts `.` and `..` of a path.
pub fn normalize_path(path: &str) -> (r: String)
    ensures
        r@ == normal(path@),
{
    let cs = to_chars(path);
    let parts = split_chars(&cs, '/');
    let mut out: Vec<Vec<char>> = Vec::new();
    let ghost all = rows(parts@);
    let mut i: usize = 0;
    proof {
        assert(all.take(0) =~= Seq::<Seq<char>>::empty());
        assert(rows(out@) =~= kept(all.take(0)));
    }
    while i < parts.len()
        invariant
            all == rows(parts@),
            i <= parts@.len(),
            rows(out@) == kept(all.take(i as int)),
        decreases parts@.len() - i,
    {
        let p = &parts[i];
        let ghost before = out@;
        proof {
            assert(all.take(i + 1).drop_last() =~= all.take(i as int));
            assert(all.take(i + 1).last() == p@);
            assert(p@.len() == 0 <==> p@ == Seq::<char>::empty()) by {
                if p@.len() == 0 {
                    assert(p@ =~= Seq::<char>::empty());
                }
            }
            if p@.len() == 1 && p@[0] == '.' {
                assert(p@ =~= seq!['.']);
            }
            if p@.len() == 2 && p@[0] == '.' && p@[1] == '.' {
                assert(p@ =~= seq!['.', '.']);
            }
        }
        if p.len() == 0 || (p.len() == 1 && p[0] == '.') {
        } else if p.len() == 2 && p[0] == '.' && p[1] == '.' {
            out.pop();
            proof {
                if before.len() > 0 {
                    assert(rows(out@) =~= rows(before).drop_last());
                } else {
                    assert(rows(out@) =~= rows(before));
                }
            }
        } else {
            out.push(p.clone());
            proof {
                assert(rows(out@) =~= rows(before).push(p@));
            }
        }
        i += 1;
    }
    proof {
        assert(all.take(i as int) =~= all);
        reveal_strlit("/");
        assert("/"@ =~= seq!['/']);
    }
    let mut r = "/".to_owned();
    let joined = join_chars(&out, "/");
    r.append(joined.as_str());
    r
}

/// The absolute path that `path` means in the directory `cwd`.
pub fn resolve(cwd: &str, path: &str) -> (r: String)
    ensures
        r@ == resolved(cwd@, path@),
{
    let p = to_chars(path);
    if p.len() > 0 && p[0] == '/' {
        normalize_path(path)
    } else {
        let c = to_chars(cwd);
        let mut combined = cwd.to_owned();
        if !(c.len() > 0 && c[c.len() - 1] == '/') {
            combined.push('/');
            proof {
                assert(combined@ =~= cwd@ + seq!['/']);
            }
        }
        combined.append(path);
        normalize_path(combined.as_str())
    }
}

/// A name in a directory.
pub fn child_path(base: &str, name: &str) -> (r: String)
    ensures
        r@ == child(base@, name@),
{
    proof {
        reveal_strlit("/");
        assert("/"@ =~= seq!['/']);
    }
    let mut r = base.to_owned();
    if !str_eq(base, "/") {
        r.push('/');
        proof {
            assert(r@ =~= base@ + seq!['/']);
        }
    }
    r.append(name);
    r
}

/// Of the parts of a path, an empty one and a dot change nothing, two dots take the part
/// before them away, and any other part is added.
pub proof fn law_parts_of_a_path(parts: Seq<Seq<char>>, name: Seq<char>)
    ensures
        kept(Seq::empty()).len() == 0,
        kept(parts.push(Seq::empty())) == kept(parts),
        kept(parts.push(seq!['.'])) == kept(parts),
        kept(parts).len() > 0 ==> kept(parts.push(seq!['.', '.'])) == kept(parts).drop_last(),
        kept(parts).len() == 0 ==> kept(parts.push(seq!['.', '.'])).len() == 0,
        names(name) ==> kept(parts.push(name)) == kept(parts).push(name),
{
    let none = Seq::<char>::empty();
    let dot = seq!['.'];
    let dots = seq!['.', '.'];
    assert(dots.len() == 2 && dot.len() == 1 && none.len() == 0);
    assert(parts.push(none).drop_last() =~= parts);
    assert(parts.push(dot).drop_last() =~= parts);
    assert(parts.push(dots).drop_last() =~= parts);
    assert(parts.push(name).drop_last() =~= parts);
}

proof fn lemma_split_one(name: Seq<char>)
    requires
        forall|k: int| 0 <= k < name.len() ==> #[trigger] name[k] != '/',
    ensures
        split(name, '/') == seq![name],
{
    lemma_find_is(name, '/', 0, name.len() as int);
    assert(name.skip(0) =~= name);
}

proof fn lemma_normal_parts(path: Seq<char>) -> (parts: Seq<Seq<char>>)
    requires
        is_normal(path),
    ensures
        all_name(parts),
        path == seq!['/'] + join(parts, seq!['/']),
        kept(split(path, '/')) == parts,
        path.last() == '/' ==> path == seq!['/'],
{
    let parts = choose|parts: Seq<Seq<char>>| #[trigger]
        all_name(parts) && path == seq!['/'] + join(parts, seq!['/']);
    lemma_kept_of_names(parts);
    if parts.len() == 0 {
        assert(path =~= seq!['/']);
    } else {
        let last = parts.last();
        assert(names(last));
        lemma_names_long(last);
        lemma_join_last(parts, 0);
        assert(path.last() == join(parts, seq!['/']).last());
    }
    parts
}

proof fn lemma_join_last(parts: Seq<Seq<char>>, k: int)
    requires
        0 <= k < parts.len(),
        parts.last().len() > 0,
    ensures
        join_from(parts, seq!['/'], k).len() > 0,
        join_from(parts, seq!['/'], k).last() == parts.last().last(),
    decreases parts.len() - k,
{
    if k + 1 < parts.len() {
        lemma_join_last(parts, k + 1);
    }
}

proof fn lemma_kept_of_names(parts: Seq<Seq<char>>)
    requires
        all_name(parts),
    ensures
        kept(split(seq!['/'] + join(parts, seq!['/']), '/')) == parts,
{
    let none = Seq::<char>::empty();
    let body = join(parts, seq!['/']);
    law_split_at_a_separator(none, '/', body);
    assert(none + seq!['/'] + body =~= seq!['/'] + body);
    lemma_split_one(none);
    let all = seq![none] + parts;
    if parts.len() == 0 {
        assert(body =~= none);
        assert(seq![none] + seq![none] =~= Seq::<Seq<char>>::empty().push(none).push(none));
        law_parts_of_a_path(Seq::empty(), none);
        law_parts_of_a_path(Seq::<Seq<char>>::empty().push(none), none);
        assert(kept(seq![none] + seq![none]) =~= parts);
    } else {
        assert forall|i: int, k: int|
            0 <= i < parts.len() && 0 <= k < parts[i].len() implies #[trigger] parts[i][k] != '/' by {
            assert(names(parts[i]));
        }
        law_joined_is_split(parts, '/');
        lemma_kept_behind(parts);
    }
}

proof fn lemma_kept_behind(parts: Seq<Seq<char>>)
    requires
        all_name(parts),
    ensures
        kept(seq![Seq::<char>::empty()] + parts) == parts,
    decreases parts.len(),
{
    let none = Seq::<char>::empty();
    let all = seq![none] + parts;
    if parts.len() == 0 {
        assert(all =~= Seq::<Seq<char>>::empty().push(none));
        law_parts_of_a_path(Seq::empty(), none);
        assert(kept(all) =~= parts);
    } else {
        let front = parts.drop_last();
        assert forall|i: int| 0 <= i < front.len() implies names(#[trigger] front[i]) by {
            assert(names(parts[i]));
        }
        lemma_kept_behind(front);
        assert(names(parts[parts.len() - 1]));
        law_parts_of_a_path(seq![none] + front, parts.last());
        assert(all =~= (seq![none] + front).push(parts.last()));
        assert(kept(all) =~= parts);
    }
}

/// In a directory, a name is the path below it, a dot and nothing are the directory, two dots
/// lead from a path below it back to it, and a path from the root is itself.
pub proof fn law_steps_from_a_directory(cwd: Seq<char>, name: Seq<char>, other: Seq<char>)
    requires
        is_normal(cwd),
        names(name),
    ensures
        resolved(cwd, name) == child(cwd, name),
        resolved(cwd, seq!['.']) == cwd,
        resolved(cwd, Seq::empty()) == cwd,
        resolved(child(cwd, name), seq!['.', '.']) == cwd,
        resolved(seq!['/'], seq!['.', '.']) == seq!['/'],
        is_normal(other) ==> resolved(cwd, other) == other,
{
    let parts = lemma_normal_parts(cwd);
    let none = Seq::<char>::empty();
    let dot = seq!['.'];
    let dots = seq!['.', '.'];
    let root = seq!['/'];
    let below = child(cwd, name);
    lemma_step(cwd, dot);
    lemma_step(cwd, none);
    lemma_step(cwd, name);
    law_parts_of_a_path(split(cwd, '/'), name);
    let more = parts.push(name);
    assert(all_name(more));
    assert(below =~= root + join(more, root)) by {
        if parts.len() == 0 {
            assert(cwd =~= root);
            assert(join(more, root) == name);
        } else {
            lemma_join_push(parts, name, 0);
            assert(names(parts[0]));
            lemma_names_long(parts[0]);
            lemma_join_long(parts, 0);
        }
    }
    lemma_kept_of_names(more);
    assert(is_normal(below));
    lemma_step(below, dots);
    law_parts_of_a_path(split(below, '/'), name);
    assert(more.drop_last() =~= parts);
    let nothing = Seq::<Seq<char>>::empty();
    assert(root + join(nothing, root) =~= root);
    assert(all_name(nothing));
    assert(is_normal(root));
    lemma_kept_of_names(nothing);
    lemma_step(root, dots);
    law_parts_of_a_path(split(root, '/'), name);
    assert(kept(split(root, '/').push(dots)) =~= nothing);
    if is_normal(other) {
        law_normal_is_stable(other);
    }
}

proof fn lemma_step(cwd: Seq<char>, piece: Seq<char>)
    requires
        is_normal(cwd),
        forall|k: int| 0 <= k < piece.len() ==> #[trigger] piece[k] != '/',
    ensures
        resolved(cwd, piece) == seq!['/'] + join(kept(split(cwd, '/').push(piece)), seq!['/']),
{
    let none = Seq::<char>::empty();
    let root = seq!['/'];
    let parts = lemma_normal_parts(cwd);
    lemma_split_one(piece);
    lemma_split_one(none);
    if cwd.last() == '/' {
        law_split_at_a_separator(none, '/', piece);
        assert(none + root + piece =~= cwd + piece);
        assert(seq![none] + seq![piece] =~= seq![none].push(piece));
        law_split_at_a_separator(none, '/', none);
        assert(none + root + none =~= root);
        assert(seq![none] + seq![none] =~= seq![none].push(none));
        law_parts_of_a_path(seq![none], none);
        let x = seq![none];
        let y = split(cwd, '/');
        assert(kept(x) == kept(y));
        assert(x.push(piece).drop_last() =~= x);
        assert(y.push(piece).drop_last() =~= y);
        assert(kept(x.push(piece)) == kept(y.push(piece)));
    } else {
        law_split_at_a_separator(cwd, '/', piece);
        assert(split(cwd, '/') + seq![piece] =~= split(cwd, '/').push(piece));
    }
}

} // verus!
