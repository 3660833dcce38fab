//! Names of modules and sources as paths inside an output directory.

use vstd::prelude::*;

use crate::format::{
    BUNFS_PREFIX_UNIX, BUNFS_PREFIX_WIN, BUNFS_PREFIX_WIN_PUBLIC, MODULE_NAME_PREFIX,
};
use crate::text;
use crate::text::{chars_of, starts_with, string_of};

verus! {

/// `text` with slashes in place of backslashes.
pub open spec fn with_slashes(text: Seq<char>) -> Seq<char> {
    text.map_values(
        |ch: char|
            if ch == '\\' {
                '/'
            } else {
                ch
            },
    )
}

/// The parts of `path` between its slashes; there is always one more than there are slashes.
pub open spec fn split(path: Seq<char>) -> Seq<Seq<char>>
    decreases path.len(),
{
    if path.len() == 0 {
        seq![Seq::empty()]
    } else {
        let before = split(path.drop_last());
        if path.last() == '/' {
            before.push(Seq::empty())
        } else {
            before.drop_last().push(before.last().push(path.last()))
        }
    }
}

/// The parts with a slash between each two.
pub open spec fn join(parts: Seq<Seq<char>>) -> Seq<char>
    decreases parts.len(),
{
    if parts.len() == 0 {
        Seq::empty()
    } else if parts.len() == 1 {
        parts[0]
    } else {
        join(parts.drop_last()) + seq!['/'] + parts.last()
    }
}

/// What `..` does in a path.
#[derive(Clone, Copy)]
pub enum Parents {
    /// It leads to the parent, and at the top it does nothing.
    Clamped,
    /// It leads to the parent, and at the top it makes the path invalid.
    Checked,
    /// It makes the path invalid.
    Forbidden,
}

/// The directories entered after one more part, if the path stays valid.
pub open spec fn enter(kept: Seq<Seq<char>>, part: Seq<char>, parents: Parents) -> Option<
    Seq<Seq<char>>,
> {
    if part == Seq::<char>::empty() || part == seq!['.'] {
        Some(kept)
    } else if part == seq!['.', '.'] {
        match parents {
            Parents::Forbidden => None,
            Parents::Clamped => Some(
                if kept.len() == 0 {
                    kept
                } else {
                    kept.drop_last()
                },
            ),
            Parents::Checked => if kept.len() == 0 {
                None
            } else {
                Some(kept.drop_last())
            },
        }
    } else if part.contains(':') {
        None
    } else {
        Some(kept.push(part))
    }
}

/// The directories entered after all parts, if the path is valid.
pub open spec fn walk(parts: Seq<Seq<char>>, parents: Parents) -> Option<Seq<Seq<char>>>
    decreases parts.len(),
{
    if parts.len() == 0 {
        Some(Seq::empty())
    } else {
        match walk(parts.drop_last(), parents) {
            None => None,
            Some(kept) => enter(kept, parts.last(), parents),
        }
    }
}

/// The path that `path` leads to, part by part, if it is valid and leads anywhere.
pub open spec fn resolve(path: Seq<char>, parents: Parents) -> Option<Seq<Seq<char>>> {
    match walk(split(path), parents) {
        None => None,
        Some(kept) => if kept.len() == 0 {
            None
        } else {
            Some(kept)
        },
    }
}

/// Whether a part names a file or directory in the directory that it is looked up in: it is
/// not empty, not the directory itself or its parent, and has no separator and no colon.
pub open spec fn is_plain(part: Seq<char>) -> bool {
    &&& part.len() > 0
    &&& part != seq!['.']
    &&& part != seq!['.', '.']
    &&& !part.contains('/')
    &&& !part.contains(':')
}

/// The contents of the vectors.
pub open spec fn views(parts: Seq<Vec<char>>) -> Seq<Seq<char>> {
    parts.map_values(|part: Vec<char>| part@)
}

/// Splits `path` at its slashes.
fn split_path(path: &[char]) -> (parts: Vec<Vec<char>>)
    ensures
        views(parts@) == split(path@),
{
    let mut parts: Vec<Vec<char>> = Vec::new();
    let mut current: Vec<char> = Vec::new();
    let mut i: usize = 0;
    assert(path@.take(0) =~= Seq::empty());
    assert(views(parts@).push(current@) =~= split(Seq::empty()));
    while i < path.len()
        invariant
            i <= path@.len(),
            views(parts@).push(current@) == split(path@.take(i as int)),
        decreases path@.len() - i,
    {
        let ch: char = path[i];
        let ghost before = path@.take(i as int);
        let ghost parts0 = parts@;
        let ghost current0 = current@;
        assert(path@.take(i + 1).drop_last() =~= before);
        assert(views(parts0).push(current0).drop_last() =~= views(parts0));
        if ch == '/' {
            parts.push(current);
            current = Vec::new();
            assert(views(parts@) =~= views(parts0).push(current0));
            assert(current@ =~= Seq::empty());
        } else {
            current.push(ch);
        }
        i = i + 1;
    }
    assert(path@.take(path@.len() as int) =~= path@);
    let ghost parts0 = parts@;
    let ghost current0 = current@;
    parts.push(current);
    assert(views(parts@) =~= views(parts0).push(current0));
    parts
}

/// Whether `part` holds `ch`.
fn contains(part: &[char], ch: char) -> (yes: bool)
    ensures
        yes == part@.contains(ch),
{
    let mut i: usize = 0;
    while i < part.len()
        invariant
            i <= part@.len(),
            forall|j: int| 0 <= j < i ==> part@[j] != ch,
        decreases part@.len() - i,
    {
        if part[i] == ch {
            return true;
        }
        i = i + 1;
    }
    false
}

/// Follows `path` part by part.
fn resolve_path(path: &[char], parents: Parents) -> (resolved: Option<Vec<Vec<char>>>)
    ensures
        match resolved {
            Some(parts) => resolve(path@, parents) == Some(views(parts@)),
            None => resolve(path@, parents) is None,
        },
{
    let parts = split_path(path);
    let mut kept: Vec<Vec<char>> = Vec::new();
    let mut i: usize = 0;
    assert(views(kept@) =~= Seq::empty());
    while i < parts.len()
        invariant
            i <= parts@.len(),
            views(parts@) == split(path@),
            walk(split(path@).take(i as int), parents) == Some(views(kept@)),
        decreases parts@.len() - i,
    {
        let part = &parts[i];
        let ghost all = split(path@);
        let ghost kept0 = kept@;
        proof {
            assert(all.take(i + 1).drop_last() =~= all.take(i as int));
            assert(all.take(i + 1).last() == part@);
            assert(part.len() == 0 ==> part@ =~= Seq::empty());
            assert(part.len() == 1 && part[0] == '.' ==> part@ =~= seq!['.']);
            assert(part.len() == 2 && part[0] == '.' && part[1] == '.' ==> part@ =~= seq!['.', '.']);
            if walk(all.take(i + 1), parents) is None {
                lemma_walk_stays(all, parents, i + 1, all.len() as int);
                assert(all.take(all.len() as int) =~= all);
            }
        }
        if part.len() == 0 || (part.len() == 1 && part[0] == '.') {
        } else if part.len() == 2 && part[0] == '.' && part[1] == '.' {
            match parents {
                Parents::Forbidden => {
                    return None;
                },
                Parents::Clamped => {
                    let _ = kept.pop();
                },
                Parents::Checked => {
                    if kept.pop().is_none() {
                        return None;
                    }
                },
            }
            assert(kept0.len() > 0 ==> views(kept@) =~= views(kept0).drop_last());
        } else if contains(part, ':') {
            return None;
        } else {
            kept.push(vstd::slice::slice_to_vec(part));
            assert(views(kept@) =~= views(kept0).push(part@));
        }
        i = i + 1;
    }
    assert(split(path@).take(parts@.len() as int) =~= split(path@));
    if kept.len() == 0 {
        None
    } else {
        Some(kept)
    }
}

/// A path that has become invalid stays so.
proof fn lemma_walk_stays(parts: Seq<Seq<char>>, parents: Parents, shorter: int, longer: int)
    requires
        0 <= shorter <= longer <= parts.len(),
        walk(parts.take(shorter), parents) is None,
    ensures
        walk(parts.take(longer), parents) is None,
    decreases longer,
{
    if shorter < longer {
        lemma_walk_stays(parts, parents, shorter, longer - 1);
        assert(parts.take(longer).drop_last() =~= parts.take(longer - 1));
    }
}

/// `text` without the copies of `lead` that it begins with.
pub open spec fn without_leading(text: Seq<char>, lead: Seq<char>) -> Seq<char>
    decreases text.len(),
{
    if lead.len() > 0 && lead.is_prefix_of(text) {
        without_leading(text.skip(lead.len() as int), lead)
    } else {
        text
    }
}

/// `text` without `prefix`, if it begins with it.
pub open spec fn without_optional(text: Seq<char>, prefix: Seq<char>) -> Seq<char> {
    match text::without_prefix(text, prefix) {
        Some(rest) => rest,
        None => text,
    }
}

/// What follows Bun's virtual root in a source path with slashes.
pub open spec fn in_virtual_root(path: Seq<char>) -> Option<Seq<char>> {
    match text::without_prefix(path, MODULE_NAME_PREFIX@) {
        Some(rest) => Some(rest),
        None => text::without_prefix(path, BUNFS_PREFIX_WIN_PUBLIC@),
    }
}

/// The parts of the output path for a source. Under Bun's virtual root `..` never leads out of
/// the root. Any other path loses its leading slashes and leading `../`, and must do without
/// `..` from there on.
pub open spec fn source_parts(path: Seq<char>) -> Option<Seq<Seq<char>>> {
    let path = with_slashes(path);
    match in_virtual_root(path) {
        Some(rest) => resolve(without_optional(rest, "root/"@), Parents::Clamped),
        None => resolve(
            without_leading(without_leading(path, seq!['/']), seq!['.', '.', '/']),
            Parents::Forbidden,
        ),
    }
}

/// The output path for a source.
pub open spec fn source_path(path: Seq<char>) -> Option<Seq<char>> {
    match source_parts(path) {
        Some(parts) => Some(join(parts)),
        None => None,
    }
}

/// What follows Bun's virtual root in a module name.
pub open spec fn in_module_root(name: Seq<char>) -> Option<Seq<char>> {
    match text::without_prefix(name, BUNFS_PREFIX_UNIX@) {
        Some(rest) => Some(rest),
        None => match text::without_prefix(name, MODULE_NAME_PREFIX@) {
            Some(rest) => Some(rest),
            None => match text::without_prefix(name, BUNFS_PREFIX_WIN@) {
                Some(rest) => Some(rest),
                None => text::without_prefix(name, BUNFS_PREFIX_WIN_PUBLIC@),
            },
        },
    }
}

/// The parts of the output path for a module. Under Bun's virtual root `..` never leads out of
/// the root. Any other name must be relative and must not lead out of the output directory.
pub open spec fn module_parts(name: Seq<char>) -> Option<Seq<Seq<char>>> {
    if name.contains('\0') {
        None
    } else {
        match in_module_root(name) {
            Some(rest) => {
                let inner = match text::without_prefix(rest, "root/"@) {
                    Some(inner) => inner,
                    None => without_optional(rest, "root\\"@),
                };
                resolve(with_slashes(inner), Parents::Clamped)
            },
            None => if name.len() > 0 && (name[0] == '/' || name[0] == '\\') {
                None
            } else {
                resolve(with_slashes(name), Parents::Checked)
            },
        }
    }
}

/// `chars` with slashes in place of backslashes.
fn slashed(chars: &[char]) -> (result: Vec<char>)
    ensures
        result@ == with_slashes(chars@),
{
    let mut result: Vec<char> = Vec::new();
    let mut i: usize = 0;
    while i < chars.len()
        invariant
            i <= chars@.len(),
            result@.len() == i,
            forall|j: int| 0 <= j < i ==> result@[j] == with_slashes(chars@)[j],
        decreases chars@.len() - i,
    {
        let ch: char = chars[i];
        result.push(
            if ch == '\\' {
                '/'
            } else {
                ch
            },
        );
        i = i + 1;
    }
    assert(result@ =~= with_slashes(chars@));
    result
}

/// What is left of `chars` behind `prefix`, if they begin with it.
fn after_prefix<'a>(chars: &'a [char], prefix: &str) -> (rest: Option<&'a [char]>)
    ensures
        match rest {
            Some(rest) => text::without_prefix(chars@, prefix@) == Some(rest@),
            None => text::without_prefix(chars@, prefix@) is None,
        },
{
    if starts_with(chars, prefix) {
        let from: usize = chars_of(prefix).len();
        let rest = vstd::slice::slice_subrange(chars, from, chars.len());
        assert(rest@ =~= chars@.skip(prefix@.len() as int));
        Some(rest)
    } else {
        None
    }
}

/// `chars` without the copies of `lead` that they begin with.
fn after_leading<'a>(chars: &'a [char], lead: &str) -> (rest: &'a [char])
    requires
        lead@.len() > 0,
    ensures
        rest@ == without_leading(chars@, lead@),
{
    let mut rest = chars;
    loop
        invariant
            lead@.len() > 0,
            without_leading(chars@, lead@) == without_leading(rest@, lead@),
        decreases rest@.len(),
    {
        match after_prefix(rest, lead) {
            Some(shorter) => {
                rest = shorter;
            },
            None => {
                return rest;
            },
        }
    }
}

/// The parts with a slash between each two.
fn join_parts(parts: &Vec<Vec<char>>) -> (path: String)
    ensures
        path@ == join(views(parts@)),
{
    let mut path: Vec<char> = Vec::new();
    let mut i: usize = 0;
    while i < parts.len()
        invariant
            i <= parts@.len(),
            path@ == join(views(parts@).take(i as int)),
        decreases parts@.len() - i,
    {
        let ghost before = path@;
        let ghost all = views(parts@);
        if i > 0 {
            path.push('/');
        }
        let mut part = vstd::slice::slice_to_vec(&parts[i]);
        path.append(&mut part);
        i = i + 1;
        proof {
            assert(all.take(i as int).drop_last() =~= all.take(i - 1));
            assert(all.take(i as int).last() == parts@[i - 1]@);
            if i == 1 {
                assert(before =~= Seq::empty());
                assert(path@ =~= all[0]);
            } else {
                assert(path@ =~= before + seq!['/'] + all[i - 1]);
            }
        }
    }
    assert(views(parts@).take(parts@.len() as int) =~= views(parts@));
    string_of(&path)
}

/// Sanitizes a sourcemap path: strips Bun's virtual roots, strips leading `../` and `/` from
/// ordinary paths, and keeps the result inside the output directory.
pub fn sanitize_source_path(path: &str) -> (sanitized: Option<String>)
    ensures
        crate::format::optional_text(sanitized) == source_path(path@),
{
    let normalized = slashed(&chars_of(path));
    let in_root = match after_prefix(&normalized, MODULE_NAME_PREFIX) {
        Some(rest) => Some(rest),
        None => after_prefix(&normalized, BUNFS_PREFIX_WIN_PUBLIC),
    };
    let resolved = match in_root {
        Some(rest) => {
            let inner = match after_prefix(rest, "root/") {
                Some(inner) => inner,
                None => rest,
            };
            resolve_path(inner, Parents::Clamped)
        },
        None => {
            proof {
                reveal_strlit("/");
                reveal_strlit("../");
                assert("/"@ =~= seq!['/']);
                assert("../"@ =~= seq!['.', '.', '/']);
            }
            resolve_path(after_leading(after_leading(&normalized, "/"), "../"), Parents::Forbidden)
        },
    };
    match resolved {
        Some(parts) => Some(join_parts(&parts)),
        None => None,
    }
}

/// The texts of the strings.
pub open spec fn texts(parts: Seq<String>) -> Seq<Seq<char>> {
    parts.map_values(|part: String| part@)
}

/// The strings made of the parts.
fn strings_of(parts: &Vec<Vec<char>>) -> (strings: Vec<String>)
    ensures
        texts(strings@) == views(parts@),
{
    let mut strings: Vec<String> = Vec::new();
    let mut i: usize = 0;
    while i < parts.len()
        invariant
            i <= parts@.len(),
            strings@.len() == i,
            forall|j: int| 0 <= j < i ==> strings@[j]@ == parts@[j]@,
        decreases parts@.len() - i,
    {
        strings.push(string_of(&parts[i]));
        i = i + 1;
    }
    assert(texts(strings@) =~= views(parts@));
    strings
}

/// The path below the output directory to which a module is extracted, directory by
/// directory; none for a name that could lead elsewhere.
pub fn output_relative_path(module_name: &str) -> (parts: Option<Vec<String>>)
    ensures
        match parts {
            Some(parts) => module_parts(module_name@) == Some(texts(parts@)),
            None => module_parts(module_name@) is None,
        },
{
    let name = chars_of(module_name);
    if contains(&name, '\0') {
        return None;
    }
    let in_root = match after_prefix(&name, BUNFS_PREFIX_UNIX) {
        Some(rest) => Some(rest),
        None => match after_prefix(&name, MODULE_NAME_PREFIX) {
            Some(rest) => Some(rest),
            None => match after_prefix(&name, BUNFS_PREFIX_WIN) {
                Some(rest) => Some(rest),
                None => after_prefix(&name, BUNFS_PREFIX_WIN_PUBLIC),
            },
        },
    };
    let resolved = match in_root {
        Some(rest) => {
            let inner = match after_prefix(rest, "root/") {
                Some(inner) => inner,
                None => match after_prefix(rest, "root\\") {
                    Some(inner) => inner,
                    None => rest,
                },
            };
            resolve_path(&slashed(inner), Parents::Clamped)
        },
        None => {
            if name.len() > 0 && (name[0] == '/' || name[0] == '\\') {
                return None;
            }
            resolve_path(&slashed(&name), Parents::Checked)
        },
    };
    match resolved {
        Some(parts) => Some(strings_of(&parts)),
        None => None,
    }
}

/// Whether every part is plain and none holds a backslash.
pub open spec fn all_plain(parts: Seq<Seq<char>>) -> bool {
    forall|i: int|
        0 <= i < parts.len() ==> is_plain(#[trigger] parts[i]) && !parts[i].contains('\\')
}

/// The parts of a path have no slashes, and no character that the path does not have.
proof fn lemma_split_chars(path: Seq<char>, ch: char)
    ensures
        split(path).len() >= 1,
        forall|i: int| 0 <= i < split(path).len() ==> !(#[trigger] split(path)[i]).contains('/'),
        !path.contains(ch) ==> forall|i: int|
            0 <= i < split(path).len() ==> !(#[trigger] split(path)[i]).contains(ch),
    decreases path.len(),
{
    if path.len() > 0 {
        let before = path.drop_last();
        lemma_split_chars(before, ch);
        if !path.contains(ch) {
            assert forall|i: int| 0 <= i < before.len() implies before[i] != ch by {
                assert(path[i] == before[i]);
            }
            assert(path[path.len() - 1] != ch);
        }
        let parts = split(before);
        assert forall|i: int| 0 <= i < split(path).len() implies {
            &&& !(#[trigger] split(path)[i]).contains('/')
            &&& !path.contains(ch) ==> !split(path)[i].contains(ch)
        } by {
            let part = split(path)[i];
            if path.last() == '/' {
                if i < parts.len() {
                    assert(part == parts[i]);
                }
            } else if i < parts.len() - 1 {
                assert(part == parts[i]);
            } else {
                let shorter = parts[parts.len() - 1];
                assert(part == shorter.push(path.last()));
                assert forall|j: int| 0 <= j < part.len() implies part[j] != '/' && (
                !path.contains(ch) ==> part[j] != ch) by {
                    if j < shorter.len() {
                        assert(shorter[j] == part[j]);
                    }
                }
            }
        }
    }
}

/// What a walk keeps are plain parts of the path.
proof fn lemma_walk_plain(parts: Seq<Seq<char>>, parents: Parents, ch: char)
    requires
        forall|i: int| 0 <= i < parts.len() ==> !(#[trigger] parts[i]).contains('/'),
        forall|i: int| 0 <= i < parts.len() ==> !(#[trigger] parts[i]).contains(ch),
    ensures
        walk(parts, parents) matches Some(kept) ==> forall|i: int|
            0 <= i < kept.len() ==> is_plain(#[trigger] kept[i]) && !kept[i].contains(ch),
    decreases parts.len(),
{
    if parts.len() > 0 {
        let before = parts.drop_last();
        assert forall|i: int| 0 <= i < before.len() implies !(#[trigger] before[i]).contains('/')
            && !before[i].contains(ch) by {
            assert(before[i] == parts[i]);
        }
        lemma_walk_plain(before, parents, ch);
        assert(!parts[parts.len() - 1].contains('/'));
        let part = parts.last();
        assert(part.len() == 0 ==> part =~= Seq::<char>::empty());
    }
}

/// Replacing backslashes leaves none, and brings in no character but the slash.
proof fn lemma_with_slashes(path: Seq<char>, ch: char)
    ensures
        !with_slashes(path).contains('\\'),
        !path.contains(ch) && ch != '/' ==> !with_slashes(path).contains(ch),
{
    let slashed = with_slashes(path);
    assert forall|i: int| 0 <= i < slashed.len() implies slashed[i] != '\\' && (!path.contains(ch)
        && ch != '/' ==> slashed[i] != ch) by {
        assert(path.contains(path[i]));
    }
}

/// Cutting off the front of a text brings in no character.
proof fn lemma_suffix_chars(path: Seq<char>, from: int, ch: char)
    requires
        0 <= from <= path.len(),
        !path.contains(ch),
    ensures
        !path.skip(from).contains(ch),
{
    assert forall|i: int| 0 <= i < path.skip(from).len() implies path.skip(from)[i] != ch by {
        assert(path.contains(path[from + i]));
    }
}

proof fn lemma_leading_chars(path: Seq<char>, lead: Seq<char>, ch: char)
    requires
        !path.contains(ch),
    ensures
        !without_leading(path, lead).contains(ch),
    decreases path.len(),
{
    if lead.len() > 0 && lead.is_prefix_of(path) {
        lemma_suffix_chars(path, lead.len() as int, ch);
        lemma_leading_chars(path.skip(lead.len() as int), lead, ch);
    }
}

proof fn lemma_optional_chars(path: Seq<char>, prefix: Seq<char>, ch: char)
    requires
        !path.contains(ch),
    ensures
        !without_optional(path, prefix).contains(ch),
        text::without_prefix(path, prefix) matches Some(rest) ==> !rest.contains(ch),
{
    if prefix.is_prefix_of(path) {
        lemma_suffix_chars(path, prefix.len() as int, ch);
    }
}

proof fn lemma_resolve_plain(path: Seq<char>, parents: Parents, ch: char)
    requires
        !path.contains(ch),
    ensures
        resolve(path, parents) matches Some(parts) ==> parts.len() > 0 && forall|i: int|
            0 <= i < parts.len() ==> is_plain(#[trigger] parts[i]) && !parts[i].contains(ch),
{
    lemma_split_chars(path, ch);
    lemma_walk_plain(split(path), parents, ch);
}

/// The output path for a source stays below the output directory: every part of it is the
/// plain name of something inside the directory before it.
pub proof fn source_stays_inside(path: Seq<char>)
    ensures
        source_parts(path) matches Some(parts) ==> parts.len() > 0 && all_plain(parts),
{
    lemma_with_slashes(path, '\\');
    let path = with_slashes(path);
    match in_virtual_root(path) {
        Some(rest) => {
            lemma_optional_chars(path, MODULE_NAME_PREFIX@, '\\');
            lemma_optional_chars(path, BUNFS_PREFIX_WIN_PUBLIC@, '\\');
            lemma_optional_chars(rest, "root/"@, '\\');
            lemma_resolve_plain(without_optional(rest, "root/"@), Parents::Clamped, '\\');
        },
        None => {
            lemma_leading_chars(path, seq!['/'], '\\');
            let inner = without_leading(path, seq!['/']);
            lemma_leading_chars(inner, seq!['.', '.', '/'], '\\');
            lemma_resolve_plain(
                without_leading(inner, seq!['.', '.', '/']),
                Parents::Forbidden,
                '\\',
            );
        },
    }
}

/// The output path for a module stays below the output directory, and no part of it holds a
/// zero character.
pub proof fn module_stays_inside(name: Seq<char>)
    ensures
        module_parts(name) matches Some(parts) ==> {
            &&& parts.len() > 0
            &&& all_plain(parts)
            &&& forall|i: int| 0 <= i < parts.len() ==> !(#[trigger] parts[i]).contains('\0')
        },
{
    if !name.contains('\0') {
        match in_module_root(name) {
            Some(rest) => {
                lemma_optional_chars(name, BUNFS_PREFIX_UNIX@, '\0');
                lemma_optional_chars(name, MODULE_NAME_PREFIX@, '\0');
                lemma_optional_chars(name, BUNFS_PREFIX_WIN@, '\0');
                lemma_optional_chars(name, BUNFS_PREFIX_WIN_PUBLIC@, '\0');
                lemma_optional_chars(rest, "root/"@, '\0');
                lemma_optional_chars(rest, "root\\"@, '\0');
                let inner = match text::without_prefix(rest, "root/"@) {
                    Some(inner) => inner,
                    None => without_optional(rest, "root\\"@),
                };
                lemma_with_slashes(inner, '\0');
                lemma_resolve_plain(with_slashes(inner), Parents::Clamped, '\\');
                lemma_resolve_plain(with_slashes(inner), Parents::Clamped, '\0');
            },
            None => {
                lemma_with_slashes(name, '\0');
                lemma_resolve_plain(with_slashes(name), Parents::Checked, '\\');
                lemma_resolve_plain(with_slashes(name), Parents::Checked, '\0');
            },
        }
    }
}

/// Text without a slash goes on with the last part of what precedes it.
proof fn lemma_split_append(before: Seq<char>, part: Seq<char>)
    requires
        !part.contains('/'),
    ensures
        split(before + part) == split(before).drop_last().push(split(before).last() + part),
    decreases part.len(),
{
    lemma_split_chars(before, '/');
    let parts = split(before);
    if part.len() == 0 {
        assert(before + part =~= before);
        assert(parts.last() + part =~= parts.last());
        assert(parts =~= parts.drop_last().push(parts.last()));
    } else {
        let shorter = part.drop_last();
        assert forall|i: int| 0 <= i < shorter.len() implies shorter[i] != '/' by {
            assert(part.contains(part[i]));
        }
        assert(part.contains(part.last()));
        lemma_split_append(before, shorter);
        assert((before + part).drop_last() =~= before + shorter);
        let longer = parts.drop_last().push(parts.last() + shorter);
        assert(longer.drop_last() =~= parts.drop_last());
        assert((parts.last() + shorter).push(part.last()) =~= parts.last() + part);
    }
}

/// Splitting undoes joining.
proof fn lemma_split_join(parts: Seq<Seq<char>>)
    requires
        parts.len() > 0,
        forall|i: int| 0 <= i < parts.len() ==> !(#[trigger] parts[i]).contains('/'),
    ensures
        split(join(parts)) == parts,
    decreases parts.len(),
{
    let last = parts[parts.len() - 1];
    if parts.len() == 1 {
        lemma_split_append(Seq::empty(), last);
        assert(Seq::<char>::empty() + last =~= last);
        assert(split(join(parts)) =~= parts);
    } else {
        let before = parts.drop_last();
        assert forall|i: int| 0 <= i < before.len() implies !(#[trigger] before[i]).contains(
            '/',
        ) by {
            assert(before[i] == parts[i]);
        }
        lemma_split_join(before);
        let slashed = join(before) + seq!['/'];
        assert(slashed.drop_last() =~= join(before));
        lemma_split_append(slashed, last);
        assert(Seq::<char>::empty() + last =~= last);
        assert(split(slashed).drop_last() =~= before);
        assert(split(join(parts)) =~= parts);
    }
}

/// A walk over plain parts keeps them all.
proof fn lemma_walk_keeps(parts: Seq<Seq<char>>, parents: Parents)
    requires
        all_plain(parts),
    ensures
        walk(parts, parents) == Some(parts),
    decreases parts.len(),
{
    if parts.len() == 0 {
        assert(parts =~= Seq::empty());
    } else {
        let before = parts.drop_last();
        assert forall|i: int| 0 <= i < before.len() implies is_plain(#[trigger] before[i])
            && !before[i].contains('\\') by {
            assert(before[i] == parts[i]);
        }
        lemma_walk_keeps(before, parents);
        assert(is_plain(parts[parts.len() - 1]));
        assert(before.push(parts.last()) =~= parts);
    }
}

/// Joined parts begin with the first part, and go on with a slash if there are more.
proof fn lemma_join_front(parts: Seq<Seq<char>>)
    requires
        parts.len() > 0,
    ensures
        parts[0].is_prefix_of(join(parts)),
        parts.len() > 1 ==> join(parts).len() > parts[0].len() && join(parts)[parts[0].len() as int]
            == '/',
        parts.len() == 1 ==> join(parts) == parts[0],
    decreases parts.len(),
{
    if parts.len() == 1 {
        assert(parts[0] =~= parts[0].subrange(0, parts[0].len() as int));
    } else {
        let before = parts.drop_last();
        lemma_join_front(before);
        assert(before[0] == parts[0]);
        assert(join(parts).subrange(0, parts[0].len() as int) =~= join(before).subrange(
            0,
            parts[0].len() as int,
        ));
    }
}

/// Joining brings in no character but the slash.
proof fn lemma_join_chars(parts: Seq<Seq<char>>, ch: char)
    requires
        ch != '/',
        forall|i: int| 0 <= i < parts.len() ==> !(#[trigger] parts[i]).contains(ch),
    ensures
        !join(parts).contains(ch),
    decreases parts.len(),
{
    if parts.len() > 1 {
        let before = parts.drop_last();
        assert forall|i: int| 0 <= i < before.len() implies !(#[trigger] before[i]).contains(ch) by {
            assert(before[i] == parts[i]);
        }
        lemma_join_chars(before, ch);
        let last = parts[parts.len() - 1];
        assert(!last.contains(ch));
        let path = join(parts);
        assert forall|i: int| 0 <= i < path.len() implies path[i] != ch by {
            if i < join(before).len() {
                assert(join(before).contains(join(before)[i]));
            } else if i > join(before).len() {
                assert(last.contains(last[i - join(before).len() - 1]));
            }
        }
    } else if parts.len() == 1 {
        assert(!parts[0].contains(ch));
    }
}

/// A path that is already plain is kept as it is, for sources and for modules.
pub proof fn plain_paths_are_kept(parts: Seq<Seq<char>>)
    requires
        parts.len() > 0,
        all_plain(parts),
    ensures
        source_path(join(parts)) == Some(join(parts)),
        !join(parts).contains('\0') ==> module_parts(join(parts)) == Some(parts),
{
    let path = join(parts);
    assert(is_plain(parts[0]) && !parts[0].contains('\\'));
    assert forall|i: int| 0 <= i < parts.len() implies !(#[trigger] parts[i]).contains('/')
        && !parts[i].contains(':') && !parts[i].contains('\\') by {
        assert(is_plain(parts[i]));
    }
    lemma_split_join(parts);
    lemma_walk_keeps(parts, Parents::Forbidden);
    lemma_walk_keeps(parts, Parents::Checked);
    lemma_join_front(parts);
    lemma_join_chars(parts, '\\');
    lemma_join_chars(parts, ':');
    let first = parts[0];
    assert(first == path.subrange(0, first.len() as int));
    assert(first.contains(first[0]));
    assert(path[0] == first[0]);
    assert(path[0] != '/' && path[0] != '\\');
    assert(with_slashes(path) =~= path) by {
        assert forall|i: int| 0 <= i < path.len() implies path[i] != '\\' by {
            assert(path.contains(path[i]));
        }
    }
    reveal_strlit("/$bunfs/");
    reveal_strlit("/$bunfs/root/");
    reveal_strlit("B:/~BUN/");
    reveal_strlit("B:\\~BUN\\");
    assert(!MODULE_NAME_PREFIX@.is_prefix_of(path)) by {
        if MODULE_NAME_PREFIX@.is_prefix_of(path) {
            assert(path.subrange(0, MODULE_NAME_PREFIX@.len() as int)[0] == path[0]);
        }
    }
    assert(!BUNFS_PREFIX_UNIX@.is_prefix_of(path)) by {
        if BUNFS_PREFIX_UNIX@.is_prefix_of(path) {
            assert(path.subrange(0, BUNFS_PREFIX_UNIX@.len() as int)[0] == path[0]);
        }
    }
    assert(!BUNFS_PREFIX_WIN@.is_prefix_of(path)) by {
        if BUNFS_PREFIX_WIN@.is_prefix_of(path) {
            assert(path.subrange(0, BUNFS_PREFIX_WIN@.len() as int)[1] == path[1]);
            assert(path.contains(path[1]));
        }
    }
    assert(!BUNFS_PREFIX_WIN_PUBLIC@.is_prefix_of(path)) by {
        if BUNFS_PREFIX_WIN_PUBLIC@.is_prefix_of(path) {
            assert(path.subrange(0, BUNFS_PREFIX_WIN_PUBLIC@.len() as int)[1] == path[1]);
            assert(path.contains(path[1]));
        }
    }
    let up = seq!['.', '.', '/'];
    assert(!seq!['/'].is_prefix_of(path)) by {
        if seq!['/'].is_prefix_of(path) {
            assert(path.subrange(0, 1)[0] == path[0]);
        }
    }
    assert(!up.is_prefix_of(path)) by {
        if up.is_prefix_of(path) {
            assert(path.subrange(0, 3)[0] == path[0]);
            assert(path.subrange(0, 3)[1] == path[1]);
            assert(path.subrange(0, 3)[2] == path[2]);
            if first.len() == 1 {
                assert(first =~= seq!['.']);
            } else if first.len() == 2 {
                assert(first =~= seq!['.', '.']);
            } else {
                assert(first[2] == path[2]);
                assert(first.contains(first[2]));
            }
        }
    }
}

/// Sanitizing an output path for a source once more changes nothing.
pub proof fn sanitizing_twice(path: Seq<char>)
    ensures
        source_path(path) matches Some(sanitized) ==> source_path(sanitized) == Some(sanitized),
{
    source_stays_inside(path);
    if let Some(parts) = source_parts(path) {
        plain_paths_are_kept(parts);
    }
}

/// A part in front of a path becomes its first part.
proof fn lemma_split_front(part: Seq<char>, path: Seq<char>)
    requires
        !part.contains('/'),
    ensures
        split(part + seq!['/'] + path) == seq![part] + split(path),
    decreases path.len(),
{
    let whole = part + seq!['/'] + path;
    lemma_split_chars(path, '/');
    if path.len() == 0 {
        assert(whole.drop_last() =~= part);
        lemma_split_append(Seq::empty(), part);
        assert(Seq::<char>::empty() + part =~= part);
        assert(split(whole) =~= seq![part] + split(path));
    } else {
        lemma_split_front(part, path.drop_last());
        lemma_split_chars(path.drop_last(), '/');
        assert(whole.drop_last() =~= part + seq!['/'] + path.drop_last());
        assert(split(whole) =~= seq![part] + split(path));
    }
}

/// A walk that starts with a step up from the top is the walk without that step.
proof fn lemma_walk_up_first(parts: Seq<Seq<char>>)
    ensures
        walk(seq![seq!['.', '.']] + parts, Parents::Clamped) == walk(parts, Parents::Clamped),
    decreases parts.len(),
{
    let longer = seq![seq!['.', '.']] + parts;
    if parts.len() == 0 {
        assert(longer.drop_last() =~= Seq::empty());
        assert(longer.last().len() == 2);
        assert(seq!['.'].len() == 1);
        assert(parts =~= Seq::empty());
    } else {
        lemma_walk_up_first(parts.drop_last());
        assert(longer.drop_last() =~= seq![seq!['.', '.']] + parts.drop_last());
    }
}

proof fn lemma_resolve_up_first(path: Seq<char>)
    ensures
        resolve(seq!['.', '.', '/'] + path, Parents::Clamped) == resolve(path, Parents::Clamped),
{
    lemma_split_front(seq!['.', '.'], path);
    assert(seq!['.', '.'] + seq!['/'] + path =~= seq!['.', '.', '/'] + path);
    lemma_walk_up_first(split(path));
}

/// Taking off a prefix undoes putting it in front.
proof fn lemma_prefix_off(prefix: Seq<char>, rest: Seq<char>)
    ensures
        text::without_prefix(prefix + rest, prefix) == Some(rest),
{
    assert(prefix =~= (prefix + rest).subrange(0, prefix.len() as int));
    assert((prefix + rest).skip(prefix.len() as int) =~= rest);
}

/// Replacing backslashes works on each half of a text by itself.
proof fn lemma_with_slashes_concat(a: Seq<char>, b: Seq<char>)
    ensures
        with_slashes(a + b) == with_slashes(a) + with_slashes(b),
{
    assert(with_slashes(a + b) =~= with_slashes(a) + with_slashes(b));
}

/// A source under Bun's virtual root.
proof fn lemma_source_in_root(rest: Seq<char>)
    ensures
        source_parts("/$bunfs/root/"@ + rest) == resolve(with_slashes(rest), Parents::Clamped),
{
    reveal_strlit("/$bunfs/root/");
    reveal_strlit("/$bunfs/");
    reveal_strlit("root/");
    let slashed = with_slashes(rest);
    lemma_with_slashes_concat("/$bunfs/root/"@, rest);
    assert(with_slashes("/$bunfs/root/"@) =~= MODULE_NAME_PREFIX@ + "root/"@);
    assert(MODULE_NAME_PREFIX@ + "root/"@ + slashed =~= MODULE_NAME_PREFIX@ + ("root/"@ + slashed));
    lemma_prefix_off(MODULE_NAME_PREFIX@, "root/"@ + slashed);
    lemma_prefix_off("root/"@, slashed);
}

/// A module under Bun's virtual root whose name does not repeat the root.
proof fn lemma_module_in_root(rest: Seq<char>)
    requires
        !"root/"@.is_prefix_of(rest),
        !"root\\"@.is_prefix_of(rest),
        !rest.contains('\0'),
    ensures
        module_parts("/$bunfs/root/"@ + rest) == resolve(with_slashes(rest), Parents::Clamped),
{
    reveal_strlit("/$bunfs/root/");
    let name = "/$bunfs/root/"@ + rest;
    assert forall|i: int| 0 <= i < name.len() implies name[i] != '\0' by {
        if i >= 13 {
            assert(rest.contains(rest[i - 13]));
        }
    }
    lemma_prefix_off("/$bunfs/root/"@, rest);
}

/// A step up from Bun's virtual root does nothing: `../` right behind the root does not change
/// where a source or a module goes. Left out for modules are names that repeat the root behind
/// it, which lose both copies of it.
pub proof fn steps_up_from_root(rest: Seq<char>)
    ensures
        source_path("/$bunfs/root/"@ + ("../"@ + rest)) == source_path("/$bunfs/root/"@ + rest),
        !"root/"@.is_prefix_of(rest) && !"root\\"@.is_prefix_of(rest) ==> module_parts(
            "/$bunfs/root/"@ + ("../"@ + rest),
        ) == module_parts("/$bunfs/root/"@ + rest),
{
    let longer = "../"@ + rest;
    reveal_strlit("../");
    assert("../"@ =~= seq!['.', '.', '/']);
    lemma_with_slashes_concat("../"@, rest);
    assert(with_slashes("../"@) =~= "../"@);
    lemma_resolve_up_first(with_slashes(rest));
    lemma_source_in_root(longer);
    lemma_source_in_root(rest);
    if rest.contains('\0') {
        reveal_strlit("/$bunfs/root/");
        let i = rest.index_of('\0');
        assert(("/$bunfs/root/"@ + rest)[13 + i] == '\0');
        assert(("/$bunfs/root/"@ + longer)[16 + i] == '\0');
    } else if !"root/"@.is_prefix_of(rest) && !"root\\"@.is_prefix_of(rest) {
        reveal_strlit("root/");
        reveal_strlit("root\\");
        assert(longer[0] == '.');
        assert(!"root/"@.is_prefix_of(longer)) by {
            if "root/"@.is_prefix_of(longer) {
                assert(longer.subrange(0, 5)[0] == 'r');
            }
        }
        assert(!"root\\"@.is_prefix_of(longer)) by {
            if "root\\"@.is_prefix_of(longer) {
                assert(longer.subrange(0, 5)[0] == 'r');
            }
        }
        assert forall|i: int| 0 <= i < longer.len() implies longer[i] != '\0' by {
            if i >= 3 {
                assert(rest.contains(rest[i - 3]));
            }
        }
        lemma_module_in_root(longer);
        lemma_module_in_root(rest);
    }
}

/// The last part that names something; empty parts and `.` do not count, and `..` is no name.
pub open spec fn last_component(parts: Seq<Seq<char>>) -> Option<Seq<char>>
    decreases parts.len(),
{
    if parts.len() == 0 {
        None
    } else if parts.last() == Seq::<char>::empty() || parts.last() == seq!['.'] {
        last_component(parts.drop_last())
    } else if parts.last() == seq!['.', '.'] {
        None
    } else {
        Some(parts.last())
    }
}

/// Whether `path` begins with a drive letter and a colon.
pub open spec fn has_drive(path: Seq<char>) -> bool {
    &&& path.len() >= 2
    &&& 'a' <= path[0] <= 'z' || 'A' <= path[0] <= 'Z'
    &&& path[1] == ':'
}

/// Whether Unix and Windows find the same file name in `path`: it has no backslash, does not begin
/// with two slashes, and if it begins with a drive, the drive does not stand in the file name.
pub open spec fn is_portable(path: Seq<char>) -> bool {
    &&& !path.contains('\\')
    &&& !seq!['/', '/'].is_prefix_of(path)
    &&& has_drive(path) ==> last_component(split(path)) != Some(split(path)[0])
}

/// The last component of a path, by `std::path::Path::file_name`. Claimed is that on a portable
/// path it is the last part between slashes that is neither empty nor `.`, that there is none if
/// this part is `..` or missing, and that on any path it is neither empty nor `..`. Other paths
/// are taken apart differently on Windows: there a backslash is a separator, and a drive or what
/// follows two separators is a prefix that belongs to no file name. So nothing else is claimed of
/// these.
#[verifier::external_body]
fn path_file_name(path: &str) -> (file_name: Option<String>)
    ensures
        is_portable(path@) ==> crate::format::optional_text(file_name) == last_component(
            split(path@),
        ),
        file_name matches Some(name) ==> name@.len() > 0 && name@ != seq!['.', '.'],
{
    std::path::Path::new(path).file_name().map(|name| name.to_string_lossy().into_owned())
}

/// The file name in a path whose separators are slashes or backslashes. What it is in a path that
/// begins with two separators, or whose last name is the first and begins with a drive (`C:a.ts`,
/// `C:/`), differs between Unix and Windows.
pub fn file_name_of(path: &str) -> (file_name: Option<String>)
    ensures
        is_portable(with_slashes(path@)) ==> crate::format::optional_text(file_name)
            == last_component(split(with_slashes(path@))),
        file_name matches Some(name) ==> name@.len() > 0 && name@ != seq!['.', '.'],
{
    let normalized = string_of(&slashed(&chars_of(path)));
    path_file_name(normalized.as_str())
}

/// A text without backslashes is left as it is.
proof fn lemma_no_backslash(text: Seq<char>)
    requires
        !text.contains('\\'),
    ensures
        with_slashes(text) == text,
{
    assert forall|i: int| 0 <= i < text.len() implies with_slashes(text)[i] == text[i] by {
        assert(text.contains(text[i]));
    }
    assert(with_slashes(text) =~= text);
}

/// The last component is one of the parts, and names something.
proof fn lemma_last_component(parts: Seq<Seq<char>>)
    ensures
        last_component(parts) matches Some(name) ==> parts.contains(name) && name.len() > 0 && name
            != seq!['.'] && name != seq!['.', '.'],
    decreases parts.len(),
{
    if parts.len() > 0 {
        let last = parts.last();
        let before = parts.drop_last();
        lemma_last_component(before);
        assert(parts[parts.len() - 1] == last);
        if last == Seq::<char>::empty() || last == seq!['.'] {
            if let Some(name) = last_component(before) {
                let i = choose|i: int| 0 <= i < before.len() && before[i] == name;
                assert(parts[i] == name);
            }
        } else if last.len() == 0 {
            assert(last =~= Seq::<char>::empty());
        }
    }
}

/// The first part of a path begins with what stands in front of the first slash.
proof fn lemma_first_part(path: Seq<char>, length: int)
    requires
        0 <= length <= path.len(),
        forall|i: int| 0 <= i < length ==> path[i] != '/',
    ensures
        split(path).len() >= 1,
        split(path)[0].len() >= length,
        split(path)[0].take(length) == path.take(length),
    decreases path.len(),
{
    lemma_split_chars(path, '/');
    if length < path.len() {
        let before = path.drop_last();
        lemma_first_part(before, length);
        assert(before.take(length) =~= path.take(length));
        assert(split(path)[0].take(length) =~= split(before)[0].take(length));
    } else {
        lemma_slashless(path);
    }
}

/// A text without slashes has one part.
proof fn lemma_slashless(text: Seq<char>)
    requires
        forall|i: int| 0 <= i < text.len() ==> text[i] != '/',
    ensures
        split(text) == seq![text],
{
    lemma_split_append(Seq::empty(), text);
    assert(Seq::<char>::empty() + text =~= text);
    assert(split(text) =~= seq![text]);
}

/// A path is portable if its separators are slashes, it does not begin with two, and its file name
/// has no colon. It may begin with a drive, or have colons in other parts.
pub proof fn names_without_colon_are_portable(path: Seq<char>)
    requires
        !path.contains('\\'),
        !seq!['/', '/'].is_prefix_of(path),
        last_component(split(path)) matches Some(name) ==> !name.contains(':'),
    ensures
        is_portable(path),
{
    if has_drive(path) {
        lemma_first_part(path, 2);
        let first = split(path)[0];
        assert(first.take(2)[1] == path.take(2)[1]);
        assert(first[1] == ':');
        assert(first.contains(first[1]));
    }
}

/// A part with a colon has no output path.
proof fn lemma_colon_refused(name: Seq<char>)
    requires
        !name.contains('/'),
        !name.contains('\\'),
        name.contains(':'),
    ensures
        source_path(name) is None,
{
    assert forall|i: int| 0 <= i < name.len() implies name[i] != '/' by {
        assert(name.contains(name[i]));
    }
    lemma_no_backslash(name);
    reveal_strlit("/$bunfs/");
    reveal_strlit("B:/~BUN/");
    assert(!MODULE_NAME_PREFIX@.is_prefix_of(name)) by {
        if MODULE_NAME_PREFIX@.is_prefix_of(name) {
            assert(name.subrange(0, MODULE_NAME_PREFIX@.len() as int)[0] == name[0]);
        }
    }
    assert(!BUNFS_PREFIX_WIN_PUBLIC@.is_prefix_of(name)) by {
        if BUNFS_PREFIX_WIN_PUBLIC@.is_prefix_of(name) {
            assert(name.subrange(0, BUNFS_PREFIX_WIN_PUBLIC@.len() as int)[2] == name[2]);
        }
    }
    assert(!seq!['/'].is_prefix_of(name)) by {
        if seq!['/'].is_prefix_of(name) {
            assert(name.subrange(0, 1)[0] == name[0]);
        }
    }
    assert(!seq!['.', '.', '/'].is_prefix_of(name)) by {
        if seq!['.', '.', '/'].is_prefix_of(name) {
            assert(name.subrange(0, 3)[2] == name[2]);
        }
    }
    lemma_slashless(name);
    let colon = choose|i: int| 0 <= i < name.len() && name[i] == ':';
    assert(name != Seq::<char>::empty());
    assert(name != seq!['.'] && name != seq!['.', '.']) by {
        assert(name[colon] == ':');
    }
    assert(split(name).drop_last() =~= Seq::empty());
    assert(walk(split(name).drop_last(), Parents::Forbidden) == Some(Seq::<Seq<char>>::empty()));
}

/// The file name in a path with slashes is kept by sanitizing if it has no colon, and is refused if
/// it has one.
pub proof fn file_name_is_kept(path: Seq<char>)
    requires
        !path.contains('\\'),
    ensures
        last_component(split(path)) matches Some(name) ==> if name.contains(':') {
            source_path(name) is None
        } else {
            all_plain(seq![name]) && source_path(name) == Some(name)
        },
{
    lemma_last_component(split(path));
    lemma_split_chars(path, '\\');
    if let Some(name) = last_component(split(path)) {
        let i = choose|i: int| 0 <= i < split(path).len() && split(path)[i] == name;
        assert(!name.contains('\\') && !name.contains('/'));
        if name.contains(':') {
            lemma_colon_refused(name);
        } else {
            assert(is_plain(name));
            plain_paths_are_kept(seq![name]);
            assert(join(seq![name]) == name);
        }
    }
}

/// A path of plain parts is portable, and its file name is the last of them.
pub proof fn plain_file_name(parts: Seq<Seq<char>>)
    requires
        parts.len() > 0,
        all_plain(parts),
    ensures
        with_slashes(join(parts)) == join(parts),
        is_portable(join(parts)),
        last_component(split(join(parts))) == Some(parts.last()),
{
    let path = join(parts);
    assert forall|i: int| 0 <= i < parts.len() implies !(#[trigger] parts[i]).contains('/')
        && !parts[i].contains(':') && !parts[i].contains('\\') by {
        assert(is_plain(parts[i]));
    }
    lemma_split_join(parts);
    lemma_join_chars(parts, '\\');
    lemma_join_chars(parts, ':');
    lemma_no_backslash(path);
    lemma_join_front(parts);
    assert(is_plain(parts[0]));
    assert(is_plain(parts[parts.len() - 1]));
    assert(parts[0].contains(parts[0][0]));
    assert(parts[0] == path.subrange(0, parts[0].len() as int));
    assert(path[0] == parts[0][0]);
    if seq!['/', '/'].is_prefix_of(path) {
        assert(path.subrange(0, 2)[0] == path[0]);
    }
}

/// The position of the last dot in a name; negative if there is none.
pub open spec fn last_dot(name: Seq<char>) -> int
    decreases name.len(),
{
    if name.len() == 0 || name.last() == '.' {
        name.len() - 1
    } else {
        last_dot(name.drop_last())
    }
}

/// Where the extension of a file name starts, its dot counted in: at the last dot, or at the
/// end if there is none or the name has no dot but a leading one.
pub open spec fn extension_start(name: Seq<char>) -> int {
    if name == seq!['.', '.'] || last_dot(name) <= 0 {
        name.len() as int
    } else {
        last_dot(name)
    }
}

/// A file name with `_` and a number in front of its extension. A path without a file name
/// gets them behind its end.
pub open spec fn numbered(path: Seq<char>, file_name: Option<Seq<char>>, number: nat) -> Seq<char> {
    match file_name {
        Some(name) => name.take(extension_start(name)) + seq!['_'] + text::digits(number, 10)
            + name.skip(extension_start(name)),
        None => path + seq!['_'] + text::digits(number, 10),
    }
}

/// Where the extension of a file name starts.
fn find_extension(name: &[char]) -> (start: usize)
    ensures
        start == extension_start(name@),
{
    proof {
        assert(name.len() == 2 && name[0] == '.' && name[1] == '.' ==> name@ =~= seq!['.', '.']);
    }
    if name.len() == 2 && name[0] == '.' && name[1] == '.' {
        return name.len();
    }
    let mut i: usize = name.len();
    assert(name@.take(i as int) =~= name@);
    while i > 0 && name[i - 1] != '.'
        invariant
            i <= name.len(),
            last_dot(name@) == last_dot(name@.take(i as int)),
        decreases i,
    {
        i = i - 1;
        assert(name@.take(i + 1).drop_last() =~= name@.take(i as int));
    }
    if i <= 1 {
        name.len()
    } else {
        i - 1
    }
}

/// The name for a file whose own name is taken, given that name and a number.
pub fn numbered_file_name(path: &str, file_name: &Option<String>, number: usize) -> (name: String)
    ensures
        name@ == numbered(path@, crate::format::optional_text(*file_name), number as nat),
{
    match file_name {
        Some(file_name) => {
            let chars = chars_of(file_name.as_str());
            let start: usize = find_extension(&chars);
            proof {
                lemma_last_dot(chars@);
            }
            let mut name = string_of(vstd::slice::slice_subrange(&chars, 0, start));
            name.push('_');
            text::push_digits(&mut name, number, 10);
            let extension = vstd::slice::slice_subrange(&chars, start, chars.len());
            text::push_all(&mut name, extension);
            assert(name@ =~= numbered(path@, Some(file_name@), number as nat));
            name
        },
        None => {
            let mut name = path.to_owned();
            name.push('_');
            text::push_digits(&mut name, number, 10);
            assert(name@ =~= numbered(path@, None, number as nat));
            name
        },
    }
}

/// The name to try after one that is taken; none after one that is free.
pub open spec fn next_step(
    relative_path: Seq<char>,
    file_name: Option<Seq<char>>,
    number: nat,
    taken: bool,
) -> Option<Seq<char>> {
    if taken {
        Some(numbered(relative_path, file_name, number))
    } else {
        None
    }
}

/// A free name is kept, whatever its number would be. After a taken one a numbered name is tried, and
/// no two numbers give the same, so that a free one is reached in the end.
pub proof fn names_are_tried_in_turn(
    relative_path: Seq<char>,
    file_name: Option<Seq<char>>,
    number: nat,
    other: nat,
)
    ensures
        next_step(relative_path, file_name, number, false) is None,
        next_step(relative_path, file_name, number, true) == Some(
            numbered(relative_path, file_name, number),
        ),
        number != other ==> next_step(relative_path, file_name, number, true) != next_step(
            relative_path,
            file_name,
            other,
            true,
        ),
{
    if number != other {
        numbered_names_differ(relative_path, file_name, number, other);
    }
}

/// What to do after a name for a file was tried, given whether it is taken: nothing more if it is
/// free, and else to try the name with the number.
pub fn next_name(
    relative_path: &str,
    file_name: &Option<String>,
    number: usize,
    taken: bool,
) -> (step: Option<String>)
    ensures
        crate::format::optional_text(step) == next_step(
            relative_path@,
            crate::format::optional_text(*file_name),
            number as nat,
            taken,
        ),
        crate::format::optional_text(step) == (if taken {
            Some(
                numbered(
                    relative_path@,
                    crate::format::optional_text(*file_name),
                    number as nat,
                ),
            )
        } else {
            None
        }),
{
    if taken {
        Some(numbered_file_name(relative_path, file_name, number))
    } else {
        None
    }
}

/// The last dot lies inside the name.
proof fn lemma_last_dot(name: Seq<char>)
    ensures
        -1 <= last_dot(name) < name.len(),
        0 <= extension_start(name) <= name.len(),
    decreases name.len(),
{
    if name.len() > 0 && name.last() != '.' {
        lemma_last_dot(name.drop_last());
    }
}

/// Different numbers give different names.
pub proof fn numbered_names_differ(
    path: Seq<char>,
    file_name: Option<Seq<char>>,
    number: nat,
    other: nat,
)
    requires
        number != other,
    ensures
        numbered(path, file_name, number) != numbered(path, file_name, other),
{
    text::lemma_decimal_value(number);
    text::lemma_decimal_value(other);
    let a = numbered(path, file_name, number);
    let b = numbered(path, file_name, other);
    if a == b {
        let (stem, extension) = match file_name {
            Some(name) => (
                name.take(extension_start(name)),
                name.skip(extension_start(name)),
            ),
            None => (path, Seq::empty()),
        };
        if let Some(name) = file_name {
            lemma_last_dot(name);
        }
        let from = stem.len() + 1;
        assert(a =~= stem + seq!['_'] + text::digits(number, 10) + extension);
        assert(b =~= stem + seq!['_'] + text::digits(other, 10) + extension);
        assert(text::digits(number, 10) =~= a.subrange(from as int, a.len() - extension.len()));
        assert(text::digits(other, 10) =~= b.subrange(from as int, b.len() - extension.len()));
    }
}

/// A text is plain if it holds a character other than a dot, and no separator or colon.
proof fn lemma_plain_with(text: Seq<char>, at: int, ch: char)
    requires
        0 <= at < text.len(),
        text[at] == ch,
        ch != '.',
        forall|i: int|
            0 <= i < text.len() ==> #[trigger] text[i] != '/' && text[i] != ':' && text[i] != '\\',
    ensures
        is_plain(text) && !text.contains('\\'),
{
    assert(text != seq!['.']) by {
        if text == seq!['.'] {
            assert(text[at] == '.');
        }
    }
    assert(text != seq!['.', '.']) by {
        if text == seq!['.', '.'] {
            assert(text[at] == '.');
        }
    }
}

/// A numbered name stands in the same directory as the name that it replaces: in a path of plain
/// parts it is a plain part too.
pub proof fn numbered_name_stays_inside(parts: Seq<Seq<char>>, number: nat)
    requires
        parts.len() > 0,
        all_plain(parts),
    ensures
        all_plain(
            parts.drop_last().push(numbered(join(parts), last_component(split(join(parts))), number)),
        ),
{
    plain_file_name(parts);
    let name = parts.last();
    let digits = text::digits(number, 10);
    let result = numbered(join(parts), Some(name), number);
    assert(is_plain(parts[parts.len() - 1]) && !parts[parts.len() - 1].contains('\\'));
    lemma_last_dot(name);
    text::lemma_decimal_value(number);
    let start = extension_start(name);
    assert(0 <= start < result.len() && result[start] == '_');
    assert forall|i: int| 0 <= i < result.len() implies #[trigger] result[i] != '/' && result[i]
        != ':' && result[i] != '\\' by {
        if i < start {
            assert(result[i] == name[i]);
            assert(name.contains(name[i]));
        } else if i == start {
            assert(result[i] == '_');
        } else if i < start + 1 + digits.len() {
            assert(result[i] == digits[i - start - 1]);
        } else {
            assert(result[i] == name[i - 1 - digits.len()]);
            assert(name.contains(name[i - 1 - digits.len()]));
        }
    }
    lemma_plain_with(result, start, '_');
    let replaced = parts.drop_last().push(result);
    assert forall|i: int| 0 <= i < replaced.len() implies is_plain(#[trigger] replaced[i])
        && !replaced[i].contains('\\') by {
        if i < parts.len() - 1 {
            assert(replaced[i] == parts[i]);
        }
    }
}

/// How a walk goes on depends only on where it stands.
proof fn lemma_walk_on(a: Seq<Seq<char>>, other: Seq<Seq<char>>, b: Seq<Seq<char>>, parents: Parents)
    requires
        walk(a, parents) == walk(other, parents),
    ensures
        walk(a + b, parents) == walk(other + b, parents),
    decreases b.len(),
{
    if b.len() == 0 {
        assert(a + b =~= a);
        assert(other + b =~= other);
    } else {
        lemma_walk_on(a, other, b.drop_last(), parents);
        assert((a + b).drop_last() =~= a + b.drop_last());
        assert((other + b).drop_last() =~= other + b.drop_last());
    }
}

/// A walk that has failed stays failed.
proof fn lemma_walk_failed(a: Seq<Seq<char>>, b: Seq<Seq<char>>, parents: Parents)
    requires
        walk(a, parents) is None,
    ensures
        walk(a + b, parents) is None,
    decreases b.len(),
{
    if b.len() == 0 {
        assert(a + b =~= a);
    } else {
        lemma_walk_failed(a, b.drop_last(), parents);
        assert((a + b).drop_last() =~= a + b.drop_last());
    }
}

proof fn lemma_walk_one(a: Seq<Seq<char>>, part: Seq<char>, parents: Parents)
    ensures
        walk(a + seq![part], parents) == (match walk(a, parents) {
            None => None,
            Some(kept) => enter(kept, part, parents),
        }),
{
    assert((a + seq![part]).drop_last() =~= a);
    assert((a + seq![part]).last() == part);
}

/// Whether a part leads nowhere.
pub open spec fn is_idle(part: Seq<char>) -> bool {
    part.len() == 0 || part == seq!['.']
}

proof fn lemma_idle(a: Seq<Seq<char>>, idle: Seq<char>, b: Seq<Seq<char>>, parents: Parents)
    requires
        is_idle(idle),
    ensures
        walk(a + seq![idle] + b, parents) == walk(a + b, parents),
{
    lemma_walk_one(a, idle, parents);
    assert(idle.len() == 0 ==> idle =~= Seq::<char>::empty());
    lemma_walk_on(a + seq![idle], a, b, parents);
}

proof fn lemma_back(
    a: Seq<Seq<char>>,
    part: Seq<char>,
    up: Seq<char>,
    b: Seq<Seq<char>>,
    parents: Parents,
)
    requires
        is_plain(part),
        up == seq!['.', '.'],
        parents != Parents::Forbidden,
    ensures
        walk(a + seq![part, up] + b, parents) == walk(a + b, parents),
{
    lemma_walk_one(a, part, parents);
    lemma_walk_one(a + seq![part], up, parents);
    assert(a + seq![part] + seq![up] =~= a + seq![part, up]);
    assert(part != Seq::<char>::empty());
    assert(up.len() == 2 && seq!['.'].len() == 1 && Seq::<char>::empty().len() == 0);
    if let Some(kept) = walk(a, parents) {
        assert(kept.push(part).drop_last() =~= kept);
    }
    lemma_walk_on(a + seq![part, up], a, b, parents);
}

proof fn lemma_colon(a: Seq<Seq<char>>, part: Seq<char>, b: Seq<Seq<char>>, parents: Parents)
    requires
        part.contains(':'),
    ensures
        walk(a + seq![part] + b, parents) is None,
{
    lemma_walk_one(a, part, parents);
    let i = choose|i: int| 0 <= i < part.len() && part[i] == ':';
    assert(part != Seq::<char>::empty());
    assert(part != seq!['.'] && part != seq!['.', '.']) by {
        assert(part[i] == ':');
    }
    lemma_walk_failed(a + seq![part], b, parents);
}

proof fn lemma_forbidden(a: Seq<Seq<char>>, up: Seq<char>, b: Seq<Seq<char>>)
    requires
        up == seq!['.', '.'],
    ensures
        walk(a + seq![up] + b, Parents::Forbidden) is None,
{
    lemma_walk_one(a, up, Parents::Forbidden);
    assert(up.len() == 2 && seq!['.'].len() == 1 && Seq::<char>::empty().len() == 0);
    lemma_walk_failed(a + seq![up], b, Parents::Forbidden);
}

/// Whether no part holds a separator.
pub open spec fn are_parts(parts: Seq<Seq<char>>) -> bool {
    forall|i: int|
        0 <= i < parts.len() ==> !(#[trigger] parts[i]).contains('/') && !parts[i].contains('\\')
}

/// What a path of these parts leads to.
proof fn lemma_resolve_join(parts: Seq<Seq<char>>, parents: Parents)
    requires
        are_parts(parts),
    ensures
        with_slashes(join(parts)) == join(parts),
        resolve(join(parts), parents) == (match walk(parts, parents) {
            Some(kept) if kept.len() > 0 => Some(kept),
            _ => None,
        }),
{
    lemma_join_chars(parts, '\\');
    lemma_no_backslash(join(parts));
    if parts.len() == 0 {
        assert(join(parts) =~= Seq::empty());
        assert(split(join(parts)) =~= seq![Seq::empty()]);
        lemma_walk_one(Seq::empty(), Seq::empty(), parents);
        assert(Seq::<Seq<char>>::empty() + seq![Seq::<char>::empty()] =~= seq![
            Seq::<char>::empty(),
        ]);
        assert(parts =~= Seq::empty());
    } else {
        assert forall|i: int| 0 <= i < parts.len() implies !(#[trigger] parts[i]).contains('/') by {
            assert(!parts[i].contains('/'));
        }
        lemma_split_join(parts);
    }
}

/// Paths are put together with a slash between each two parts, and taking them apart undoes that.
pub proof fn split_and_join(parts: Seq<Seq<char>>, part: Seq<char>)
    requires
        parts.len() > 0,
        forall|i: int| 0 <= i < parts.len() ==> !(#[trigger] parts[i]).contains('/'),
    ensures
        split(join(parts)) == parts,
        join(parts.push(part)) == join(parts) + seq!['/'] + part,
        join(seq![part]) == part,
{
    lemma_split_join(parts);
    assert(parts.push(part).drop_last() =~= parts);
}

/// Of a text, only the backslashes change, and each becomes a slash.
pub proof fn backslashes_become_slashes(text: Seq<char>, i: int)
    requires
        0 <= i < text.len(),
    ensures
        with_slashes(text).len() == text.len(),
        text[i] == '\\' ==> with_slashes(text)[i] == '/',
        text[i] != '\\' ==> with_slashes(text)[i] == text[i],
{
}

/// A source under the virtual root of Windows.
proof fn lemma_source_in_windows_root(root: Seq<char>, rest: Seq<char>)
    requires
        root == "B:/~BUN/root/"@ || root == "B:\\~BUN\\root\\"@,
    ensures
        source_parts(root + rest) == resolve(with_slashes(rest), Parents::Clamped),
{
    reveal_strlit("B:/~BUN/root/");
    reveal_strlit("B:\\~BUN\\root\\");
    reveal_strlit("B:/~BUN/");
    reveal_strlit("/$bunfs/");
    reveal_strlit("root/");
    let slashed = with_slashes(rest);
    lemma_with_slashes_concat(root, rest);
    let public = BUNFS_PREFIX_WIN_PUBLIC@;
    assert(with_slashes(root) =~= public + "root/"@);
    let path = with_slashes(root + rest);
    assert(path =~= public + ("root/"@ + slashed));
    assert(text::without_prefix(path, MODULE_NAME_PREFIX@) is None) by {
        if MODULE_NAME_PREFIX@.is_prefix_of(path) {
            assert(path.subrange(0, 8)[0] == path[0]);
        }
    }
    lemma_prefix_off(public, "root/"@ + slashed);
    lemma_prefix_off("root/"@, slashed);
}

/// A source right behind a virtual prefix, without the root's own name.
proof fn lemma_source_behind_prefix(prefix: Seq<char>, rest: Seq<char>)
    requires
        prefix == "/$bunfs/"@ || prefix == "B:/~BUN/"@ || prefix == "B:\\~BUN\\"@,
        !"root/"@.is_prefix_of(with_slashes(rest)),
    ensures
        source_parts(prefix + rest) == resolve(with_slashes(rest), Parents::Clamped),
{
    reveal_strlit("B:\\~BUN\\");
    reveal_strlit("B:/~BUN/");
    reveal_strlit("/$bunfs/");
    let slashed = with_slashes(rest);
    lemma_with_slashes_concat(prefix, rest);
    let path = with_slashes(prefix + rest);
    if prefix == "/$bunfs/"@ {
        assert(with_slashes(prefix) =~= MODULE_NAME_PREFIX@);
        lemma_prefix_off(MODULE_NAME_PREFIX@, slashed);
    } else {
        assert(with_slashes(prefix) =~= BUNFS_PREFIX_WIN_PUBLIC@);
        assert(text::without_prefix(path, MODULE_NAME_PREFIX@) is None) by {
            if MODULE_NAME_PREFIX@.is_prefix_of(path) {
                assert(path.subrange(0, 8)[0] == path[0]);
            }
        }
        lemma_prefix_off(BUNFS_PREFIX_WIN_PUBLIC@, slashed);
    }
}

/// The spellings of Bun's virtual root mean the same: a source goes to the same place behind each of
/// them, on Unix and on Windows, with slashes or backslashes, and with the root's own name left out
/// where what follows does not begin with it.
pub proof fn virtual_roots_agree_for_sources(rest: Seq<char>)
    ensures
        source_path("B:/~BUN/root/"@ + rest) == source_path("/$bunfs/root/"@ + rest),
        source_path("B:\\~BUN\\root\\"@ + rest) == source_path("/$bunfs/root/"@ + rest),
        !"root/"@.is_prefix_of(with_slashes(rest)) ==> {
            &&& source_path("/$bunfs/"@ + rest) == source_path("/$bunfs/root/"@ + rest)
            &&& source_path("B:/~BUN/"@ + rest) == source_path("/$bunfs/root/"@ + rest)
            &&& source_path("B:\\~BUN\\"@ + rest) == source_path("/$bunfs/root/"@ + rest)
        },
        source_path("/$bunfs/root/"@ + with_slashes(rest)) == source_path(
            "/$bunfs/root/"@ + rest,
        ),
{
    lemma_source_in_root(rest);
    lemma_source_in_windows_root("B:/~BUN/root/"@, rest);
    lemma_source_in_windows_root("B:\\~BUN\\root\\"@, rest);
    if !"root/"@.is_prefix_of(with_slashes(rest)) {
        lemma_source_behind_prefix("/$bunfs/"@, rest);
        lemma_source_behind_prefix("B:/~BUN/"@, rest);
        lemma_source_behind_prefix("B:\\~BUN\\"@, rest);
    }
    lemma_source_in_root(with_slashes(rest));
    assert(with_slashes(with_slashes(rest)) =~= with_slashes(rest));
}

/// A module behind a virtual prefix whose name does not begin with the root's own name there.
proof fn lemma_module_behind(prefix: Seq<char>, root: Seq<char>, rest: Seq<char>)
    requires
        prefix == "/$bunfs/"@ || prefix == "B:/~BUN/"@ || prefix == "B:\\~BUN\\"@,
        root == "root/"@ || root == "root\\"@ || root.len() == 0,
        !"root/"@.is_prefix_of(rest),
        !"root\\"@.is_prefix_of(rest),
        !rest.contains('\0'),
    ensures
        module_parts(prefix + (root + rest)) == resolve(with_slashes(rest), Parents::Clamped),
{
    reveal_strlit("B:\\~BUN\\");
    reveal_strlit("B:/~BUN/");
    reveal_strlit("/$bunfs/");
    reveal_strlit("/$bunfs/root/");
    reveal_strlit("root/");
    reveal_strlit("root\\");
    let inner = root + rest;
    let name = prefix + inner;
    assert forall|i: int| 0 <= i < name.len() implies name[i] != '\0' by {
        if i >= 8 + root.len() {
            assert(rest.contains(rest[i - 8 - root.len()]));
            assert(name[i] == rest[i - 8 - root.len()]);
        }
    }
    lemma_prefix_off(prefix, inner);
    lemma_prefix_off(root, rest);
    if root.len() == 0 {
        assert(inner =~= rest);
    }
    if prefix == "/$bunfs/"@ {
        if "/$bunfs/root/"@.is_prefix_of(name) {
            assert forall|i: int| 0 <= i < 5 implies inner[i] == "root/"@[i] by {
                assert(name.subrange(0, 13)[8 + i] == name[8 + i]);
            }
            if root.len() == 0 {
                assert("root/"@ =~= rest.subrange(0, 5));
            } else {
                assert(root =~= "root/"@);
                assert(name =~= "/$bunfs/root/"@ + rest);
                lemma_prefix_off("/$bunfs/root/"@, rest);
            }
        }
    } else {
        assert(text::without_prefix(name, "/$bunfs/root/"@) is None) by {
            if "/$bunfs/root/"@.is_prefix_of(name) {
                assert(name.subrange(0, 13)[0] == name[0]);
            }
        }
        assert(text::without_prefix(name, "/$bunfs/"@) is None) by {
            if "/$bunfs/"@.is_prefix_of(name) {
                assert(name.subrange(0, 8)[0] == name[0]);
            }
        }
        if prefix == "B:/~BUN/"@ {
            assert(text::without_prefix(name, "B:\\~BUN\\"@) is None) by {
                if "B:\\~BUN\\"@.is_prefix_of(name) {
                    assert(name.subrange(0, 8)[2] == name[2]);
                }
            }
        }
    }
    if root =~= "root\\"@ {
        assert(text::without_prefix(inner, "root/"@) is None) by {
            if "root/"@.is_prefix_of(inner) {
                assert(inner.subrange(0, 5)[4] == inner[4]);
            }
        }
    }
}

/// A module goes to the same place behind each spelling of Bun's virtual root, and to the place where
/// a source of that name goes. Where the root's own name is repeated behind the Unix root, a module
/// loses both copies of it; other names that repeat it are left out.
pub proof fn virtual_roots_agree_for_modules(rest: Seq<char>)
    requires
        !"root/"@.is_prefix_of(rest),
        !"root\\"@.is_prefix_of(rest),
        !rest.contains('\0'),
    ensures
        module_parts("/$bunfs/root/"@ + rest) == source_parts("/$bunfs/root/"@ + rest),
        module_parts("B:/~BUN/"@ + ("root/"@ + rest)) == source_parts("/$bunfs/root/"@ + rest),
        module_parts("B:\\~BUN\\"@ + ("root\\"@ + rest)) == source_parts("/$bunfs/root/"@ + rest),
        module_parts("B:\\~BUN\\"@ + ("root/"@ + rest)) == source_parts("/$bunfs/root/"@ + rest),
        module_parts("/$bunfs/"@ + rest) == source_parts("/$bunfs/root/"@ + rest),
        module_parts("B:/~BUN/"@ + rest) == source_parts("/$bunfs/root/"@ + rest),
        module_parts("B:\\~BUN\\"@ + rest) == source_parts("/$bunfs/root/"@ + rest),
        module_parts("/$bunfs/root/"@ + ("root/"@ + rest)) == source_parts("/$bunfs/root/"@ + rest),
{
    lemma_source_in_root(rest);
    lemma_module_in_root(rest);
    lemma_prefix_off("/$bunfs/root/"@, "root/"@ + rest);
    lemma_prefix_off("root/"@, rest);
    reveal_strlit("/$bunfs/root/");
    reveal_strlit("root/");
    let doubled = "/$bunfs/root/"@ + ("root/"@ + rest);
    assert forall|i: int| 0 <= i < doubled.len() implies doubled[i] != '\0' by {
        if i >= 18 {
            assert(rest.contains(rest[i - 18]));
        }
    }
    lemma_module_behind("B:/~BUN/"@, "root/"@, rest);
    lemma_module_behind("B:\\~BUN\\"@, "root\\"@, rest);
    lemma_module_behind("B:\\~BUN\\"@, "root/"@, rest);
    lemma_module_behind("/$bunfs/"@, Seq::empty(), rest);
    lemma_module_behind("B:/~BUN/"@, Seq::empty(), rest);
    lemma_module_behind("B:\\~BUN\\"@, Seq::empty(), rest);
    assert(Seq::<char>::empty() + rest =~= rest);
}

/// Where the parts of a path behind Bun's virtual root lead.
pub open spec fn behind_root(parts: Seq<Seq<char>>) -> Option<Seq<Seq<char>>> {
    source_parts("/$bunfs/root/"@ + join(parts))
}

proof fn lemma_behind_root(parts: Seq<Seq<char>>)
    requires
        are_parts(parts),
    ensures
        behind_root(parts) == (match walk(parts, Parents::Clamped) {
            Some(kept) if kept.len() > 0 => Some(kept),
            _ => None,
        }),
{
    lemma_source_in_root(join(parts));
    lemma_resolve_join(parts, Parents::Clamped);
}

/// How a path behind Bun's virtual root is followed. Plain parts are kept. Empty parts and `.` change
/// nothing, wherever they stand. `..` takes back the plain part in front of it, and changes nothing
/// at the root. A colon anywhere makes the path invalid, and so does a path that leads nowhere.
pub proof fn paths_behind_root(
    a: Seq<Seq<char>>,
    idle: Seq<char>,
    part: Seq<char>,
    b: Seq<Seq<char>>,
)
    requires
        are_parts(a),
        are_parts(b),
        is_idle(idle),
        !part.contains('/'),
        !part.contains('\\'),
    ensures
        a.len() > 0 && all_plain(a) ==> behind_root(a) == Some(a),
        behind_root(a + seq![idle] + b) == behind_root(a + b),
        is_plain(part) ==> behind_root(a + seq![part, seq!['.', '.']] + b) == behind_root(a + b),
        behind_root(seq![seq!['.', '.']] + b) == behind_root(b),
        part.contains(':') ==> behind_root(a + seq![part] + b) is None,
        behind_root(Seq::empty()) is None,
{
    let up = seq!['.', '.'];
    assert(!idle.contains('/') && !idle.contains('\\'));
    assert(!up.contains('/') && !up.contains('\\'));
    assert(are_parts(a + b));
    assert(are_parts(a + seq![idle] + b));
    assert(are_parts(a + seq![part, up] + b));
    assert(are_parts(a + seq![part] + b));
    assert(are_parts(seq![up] + b));
    lemma_behind_root(a);
    lemma_behind_root(b);
    lemma_behind_root(a + b);
    lemma_behind_root(a + seq![idle] + b);
    lemma_behind_root(a + seq![part, up] + b);
    lemma_behind_root(a + seq![part] + b);
    lemma_behind_root(seq![up] + b);
    lemma_behind_root(Seq::empty());
    lemma_idle(a, idle, b, Parents::Clamped);
    if is_plain(part) {
        lemma_back(a, part, up, b, Parents::Clamped);
    }
    lemma_walk_up_first(b);
    if part.contains(':') {
        lemma_colon(a, part, b, Parents::Clamped);
    }
    if all_plain(a) {
        lemma_walk_keeps(a, Parents::Clamped);
    }
}

/// Whether a path with slashes lies under Bun's virtual root.
pub open spec fn is_virtual(path: Seq<char>) -> bool {
    "/$bunfs/"@.is_prefix_of(path) || "B:/~BUN/"@.is_prefix_of(path)
}

/// An ordinary path that begins with neither a slash nor a step up.
proof fn lemma_ordinary_source(path: Seq<char>)
    requires
        !is_virtual(with_slashes(path)),
        !seq!['/'].is_prefix_of(with_slashes(path)),
        !seq!['.', '.', '/'].is_prefix_of(with_slashes(path)),
    ensures
        source_parts(path) == resolve(with_slashes(path), Parents::Forbidden),
{
}

/// What an ordinary path of a source loses in front: slashes, and behind them steps up.
pub proof fn leading_steps_are_dropped(path: Seq<char>)
    requires
        !is_virtual(with_slashes(path)),
    ensures
        !is_virtual(with_slashes("/"@ + path)) ==> source_path("/"@ + path) == source_path(path),
        !seq!['/'].is_prefix_of(with_slashes(path)) ==> source_path("../"@ + path) == source_path(
            path,
        ),
        source_path(with_slashes(path)) == source_path(path),
{
    reveal_strlit("/");
    reveal_strlit("../");
    reveal_strlit("/$bunfs/");
    reveal_strlit("B:/~BUN/");
    let slashed = with_slashes(path);
    assert(with_slashes(slashed) =~= slashed);
    lemma_with_slashes_concat("/"@, path);
    lemma_with_slashes_concat("../"@, path);
    assert(with_slashes("/"@) =~= seq!['/']);
    assert(with_slashes("../"@) =~= seq!['.', '.', '/']);
    let up = seq!['.', '.', '/'];
    lemma_prefix_off(seq!['/'], slashed);
    assert(without_leading(seq!['/'] + slashed, seq!['/']) == without_leading(slashed, seq!['/']));
    if !seq!['/'].is_prefix_of(slashed) {
        let longer = up + slashed;
        lemma_prefix_off(up, slashed);
        assert(!seq!['/'].is_prefix_of(longer)) by {
            if seq!['/'].is_prefix_of(longer) {
                assert(longer.subrange(0, 1)[0] == longer[0]);
            }
        }
        assert(without_leading(longer, seq!['/']) == longer);
        assert(without_leading(slashed, seq!['/']) == slashed);
        assert(without_leading(longer, up) == without_leading(slashed, up));
        assert(!is_virtual(longer)) by {
            if "/$bunfs/"@.is_prefix_of(longer) {
                assert(longer.subrange(0, 8)[0] == longer[0]);
            }
            if "B:/~BUN/"@.is_prefix_of(longer) {
                assert(longer.subrange(0, 8)[0] == longer[0]);
            }
        }
    }
}

/// What a path of parts begins with, if its first part is plain.
proof fn lemma_plain_front(first: Seq<char>, rest: Seq<Seq<char>>)
    requires
        is_plain(first),
        !first.contains('\\'),
        are_parts(rest),
    ensures
        are_parts(seq![first] + rest),
        !is_virtual(join(seq![first] + rest)),
        !seq!['/'].is_prefix_of(join(seq![first] + rest)),
        !seq!['.', '.', '/'].is_prefix_of(join(seq![first] + rest)),
        join(seq![first] + rest).len() > 0,
        join(seq![first] + rest)[0] != '/',
        join(seq![first] + rest)[0] != '\\',
        !"/$bunfs/root/"@.is_prefix_of(join(seq![first] + rest)),
        !"B:\\~BUN\\"@.is_prefix_of(join(seq![first] + rest)),
{
    let parts = seq![first] + rest;
    let path = join(parts);
    assert forall|i: int| 0 <= i < parts.len() implies !(#[trigger] parts[i]).contains('/')
        && !parts[i].contains('\\') by {
        if i > 0 {
            assert(parts[i] == rest[i - 1]);
        }
    }
    lemma_join_front(parts);
    assert(parts[0] == first);
    assert(path.subrange(0, first.len() as int) == first);
    assert(path[0] == first[0]);
    assert(first.contains(first[0]));
    assert forall|i: int| 0 <= i < first.len() implies path[i] == first[i] by {
        assert(path.subrange(0, first.len() as int)[i] == path[i]);
    }
    reveal_strlit("/$bunfs/");
    reveal_strlit("/$bunfs/root/");
    reveal_strlit("B:/~BUN/");
    reveal_strlit("B:\\~BUN\\");
    if "/$bunfs/"@.is_prefix_of(path) {
        assert(path.subrange(0, 8)[0] == path[0]);
    }
    if "/$bunfs/root/"@.is_prefix_of(path) {
        assert(path.subrange(0, 13)[0] == path[0]);
    }
    if seq!['/'].is_prefix_of(path) {
        assert(path.subrange(0, 1)[0] == path[0]);
    }
    if "B:/~BUN/"@.is_prefix_of(path) {
        assert(path.subrange(0, 8)[1] == path[1]);
        if first.len() >= 2 {
            assert(first.contains(first[1]));
        } else {
            assert(path[1] == '/');
        }
    }
    if "B:\\~BUN\\"@.is_prefix_of(path) {
        assert(path.subrange(0, 8)[1] == path[1]);
        if first.len() >= 2 {
            assert(first.contains(first[1]));
        } else {
            assert(path[1] == '/');
        }
    }
    if seq!['.', '.', '/'].is_prefix_of(path) {
        assert(path.subrange(0, 3)[0] == path[0]);
        assert(path.subrange(0, 3)[1] == path[1]);
        assert(path.subrange(0, 3)[2] == path[2]);
        if first.len() == 1 {
            assert(first =~= seq!['.']);
        } else if first.len() == 2 {
            assert(first =~= seq!['.', '.']);
        } else {
            assert(first.contains(first[2]));
        }
    }
}

proof fn lemma_ordinary_parts(first: Seq<char>, rest: Seq<Seq<char>>)
    requires
        is_plain(first),
        !first.contains('\\'),
        are_parts(rest),
    ensures
        source_parts(join(seq![first] + rest)) == (match walk(
            seq![first] + rest,
            Parents::Forbidden,
        ) {
            Some(kept) if kept.len() > 0 => Some(kept),
            _ => None,
        }),
        !join(seq![first] + rest).contains('\0') ==> module_parts(join(seq![first] + rest)) == (
        match walk(seq![first] + rest, Parents::Checked) {
            Some(kept) if kept.len() > 0 => Some(kept),
            _ => None,
        }),
{
    lemma_plain_front(first, rest);
    lemma_resolve_join(seq![first] + rest, Parents::Forbidden);
    lemma_resolve_join(seq![first] + rest, Parents::Checked);
    lemma_ordinary_source(join(seq![first] + rest));
}

/// How an ordinary path of a source is followed, once it begins with a plain part. Empty parts and
/// `.` change nothing. `..` makes it invalid, wherever it stands, and so does a colon. Plain parts are
/// kept.
pub proof fn ordinary_source_paths(
    first: Seq<char>,
    a: Seq<Seq<char>>,
    idle: Seq<char>,
    part: Seq<char>,
    b: Seq<Seq<char>>,
)
    requires
        is_plain(first),
        !first.contains('\\'),
        are_parts(a),
        are_parts(b),
        is_idle(idle),
        !part.contains('/'),
        !part.contains('\\'),
    ensures
        all_plain(a) ==> source_parts(join(seq![first] + a)) == Some(seq![first] + a),
        source_parts(join(seq![first] + (a + seq![idle] + b))) == source_parts(
            join(seq![first] + (a + b)),
        ),
        source_parts(join(seq![first] + (a + seq![seq!['.', '.']] + b))) is None,
        part.contains(':') ==> source_parts(join(seq![first] + (a + seq![part] + b))) is None,
{
    let up = seq!['.', '.'];
    assert(!idle.contains('/') && !idle.contains('\\'));
    assert(!up.contains('/') && !up.contains('\\'));
    assert(are_parts(a + b));
    assert(are_parts(a + seq![idle] + b));
    assert(are_parts(a + seq![up] + b));
    assert(are_parts(a + seq![part] + b));
    lemma_ordinary_parts(first, a);
    lemma_ordinary_parts(first, a + b);
    lemma_ordinary_parts(first, a + seq![idle] + b);
    lemma_ordinary_parts(first, a + seq![up] + b);
    lemma_ordinary_parts(first, a + seq![part] + b);
    let front = seq![first] + a;
    assert(seq![first] + (a + b) =~= front + b);
    assert(seq![first] + (a + seq![idle] + b) =~= front + seq![idle] + b);
    assert(seq![first] + (a + seq![up] + b) =~= front + seq![up] + b);
    assert(seq![first] + (a + seq![part] + b) =~= front + seq![part] + b);
    lemma_idle(front, idle, b, Parents::Forbidden);
    lemma_forbidden(front, up, b);
    if part.contains(':') {
        lemma_colon(front, part, b, Parents::Forbidden);
    }
    if all_plain(a) {
        assert forall|i: int| 0 <= i < front.len() implies is_plain(#[trigger] front[i])
            && !front[i].contains('\\') by {
            if i > 0 {
                assert(front[i] == a[i - 1]);
            }
        }
        lemma_walk_keeps(front, Parents::Forbidden);
    }
}

/// How the name of a module that is not under Bun's virtual root is followed, once it begins with a
/// plain part. Empty parts and `.` change nothing, `..` takes back the plain part in front of it, and
/// one that would lead out of the output directory makes the name invalid, as does a colon.
pub proof fn ordinary_module_paths(
    first: Seq<char>,
    a: Seq<Seq<char>>,
    idle: Seq<char>,
    part: Seq<char>,
    b: Seq<Seq<char>>,
)
    requires
        is_plain(first),
        !first.contains('\\'),
        are_parts(a),
        are_parts(b),
        is_idle(idle),
        !part.contains('/'),
        !part.contains('\\'),
        !part.contains('\0'),
        !join(seq![first] + a).contains('\0'),
        !join(seq![first] + (a + b)).contains('\0'),
        !join(seq![first] + (a + seq![idle] + b)).contains('\0'),
        !join(seq![first] + (a + seq![part, seq!['.', '.']] + b)).contains('\0'),
        !join(seq![first] + (a + seq![part] + b)).contains('\0'),
        !join(seq![first] + (seq![seq!['.', '.'], seq!['.', '.']] + b)).contains('\0'),
    ensures
        all_plain(a) ==> module_parts(join(seq![first] + a)) == Some(seq![first] + a),
        module_parts(join(seq![first] + (a + seq![idle] + b))) == module_parts(
            join(seq![first] + (a + b)),
        ),
        is_plain(part) ==> module_parts(
            join(seq![first] + (a + seq![part, seq!['.', '.']] + b)),
        ) == module_parts(join(seq![first] + (a + b))),
        module_parts(join(seq![first] + (seq![seq!['.', '.'], seq!['.', '.']] + b))) is None,
        part.contains(':') ==> module_parts(join(seq![first] + (a + seq![part] + b))) is None,
{
    let up = seq!['.', '.'];
    assert(!idle.contains('/') && !idle.contains('\\'));
    assert(!up.contains('/') && !up.contains('\\'));
    assert(are_parts(a + b));
    assert(are_parts(a + seq![idle] + b));
    assert(are_parts(a + seq![part, up] + b));
    assert(are_parts(a + seq![part] + b));
    assert(are_parts(seq![up, up] + b));
    lemma_ordinary_parts(first, a);
    lemma_ordinary_parts(first, a + b);
    lemma_ordinary_parts(first, a + seq![idle] + b);
    lemma_ordinary_parts(first, a + seq![part, up] + b);
    lemma_ordinary_parts(first, a + seq![part] + b);
    lemma_ordinary_parts(first, seq![up, up] + b);
    let front = seq![first] + a;
    assert(seq![first] + (a + b) =~= front + b);
    assert(seq![first] + (a + seq![idle] + b) =~= front + seq![idle] + b);
    assert(seq![first] + (a + seq![part, up] + b) =~= front + seq![part, up] + b);
    assert(seq![first] + (a + seq![part] + b) =~= front + seq![part] + b);
    lemma_idle(front, idle, b, Parents::Checked);
    if is_plain(part) {
        lemma_back(front, part, up, b, Parents::Checked);
    }
    if part.contains(':') {
        lemma_colon(front, part, b, Parents::Checked);
    }
    if all_plain(a) {
        assert forall|i: int| 0 <= i < front.len() implies is_plain(#[trigger] front[i])
            && !front[i].contains('\\') by {
            if i > 0 {
                assert(front[i] == a[i - 1]);
            }
        }
        lemma_walk_keeps(front, Parents::Checked);
    }
    let nothing = Seq::<Seq<char>>::empty();
    lemma_back(nothing, first, up, nothing, Parents::Checked);
    assert(nothing + seq![first, up] + nothing =~= seq![first, up]);
    assert(nothing + nothing =~= nothing);
    lemma_walk_one(seq![first, up], up, Parents::Checked);
    assert(up.len() == 2 && seq!['.'].len() == 1 && Seq::<char>::empty().len() == 0);
    assert(seq![first, up] + seq![up] =~= seq![first, up, up]);
    lemma_walk_failed(seq![first, up, up], b, Parents::Checked);
    assert(seq![first] + (seq![up, up] + b) =~= seq![first, up, up] + b);
}

/// Which names of modules are refused at once: those with a zero character, and those that are
/// absolute without lying under Bun's virtual root. Backslashes count as slashes.
pub proof fn refused_module_names(name: Seq<char>)
    ensures
        name.contains('\0') ==> module_parts(name) is None,
        name.len() > 0 && (name[0] == '/' || name[0] == '\\') && !"/$bunfs/"@.is_prefix_of(name)
            ==> module_parts(name) is None,
        !is_virtual(name) && !"B:\\~BUN\\"@.is_prefix_of(name) && !is_virtual(with_slashes(name))
            ==> module_parts(with_slashes(name)) == module_parts(name),
        module_parts(Seq::empty()) is None,
{
    reveal_strlit("/$bunfs/");
    reveal_strlit("/$bunfs/root/");
    reveal_strlit("B:/~BUN/");
    reveal_strlit("B:\\~BUN\\");
    lemma_unix_root(name);
    lemma_unix_root(with_slashes(name));
    if name.len() > 0 && (name[0] == '/' || name[0] == '\\') {
        if "B:/~BUN/"@.is_prefix_of(name) {
            assert(name.subrange(0, 8)[0] == name[0]);
        }
        if "B:\\~BUN\\"@.is_prefix_of(name) {
            assert(name.subrange(0, 8)[0] == name[0]);
        }
    }
    let slashed = with_slashes(name);
    assert(with_slashes(slashed) =~= slashed);
    if "B:\\~BUN\\"@.is_prefix_of(slashed) {
        assert(slashed.subrange(0, 8)[2] == slashed[2]);
    }
    assert(slashed.contains('\0') == name.contains('\0')) by {
        if name.contains('\0') {
            let i = name.index_of('\0');
            assert(slashed[i] == '\0');
        }
        if slashed.contains('\0') {
            let i = slashed.index_of('\0');
            assert(name[i] == '\0');
        }
    }
    let nothing = Seq::<char>::empty();
    lemma_unix_root(nothing);
    assert(with_slashes(nothing) =~= nothing);
    let none = Seq::<Seq<char>>::empty();
    lemma_resolve_join(none, Parents::Checked);
    assert(join(none) =~= nothing);
}

proof fn lemma_unix_root(name: Seq<char>)
    ensures
        "/$bunfs/root/"@.is_prefix_of(name) ==> "/$bunfs/"@.is_prefix_of(name),
{
    reveal_strlit("/$bunfs/");
    reveal_strlit("/$bunfs/root/");
    if "/$bunfs/root/"@.is_prefix_of(name) {
        assert forall|i: int| 0 <= i < 8 implies name[i] == "/$bunfs/"@[i] by {
            assert(name.subrange(0, 13)[i] == name[i]);
        }
        assert("/$bunfs/"@ =~= name.subrange(0, 8));
    }
}

/// The file name in a path of parts: the last part, unless that leads nowhere and is passed over.
/// Behind `..`, and in a path that leads nowhere, there is none.
pub proof fn last_names(parts: Seq<Seq<char>>, last: Seq<char>)
    ensures
        is_idle(last) ==> last_component(parts.push(last)) == last_component(parts),
        last == seq!['.', '.'] ==> last_component(parts.push(last)) is None,
        !is_idle(last) && last != seq!['.', '.'] ==> last_component(parts.push(last)) == Some(last),
        last_component(Seq::empty()) is None,
{
    assert(parts.push(last).drop_last() =~= parts);
    assert(last.len() == 0 ==> last =~= Seq::<char>::empty());
    assert(seq!['.', '.'].len() == 2 && seq!['.'].len() == 1);
}

/// How a taken file name is numbered: an underscore and the number stand in front of the last dot, or
/// at the end if there is no dot behind the first character.
pub proof fn numbers_in_names(
    path: Seq<char>,
    stem: Seq<char>,
    extension: Seq<char>,
    number: nat,
)
    requires
        !extension.contains('.'),
    ensures
        stem.len() > 0 && stem + seq!['.'] + extension != seq!['.', '.'] ==> exists|digits: Seq<
            char,
        >| #[trigger]
            text::spells(digits, number as int, 10) && numbered(
                path,
                Some(stem + seq!['.'] + extension),
                number,
            ) == stem + seq!['_'] + digits + seq!['.'] + extension,
        exists|digits: Seq<char>| #[trigger]
            text::spells(digits, number as int, 10) && numbered(path, Some(extension), number)
                == extension + seq!['_'] + digits,
        exists|digits: Seq<char>| #[trigger]
            text::spells(digits, number as int, 10) && numbered(
                path,
                Some(seq!['.'] + extension),
                number,
            ) == seq!['.'] + extension + seq!['_'] + digits,
        exists|digits: Seq<char>| #[trigger]
            text::spells(digits, number as int, 10) && numbered(path, None, number) == path + seq![
                '_',
            ] + digits,
{
    let digits = text::digits(number, 10);
    text::digits_spell(number, 10);
    assert(text::spells(digits, number as int, 10));
    lemma_last_dot_behind(stem, extension);
    lemma_last_dot_behind(Seq::empty(), extension);
    let name = stem + seq!['.'] + extension;
    if stem.len() > 0 && name != seq!['.', '.'] {
        assert(name.take(stem.len() as int) =~= stem);
        assert(name.skip(stem.len() as int) =~= seq!['.'] + extension);
        assert(numbered(path, Some(name), number) =~= stem + seq!['_'] + digits + seq!['.']
            + extension);
    }
    assert(extension != seq!['.', '.']) by {
        if extension == seq!['.', '.'] {
            assert(extension[0] == '.');
        }
    }
    lemma_no_dot(extension);
    assert(extension.take(extension.len() as int) =~= extension);
    assert(extension.skip(extension.len() as int) =~= Seq::empty());
    assert(numbered(path, Some(extension), number) =~= extension + seq!['_'] + digits);
    let hidden = seq!['.'] + extension;
    assert(Seq::<char>::empty() + seq!['.'] + extension =~= hidden);
    assert(hidden.take(hidden.len() as int) =~= hidden);
    assert(hidden.skip(hidden.len() as int) =~= Seq::empty());
    assert(numbered(path, Some(hidden), number) =~= hidden + seq!['_'] + digits);
}

proof fn lemma_no_dot(text: Seq<char>)
    requires
        !text.contains('.'),
    ensures
        last_dot(text) == -1,
    decreases text.len(),
{
    if text.len() > 0 {
        assert(text.contains(text[text.len() - 1]));
        let before = text.drop_last();
        assert forall|i: int| 0 <= i < before.len() implies before[i] != '.' by {
            assert(text.contains(text[i]));
        }
        lemma_no_dot(before);
    }
}

proof fn lemma_last_dot_behind(stem: Seq<char>, extension: Seq<char>)
    requires
        !extension.contains('.'),
    ensures
        last_dot(stem + seq!['.'] + extension) == stem.len(),
    decreases extension.len(),
{
    let name = stem + seq!['.'] + extension;
    if extension.len() == 0 {
        assert(name.last() == '.');
    } else {
        let before = extension.drop_last();
        assert(extension.contains(extension[extension.len() - 1]));
        assert forall|i: int| 0 <= i < before.len() implies before[i] != '.' by {
            assert(extension.contains(extension[i]));
        }
        lemma_last_dot_behind(stem, before);
        assert(name.drop_last() =~= stem + seq!['.'] + before);
    }
}

/// What a path of parts begins with, if its first part is `.`.
proof fn lemma_dot_front(rest: Seq<Seq<char>>)
    requires
        are_parts(rest),
    ensures
        ({
            let path = join(seq![seq!['.']] + rest);
            &&& are_parts(seq![seq!['.']] + rest)
            &&& path.len() > 0 && path[0] == '.'
            &&& path.len() > 1 ==> path[1] == '/'
        }),
{
    let first = seq!['.'];
    let parts = seq![first] + rest;
    assert(!first.contains('/') && !first.contains('\\'));
    assert forall|i: int| 0 <= i < parts.len() implies !(#[trigger] parts[i]).contains('/')
        && !parts[i].contains('\\') by {
        if i > 0 {
            assert(parts[i] == rest[i - 1]);
        }
    }
    lemma_join_front(parts);
    let path = join(parts);
    assert(parts[0] == first);
    assert(path.subrange(0, 1) == first);
    assert(path.subrange(0, 1)[0] == path[0]);
}

/// A path may begin with `.`, which changes nothing: behind it the parts are followed as they would be
/// without it. Behind `.` a step up is no longer one of those that a source loses in front, so that it
/// makes the path invalid.
pub proof fn dots_in_front(a: Seq<Seq<char>>, b: Seq<Seq<char>>)
    requires
        are_parts(a),
        are_parts(b),
    ensures
        a.len() > 0 && all_plain(a) ==> source_parts(join(seq![seq!['.']] + a)) == Some(a),
        source_parts(join(seq![seq!['.']] + (a + seq![seq!['.', '.']] + b))) is None,
        a.len() > 0 && all_plain(a) && !join(seq![seq!['.']] + a).contains('\0') ==> module_parts(
            join(seq![seq!['.']] + a),
        ) == Some(a),
        source_path(Seq::empty()) is None,
        source_path(seq!['.', '.']) is None,
        source_path(seq!['.']) is None,
        module_parts(seq!['.']) is None,
{
    let dot = seq!['.'];
    let up = seq!['.', '.'];
    let nothing = Seq::<Seq<char>>::empty();
    assert(!up.contains('/') && !up.contains('\\'));
    assert(!dot.contains('/') && !dot.contains('\\'));
    assert(are_parts(a + seq![up] + b));
    lemma_dotted(a);
    lemma_dotted(a + seq![up] + b);
    lemma_dotted(nothing);
    assert(seq![dot] + nothing =~= seq![dot]);
    assert(join(seq![dot]) == dot);
    lemma_idle(nothing, dot, a, Parents::Forbidden);
    lemma_idle(nothing, dot, a, Parents::Checked);
    lemma_idle(nothing, dot, nothing, Parents::Forbidden);
    lemma_idle(nothing, dot, nothing, Parents::Checked);
    assert(nothing + seq![dot] + a =~= seq![dot] + a);
    assert(nothing + seq![dot] + nothing =~= seq![dot]);
    assert(nothing + nothing =~= nothing);
    assert(nothing + a =~= a);
    if all_plain(a) {
        lemma_walk_keeps(a, Parents::Forbidden);
        lemma_walk_keeps(a, Parents::Checked);
    }
    lemma_forbidden(seq![dot] + a, up, b);
    assert(seq![dot] + (a + seq![up] + b) =~= seq![dot] + a + seq![up] + b);
    assert(!join(seq![dot]).contains('\0'));
    lemma_bare(nothing);
    assert(join(nothing) =~= Seq::empty());
    assert(are_parts(seq![up]));
    lemma_bare(seq![up]);
    assert(join(seq![up]) == up);
    lemma_forbidden(nothing, up, nothing);
    assert(nothing + seq![up] + nothing =~= seq![up]);
}

/// An ordinary path of parts that begins with `.`.
proof fn lemma_dotted(rest: Seq<Seq<char>>)
    requires
        are_parts(rest),
    ensures
        source_parts(join(seq![seq!['.']] + rest)) == (match walk(
            seq![seq!['.']] + rest,
            Parents::Forbidden,
        ) {
            Some(kept) if kept.len() > 0 => Some(kept),
            _ => None,
        }),
        !join(seq![seq!['.']] + rest).contains('\0') ==> module_parts(
            join(seq![seq!['.']] + rest),
        ) == (match walk(seq![seq!['.']] + rest, Parents::Checked) {
            Some(kept) if kept.len() > 0 => Some(kept),
            _ => None,
        }),
{
    lemma_dot_front(rest);
    let parts = seq![seq!['.']] + rest;
    let path = join(parts);
    lemma_resolve_join(parts, Parents::Forbidden);
    lemma_resolve_join(parts, Parents::Checked);
    reveal_strlit("/$bunfs/");
    reveal_strlit("/$bunfs/root/");
    reveal_strlit("B:/~BUN/");
    reveal_strlit("B:\\~BUN\\");
    if "/$bunfs/"@.is_prefix_of(path) {
        assert(path.subrange(0, 8)[0] == path[0]);
    }
    if "/$bunfs/root/"@.is_prefix_of(path) {
        assert(path.subrange(0, 13)[0] == path[0]);
    }
    if "B:/~BUN/"@.is_prefix_of(path) {
        assert(path.subrange(0, 8)[0] == path[0]);
    }
    if "B:\\~BUN\\"@.is_prefix_of(path) {
        assert(path.subrange(0, 8)[0] == path[0]);
    }
    if seq!['/'].is_prefix_of(path) {
        assert(path.subrange(0, 1)[0] == path[0]);
    }
    if seq!['.', '.', '/'].is_prefix_of(path) {
        assert(path.subrange(0, 3)[1] == path[1]);
    }
    lemma_ordinary_source(path);
}

/// The paths of one step up alone, and of nothing.
proof fn lemma_bare(parts: Seq<Seq<char>>)
    requires
        parts.len() == 0 || parts == seq![seq!['.', '.']],
    ensures
        source_parts(join(parts)) == (match walk(parts, Parents::Forbidden) {
            Some(kept) if kept.len() > 0 => Some(kept),
            _ => None,
        }),
{
    let path = join(parts);
    assert(path.len() <= 2);
    assert(are_parts(parts)) by {
        let up = seq!['.', '.'];
        assert(!up.contains('/') && !up.contains('\\'));
    }
    lemma_resolve_join(parts, Parents::Forbidden);
    reveal_strlit("/$bunfs/");
    reveal_strlit("B:/~BUN/");
    if seq!['/'].is_prefix_of(path) {
        assert(path.subrange(0, 1)[0] == path[0]);
    }
    lemma_ordinary_source(path);
}

/// A path whose first part holds a colon is invalid, for sources and for modules, unless it lies under
/// Bun's virtual root: it may name a drive.
pub proof fn drives_are_refused(drive: Seq<char>, rest: Seq<Seq<char>>)
    requires
        drive.contains(':'),
        !drive.contains('/'),
        !drive.contains('\\'),
        are_parts(rest),
        !is_virtual(join(seq![drive] + rest)),
    ensures
        source_path(join(seq![drive] + rest)) is None,
        module_parts(join(seq![drive] + rest)) is None,
{
    let parts = seq![drive] + rest;
    let path = join(parts);
    assert forall|i: int| 0 <= i < parts.len() implies !(#[trigger] parts[i]).contains('/')
        && !parts[i].contains('\\') by {
        if i > 0 {
            assert(parts[i] == rest[i - 1]);
        }
    }
    lemma_resolve_join(parts, Parents::Forbidden);
    lemma_resolve_join(parts, Parents::Checked);
    let nothing = Seq::<Seq<char>>::empty();
    lemma_colon(nothing, drive, rest, Parents::Forbidden);
    lemma_colon(nothing, drive, rest, Parents::Checked);
    assert(nothing + seq![drive] + rest =~= parts);
    lemma_join_front(parts);
    assert(parts[0] == drive);
    assert(path.subrange(0, drive.len() as int) == drive);
    assert forall|i: int| 0 <= i < drive.len() implies path[i] == drive[i] && drive[i] != '/' by {
        assert(path.subrange(0, drive.len() as int)[i] == path[i]);
        assert(drive.contains(drive[i]));
    }
    let colon = choose|i: int| 0 <= i < drive.len() && drive[i] == ':';
    reveal_strlit("B:\\~BUN\\");
    lemma_unix_root(path);
    lemma_join_chars(parts, '\\');
    if "B:\\~BUN\\"@.is_prefix_of(path) {
        assert(path.subrange(0, 8)[2] == path[2]);
        assert(path.contains(path[2]));
    }
    if seq!['/'].is_prefix_of(path) {
        assert(path.subrange(0, 1)[0] == path[0]);
    }
    if seq!['.', '.', '/'].is_prefix_of(path) {
        assert(path.subrange(0, 3)[0] == path[0]);
        assert(path.subrange(0, 3)[1] == path[1]);
        assert(path.subrange(0, 3)[2] == path[2]);
        assert(colon >= 2);
        assert(path[2] == drive[2]);
    }
    lemma_ordinary_source(path);
}

} // verus!
