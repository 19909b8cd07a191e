//! Paths as strings of `/`-separated names.
//!
//! A path is read as a sequence of components: a root marker `/` when the
//! path begins with a separator, followed by its names, the maximal runs of
//! characters other than the separator. Repeated and trailing separators
//! carry no meaning, so `/a//b/` and `/a/b` have the same components. Two
//! paths are the same when their components are.

use vstd::prelude::*;
use crate::text::{append_chars, chars_eq, from_chars, to_chars, views};

verus! {

/// The state of a left-to-right reading of `s`: the names completed so far
/// and the characters of the name being read.
pub open spec fn scan(s: Seq<char>) -> (Seq<Seq<char>>, Seq<char>)
    decreases s.len(),
{
    if s.len() == 0 {
        (Seq::empty(), Seq::empty())
    } else {
        let (done, current) = scan(s.drop_last());
        if s.last() == '/' {
            if current.len() > 0 {
                (done.push(current), Seq::empty())
            } else {
                (done, current)
            }
        } else {
            (done, current.push(s.last()))
        }
    }
}

/// The names of a path: its non-empty pieces between separators.
pub open spec fn names(s: Seq<char>) -> Seq<Seq<char>> {
    let (done, current) = scan(s);
    if current.len() > 0 {
        done.push(current)
    } else {
        done
    }
}

/// A path is absolute when it begins with a separator.
pub open spec fn is_absolute(s: Seq<char>) -> bool {
    s.len() > 0 && s[0] == '/'
}

/// The component that stands for the root of an absolute path.
pub open spec fn root_marker() -> Seq<char> {
    seq!['/']
}

/// The components of a path: the root marker if it is absolute, then its names.
pub open spec fn components(s: Seq<char>) -> Seq<Seq<char>> {
    if is_absolute(s) {
        seq![root_marker()] + names(s)
    } else {
        names(s)
    }
}

/// Two paths are the same when they have the same components.
pub open spec fn same_path(a: Seq<char>, b: Seq<char>) -> bool {
    components(a) == components(b)
}

/// `path` lies at or below `base`: the components of `base` begin those of `path`.
pub open spec fn path_starts_with(path: Seq<char>, base: Seq<char>) -> bool {
    components(base).is_prefix_of(components(path))
}

/// The components of the directory that holds `path`, if `path` has a name.
pub open spec fn parent_components(path: Seq<char>) -> Option<Seq<Seq<char>>> {
    if names(path).len() > 0 {
        Some(components(path).drop_last())
    } else {
        None
    }
}

/// A name that refers to a directory itself or to its parent rather than to an entry.
pub open spec fn is_dot_name(name: Seq<char>) -> bool {
    name == seq!['.'] || name == seq!['.', '.']
}

/// The last name of `path`, unless the path has no name or ends in `.` or `..`.
pub open spec fn file_name(path: Seq<char>) -> Option<Seq<char>> {
    if names(path).len() > 0 && !is_dot_name(names(path).last()) {
        Some(names(path).last())
    } else {
        None
    }
}

/// The given names written one after the other with a separator between them.
pub open spec fn join_names(parts: Seq<Seq<char>>) -> Seq<char>
    decreases parts.len(),
{
    if parts.len() == 0 {
        Seq::empty()
    } else if parts.len() == 1 {
        parts[0]
    } else {
        join_names(parts.drop_last()) + seq!['/'] + parts.last()
    }
}

/// The shortest text whose components are `parts`, when `parts` are the
/// components of some path.
pub open spec fn render(parts: Seq<Seq<char>>) -> Seq<char> {
    if parts.len() > 0 && parts[0] == root_marker() {
        root_marker() + join_names(parts.skip(1))
    } else {
        join_names(parts)
    }
}

/// The path of the entry `name` of the directory `dir`.
pub open spec fn joined(dir: Seq<char>, name: Seq<char>) -> Seq<char> {
    if dir.len() == 0 || dir.last() == '/' {
        dir + name
    } else {
        dir + seq!['/'] + name
    }
}

/// What is left of `path` below `base`, if `path` lies at or below `base`.
pub open spec fn relative_to(path: Seq<char>, base: Seq<char>) -> Option<Seq<char>> {
    if path_starts_with(path, base) {
        Some(render(components(path).skip(components(base).len() as int)))
    } else {
        None
    }
}

/// The text of the directory that holds `path`, if `path` has a name.
pub open spec fn parent(path: Seq<char>) -> Option<Seq<char>> {
    match parent_components(path) {
        Some(parts) => Some(render(parts)),
        None => None,
    }
}

/// Splits the characters of a path into its components.
pub fn split_chars(chars: &Vec<char>) -> (parts: Vec<Vec<char>>)
    ensures
        views(parts@) == components(chars@),
{
    let mut done: Vec<Vec<char>> = Vec::new();
    let ghost lead: Seq<Seq<char>> = if is_absolute(chars@) {
        seq![root_marker()]
    } else {
        Seq::empty()
    };
    if chars.len() > 0 && chars[0] == '/' {
        let mut marker: Vec<char> = Vec::new();
        marker.push('/');
        assert(marker@ == root_marker());
        done.push(marker);
    }
    assert(views(done@) == lead);
    let mut current: Vec<char> = Vec::new();
    let mut i: usize = 0;
    while i < chars.len()
        invariant
            i <= chars.len(),
            views(done@) == lead + scan(chars@.take(i as int)).0,
            current@ == scan(chars@.take(i as int)).1,
        decreases chars.len() - i,
    {
        let c = chars[i];
        assert(chars@.take(i + 1).drop_last() == chars@.take(i as int));
        assert(chars@.take(i + 1).last() == c);
        if c == '/' {
            if current.len() > 0 {
                let ghost before = views(done@);
                done.push(current);
                assert(views(done@) == before.push(current@));
                current = Vec::new();
            }
        } else {
            current.push(c);
        }
        i += 1;
    }
    assert(chars@.take(chars.len() as int) == chars@);
    if current.len() > 0 {
        let ghost before = views(done@);
        done.push(current);
        assert(views(done@) == before.push(current@));
    }
    done
}

/// Splits a path into its components.
pub fn split(path: &str) -> (parts: Vec<Vec<char>>)
    ensures
        views(parts@) == components(path@),
{
    let chars = to_chars(path);
    split_chars(&chars)
}

/// Whether the first `count` entries of `a` and of `b` hold the same characters.
fn parts_agree(a: &Vec<Vec<char>>, b: &Vec<Vec<char>>, count: usize) -> (agree: bool)
    requires
        count <= a.len(),
        count <= b.len(),
    ensures
        agree == (views(a@).take(count as int) == views(b@).take(count as int)),
{
    let mut i: usize = 0;
    while i < count
        invariant
            i <= count,
            count <= a.len(),
            count <= b.len(),
            views(a@).take(i as int) == views(b@).take(i as int),
        decreases count - i,
    {
        if !chars_eq(&a[i], &b[i]) {
            assert(views(a@).take(count as int)[i as int] == a@[i as int]@);
            assert(views(b@).take(count as int)[i as int] == b@[i as int]@);
            return false;
        }
        i += 1;
        assert(views(a@).take(i as int) == views(a@).take(i - 1).push(a@[i - 1]@));
        assert(views(b@).take(i as int) == views(b@).take(i - 1).push(b@[i - 1]@));
    }
    true
}

/// Whether two lists of components are the same.
pub fn parts_eq(a: &Vec<Vec<char>>, b: &Vec<Vec<char>>) -> (same: bool)
    ensures
        same == (views(a@) == views(b@)),
{
    if a.len() != b.len() {
        return false;
    }
    let agree = parts_agree(a, b, a.len());
    assert(views(a@).take(a.len() as int) == views(a@));
    assert(views(b@).take(b.len() as int) == views(b@));
    agree
}

/// Whether the components `base` begin the components `parts`.
pub fn parts_start_with(parts: &Vec<Vec<char>>, base: &Vec<Vec<char>>) -> (found: bool)
    ensures
        found == views(base@).is_prefix_of(views(parts@)),
{
    if base.len() > parts.len() {
        return false;
    }
    let agree = parts_agree(parts, base, base.len());
    assert(views(base@).take(base.len() as int) == views(base@));
    assert(views(parts@).take(base.len() as int) == views(parts@).subrange(0, base.len() as int));
    agree
}

/// Whether `path` begins with a separator.
pub fn is_absolute_path(path: &str) -> (absolute: bool)
    ensures
        absolute == is_absolute(path@),
{
    let chars = to_chars(path);
    chars.len() > 0 && chars[0] == '/'
}

/// Whether `a` and `b` name the same place.
pub fn same(a: &str, b: &str) -> (same: bool)
    ensures
        same == same_path(a@, b@),
{
    let left = split(a);
    let right = split(b);
    parts_eq(&left, &right)
}

/// Whether `path` lies at or below `base`.
pub fn starts_with(path: &str, base: &str) -> (found: bool)
    ensures
        found == path_starts_with(path@, base@),
{
    let parts = split(path);
    let base_parts = split(base);
    parts_start_with(&parts, &base_parts)
}

/// Writes the components `parts[from..]` as text.
pub fn render_parts(parts: &Vec<Vec<char>>, from: usize) -> (text: Vec<char>)
    requires
        from <= parts.len(),
    ensures
        text@ == render(views(parts@).skip(from as int)),
{
    let ghost all = views(parts@).skip(from as int);
    let mut text: Vec<char> = Vec::new();
    let mut start: usize = from;
    if from < parts.len() && parts[from].len() == 1 && parts[from][0] == '/' {
        assert(parts@[from as int]@ == root_marker());
        assert(all[0] == parts@[from as int]@);
        text.push('/');
        start = from + 1;
        assert(all.skip(1) == views(parts@).skip(start as int));
    } else {
        assert(!(all.len() > 0 && all[0] == root_marker())) by {
            if all.len() > 0 {
                assert(all[0] == parts@[from as int]@);
                assert(root_marker().len() == 1);
                assert(root_marker()[0] == '/');
            }
        }
    }
    let ghost lead = text@;
    let ghost rest = views(parts@).skip(start as int);
    assert(render(all) == lead + join_names(rest));
    let mut i: usize = start;
    while i < parts.len()
        invariant
            start <= i <= parts.len(),
            rest == views(parts@).skip(start as int),
            text@ == lead + join_names(rest.take(i - start)),
        decreases parts.len() - i,
    {
        let ghost shown = rest.take(i - start);
        let ghost next = rest.take(i + 1 - start);
        assert(next.drop_last() == shown);
        assert(next.last() == parts@[i as int]@);
        if i > start {
            text.push('/');
        }
        append_chars(&mut text, &parts[i]);
        assert(text@ == lead + join_names(next)) by {
            if i > start {
                assert(join_names(next) == join_names(shown) + seq!['/'] + parts@[i as int]@);
                assert(text@ == lead + join_names(shown) + seq!['/'] + parts@[i as int]@);
                assert(lead + join_names(shown) + seq!['/'] + parts@[i as int]@
                    == lead + (join_names(shown) + seq!['/'] + parts@[i as int]@));
            } else {
                assert(next.len() == 1);
                assert(join_names(next) == parts@[i as int]@);
                assert(join_names(shown) == Seq::<char>::empty());
                assert(lead + Seq::<char>::empty() + parts@[i as int]@ == lead + parts@[i as int]@);
            }
        }
        i += 1;
    }
    assert(rest.take(parts.len() - start) == rest);
    text
}

/// The last name of `path`, unless the path has no name or ends in `.` or `..`.
pub fn file_name_of(path: &str) -> (name: Option<String>)
    ensures
        match name {
            Some(text) => file_name(path@) == Some(text@),
            None => file_name(path@) is None,
        },
{
    let chars = to_chars(path);
    let parts = split_chars(&chars);
    let absolute = chars.len() > 0 && chars[0] == '/';
    let lead: usize = if absolute { 1 } else { 0 };
    assert(views(parts@).len() == parts.len());
    assert(components(path@).len() == lead + names(path@).len());
    if parts.len() <= lead {
        return None;
    }
    let last = &parts[parts.len() - 1];
    assert(last@ == names(path@).last()) by {
        assert(views(parts@)[parts.len() - 1] == last@);
        assert(components(path@).last() == names(path@).last());
    }
    let single_dot = last.len() == 1 && last[0] == '.';
    let double_dot = last.len() == 2 && last[0] == '.' && last[1] == '.';
    assert(single_dot == (last@ == seq!['.'])) by {
        if single_dot {
            assert(last@ =~= seq!['.']);
        } else if last@ == seq!['.'] {
            assert(seq!['.'].len() == 1);
            assert(seq!['.'][0] == '.');
        }
    }
    assert(double_dot == (last@ == seq!['.', '.'])) by {
        if double_dot {
            assert(last@ =~= seq!['.', '.']);
        } else if last@ == seq!['.', '.'] {
            assert(seq!['.', '.'].len() == 2);
            assert(seq!['.', '.'][0] == '.');
            assert(seq!['.', '.'][1] == '.');
        }
    }
    if single_dot || double_dot {
        None
    } else {
        Some(from_chars(last))
    }
}

/// The components of the directory that holds `path`, if `path` has a name.
pub fn parent_parts(path: &str) -> (parts: Option<Vec<Vec<char>>>)
    ensures
        match parts {
            Some(found) => parent_components(path@) == Some(views(found@)),
            None => parent_components(path@) is None,
        },
{
    let chars = to_chars(path);
    let mut parts = split_chars(&chars);
    let absolute = chars.len() > 0 && chars[0] == '/';
    let lead: usize = if absolute { 1 } else { 0 };
    assert(views(parts@).len() == parts.len());
    assert(components(path@).len() == lead + names(path@).len());
    if parts.len() <= lead {
        return None;
    }
    let ghost before = views(parts@);
    parts.pop();
    assert(views(parts@) == before.drop_last());
    Some(parts)
}

/// The text of the directory that holds `path`, if `path` has a name.
pub fn parent_of(path: &str) -> (text: Option<String>)
    ensures
        match text {
            Some(found) => parent(path@) == Some(found@),
            None => parent(path@) is None,
        },
{
    match parent_parts(path) {
        Some(parts) => {
            let chars = render_parts(&parts, 0);
            assert(views(parts@).skip(0) == views(parts@));
            Some(from_chars(&chars))
        },
        None => None,
    }
}

/// What is left of `path` below `base`, if `path` lies at or below `base`.
pub fn strip_prefix(path: &str, base: &str) -> (rest: Option<String>)
    ensures
        match rest {
            Some(text) => relative_to(path@, base@) == Some(text@),
            None => relative_to(path@, base@) is None,
        },
{
    let parts = split(path);
    let base_parts = split(base);
    if parts_start_with(&parts, &base_parts) {
        let chars = render_parts(&parts, base_parts.len());
        Some(from_chars(&chars))
    } else {
        None
    }
}

/// The path of the entry `name` of the directory `dir`.
pub fn join(dir: &str, name: &str) -> (path: String)
    ensures
        path@ == joined(dir@, name@),
{
    let mut chars = to_chars(dir);
    if chars.len() > 0 && chars[chars.len() - 1] != '/' {
        chars.push('/');
    }
    crate::text::append_str(&mut chars, name);
    from_chars(&chars)
}

/// Whether the text `a` comes before the text `b`: at the first place where
/// they differ `a` has the smaller character, or `a` ends there and `b` does not.
pub open spec fn text_before(a: Seq<char>, b: Seq<char>) -> bool
    decreases a.len(),
{
    if b.len() == 0 {
        false
    } else if a.len() == 0 {
        true
    } else if a[0] != b[0] {
        (a[0] as u32) < (b[0] as u32)
    } else {
        text_before(a.skip(1), b.skip(1))
    }
}

/// Whether the components `a` come before the components `b`: at the first
/// place where they differ `a` has the component that comes first, or `a`
/// ends there and `b` does not.
pub open spec fn parts_before(a: Seq<Seq<char>>, b: Seq<Seq<char>>) -> bool
    decreases a.len(),
{
    if b.len() == 0 {
        false
    } else if a.len() == 0 {
        true
    } else if a[0] != b[0] {
        text_before(a[0], b[0])
    } else {
        parts_before(a.skip(1), b.skip(1))
    }
}

/// Whether the path `a` comes before the path `b` when paths are put in order.
pub open spec fn path_before(a: Seq<char>, b: Seq<char>) -> bool {
    parts_before(components(a), components(b))
}

/// Whether the text `a` comes before the text `b`.
pub fn chars_before(a: &Vec<char>, b: &Vec<char>) -> (before: bool)
    ensures
        before == text_before(a@, b@),
{
    let mut i: usize = 0;
    assert(a@.skip(0) == a@);
    assert(b@.skip(0) == b@);
    loop
        invariant
            i <= a.len(),
            i <= b.len(),
            text_before(a@, b@) == text_before(a@.skip(i as int), b@.skip(i as int)),
        decreases a.len() - i,
    {
        if i >= b.len() {
            return false;
        }
        if i >= a.len() {
            return true;
        }
        assert(a@.skip(i as int)[0] == a@[i as int]);
        assert(b@.skip(i as int)[0] == b@[i as int]);
        if a[i] != b[i] {
            return (a[i] as u32) < (b[i] as u32);
        }
        assert(a@.skip(i as int).skip(1) == a@.skip(i + 1));
        assert(b@.skip(i as int).skip(1) == b@.skip(i + 1));
        i += 1;
    }
}

/// Whether the components `a` come before the components `b`.
pub fn parts_come_before(a: &Vec<Vec<char>>, b: &Vec<Vec<char>>) -> (before: bool)
    ensures
        before == parts_before(views(a@), views(b@)),
{
    let mut i: usize = 0;
    assert(views(a@).skip(0) == views(a@));
    assert(views(b@).skip(0) == views(b@));
    loop
        invariant
            i <= a.len(),
            i <= b.len(),
            parts_before(views(a@), views(b@)) == parts_before(
                views(a@).skip(i as int),
                views(b@).skip(i as int),
            ),
        decreases a.len() - i,
    {
        if i >= b.len() {
            return false;
        }
        if i >= a.len() {
            return true;
        }
        assert(views(a@).skip(i as int)[0] == a@[i as int]@);
        assert(views(b@).skip(i as int)[0] == b@[i as int]@);
        if !chars_eq(&a[i], &b[i]) {
            return chars_before(&a[i], &b[i]);
        }
        assert(views(a@).skip(i as int).skip(1) == views(a@).skip(i + 1));
        assert(views(b@).skip(i as int).skip(1) == views(b@).skip(i + 1));
        i += 1;
    }
}

/// Whether the path `a` comes before the path `b` when paths are put in order.
pub fn comes_before(a: &str, b: &str) -> (before: bool)
    ensures
        before == path_before(a@, b@),
{
    let left = split(a);
    let right = split(b);
    parts_come_before(&left, &right)
}

/// A path lies at or below itself.
pub proof fn lemma_starts_with_itself(path: Seq<char>)
    ensures
        path_starts_with(path, path),
{
    assert(components(path) =~= components(path).subrange(0, components(path).len() as int));
}

/// What lies at or below a directory lies at or below every directory that
/// this one lies at or below.
pub proof fn lemma_starts_with_is_transitive(path: Seq<char>, middle: Seq<char>, base: Seq<char>)
    requires
        path_starts_with(path, middle),
        path_starts_with(middle, base),
    ensures
        path_starts_with(path, base),
{
    let a = components(base);
    let b = components(middle);
    let c = components(path);
    assert(a =~= c.subrange(0, a.len() as int)) by {
        assert(a == b.subrange(0, a.len() as int));
        assert(b == c.subrange(0, b.len() as int));
    }
}

/// A path lies below the directory that holds it: the components of its
/// parent begin its own, and it has one more.
pub proof fn lemma_parent_is_above(path: Seq<char>)
    ensures
        parent_components(path) matches Some(above) ==> above.is_prefix_of(components(path))
            && above.len() + 1 == components(path).len(),
{
    if parent_components(path) is Some {
        let above = parent_components(path)->0;
        assert(above =~= components(path).subrange(0, above.len() as int));
    }
}

/// Paths that are the same place lie at or below the same directories, and
/// the same paths lie at or below them.
pub proof fn lemma_same_paths_are_alike(a: Seq<char>, b: Seq<char>, other: Seq<char>)
    requires
        same_path(a, b),
    ensures
        path_starts_with(a, other) == path_starts_with(b, other),
        path_starts_with(other, a) == path_starts_with(other, b),
        same_path(a, other) == same_path(b, other),
        parent_components(a) is Some ==> parent_components(b) == parent_components(a),
{
    if parent_components(a) is Some {
        assert(components(a).len() == (if is_absolute(a) {
            1int
        } else {
            0int
        }) + names(a).len());
        assert(components(b).len() == (if is_absolute(b) {
            1int
        } else {
            0int
        }) + names(b).len());
        if is_absolute(a) != is_absolute(b) {
            if is_absolute(a) {
                assert(components(a)[0] == root_marker());
                assert(components(b)[0] == names(b)[0]);
                lemma_names_hold_no_separator(b, 0);
                assert(root_marker()[0] == '/');
            } else {
                assert(components(b)[0] == root_marker());
                assert(components(a)[0] == names(a)[0]);
                lemma_names_hold_no_separator(a, 0);
                assert(root_marker()[0] == '/');
            }
        }
    }
}

/// No name of a path is empty or holds a separator.
pub proof fn lemma_names_hold_no_separator(path: Seq<char>, i: int)
    requires
        0 <= i < names(path).len(),
    ensures
        names(path)[i].len() > 0,
        forall|k: int| 0 <= k < names(path)[i].len() ==> names(path)[i][k] != '/',
{
    lemma_scan_holds_no_separator(path);
}

proof fn lemma_scan_holds_no_separator(s: Seq<char>)
    ensures
        forall|i: int|
            0 <= i < scan(s).0.len() ==> (#[trigger] scan(s).0[i]).len() > 0 && forall|k: int|
                0 <= k < scan(s).0[i].len() ==> scan(s).0[i][k] != '/',
        forall|k: int| 0 <= k < scan(s).1.len() ==> scan(s).1[k] != '/',
    decreases s.len(),
{
    if s.len() > 0 {
        lemma_scan_holds_no_separator(s.drop_last());
        let (done, current) = scan(s.drop_last());
        if s.last() == '/' {
            if current.len() > 0 {
                assert forall|i: int| 0 <= i < scan(s).0.len() implies (
                #[trigger] scan(s).0[i]).len() > 0 && forall|k: int|
                    0 <= k < scan(s).0[i].len() ==> scan(s).0[i][k] != '/' by {
                    if i < done.len() {
                        assert(scan(s).0[i] == done[i]);
                    } else {
                        assert(scan(s).0[i] == current);
                    }
                }
            }
        } else {
            assert forall|k: int| 0 <= k < scan(s).1.len() implies scan(s).1[k] != '/' by {
                if k < current.len() {
                    assert(scan(s).1[k] == current[k]);
                }
            }
        }
    }
}

/// No text comes before itself.
pub proof fn lemma_text_not_before_itself(a: Seq<char>)
    ensures
        !text_before(a, a),
    decreases a.len(),
{
    if a.len() > 0 {
        lemma_text_not_before_itself(a.skip(1));
    }
}

/// Of two different texts one comes before the other.
pub proof fn lemma_text_order_is_total(a: Seq<char>, b: Seq<char>)
    ensures
        a == b || text_before(a, b) || text_before(b, a),
        !(text_before(a, b) && text_before(b, a)),
    decreases a.len(),
{
    if a.len() > 0 && b.len() > 0 {
        if a[0] == b[0] {
            lemma_text_order_is_total(a.skip(1), b.skip(1));
            if a.skip(1) == b.skip(1) {
                assert(a =~= seq![a[0]] + a.skip(1));
                assert(b =~= seq![b[0]] + b.skip(1));
            }
        } else {
            vstd::utf8::char_u32_cast(a[0], a[0] as u32);
            vstd::utf8::char_u32_cast(b[0], b[0] as u32);
        }
    } else if a.len() == 0 && b.len() == 0 {
        assert(a =~= b);
    }
}

/// A text that comes before another comes before all that the other comes before.
pub proof fn lemma_text_order_is_transitive(a: Seq<char>, b: Seq<char>, c: Seq<char>)
    requires
        text_before(a, b),
        text_before(b, c),
    ensures
        text_before(a, c),
    decreases a.len(),
{
    if a.len() > 0 {
        if a[0] == b[0] && b[0] == c[0] {
            lemma_text_order_is_transitive(a.skip(1), b.skip(1), c.skip(1));
        }
    }
}

/// Of two different lists of components one comes before the other.
pub proof fn lemma_parts_order_is_total(a: Seq<Seq<char>>, b: Seq<Seq<char>>)
    ensures
        a == b || parts_before(a, b) || parts_before(b, a),
        !(parts_before(a, b) && parts_before(b, a)),
    decreases a.len(),
{
    if a.len() > 0 && b.len() > 0 {
        if a[0] == b[0] {
            lemma_parts_order_is_total(a.skip(1), b.skip(1));
            if a.skip(1) == b.skip(1) {
                assert(a =~= seq![a[0]] + a.skip(1));
                assert(b =~= seq![b[0]] + b.skip(1));
            }
        } else {
            lemma_text_order_is_total(a[0], b[0]);
        }
    } else if a.len() == 0 && b.len() == 0 {
        assert(a =~= b);
    }
}

/// Components that come before others come before all that the others come before.
pub proof fn lemma_parts_order_is_transitive(
    a: Seq<Seq<char>>,
    b: Seq<Seq<char>>,
    c: Seq<Seq<char>>,
)
    requires
        parts_before(a, b),
        parts_before(b, c),
    ensures
        parts_before(a, c),
    decreases a.len(),
{
    if a.len() > 0 {
        if a[0] == b[0] && b[0] == c[0] {
            lemma_parts_order_is_transitive(a.skip(1), b.skip(1), c.skip(1));
        } else if a[0] != b[0] && b[0] != c[0] {
            lemma_text_order_is_transitive(a[0], b[0], c[0]);
            lemma_text_not_before_itself(a[0]);
        }
    }
}

/// The order of paths: no path comes before a path that is the same place;
/// of two paths that are not, exactly one comes before the other; and a path
/// that does not come after a second, which does not come after a third,
/// does not come after the third.
pub proof fn lemma_path_order(a: Seq<char>, b: Seq<char>, c: Seq<char>)
    ensures
        same_path(a, b) ==> !path_before(a, b),
        !same_path(a, b) ==> (path_before(a, b) != path_before(b, a)),
        !path_before(b, a) && !path_before(c, b) ==> !path_before(c, a),
{
    lemma_parts_order_is_total(components(a), components(b));
    lemma_parts_order_is_total(components(b), components(c));
    lemma_parts_order_is_total(components(a), components(c));
    if path_before(c, a) && !path_before(b, a) && !path_before(c, b) {
        if components(a) == components(b) {
        } else if components(b) == components(c) {
        } else {
            lemma_parts_order_is_transitive(components(c), components(a), components(b));
        }
    }
}

} // verus!
