//! Slash-separated paths.
//!
//! A path is its characters. Two paths are the same when their components are, so repeated
//! separators, a separator at the end and `.` in the middle make no difference.
use crate::text;
use vstd::prelude::*;

verus! {

/// True when the path starts at the root.
pub open spec fn is_rooted(path: Seq<char>) -> bool {
    path.len() > 0 && path[0] == '/'
}

/// `path` as seen from `base`.
pub open spec fn joined(base: Seq<char>, path: Seq<char>) -> Seq<char> {
    if is_rooted(path) {
        path
    } else if base.len() == 0 || base.last() == '/' {
        base + path
    } else {
        base.push('/') + path
    }
}

/// The names between separators, without the empty ones and `.`.
pub open spec fn names_in(path: Seq<char>) -> Seq<Seq<char>>
    decreases path.len(),
{
    if path.len() == 0 {
        Seq::empty()
    } else {
        let end = text::position_of(path, '/') as int;
        let name = path.take(end);
        let rest = if end < path.len() {
            names_in(path.skip(end + 1))
        } else {
            Seq::empty()
        };
        if name.len() == 0 || name == seq!['.'] {
            rest
        } else {
            seq![name] + rest
        }
    }
}

/// The components of a path: the root as `/`, a leading `.`, and the names.
pub open spec fn components(path: Seq<char>) -> Seq<Seq<char>> {
    if is_rooted(path) {
        seq![seq!['/']] + names_in(path)
    } else if path.take(text::position_of(path, '/') as int) == seq!['.'] {
        seq![seq!['.']] + names_in(path)
    } else {
        names_in(path)
    }
}

/// `path` without what adds no component at its end.
pub open spec fn without_tail(path: Seq<char>) -> Seq<char>
    decreases path.len(),
{
    if path.len() > 1 && (path.last() == '/' || (path.last() == '.' && path[path.len() - 2]
        == '/')) {
        without_tail(path.drop_last())
    } else {
        path
    }
}

/// Where the name at the end of `path` starts: behind the last separator.
pub open spec fn name_start(path: Seq<char>) -> nat
    decreases path.len(),
{
    if path.len() == 0 || path.last() == '/' {
        path.len()
    } else {
        name_start(path.drop_last())
    }
}

/// The path without its last component; the root and the empty path have none.
pub open spec fn parent_of(path: Seq<char>) -> Option<Seq<char>> {
    let whole = without_tail(path);
    if whole.len() == 0 || whole == seq!['/'] {
        None
    } else {
        Some(without_tail(whole.take(name_start(whole) as int)))
    }
}

/// The last component, where it is a name.
pub open spec fn file_name_of(path: Seq<char>) -> Option<Seq<char>> {
    let whole = without_tail(path);
    let name = whole.skip(name_start(whole) as int);
    if name.len() == 0 || name == seq!['.'] || name == seq!['.', '.'] {
        None
    } else {
        Some(name)
    }
}

/// The directory that a file is in; a path without one is taken to be in `.`.
pub open spec fn directory_of(path: Seq<char>) -> Seq<char> {
    match parent_of(path) {
        Some(parent) => parent,
        None => seq!['.'],
    }
}

/// The names of two paths that meet at a separator.
pub proof fn lemma_names_concat(head: Seq<char>, tail: Seq<char>)
    requires
        head.len() > 0 ==> head.last() == '/',
    ensures
        names_in(head + tail) == names_in(head) + names_in(tail),
    decreases head.len(),
{
    if head.len() == 0 {
        assert(head + tail =~= tail);
        assert(names_in(head) + names_in(tail) =~= names_in(tail));
    } else {
        let whole = head + tail;
        text::lemma_position_of(head, '/');
        let end = text::position_of(head, '/') as int;
        if end == head.len() {
            assert(head[head.len() - 1] == '/');
        }
        text::lemma_position_is(whole, '/', end);
        assert(whole.take(end) =~= head.take(end));
        assert(whole.skip(end + 1) =~= head.skip(end + 1) + tail);
        let rest = head.skip(end + 1);
        if rest.len() > 0 {
            assert(rest.last() == head.last());
        }
        lemma_names_concat(rest, tail);
        let name = head.take(end);
        assert((seq![name] + names_in(rest)) + names_in(tail) =~= seq![name] + (names_in(rest)
            + names_in(tail)));
    }
}

proof fn lemma_name_start(path: Seq<char>)
    ensures
        name_start(path) <= path.len(),
        name_start(path) > 0 ==> path[name_start(path) - 1] == '/',
        forall|i: int| name_start(path) <= i < path.len() ==> path[i] != '/',
    decreases path.len(),
{
    if path.len() > 0 && path.last() != '/' {
        let shorter = path.drop_last();
        lemma_name_start(shorter);
        assert forall|i: int| name_start(path) <= i < path.len() implies path[i] != '/' by {
            if i < shorter.len() {
                assert(path[i] == shorter[i]);
            }
        }
    }
}

/// The names of a path that holds no separator.
proof fn lemma_single_name(name: Seq<char>)
    requires
        !name.contains('/'),
    ensures
        names_in(name) == if name.len() == 0 || name == seq!['.'] {
            Seq::<Seq<char>>::empty()
        } else {
            seq![name]
        },
{
    if name.len() > 0 {
        text::lemma_position_is(name, '/', name.len() as int);
        assert(name.take(name.len() as int) =~= name);
        assert(seq![name] + Seq::<Seq<char>>::empty() =~= seq![name]);
    }
}

/// A path cut behind its last separator.
proof fn lemma_cut(path: Seq<char>)
    ensures
        name_start(path) <= path.len(),
        !path.skip(name_start(path) as int).contains('/'),
        names_in(path) == names_in(path.take(name_start(path) as int)) + names_in(
            path.skip(name_start(path) as int),
        ),
{
    lemma_name_start(path);
    let at = name_start(path) as int;
    let head = path.take(at);
    let tail = path.skip(at);
    assert(path =~= head + tail);
    lemma_names_concat(head, tail);
    assert forall|i: int| 0 <= i < tail.len() implies tail[i] != '/' by {
        assert(tail[i] == path[at + i]);
    }
}

/// A separator at the end adds no name.
proof fn lemma_trailing_separator(path: Seq<char>)
    ensures
        names_in(path.push('/')) == names_in(path),
{
    lemma_cut(path);
    let at = name_start(path) as int;
    let head = path.take(at);
    let tail = path.skip(at);
    lemma_name_start(path);
    assert(path.push('/') =~= head + tail.push('/'));
    lemma_names_concat(head, tail.push('/'));
    let longer = tail.push('/');
    assert forall|i: int| 0 <= i < tail.len() implies longer[i] != '/' by {
        assert(tail.contains(tail[i]));
    }
    text::lemma_position_is(longer, '/', tail.len() as int);
    assert(longer.take(tail.len() as int) =~= tail);
    assert(longer.skip(tail.len() as int + 1) =~= Seq::<char>::empty());
    lemma_single_name(tail);
    assert(seq![tail] + Seq::<Seq<char>>::empty() =~= seq![tail]);
    assert(names_in(longer.skip(tail.len() as int + 1)) =~= Seq::<Seq<char>>::empty());
    assert(names_in(longer) == names_in(tail));
}

/// The piece before the first separator does not change when a tail is dropped behind it.
proof fn lemma_first_piece(path: Seq<char>, shorter: Seq<char>)
    requires
        shorter.is_prefix_of(path),
        text::position_of(path, '/') <= shorter.len(),
    ensures
        shorter.take(text::position_of(shorter, '/') as int) == path.take(
            text::position_of(path, '/') as int,
        ),
{
    text::lemma_position_of(path, '/');
    let at = text::position_of(path, '/') as int;
    assert forall|i: int| 0 <= i < shorter.len() implies shorter[i] == path[i] by {
        assert(shorter[i] == path.subrange(0, shorter.len() as int)[i]);
    }
    text::lemma_position_is(shorter, '/', at);
    assert(shorter.take(at) =~= path.take(at));
}

/// What `without_tail` drops adds no component.
pub proof fn lemma_without_tail(path: Seq<char>)
    ensures
        components(without_tail(path)) == components(path),
        without_tail(path).len() <= path.len(),
        path.len() > 0 ==> without_tail(path).len() > 0,
        without_tail(path).is_prefix_of(path),
        ({
            let whole = without_tail(path);
            whole.len() > 1 ==> whole.last() != '/' && !(whole.last() == '.' && whole[whole.len()
                - 2] == '/')
        }),
    decreases path.len(),
{
    if path.len() > 1 && (path.last() == '/' || (path.last() == '.' && path[path.len() - 2]
        == '/')) {
        let shorter = path.drop_last();
        lemma_without_tail(shorter);
        let whole = without_tail(shorter);
        assert(whole =~= path.subrange(0, whole.len() as int)) by {
            assert(whole =~= shorter.subrange(0, whole.len() as int));
        }
        assert(path =~= shorter.push(path.last()));
        assert(shorter =~= path.subrange(0, shorter.len() as int));
        if path.last() == '/' {
            lemma_trailing_separator(shorter);
        } else {
            let dot = seq!['.'];
            assert(path =~= shorter + dot);
            assert(shorter.last() == '/');
            lemma_names_concat(shorter, dot);
            lemma_single_name(dot);
            assert(names_in(shorter) + Seq::<Seq<char>>::empty() =~= names_in(shorter));
        }
        assert(names_in(path) == names_in(shorter));
        assert(is_rooted(path) == is_rooted(shorter));
        if !is_rooted(path) {
            text::lemma_position_of(path, '/');
            if text::position_of(path, '/') == path.len() {
                assert(path.last() != '/');
                assert(path[path.len() - 2] == '/');
            }
            lemma_first_piece(path, shorter);
        }
    } else {
        assert(path =~= path.subrange(0, path.len() as int));
    }
}

/// The parent of a path is shorter, and has the components of the path but the last.
pub proof fn law_parent_drops_last_component(path: Seq<char>)
    requires
        parent_of(path) is Some,
    ensures
        parent_of(path)->0.len() < path.len(),
        components(path).len() > 0,
        components(parent_of(path)->0) == components(path).drop_last(),
{
    lemma_without_tail(path);
    let whole = without_tail(path);
    lemma_cut(whole);
    lemma_name_start(whole);
    let at = name_start(whole) as int;
    let head = whole.take(at);
    let name = whole.skip(at);
    lemma_without_tail(head);
    if whole.len() == 1 {
        assert(whole =~= seq![whole[0]]);
    }
    assert(name.len() > 0);
    lemma_single_name(name);
    if name == seq!['.'] {
        assert(whole.last() == name.last());
        if at > 0 {
            assert(whole[whole.len() - 2] == '/');
        }
        assert(at == 0);
        assert(whole =~= name);
        assert(head =~= Seq::empty());
        text::lemma_position_is(whole, '/', 1);
        assert(whole.take(1) =~= seq!['.']);
        assert(components(whole) =~= seq![seq!['.']]);
        text::lemma_position_is(head, '/', 0);
        assert(components(head) =~= Seq::empty());
        assert(components(whole).drop_last() =~= Seq::empty());
    } else {
        assert(names_in(whole) == names_in(head) + seq![name]);
        if at == 0 {
            assert(head =~= Seq::empty());
            assert(whole =~= name);
            text::lemma_position_is(head, '/', 0);
            assert(components(head) =~= Seq::empty());
            if is_rooted(whole) {
                assert(whole.contains(whole[0]));
            }
            assert forall|i: int| 0 <= i < whole.len() implies whole[i] != '/' by {
                assert(name.contains(whole[i]));
            }
            text::lemma_position_is(whole, '/', whole.len() as int);
            assert(whole.take(whole.len() as int) =~= whole);
        } else {
            assert(is_rooted(head) == is_rooted(whole));
            if !is_rooted(whole) {
                text::lemma_position_of(whole, '/');
                lemma_first_piece(whole, head);
            }
        }
        assert(components(whole).drop_last() =~= components(head));
    }
}

/// A path without a parent has no component but the root.
pub proof fn lemma_without_parent(path: Seq<char>)
    requires
        parent_of(path) is None,
    ensures
        components(path).len() <= 1,
{
    lemma_without_tail(path);
    let whole = without_tail(path);
    if whole.len() > 0 {
        text::lemma_position_is(whole, '/', 0);
        assert(whole.skip(1) =~= Seq::empty());
        assert(names_in(whole.skip(1)).len() == 0);
        assert(whole.take(0).len() == 0);
        assert(names_in(whole).len() == 0);
    }
}

/// True when the path starts at the root.
pub fn is_absolute(path: &str) -> (rooted: bool)
    ensures
        rooted == is_rooted(path@),
{
    let chars = text::chars_of(path);
    chars.len() > 0 && chars[0] == '/'
}

/// `path` as seen from `base`.
pub fn join(base: &str, path: &str) -> (result: String)
    ensures
        result@ == joined(base@, path@),
{
    if is_absolute(path) {
        return path.to_owned();
    }
    let chars = text::chars_of(base);
    let mut result = base.to_owned();
    if chars.len() > 0 && chars[chars.len() - 1] != '/' {
        result.push('/');
    }
    result.append(path);
    result
}

/// Cuts the path behind what adds a component.
fn cut_tail(chars: &Vec<char>, end: usize) -> (stop: usize)
    requires
        end <= chars@.len(),
    ensures
        stop <= end,
        chars@.take(stop as int) == without_tail(chars@.take(end as int)),
{
    let mut stop: usize = end;
    while stop > 1 && (chars[stop - 1] == '/' || (chars[stop - 1] == '.' && chars[stop - 2]
        == '/'))
        invariant
            stop <= end <= chars@.len(),
            without_tail(chars@.take(stop as int)) == without_tail(chars@.take(end as int)),
        decreases stop,
    {
        assert(chars@.take(stop as int).drop_last() =~= chars@.take(stop - 1));
        stop -= 1;
    }
    stop
}

/// Where the name at the end of the first `end` characters starts.
fn find_name(chars: &Vec<char>, end: usize) -> (start: usize)
    requires
        end <= chars@.len(),
    ensures
        start <= end,
        start == name_start(chars@.take(end as int)),
{
    let mut start: usize = end;
    while start > 0 && chars[start - 1] != '/'
        invariant
            start <= end <= chars@.len(),
            name_start(chars@.take(start as int)) == name_start(chars@.take(end as int)),
        decreases start,
    {
        assert(chars@.take(start as int).drop_last() =~= chars@.take(start - 1));
        start -= 1;
    }
    start
}

/// The path without its last component.
pub fn parent(path: &str) -> (result: Option<String>)
    ensures
        text::opt_text(result) == parent_of(path@),
{
    let chars = text::chars_of(path);
    let end = cut_tail(&chars, chars.len());
    assert(chars@.take(chars@.len() as int) =~= chars@);
    let ghost whole = chars@.take(end as int);
    if end == 0 {
        return None;
    }
    if end == 1 && chars[0] == '/' {
        assert(whole =~= seq!['/']);
        return None;
    }
    let start = find_name(&chars, end);
    let stop = cut_tail(&chars, start);
    assert(whole.take(start as int) =~= chars@.take(start as int));
    assert(chars@.subrange(0, stop as int) =~= chars@.take(stop as int));
    Some(text::substring(&chars, 0, stop))
}

/// The directory that a file is in.
pub fn directory(path: &str) -> (result: String)
    ensures
        result@ == directory_of(path@),
{
    match parent(path) {
        Some(parent) => parent,
        None => {
            let dot = ".".to_owned();
            proof {
                reveal_strlit(".");
            }
            assert(dot@ =~= seq!['.']);
            dot
        },
    }
}

/// The last component, where it is a name.
pub fn file_name(path: &str) -> (result: Option<String>)
    ensures
        text::opt_text(result) == file_name_of(path@),
{
    let chars = text::chars_of(path);
    let end = cut_tail(&chars, chars.len());
    assert(chars@.take(chars@.len() as int) =~= chars@);
    let ghost whole = chars@.take(end as int);
    let start = find_name(&chars, end);
    let name = text::substring(&chars, start, end);
    assert(whole.skip(start as int) =~= name@);
    proof {
        reveal_strlit(".");
        reveal_strlit("..");
    }
    assert("."@ =~= seq!['.']);
    assert(".."@ =~= seq!['.', '.']);
    if start == end || text::same(name.as_str(), ".") || text::same(name.as_str(), "..") {
        None
    } else {
        Some(name)
    }
}

/// The names in a path.
pub fn split_names(path: &str) -> (result: Vec<String>)
    ensures
        text::texts(result@) == names_in(path@),
{
    let chars = text::chars_of(path);
    let mut result: Vec<String> = Vec::new();
    proof {
        reveal_strlit(".");
    }
    assert("."@ =~= seq!['.']);
    assert(chars@.skip(0) =~= chars@);
    assert(text::texts(result@) + names_in(chars@) =~= names_in(chars@));
    let mut index: usize = 0;
    while index < chars.len()
        invariant
            index <= chars@.len(),
            "."@ == seq!['.'],
            names_in(chars@) == text::texts(result@) + names_in(chars@.skip(index as int)),
        decreases chars@.len() - index,
    {
        let ghost rest = chars@.skip(index as int);
        let ghost before = text::texts(result@);
        let end = text::find_char(&chars, index, '/');
        let name = text::substring(&chars, index, end);
        assert(rest.take(end - index) =~= name@);
        let next: usize = if end < chars.len() {
            end + 1
        } else {
            end
        };
        let ghost after = if end < chars@.len() {
            names_in(rest.skip(end - index + 1))
        } else {
            Seq::empty()
        };
        assert(after == names_in(chars@.skip(next as int))) by {
            if end < chars@.len() {
                assert(rest.skip(end - index + 1) =~= chars@.skip(next as int));
            }
        }
        if index < end && !text::same(name.as_str(), ".") {
            result.push(name);
            assert(text::texts(result@) =~= before.push(name@));
            assert(before + (seq![name@] + after) =~= text::texts(result@) + after);
        }
        index = next;
    }
    assert(names_in(chars@.skip(index as int)) =~= Seq::empty());
    assert(text::texts(result@) + Seq::<Seq<char>>::empty() =~= text::texts(result@));
    result
}

/// The components of a path.
pub fn split_components(path: &str) -> (result: Vec<String>)
    ensures
        text::texts(result@) == components(path@),
{
    let chars = text::chars_of(path);
    let mut result: Vec<String> = Vec::new();
    proof {
        reveal_strlit(".");
        reveal_strlit("/");
    }
    assert("."@ =~= seq!['.']);
    assert("/"@ =~= seq!['/']);
    assert(chars@.skip(0) =~= chars@);
    let first = text::find_char(&chars, 0, '/');
    let leading = text::substring(&chars, 0, first);
    assert(chars@.take(first as int) =~= leading@);
    if chars.len() > 0 && chars[0] == '/' {
        result.push("/".to_owned());
    } else if text::same(leading.as_str(), ".") {
        result.push(".".to_owned());
    }
    let ghost front = text::texts(result@);
    assert(components(path@) =~= front + names_in(path@));
    let mut names = split_names(path);
    let ghost back = text::texts(names@);
    result.append(&mut names);
    assert(text::texts(result@) =~= front + back);
    result
}

/// The names of a path stand between its slashes: a name in front of a slash is followed by those
/// behind it. An empty name and a dot are none.
pub proof fn law_names_stand_between_slashes(name: Seq<char>, rest: Seq<char>)
    requires
        forall|i: int| 0 <= i < name.len() ==> #[trigger] name[i] != '/',
    ensures
        name.len() == 0 || name == seq!['.'] ==> names_in(name).len() == 0 && names_in(
            name + seq!['/'] + rest,
        ) == names_in(rest),
        name.len() > 0 && name != seq!['.'] ==> names_in(name) == seq![name] && names_in(
            name + seq!['/'] + rest,
        ) == seq![name] + names_in(rest),
{
    lemma_single_name(name);
    lemma_trailing_separator(name);
    let head = name.push('/');
    lemma_names_concat(head, rest);
    assert(head + rest =~= name + seq!['/'] + rest);
    assert(Seq::<Seq<char>>::empty() + names_in(rest) =~= names_in(rest));
}

/// A path from the root has the root for its first component, one that starts with a dot has the dot,
/// and the names follow; any other path has its names alone.
pub proof fn law_components_start_with_the_root(path: Seq<char>)
    ensures
        path.len() > 0 && path[0] == '/' ==> components(path) == seq![seq!['/']] + names_in(
            path.skip(1),
        ),
        path == seq!['.'] || (path.len() > 1 && path[0] == '.' && path[1] == '/') ==> components(path)
            == seq![seq!['.']] + names_in(path.skip(1)),
        path.len() > 0 && path[0] != '/' && path != seq!['.'] && !(path.len() > 1 && path[0] == '.'
            && path[1] == '/') ==> components(path) == names_in(path),
        path.len() == 0 ==> components(path).len() == 0,
{
    text::lemma_position_of(path, '/');
    if path.len() > 0 && path[0] == '/' {
        lemma_names_concat(seq!['/'], path.skip(1));
        assert(seq!['/'] + path.skip(1) =~= path);
        let empty = Seq::<char>::empty();
        law_names_stand_between_slashes(empty, empty);
        assert(empty + seq!['/'] + empty =~= seq!['/']);
        assert(names_in(seq!['/']) =~= Seq::empty());
        assert(Seq::<Seq<char>>::empty() + names_in(path.skip(1)) =~= names_in(path.skip(1)));
    } else if path == seq!['.'] {
        text::lemma_position_is(path, '/', 1);
        assert(path.take(1) =~= seq!['.']);
        lemma_single_name(path);
        assert(path.skip(1) =~= Seq::empty());
    } else if path.len() > 1 && path[0] == '.' && path[1] == '/' {
        text::lemma_position_is(path, '/', 1);
        assert(path.take(1) =~= seq!['.']);
        let rest = path.skip(2);
        assert(seq!['.'] + seq!['/'] + rest =~= path);
        law_names_stand_between_slashes(seq!['.'], rest);
        let empty = Seq::<char>::empty();
        assert(empty + seq!['/'] + rest =~= path.skip(1));
        law_names_stand_between_slashes(empty, rest);
    } else if path.len() > 0 {
        let at = text::position_of(path, '/') as int;
        if path.take(at) == seq!['.'] {
            assert(path.take(at)[0] == path[0]);
            assert(path.take(at).len() == 1);
            if path.len() == 1 {
                assert(path =~= seq!['.']);
            }
            assert(false);
        }
    }
}

/// A path from the root stands for itself wherever it is seen from. Any other one comes behind the
/// base, with one slash between them where the base has none at its end.
pub proof fn law_paths_are_joined_by_one_slash(base: Seq<char>, path: Seq<char>)
    ensures
        path.len() > 0 && path[0] == '/' ==> joined(base, path) == path,
        path.len() == 0 || path[0] != '/' ==> ({
            &&& base.len() == 0 ==> joined(base, path) == path
            &&& base.len() > 0 && base[base.len() - 1] == '/' ==> joined(base, path) == base + path
            &&& base.len() > 0 && base[base.len() - 1] != '/' ==> joined(base, path) == base + seq![
                '/',
            ] + path
            &&& names_in(joined(base, path)) == names_in(base) + names_in(path)
        }),
{
    if path.len() == 0 || path[0] != '/' {
        if base.len() == 0 {
            assert(base + path =~= path);
            assert(names_in(base) + names_in(path) =~= names_in(path));
        } else if base.last() == '/' {
            lemma_names_concat(base, path);
        } else {
            lemma_trailing_separator(base);
            lemma_names_concat(base.push('/'), path);
            assert(base.push('/') + path =~= base + seq!['/'] + path);
        }
    }
}

/// The name of a file is what stands behind the last slash; a slash at the end makes no difference,
/// and a dot or two are no name.
pub proof fn law_file_names_stand_behind_the_last_slash(directory: Seq<char>, name: Seq<char>)
    requires
        name.len() > 0,
        name != seq!['.'],
        forall|i: int| 0 <= i < name.len() ==> #[trigger] name[i] != '/',
    ensures
        name != seq!['.', '.'] ==> file_name_of(name) == Some(name) && file_name_of(
            directory + seq!['/'] + name,
        ) == Some(name),
        name == seq!['.', '.'] ==> file_name_of(name) is None && file_name_of(
            directory + seq!['/'] + name,
        ) is None,
        file_name_of((directory + seq!['/'] + name).push('/')) == file_name_of(
            directory + seq!['/'] + name,
        ),
        parent_of(directory + seq!['/'] + name) is Some,
{
    let path = directory + seq!['/'] + name;
    lemma_name_is_last(Seq::empty(), name);
    assert(Seq::<char>::empty() + name =~= name);
    lemma_name_is_last(directory.push('/'), name);
    assert(directory.push('/') + name =~= path);
    assert(path.push('/').drop_last() =~= path);
    assert(path.len() > 1);
}

/// A path that ends with a name has nothing to drop at its end, and the name is what stands behind
/// its last slash.
proof fn lemma_name_is_last(head: Seq<char>, name: Seq<char>)
    requires
        head.len() > 0 ==> head.last() == '/',
        name.len() > 0,
        name != seq!['.'],
        forall|i: int| 0 <= i < name.len() ==> #[trigger] name[i] != '/',
    ensures
        without_tail(head + name) == head + name,
        name_start(head + name) == head.len(),
        (head + name).skip(head.len() as int) == name,
{
    let path = head + name;
    assert(path.last() == name[name.len() - 1]);
    assert(path.skip(head.len() as int) =~= name);
    if name.len() == 1 {
        assert(name =~= seq![name[0]]);
    } else {
        assert(path[path.len() - 2] == name[name.len() - 2]);
    }
    lemma_name_start(path);
    let at = name_start(path) as int;
    if at > head.len() {
        assert(path[at - 1] == name[at - 1 - head.len()]);
    } else if at < head.len() {
        assert(path[head.len() - 1] == head.last());
    }
}

/// A file is in the directory that its parent is; one without a parent is in the working directory.
pub proof fn law_files_are_in_their_parent(path: Seq<char>)
    ensures
        parent_of(path) is Some ==> directory_of(path) == parent_of(path)->Some_0,
        parent_of(path) is None ==> directory_of(path) == seq!['.'],
{
}

} // verus!
