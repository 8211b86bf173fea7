//! Paths as a system writes them.
//!
//! On Windows a path may start with a drive or a network share, and a backslash separates its
//! components as a slash does; what stands behind the drive or the share is a path as in
//! [`crate::paths`]. Elsewhere all of it is. A verbatim path is one that Windows takes as it stands,
//! as it gives them back for files that it has found: what is joined to it is followed step by step.
use crate::paths;
use crate::text;
use vstd::prelude::*;

verus! {

/// How a system writes paths.
#[derive(Debug, Clone, Copy, PartialEq, Eq, Structural)]
pub enum Style {
    Unix,
    Windows,
}

/// True for the characters that separate components.
pub open spec fn is_separator(style: Style, ch: char) -> bool {
    ch == '/' || (style is Windows && ch == '\\')
}

/// The path with a slash for each separator.
pub open spec fn slashed(style: Style, path: Seq<char>) -> Seq<char> {
    Seq::new(
        path.len(),
        |i: int|
            if is_separator(style, path[i]) {
                '/'
            } else {
                path[i]
            },
    )
}

/// True for a path that starts with a drive, such as `C:`.
pub open spec fn has_drive(style: Style, path: Seq<char>) -> bool {
    &&& style is Windows
    &&& path.len() >= 2
    &&& path[1] == ':'
    &&& ('a' <= path[0] <= 'z' || 'A' <= path[0] <= 'Z')
}

/// True for a verbatim path such as `\\?\C:\a`, which the system takes as it stands.
pub open spec fn is_verbatim(style: Style, path: Seq<char>) -> bool {
    &&& style is Windows
    &&& path.len() >= 4
    &&& path[0] == '\\'
    &&& path[1] == '\\'
    &&& path[2] == '?'
    &&& path[3] == '\\'
}

/// How long the share at the start of a path with slashes is, such as `//server/share`; none for
/// other paths. A verbatim drive or name such as `//?/C:` has the form of a share.
pub open spec fn share_len(plain: Seq<char>) -> int {
    let server = text::position_of(plain.skip(2), '/') as int;
    let share = text::position_of(plain.skip(3 + server), '/') as int;
    if plain.len() > 2 && plain[0] == '/' && plain[1] == '/' && server > 0 && 2 + server
        < plain.len() && share > 0 {
        3 + server + share
    } else {
        0
    }
}

/// The share of a verbatim path with slashes such as `//?/UNC/server/share`, in the form of a share.
pub open spec fn verbatim_share(plain: Seq<char>) -> Seq<char> {
    seq!['/'] + plain.skip(7)
}

/// True for a verbatim path that starts with a share.
pub open spec fn has_verbatim_share(style: Style, path: Seq<char>) -> bool {
    &&& is_verbatim(style, path)
    &&& path.len() > 8
    &&& slashed(style, path).subrange(4, 8) == seq!['U', 'N', 'C', '/']
    &&& share_len(verbatim_share(slashed(style, path))) > 0
}

/// How long the drive or the share at the start of a path is; none where there is neither.
pub open spec fn prefix_len(style: Style, path: Seq<char>) -> int {
    if has_drive(style, path) {
        2
    } else if has_verbatim_share(style, path) {
        6 + share_len(verbatim_share(slashed(style, path)))
    } else if style is Windows {
        share_len(slashed(style, path))
    } else {
        0
    }
}

/// The drive or the share at the start of a path.
pub open spec fn prefix_of(style: Style, path: Seq<char>) -> Seq<char> {
    slashed(style, path).take(prefix_len(style, path))
}

/// What stands behind the drive or the share, with slashes: for a share alone it is its root.
pub open spec fn body_of(style: Style, path: Seq<char>) -> Seq<char> {
    let at = prefix_len(style, path);
    if at > 0 && at == path.len() && !has_drive(style, path) {
        seq!['/']
    } else {
        slashed(style, path).skip(at)
    }
}

/// True when a path does not depend on the working directory.
pub open spec fn is_fixed(style: Style, path: Seq<char>) -> bool {
    match style {
        Style::Unix => paths::is_rooted(path),
        Style::Windows => prefix_len(style, path) > 0 && paths::is_rooted(body_of(style, path)),
    }
}

/// Where the steps lead from a directory below a root: a step `..` leaves the directory that was
/// entered last.
pub open spec fn followed(names: Seq<Seq<char>>, steps: Seq<Seq<char>>) -> Seq<Seq<char>>
    decreases steps.len(),
{
    if steps.len() == 0 {
        names
    } else {
        let before = followed(names, steps.drop_last());
        if steps.last() != seq!['.', '.'] {
            before.push(steps.last())
        } else if before.len() > 0 && before.last() != seq!['.', '.'] {
            before.drop_last()
        } else {
            before
        }
    }
}

/// The names with a backslash between them.
pub open spec fn with_backslashes(names: Seq<Seq<char>>) -> Seq<char>
    decreases names.len(),
{
    if names.len() == 0 {
        Seq::empty()
    } else if names.len() == 1 {
        names[0]
    } else {
        with_backslashes(names.drop_last()).push('\\') + names.last()
    }
}

/// `path` as seen from a verbatim path: no `.` and no slash would be understood in it, so that each
/// component of `path` is followed.
pub open spec fn followed_from(base: Seq<char>, path: Seq<char>) -> Seq<char> {
    let style = Style::Windows;
    let names = if is_separator(style, path[0]) {
        Seq::empty()
    } else {
        paths::names_in(body_of(style, base))
    };
    base.take(prefix_len(style, base)).push('\\') + with_backslashes(
        followed(names, paths::names_in(slashed(style, path))),
    )
}

/// `path` as seen from `base`. On Windows one with a drive or a share stands for itself, and one
/// that starts at the root is on the drive or the share of `base`.
pub open spec fn joined(style: Style, base: Seq<char>, path: Seq<char>) -> Seq<char> {
    match style {
        Style::Unix => paths::joined(base, path),
        Style::Windows => if prefix_len(style, path) > 0 {
            path
        } else if path.len() > 0 && is_verbatim(style, base) && prefix_len(style, base) > 0 {
            followed_from(base, path)
        } else if path.len() > 0 && is_separator(style, path[0]) {
            base.take(prefix_len(style, base)) + path
        } else if base.len() == 0 || is_separator(style, base.last()) || (has_drive(style, base)
            && base.len() == 2) {
            base + path
        } else {
            base.push('\\') + path
        },
    }
}

/// The path without its last component; a root and a path without components have none.
pub open spec fn parent_of(style: Style, path: Seq<char>) -> Option<Seq<char>> {
    match paths::parent_of(body_of(style, path)) {
        Some(parent) => Some(path.take(prefix_len(style, path) + parent.len())),
        None => None,
    }
}

/// The directory that a file is in; a path without one is taken to be in `.`.
pub open spec fn directory_of(style: Style, path: Seq<char>) -> Seq<char> {
    match parent_of(style, path) {
        Some(parent) => parent,
        None => seq!['.'],
    }
}

/// The last component, where it is a name.
pub open spec fn file_name_of(style: Style, path: Seq<char>) -> Option<Seq<char>> {
    paths::file_name_of(body_of(style, path))
}

/// Where the server of a share ends.
pub open spec fn server_end(share: Seq<char>) -> int {
    2 + text::position_of(share.skip(2), '/') as int
}

/// The components of a drive or a share: one for a drive, whose letter counts without its case, and
/// one each for the server and the name of a share. Each starts with a slash and goes on with what
/// puts the forms in order: a verbatim name, a verbatim share, a verbatim drive, a device, a share,
/// a drive.
pub open spec fn prefix_components(style: Style, path: Seq<char>) -> Seq<Seq<char>> {
    let prefix = prefix_of(style, path);
    if prefix.len() == 0 {
        Seq::empty()
    } else if has_drive(style, path) {
        seq![seq!['/', text::upper(prefix[0]), ':']]
    } else if has_verbatim_share(style, path) {
        let share = verbatim_share(prefix);
        let end = server_end(share);
        seq![seq!['/', '"'] + share.subrange(2, end), share.skip(end)]
    } else if is_verbatim(style, path) {
        let name = prefix.skip(4);
        if has_drive(style, name) && name.len() == 2 {
            seq![seq!['/', '#', text::upper(name[0])]]
        } else {
            seq![seq!['/', '!'] + name]
        }
    } else {
        let end = server_end(prefix);
        if end == 3 && prefix[2] == '.' {
            seq![seq!['/', '$'] + prefix.skip(4)]
        } else {
            seq![prefix.take(end), prefix.skip(end)]
        }
    }
}

/// True for a component of a drive or a share.
pub open spec fn is_prefix_component(component: Seq<char>) -> bool {
    component.len() > 1 && component[0] == '/'
}

/// The components of a path: those of its drive or share, and those of what stands behind it.
#[verifier::opaque]
pub open spec fn components(style: Style, path: Seq<char>) -> Seq<Seq<char>> {
    prefix_components(style, path) + paths::components(body_of(style, path))
}

/// True when both paths have the same components.
pub open spec fn is_same(style: Style, a: Seq<char>, b: Seq<char>) -> bool {
    components(style, a) == components(style, b)
}

/// True when `base` is `path` or a directory above it.
pub open spec fn is_within(style: Style, path: Seq<char>, base: Seq<char>) -> bool {
    components(style, base).is_prefix_of(components(style, path))
}

/// Where slashes alone separate, all that is said here of a path is what is said of it as a plain
/// path.
pub proof fn law_slashes_alone_make_plain_paths(path: Seq<char>, base: Seq<char>)
    ensures
        is_fixed(Style::Unix, path) == paths::is_rooted(path),
        joined(Style::Unix, base, path) == paths::joined(base, path),
        parent_of(Style::Unix, path) == paths::parent_of(path),
        directory_of(Style::Unix, path) == paths::directory_of(path),
        file_name_of(Style::Unix, path) == paths::file_name_of(path),
        components(Style::Unix, path) == paths::components(path),
{
    lemma_unix_body(path);
    reveal(components);
    assert(components(Style::Unix, path) =~= paths::components(path));
    if paths::parent_of(path) is Some {
        lemma_parent_is_a_start(path);
    }
}

/// Where slashes alone separate, nothing stands in front of the components.
proof fn lemma_unix_body(path: Seq<char>)
    ensures
        prefix_of(Style::Unix, path) == Seq::<char>::empty(),
        body_of(Style::Unix, path) == path,
{
    assert(slashed(Style::Unix, path) =~= path);
    assert(path.skip(0) =~= path);
    assert(path.take(0) =~= Seq::empty());
}

/// The parent of a path is a start of it.
proof fn lemma_parent_is_a_start(path: Seq<char>)
    requires
        paths::parent_of(path) is Some,
    ensures
        paths::parent_of(path)->0.len() <= path.len(),
        paths::parent_of(path)->0 == path.take(paths::parent_of(path)->0.len() as int),
{
    let whole = paths::without_tail(path);
    paths::lemma_without_tail(path);
    lemma_tail_is_cut(path);
    let at = paths::name_start(whole) as int;
    lemma_name_start_is_inside(whole);
    lemma_tail_is_cut(whole.take(at));
    let parent = paths::parent_of(path)->0;
    assert(parent =~= path.take(parent.len() as int));
}

/// What is left without a tail is a start of the path.
proof fn lemma_tail_is_cut(path: Seq<char>)
    ensures
        paths::without_tail(path).len() <= path.len(),
        paths::without_tail(path) == path.take(paths::without_tail(path).len() as int),
    decreases path.len(),
{
    if path.len() > 1 && (path.last() == '/' || (path.last() == '.' && path[path.len() - 2]
        == '/')) {
        lemma_tail_is_cut(path.drop_last());
        let cut = paths::without_tail(path);
        assert(cut =~= path.take(cut.len() as int));
    } else {
        assert(path =~= path.take(path.len() as int));
    }
}

/// The name at the end of a path starts inside it.
proof fn lemma_name_start_is_inside(path: Seq<char>)
    ensures
        paths::name_start(path) <= path.len(),
    decreases path.len(),
{
    if path.len() > 0 && path.last() != '/' {
        lemma_name_start_is_inside(path.drop_last());
    }
}

/// A share stands inside its path.
proof fn lemma_share_len(plain: Seq<char>)
    ensures
        0 <= share_len(plain) <= plain.len(),
        share_len(plain) > 0 ==> share_len(plain) >= 5,
        0 < share_len(plain) < plain.len() ==> plain[share_len(plain)] == '/',
        share_len(plain) > 0 ==> 2 < server_end(plain) < share_len(plain) - 1
            && plain[server_end(plain)] == '/' && plain[0] == '/',
{
    let server = text::position_of(plain.skip(2), '/') as int;
    if plain.len() > 2 {
        text::lemma_position_of(plain.skip(2), '/');
        if 2 + server < plain.len() {
            text::lemma_position_of(plain.skip(3 + server), '/');
            if share_len(plain) > 0 {
                let share = text::position_of(plain.skip(3 + server), '/') as int;
                assert(plain.skip(2)[server] == plain[2 + server]);
                if share_len(plain) < plain.len() {
                    assert(plain.skip(3 + server)[share] == plain[3 + server + share]);
                }
            }
        }
    }
}

/// A drive or a share stands inside its path.
pub proof fn lemma_prefix_len(style: Style, path: Seq<char>)
    ensures
        0 <= prefix_len(style, path) <= path.len(),
        prefix_len(style, path) > 0 && !has_drive(style, path) ==> prefix_len(style, path) >= 5,
{
    lemma_share_len(slashed(style, path));
    lemma_share_len(verbatim_share(slashed(style, path)));
}

/// A start of a path that holds its share has the same one, and a start of a path without a share
/// has none.
proof fn lemma_share_of_start(plain: Seq<char>, end: int)
    requires
        share_len(plain) <= end <= plain.len(),
    ensures
        share_len(plain.take(end)) == share_len(plain),
{
    let start = plain.take(end);
    let server = text::position_of(plain.skip(2), '/') as int;
    lemma_share_len(plain);
    lemma_share_len(start);
    if share_len(plain) > 0 {
        let share = text::position_of(plain.skip(3 + server), '/') as int;
        text::lemma_position_of(plain.skip(2), '/');
        text::lemma_position_of(plain.skip(3 + server), '/');
        let (whole, cut) = (plain.skip(2), start.skip(2));
        assert forall|i: int| 0 <= i < server implies cut[i] != '/' by {
            assert(cut[i] == whole[i]);
        }
        assert(cut[server] == whole[server]);
        text::lemma_position_is(cut, '/', server);
        let (whole_share, cut_share) = (plain.skip(3 + server), start.skip(3 + server));
        assert forall|i: int| 0 <= i < share implies cut_share[i] != '/' by {
            assert(cut_share[i] == whole_share[i]);
        }
        if share < cut_share.len() {
            assert(cut_share[share] == whole_share[share]);
        }
        text::lemma_position_is(cut_share, '/', share);
    } else if share_len(start) > 0 {
        let cut_server = text::position_of(start.skip(2), '/') as int;
        let cut_share = text::position_of(start.skip(3 + cut_server), '/') as int;
        text::lemma_position_of(start.skip(2), '/');
        text::lemma_position_of(start.skip(3 + cut_server), '/');
        let (whole, cut) = (plain.skip(2), start.skip(2));
        assert forall|i: int| 0 <= i < cut_server implies whole[i] != '/' by {
            assert(cut[i] == whole[i]);
        }
        assert(cut[cut_server] == whole[cut_server]);
        text::lemma_position_is(whole, '/', cut_server);
        let rest = plain.skip(3 + cut_server);
        text::lemma_position_of(rest, '/');
        assert(start.skip(3 + cut_server)[0] == rest[0]);
        assert(text::position_of(rest, '/') > 0);
        assert(false);
    }
}

/// A start of a path that holds its drive, or more than its share, has the same one.
proof fn lemma_prefix_of_start(style: Style, path: Seq<char>, end: int)
    requires
        prefix_len(style, path) <= end <= path.len(),
        prefix_len(style, path) == end > 0 ==> has_drive(style, path),
    ensures
        prefix_len(style, path.take(end)) == prefix_len(style, path),
        prefix_of(style, path.take(end)) == prefix_of(style, path),
        prefix_components(style, path.take(end)) == prefix_components(style, path),
        body_of(style, path.take(end)) == body_of(style, path).take(
            end - prefix_len(style, path),
        ),
{
    let start = path.take(end);
    let at = prefix_len(style, path);
    lemma_prefix_len(style, path);
    assert(slashed(style, start) =~= slashed(style, path).take(end));
    if style is Windows && !has_drive(style, path) {
        let plain = slashed(style, path);
        if path.len() > 8 && end > 8 {
            assert(plain.take(end).subrange(4, 8) =~= plain.subrange(4, 8));
            assert(verbatim_share(plain.take(end)) =~= verbatim_share(plain).take(end - 6));
            if has_verbatim_share(style, path) || share_len(verbatim_share(plain)) == 0 {
                lemma_share_of_start(verbatim_share(plain), end - 6);
            }
        }
        lemma_share_len(verbatim_share(plain));
        if !has_verbatim_share(style, path) {
            lemma_share_of_start(plain, end);
        }
    }
    assert(prefix_of(style, start) =~= prefix_of(style, path));
    assert(body_of(style, start) =~= body_of(style, path).take(end - at));
}

/// What stands behind a share starts at its root.
proof fn lemma_share_is_rooted(style: Style, path: Seq<char>)
    requires
        prefix_len(style, path) > 0,
        !has_drive(style, path),
    ensures
        paths::is_rooted(body_of(style, path)),
{
    let plain = slashed(style, path);
    lemma_share_len(plain);
    lemma_share_len(verbatim_share(plain));
    if prefix_len(style, path) < path.len() {
        assert(body_of(style, path)[0] == plain[prefix_len(style, path)]);
    }
}

/// The parent of a path that starts at the root does so too.
proof fn lemma_parent_keeps_root(path: Seq<char>)
    requires
        paths::is_rooted(path),
        paths::parent_of(path) is Some,
    ensures
        paths::parent_of(path)->0.len() > 0,
{
    let whole = paths::without_tail(path);
    lemma_tail_keeps_start(path);
    lemma_name_behind_root(whole);
    lemma_name_start_is_inside(whole);
    lemma_tail_keeps_start(whole.take(paths::name_start(whole) as int));
}

/// Without its tail a path keeps its first character.
proof fn lemma_tail_keeps_start(path: Seq<char>)
    requires
        path.len() > 0,
    ensures
        paths::without_tail(path).len() > 0,
        paths::without_tail(path)[0] == path[0],
    decreases path.len(),
{
    if path.len() > 1 && (path.last() == '/' || (path.last() == '.' && path[path.len() - 2]
        == '/')) {
        lemma_tail_keeps_start(path.drop_last());
    }
}

/// The name at the end of a path that starts at the root stands behind the root.
proof fn lemma_name_behind_root(path: Seq<char>)
    requires
        paths::is_rooted(path),
    ensures
        paths::name_start(path) > 0,
    decreases path.len(),
{
    if path.last() != '/' {
        lemma_name_behind_root(path.drop_last());
    }
}

/// The parent of what stands behind a drive or a share is shorter than it.
proof fn lemma_parent_fits(style: Style, path: Seq<char>)
    requires
        parent_of(style, path) is Some,
    ensures
        ({
            let body = body_of(style, path);
            let parent = paths::parent_of(body)->0;
            &&& body.len() == path.len() - prefix_len(style, path)
            &&& parent.len() < body.len()
            &&& prefix_len(style, path) > 0 && !has_drive(style, path) ==> parent.len() > 0
        }),
{
    let body = body_of(style, path);
    let at = prefix_len(style, path);
    lemma_prefix_len(style, path);
    paths::law_parent_drops_last_component(body);
    if at > 0 && !has_drive(style, path) {
        lemma_share_is_rooted(style, path);
        lemma_parent_keeps_root(body);
        if at == path.len() {
            assert(body =~= seq!['/']);
        }
    }
}

/// The parent of a path is shorter, and has the components of the path but the last.
pub proof fn law_parent_drops_last_component(style: Style, path: Seq<char>)
    requires
        parent_of(style, path) is Some,
    ensures
        ({
            let parent = parent_of(style, path)->0;
            &&& parent.len() < path.len()
            &&& components(style, path).len() > 0
            &&& components(style, parent) == components(style, path).drop_last()
        }),
{
    let body = body_of(style, path);
    let at = prefix_len(style, path);
    lemma_prefix_len(style, path);
    paths::law_parent_drops_last_component(body);
    lemma_parent_is_a_start(body);
    let parent = paths::parent_of(body)->0;
    lemma_parent_fits(style, path);
    lemma_prefix_of_start(style, path, at + parent.len());
    let whole = path.take(at + parent.len());
    reveal(components);
    assert(components(style, whole) =~= components(style, path).drop_last());
}

/// The server of a share ends inside of it.
proof fn lemma_share_ends(style: Style, path: Seq<char>)
    requires
        prefix_of(style, path).len() > 0,
        !has_drive(style, path),
    ensures
        ({
            let prefix = prefix_of(style, path);
            let share = if has_verbatim_share(style, path) {
                verbatim_share(prefix)
            } else {
                prefix
            };
            &&& prefix.len() >= 5
            &&& 2 < server_end(share) < share.len() - 1
            &&& share[0] == '/'
            &&& share[server_end(share)] == '/'
        }),
{
    let plain = slashed(style, path);
    let prefix = prefix_of(style, path);
    let at = prefix_len(style, path);
    lemma_prefix_len(style, path);
    if has_verbatim_share(style, path) {
        let whole = verbatim_share(plain);
        lemma_share_len(whole);
        lemma_share_of_start(whole, at - 6);
        assert(verbatim_share(prefix) =~= whole.take(at - 6));
        lemma_share_len(verbatim_share(prefix));
    } else {
        lemma_share_len(plain);
        lemma_share_of_start(plain, at);
        lemma_share_len(prefix);
    }
}

/// The components of a drive or a share are told from all others.
proof fn lemma_prefix_components(style: Style, path: Seq<char>)
    ensures
        forall|i: int|
            0 <= i < prefix_components(style, path).len() ==> is_prefix_component(
                #[trigger] prefix_components(style, path)[i],
            ),
        forall|i: int|
            0 <= i < paths::components(body_of(style, path)).len() ==> !is_prefix_component(
                #[trigger] paths::components(body_of(style, path))[i],
            ),
{
    let prefix = prefix_of(style, path);
    lemma_prefix_len(style, path);
    lemma_names_have_no_slash(body_of(style, path));
    if prefix.len() > 0 && !has_drive(style, path) {
        lemma_share_ends(style, path);
    }
}

/// The names in a path hold no separator.
proof fn lemma_names_have_no_slash(path: Seq<char>)
    ensures
        forall|i: int|
            0 <= i < paths::names_in(path).len() ==> !is_prefix_component(
                #[trigger] paths::names_in(path)[i],
            ),
    decreases path.len(),
{
    if path.len() > 0 {
        let end = text::position_of(path, '/') as int;
        text::lemma_position_of(path, '/');
        if end < path.len() {
            lemma_names_have_no_slash(path.skip(end + 1));
        }
        let name = path.take(end);
        let rest = if end < path.len() {
            paths::names_in(path.skip(end + 1))
        } else {
            Seq::empty()
        };
        assert forall|i: int| 0 <= i < paths::names_in(path).len() implies !is_prefix_component(
            #[trigger] paths::names_in(path)[i],
        ) by {
            if name.len() == 0 || name == seq!['.'] {
                assert(paths::names_in(path)[i] == rest[i]);
            } else if i > 0 {
                assert(paths::names_in(path)[i] == rest[i - 1]);
            } else {
                assert(paths::names_in(path)[i] == name);
            }
        }
    }
}

/// A path that has no parent, in a directory that does not depend on the working directory, has the
/// components of that directory.
pub proof fn lemma_top_is_the_root(style: Style, path: Seq<char>, root: Seq<char>)
    requires
        is_fixed(style, root),
        is_within(style, path, root),
        parent_of(style, path) is None,
    ensures
        is_same(style, path, root),
{
    reveal(components);
    let (inner, outer) = (components(style, path), components(style, root));
    let inner_count = prefix_components(style, path).len() as int;
    let outer_count = prefix_components(style, root).len() as int;
    lemma_prefix_components(style, path);
    lemma_prefix_components(style, root);
    lemma_unix_body(root);
    paths::lemma_without_parent(body_of(style, path));
    assert(outer =~= inner.subrange(0, outer.len() as int));
    assert(outer[outer_count] == paths::components(body_of(style, root))[0]);
    assert(outer.len() > outer_count);
    assert(inner[outer_count] == outer[outer_count]);
    if inner_count > outer_count {
        assert(is_prefix_component(prefix_components(style, path)[outer_count]));
    }
    assert(inner.len() <= inner_count + 1);
    assert(inner =~= outer);
}

/// The path with a slash for each separator.
fn slash(style: Style, path: &str) -> (plain: Vec<char>)
    ensures
        plain@ == slashed(style, path@),
{
    let chars = text::chars_of(path);
    let mut plain: Vec<char> = Vec::new();
    let mut index: usize = 0;
    while index < chars.len()
        invariant
            index <= chars@.len(),
            chars@ == path@,
            plain@.len() == index,
            forall|i: int|
                0 <= i < index ==> #[trigger] plain@[i] == slashed(style, path@)[i],
        decreases chars@.len() - index,
    {
        let ch = chars[index];
        let is_backslash = match style {
            Style::Unix => false,
            Style::Windows => ch == '\\',
        };
        plain.push(
            if is_backslash {
                '/'
            } else {
                ch
            },
        );
        index += 1;
    }
    assert(plain@ =~= slashed(style, path@));
    plain
}

/// True for a path that starts with a drive.
fn starts_with_drive(style: Style, chars: &Vec<char>) -> (result: bool)
    ensures
        result == has_drive(style, chars@),
{
    match style {
        Style::Unix => false,
        Style::Windows => chars.len() >= 2 && chars[1] == ':' && (('a' <= chars[0] && chars[0]
            <= 'z') || ('A' <= chars[0] && chars[0] <= 'Z')),
    }
}

/// How long the share at the start of a path with slashes is.
fn find_share(plain: &Vec<char>) -> (length: usize)
    ensures
        length == share_len(plain@),
{
    if plain.len() <= 2 || plain[0] != '/' || plain[1] != '/' {
        return 0;
    }
    let server_end: usize = text::find_char(plain, 2, '/');
    if server_end == 2 || server_end >= plain.len() {
        return 0;
    }
    let share_end: usize = text::find_char(plain, server_end + 1, '/');
    if share_end == server_end + 1 {
        return 0;
    }
    share_end
}

/// How long the drive or the share at the start of a path is.
fn find_prefix(style: Style, chars: &Vec<char>, plain: &Vec<char>) -> (length: usize)
    requires
        plain@ == slashed(style, chars@),
    ensures
        length == prefix_len(style, chars@),
        length <= chars@.len(),
{
    proof {
        lemma_prefix_len(style, chars@);
    }
    if starts_with_drive(style, chars) {
        return 2;
    }
    let share = find_verbatim_share(style, chars, plain);
    if share > 0 {
        assert(6 + share <= chars.len());
        return 6 + share;
    }
    match style {
        Style::Unix => 0,
        Style::Windows => find_share(plain),
    }
}

/// The share of a verbatim path, in the form of a share.
fn read_verbatim_share(plain: &Vec<char>) -> (share: Vec<char>)
    requires
        plain@.len() > 8,
    ensures
        share@ == verbatim_share(plain@),
{
    let mut share: Vec<char> = Vec::new();
    share.push('/');
    let mut index: usize = 7;
    while index < plain.len()
        invariant
            7 <= index <= plain@.len(),
            share@ == seq!['/'] + plain@.subrange(7, index as int),
        decreases plain@.len() - index,
    {
        share.push(plain[index]);
        index += 1;
    }
    assert(share@ =~= verbatim_share(plain@));
    share
}

/// How long the share of a verbatim path is, in the form of a share; none for other paths.
fn find_verbatim_share(style: Style, chars: &Vec<char>, plain: &Vec<char>) -> (length: usize)
    requires
        plain@ == slashed(style, chars@),
    ensures
        length == (if has_verbatim_share(style, chars@) {
            share_len(verbatim_share(plain@))
        } else {
            0
        }),
        length > 0 ==> 6 + length <= chars@.len(),
        length > 0 <==> has_verbatim_share(style, chars@),
{
    if !starts_verbatim(style, chars) || plain.len() <= 8 {
        return 0;
    }
    let ghost mark = plain@.subrange(4, 8);
    if plain[4] != 'U' || plain[5] != 'N' || plain[6] != 'C' || plain[7] != '/' {
        assert(mark[0] == plain@[4] && mark[1] == plain@[5] && mark[2] == plain@[6] && mark[3]
            == plain@[7]);
        return 0;
    }
    assert(mark =~= seq!['U', 'N', 'C', '/']);
    proof {
        lemma_share_len(verbatim_share(plain@));
    }
    find_share(&read_verbatim_share(plain))
}

/// What stands behind the drive or the share, which ends at a place.
fn read_body(style: Style, chars: &Vec<char>, plain: &Vec<char>, at: usize) -> (result: String)
    requires
        plain@ == slashed(style, chars@),
        at == prefix_len(style, chars@),
        at <= chars@.len(),
    ensures
        result@ == body_of(style, chars@),
{
    if at > 0 && at == chars.len() && !starts_with_drive(style, chars) {
        let root = "/".to_owned();
        proof {
            reveal_strlit("/");
        }
        assert(root@ =~= seq!['/']);
        return root;
    }
    let result = text::substring(plain, at, plain.len());
    assert(result@ =~= body_of(style, chars@));
    result
}

/// What stands behind the drive or the share, with slashes.
fn body(style: Style, path: &str) -> (result: String)
    ensures
        result@ == body_of(style, path@),
{
    let chars = text::chars_of(path);
    let plain = slash(style, path);
    let at = find_prefix(style, &chars, &plain);
    read_body(style, &chars, &plain, at)
}

/// The drive or the share at the start of a path.
fn prefix(style: Style, path: &str) -> (result: String)
    ensures
        result@ == prefix_of(style, path@),
{
    let chars = text::chars_of(path);
    let plain = slash(style, path);
    let at = find_prefix(style, &chars, &plain);
    let result = text::substring(&plain, 0, at);
    assert(result@ =~= prefix_of(style, path@));
    result
}

/// True when a path does not depend on the working directory.
pub fn is_absolute(style: Style, path: &str) -> (result: bool)
    ensures
        result == is_fixed(style, path@),
{
    match style {
        Style::Unix => paths::is_absolute(path),
        Style::Windows => {
            let chars = text::chars_of(path);
            let plain = slash(style, path);
            let at = find_prefix(style, &chars, &plain);
            at > 0 && paths::is_absolute(read_body(style, &chars, &plain, at).as_str())
        },
    }
}

/// True for a verbatim path.
fn starts_verbatim(style: Style, chars: &Vec<char>) -> (result: bool)
    ensures
        result == is_verbatim(style, chars@),
{
    match style {
        Style::Unix => false,
        Style::Windows => chars.len() >= 4 && chars[0] == '\\' && chars[1] == '\\' && chars[2] == '?'
            && chars[3] == '\\',
    }
}

/// Where the steps lead from a directory below a root.
fn follow(names: Vec<String>, steps: &Vec<String>) -> (result: Vec<String>)
    ensures
        text::texts(result@) == followed(text::texts(names@), text::texts(steps@)),
{
    let ghost from = text::texts(names@);
    let ghost all = text::texts(steps@);
    let mut result = names;
    let mut index: usize = 0;
    proof {
        reveal_strlit("..");
    }
    assert(".."@ =~= seq!['.', '.']);
    assert(all.take(0) =~= Seq::empty());
    while index < steps.len()
        invariant
            index <= steps@.len(),
            all == text::texts(steps@),
            ".."@ == seq!['.', '.'],
            text::texts(result@) == followed(from, all.take(index as int)),
        decreases steps@.len() - index,
    {
        let ghost before = text::texts(result@);
        assert(all.take(index + 1).drop_last() =~= all.take(index as int));
        assert(all.take(index + 1).last() == steps@[index as int]@);
        if !text::same(steps[index].as_str(), "..") {
            result.push(steps[index].clone());
            assert(text::texts(result@) =~= before.push(steps@[index as int]@));
        } else if result.len() > 0 {
            let last: usize = result.len() - 1;
            assert(before.last() == result@[last as int]@);
            if !text::same(result[last].as_str(), "..") {
                let _ = result.pop();
                assert(text::texts(result@) =~= before.drop_last());
            }
        }
        index += 1;
    }
    assert(all.take(index as int) =~= all);
    result
}

/// The names with a backslash between them, behind a text.
fn append_names(front: String, names: &Vec<String>) -> (result: String)
    ensures
        result@ == front@ + with_backslashes(text::texts(names@)),
{
    let ghost all = text::texts(names@);
    let mut result = front;
    let mut index: usize = 0;
    assert(all.take(0) =~= Seq::empty());
    assert(front@ + Seq::<char>::empty() =~= front@);
    while index < names.len()
        invariant
            index <= names@.len(),
            all == text::texts(names@),
            result@ == front@ + with_backslashes(all.take(index as int)),
        decreases names@.len() - index,
    {
        let ghost before = with_backslashes(all.take(index as int));
        let name = names[index].as_str();
        assert(all.take(index + 1).drop_last() =~= all.take(index as int));
        assert(all.take(index + 1).last() == name@);
        if index > 0 {
            result.push('\\');
        }
        result.append(name);
        assert(result@ =~= front@ + with_backslashes(all.take(index + 1)));
        index += 1;
    }
    assert(all.take(index as int) =~= all);
    result
}

/// `path` as seen from a verbatim path whose drive or share ends at a place.
fn follow_from(base: &str, base_chars: &Vec<char>, at: usize, path: &str) -> (result: String)
    requires
        base_chars@ == base@,
        at == prefix_len(Style::Windows, base@),
        at <= base@.len(),
        path@.len() > 0,
    ensures
        result@ == followed_from(base@, path@),
{
    let style = Style::Windows;
    let plain = slash(style, path);
    let names = if plain[0] == '/' {
        let none: Vec<String> = Vec::new();
        assert(text::texts(none@) =~= Seq::empty());
        none
    } else {
        paths::split_names(body(style, base).as_str())
    };
    let text = text::substring(&plain, 0, plain.len());
    assert(text@ =~= slashed(style, path@));
    let steps = paths::split_names(text.as_str());
    let mut front = text::substring(base_chars, 0, at);
    assert(front@ =~= base@.take(at as int));
    front.push('\\');
    append_names(front, &follow(names, &steps))
}

/// `path` as seen from `base`.
pub fn join(style: Style, base: &str, path: &str) -> (result: String)
    ensures
        result@ == joined(style, base@, path@),
{
    match style {
        Style::Unix => paths::join(base, path),
        Style::Windows => {
            let chars = text::chars_of(path);
            let plain = slash(style, path);
            if find_prefix(style, &chars, &plain) > 0 {
                return path.to_owned();
            }
            let base_chars = text::chars_of(base);
            let base_plain = slash(style, base);
            let at = find_prefix(style, &base_chars, &base_plain);
            if plain.len() > 0 && at > 0 && starts_verbatim(style, &base_chars) {
                return follow_from(base, &base_chars, at, path);
            }
            if plain.len() > 0 && plain[0] == '/' {
                let mut rooted = text::substring(&base_chars, 0, at);
                assert(rooted@ =~= base@.take(at as int));
                rooted.append(path);
                return rooted;
            }
            let mut result = base.to_owned();
            let count: usize = base_plain.len();
            if count > 0 && base_plain[count - 1] != '/' && !(count == 2 && starts_with_drive(
                style,
                &base_chars,
            )) {
                result.push('\\');
            }
            result.append(path);
            result
        },
    }
}

/// The path without its last component.
pub fn parent(style: Style, path: &str) -> (result: Option<String>)
    ensures
        text::opt_text(result) == parent_of(style, path@),
{
    let chars = text::chars_of(path);
    let plain = slash(style, path);
    let at = find_prefix(style, &chars, &plain);
    let rest = read_body(style, &chars, &plain, at);
    match paths::parent(rest.as_str()) {
        Some(above) => {
            let above_chars = text::chars_of(above.as_str());
            proof {
                lemma_parent_fits(style, path@);
            }
            let result = text::substring(&chars, 0, at + above_chars.len());
            assert(result@ =~= path@.take(at + above@.len()));
            Some(result)
        },
        None => None,
    }
}

/// The directory that a file is in.
pub fn directory(style: Style, path: &str) -> (result: String)
    ensures
        result@ == directory_of(style, path@),
{
    match parent(style, path) {
        Some(found) => found,
        None => {
            let dot = ".".to_owned();
            proof {
                reveal_strlit(".");
            }
            assert(dot@ =~= seq!['.']);
            dot
        },
    }
}

/// The last component, where it is a name.
pub fn file_name(style: Style, path: &str) -> (result: Option<String>)
    ensures
        text::opt_text(result) == file_name_of(style, path@),
{
    paths::file_name(body(style, path).as_str())
}

/// A mark and the characters of a list from a place on, up to another.
fn marked(mark: char, chars: &Vec<char>, from: usize, to: usize) -> (component: String)
    requires
        from <= to <= chars@.len(),
    ensures
        component@ == seq!['/', mark] + chars@.subrange(from as int, to as int),
{
    let mut component = "/".to_owned();
    proof {
        reveal_strlit("/");
    }
    component.push(mark);
    component.append(text::substring(chars, from, to).as_str());
    assert(component@ =~= seq!['/', mark] + chars@.subrange(from as int, to as int));
    component
}

/// The components of the drive or the share at the start of a path.
fn split_prefix(style: Style, path: &str) -> (result: Vec<String>)
    ensures
        text::texts(result@) == prefix_components(style, path@),
{
    let chars = text::chars_of(path);
    let plain = slash(style, path);
    let start = text::chars_of(prefix(style, path).as_str());
    let ghost expected = prefix_components(style, path@);
    let mut result: Vec<String> = Vec::new();
    if start.len() == 0 {
        assert(text::texts(result@) =~= expected);
        return result;
    }
    if starts_with_drive(style, &chars) {
        let mut drive = marked(text::to_upper(start[0]), &start, 0, 0);
        drive.push(':');
        assert(drive@ =~= seq!['/', text::upper(start@[0]), ':']);
        result.push(drive);
        assert(text::texts(result@) =~= expected);
        return result;
    }
    proof {
        lemma_share_ends(style, path@);
        lemma_prefix_len(style, path@);
    }
    if find_verbatim_share(style, &chars, &plain) > 0 {
        proof {
            lemma_share_len(verbatim_share(plain@));
        }
        let share = read_verbatim_share(&start);
        let end = text::find_char(&share, 2, '/');
        result.push(marked('"', &share, 2, end));
        let name = text::substring(&share, end, share.len());
        assert(name@ =~= share@.skip(end as int));
        result.push(name);
        assert(text::texts(result@) =~= expected);
    } else if starts_verbatim(style, &chars) {
        let ghost name = start@.skip(4);
        if start.len() == 6 && start[5] == ':' && (('a' <= start[4] && start[4] <= 'z') || (
        'A' <= start[4] && start[4] <= 'Z')) {
            assert(has_drive(style, name) && name.len() == 2);
            let mut drive = marked('#', &start, 0, 0);
            drive.push(text::to_upper(start[4]));
            assert(drive@ =~= seq!['/', '#', text::upper(name[0])]);
            result.push(drive);
        } else {
            assert(!(has_drive(style, name) && name.len() == 2));
            assert(start@.subrange(4, start@.len() as int) =~= name);
            result.push(marked('!', &start, 4, start.len()));
        }
        assert(text::texts(result@) =~= expected);
    } else {
        let end = text::find_char(&start, 2, '/');
        if end == 3 && start[2] == '.' {
            assert(start@.subrange(4, start@.len() as int) =~= start@.skip(4));
            result.push(marked('$', &start, 4, start.len()));
        } else {
            let server = text::substring(&start, 0, end);
            let name = text::substring(&start, end, start.len());
            assert(server@ =~= start@.take(end as int));
            assert(name@ =~= start@.skip(end as int));
            result.push(server);
            result.push(name);
        }
        assert(text::texts(result@) =~= expected);
    }
    result
}

/// The components of a path.
pub fn split(style: Style, path: &str) -> (result: Vec<String>)
    ensures
        text::texts(result@) == components(style, path@),
{
    let mut result = split_prefix(style, path);
    let ghost front = result@;
    let mut rest = paths::split_components(body(style, path).as_str());
    let ghost back = rest@;
    result.append(&mut rest);
    assert(text::texts(result@) =~= text::texts(front) + text::texts(back));
    proof {
        reveal(components);
    }
    result
}

/// True when a list starts with another one.
fn starts_with(list: &Vec<String>, start: &Vec<String>) -> (result: bool)
    ensures
        result == text::texts(start@).is_prefix_of(text::texts(list@)),
{
    let ghost (all, first) = (text::texts(list@), text::texts(start@));
    if start.len() > list.len() {
        return false;
    }
    let mut index: usize = 0;
    while index < start.len()
        invariant
            index <= start@.len() <= list@.len(),
            all == text::texts(list@),
            first == text::texts(start@),
            forall|i: int| 0 <= i < index ==> all[i] == first[i],
        decreases start@.len() - index,
    {
        if !text::same(list[index].as_str(), start[index].as_str()) {
            assert(all[index as int] != first[index as int]);
            assert(all.subrange(0, first.len() as int)[index as int] == all[index as int]);
            return false;
        }
        index += 1;
    }
    assert(first =~= all.subrange(0, first.len() as int));
    true
}

/// True when both paths have the same components.
pub fn same_path(style: Style, left: &str, right: &str) -> (equal: bool)
    ensures
        equal == is_same(style, left@, right@),
{
    let a = split(style, left);
    let b = split(style, right);
    let inside = starts_with(&a, &b);
    let around = starts_with(&b, &a);
    proof {
        let (all_a, all_b) = (components(style, left@), components(style, right@));
        if inside && around {
            assert(all_a =~= all_b.subrange(0, all_a.len() as int));
            assert(all_a =~= all_b);
        }
        if all_a == all_b {
            assert(all_a =~= all_b.subrange(0, all_a.len() as int));
        }
    }
    inside && around
}

/// True when `base` is `path` or a directory above it.
pub fn is_inside(style: Style, path: &str, base: &str) -> (inside: bool)
    ensures
        inside == is_within(style, path@, base@),
{
    starts_with(&split(style, path), &split(style, base))
}

/// On Windows a path on a drive has the drive as its first component, whatever the case of its
/// letter, and the components of what stands behind it, in which a backslash separates as a slash
/// does.
pub proof fn law_drives_count_without_case(letter: char, rest: Seq<char>)
    requires
        'a' <= letter <= 'z' || 'A' <= letter <= 'Z',
    ensures
        components(Style::Windows, seq![letter, ':'] + rest) == seq![
            seq!['/', text::upper(letter), ':'],
        ] + paths::components(
            Seq::new(
                rest.len(),
                |i: int|
                    if rest[i] == '/' || rest[i] == '\\' {
                        '/'
                    } else {
                        rest[i]
                    },
            ),
        ),
{
    let style = Style::Windows;
    let path = seq![letter, ':'] + rest;
    let plain = Seq::new(
        rest.len(),
        |i: int|
            if rest[i] == '/' || rest[i] == '\\' {
                '/'
            } else {
                rest[i]
            },
    );
    reveal(components);
    assert(path[0] == letter && path[1] == ':');
    assert(has_drive(style, path));
    assert(body_of(style, path) =~= plain);
    assert(prefix_of(style, path).len() == 2);
    assert(prefix_of(style, path)[0] == letter);
}

/// A path that starts neither with a drive nor with a separator has no drive or share in front.
proof fn lemma_no_prefix(path: Seq<char>)
    requires
        !has_drive(Style::Windows, path),
        path.len() == 0 || !is_separator(Style::Windows, path[0]) || (path.len() == 1
            || !is_separator(Style::Windows, path[1])),
    ensures
        prefix_len(Style::Windows, path) == 0,
{
    let plain = slashed(Style::Windows, path);
    if path.len() > 0 {
        assert(plain[0] == (if is_separator(Style::Windows, path[0]) {
            '/'
        } else {
            path[0]
        }));
    }
    if path.len() > 1 {
        assert(plain[1] == (if is_separator(Style::Windows, path[1]) {
            '/'
        } else {
            path[1]
        }));
    }
}

/// On Windows a path without a drive and without two separators in front has the components that its
/// names have with slashes between them.
pub proof fn law_backslashes_separate_too(path: Seq<char>)
    requires
        path.len() < 2 || path[1] != ':' || !('a' <= path[0] <= 'z' || 'A' <= path[0] <= 'Z'),
        path.len() < 2 || !(path[0] == '/' || path[0] == '\\') || !(path[1] == '/' || path[1]
            == '\\'),
    ensures
        components(Style::Windows, path) == paths::components(
            Seq::new(
                path.len(),
                |i: int|
                    if path[i] == '/' || path[i] == '\\' {
                        '/'
                    } else {
                        path[i]
                    },
            ),
        ),
        !is_fixed(Style::Windows, path),
{
    let style = Style::Windows;
    let plain = Seq::new(
        path.len(),
        |i: int|
            if path[i] == '/' || path[i] == '\\' {
                '/'
            } else {
                path[i]
            },
    );
    lemma_no_prefix(path);
    reveal(components);
    assert(slashed(style, path) =~= plain);
    assert(plain.skip(0) =~= plain);
    assert(components(style, path) =~= paths::components(plain));
}

/// On Windows a share has its server and its name for its first components, and what stands behind
/// them starts at its root.
pub proof fn law_shares_have_server_and_name(server: Seq<char>, share: Seq<char>, rest: Seq<char>)
    requires
        server.len() > 0,
        share.len() > 0,
        server != seq!['.'],
        server != seq!['?'],
        forall|i: int|
            0 <= i < server.len() ==> #[trigger] server[i] != '/' && server[i] != '\\',
        forall|i: int| 0 <= i < share.len() ==> #[trigger] share[i] != '/' && share[i] != '\\',
        rest.len() > 0 ==> rest[0] == '/',
        forall|i: int| 0 <= i < rest.len() ==> #[trigger] rest[i] != '\\',
    ensures
        components(Style::Windows, seq!['/', '/'] + server + seq!['/'] + share + rest) == seq![
            seq!['/', '/'] + server,
            seq!['/'] + share,
        ] + paths::components(
            if rest.len() == 0 {
                seq!['/']
            } else {
                rest
            },
        ),
        is_fixed(Style::Windows, seq!['/', '/'] + server + seq!['/'] + share + rest),
{
    let style = Style::Windows;
    let path = seq!['/', '/'] + server + seq!['/'] + share + rest;
    assert(path[0] == '/' && path[1] == '/');
    assert(!has_drive(style, path));
    assert(!is_verbatim(style, path));
    assert forall|i: int| 0 <= i < path.len() implies path[i] != '\\' by {
        if 2 <= i < 2 + server.len() {
            assert(path[i] == server[i - 2]);
        } else if 3 + server.len() <= i < 3 + server.len() + share.len() {
            assert(path[i] == share[i - 3 - server.len()]);
        } else if i >= 3 + server.len() + share.len() {
            assert(path[i] == rest[i - 3 - server.len() - share.len()]);
        }
    }
    assert(slashed(style, path) =~= path);
    lemma_share_of(server, share, rest);
    let at = 3 + server.len() + share.len();
    assert(prefix_len(style, path) == at);
    let prefix = prefix_of(style, path);
    assert(prefix =~= seq!['/', '/'] + server + seq!['/'] + share);
    assert(prefix =~= seq!['/', '/'] + server + seq!['/'] + share + Seq::<char>::empty());
    lemma_share_of(server, share, Seq::empty());
    let end = server_end(prefix);
    assert(end == 2 + server.len());
    if end == 3 && prefix[2] == '.' {
        assert(server =~= seq!['.']);
    }
    assert(prefix.take(end) =~= seq!['/', '/'] + server);
    assert(prefix.skip(end) =~= seq!['/'] + share);
    if rest.len() > 0 {
        assert(body_of(style, path) =~= rest);
    }
    reveal(components);
}

/// On Windows a path is fixed where it names a drive and starts at its root.
pub proof fn law_drives_have_roots(letter: char, rest: Seq<char>)
    requires
        'a' <= letter <= 'z' || 'A' <= letter <= 'Z',
    ensures
        is_fixed(Style::Windows, seq![letter, ':'] + rest) <==> rest.len() > 0 && (rest[0] == '/'
            || rest[0] == '\\'),
{
    let path = seq![letter, ':'] + rest;
    assert(path[0] == letter && path[1] == ':');
    assert(has_drive(Style::Windows, path));
    if rest.len() > 0 {
        assert(path[2] == rest[0]);
        assert(slashed(Style::Windows, path).skip(2)[0] == slashed(Style::Windows, path)[2]);
    }
}

/// On Windows a path with a drive stands for itself wherever it is seen from. From a drive, one that
/// starts with a separator is on that drive, and any other one comes behind the base, with a
/// backslash between them where the base ends with a name.
pub proof fn law_windows_paths_are_joined(
    letter: char,
    below: Seq<char>,
    other: char,
    path: Seq<char>,
)
    requires
        'a' <= letter <= 'z' || 'A' <= letter <= 'Z',
        'a' <= other <= 'z' || 'A' <= other <= 'Z',
    ensures
        ({
            let base = seq![letter, ':'] + below;
            let named = path.len() >= 2 && path[1] == ':' && ('a' <= path[0] <= 'z' || 'A' <= path[0]
                <= 'Z');
            &&& joined(Style::Windows, base, seq![other, ':'] + path) == seq![other, ':'] + path
            &&& path.len() > 0 && (path[0] == '/' || path[0] == '\\') && (path.len() == 1 || (
            path[1] != '/' && path[1] != '\\')) ==> joined(Style::Windows, base, path) == seq![
                letter,
                ':',
            ] + path
            &&& path.len() > 0 && path[0] != '/' && path[0] != '\\' && !named ==> joined(
                Style::Windows,
                base,
                path,
            ) == if below.len() == 0 || below[below.len() - 1] == '/' || below[below.len() - 1]
                == '\\' {
                base + path
            } else {
                base + seq!['\\'] + path
            }
        }),
{
    let style = Style::Windows;
    let base = seq![letter, ':'] + below;
    let named = seq![other, ':'] + path;
    assert(base[0] == letter && base[1] == ':');
    assert(has_drive(style, base));
    assert(!is_verbatim(style, base));
    assert(named[0] == other && named[1] == ':');
    assert(has_drive(style, named));
    assert(base.take(2) =~= seq![letter, ':']);
    if below.len() > 0 {
        assert(base.last() == below[below.len() - 1]);
    }
    if path.len() > 0 && !has_drive(style, path) && (path.len() == 1 || !is_separator(
        style,
        path[0],
    ) || !is_separator(style, path[1])) {
        lemma_no_prefix(path);
        assert(base.push('\\') + path =~= base + seq!['\\'] + path);
    }
}

/// Steps are followed one after the other: those that enter directories are added to the way, one
/// that leaves undoes the last one that entered, and the root cannot be left.
pub proof fn law_steps_are_followed_in_order(
    names: Seq<Seq<char>>,
    steps: Seq<Seq<char>>,
    more: Seq<Seq<char>>,
    step: Seq<char>,
)
    ensures
        followed(followed(names, steps), more) == followed(names, steps + more),
        (forall|i: int| 0 <= i < steps.len() ==> #[trigger] steps[i] != seq!['.', '.']) ==> followed(
            names,
            steps,
        ) == names + steps,
        step != seq!['.', '.'] ==> followed(names, seq![step, seq!['.', '.']]) == names,
        followed(Seq::empty(), seq![seq!['.', '.']]).len() == 0,
    decreases more.len(), steps.len(),
{
    if more.len() > 0 {
        let rest = more.drop_last();
        law_steps_are_followed_in_order(names, steps, rest, step);
        assert((steps + more).drop_last() =~= steps + rest);
        assert((steps + more).last() == more.last());
    } else {
        assert(steps + more =~= steps);
    }
    if steps.len() > 0 {
        if forall|i: int| 0 <= i < steps.len() ==> #[trigger] steps[i] != seq!['.', '.'] {
            let rest = steps.drop_last();
            assert forall|i: int| 0 <= i < rest.len() implies #[trigger] rest[i] != seq![
                '.',
                '.',
            ] by {
                assert(rest[i] == steps[i]);
            }
            lemma_entered(names, rest);
            assert(steps[steps.len() - 1] != seq!['.', '.']);
            assert(names + steps =~= (names + rest).push(steps.last()));
        }
    } else {
        assert(names + steps =~= names);
    }
    reveal_with_fuel(followed, 3);
    let up = seq!['.', '.'];
    let pair = seq![step, up];
    assert(pair.drop_last() =~= seq![step]);
    assert(pair.last() == up);
    assert(seq![step].drop_last() =~= Seq::empty());
    if step != up {
        assert(followed(names, seq![step]) == names.push(step));
        assert(names.push(step).drop_last() =~= names);
    }
    let alone = seq![up];
    assert(alone.drop_last() =~= Seq::empty());
    assert(alone.last() == up);
}

/// Steps that enter directories are added to the way.
proof fn lemma_entered(names: Seq<Seq<char>>, steps: Seq<Seq<char>>)
    requires
        forall|i: int| 0 <= i < steps.len() ==> #[trigger] steps[i] != seq!['.', '.'],
    ensures
        followed(names, steps) == names + steps,
    decreases steps.len(),
{
    if steps.len() > 0 {
        let rest = steps.drop_last();
        assert forall|i: int| 0 <= i < rest.len() implies #[trigger] rest[i] != seq!['.', '.'] by {
            assert(rest[i] == steps[i]);
        }
        lemma_entered(names, rest);
        assert(steps[steps.len() - 1] != seq!['.', '.']);
        assert(names + steps =~= (names + rest).push(steps.last()));
    } else {
        assert(names + steps =~= names);
    }
}

/// A verbatim drive is kept by what is joined to it: each step of the path is followed from where the
/// base leads, or from the root where the path starts with a separator, and backslashes separate the
/// names.
pub proof fn law_verbatim_paths_are_followed(base: Seq<char>, path: Seq<char>)
    requires
        base.len() >= 4,
        base[0] == '\\',
        base[1] == '\\',
        base[2] == '?',
        base[3] == '\\',
        prefix_len(Style::Windows, base) > 0,
        path.len() > 0,
        prefix_len(Style::Windows, path) == 0,
    ensures
        ({
            let steps = paths::names_in(slashed(Style::Windows, path));
            let way = if path[0] == '/' || path[0] == '\\' {
                followed(Seq::empty(), steps)
            } else {
                followed(paths::names_in(body_of(Style::Windows, base)), steps)
            };
            joined(Style::Windows, base, path) == base.take(prefix_len(Style::Windows, base)) + seq![
                '\\',
            ] + with_backslashes(way)
        }),
{
    let steps = paths::names_in(slashed(Style::Windows, path));
    let way = if path[0] == '/' || path[0] == '\\' {
        followed(Seq::empty(), steps)
    } else {
        followed(paths::names_in(body_of(Style::Windows, base)), steps)
    };
    let prefix = base.take(prefix_len(Style::Windows, base));
    assert(prefix.push('\\') + with_backslashes(way) =~= prefix + seq!['\\'] + with_backslashes(
        way,
    ));
}

/// Names are written one after the other with a backslash between two of them, and none at the end.
pub proof fn law_backslashes_stand_between_names(names: Seq<Seq<char>>, next: Seq<char>)
    ensures
        with_backslashes(Seq::empty()).len() == 0,
        with_backslashes(seq![next]) == next,
        names.len() > 0 ==> with_backslashes(names.push(next)) == with_backslashes(names) + seq!['\\']
            + next,
{
    if names.len() > 0 {
        assert(names.push(next).drop_last() =~= names);
        assert(with_backslashes(names).push('\\') + next =~= with_backslashes(names) + seq!['\\']
            + next);
    }
}

/// Two paths are the same exactly when they have the same components, and a path is within another
/// one exactly when it has the components of that one first.
pub proof fn law_components_tell_paths_apart(style: Style, a: Seq<char>, b: Seq<char>)
    ensures
        is_same(style, a, b) <==> components(style, a) == components(style, b),
        is_within(style, a, b) <==> components(style, b).len() <= components(style, a).len()
            && forall|i: int|
            0 <= i < components(style, b).len() ==> #[trigger] components(style, b)[i]
                == components(style, a)[i],
{
    let (x, y) = (components(style, a), components(style, b));
    if is_within(style, a, b) {
        assert forall|i: int| 0 <= i < y.len() implies #[trigger] y[i] == x[i] by {
            assert(y[i] == x.subrange(0, y.len() as int)[i]);
        }
    } else if y.len() <= x.len() && forall|i: int|
        0 <= i < y.len() ==> #[trigger] y[i] == x[i] {
        assert(y =~= x.subrange(0, y.len() as int));
    }
}

/// On Windows a verbatim drive is a component of its own, whatever the case of its letter, and not
/// the same as the drive itself; what stands behind it starts at its root.
pub proof fn law_verbatim_drives_count_without_case(letter: char, rest: Seq<char>)
    requires
        'a' <= letter <= 'z' || 'A' <= letter <= 'Z',
        rest.len() > 0 ==> rest[0] == '\\' || rest[0] == '/',
    ensures
        components(Style::Windows, seq!['\\', '\\', '?', '\\', letter, ':'] + rest) == seq![
            seq!['/', '#', text::upper(letter)],
        ] + paths::components(
            if rest.len() == 0 {
                seq!['/']
            } else {
                Seq::new(
                    rest.len(),
                    |i: int|
                        if rest[i] == '/' || rest[i] == '\\' {
                            '/'
                        } else {
                            rest[i]
                        },
                )
            },
        ),
        is_fixed(Style::Windows, seq!['\\', '\\', '?', '\\', letter, ':'] + rest),
{
    let style = Style::Windows;
    let start = seq!['\\', '\\', '?', '\\', letter, ':'];
    let path = start + rest;
    let below = Seq::new(
        rest.len(),
        |i: int|
            if rest[i] == '/' || rest[i] == '\\' {
                '/'
            } else {
                rest[i]
            },
    );
    let plain = slashed(style, path);
    assert(path[0] == '\\' && path[1] == '\\' && path[2] == '?' && path[3] == '\\' && path[4]
        == letter && path[5] == ':');
    assert(plain[0] == '/' && plain[1] == '/' && plain[2] == '?' && plain[3] == '/' && plain[4]
        == letter && plain[5] == ':');
    assert(!has_drive(style, path));
    assert(is_verbatim(style, path));
    if path.len() > 8 {
        assert(plain.subrange(4, 8)[1] == ':');
        assert(!has_verbatim_share(style, path)) by {
            assert(seq!['U', 'N', 'C', '/'][1] == 'N');
        }
    }
    let tail = plain.skip(2);
    assert(tail[0] == '?' && tail[1] == '/');
    text::lemma_position_is(tail, '/', 1);
    let inner = plain.skip(4);
    assert(inner[0] == letter && inner[1] == ':');
    if rest.len() > 0 {
        assert(path[6] == rest[0]);
        assert(inner[2] == '/');
    }
    text::lemma_position_is(inner, '/', 2);
    assert(prefix_len(style, path) == 6);
    let prefix = prefix_of(style, path);
    assert(prefix =~= seq!['/', '/', '?', '/', letter, ':']);
    assert(prefix.skip(4) =~= seq![letter, ':']);
    if rest.len() > 0 {
        assert(body_of(style, path) =~= below);
        assert(below[0] == '/');
    }
    reveal(components);
}

/// On Windows a verbatim share has its server and its name for its first components, and is not the
/// same as the share itself; what stands behind it starts at its root.
pub proof fn law_verbatim_shares_have_server_and_name(
    server: Seq<char>,
    share: Seq<char>,
    rest: Seq<char>,
)
    requires
        server.len() > 0,
        share.len() > 0,
        forall|i: int|
            0 <= i < server.len() ==> #[trigger] server[i] != '/' && server[i] != '\\',
        forall|i: int| 0 <= i < share.len() ==> #[trigger] share[i] != '/' && share[i] != '\\',
        rest.len() > 0 ==> rest[0] == '\\' || rest[0] == '/',
    ensures
        components(
            Style::Windows,
            seq!['\\', '\\', '?', '\\', 'U', 'N', 'C', '\\'] + server + seq!['\\'] + share + rest,
        ) == seq![seq!['/', '"'] + server, seq!['/'] + share] + paths::components(
            if rest.len() == 0 {
                seq!['/']
            } else {
                Seq::new(
                    rest.len(),
                    |i: int|
                        if rest[i] == '/' || rest[i] == '\\' {
                            '/'
                        } else {
                            rest[i]
                        },
                )
            },
        ),
{
    let style = Style::Windows;
    let start = seq!['\\', '\\', '?', '\\', 'U', 'N', 'C', '\\'];
    let path = start + server + seq!['\\'] + share + rest;
    let below = Seq::new(
        rest.len(),
        |i: int|
            if rest[i] == '/' || rest[i] == '\\' {
                '/'
            } else {
                rest[i]
            },
    );
    let plain = slashed(style, path);
    let count = server.len() as int;
    let size = share.len() as int;
    assert forall|i: int| 0 <= i < 8 implies path[i] == start[i] by {}
    assert(!has_drive(style, path));
    assert(is_verbatim(style, path));
    assert(plain.subrange(4, 8) =~= seq!['U', 'N', 'C', '/']);
    let inside = verbatim_share(plain);
    assert(inside =~= seq!['/', '/'] + server + seq!['/'] + share + below) by {
        assert forall|i: int| 0 <= i < inside.len() implies inside[i] == (seq!['/', '/'] + server
            + seq!['/'] + share + below)[i] by {
            if i > 0 {
                assert(inside[i] == plain[i + 6]);
                if 2 <= i < 2 + count {
                    assert(path[i + 6] == server[i - 2]);
                } else if i == 2 + count {
                    assert(path[i + 6] == '\\');
                } else if 3 + count <= i < 3 + count + size {
                    assert(path[i + 6] == share[i - 3 - count]);
                } else if i >= 3 + count + size {
                    assert(path[i + 6] == rest[i - 3 - count - size]);
                } else {
                    assert(path[i + 6] == '\\');
                }
            }
        }
    }
    lemma_share_of(server, share, below);
    assert(prefix_len(style, path) == 9 + count + size);
    let prefix = prefix_of(style, path);
    let cut = verbatim_share(prefix);
    assert(cut =~= seq!['/', '/'] + server + seq!['/'] + share) by {
        assert(prefix.skip(7) =~= plain.skip(7).take(2 + count + size));
        assert forall|i: int| 0 <= i < cut.len() implies cut[i] == inside[i] by {}
    }
    assert(cut =~= seq!['/', '/'] + server + seq!['/'] + share + Seq::<char>::empty());
    lemma_share_of(server, share, Seq::empty());
    let end = server_end(cut);
    assert(cut.subrange(2, end) =~= server);
    assert(cut.skip(end) =~= seq!['/'] + share);
    if rest.len() > 0 {
        let body = body_of(style, path);
        assert(body =~= below) by {
            assert forall|i: int| 0 <= i < below.len() implies body[i] == below[i] by {
                assert(body[i] == plain[9 + count + size + i]);
                assert(path[9 + count + size + i] == rest[i]);
            }
        }
    }
    reveal(components);
}

/// How long a share is and where its server ends.
proof fn lemma_share_of(server: Seq<char>, share: Seq<char>, rest: Seq<char>)
    requires
        server.len() > 0,
        share.len() > 0,
        forall|i: int| 0 <= i < server.len() ==> #[trigger] server[i] != '/',
        forall|i: int| 0 <= i < share.len() ==> #[trigger] share[i] != '/',
        rest.len() > 0 ==> rest[0] == '/',
    ensures
        share_len(seq!['/', '/'] + server + seq!['/'] + share + rest) == 3 + server.len()
            + share.len(),
        server_end(seq!['/', '/'] + server + seq!['/'] + share + rest) == 2 + server.len(),
{
    let plain = seq!['/', '/'] + server + seq!['/'] + share + rest;
    let tail = plain.skip(2);
    assert forall|i: int| 0 <= i < server.len() implies tail[i] != '/' by {
        assert(tail[i] == server[i]);
    }
    assert(tail[server.len() as int] == '/');
    text::lemma_position_is(tail, '/', server.len() as int);
    let inner = plain.skip(3 + server.len() as int);
    assert(inner =~= share + rest);
    assert forall|i: int| 0 <= i < share.len() implies inner[i] != '/' by {
        assert(inner[i] == share[i]);
    }
    if rest.len() > 0 {
        assert(inner[share.len() as int] == '/');
    }
    text::lemma_position_is(inner, '/', share.len() as int);
}

/// A file is in the directory that its parent is, on whatever system; one without a parent is in the
/// working directory.
pub proof fn law_files_are_in_their_parent(style: Style, path: Seq<char>)
    ensures
        parent_of(style, path) is Some ==> directory_of(style, path) == parent_of(
            style,
            path,
        )->Some_0,
        parent_of(style, path) is None ==> directory_of(style, path) == seq!['.'],
{
}

} // verus!
