//! The files of a project, and the order in which they are checked.
use crate::locations::{self, Style};
use crate::order;
use crate::session::dependencies;
use crate::text;
use vstd::prelude::*;

verus! {

/// True for the directories that are not searched.
pub open spec fn is_skipped(style: Style, path: Seq<char>) -> bool {
    let name = locations::file_name_of(style, path);
    name == Some(".git"@) || name == Some("target"@) || name == Some("_build"@)
}

/// The part of a file name behind its last dot; a dot in front of everything does not count.
pub open spec fn extension_in(name: Seq<char>) -> Option<Seq<char>> {
    let start = last_dot(name);
    if start <= 0 {
        None
    } else {
        Some(name.skip(start + 1))
    }
}

/// The place of the last dot, or -1.
pub open spec fn last_dot(name: Seq<char>) -> int
    decreases name.len(),
{
    if name.len() == 0 {
        -1
    } else if name.last() == '.' {
        name.len() - 1
    } else {
        last_dot(name.drop_last())
    }
}

/// True for F* sources.
pub open spec fn is_source(style: Style, path: Seq<char>) -> bool {
    match locations::file_name_of(style, path) {
        Some(name) => extension_in(name) == Some("fst"@) || extension_in(name) == Some("fsti"@),
        None => false,
    }
}

/// True for the directories that are not searched.
pub fn is_skipped_directory(style: Style, path: &str) -> (skipped: bool)
    ensures
        skipped == is_skipped(style, path@),
{
    match locations::file_name(style, path) {
        Some(name) => text::same(name.as_str(), ".git") || text::same(name.as_str(), "target")
            || text::same(name.as_str(), "_build"),
        None => false,
    }
}

/// True for F* sources.
pub fn is_source_file(style: Style, path: &str) -> (source: bool)
    ensures
        source == is_source(style, path@),
{
    match locations::file_name(style, path) {
        Some(name) => {
            let chars = text::chars_of(name.as_str());
            let mut end: usize = chars.len();
            assert(chars@.take(end as int) =~= chars@);
            while end > 0 && chars[end - 1] != '.'
                invariant
                    end <= chars@.len(),
                    last_dot(chars@) == last_dot(chars@.take(end as int)),
                decreases end,
            {
                assert(chars@.take(end as int).drop_last() =~= chars@.take(end - 1));
                end -= 1;
            }
            assert(last_dot(chars@) == end - 1) by {
                if end > 0 {
                    assert(chars@.take(end as int).last() == '.');
                }
            }
            if end <= 1 {
                return false;
            }
            let extension = text::substring(&chars, end, chars.len());
            assert(extension@ =~= chars@.skip(end as int));
            text::same(extension.as_str(), "fst") || text::same(extension.as_str(), "fsti")
        },
        None => false,
    }
}

/// A search for the F* sources below a directory.
#[derive(Debug)]
pub struct FileWalk {
    pub directories: Vec<String>,
    pub files: Vec<String>,
}

/// The model of a search: the directories that have not been read yet, and the files found so far.
pub struct FileWalkView {
    pub directories: Seq<Seq<char>>,
    pub files: Seq<Seq<char>>,
}

impl View for FileWalk {
    type V = FileWalkView;

    open spec fn view(&self) -> FileWalkView {
        FileWalkView {
            directories: text::texts(self.directories@),
            files: text::texts(self.files@),
        }
    }
}

/// A search that has not begun.
pub open spec fn walk_from(root: Seq<char>) -> FileWalkView {
    FileWalkView { directories: seq![root], files: Seq::empty() }
}

/// A search that has come upon an entry of a directory: a path, and whether it is a directory.
pub open spec fn with_entry(
    style: Style,
    walk: FileWalkView,
    entry: (Seq<char>, bool),
) -> FileWalkView {
    if entry.1 && !is_skipped(style, entry.0) {
        FileWalkView { directories: walk.directories.push(entry.0), ..walk }
    } else if !entry.1 && is_source(style, entry.0) {
        FileWalkView { files: walk.files.push(entry.0), ..walk }
    } else {
        walk
    }
}

/// A search that has come upon all entries of a directory.
pub open spec fn with_entries(
    style: Style,
    walk: FileWalkView,
    entries: Seq<(Seq<char>, bool)>,
) -> FileWalkView
    decreases entries.len(),
{
    if entries.len() == 0 {
        walk
    } else {
        with_entry(style, with_entries(style, walk, entries.drop_last()), entries.last())
    }
}

/// A search that has read its next directory in a tree, which gives the entries of a directory.
pub open spec fn after_read(
    style: Style,
    walk: FileWalkView,
    tree: spec_fn(Seq<char>) -> Seq<(Seq<char>, bool)>,
) -> FileWalkView {
    if walk.directories.len() == 0 {
        walk
    } else {
        with_entries(
            style,
            FileWalkView { directories: walk.directories.drop_last(), ..walk },
            tree(walk.directories.last()),
        )
    }
}

/// A search from a root that has read some directories of a tree.
pub open spec fn after_reads(
    style: Style,
    root: Seq<char>,
    tree: spec_fn(Seq<char>) -> Seq<(Seq<char>, bool)>,
    count: nat,
) -> FileWalkView
    decreases count,
{
    if count == 0 {
        walk_from(root)
    } else {
        after_read(style, after_reads(style, root, tree, (count - 1) as nat), tree)
    }
}

/// True when a directory is the root, or is reached from it over directories that are searched.
pub open spec fn is_reached(
    style: Style,
    root: Seq<char>,
    tree: spec_fn(Seq<char>) -> Seq<(Seq<char>, bool)>,
    directory: Seq<char>,
    depth: nat,
) -> bool
    decreases depth,
{
    if depth == 0 {
        directory == root
    } else {
        exists|above: Seq<char>|
            #![trigger tree(above)]
            is_reached(style, root, tree, above, (depth - 1) as nat) && is_subdirectory(
                style,
                tree,
                above,
                directory,
            )
    }
}

/// True for a directory in another one that is searched with it.
pub open spec fn is_subdirectory(
    style: Style,
    tree: spec_fn(Seq<char>) -> Seq<(Seq<char>, bool)>,
    above: Seq<char>,
    directory: Seq<char>,
) -> bool {
    tree(above).contains((directory, true)) && !is_skipped(style, directory)
}

/// True for a source in a directory that is reached from the root.
pub open spec fn is_source_below(
    style: Style,
    root: Seq<char>,
    tree: spec_fn(Seq<char>) -> Seq<(Seq<char>, bool)>,
    path: Seq<char>,
) -> bool {
    is_source(style, path) && exists|directory: Seq<char>, depth: nat| #[trigger]
        is_reached(style, root, tree, directory, depth) && tree(directory).contains((path, false))
}

/// True for a tree in which no path stands twice, and the root not at all.
pub open spec fn is_tree(
    root: Seq<char>,
    tree: spec_fn(Seq<char>) -> Seq<(Seq<char>, bool)>,
) -> bool {
    &&& forall|d: Seq<char>, i: int|
        0 <= i < tree(d).len() ==> (#[trigger] tree(d)[i]).0 != root
    &&& forall|d: Seq<char>, i: int, e: Seq<char>, j: int|
        0 <= i < tree(d).len() && 0 <= j < tree(e).len() && (#[trigger] tree(d)[i]).0 == (
        #[trigger] tree(e)[j]).0 ==> d == e && i == j
}

/// What the entries of a directory add to a search.
proof fn lemma_with_entries(style: Style, walk: FileWalkView, entries: Seq<(Seq<char>, bool)>)
    ensures
        forall|path: Seq<char>|
            #![trigger with_entries(style, walk, entries).directories.contains(path)]
            with_entries(style, walk, entries).directories.contains(path)
                <==> walk.directories.contains(path) || (entries.contains((path, true))
                && !is_skipped(style, path)),
        forall|path: Seq<char>|
            #![trigger with_entries(style, walk, entries).files.contains(path)]
            with_entries(style, walk, entries).files.contains(path) <==> walk.files.contains(path) || (
            entries.contains((path, false)) && is_source(style, path)),
    decreases entries.len(),
{
    if entries.len() > 0 {
        let rest = entries.drop_last();
        let before = with_entries(style, walk, rest);
        let after = with_entries(style, walk, entries);
        lemma_with_entries(style, walk, rest);
        assert(entries =~= rest.push(entries.last()));
        assert forall|path: Seq<char>, flag: bool|
            entries.contains((path, flag)) <==> rest.contains((path, flag)) || entries.last() == (
                path,
                flag,
            ) by {
            if rest.contains((path, flag)) {
                let i = rest.index_of((path, flag));
                assert(entries[i] == (path, flag));
            }
            if entries.last() == (path, flag) {
                assert(entries[entries.len() - 1] == (path, flag));
            }
        }
        assert forall|path: Seq<char>|
            #![trigger after.directories.contains(path)]
            after.directories.contains(path) <==> before.directories.contains(path) || (
            entries.last() == (path, true) && !is_skipped(style, path)) by {
            lemma_pushed(before.directories, entries.last().0, path);
        }
        assert forall|path: Seq<char>|
            #![trigger after.files.contains(path)]
            after.files.contains(path) <==> before.files.contains(path) || (entries.last() == (
                path,
                false,
            ) && is_source(style, path)) by {
            lemma_pushed(before.files, entries.last().0, path);
        }
    }
}

/// What a list holds once something has been put at its end.
proof fn lemma_pushed<A>(list: Seq<A>, item: A, wanted: A)
    ensures
        list.push(item).contains(wanted) <==> list.contains(wanted) || item == wanted,
{
    let after = list.push(item);
    if list.contains(wanted) {
        let i = list.index_of(wanted);
        assert(after[i] == wanted);
    }
    if item == wanted {
        assert(after[list.len() as int] == wanted);
    }
}

/// The directories that a search has read.
spec fn read_directories(
    style: Style,
    root: Seq<char>,
    tree: spec_fn(Seq<char>) -> Seq<(Seq<char>, bool)>,
    count: nat,
) -> Seq<Seq<char>>
    decreases count,
{
    if count == 0 {
        Seq::empty()
    } else {
        let before = after_reads(style, root, tree, (count - 1) as nat);
        let read = read_directories(style, root, tree, (count - 1) as nat);
        if before.directories.len() == 0 {
            read
        } else {
            read.push(before.directories.last())
        }
    }
}

/// What a list holds that has lost its end.
proof fn lemma_dropped<A>(list: Seq<A>, wanted: A)
    requires
        list.len() > 0,
    ensures
        list.contains(wanted) <==> list.drop_last().contains(wanted) || list.last() == wanted,
{
    assert(list =~= list.drop_last().push(list.last()));
    lemma_pushed(list.drop_last(), list.last(), wanted);
}

/// True for what a search has read or is going to read.
spec fn is_seen(
    style: Style,
    root: Seq<char>,
    tree: spec_fn(Seq<char>) -> Seq<(Seq<char>, bool)>,
    count: nat,
    directory: Seq<char>,
) -> bool {
    read_directories(style, root, tree, count).contains(directory) || after_reads(
        style,
        root,
        tree,
        count,
    ).directories.contains(directory)
}

/// What a search has seen is reached from the root, and what it has read it has taken into account.
proof fn lemma_after_reads(
    style: Style,
    root: Seq<char>,
    tree: spec_fn(Seq<char>) -> Seq<(Seq<char>, bool)>,
    count: nat,
)
    ensures
        is_seen(style, root, tree, count, root),
        forall|directory: Seq<char>| #[trigger]
            is_seen(style, root, tree, count, directory) ==> exists|depth: nat|
                is_reached(style, root, tree, directory, depth),
        forall|above: Seq<char>, directory: Seq<char>|
            read_directories(style, root, tree, count).contains(above) && #[trigger] is_subdirectory(
                style,
                tree,
                above,
                directory,
            ) ==> is_seen(style, root, tree, count, directory),
        forall|path: Seq<char>|
            #![trigger after_reads(style, root, tree, count).files.contains(path)]
            after_reads(style, root, tree, count).files.contains(path) <==> is_source(style, path)
                && exists|directory: Seq<char>|
                #![trigger tree(directory)]
                read_directories(style, root, tree, count).contains(directory) && tree(
                    directory,
                ).contains((path, false)),
    decreases count,
{
    let after = after_reads(style, root, tree, count);
    let read = read_directories(style, root, tree, count);
    if count == 0 {
        assert(after.directories[0] == root);
        assert forall|directory: Seq<char>| #[trigger]
            is_seen(style, root, tree, count, directory) implies exists|depth: nat|
            is_reached(style, root, tree, directory, depth) by {
            assert(directory == root);
            assert(is_reached(style, root, tree, directory, 0));
        }
    } else {
        let last = (count - 1) as nat;
        let before = after_reads(style, root, tree, last);
        let earlier = read_directories(style, root, tree, last);
        lemma_after_reads(style, root, tree, last);
        if before.directories.len() > 0 {
            let next = before.directories.last();
            let popped = FileWalkView { directories: before.directories.drop_last(), ..before };
            lemma_with_entries(style, popped, tree(next));
            assert forall|directory: Seq<char>| #[trigger]
                is_seen(style, root, tree, count, directory) <==> is_seen(
                style,
                root,
                tree,
                last,
                directory,
            ) || is_subdirectory(style, tree, next, directory) by {
                lemma_pushed(earlier, next, directory);
                lemma_dropped(before.directories, directory);
            }
            assert(is_seen(style, root, tree, last, next)) by {
                lemma_dropped(before.directories, next);
            }
            assert forall|directory: Seq<char>| #[trigger]
                is_seen(style, root, tree, count, directory) implies exists|depth: nat|
                is_reached(style, root, tree, directory, depth) by {
                if !is_seen(style, root, tree, last, directory) {
                    let depth = choose|depth: nat| is_reached(style, root, tree, next, depth);
                    assert(tree(next) == tree(next));
                    assert(is_reached(style, root, tree, directory, depth + 1));
                }
            }
            assert forall|above: Seq<char>, directory: Seq<char>|
                read.contains(above) && #[trigger] is_subdirectory(
                    style,
                    tree,
                    above,
                    directory,
                ) implies is_seen(style, root, tree, count, directory) by {
                lemma_pushed(earlier, next, above);
                if earlier.contains(above) {
                    assert(is_seen(style, root, tree, last, directory));
                }
            }
            assert forall|path: Seq<char>|
                #![trigger after.files.contains(path)]
                after.files.contains(path) <==> is_source(style, path) && exists|directory: Seq<char>|
                    #![trigger tree(directory)]
                    read.contains(directory) && tree(directory).contains((path, false)) by {
                assert(before.files.contains(path) <==> is_source(style, path) && exists|
                    directory: Seq<char>,
                |
                    #![trigger tree(directory)]
                    earlier.contains(directory) && tree(directory).contains((path, false)));
                lemma_pushed(earlier, next, next);
                if exists|directory: Seq<char>|
                    #![trigger tree(directory)]
                    earlier.contains(directory) && tree(directory).contains((path, false)) {
                    let directory = choose|directory: Seq<char>|
                        #![trigger tree(directory)]
                        earlier.contains(directory) && tree(directory).contains((path, false));
                    lemma_pushed(earlier, next, directory);
                }
                if exists|directory: Seq<char>|
                    #![trigger tree(directory)]
                    read.contains(directory) && tree(directory).contains((path, false)) {
                    let directory = choose|directory: Seq<char>|
                        #![trigger tree(directory)]
                        read.contains(directory) && tree(directory).contains((path, false));
                    lemma_pushed(earlier, next, directory);
                }
            }
        } else {
            assert forall|directory: Seq<char>| #[trigger]
                is_seen(style, root, tree, count, directory) == is_seen(
                style,
                root,
                tree,
                last,
                directory,
            ) by {
            }
        }
    }
}

/// Once a search is over, everything that is reached from the root has been read.
proof fn lemma_reached_is_read(
    style: Style,
    root: Seq<char>,
    tree: spec_fn(Seq<char>) -> Seq<(Seq<char>, bool)>,
    count: nat,
    directory: Seq<char>,
    depth: nat,
)
    requires
        after_reads(style, root, tree, count).directories.len() == 0,
        is_reached(style, root, tree, directory, depth),
    ensures
        read_directories(style, root, tree, count).contains(directory),
    decreases depth,
{
    lemma_after_reads(style, root, tree, count);
    if depth == 0 {
        assert(is_seen(style, root, tree, count, root));
    } else {
        let above = choose|above: Seq<char>|
            #![trigger tree(above)]
            is_reached(style, root, tree, above, (depth - 1) as nat) && is_subdirectory(
                style,
                tree,
                above,
                directory,
            );
        lemma_reached_is_read(style, root, tree, count, above, (depth - 1) as nat);
        assert(is_seen(style, root, tree, count, directory));
    }
}

/// A search that has nothing left to read has found exactly the sources in the directories that
/// are reached from its root over directories that are searched.
pub proof fn law_searches_find_all_sources(
    style: Style,
    root: Seq<char>,
    tree: spec_fn(Seq<char>) -> Seq<(Seq<char>, bool)>,
    count: nat,
    path: Seq<char>,
)
    requires
        after_reads(style, root, tree, count).directories.len() == 0,
    ensures
        after_reads(style, root, tree, count).files.contains(path) <==> is_source_below(
            style,
            root,
            tree,
            path,
        ),
{
    lemma_after_reads(style, root, tree, count);
    let read = read_directories(style, root, tree, count);
    if after_reads(style, root, tree, count).files.contains(path) {
        let directory = choose|directory: Seq<char>|
            #![trigger tree(directory)]
            read.contains(directory) && tree(directory).contains((path, false));
        assert(is_seen(style, root, tree, count, directory));
        let depth = choose|depth: nat| is_reached(style, root, tree, directory, depth);
        assert(is_reached(style, root, tree, directory, depth));
    }
    if is_source_below(style, root, tree, path) {
        let (directory, depth) = choose|directory: Seq<char>, depth: nat| #[trigger]
            is_reached(style, root, tree, directory, depth) && tree(directory).contains((path, false));
        lemma_reached_is_read(style, root, tree, count, directory, depth);
        assert(tree(directory).contains((path, false)));
    }
}

/// Entries of different paths that a search has not seen are taken into account once each.
proof fn lemma_entries_once(
    style: Style,
    read: Seq<Seq<char>>,
    walk: FileWalkView,
    entries: Seq<(Seq<char>, bool)>,
)
    requires
        (read + walk.directories).no_duplicates(),
        walk.files.no_duplicates(),
        forall|i: int, j: int|
            0 <= i < j < entries.len() ==> (#[trigger] entries[i]).0 != (#[trigger] entries[j]).0,
        forall|i: int|
            0 <= i < entries.len() ==> !read.contains((#[trigger] entries[i]).0)
                && !walk.directories.contains(entries[i].0) && !walk.files.contains(entries[i].0),
    ensures
        (read + with_entries(style, walk, entries).directories).no_duplicates(),
        with_entries(style, walk, entries).files.no_duplicates(),
    decreases entries.len(),
{
    if entries.len() > 0 {
        let rest = entries.drop_last();
        let before = with_entries(style, walk, rest);
        let last = entries.last();
        lemma_entries_once(style, read, walk, rest);
        lemma_with_entries(style, walk, rest);
        assert(!rest.contains((last.0, true)) && !rest.contains((last.0, false))) by {
            if rest.contains((last.0, last.1)) {
                let i = rest.index_of((last.0, last.1));
                assert(entries[i].0 == entries[entries.len() - 1].0);
            }
            if rest.contains((last.0, !last.1)) {
                let i = rest.index_of((last.0, !last.1));
                assert(entries[i].0 == entries[entries.len() - 1].0);
            }
        }
        assert(entries[entries.len() - 1] == last);
        assert(!before.directories.contains(last.0) && !before.files.contains(last.0));
        let all = read + before.directories;
        let more = read + before.directories.push(last.0);
        assert(more =~= all.push(last.0));
        assert(!all.contains(last.0)) by {
            if all.contains(last.0) {
                let i = all.index_of(last.0);
                if i < read.len() {
                    assert(read[i] == last.0);
                } else {
                    assert(before.directories[i - read.len()] == last.0);
                }
            }
        }
        lemma_pushed_once(all, last.0);
        lemma_pushed_once(before.files, last.0);
    }
}

/// A list without repetitions stays one with something that is not in it.
proof fn lemma_pushed_once<A>(list: Seq<A>, item: A)
    requires
        list.no_duplicates(),
        !list.contains(item),
    ensures
        list.push(item).no_duplicates(),
{
    let after = list.push(item);
    assert forall|i: int, j: int| 0 <= i < after.len() && 0 <= j < after.len() && i != j implies
        after[i] != after[j] by {
        if i < list.len() {
            assert(list.contains(list[i]));
        }
        if j < list.len() {
            assert(list.contains(list[j]));
        }
    }
}

/// A search of a tree sees each directory once and finds each file once, and what it has seen
/// beside the root stands in a directory that it has read.
proof fn lemma_seen_once(
    style: Style,
    root: Seq<char>,
    tree: spec_fn(Seq<char>) -> Seq<(Seq<char>, bool)>,
    count: nat,
)
    requires
        is_tree(root, tree),
    ensures
        (read_directories(style, root, tree, count) + after_reads(
            style,
            root,
            tree,
            count,
        ).directories).no_duplicates(),
        after_reads(style, root, tree, count).files.no_duplicates(),
        forall|directory: Seq<char>| #[trigger]
            is_seen(style, root, tree, count, directory) && directory != root ==> exists|
                above: Seq<char>,
            |
                #![trigger tree(above)]
                read_directories(style, root, tree, count).contains(above) && tree(above).contains(
                    (directory, true),
                ),
    decreases count,
{
    let after = after_reads(style, root, tree, count);
    let read = read_directories(style, root, tree, count);
    if count == 0 {
        assert(read + after.directories =~= seq![root]);
    } else {
        let last = (count - 1) as nat;
        let before = after_reads(style, root, tree, last);
        let earlier = read_directories(style, root, tree, last);
        lemma_seen_once(style, root, tree, last);
        lemma_after_reads(style, root, tree, last);
        if before.directories.len() > 0 {
            let next = before.directories.last();
            let popped = FileWalkView { directories: before.directories.drop_last(), ..before };
            let entries = tree(next);
            let old_all = earlier + before.directories;
            lemma_with_entries(style, popped, entries);
            assert(!earlier.contains(next)) by {
                if earlier.contains(next) {
                    let i = earlier.index_of(next);
                    assert(old_all[i] == old_all[old_all.len() - 1]);
                }
            }
            let moved = read + popped.directories;
            assert forall|i: int, j: int|
                0 <= i < moved.len() && 0 <= j < moved.len() && i != j implies moved[i]
                != moved[j] by {
                let from = |k: int|
                    if k < earlier.len() {
                        k
                    } else if k == earlier.len() {
                        old_all.len() - 1
                    } else {
                        k - 1
                    };
                assert(moved[i] == old_all[from(i)] && moved[j] == old_all[from(j)]);
            }
            assert forall|i: int| 0 <= i < entries.len() implies !read.contains(
                (#[trigger] entries[i]).0,
            ) && !popped.directories.contains(entries[i].0) && !popped.files.contains(
                entries[i].0,
            ) by {
                let path = entries[i].0;
                lemma_pushed(earlier, next, path);
                lemma_dropped(before.directories, path);
                if is_seen(style, root, tree, last, path) {
                    let above = choose|above: Seq<char>|
                        #![trigger tree(above)]
                        earlier.contains(above) && tree(above).contains((path, true));
                    let j = tree(above).index_of((path, true));
                    assert(tree(above)[j].0 == tree(next)[i].0);
                }
                if before.files.contains(path) {
                    let above = choose|above: Seq<char>|
                        #![trigger tree(above)]
                        earlier.contains(above) && tree(above).contains((path, false));
                    let j = tree(above).index_of((path, false));
                    assert(tree(above)[j].0 == tree(next)[i].0);
                }
            }
            assert forall|i: int, j: int| 0 <= i < j < entries.len() implies (
            #[trigger] entries[i]).0 != (#[trigger] entries[j]).0 by {
                assert(tree(next)[i] == entries[i] && tree(next)[j] == entries[j]);
            }
            lemma_entries_once(style, read, popped, entries);
            assert forall|directory: Seq<char>| #[trigger]
                is_seen(style, root, tree, count, directory) && directory != root implies exists|
                above: Seq<char>,
            |
                #![trigger tree(above)]
                read.contains(above) && tree(above).contains((directory, true)) by {
                lemma_pushed(earlier, next, directory);
                lemma_dropped(before.directories, directory);
                if is_seen(style, root, tree, last, directory) {
                    let above = choose|above: Seq<char>|
                        #![trigger tree(above)]
                        earlier.contains(above) && tree(above).contains((directory, true));
                    lemma_pushed(earlier, next, above);
                    assert(read.contains(above) && tree(above).contains((directory, true)));
                } else {
                    lemma_pushed(earlier, next, next);
                    assert(read.contains(next) && tree(next).contains((directory, true)));
                }
            }
        } else {
            assert forall|directory: Seq<char>| #[trigger]
                is_seen(style, root, tree, count, directory) == is_seen(
                style,
                root,
                tree,
                last,
                directory,
            ) by {
            }
        }
    }
}

/// A search of a tree in which no path stands twice finds no file twice.
pub proof fn law_searches_find_each_source_once(
    style: Style,
    root: Seq<char>,
    tree: spec_fn(Seq<char>) -> Seq<(Seq<char>, bool)>,
    count: nat,
)
    requires
        is_tree(root, tree),
    ensures
        after_reads(style, root, tree, count).files.no_duplicates(),
{
    lemma_seen_once(style, root, tree, count);
}

impl FileWalk {
    /// A search that has not begun.
    pub fn new(root: &str) -> (walk: FileWalk)
        ensures
            walk@ == walk_from(root@),
    {
        let mut directories: Vec<String> = Vec::new();
        directories.push(root.to_owned());
        let walk = FileWalk { directories, files: Vec::new() };
        assert(walk@.directories =~= seq![root@]);
        assert(walk@.files =~= Seq::empty());
        walk
    }

    /// The next directory to read, none when the search is over.
    pub fn next_directory(&mut self) -> (directory: Option<String>)
        ensures
            match directory {
                Some(path) => {
                    let before = old(self)@.directories;
                    &&& before.len() > 0
                    &&& path@ == before.last()
                    &&& final(self)@ == (FileWalkView {
                        directories: before.drop_last(),
                        ..old(self)@
                    })
                },
                None => old(self)@.directories.len() == 0 && final(self)@ == old(self)@,
            },
    {
        let ghost before = self@;
        let directory = self.directories.pop();
        assert(before.directories.len() == old(self).directories@.len());
        proof {
            if before.directories.len() > 0 {
                assert(self@.directories =~= before.directories.drop_last());
            }
        }
        directory
    }

    /// Takes an entry of a directory into account.
    pub fn add_entry(&mut self, style: Style, path: String, is_directory: bool)
        ensures
            final(self)@ == with_entry(style, old(self)@, (path@, is_directory)),
    {
        let ghost before = self@;
        if is_directory {
            if !is_skipped_directory(style, path.as_str()) {
                self.directories.push(path);
                assert(self@.directories =~= before.directories.push(path@));
            }
        } else if is_source_file(style, path.as_str()) {
            self.files.push(path);
            assert(self@.files =~= before.files.push(path@));
        }
    }

    /// The files that have been found, in the order of paths.
    pub fn collect_fstar_files(self, style: Style) -> (files: Vec<String>)
        ensures
            order::paths_sorted(style, text::texts(files@)),
            text::texts(files@).to_multiset() == self@.files.to_multiset(),
    {
        order::sort(style, self.files)
    }
}

/// The files that a client has named, relative to the root of its project.
pub open spec fn project_files(style: Style, files: Seq<Seq<char>>, root: Seq<char>) -> Seq<Seq<char>> {
    Seq::new(files.len(), |i: int| locations::joined(style, root, files[i]))
}

/// The files that a client has named, relative to the root of its project.
pub fn resolve_files(style: Style, files: &Vec<String>, root: &str) -> (resolved: Vec<String>)
    ensures
        text::texts(resolved@) == project_files(style, text::texts(files@), root@),
{
    let mut resolved: Vec<String> = Vec::new();
    let mut index: usize = 0;
    while index < files.len()
        invariant
            index <= files@.len(),
            resolved@.len() == index,
            forall|i: int|
                0 <= i < index ==> (#[trigger] resolved@[i])@ == locations::joined(
                    style,
                    root@,
                    files@[i]@,
                ),
        decreases files@.len() - index,
    {
        resolved.push(locations::join(style, root, files[index].as_str()));
        index += 1;
    }
    assert(text::texts(resolved@) =~= project_files(style, text::texts(files@), root@));
    resolved
}

/// The module that a line declares.
pub open spec fn declared_on(line: Seq<char>) -> Option<Seq<char>> {
    dependencies::module_name(
        dependencies::after_keyword(text::trimmed_start(line), "module "@),
    )
}

/// The first module that the lines declare.
pub open spec fn declared_in(lines: Seq<Seq<char>>) -> Option<Seq<char>>
    decreases lines.len(),
{
    if lines.len() == 0 {
        None
    } else {
        match declared_on(lines[0]) {
            Some(module) => Some(module),
            None => declared_in(lines.skip(1)),
        }
    }
}

/// The module that a source declares.
pub open spec fn declared_module(source: Seq<char>) -> Option<Seq<char>> {
    declared_in(text::lines_of(source))
}

/// The module that a source declares.
pub fn source_module(source: &str) -> (module: Option<String>)
    ensures
        text::opt_text(module) == declared_module(source@),
{
    let lines = text::split_lines(source);
    let ghost all = text::lines_of(source@);
    assert(text::texts(lines@).len() == lines@.len());
    let mut index: usize = 0;
    assert(all.skip(0) =~= all);
    while index < lines.len()
        invariant
            index <= lines@.len(),
            all == text::texts(lines@),
            all == text::lines_of(source@),
            declared_in(all) == declared_in(all.skip(index as int)),
        decreases lines@.len() - index,
    {
        assert(all.skip(index as int)[0] == lines@[index as int]@);
        let start = text::trim_start(lines[index].as_str());
        let found = dependencies::read_module(start.as_str(), "module ").1;
        if found.is_some() {
            return found;
        }
        assert(all.skip(index as int).skip(1) =~= all.skip(index + 1));
        index += 1;
    }
    None
}

/// The file of a module: the last one that declares it.
pub open spec fn file_of_module(
    files: Seq<Seq<char>>,
    modules: Seq<Option<Seq<char>>>,
    module: Seq<char>,
) -> Option<Seq<char>>
    decreases files.len(),
{
    if files.len() == 0 || modules.len() != files.len() {
        None
    } else if modules.last() == Some(module) {
        Some(files.last())
    } else {
        file_of_module(files.drop_last(), modules.drop_last(), module)
    }
}

/// The files of the modules, without the file itself, in order.
pub open spec fn files_of_modules(
    style: Style,
    files: Seq<Seq<char>>,
    modules: Seq<Option<Seq<char>>>,
    opened: Seq<Seq<char>>,
    file: Seq<char>,
) -> Seq<Seq<char>>
    decreases opened.len(),
{
    if opened.len() == 0 {
        Seq::empty()
    } else {
        let before = files_of_modules(style, files, modules, opened.drop_last(), file);
        match file_of_module(files, modules, opened.last()) {
            Some(found) => if !locations::is_same(style, found, file) {
                before.push(found)
            } else {
                before
            },
            None => before,
        }
    }
}

/// The modules that the sources declare.
pub open spec fn declared_modules(sources: Seq<Seq<char>>) -> Seq<Option<Seq<char>>> {
    Seq::new(sources.len(), |i: int| declared_module(sources[i]))
}

/// The files of the project that a file opens or includes.
pub open spec fn needed_files(
    style: Style,
    files: Seq<Seq<char>>,
    sources: Seq<Seq<char>>,
    index: int,
) -> Seq<Seq<char>> {
    files_of_modules(
        style,
        files,
        declared_modules(sources),
        dependencies::opened_modules(sources[index]),
        files[index],
    )
}

/// The files of a project with those that each needs.
pub open spec fn project_graph(style: Style, files: Seq<Seq<char>>, sources: Seq<Seq<char>>) -> Seq<
    (Seq<char>, Seq<Seq<char>>),
> {
    Seq::new(files.len(), |i: int| (files[i], needed_files(style, files, sources, i)))
}

/// True when all files that are needed have been put in order.
pub open spec fn is_ready(style: Style, needed: Seq<Seq<char>>, ordered: Seq<Seq<char>>) -> bool {
    forall|i: int| 0 <= i < needed.len() ==> order::holds_same(style, ordered, #[trigger] needed[i])
}

/// The place of the first file that is ready, or the number of files.
pub open spec fn first_ready(
    style: Style,
    remaining: Seq<(Seq<char>, Seq<Seq<char>>)>,
    ordered: Seq<Seq<char>>,
) -> nat
    decreases remaining.len(),
{
    if remaining.len() == 0 || is_ready(style, remaining[0].1, ordered) {
        0
    } else {
        1 + first_ready(style, remaining.skip(1), ordered)
    }
}

/// The place of the file that comes next: the first that is ready, or the first of all where the
/// files need each other in a circle.
pub open spec fn next_place(
    style: Style,
    remaining: Seq<(Seq<char>, Seq<Seq<char>>)>,
    ordered: Seq<Seq<char>>,
) -> int {
    if first_ready(style, remaining, ordered) < remaining.len() {
        first_ready(style, remaining, ordered) as int
    } else {
        0
    }
}

/// `ordered`, and behind it the files that remain, each as soon as it is ready.
pub open spec fn put_in_order(
    style: Style,
    remaining: Seq<(Seq<char>, Seq<Seq<char>>)>,
    ordered: Seq<Seq<char>>,
) -> Seq<Seq<char>>
    decreases remaining.len(),
{
    if remaining.len() == 0 {
        ordered
    } else {
        let place = next_place(style, remaining, ordered);
        put_in_order(style, remaining.remove(place), ordered.push(remaining[place].0))
    }
}

/// The files of a project in the order in which they are checked.
pub open spec fn check_order(style: Style, files: Seq<Seq<char>>, sources: Seq<Seq<char>>) -> Seq<
    Seq<char>,
> {
    put_in_order(style, project_graph(style, files, sources), Seq::empty())
}

/// `first_ready` gives the first place of its kind.
proof fn lemma_first_ready(
    style: Style,
    remaining: Seq<(Seq<char>, Seq<Seq<char>>)>,
    ordered: Seq<Seq<char>>,
)
    ensures
        first_ready(style, remaining, ordered) <= remaining.len(),
        first_ready(style, remaining, ordered) < remaining.len() ==> is_ready(
            style,
            remaining[first_ready(style, remaining, ordered) as int].1,
            ordered,
        ),
        forall|i: int|
            0 <= i < first_ready(style, remaining, ordered) ==> !is_ready(
                style,
                (#[trigger] remaining[i]).1,
                ordered,
            ),
    decreases remaining.len(),
{
    if remaining.len() > 0 && !is_ready(style, remaining[0].1, ordered) {
        let rest = remaining.skip(1);
        lemma_first_ready(style, rest, ordered);
        assert forall|i: int| 0 <= i < first_ready(style, remaining, ordered) implies !is_ready(
            style,
            (#[trigger] remaining[i]).1,
            ordered,
        ) by {
            if i > 0 {
                assert(rest[i - 1] == remaining[i]);
            }
        }
    }
}

/// The files of a graph.
pub open spec fn graph_files(graph: Seq<(Seq<char>, Seq<Seq<char>>)>) -> Seq<Seq<char>> {
    Seq::new(graph.len(), |i: int| graph[i].0)
}

/// Each file is checked exactly as often as it is named: the order is a rearrangement.
proof fn lemma_order_keeps_files(
    style: Style,
    remaining: Seq<(Seq<char>, Seq<Seq<char>>)>,
    ordered: Seq<Seq<char>>,
)
    ensures
        put_in_order(style, remaining, ordered).to_multiset() == ordered.to_multiset().add(
            graph_files(remaining).to_multiset(),
        ),
        put_in_order(style, remaining, ordered).len() == ordered.len() + remaining.len(),
        ordered.is_prefix_of(put_in_order(style, remaining, ordered)),
    decreases remaining.len(),
{
    ordered.to_multiset_ensures();
    graph_files(remaining).to_multiset_ensures();
    if remaining.len() == 0 {
        assert(ordered.to_multiset().add(graph_files(remaining).to_multiset())
            =~= ordered.to_multiset());
    } else {
        lemma_first_ready(style, remaining, ordered);
        let place = next_place(style, remaining, ordered);
        let file = remaining[place].0;
        let rest = remaining.remove(place);
        lemma_order_keeps_files(style, rest, ordered.push(file));
        assert(graph_files(rest) =~= graph_files(remaining).remove(place));
        assert(graph_files(remaining)[place] == file);
        assert(graph_files(rest).to_multiset() =~= graph_files(remaining).to_multiset().remove(
            file,
        ));
        assert(graph_files(remaining).contains(file));
        assert(ordered.push(file).to_multiset() =~= ordered.to_multiset().insert(file));
        assert(put_in_order(style, remaining, ordered).to_multiset() =~= ordered.to_multiset().add(
            graph_files(remaining).to_multiset(),
        ));
        let all = put_in_order(style, remaining, ordered);
        assert(ordered.push(file).is_prefix_of(all));
        assert(ordered =~= ordered.push(file).subrange(0, ordered.len() as int));
        assert(ordered =~= all.subrange(0, ordered.len() as int));
    }
}

/// Each file of a project is checked exactly as often as it is named.
pub proof fn law_every_file_is_checked(style: Style, files: Seq<Seq<char>>, sources: Seq<Seq<char>>)
    ensures
        check_order(style, files, sources).to_multiset() == files.to_multiset(),
        check_order(style, files, sources).len() == files.len(),
{
    let graph = project_graph(style, files, sources);
    lemma_order_keeps_files(style, graph, Seq::empty());
    assert(graph_files(graph) =~= files);
    Seq::<Seq<char>>::empty().to_multiset_ensures();
    assert(Seq::<Seq<char>>::empty().to_multiset().add(files.to_multiset())
        =~= files.to_multiset());
}

/// True when no file of the graph needs itself, directly or through others: there is a rank by
/// which each file stands above all that it needs.
pub open spec fn is_ranked(
    style: Style,
    graph: Seq<(Seq<char>, Seq<Seq<char>>)>,
    rank: spec_fn(Seq<Seq<char>>) -> nat,
) -> bool {
    forall|i: int, k: int|
        #![trigger graph[i].1[k]]
        0 <= i < graph.len() && 0 <= k < graph[i].1.len() ==> rank(
            locations::components(style, graph[i].1[k]),
        ) < rank(locations::components(style, graph[i].0))
}

/// True when each file that the graph's files need is in the graph or in `ordered`.
pub open spec fn is_covered(
    style: Style,
    graph: Seq<(Seq<char>, Seq<Seq<char>>)>,
    ordered: Seq<Seq<char>>,
) -> bool {
    forall|i: int, k: int|
        #![trigger graph[i].1[k]]
        0 <= i < graph.len() && 0 <= k < graph[i].1.len() ==> order::holds_same(
            style,
            graph_files(graph),
            graph[i].1[k],
        ) || order::holds_same(style, ordered, graph[i].1[k])
}

/// Where the files do not need each other in a circle, one is always ready.
proof fn lemma_some_file_is_ready(
    style: Style,
    graph: Seq<(Seq<char>, Seq<Seq<char>>)>,
    ordered: Seq<Seq<char>>,
    rank: spec_fn(Seq<Seq<char>>) -> nat,
    start: int,
)
    requires
        is_ranked(style, graph, rank),
        is_covered(style, graph, ordered),
        0 <= start < graph.len(),
    ensures
        exists|i: int| 0 <= i < graph.len() && is_ready(style, (#[trigger] graph[i]).1, ordered),
    decreases rank(locations::components(style, graph[start].0)),
{
    let needed = graph[start].1;
    if !is_ready(style, needed, ordered) {
        let k = choose|k: int|
            0 <= k < needed.len() && !order::holds_same(style, ordered, #[trigger] needed[k]);
        assert(graph[start].1[k] == needed[k]);
        assert(order::holds_same(style, graph_files(graph), needed[k]));
        let next = choose|i: int|
            0 <= i < graph_files(graph).len() && locations::is_same(
                style,
                #[trigger] graph_files(graph)[i],
                needed[k],
            );
        assert(graph_files(graph)[next] == graph[next].0);
        lemma_some_file_is_ready(style, graph, ordered, rank, next);
    }
}

/// True when the file at each place from `from` on stands behind all that it needs.
pub open spec fn is_in_order(
    style: Style,
    order: Seq<Seq<char>>,
    graph: Seq<(Seq<char>, Seq<Seq<char>>)>,
    from: int,
) -> bool {
    forall|at: int|
        from <= at < order.len() ==> exists|i: int|
            0 <= i < graph.len() && (#[trigger] graph[i]).0 == #[trigger] order[at] && is_ready(
                style,
                graph[i].1,
                order.take(at),
            )
}

proof fn lemma_ordered(
    style: Style,
    remaining: Seq<(Seq<char>, Seq<Seq<char>>)>,
    ordered: Seq<Seq<char>>,
    rank: spec_fn(Seq<Seq<char>>) -> nat,
)
    requires
        is_ranked(style, remaining, rank),
        is_covered(style, remaining, ordered),
    ensures
        is_in_order(style, put_in_order(style, remaining, ordered), remaining, ordered.len() as int),
    decreases remaining.len(),
{
    if remaining.len() > 0 {
        lemma_first_ready(style, remaining, ordered);
        lemma_some_file_is_ready(style, remaining, ordered, rank, 0);
        let ready = choose|i: int|
            0 <= i < remaining.len() && is_ready(style, (#[trigger] remaining[i]).1, ordered);
        assert(first_ready(style, remaining, ordered) <= ready);
        let place = next_place(style, remaining, ordered);
        let file = remaining[place].0;
        let rest = remaining.remove(place);
        let longer = ordered.push(file);
        assert forall|i: int| 0 <= i < rest.len() implies #[trigger] rest[i] == remaining[if i
            < place {
            i
        } else {
            i + 1
        }] by {}
        assert forall|i: int, k: int|
            #![trigger rest[i].1[k]]
            0 <= i < rest.len() && 0 <= k < rest[i].1.len() implies (rank(
            locations::components(style, rest[i].1[k]),
        ) < rank(locations::components(style, rest[i].0))) && (order::holds_same(
            style,
            graph_files(rest),
            rest[i].1[k],
        ) || order::holds_same(style, longer, rest[i].1[k])) by {
            let from = if i < place {
                i
            } else {
                i + 1
            };
            let needed = rest[i].1[k];
            assert(remaining[from].1[k] == needed);
            if order::holds_same(style, ordered, needed) {
                let j = choose|j: int|
                    0 <= j < ordered.len() && locations::is_same(style, #[trigger] ordered[j], needed);
                assert(longer[j] == ordered[j]);
            } else {
                let j = choose|j: int|
                    0 <= j < graph_files(remaining).len() && locations::is_same(
                        style,
                        #[trigger] graph_files(remaining)[j],
                        needed,
                    );
                if j == place {
                    assert(longer[ordered.len() as int] == file);
                } else {
                    let at = if j < place {
                        j
                    } else {
                        j - 1
                    };
                    assert(graph_files(rest)[at] == graph_files(remaining)[j]);
                }
            }
        }
        lemma_ordered(style, rest, longer, rank);
        lemma_order_keeps_files(style, rest, longer);
        let order = put_in_order(style, remaining, ordered);
        assert forall|at: int| ordered.len() <= at < order.len() implies exists|i: int|
            0 <= i < remaining.len() && (#[trigger] remaining[i]).0 == #[trigger] order[at]
                && is_ready(style, remaining[i].1, order.take(at)) by {
            if at == ordered.len() {
                assert(order[at] == longer[at]);
                assert(order.take(at) =~= ordered) by {
                    assert(longer =~= order.subrange(0, longer.len() as int));
                }
                assert(remaining[place].0 == order[at]);
            } else {
                let i = choose|i: int|
                    0 <= i < rest.len() && (#[trigger] rest[i]).0 == order[at] && is_ready(
                        style,
                        rest[i].1,
                        order.take(at),
                    );
                let from = if i < place {
                    i
                } else {
                    i + 1
                };
                assert(remaining[from] == rest[i]);
            }
        }
    }
}

/// What is needed is a file of the project.
proof fn lemma_needed_is_known(
    style: Style,
    files: Seq<Seq<char>>,
    modules: Seq<Option<Seq<char>>>,
    opened: Seq<Seq<char>>,
    file: Seq<char>,
)
    ensures
        forall|k: int|
            0 <= k < files_of_modules(style, files, modules, opened, file).len() ==> files.contains(
                #[trigger] files_of_modules(style, files, modules, opened, file)[k],
            ),
    decreases opened.len(),
{
    if opened.len() > 0 {
        lemma_needed_is_known(style, files, modules, opened.drop_last(), file);
        let before = files_of_modules(style, files, modules, opened.drop_last(), file);
        let after = files_of_modules(style, files, modules, opened, file);
        lemma_file_of_module(files, modules, opened.last());
        assert forall|k: int| 0 <= k < after.len() implies files.contains(#[trigger] after[k]) by {
            if k < before.len() {
                assert(before[k] == after[k]);
            }
        }
    }
}

proof fn lemma_file_of_module(
    files: Seq<Seq<char>>,
    modules: Seq<Option<Seq<char>>>,
    module: Seq<char>,
)
    ensures
        file_of_module(files, modules, module) is Some ==> files.contains(
            file_of_module(files, modules, module)->0,
        ),
    decreases files.len(),
{
    if files.len() > 0 && modules.len() == files.len() {
        if modules.last() == Some(module) {
            assert(files[files.len() - 1] == files.last());
        } else {
            let rest = files.drop_last();
            lemma_file_of_module(rest, modules.drop_last(), module);
            let found = file_of_module(rest, modules.drop_last(), module);
            if found is Some {
                let i = rest.index_of(found->0);
                assert(files[i] == found->0);
            }
        }
    }
}

/// The files of a project are checked in dependency order: where they do not need each other in a
/// circle, each file stands behind all files of the project that it opens or includes.
pub proof fn law_files_stand_behind_what_they_need(
    style: Style,
    files: Seq<Seq<char>>,
    sources: Seq<Seq<char>>,
    rank: spec_fn(Seq<Seq<char>>) -> nat,
)
    requires
        is_ranked(style, project_graph(style, files, sources), rank),
    ensures
        is_in_order(style, check_order(style, files, sources), project_graph(style, files, sources), 0),
{
    let graph = project_graph(style, files, sources);
    assert forall|i: int, k: int|
        #![trigger graph[i].1[k]]
        0 <= i < graph.len() && 0 <= k < graph[i].1.len() implies order::holds_same(
        style,
        graph_files(graph),
        graph[i].1[k],
    ) || order::holds_same(style, Seq::empty(), graph[i].1[k]) by {
        lemma_needed_is_known(
            style,
            files,
            declared_modules(sources),
            dependencies::opened_modules(sources[i]),
            files[i],
        );
        let needed = graph[i].1[k];
        assert(files.contains(needed));
        let j = files.index_of(needed);
        assert(graph_files(graph)[j] == needed);
    }
    lemma_ordered(style, graph, Seq::empty(), rank);
}

/// The models of the modules that sources declare.
pub open spec fn modules_view(modules: Seq<Option<String>>) -> Seq<Option<Seq<char>>> {
    Seq::new(modules.len(), |i: int| text::opt_text(modules[i]))
}

/// The models of files with those that each needs.
pub open spec fn graph_view(graph: Seq<(String, Vec<String>)>) -> Seq<(Seq<char>, Seq<Seq<char>>)> {
    Seq::new(graph.len(), |i: int| (graph[i].0@, text::texts(graph[i].1@)))
}

/// The modules that the sources declare.
fn read_modules(sources: &Vec<String>) -> (modules: Vec<Option<String>>)
    ensures
        modules_view(modules@) == declared_modules(text::texts(sources@)),
{
    let mut modules: Vec<Option<String>> = Vec::new();
    let mut index: usize = 0;
    while index < sources.len()
        invariant
            index <= sources@.len(),
            modules@.len() == index,
            forall|i: int|
                0 <= i < index ==> text::opt_text(#[trigger] modules@[i]) == declared_module(
                    sources@[i]@,
                ),
        decreases sources@.len() - index,
    {
        modules.push(source_module(sources[index].as_str()));
        index += 1;
    }
    assert(modules_view(modules@) =~= declared_modules(text::texts(sources@)));
    modules
}

/// The file of a module: the last one that declares it.
fn find_module(files: &Vec<String>, modules: &Vec<Option<String>>, module: &str) -> (file: Option<
    String,
>)
    requires
        files@.len() == modules@.len(),
    ensures
        text::opt_text(file) == file_of_module(
            text::texts(files@),
            modules_view(modules@),
            module@,
        ),
{
    let ghost names = text::texts(files@);
    let ghost declared = modules_view(modules@);
    let mut index: usize = files.len();
    assert(names.take(index as int) =~= names);
    assert(declared.take(index as int) =~= declared);
    while index > 0
        invariant
            index <= files@.len() == modules@.len(),
            names == text::texts(files@),
            declared == modules_view(modules@),
            file_of_module(names, declared, module@) == file_of_module(
                names.take(index as int),
                declared.take(index as int),
                module@,
            ),
        decreases index,
    {
        assert(names.take(index as int).last() == files@[index - 1]@);
        assert(declared.take(index as int).last() == text::opt_text(modules@[index - 1]));
        assert(names.take(index as int).drop_last() =~= names.take(index - 1));
        assert(declared.take(index as int).drop_last() =~= declared.take(index - 1));
        if text::same_option(text::borrow_option(&modules[index - 1]), Some(module)) {
            return Some(files[index - 1].clone());
        }
        index -= 1;
    }
    None
}

/// The files of the modules that a source opens, without the file itself, in order.
fn find_needed(
    style: Style,
    files: &Vec<String>,
    modules: &Vec<Option<String>>,
    source: &str,
    file: &str,
) -> (needed: Vec<String>)
    requires
        files@.len() == modules@.len(),
    ensures
        text::texts(needed@) == files_of_modules(
            style,
            text::texts(files@),
            modules_view(modules@),
            dependencies::opened_modules(source@),
            file@,
        ),
{
    let opened = dependencies::source_modules(source);
    let ghost all = dependencies::opened_modules(source@);
    let ghost names = text::texts(files@);
    let ghost declared = modules_view(modules@);
    assert(text::texts(opened@).len() == opened@.len());
    let mut needed: Vec<String> = Vec::new();
    let mut index: usize = 0;
    assert(all.take(0) =~= Seq::empty());
    assert(text::texts(needed@) =~= Seq::empty());
    while index < opened.len()
        invariant
            files@.len() == modules@.len(),
            index <= opened@.len(),
            all == text::texts(opened@),
            names == text::texts(files@),
            declared == modules_view(modules@),
            text::texts(needed@) == files_of_modules(
                style,
                names,
                declared,
                all.take(index as int),
                file@,
            ),
        decreases opened@.len() - index,
    {
        let ghost before = text::texts(needed@);
        assert(all.take(index + 1).drop_last() =~= all.take(index as int));
        assert(all.take(index + 1).last() == opened@[index as int]@);
        match find_module(files, modules, opened[index].as_str()) {
            Some(found) => {
                if !locations::same_path(style, found.as_str(), file) {
                    needed.push(found);
                    assert(text::texts(needed@) =~= before.push(found@));
                }
            },
            None => {},
        }
        index += 1;
    }
    assert(all.take(index as int) =~= all);
    needed
}

/// True when the list holds the file.
fn holds_file(style: Style, list: &Vec<String>, file: &str) -> (found: bool)
    ensures
        found == order::holds_same(style, text::texts(list@), file@),
{
    let mut index: usize = 0;
    while index < list.len()
        invariant
            index <= list@.len(),
            forall|i: int|
                0 <= i < index ==> !locations::is_same(style, #[trigger] text::texts(list@)[i], file@),
        decreases list@.len() - index,
    {
        assert(text::texts(list@)[index as int] == list@[index as int]@);
        if locations::same_path(style, list[index].as_str(), file) {
            return true;
        }
        index += 1;
    }
    false
}

/// True when all files that are needed have been put in order.
fn all_ordered(style: Style, needed: &Vec<String>, ordered: &Vec<String>) -> (ready: bool)
    ensures
        ready == is_ready(style, text::texts(needed@), text::texts(ordered@)),
{
    let ghost wanted = text::texts(needed@);
    let mut index: usize = 0;
    while index < needed.len()
        invariant
            index <= needed@.len(),
            wanted == text::texts(needed@),
            forall|i: int|
                0 <= i < index ==> order::holds_same(style, text::texts(ordered@), #[trigger] wanted[i]),
        decreases needed@.len() - index,
    {
        assert(wanted[index as int] == needed@[index as int]@);
        if !holds_file(style, ordered, needed[index].as_str()) {
            return false;
        }
        index += 1;
    }
    true
}

/// The files of a project in the order in which they are checked: each behind those that it opens
/// or includes, as far as they do not need each other in a circle. `sources` holds the text of
/// each file.
pub fn dependency_order(style: Style, files: &Vec<String>, sources: &Vec<String>) -> (order: Vec<
    String,
>)
    requires
        files@.len() == sources@.len(),
    ensures
        text::texts(order@) == check_order(style, text::texts(files@), text::texts(sources@)),
{
    let modules = read_modules(sources);
    let ghost names = text::texts(files@);
    let ghost texts = text::texts(sources@);
    let ghost graph = project_graph(style, names, texts);
    assert(modules_view(modules@).len() == modules@.len());
    let mut remaining: Vec<(String, Vec<String>)> = Vec::new();
    let mut index: usize = 0;
    assert(graph_view(remaining@) =~= graph.take(0));
    while index < files.len()
        invariant
            files@.len() == sources@.len() == modules@.len(),
            index <= files@.len(),
            names == text::texts(files@),
            texts == text::texts(sources@),
            modules_view(modules@) == declared_modules(texts),
            graph == project_graph(style, names, texts),
            graph_view(remaining@) == graph.take(index as int),
        decreases files@.len() - index,
    {
        let ghost before = graph_view(remaining@);
        let needed = find_needed(style, files, &modules, sources[index].as_str(), files[index].as_str());
        assert(names[index as int] == files@[index as int]@);
        assert(texts[index as int] == sources@[index as int]@);
        let file = files[index].clone();
        assert(graph[index as int] == (file@, text::texts(needed@)));
        remaining.push((file, needed));
        assert(graph_view(remaining@) =~= before.push((file@, text::texts(needed@))));
        assert(graph_view(remaining@) =~= graph.take(index + 1));
        index += 1;
    }
    assert(graph.take(index as int) =~= graph);
    let mut order: Vec<String> = Vec::new();
    assert(text::texts(order@) =~= Seq::empty());
    while remaining.len() > 0
        invariant
            put_in_order(style, graph_view(remaining@), text::texts(order@)) == check_order(
                style,
                names,
                texts,
            ),
        decreases remaining@.len(),
    {
        let ghost left = graph_view(remaining@);
        let ghost done = text::texts(order@);
        let mut place: usize = 0;
        assert(left.skip(0) =~= left);
        while place < remaining.len() && !all_ordered(style, &remaining[place].1, &order)
            invariant
                place <= remaining@.len(),
                left == graph_view(remaining@),
                done == text::texts(order@),
                first_ready(style, left, done) == place + first_ready(
                    style,
                    left.skip(place as int),
                    done,
                ),
            decreases remaining@.len() - place,
        {
            assert(left.skip(place as int)[0] == (
                remaining@[place as int].0@,
                text::texts(remaining@[place as int].1@),
            ));
            assert(left.skip(place as int).skip(1) =~= left.skip(place + 1));
            place += 1;
        }
        if place < remaining.len() {
            assert(left.skip(place as int)[0] == (
                remaining@[place as int].0@,
                text::texts(remaining@[place as int].1@),
            ));
        }
        let next: usize = if place < remaining.len() {
            place
        } else {
            0
        };
        assert(next == next_place(style, left, done));
        let (file, _) = remaining.remove(next);
        assert(graph_view(remaining@) =~= left.remove(next as int));
        order.push(file);
        assert(left[next as int].0 == file@);
        assert(text::texts(order@) =~= done.push(file@));
    }
    assert(graph_view(remaining@) =~= Seq::empty());
    order
}

/// True when a line of a source opens or includes a module.
pub open spec fn opens_module(source: Seq<char>, module: Seq<char>) -> bool {
    exists|n: int|
        0 <= n < text::lines_of(source).len() && dependencies::opened_on(
            #[trigger] text::lines_of(source)[n],
        ) == Some(module)
}

/// True when a source declares a module and none behind it does.
pub open spec fn declares_last(sources: Seq<Seq<char>>, module: Seq<char>, place: int) -> bool {
    &&& 0 <= place < sources.len()
    &&& declared_module(sources[place]) == Some(module)
    &&& forall|i: int|
        place < i < sources.len() ==> declared_module(#[trigger] sources[i]) != Some(module)
}

/// True when a file opens or includes a module that another file of the project declares.
pub open spec fn opens_file(
    style: Style,
    files: Seq<Seq<char>>,
    sources: Seq<Seq<char>>,
    from: int,
    to: int,
) -> bool {
    &&& !locations::is_same(style, files[to], files[from])
    &&& exists|module: Seq<char>|
        opens_module(sources[from], module) && #[trigger] declares_last(sources, module, to)
}

/// A source declares the module on the first of its lines that declares one.
pub proof fn law_the_first_declaration_counts(source: Seq<char>, at: int, module: Seq<char>)
    requires
        0 <= at < text::lines_of(source).len(),
        declared_on(text::lines_of(source)[at]) == Some(module),
        forall|i: int|
            0 <= i < at ==> declared_on(#[trigger] text::lines_of(source)[i]) is None,
    ensures
        declared_module(source) == Some(module),
{
    lemma_declared_in(text::lines_of(source), at);
}

/// A source without such a line declares none.
pub proof fn law_sources_without_a_declaration_declare_nothing(source: Seq<char>)
    requires
        forall|i: int|
            0 <= i < text::lines_of(source).len() ==> declared_on(
                #[trigger] text::lines_of(source)[i],
            ) is None,
    ensures
        declared_module(source) is None,
{
    lemma_declared_in(text::lines_of(source), text::lines_of(source).len() as int);
}

/// The first line that declares a module decides.
proof fn lemma_declared_in(lines: Seq<Seq<char>>, at: int)
    requires
        0 <= at <= lines.len(),
        at < lines.len() ==> declared_on(lines[at]) is Some,
        forall|i: int| 0 <= i < at ==> declared_on(#[trigger] lines[i]) is None,
    ensures
        declared_in(lines) == (if at < lines.len() {
            declared_on(lines[at])
        } else {
            None
        }),
    decreases at,
{
    if at > 0 {
        let rest = lines.skip(1);
        assert(declared_on(lines[0]) is None);
        assert forall|i: int| 0 <= i < at - 1 implies declared_on(#[trigger] rest[i]) is None by {
            assert(rest[i] == lines[i + 1]);
        }
        lemma_declared_in(rest, at - 1);
    }
}

/// A line declares a module where it starts with `module` and a space, whatever whitespace stands
/// around them; semicolons behind the name do not belong to it.
pub proof fn law_modules_are_declared(
    space: Seq<char>,
    gap: Seq<char>,
    module: Seq<char>,
    ends: Seq<char>,
    tail: Seq<char>,
)
    requires
        forall|i: int| 0 <= i < space.len() ==> text::is_space(#[trigger] space[i]),
        forall|i: int| 0 <= i < gap.len() ==> text::is_space(#[trigger] gap[i]),
        forall|i: int| 0 <= i < module.len() ==> !text::is_space(#[trigger] module[i]),
        forall|i: int| 0 <= i < ends.len() ==> #[trigger] ends[i] == ';',
        module.len() + ends.len() > 0,
        module.len() > 0 ==> module.last() != ';',
        tail.len() > 0 ==> text::is_space(tail[0]),
    ensures
        declared_on(space + "module "@ + gap + module + ends + tail) == Some(module),
{
    reveal_strlit("module ");
    assert("module "@[0] == 'm' && "module "@.len() == 7);
    dependencies::law_modules_stand_behind_keywords(space, "module "@, gap, module, ends, tail);
}

/// A line that starts with something else declares nothing.
pub proof fn law_other_lines_declare_nothing(line: Seq<char>, count: int)
    requires
        0 <= count <= line.len(),
        forall|i: int| 0 <= i < count ==> text::is_space(#[trigger] line[i]),
        count < line.len() ==> !text::is_space(line[count]),
        !"module "@.is_prefix_of(line.skip(count)),
    ensures
        declared_on(line) is None,
{
    text::law_only_leading_space_is_trimmed(line, count);
}

/// The file of a module is the last one that declares it.
proof fn lemma_last_declaration(
    files: Seq<Seq<char>>,
    modules: Seq<Option<Seq<char>>>,
    module: Seq<char>,
    place: int,
)
    requires
        files.len() == modules.len(),
        -1 <= place < files.len(),
        place >= 0 ==> modules[place] == Some(module),
        forall|i: int| place < i < files.len() ==> #[trigger] modules[i] != Some(module),
    ensures
        file_of_module(files, modules, module) == (if place >= 0 {
            Some(files[place])
        } else {
            None
        }),
    decreases files.len(),
{
    if files.len() > 0 && place < files.len() - 1 {
        assert(modules[files.len() - 1] != Some(module));
        lemma_last_declaration(files.drop_last(), modules.drop_last(), module, place);
    }
}

/// A place where a module is declared last, where it is declared at all.
proof fn lemma_find_declaration(sources: Seq<Seq<char>>, module: Seq<char>) -> (place: int)
    ensures
        -1 <= place < sources.len(),
        place >= 0 ==> declares_last(sources, module, place),
        forall|i: int|
            place < i < sources.len() ==> declared_module(#[trigger] sources[i]) != Some(module),
    decreases sources.len(),
{
    if sources.len() == 0 {
        -1
    } else if declared_module(sources.last()) == Some(module) {
        sources.len() - 1
    } else {
        let rest = sources.drop_last();
        let place = lemma_find_declaration(rest, module);
        assert forall|i: int| place < i < sources.len() implies declared_module(
            #[trigger] sources[i],
        ) != Some(module) by {
            if i < rest.len() {
                assert(rest[i] == sources[i]);
            }
        }
        place
    }
}

/// The files of modules are those that the modules stand in, but for the file itself.
proof fn lemma_files_of_modules(
    style: Style,
    files: Seq<Seq<char>>,
    sources: Seq<Seq<char>>,
    opened: Seq<Seq<char>>,
    file: Seq<char>,
    wanted: Seq<char>,
)
    requires
        files.len() == sources.len(),
    ensures
        files_of_modules(style, files, declared_modules(sources), opened, file).contains(wanted)
            <==> exists|k: int, to: int|
            0 <= k < opened.len() && #[trigger] declares_last(sources, #[trigger] opened[k], to)
                && files[to] == wanted && !locations::is_same(style, wanted, file),
    decreases opened.len(),
{
    let modules = declared_modules(sources);
    let after = files_of_modules(style, files, modules, opened, file);
    if opened.len() > 0 {
        let rest = opened.drop_last();
        let before = files_of_modules(style, files, modules, rest, file);
        lemma_files_of_modules(style, files, sources, rest, file, wanted);
        let last = opened[opened.len() - 1];
        let place = lemma_find_declaration(sources, last);
        assert forall|i: int| place < i < files.len() implies #[trigger] modules[i] != Some(
            last,
        ) by {
            assert(declared_module(sources[i]) != Some(last));
        }
        lemma_last_declaration(files, modules, last, place);
        if after.contains(wanted) {
            let n = after.index_of(wanted);
            if n < before.len() {
                assert(before[n] == wanted);
                let (k, to) = choose|k: int, to: int|
                    0 <= k < rest.len() && #[trigger] declares_last(sources, #[trigger] rest[k], to)
                        && files[to] == wanted && !locations::is_same(style, wanted, file);
                assert(opened[k] == rest[k]);
            } else {
                assert(declares_last(sources, opened[opened.len() - 1], place));
            }
        }
        if exists|k: int, to: int|
            0 <= k < opened.len() && #[trigger] declares_last(sources, #[trigger] opened[k], to)
                && files[to] == wanted && !locations::is_same(style, wanted, file) {
            let (k, to) = choose|k: int, to: int|
                0 <= k < opened.len() && #[trigger] declares_last(sources, #[trigger] opened[k], to)
                    && files[to] == wanted && !locations::is_same(style, wanted, file);
            if k < rest.len() {
                assert(rest[k] == opened[k]);
                let n = before.index_of(wanted);
                assert(after[n] == wanted);
            } else {
                if to < place {
                    assert(declared_module(sources[place]) != Some(last));
                } else if place < to {
                    assert(declared_module(sources[to]) != Some(last));
                }
                assert(after[before.len() as int] == wanted);
            }
        }
    }
}

/// A file needs exactly the files of the project whose modules one of its lines opens or includes;
/// of several files that declare a module the last one counts.
pub proof fn law_all_opened_files_are_needed(
    style: Style,
    files: Seq<Seq<char>>,
    sources: Seq<Seq<char>>,
    from: int,
    wanted: Seq<char>,
)
    requires
        files.len() == sources.len(),
        0 <= from < files.len(),
    ensures
        needed_files(style, files, sources, from).contains(wanted) <==> exists|to: int|
            0 <= to < files.len() && files[to] == wanted && #[trigger] opens_file(
                style,
                files,
                sources,
                from,
                to,
            ),
{
    let opened = dependencies::opened_modules(sources[from]);
    lemma_files_of_modules(style, files, sources, opened, files[from], wanted);
    if needed_files(style, files, sources, from).contains(wanted) {
        let (k, to) = choose|k: int, to: int|
            0 <= k < opened.len() && #[trigger] declares_last(sources, #[trigger] opened[k], to)
                && files[to] == wanted && !locations::is_same(style, wanted, files[from]);
        dependencies::law_all_lines_are_read(sources[from], opened[k]);
        assert(opens_module(sources[from], opened[k]));
        assert(opens_file(style, files, sources, from, to));
    }
    assert forall|to: int|
        0 <= to < files.len() && files[to] == wanted && #[trigger] opens_file(
            style,
            files,
            sources,
            from,
            to,
        ) implies needed_files(style, files, sources, from).contains(wanted) by {
        let module = choose|module: Seq<char>|
            opens_module(sources[from], module) && #[trigger] declares_last(sources, module, to);
        dependencies::law_all_lines_are_read(sources[from], module);
        let k = opened.index_of(module);
        assert(declares_last(sources, opened[k], to));
    }
}

/// Where the files of a project do not open each other in a circle, and none is named twice, each
/// file is checked after every file of the project that it opens or includes.
pub proof fn law_opened_files_are_checked_first(
    style: Style,
    files: Seq<Seq<char>>,
    sources: Seq<Seq<char>>,
    rank: spec_fn(Seq<Seq<char>>) -> nat,
    from: int,
    to: int,
    at: int,
)
    requires
        files.len() == sources.len(),
        forall|i: int, j: int|
            0 <= i < j < files.len() ==> !locations::is_same(
                style,
                #[trigger] files[i],
                #[trigger] files[j],
            ),
        forall|i: int, j: int|
            0 <= i < files.len() && 0 <= j < files.len() && #[trigger] opens_file(
                style,
                files,
                sources,
                i,
                j,
            ) ==> rank(locations::components(style, files[j])) < rank(
                locations::components(style, files[i]),
            ),
        0 <= from < files.len(),
        0 <= to < files.len(),
        opens_file(style, files, sources, from, to),
        0 <= at < check_order(style, files, sources).len(),
        check_order(style, files, sources)[at] == files[from],
    ensures
        exists|before: int|
            0 <= before < at && #[trigger] check_order(style, files, sources)[before] == files[to],
{
    let graph = project_graph(style, files, sources);
    let order = check_order(style, files, sources);
    assert forall|i: int, k: int|
        #![trigger graph[i].1[k]]
        0 <= i < graph.len() && 0 <= k < graph[i].1.len() implies rank(
        locations::components(style, graph[i].1[k]),
    ) < rank(locations::components(style, graph[i].0)) by {
        let wanted = graph[i].1[k];
        assert(needed_files(style, files, sources, i).contains(wanted));
        law_all_opened_files_are_needed(style, files, sources, i, wanted);
        let j = choose|j: int|
            0 <= j < files.len() && files[j] == wanted && #[trigger] opens_file(
                style,
                files,
                sources,
                i,
                j,
            );
        assert(opens_file(style, files, sources, i, j));
    }
    law_files_stand_behind_what_they_need(style, files, sources, rank);
    assert(is_in_order(style, order, graph, 0));
    let i = choose|i: int|
        0 <= i < graph.len() && (#[trigger] graph[i]).0 == order[at] && is_ready(
            style,
            graph[i].1,
            order.take(at),
        );
    if i < from {
        assert(!locations::is_same(style, files[i], files[from]));
    } else if from < i {
        assert(!locations::is_same(style, files[from], files[i]));
    }
    law_all_opened_files_are_needed(style, files, sources, from, files[to]);
    let needed = graph[from].1;
    let k = needed.index_of(files[to]);
    assert(order::holds_same(style, order.take(at), needed[k]));
    let before = choose|b: int|
        0 <= b < order.take(at).len() && locations::is_same(
            style,
            #[trigger] order.take(at)[b],
            files[to],
        );
    let found = order[before];
    law_every_file_is_checked(style, files, sources);
    order.to_multiset_ensures();
    files.to_multiset_ensures();
    assert(order.contains(found));
    assert(files.contains(found));
    let n = files.index_of(found);
    if n < to {
        assert(!locations::is_same(style, files[n], files[to]));
    } else if to < n {
        assert(!locations::is_same(style, files[to], files[n]));
    }
    assert(order[before] == files[to]);
}

/// The next file to check is the first of those that remain whose needed files have all been put in
/// order, and the first of all where there is none.
pub proof fn law_the_first_ready_file_is_next(
    style: Style,
    remaining: Seq<(Seq<char>, Seq<Seq<char>>)>,
    ordered: Seq<Seq<char>>,
    place: int,
)
    requires
        0 <= place < remaining.len(),
        ({
            let ready = |i: int|
                forall|k: int|
                    0 <= k < remaining[i].1.len() ==> order::holds_same(
                        style,
                        ordered,
                        #[trigger] remaining[i].1[k],
                    );
            ||| ready(place) && forall|i: int| 0 <= i < place ==> !#[trigger] ready(i)
            ||| place == 0 && forall|i: int| 0 <= i < remaining.len() ==> !#[trigger] ready(i)
        }),
    ensures
        put_in_order(style, remaining, ordered) == put_in_order(
            style,
            remaining.remove(place),
            ordered.push(remaining[place].0),
        ),
        put_in_order(style, Seq::empty(), ordered) == ordered,
{
    lemma_first_ready(style, remaining, ordered);
    let ready = |i: int|
        forall|k: int|
            0 <= k < remaining[i].1.len() ==> order::holds_same(
                style,
                ordered,
                #[trigger] remaining[i].1[k],
            );
    assert forall|i: int| 0 <= i < remaining.len() implies #[trigger] ready(i) == is_ready(
        style,
        remaining[i].1,
        ordered,
    ) by {
        let needed = remaining[i].1;
        if ready(i) {
            assert forall|k: int| 0 <= k < needed.len() implies order::holds_same(
                style,
                ordered,
                #[trigger] needed[k],
            ) by {
                assert(remaining[i].1[k] == needed[k]);
            }
        }
    }
    let first = first_ready(style, remaining, ordered) as int;
    assert(ready(place) == is_ready(style, remaining[place].1, ordered));
    if first < remaining.len() {
        assert(ready(first));
    }
}

/// The files of a project are its named files with those that each needs, one for one.
pub proof fn law_projects_start_with_all_files(
    style: Style,
    files: Seq<Seq<char>>,
    sources: Seq<Seq<char>>,
    at: int,
)
    ensures
        project_graph(style, files, sources).len() == files.len(),
        0 <= at < files.len() ==> project_graph(style, files, sources)[at] == (
            files[at],
            needed_files(style, files, sources, at),
        ),
        check_order(style, files, sources) == put_in_order(
            style,
            project_graph(style, files, sources),
            Seq::empty(),
        ),
{
}

/// A directory is left out for its name alone.
pub proof fn law_build_directories_are_left_out(style: Style, path: Seq<char>, name: Seq<char>)
    ensures
        locations::file_name_of(style, path) == Some(name) ==> (is_skipped(style, path) <==> name
            == ".git"@ || name == "target"@ || name == "_build"@),
        locations::file_name_of(style, path) is None ==> !is_skipped(style, path),
{
}

/// A source is told by what its name ends with, in front of which something has to stand.
pub proof fn law_sources_are_told_by_their_extension(
    style: Style,
    path: Seq<char>,
    stem: Seq<char>,
    extension: Seq<char>,
)
    requires
        forall|i: int| 0 <= i < extension.len() ==> #[trigger] extension[i] != '.',
    ensures
        locations::file_name_of(style, path) is None ==> !is_source(style, path),
        locations::file_name_of(style, path) == Some(extension) ==> !is_source(style, path),
        locations::file_name_of(style, path) == Some(stem + seq!['.'] + extension) ==> (is_source(
            style,
            path,
        ) <==> stem.len() > 0 && (extension == "fst"@ || extension == "fsti"@)),
{
    lemma_last_dot(extension, -1);
    let name = stem + seq!['.'] + extension;
    assert forall|i: int| stem.len() < i < name.len() implies #[trigger] name[i] != '.' by {
        assert(name[i] == extension[i - stem.len() - 1]);
    }
    assert(name[stem.len() as int] == '.');
    lemma_last_dot(name, stem.len() as int);
    assert(name.skip(stem.len() + 1int) =~= extension);
}

/// The last dot is where no later one stands.
proof fn lemma_last_dot(name: Seq<char>, at: int)
    requires
        -1 <= at < name.len(),
        at >= 0 ==> name[at] == '.',
        forall|i: int| at < i < name.len() ==> #[trigger] name[i] != '.',
    ensures
        last_dot(name) == at,
    decreases name.len(),
{
    if name.len() > 0 && at < name.len() - 1 {
        assert(name[name.len() - 1] != '.');
        lemma_last_dot(name.drop_last(), at);
    }
}

/// A search goes on into a directory that is not left out, takes a source, and passes over all else.
pub proof fn law_entries_are_searched_or_taken(
    style: Style,
    walk: FileWalkView,
    path: Seq<char>,
)
    ensures
        is_skipped(style, path) ==> with_entry(style, walk, (path, true)) == walk,
        !is_skipped(style, path) ==> with_entry(style, walk, (path, true)) == (FileWalkView {
            directories: walk.directories.push(path),
            files: walk.files,
        }),
        is_source(style, path) ==> with_entry(style, walk, (path, false)) == (FileWalkView {
            directories: walk.directories,
            files: walk.files.push(path),
        }),
        !is_source(style, path) ==> with_entry(style, walk, (path, false)) == walk,
{
}

/// The files that a client names are seen from the root of its project, one for one.
pub proof fn law_named_files_are_seen_from_the_root(
    style: Style,
    files: Seq<Seq<char>>,
    root: Seq<char>,
    at: int,
)
    ensures
        project_files(style, files, root).len() == files.len(),
        0 <= at < files.len() ==> project_files(style, files, root)[at] == locations::joined(
            style,
            root,
            files[at],
        ),
{
}

/// A search reads the directory that was found last next, and its sources come out in the order of
/// their paths, each of them and no others.
pub proof fn law_sources_come_out_in_order(
    walk: &mut FileWalk,
    directory: Option<String>,
    done: FileWalk,
    style: Style,
    files: Vec<String>,
    i: int,
    j: int,
)
    requires
        call_ensures(FileWalk::next_directory, (walk,), directory),
        call_ensures(FileWalk::collect_fstar_files, (done, style), files),
        0 <= i < j < files@.len(),
    ensures
        directory is None <==> old(walk)@.directories.len() == 0,
        directory is Some ==> final(walk)@.directories.push(directory->Some_0@)
            == old(walk)@.directories,
        final(walk)@.files == old(walk)@.files,
        !order::path_less(style, files@[j]@, files@[i]@),
        text::texts(files@).to_multiset() == done@.files.to_multiset(),
{
    let texts = text::texts(files@);
    assert(texts[i] == files@[i]@ && texts[j] == files@[j]@);
    if directory is Some {
        let before = old(walk)@.directories;
        assert(before.drop_last().push(before.last()) =~= before);
    }
}

/// In a project without circles a file that opens a module of another file is checked behind it: it
/// stands behind it in the order that comes out.
pub proof fn law_opening_files_come_out_later(
    style: Style,
    files: &Vec<String>,
    sources: &Vec<String>,
    order: Vec<String>,
    rank: spec_fn(Seq<Seq<char>>) -> nat,
    from: int,
    to: int,
    at: int,
)
    requires
        call_ensures(dependency_order, (style, files, sources), order),
        files@.len() == sources@.len(),
        forall|i: int, j: int|
            0 <= i < j < files@.len() ==> !locations::is_same(
                style,
                (#[trigger] files@[i])@,
                (#[trigger] files@[j])@,
            ),
        forall|i: int, j: int|
            0 <= i < files@.len() && 0 <= j < files@.len() && #[trigger] opens_file(
                style,
                text::texts(files@),
                text::texts(sources@),
                i,
                j,
            ) ==> rank(locations::components(style, files@[j]@)) < rank(
                locations::components(style, files@[i]@),
            ),
        0 <= from < files@.len(),
        0 <= to < files@.len(),
        opens_file(style, text::texts(files@), text::texts(sources@), from, to),
        0 <= at < order@.len(),
        order@[at]@ == files@[from]@,
    ensures
        exists|before: int| 0 <= before < at && (#[trigger] order@[before])@ == files@[to]@,
{
    let names = text::texts(files@);
    let texts = text::texts(sources@);
    assert forall|i: int, j: int| 0 <= i < j < names.len() implies !locations::is_same(
        style,
        #[trigger] names[i],
        #[trigger] names[j],
    ) by {
        assert(names[i] == files@[i]@ && names[j] == files@[j]@);
    }
    let placed = text::texts(order@);
    assert(placed[at] == order@[at]@);
    law_opened_files_are_checked_first(style, names, texts, rank, from, to, at);
    let before = choose|before: int|
        0 <= before < at && #[trigger] check_order(style, names, texts)[before] == names[to];
    assert(placed[before] == order@[before]@);
}

} // verus!
