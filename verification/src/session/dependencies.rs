//! The files that a file depends on, and which of them have changed.
use crate::fstar::config::{self, FStarConfig, FStarConfigView};
use crate::locations::{self, Style};
use crate::order;
use crate::session::digest;
use crate::text;
use vstd::prelude::*;

verus! {

/// The rest of a line behind a keyword and a space, where the line starts with them.
pub open spec fn after_keyword(line: Seq<char>, keyword: Seq<char>) -> Option<Seq<char>> {
    if keyword.is_prefix_of(line) {
        Some(line.skip(keyword.len() as int))
    } else {
        None
    }
}

/// The name of a module at the start of `rest`, without the semicolons that may follow it.
pub open spec fn module_name(rest: Option<Seq<char>>) -> Option<Seq<char>> {
    match rest {
        Some(words) => match text::first_word_of(words) {
            Some(word) => Some(text::trimmed_end_of(word, ';')),
            None => None,
        },
        None => None,
    }
}

/// The module that a line opens or includes.
pub open spec fn opened_on(line: Seq<char>) -> Option<Seq<char>> {
    let start = text::trimmed_start(line);
    module_name(
        match after_keyword(start, "open "@) {
            Some(rest) => Some(rest),
            None => after_keyword(start, "include "@),
        },
    )
}

/// The modules that the lines open or include, in order.
pub open spec fn opened_on_lines(lines: Seq<Seq<char>>) -> Seq<Seq<char>>
    decreases lines.len(),
{
    if lines.len() == 0 {
        Seq::empty()
    } else {
        let before = opened_on_lines(lines.drop_last());
        match opened_on(lines.last()) {
            Some(module) => before.push(module),
            None => before,
        }
    }
}

/// The modules that a source text opens or includes, in order.
pub open spec fn opened_modules(code: Seq<char>) -> Seq<Seq<char>> {
    opened_on_lines(text::lines_of(code))
}

/// The name of a module behind a keyword.
pub fn read_module(start: &str, keyword: &str) -> (found: (bool, Option<String>))
    ensures
        found.0 == (after_keyword(start@, keyword@) is Some),
        text::opt_text(found.1) == module_name(after_keyword(start@, keyword@)),
{
    match text::strip_prefix(start, keyword) {
        Some(rest) => match text::first_word(rest.as_str()) {
            Some(word) => (true, Some(text::trim_end_of(word.as_str(), ';'))),
            None => (true, None),
        },
        None => (false, None),
    }
}

/// The module that a line opens or includes.
pub fn opened_module(line: &str) -> (module: Option<String>)
    ensures
        text::opt_text(module) == opened_on(line@),
{
    let start = text::trim_start(line);
    let (found, module) = read_module(start.as_str(), "open ");
    if found {
        module
    } else {
        read_module(start.as_str(), "include ").1
    }
}

/// The modules that a source text opens or includes, in order.
pub fn source_modules(code: &str) -> (modules: Vec<String>)
    ensures
        text::texts(modules@) == opened_modules(code@),
{
    let lines = text::split_lines(code);
    let ghost all = text::lines_of(code@);
    assert(text::texts(lines@).len() == lines@.len());
    let mut modules: Vec<String> = Vec::new();
    let mut index: usize = 0;
    assert(all.take(0) =~= Seq::empty());
    assert(text::texts(modules@) =~= Seq::empty());
    while index < lines.len()
        invariant
            index <= lines@.len(),
            all == text::texts(lines@),
            text::texts(modules@) == opened_on_lines(all.take(index as int)),
        decreases lines@.len() - index,
    {
        let ghost before = text::texts(modules@);
        assert(all.take(index + 1).drop_last() =~= all.take(index as int));
        assert(all.take(index + 1).last() == lines@[index as int]@);
        match opened_module(lines[index].as_str()) {
            Some(module) => {
                modules.push(module);
                assert(text::texts(modules@) =~= before.push(module@));
            },
            None => {},
        }
        index += 1;
    }
    assert(all.take(index as int) =~= all);
    modules
}

/// The directory that F* works in for a file.
pub open spec fn working_directory(
    style: Style,
    config: FStarConfigView,
    file_path: Seq<char>,
) -> Seq<char> {
    config::directory_or(config, locations::directory_of(style, file_path))
}

/// The directories in which modules are looked for: the working directory and the include
/// directories, which are relative to it.
pub open spec fn search_roots(
    style: Style,
    config: FStarConfigView,
    file_path: Seq<char>,
) -> Seq<Seq<char>> {
    let cwd = working_directory(style, config, file_path);
    seq![cwd] + Seq::new(
        config.include_dirs.len(),
        |i: int| locations::joined(style, cwd, config.include_dirs[i]),
    )
}

/// The directory that F* works in for a file.
pub fn work_directory(style: Style, config: &FStarConfig, file_path: &str) -> (directory: String)
    ensures
        directory@ == working_directory(style, config@, file_path@),
{
    let parent = locations::directory(style, file_path);
    config.cwd_or(parent.as_str())
}

/// The directories in which modules are looked for.
pub fn module_roots(style: Style, config: &FStarConfig, file_path: &str) -> (roots: Vec<String>)
    ensures
        text::texts(roots@) == search_roots(style, config@, file_path@),
{
    let cwd = work_directory(style, config, file_path);
    let ghost expected = search_roots(style, config@, file_path@);
    let mut roots: Vec<String> = Vec::new();
    roots.push(cwd.clone());
    let mut index: usize = 0;
    assert(text::texts(roots@) =~= expected.take(1));
    while index < config.include_dirs.len()
        invariant
            index <= config.include_dirs@.len(),
            cwd@ == working_directory(style, config@, file_path@),
            expected == search_roots(style, config@, file_path@),
            expected.len() == 1 + config.include_dirs@.len(),
            text::texts(roots@) == expected.take(index + 1),
        decreases config.include_dirs@.len() - index,
    {
        let ghost before = text::texts(roots@);
        let directory = locations::join(style, cwd.as_str(), config.include_dirs[index].as_str());
        assert(config@.include_dirs[index as int] == config.include_dirs@[index as int]@);
        roots.push(directory);
        assert(text::texts(roots@) =~= before.push(directory@));
        assert(expected[index + 1] == directory@);
        assert(text::texts(roots@) =~= expected.take(index + 2));
        index += 1;
    }
    assert(expected.take(index + 1) =~= expected);
    roots
}

/// The files in which a module may stand below a directory, the first one preferred.
pub open spec fn module_files(style: Style, root: Seq<char>, module: Seq<char>) -> Seq<Seq<char>> {
    let relative = text::replaced(module, '.', '/');
    seq![
        locations::joined(style, root, relative + ".fst"@),
        locations::joined(style, root, relative + ".fsti"@),
    ]
}

/// The files in which a module may stand below a directory, the first one preferred.
pub fn module_candidates(style: Style, root: &str, module: &str) -> (files: Vec<String>)
    ensures
        text::texts(files@) == module_files(style, root@, module@),
{
    let relative = text::replace_char(module, '.', '/');
    let mut files: Vec<String> = Vec::new();
    files.push(locations::join(style, root, relative.clone().concat(".fst").as_str()));
    files.push(locations::join(style, root, relative.concat(".fsti").as_str()));
    assert(text::texts(files@) =~= module_files(style, root@, module@));
    files
}

/// The groups of files in which the opened modules may stand. Of each group the first file that
/// exists is a dependency: one group for each module and directory.
pub open spec fn candidate_groups(
    style: Style,
    modules: Seq<Seq<char>>,
    roots: Seq<Seq<char>>,
) -> Seq<Seq<Seq<char>>>
    decreases modules.len(),
{
    if modules.len() == 0 {
        Seq::empty()
    } else {
        candidate_groups(style, modules.drop_last(), roots) + Seq::new(
            roots.len(),
            |i: int| module_files(style, roots[i], modules.last()),
        )
    }
}

/// The texts of groups of strings.
pub open spec fn groups_view(groups: Seq<Vec<String>>) -> Seq<Seq<Seq<char>>> {
    Seq::new(groups.len(), |i: int| text::texts(groups[i]@))
}

/// The groups of files in which the modules that a source opens may stand.
pub fn dependency_candidates(
    style: Style,
    config: &FStarConfig,
    file_path: &str,
    code: &str,
) -> (groups: Vec<Vec<String>>)
    ensures
        groups_view(groups@) == candidate_groups(
            style,
            opened_modules(code@),
            search_roots(style, config@, file_path@),
        ),
{
    let modules = source_modules(code);
    let roots = module_roots(style, config, file_path);
    let ghost names = text::texts(modules@);
    let ghost places = text::texts(roots@);
    let mut groups: Vec<Vec<String>> = Vec::new();
    let mut index: usize = 0;
    assert(names.take(0) =~= Seq::empty());
    assert(groups_view(groups@) =~= Seq::empty());
    while index < modules.len()
        invariant
            index <= modules@.len(),
            names == text::texts(modules@),
            places == text::texts(roots@),
            groups_view(groups@) == candidate_groups(style, names.take(index as int), places),
        decreases modules@.len() - index,
    {
        let ghost start = groups_view(groups@);
        let ghost added = Seq::new(
            places.len(),
            |i: int| module_files(style, places[i], names[index as int]),
        );
        let mut place: usize = 0;
        assert(start =~= start + added.take(0));
        while place < roots.len()
            invariant
                index < modules@.len(),
                place <= roots@.len(),
                names == text::texts(modules@),
                places == text::texts(roots@),
                added == Seq::new(
                    places.len(),
                    |i: int| module_files(style, places[i], names[index as int]),
                ),
                groups_view(groups@) == start + added.take(place as int),
            decreases roots@.len() - place,
        {
            let ghost before = groups_view(groups@);
            let files = module_candidates(style, roots[place].as_str(), modules[index].as_str());
            groups.push(files);
            assert(groups_view(groups@) =~= before.push(text::texts(files@)));
            assert(added[place as int] == text::texts(files@));
            assert(groups_view(groups@) =~= start + added.take(place + 1));
            place += 1;
        }
        assert(added.take(place as int) =~= added);
        assert(names.take(index + 1).drop_last() =~= names.take(index as int));
        assert(names.take(index + 1).last() == names[index as int]);
        index += 1;
    }
    assert(names.take(index as int) =~= names);
    groups
}

/// The first of the files that exists.
pub open spec fn first_existing(files: Seq<Seq<char>>, existing: Seq<Seq<char>>) -> Option<Seq<char>>
    decreases files.len(),
{
    if files.len() == 0 {
        None
    } else if existing.contains(files[0]) {
        Some(files[0])
    } else {
        first_existing(files.skip(1), existing)
    }
}

/// The first file of each group that exists, in the order of the groups.
pub open spec fn chosen_files(groups: Seq<Seq<Seq<char>>>, existing: Seq<Seq<char>>) -> Seq<Seq<char>>
    decreases groups.len(),
{
    if groups.len() == 0 {
        Seq::empty()
    } else {
        let before = chosen_files(groups.drop_last(), existing);
        match first_existing(groups.last(), existing) {
            Some(file) => before.push(file),
            None => before,
        }
    }
}

/// The first of the files that exists.
fn find_existing(files: &Vec<String>, existing: &Vec<String>) -> (found: Option<String>)
    ensures
        text::opt_text(found) == first_existing(text::texts(files@), text::texts(existing@)),
{
    let ghost all = text::texts(files@);
    let ghost known = text::texts(existing@);
    let mut index: usize = 0;
    assert(all.skip(0) =~= all);
    while index < files.len()
        invariant
            index <= files@.len(),
            all == text::texts(files@),
            known == text::texts(existing@),
            first_existing(all, known) == first_existing(all.skip(index as int), known),
        decreases files@.len() - index,
    {
        if text::list_contains(existing, files[index].as_str()) {
            return Some(files[index].clone());
        }
        assert(all.skip(index as int).skip(1) =~= all.skip(index + 1));
        index += 1;
    }
    None
}

/// The dependencies that a source opens: of each group of files in which a module may stand, the
/// first one that exists.
pub fn existing_dependencies(groups: &Vec<Vec<String>>, existing: &Vec<String>) -> (files: Vec<
    String,
>)
    ensures
        text::texts(files@) == chosen_files(groups_view(groups@), text::texts(existing@)),
{
    let ghost all = groups_view(groups@);
    let ghost known = text::texts(existing@);
    let mut files: Vec<String> = Vec::new();
    let mut index: usize = 0;
    assert(all.take(0) =~= Seq::empty());
    assert(text::texts(files@) =~= Seq::empty());
    while index < groups.len()
        invariant
            index <= groups@.len(),
            all == groups_view(groups@),
            known == text::texts(existing@),
            text::texts(files@) == chosen_files(all.take(index as int), known),
        decreases groups@.len() - index,
    {
        let ghost before = text::texts(files@);
        assert(all.take(index + 1).drop_last() =~= all.take(index as int));
        assert(all.take(index + 1).last() == text::texts(groups@[index as int]@));
        match find_existing(&groups[index], existing) {
            Some(file) => {
                files.push(file);
                assert(text::texts(files@) =~= before.push(file@));
            },
            None => {},
        }
        index += 1;
    }
    assert(all.take(index as int) =~= all);
    files
}

/// True for the characters that are cut off around a file name in the output of `--dep full`.
pub open spec fn is_frame(ch: char) -> bool {
    ch == ':' || ch == ';' || ch == ',' || ch == '(' || ch == ')' || ch == '[' || ch == ']' || ch
        == '\\'
}

/// `token` without framing characters in front.
pub open spec fn unframed_start(token: Seq<char>) -> Seq<char>
    decreases token.len(),
{
    if token.len() > 0 && is_frame(token[0]) {
        unframed_start(token.skip(1))
    } else {
        token
    }
}

/// `token` without framing characters at the end.
pub open spec fn unframed_end(token: Seq<char>) -> Seq<char>
    decreases token.len(),
{
    if token.len() > 0 && is_frame(token.last()) {
        unframed_end(token.drop_last())
    } else {
        token
    }
}

/// `token` without framing characters around it.
pub open spec fn unframed(token: Seq<char>) -> Seq<char> {
    unframed_end(unframed_start(token))
}

/// True for the names of F* sources.
pub open spec fn is_source_name(name: Seq<char>) -> bool {
    ".fst"@.is_suffix_of(name) || ".fsti"@.is_suffix_of(name)
}

/// The F* sources that the words name, in order, relative to `cwd`.
pub open spec fn named_sources(style: Style, words: Seq<Seq<char>>, cwd: Seq<char>) -> Seq<Seq<char>>
    decreases words.len(),
{
    if words.len() == 0 {
        Seq::empty()
    } else {
        let before = named_sources(style, words.drop_last(), cwd);
        let name = unframed(words.last());
        if is_source_name(name) {
            before.push(locations::joined(style, cwd, name))
        } else {
            before
        }
    }
}

/// Whether a character is cut off around a file name.
fn frames(ch: char) -> (frame: bool)
    ensures
        frame == is_frame(ch),
{
    ch == ':' || ch == ';' || ch == ',' || ch == '(' || ch == ')' || ch == '[' || ch == ']' || ch
        == '\\'
}

/// `token` without framing characters around it.
fn unframe(token: &str) -> (name: String)
    ensures
        name@ == unframed(token@),
{
    let chars = text::chars_of(token);
    let mut start: usize = 0;
    assert(chars@.skip(0) =~= chars@);
    while start < chars.len() && frames(chars[start])
        invariant
            start <= chars@.len(),
            unframed_start(chars@.skip(start as int)) == unframed_start(chars@),
        decreases chars@.len() - start,
    {
        assert(chars@.skip(start as int).skip(1) =~= chars@.skip(start + 1));
        start += 1;
    }
    let ghost rest = chars@.skip(start as int);
    let mut end: usize = chars.len();
    assert(chars@.subrange(start as int, end as int) =~= rest);
    while end > start && frames(chars[end - 1])
        invariant
            start <= end <= chars@.len(),
            unframed_end(chars@.subrange(start as int, end as int)) == unframed_end(rest),
        decreases end,
    {
        let ghost piece = chars@.subrange(start as int, end as int);
        assert(piece.last() == chars@[end - 1]);
        assert(piece.drop_last() =~= chars@.subrange(start as int, end - 1));
        end -= 1;
    }
    text::substring(&chars, start, end)
}

/// The F* sources that the output of `--dep full` names, in order, relative to the working
/// directory.
pub fn fstar_dependencies(style: Style, output: &str, cwd: &str) -> (files: Vec<String>)
    ensures
        text::texts(files@) == named_sources(style, text::words_of(output@), cwd@),
{
    let words = text::split_words(output);
    let ghost all = text::words_of(output@);
    assert(text::texts(words@).len() == words@.len());
    let mut files: Vec<String> = Vec::new();
    let mut index: usize = 0;
    assert(all.take(0) =~= Seq::empty());
    assert(text::texts(files@) =~= Seq::empty());
    while index < words.len()
        invariant
            index <= words@.len(),
            all == text::texts(words@),
            text::texts(files@) == named_sources(style, all.take(index as int), cwd@),
        decreases words@.len() - index,
    {
        let ghost before = text::texts(files@);
        assert(all.take(index + 1).drop_last() =~= all.take(index as int));
        assert(all.take(index + 1).last() == words@[index as int]@);
        let name = unframe(words[index].as_str());
        if text::ends_with(name.as_str(), ".fst") || text::ends_with(name.as_str(), ".fsti") {
            let path = locations::join(style, cwd, name.as_str());
            files.push(path);
            assert(text::texts(files@) =~= before.push(path@));
        }
        index += 1;
    }
    assert(all.take(index as int) =~= all);
    files
}

/// The paths of `files` that are not `current`, in order.
pub open spec fn others(style: Style, files: Seq<Seq<char>>, current: Seq<char>) -> Seq<Seq<char>>
    decreases files.len(),
{
    if files.len() == 0 {
        Seq::empty()
    } else {
        let before = others(style, files.drop_last(), current);
        if locations::is_same(style, files.last(), current) {
            before
        } else {
            before.push(files.last())
        }
    }
}

/// The files that are not the current one, in order.
pub fn other_files(style: Style, files: &Vec<String>, current: &str) -> (result: Vec<String>)
    ensures
        text::texts(result@) == others(style, text::texts(files@), current@),
{
    let ghost all = text::texts(files@);
    let mut result: Vec<String> = Vec::new();
    let mut index: usize = 0;
    assert(all.take(0) =~= Seq::empty());
    assert(text::texts(result@) =~= Seq::empty());
    while index < files.len()
        invariant
            index <= files@.len(),
            all == text::texts(files@),
            text::texts(result@) == others(style, all.take(index as int), current@),
        decreases files@.len() - index,
    {
        let ghost before = text::texts(result@);
        assert(all.take(index + 1).drop_last() =~= all.take(index as int));
        assert(all.take(index + 1).last() == files@[index as int]@);
        if !locations::same_path(style, files[index].as_str(), current) {
            let file = files[index].clone();
            result.push(file);
            assert(text::texts(result@) =~= before.push(file@));
        }
        index += 1;
    }
    assert(all.take(index as int) =~= all);
    result
}

/// The dependencies of a file: those known before, those that F* names, and those that the source
/// opens, each once and in the order of paths.
pub fn discover_dependencies(
    style: Style,
    known: &Vec<String>,
    from_fstar: &Vec<String>,
    from_source: &Vec<String>,
) -> (dependencies: Vec<String>)
    ensures
        order::is_distinct_order(
            style,
            text::texts(dependencies@),
            text::texts(known@) + text::texts(from_fstar@) + text::texts(from_source@),
        ),
{
    let mut all = text::copy_list(known);
    let mut second = text::copy_list(from_fstar);
    let mut third = text::copy_list(from_source);
    let ghost (first_texts, second_texts, third_texts) = (
        text::texts(all@),
        text::texts(second@),
        text::texts(third@),
    );
    all.append(&mut second);
    assert(text::texts(all@) =~= first_texts + second_texts);
    all.append(&mut third);
    assert(text::texts(all@) =~= first_texts + second_texts + third_texts);
    order::sort_distinct(style, all)
}

/// The models of files with their digests.
pub open spec fn hashes_view(hashes: Seq<(String, String)>) -> Seq<(Seq<char>, Seq<char>)> {
    Seq::new(hashes.len(), |i: int| (hashes[i].0@, hashes[i].1@))
}

/// The digest of a file in a list.
pub open spec fn hash_for(
    style: Style,
    hashes: Seq<(Seq<char>, Seq<char>)>,
    path: Seq<char>,
) -> Option<Seq<char>>
    decreases hashes.len(),
{
    if hashes.len() == 0 {
        None
    } else if locations::is_same(style, hashes[0].0, path) {
        Some(hashes[0].1)
    } else {
        hash_for(style, hashes.skip(1), path)
    }
}

/// The files of `list` that `other` does not hold or, unless `only_missing`, holds with another
/// digest, in order.
pub open spec fn differing(
    style: Style,
    list: Seq<(Seq<char>, Seq<char>)>,
    other: Seq<(Seq<char>, Seq<char>)>,
    only_missing: bool,
) -> Seq<Seq<char>>
    decreases list.len(),
{
    if list.len() == 0 {
        Seq::empty()
    } else {
        let before = differing(style, list.drop_last(), other, only_missing);
        let (path, hash) = list.last();
        if is_reported(style, other, path, hash, only_missing) {
            before.push(path)
        } else {
            before
        }
    }
}

/// True for a file that the other list does not hold or, unless `only_missing`, holds with another
/// digest.
pub open spec fn is_reported(
    style: Style,
    other: Seq<(Seq<char>, Seq<char>)>,
    path: Seq<char>,
    hash: Seq<char>,
    only_missing: bool,
) -> bool {
    match hash_for(style, other, path) {
        Some(found) => !only_missing && found != hash,
        None => true,
    }
}

/// The files that are new, have another digest, or are gone.
pub open spec fn changed_files(
    style: Style,
    previous: Seq<(Seq<char>, Seq<char>)>,
    current: Seq<(Seq<char>, Seq<char>)>,
) -> Seq<Seq<char>> {
    differing(style, current, previous, false) + differing(style, previous, current, true)
}

/// True when no file is in the list twice.
pub open spec fn distinct_files(style: Style, hashes: Seq<(Seq<char>, Seq<char>)>) -> bool {
    forall|i: int, j: int|
        0 <= i < j < hashes.len() ==> !locations::is_same(
            style,
            (#[trigger] hashes[i]).0,
            (#[trigger] hashes[j]).0,
        )
}

proof fn lemma_hash_for(style: Style, hashes: Seq<(Seq<char>, Seq<char>)>, path: Seq<char>)
    ensures
        hash_for(style, hashes, path) is Some ==> exists|i: int|
            0 <= i < hashes.len()
                && locations::is_same(style, (#[trigger] hashes[i]).0, path)
                && hash_for(style, hashes, path) == Some(hashes[i].1),
        hash_for(style, hashes, path) is None ==> forall|i: int|
            0 <= i < hashes.len() ==> !locations::is_same(style, (#[trigger] hashes[i]).0, path),
    decreases hashes.len(),
{
    if hashes.len() > 0 {
        if !locations::is_same(style, hashes[0].0, path) {
            let rest = hashes.skip(1);
            lemma_hash_for(style, rest, path);
            if hash_for(style, rest, path) is Some {
                let i = choose|i: int|
                    0 <= i < rest.len()
                        && locations::is_same(style, (#[trigger] rest[i]).0, path)
                        && hash_for(style, rest, path) == Some(rest[i].1);
                assert(hashes[i + 1] == rest[i]);
            } else {
                assert forall|i: int| 0 <= i < hashes.len() implies !locations::is_same(
                    style,
                    (#[trigger] hashes[i]).0,
                    path,
                ) by {
                    if i > 0 {
                        assert(rest[i - 1] == hashes[i]);
                    }
                }
            }
        }
    }
}

/// True for the path of a file of a list that is reported against another list.
spec fn comes_from(
    style: Style,
    list: Seq<(Seq<char>, Seq<char>)>,
    other: Seq<(Seq<char>, Seq<char>)>,
    only_missing: bool,
    path: Seq<char>,
) -> bool {
    exists|i: int|
        0 <= i < list.len() && (#[trigger] list[i]).0 == path && is_reported(
            style,
            other,
            list[i].0,
            list[i].1,
            only_missing,
        )
}

proof fn lemma_differing(
    style: Style,
    list: Seq<(Seq<char>, Seq<char>)>,
    other: Seq<(Seq<char>, Seq<char>)>,
    only_missing: bool,
)
    ensures
        forall|i: int|
            0 <= i < list.len() && is_reported(
                style,
                other,
                (#[trigger] list[i]).0,
                list[i].1,
                only_missing,
            ) ==> differing(style, list, other, only_missing).contains(list[i].0),
        forall|j: int|
            0 <= j < differing(style, list, other, only_missing).len() ==> comes_from(
                style,
                list,
                other,
                only_missing,
                #[trigger] differing(style, list, other, only_missing)[j],
            ),
    decreases list.len(),
{
    if list.len() > 0 {
        let rest = list.drop_last();
        lemma_differing(style, rest, other, only_missing);
        let before = differing(style, rest, other, only_missing);
        let after = differing(style, list, other, only_missing);
        assert forall|i: int|
            0 <= i < list.len() && is_reported(
                style,
                other,
                (#[trigger] list[i]).0,
                list[i].1,
                only_missing,
            ) implies after.contains(list[i].0) by {
            if i < rest.len() {
                assert(rest[i] == list[i]);
                let at = before.index_of(list[i].0);
                assert(after[at] == list[i].0);
            } else {
                assert(after.last() == list[i].0);
            }
        }
        assert forall|j: int| 0 <= j < after.len() implies comes_from(
            style,
            list,
            other,
            only_missing,
            #[trigger] after[j],
        ) by {
            if j < before.len() {
                assert(before[j] == after[j]);
                let i = choose|i: int|
                    0 <= i < rest.len() && (#[trigger] rest[i]).0 == before[j] && is_reported(
                        style,
                        other,
                        rest[i].0,
                        rest[i].1,
                        only_missing,
                    );
                assert(list[i] == rest[i]);
            } else {
                assert(list[list.len() - 1].0 == after[j]);
            }
        }
    }
}

/// A change is reported exactly when some file is new, gone or has another digest: where none is,
/// both lists give every path the same digest.
pub proof fn law_every_change_is_reported(
    style: Style,
    previous: Seq<(Seq<char>, Seq<char>)>,
    current: Seq<(Seq<char>, Seq<char>)>,
)
    requires
        distinct_files(style, previous),
        distinct_files(style, current),
    ensures
        changed_files(style, previous, current).len() == 0 <==> forall|path: Seq<char>| #[trigger]
            hash_for(style, previous, path) == hash_for(style, current, path),
{
    lemma_differing(style, current, previous, false);
    lemma_differing(style, previous, current, true);
    let found = differing(style, current, previous, false);
    let gone = differing(style, previous, current, true);
    if changed_files(style, previous, current).len() == 0 {
        assert forall|path: Seq<char>| #[trigger] hash_for(style, previous, path) == hash_for(
            style,
            current,
            path,
        ) by {
            lemma_hash_for(style, previous, path);
            lemma_hash_for(style, current, path);
            if hash_for(style, current, path) is Some {
                let i = choose|i: int|
                    0 <= i < current.len()
                        && locations::is_same(style, (#[trigger] current[i]).0, path)
                        && hash_for(style, current, path) == Some(
                        current[i].1,
                    );
                if is_reported(style, previous, current[i].0, current[i].1, false) {
                    assert(found.contains(current[i].0));
                }
                lemma_same_lookup(style, previous, current[i].0, path);
            } else if hash_for(style, previous, path) is Some {
                let i = choose|i: int|
                    0 <= i < previous.len()
                        && locations::is_same(style, (#[trigger] previous[i]).0, path)
                        && hash_for(style, previous, path) == Some(
                        previous[i].1,
                    );
                lemma_same_lookup(style, current, previous[i].0, path);
                assert(is_reported(style, current, previous[i].0, previous[i].1, true));
                assert(gone.contains(previous[i].0));
            }
        }
    } else if forall|path: Seq<char>| #[trigger]
        hash_for(style, previous, path) == hash_for(style, current, path) {
        if found.len() > 0 {
            assert(found[0] == found[0]);
            let i = choose|i: int|
                0 <= i < current.len() && (#[trigger] current[i]).0 == found[0] && is_reported(
                    style,
                    previous,
                    current[i].0,
                    current[i].1,
                    false,
                );
            lemma_own_lookup(style, current, i);
            assert(hash_for(style, previous, current[i].0) == hash_for(style, current, current[i].0));
        } else {
            assert(gone.len() > 0);
            assert(gone[0] == gone[0]);
            let i = choose|i: int|
                0 <= i < previous.len() && (#[trigger] previous[i]).0 == gone[0] && is_reported(
                    style,
                    current,
                    previous[i].0,
                    previous[i].1,
                    true,
                );
            lemma_own_lookup(style, previous, i);
            assert(hash_for(style, previous, previous[i].0) == hash_for(style, current, previous[i].0));
        }
    }
}

proof fn lemma_same_lookup(
    style: Style,
    hashes: Seq<(Seq<char>, Seq<char>)>,
    path: Seq<char>,
    same: Seq<char>,
)
    requires
        locations::is_same(style, path, same),
    ensures
        hash_for(style, hashes, path) == hash_for(style, hashes, same),
    decreases hashes.len(),
{
    if hashes.len() > 0 {
        lemma_same_lookup(style, hashes.skip(1), path, same);
    }
}

proof fn lemma_own_lookup(style: Style, hashes: Seq<(Seq<char>, Seq<char>)>, i: int)
    requires
        distinct_files(style, hashes),
        0 <= i < hashes.len(),
    ensures
        hash_for(style, hashes, hashes[i].0) == Some(hashes[i].1),
{
    lemma_hash_for(style, hashes, hashes[i].0);
    let j = choose|j: int|
        0 <= j < hashes.len()
            && locations::is_same(style, (#[trigger] hashes[j]).0, hashes[i].0)
            && hash_for(style, hashes, hashes[i].0) == Some(hashes[j].1);
    assert(i == j);
}

/// The digest of a file in a list.
fn find_hash<'a>(style: Style, hashes: &'a Vec<(String, String)>, path: &str) -> (hash: Option<&'a str>)
    ensures
        text::opt_str_text(hash) == hash_for(style, hashes_view(hashes@), path@),
{
    let ghost all = hashes_view(hashes@);
    let mut index: usize = 0;
    assert(all.skip(0) =~= all);
    while index < hashes.len()
        invariant
            index <= hashes@.len(),
            all == hashes_view(hashes@),
            hash_for(style, all, path@) == hash_for(style, all.skip(index as int), path@),
        decreases hashes@.len() - index,
    {
        assert(all.skip(index as int)[0] == (hashes@[index as int].0@, hashes@[index as int].1@));
        if locations::same_path(style, hashes[index].0.as_str(), path) {
            return Some(hashes[index].1.as_str());
        }
        assert(all.skip(index as int).skip(1) =~= all.skip(index + 1));
        index += 1;
    }
    None
}

/// The files of `list` that are missing in `other` or, unless `only_missing`, have another digest
/// there.
fn list_differing(
    style: Style,
    list: &Vec<(String, String)>,
    other: &Vec<(String, String)>,
    only_missing: bool,
) -> (files: Vec<String>)
    ensures
        text::texts(files@) == differing(
            style,
            hashes_view(list@),
            hashes_view(other@),
            only_missing,
        ),
{
    let ghost all = hashes_view(list@);
    let mut files: Vec<String> = Vec::new();
    let mut index: usize = 0;
    assert(all.take(0) =~= Seq::empty());
    assert(text::texts(files@) =~= Seq::empty());
    while index < list.len()
        invariant
            index <= list@.len(),
            all == hashes_view(list@),
            text::texts(files@) == differing(
                style,
                all.take(index as int),
                hashes_view(other@),
                only_missing,
            ),
        decreases list@.len() - index,
    {
        let ghost before = text::texts(files@);
        assert(all.take(index + 1).drop_last() =~= all.take(index as int));
        assert(all.take(index + 1).last() == (list@[index as int].0@, list@[index as int].1@));
        let report = match find_hash(style, other, list[index].0.as_str()) {
            Some(found) => !only_missing && !text::same(found, list[index].1.as_str()),
            None => true,
        };
        if report {
            let path = list[index].0.clone();
            files.push(path);
            assert(text::texts(files@) =~= before.push(path@));
        }
        index += 1;
    }
    assert(all.take(index as int) =~= all);
    files
}

/// The files that are new, have another digest, or are gone.
pub fn changed_dependencies(
    style: Style,
    previous: &Vec<(String, String)>,
    current: &Vec<(String, String)>,
) -> (files: Vec<String>)
    ensures
        text::texts(files@) == changed_files(style, hashes_view(previous@), hashes_view(current@)),
{
    let mut files = list_differing(style, current, previous, false);
    let mut gone = list_differing(style, previous, current, true);
    let ghost (first, second) = (text::texts(files@), text::texts(gone@));
    files.append(&mut gone);
    assert(text::texts(files@) =~= first + second);
    files
}

/// The files that could be read, each with the digest of its bytes, in order.
pub open spec fn hashed(files: Seq<Seq<char>>, contents: Seq<Option<Seq<u8>>>) -> Seq<
    (Seq<char>, Seq<char>),
>
    decreases files.len(),
{
    if files.len() == 0 || contents.len() != files.len() {
        Seq::empty()
    } else {
        let before = hashed(files.drop_last(), contents.drop_last());
        match contents.last() {
            Some(bytes) => before.push((files.last(), digest::sha256_text(bytes))),
            None => before,
        }
    }
}

/// The models of the bytes of files.
pub open spec fn contents_view(contents: Seq<Option<Vec<u8>>>) -> Seq<Option<Seq<u8>>> {
    Seq::new(
        contents.len(),
        |i: int|
            match contents[i] {
                Some(bytes) => Some(bytes@),
                None => None,
            },
    )
}

/// The files that could be read, each with the digest of its bytes, in order.
pub fn hash_files(files: &Vec<String>, contents: &Vec<Option<Vec<u8>>>) -> (hashes: Vec<
    (String, String),
>)
    requires
        files@.len() == contents@.len(),
    ensures
        hashes_view(hashes@) == hashed(text::texts(files@), contents_view(contents@)),
{
    let ghost names = text::texts(files@);
    let ghost bytes = contents_view(contents@);
    let mut hashes: Vec<(String, String)> = Vec::new();
    let mut index: usize = 0;
    assert(hashes_view(hashes@) =~= Seq::empty());
    assert(names.take(0) =~= Seq::empty());
    while index < files.len()
        invariant
            index <= files@.len() == contents@.len(),
            names == text::texts(files@),
            bytes == contents_view(contents@),
            hashes_view(hashes@) == hashed(names.take(index as int), bytes.take(index as int)),
        decreases files@.len() - index,
    {
        let ghost before = hashes_view(hashes@);
        assert(names.take(index + 1).drop_last() =~= names.take(index as int));
        assert(bytes.take(index + 1).drop_last() =~= bytes.take(index as int));
        assert(names.take(index + 1).last() == files@[index as int]@);
        assert(bytes.take(index + 1).last() == bytes[index as int]);
        match &contents[index] {
            Some(read) => {
                let file = files[index].clone();
                let hash = digest::hash_bytes(read);
                hashes.push((file, hash));
                assert(hashes_view(hashes@) =~= before.push((file@, hash@)));
            },
            None => {},
        }
        index += 1;
    }
    assert(names.take(index as int) =~= names);
    assert(bytes.take(index as int) =~= bytes);
    hashes
}

/// The digests of dependencies, each of which is there once, are those of different files.
pub proof fn law_dependencies_are_hashed_once(
    style: Style,
    files: Seq<Seq<char>>,
    contents: Seq<Option<Seq<u8>>>,
)
    requires
        order::paths_increasing(style, files),
        contents.len() == files.len(),
    ensures
        distinct_files(style, hashed(files, contents)),
        forall|k: int|
            0 <= k < hashed(files, contents).len() ==> files.contains(
                (#[trigger] hashed(files, contents)[k]).0,
            ),
    decreases files.len(),
{
    if files.len() > 0 {
        let rest = files.drop_last();
        assert forall|i: int, j: int| 0 <= i < j < rest.len() implies order::path_less(
            style,
            #[trigger] rest[i],
            #[trigger] rest[j],
        ) by {
            assert(order::path_less(style, files[i], files[j]));
        }
        law_dependencies_are_hashed_once(style, rest, contents.drop_last());
        let before = hashed(rest, contents.drop_last());
        let after = hashed(files, contents);
        assert forall|k: int| 0 <= k < after.len() implies files.contains(
            (#[trigger] after[k]).0,
        ) by {
            if k < before.len() {
                assert(before[k] == after[k]);
                let i = rest.index_of(before[k].0);
                assert(files[i] == before[k].0);
            } else {
                assert(files[files.len() - 1] == after[k].0);
            }
        }
        assert forall|i: int, j: int| 0 <= i < j < after.len() implies !locations::is_same(
            style,
            (#[trigger] after[i]).0,
            (#[trigger] after[j]).0,
        ) by {
            assert(before[i] == after[i]);
            if j < before.len() {
                assert(before[j] == after[j]);
            } else {
                let k = rest.index_of(before[i].0);
                assert(order::path_less(style, files[k], files[files.len() - 1]));
                order::lemma_path_order(style, files[k], files.last(), files.last());
            }
        }
    }
}

/// A keyword at the start of a line, whatever whitespace stands around it, is followed by a module,
/// whose name does not hold the semicolons behind it.
pub proof fn law_modules_stand_behind_keywords(
    space: Seq<char>,
    keyword: Seq<char>,
    gap: Seq<char>,
    module: Seq<char>,
    ends: Seq<char>,
    tail: Seq<char>,
)
    requires
        keyword.len() > 0 && !text::is_space(keyword[0]),
        forall|i: int| 0 <= i < space.len() ==> text::is_space(#[trigger] space[i]),
        forall|i: int| 0 <= i < gap.len() ==> text::is_space(#[trigger] gap[i]),
        forall|i: int| 0 <= i < module.len() ==> !text::is_space(#[trigger] module[i]),
        forall|i: int| 0 <= i < ends.len() ==> #[trigger] ends[i] == ';',
        module.len() + ends.len() > 0,
        module.len() > 0 ==> module.last() != ';',
        tail.len() > 0 ==> text::is_space(tail[0]),
    ensures
        module_name(
            after_keyword(
                text::trimmed_start(space + keyword + gap + module + ends + tail),
                keyword,
            ),
        ) == Some(module),
{
    let line = space + keyword + gap + module + ends + tail;
    assert(line[space.len() as int] == keyword[0]);
    assert forall|i: int| 0 <= i < space.len() implies text::is_space(#[trigger] line[i]) by {
        assert(line[i] == space[i]);
    }
    text::law_only_leading_space_is_trimmed(line, space.len() as int);
    let start = line.skip(space.len() as int);
    let rest = gap + (module + ends) + tail;
    assert(start =~= keyword + rest);
    assert(start.subrange(0, keyword.len() as int) =~= keyword);
    assert(start.skip(keyword.len() as int) =~= rest);
    let word = module + ends;
    assert forall|i: int| 0 <= i < word.len() implies !text::is_space(#[trigger] word[i]) by {
        if i < module.len() {
            assert(word[i] == module[i]);
        } else {
            assert(word[i] == ends[i - module.len()]);
        }
    }
    text::law_words_stand_between_spaces(gap, word, tail);
    assert forall|i: int| module.len() <= i < word.len() implies #[trigger] word[i] == ';' by {
        assert(word[i] == ends[i - module.len()]);
    }
    text::law_all_of_the_end_is_trimmed(word, ';', module.len() as int);
    assert(word.take(module.len() as int) =~= module);
}

/// A line opens a module where it starts with `open` or `include` and a space, whatever whitespace
/// stands around them; semicolons behind the name do not belong to it.
pub proof fn law_modules_are_opened_or_included(
    space: Seq<char>,
    gap: Seq<char>,
    module: Seq<char>,
    ends: Seq<char>,
    tail: Seq<char>,
)
    requires
        forall|i: int| 0 <= i < space.len() ==> text::is_space(#[trigger] space[i]),
        forall|i: int| 0 <= i < gap.len() ==> text::is_space(#[trigger] gap[i]),
        forall|i: int| 0 <= i < module.len() ==> !text::is_space(#[trigger] module[i]),
        forall|i: int| 0 <= i < ends.len() ==> #[trigger] ends[i] == ';',
        module.len() + ends.len() > 0,
        module.len() > 0 ==> module.last() != ';',
        tail.len() > 0 ==> text::is_space(tail[0]),
    ensures
        opened_on(space + "open "@ + gap + module + ends + tail) == Some(module),
        opened_on(space + "include "@ + gap + module + ends + tail) == Some(module),
{
    reveal_strlit("open ");
    reveal_strlit("include ");
    assert("open "@[0] == 'o' && "include "@[0] == 'i');
    assert("open "@.len() == 5 && "include "@.len() == 8);
    law_modules_stand_behind_keywords(space, "open "@, gap, module, ends, tail);
    law_modules_stand_behind_keywords(space, "include "@, gap, module, ends, tail);
    let line = space + "include "@ + gap + module + ends + tail;
    assert(line[space.len() as int] == 'i');
    assert forall|i: int| 0 <= i < space.len() implies text::is_space(#[trigger] line[i]) by {
        assert(line[i] == space[i]);
    }
    text::law_only_leading_space_is_trimmed(line, space.len() as int);
    let start = line.skip(space.len() as int);
    assert(start[0] == 'i');
    if "open "@.is_prefix_of(start) {
        assert(start.subrange(0, 5)[0] == start[0]);
    }
    let other = space + "open "@ + gap + module + ends + tail;
    if after_keyword(text::trimmed_start(other), "open "@) is None {
        assert(module_name(None::<Seq<char>>) is None);
    }
}

/// A line that starts with something else opens nothing.
pub proof fn law_other_lines_open_nothing(line: Seq<char>, count: int)
    requires
        0 <= count <= line.len(),
        forall|i: int| 0 <= i < count ==> text::is_space(#[trigger] line[i]),
        count < line.len() ==> !text::is_space(line[count]),
        !"open "@.is_prefix_of(line.skip(count)),
        !"include "@.is_prefix_of(line.skip(count)),
    ensures
        opened_on(line) is None,
{
    text::law_only_leading_space_is_trimmed(line, count);
}

/// A source opens what its lines open, one after the other.
pub proof fn law_each_line_counts(lines: Seq<Seq<char>>, line: Seq<char>)
    ensures
        opened_on_lines(Seq::empty()) == Seq::<Seq<char>>::empty(),
        match opened_on(line) {
            Some(module) => opened_on_lines(lines.push(line)) == opened_on_lines(lines).push(
                module,
            ),
            None => opened_on_lines(lines.push(line)) == opened_on_lines(lines),
        },
{
    assert(lines.push(line).drop_last() =~= lines);
}

/// A source opens exactly the modules that one of its lines opens.
pub proof fn law_all_lines_are_read(code: Seq<char>, module: Seq<char>)
    ensures
        opened_modules(code).contains(module) <==> exists|n: int|
            0 <= n < text::lines_of(code).len() && opened_on(#[trigger] text::lines_of(code)[n])
                == Some(module),
{
    lemma_opened_on_lines(text::lines_of(code), module);
}

/// The modules of lines are those that one of them opens.
proof fn lemma_opened_on_lines(lines: Seq<Seq<char>>, module: Seq<char>)
    ensures
        opened_on_lines(lines).contains(module) <==> exists|n: int|
            0 <= n < lines.len() && opened_on(#[trigger] lines[n]) == Some(module),
    decreases lines.len(),
{
    if lines.len() > 0 {
        let rest = lines.drop_last();
        lemma_opened_on_lines(rest, module);
        let before = opened_on_lines(rest);
        let after = opened_on_lines(lines);
        if after.contains(module) {
            let k = after.index_of(module);
            if k < before.len() {
                assert(before[k] == module);
                let n = choose|n: int|
                    0 <= n < rest.len() && opened_on(#[trigger] rest[n]) == Some(module);
                assert(lines[n] == rest[n]);
            } else {
                assert(opened_on(lines[lines.len() - 1]) == Some(module));
            }
        }
        if exists|n: int| 0 <= n < lines.len() && opened_on(#[trigger] lines[n]) == Some(module) {
            let n = choose|n: int|
                0 <= n < lines.len() && opened_on(#[trigger] lines[n]) == Some(module);
            if n < rest.len() {
                assert(rest[n] == lines[n]);
                let k = before.index_of(module);
                assert(after[k] == module);
            } else {
                assert(after[before.len() as int] == module);
            }
        }
    }
}

/// Modules are looked for in the working directory, which is that of the file where the
/// configuration names none, and then in the include directories as they are seen from there.
pub proof fn law_modules_are_looked_for_in_all_directories(
    style: Style,
    config: FStarConfigView,
    file_path: Seq<char>,
    cwd: Seq<char>,
    at: int,
)
    requires
        match config.cwd {
            Some(named) => cwd == named,
            None => cwd == locations::directory_of(style, file_path),
        },
    ensures
        working_directory(style, config, file_path) == cwd,
        search_roots(style, config, file_path).len() == 1 + config.include_dirs.len(),
        search_roots(style, config, file_path)[0] == cwd,
        0 <= at < config.include_dirs.len() ==> search_roots(style, config, file_path)[1 + at]
            == locations::joined(style, cwd, config.include_dirs[at]),
{
}

/// A module stands in a file that has a slash for each dot of its name, the implementation in front
/// of the interface.
pub proof fn law_modules_stand_in_files_of_their_name(
    style: Style,
    root: Seq<char>,
    module: Seq<char>,
    relative: Seq<char>,
)
    requires
        relative.len() == module.len(),
        forall|i: int|
            0 <= i < module.len() ==> #[trigger] relative[i] == (if module[i] == '.' {
                '/'
            } else {
                module[i]
            }),
    ensures
        module_files(style, root, module) == seq![
            locations::joined(style, root, relative + ".fst"@),
            locations::joined(style, root, relative + ".fsti"@),
        ],
{
    assert(text::replaced(module, '.', '/') =~= relative);
}

/// Each module has a group of files in each directory, one module after the other and one
/// directory after the other.
pub proof fn law_each_module_is_looked_for_in_each_directory(
    style: Style,
    modules: Seq<Seq<char>>,
    module: Seq<char>,
    roots: Seq<Seq<char>>,
    at: int,
)
    ensures
        candidate_groups(style, Seq::empty(), roots).len() == 0,
        ({
            let before = candidate_groups(style, modules, roots);
            let after = candidate_groups(style, modules.push(module), roots);
            &&& after.len() == before.len() + roots.len()
            &&& 0 <= at < before.len() ==> after[at] == before[at]
            &&& 0 <= at < roots.len() ==> after[before.len() + at] == module_files(
                style,
                roots[at],
                module,
            )
        }),
{
    assert(modules.push(module).drop_last() =~= modules);
}

/// Of each group the first file that exists is taken, and none where none exists.
pub proof fn law_the_first_existing_file_is_taken(
    groups: Seq<Seq<Seq<char>>>,
    group: Seq<Seq<char>>,
    existing: Seq<Seq<char>>,
    place: int,
)
    requires
        0 <= place <= group.len(),
        place < group.len() ==> existing.contains(group[place]),
        forall|i: int| 0 <= i < place ==> !existing.contains(#[trigger] group[i]),
    ensures
        chosen_files(Seq::empty(), existing) == Seq::<Seq<char>>::empty(),
        place < group.len() ==> chosen_files(groups.push(group), existing) == chosen_files(
            groups,
            existing,
        ).push(group[place]),
        place == group.len() ==> chosen_files(groups.push(group), existing) == chosen_files(
            groups,
            existing,
        ),
{
    assert(groups.push(group).drop_last() =~= groups);
    lemma_first_existing(group, existing, place);
}

/// The first file that exists is the first one of its kind.
proof fn lemma_first_existing(files: Seq<Seq<char>>, existing: Seq<Seq<char>>, place: int)
    requires
        0 <= place <= files.len(),
        place < files.len() ==> existing.contains(files[place]),
        forall|i: int| 0 <= i < place ==> !existing.contains(#[trigger] files[i]),
    ensures
        first_existing(files, existing) == (if place < files.len() {
            Some(files[place])
        } else {
            None
        }),
    decreases place,
{
    if place > 0 {
        let rest = files.skip(1);
        assert(!existing.contains(files[0]));
        assert forall|i: int| 0 <= i < place - 1 implies !existing.contains(#[trigger] rest[i]) by {
            assert(rest[i] == files[i + 1]);
        }
        lemma_first_existing(rest, existing, place - 1);
    }
}

/// The characters that frame a name.
pub proof fn law_names_are_framed_by_punctuation(ch: char)
    ensures
        is_frame(ch) <==> seq![':', ';', ',', '(', ')', '[', ']', '\\'].contains(ch),
{
    let frames = seq![':', ';', ',', '(', ')', '[', ']', '\\'];
    assert(frames[0] == ':' && frames[1] == ';' && frames[2] == ',' && frames[3] == '('
        && frames[4] == ')' && frames[5] == '[' && frames[6] == ']' && frames[7] == '\\');
    if is_frame(ch) {
        assert(frames.contains(ch));
    }
}

/// A name in the output of F* is what stands between the characters that frame it.
pub proof fn law_framed_names_are_read(front: Seq<char>, name: Seq<char>, back: Seq<char>)
    requires
        forall|i: int| 0 <= i < front.len() ==> is_frame(#[trigger] front[i]),
        forall|i: int| 0 <= i < back.len() ==> is_frame(#[trigger] back[i]),
        name.len() > 0 && !is_frame(name[0]) && !is_frame(name.last()),
    ensures
        unframed(front + name + back) == name,
{
    lemma_unframed_start(front, name + back);
    assert(front + (name + back) =~= front + name + back);
    lemma_unframed_end(name, back);
}

/// Framing characters in front are cut off.
proof fn lemma_unframed_start(front: Seq<char>, rest: Seq<char>)
    requires
        forall|i: int| 0 <= i < front.len() ==> is_frame(#[trigger] front[i]),
        rest.len() > 0 && !is_frame(rest[0]),
    ensures
        unframed_start(front + rest) == rest,
    decreases front.len(),
{
    let token = front + rest;
    if front.len() > 0 {
        assert(token[0] == front[0]);
        let more = front.skip(1);
        assert forall|i: int| 0 <= i < more.len() implies is_frame(#[trigger] more[i]) by {
            assert(more[i] == front[i + 1]);
        }
        lemma_unframed_start(more, rest);
        assert(token.skip(1) =~= more + rest);
    } else {
        assert(token =~= rest);
    }
}

/// Framing characters at the end are cut off.
proof fn lemma_unframed_end(name: Seq<char>, back: Seq<char>)
    requires
        forall|i: int| 0 <= i < back.len() ==> is_frame(#[trigger] back[i]),
        name.len() > 0 && !is_frame(name.last()),
    ensures
        unframed_end(name + back) == name,
    decreases back.len(),
{
    let token = name + back;
    if back.len() > 0 {
        assert(is_frame(back[back.len() - 1]));
        assert(token.last() == back[back.len() - 1]);
        lemma_unframed_end(name, back.drop_last());
        assert(token.drop_last() =~= name + back.drop_last());
    } else {
        assert(token =~= name);
    }
}

/// Of the words that F* writes those that name sources are dependencies, in their order, as they
/// are seen from the working directory.
pub proof fn law_named_sources_are_dependencies(
    style: Style,
    words: Seq<Seq<char>>,
    word: Seq<char>,
    cwd: Seq<char>,
)
    ensures
        named_sources(style, Seq::empty(), cwd) == Seq::<Seq<char>>::empty(),
        ".fst"@.is_suffix_of(unframed(word)) || ".fsti"@.is_suffix_of(unframed(word))
            ==> named_sources(style, words.push(word), cwd) == named_sources(
            style,
            words,
            cwd,
        ).push(locations::joined(style, cwd, unframed(word))),
        !".fst"@.is_suffix_of(unframed(word)) && !".fsti"@.is_suffix_of(unframed(word))
            ==> named_sources(style, words.push(word), cwd) == named_sources(style, words, cwd),
{
    assert(words.push(word).drop_last() =~= words);
}

/// All files but the current one are kept, in their order.
pub proof fn law_only_the_current_file_is_left_out(
    style: Style,
    files: Seq<Seq<char>>,
    file: Seq<char>,
    current: Seq<char>,
)
    ensures
        others(style, Seq::empty(), current) == Seq::<Seq<char>>::empty(),
        locations::is_same(style, file, current) ==> others(style, files.push(file), current)
            == others(style, files, current),
        !locations::is_same(style, file, current) ==> others(style, files.push(file), current)
            == others(style, files, current).push(file),
{
    assert(files.push(file).drop_last() =~= files);
}

/// A file is found under any way to write its path, with the digest that stands there.
pub proof fn law_digests_are_found_by_path(
    style: Style,
    hashes: Seq<(Seq<char>, Seq<char>)>,
    path: Seq<char>,
    place: int,
)
    requires
        0 <= place <= hashes.len(),
        place < hashes.len() ==> locations::is_same(style, hashes[place].0, path),
        forall|i: int|
            0 <= i < place ==> !locations::is_same(style, (#[trigger] hashes[i]).0, path),
    ensures
        place < hashes.len() ==> hash_for(style, hashes, path) == Some(hashes[place].1),
        place == hashes.len() ==> hash_for(style, hashes, path) is None,
    decreases place,
{
    if place > 0 {
        let rest = hashes.skip(1);
        assert(!locations::is_same(style, hashes[0].0, path));
        assert forall|i: int| 0 <= i < place - 1 implies !locations::is_same(
            style,
            (#[trigger] rest[i]).0,
            path,
        ) by {
            assert(rest[i] == hashes[i + 1]);
        }
        law_digests_are_found_by_path(style, rest, path, place - 1);
    }
}

/// A file is reported as changed exactly where it is new, has another digest than before, or is
/// gone.
pub proof fn law_exactly_the_changed_files_are_reported(
    style: Style,
    previous: Seq<(Seq<char>, Seq<char>)>,
    current: Seq<(Seq<char>, Seq<char>)>,
    path: Seq<char>,
)
    ensures
        changed_files(style, previous, current).contains(path) <==> (exists|i: int|
            0 <= i < current.len() && (#[trigger] current[i]).0 == path && hash_for(
                style,
                previous,
                path,
            ) != Some(current[i].1)) || (exists|i: int|
            0 <= i < previous.len() && (#[trigger] previous[i]).0 == path && hash_for(
                style,
                current,
                path,
            ) is None),
{
    lemma_reported(style, current, previous, false, path);
    lemma_reported(style, previous, current, true, path);
    let new = differing(style, current, previous, false);
    let gone = differing(style, previous, current, true);
    let all = changed_files(style, previous, current);
    if all.contains(path) {
        let k = all.index_of(path);
        if k < new.len() {
            assert(new[k] == path);
        } else {
            assert(gone[k - new.len()] == path);
        }
    }
    if new.contains(path) {
        let k = new.index_of(path);
        assert(all[k] == path);
    }
    if gone.contains(path) {
        let k = gone.index_of(path);
        assert(all[new.len() + k] == path);
    }
}

/// The files of a list that differ from another one.
proof fn lemma_reported(
    style: Style,
    list: Seq<(Seq<char>, Seq<char>)>,
    other: Seq<(Seq<char>, Seq<char>)>,
    only_missing: bool,
    path: Seq<char>,
)
    ensures
        differing(style, list, other, only_missing).contains(path) <==> exists|i: int|
            0 <= i < list.len() && (#[trigger] list[i]).0 == path && is_reported(
                style,
                other,
                path,
                list[i].1,
                only_missing,
            ),
    decreases list.len(),
{
    if list.len() > 0 {
        let rest = list.drop_last();
        lemma_reported(style, rest, other, only_missing, path);
        let before = differing(style, rest, other, only_missing);
        let after = differing(style, list, other, only_missing);
        if after.contains(path) {
            let k = after.index_of(path);
            if k < before.len() {
                assert(before[k] == path);
                let i = choose|i: int|
                    0 <= i < rest.len() && (#[trigger] rest[i]).0 == path && is_reported(
                        style,
                        other,
                        path,
                        rest[i].1,
                        only_missing,
                    );
                assert(list[i] == rest[i]);
            } else {
                assert(list[list.len() - 1].0 == path);
            }
        }
        if exists|i: int|
            0 <= i < list.len() && (#[trigger] list[i]).0 == path && is_reported(
                style,
                other,
                path,
                list[i].1,
                only_missing,
            ) {
            let i = choose|i: int|
                0 <= i < list.len() && (#[trigger] list[i]).0 == path && is_reported(
                    style,
                    other,
                    path,
                    list[i].1,
                    only_missing,
                );
            if i < rest.len() {
                assert(rest[i] == list[i]);
                let k = before.index_of(path);
                assert(after[k] == path);
            } else {
                assert(after[before.len() as int] == path);
            }
        }
    }
}

/// Each file that could be read is listed with the digest of its bytes, in the order of the files;
/// one that could not be read is left out.
pub proof fn law_readable_files_are_hashed(
    files: Seq<Seq<char>>,
    contents: Seq<Option<Seq<u8>>>,
    file: Seq<char>,
    bytes: Seq<u8>,
)
    requires
        files.len() == contents.len(),
    ensures
        hashed(Seq::empty(), Seq::empty()).len() == 0,
        hashed(files.push(file), contents.push(None)) == hashed(files, contents),
        hashed(files.push(file), contents.push(Some(bytes))) == hashed(files, contents).push(
            (file, digest::sha256_text(bytes)),
        ),
{
    assert(files.push(file).drop_last() =~= files);
    assert(contents.push(None).drop_last() =~= contents);
    assert(contents.push(Some(bytes)).drop_last() =~= contents);
}

} // verus!
