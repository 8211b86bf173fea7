//! Discovery of the configuration of a source file.
//!
//! The nearest `*.fst.config.json` up to the workspace root comes first, then the output of
//! `make <file>-in`, then the defaults. What has to be read from the system is handed in as
//! [`DiscoveryFacts`].
use crate::fstar::config::{self, FStarConfig, FStarConfigView};
use crate::fstar::environment::{self, Environment};
use crate::fstar::error::{ConfigError, ConfigErrorView};
use crate::fstar::shell;
use crate::json;
use crate::locations::{self, Style};
use crate::order;
use crate::text;
use vstd::prelude::*;

verus! {

/// The kind of system, which decides how paths are written and executables are named.
pub enum Platform {
    Unix,
    /// Executables may lack their extension, which is then one of a list such as `.COM;.EXE`.
    Windows { extensions: Option<String> },
}

/// How the system writes paths.
pub open spec fn style_of(platform: Platform) -> Style {
    match platform {
        Platform::Unix => Style::Unix,
        Platform::Windows { .. } => Style::Windows,
    }
}

impl Platform {
    /// How the system writes paths.
    pub fn style(&self) -> (style: Style)
        ensures
            style == style_of(*self),
    {
        match self {
            Platform::Unix => Style::Unix,
            Platform::Windows { .. } => Style::Windows,
        }
    }
}

/// A configuration file and what was read from it.
pub struct ConfigFile {
    pub path: String,
    /// The contents, or why they could not be read.
    pub contents: Result<String, String>,
}

/// What discovery has to know of the system.
pub struct DiscoveryFacts {
    pub platform: Platform,
    /// The working directory of this process, or why there is none.
    pub current_dir: Result<String, String>,
    pub environment: Environment,
    /// The nearest configuration file.
    pub config_file: Option<ConfigFile>,
    /// What `make` wrote, where it succeeded.
    pub make_output: Option<String>,
    /// The directories in which executables are looked up.
    pub search_path: Option<Vec<String>>,
    /// The paths that are executable files.
    pub executables: Vec<String>,
}

/// A text or a reason, as characters.
pub open spec fn text_or_reason(result: Result<String, String>) -> Result<Seq<char>, Seq<char>> {
    match result {
        Ok(string) => Ok(string@),
        Err(reason) => Err(reason@),
    }
}

/// `path` seen from the working directory.
pub open spec fn absolute_of(
    style: Style,
    path: Seq<char>,
    current_dir: Result<Seq<char>, Seq<char>>,
) -> Result<Seq<char>, ConfigErrorView> {
    if locations::is_fixed(style, path) {
        Ok(path)
    } else {
        match current_dir {
            Ok(directory) => Ok(locations::joined(style, directory, path)),
            Err(reason) => Err(ConfigErrorView::IoError(reason)),
        }
    }
}

/// `path` seen from the working directory.
pub fn absolute_path(style: Style, path: &str, current_dir: &Result<String, String>) -> (result:
    Result<String, ConfigError>)
    ensures
        match result {
            Ok(absolute) => absolute_of(style, path@, text_or_reason(*current_dir)) == Ok::<
                Seq<char>,
                ConfigErrorView,
            >(absolute@),
            Err(error) => absolute_of(style, path@, text_or_reason(*current_dir)) == Err::<
                Seq<char>,
                ConfigErrorView,
            >(error@),
        },
{
    if locations::is_absolute(style, path) {
        return Ok(path.to_owned());
    }
    match current_dir {
        Ok(directory) => Ok(locations::join(style, directory.as_str(), path)),
        Err(reason) => Err(ConfigError::IoError(reason.clone())),
    }
}

/// True when the search of a workspace goes on from `directory` to its parent.
pub open spec fn goes_up(style: Style, directory: Seq<char>, root: Option<Seq<char>>) -> bool {
    &&& locations::parent_of(style, directory) is Some
    &&& root matches Some(top) ==> !locations::is_same(style, top, directory)
        && locations::is_within(style, locations::parent_of(style, directory)->0, top)
}

/// `directory` and the directories above it, up to `root` or to the top.
pub open spec fn directories_up(
    style: Style,
    directory: Seq<char>,
    root: Option<Seq<char>>,
) -> Seq<Seq<char>>
    decreases directory.len(),
{
    if goes_up(style, directory, root) {
        proof {
            locations::law_parent_drops_last_component(style, directory);
        }
        seq![directory] + directories_up(
            style,
            locations::parent_of(style, directory)->0,
            root,
        )
    } else {
        seq![directory]
    }
}

/// The directories to look for a configuration file in, nearest first: none where the file is
/// not below the workspace root.
pub open spec fn config_directories_of(
    style: Style,
    file_path: Seq<char>,
    root: Option<Seq<char>>,
) -> Seq<Seq<char>> {
    let directory = locations::directory_of(style, file_path);
    if root is Some && !locations::is_within(style, directory, root->0) {
        Seq::empty()
    } else {
        directories_up(style, directory, root)
    }
}

/// The directories to look for a configuration file in, nearest first.
pub fn config_directories(
    style: Style,
    file_path: &str,
    workspace_root: Option<&str>,
    current_dir: &Result<String, String>,
) -> (result: Result<Vec<String>, ConfigError>)
    ensures
        ({
            let current = text_or_reason(*current_dir);
            match workspace_root {
                None => result matches Ok(list) && text::texts(list@) == config_directories_of(
                    style,
                    file_path@,
                    None,
                ),
                Some(root) => match absolute_of(style, root@, current) {
                    Ok(top) => result matches Ok(list) && text::texts(list@)
                        == config_directories_of(style, file_path@, Some(top)),
                    Err(expected) => result matches Err(error) && error@ == expected,
                },
            }
        }),
{
    let root: Option<String> = match workspace_root {
        None => None,
        Some(path) => match absolute_path(style, path, current_dir) {
            Ok(absolute) => Some(absolute),
            Err(error) => {
                return Err(error);
            },
        },
    };
    let ghost top = text::opt_text(root);
    let mut directory = locations::directory(style, file_path);
    let mut list: Vec<String> = Vec::new();
    match &root {
        Some(path) => {
            if !locations::is_inside(style, directory.as_str(), path.as_str()) {
                assert(text::texts(list@) =~= Seq::empty());
                return Ok(list);
            }
        },
        None => {},
    }
    let ghost all = directories_up(style, directory@, top);
    assert(text::texts(list@) + all =~= all);
    let mut searching = true;
    while searching
        invariant
            top == text::opt_text(root),
            searching ==> all == text::texts(list@) + directories_up(style, directory@, top),
            !searching ==> all == text::texts(list@),
        decreases (if searching { directory@.len() + 1 } else { 0 }),
    {
        let ghost before = text::texts(list@);
        list.push(directory.clone());
        assert(text::texts(list@) =~= before.push(directory@));
        let at_root = match &root {
            Some(path) => locations::same_path(style, path.as_str(), directory.as_str()),
            None => false,
        };
        let above = locations::parent(style, directory.as_str());
        match above {
            Some(parent) => {
                let leaves = match &root {
                    Some(path) => !locations::is_inside(style, parent.as_str(), path.as_str()),
                    None => false,
                };
                if at_root || leaves {
                    assert(before + seq![directory@] =~= text::texts(list@));
                    searching = false;
                } else {
                    proof {
                        locations::law_parent_drops_last_component(style, directory@);
                        assert(before + (seq![directory@] + directories_up(style, parent@, top))
                            =~= text::texts(list@) + directories_up(style, parent@, top));
                    }
                    directory = parent;
                }
            },
            None => {
                assert(before + seq![directory@] =~= text::texts(list@));
                searching = false;
            },
        }
    }
    Ok(list)
}

/// Every directory that is searched is inside the workspace, each is the parent of the one
/// before it, and the last one is the workspace root itself.
pub proof fn law_search_climbs_to_the_workspace_root(
    style: Style,
    directory: Seq<char>,
    root: Seq<char>,
)
    requires
        locations::is_fixed(style, root),
        locations::is_within(style, directory, root),
    ensures
        ({
            let searched = directories_up(style, directory, Some(root));
            &&& searched.len() > 0
            &&& searched[0] == directory
            &&& forall|i: int|
                0 <= i < searched.len() ==> locations::is_within(style, #[trigger] searched[i], root)
            &&& forall|i: int|
                0 < i < searched.len() ==> locations::parent_of(style, searched[i - 1]) == Some(
                    #[trigger] searched[i],
                )
            &&& locations::is_same(style, searched.last(), root)
        }),
    decreases directory.len(),
{
    let searched = directories_up(style, directory, Some(root));
    let (inner, outer) = (
        locations::components(style, directory),
        locations::components(style, root),
    );
    if goes_up(style, directory, Some(root)) {
        let parent = locations::parent_of(style, directory)->0;
        locations::law_parent_drops_last_component(style, directory);
        law_search_climbs_to_the_workspace_root(style, parent, root);
        let above = directories_up(style, parent, Some(root));
        assert forall|i: int| 0 <= i < searched.len() implies locations::is_within(
            style,
            #[trigger] searched[i],
            root,
        ) by {
            if i > 0 {
                assert(searched[i] == above[i - 1]);
            }
        }
        assert forall|i: int| 0 < i < searched.len() implies locations::parent_of(
            style,
            searched[i - 1],
        ) == Some(#[trigger] searched[i]) by {
            assert(searched[i] == above[i - 1]);
            if i > 1 {
                assert(searched[i - 1] == above[i - 2]);
            }
        }
        assert(searched.last() == above.last());
    } else {
        if inner != outer {
            assert(outer =~= inner.subrange(0, outer.len() as int));
            assert(outer.len() < inner.len()) by {
                if outer.len() == inner.len() {
                    assert(outer =~= inner);
                }
            }
            if locations::parent_of(style, directory) is Some {
                locations::law_parent_drops_last_component(style, directory);
                assert(outer =~= inner.drop_last().subrange(0, outer.len() as int));
            } else {
                locations::lemma_top_is_the_root(style, directory, root);
            }
        }
    }
}

/// True for the name of a configuration file.
pub open spec fn is_config_name(name: Seq<char>) -> bool {
    ".fst.config.json"@.is_suffix_of(name)
}

/// The first configuration file of a directory, by the order of paths, among its files.
pub open spec fn picked_in(style: Style, directory: Seq<char>, file_names: Seq<Seq<char>>) -> Option<
    Seq<char>,
>
    decreases file_names.len(),
{
    if file_names.len() == 0 {
        None
    } else {
        let before = picked_in(style, directory, file_names.drop_last());
        let candidate = locations::joined(style, directory, file_names.last());
        if !is_config_name(file_names.last()) {
            before
        } else {
            match before {
                Some(path) if !order::path_less(style, candidate, path) => before,
                _ => Some(candidate),
            }
        }
    }
}

/// The first configuration file of a directory, by the order of paths, among its files.
pub fn pick_config_file(style: Style, directory: &str, file_names: &Vec<String>) -> (picked: Option<
    String,
>)
    ensures
        text::opt_text(picked) == picked_in(style, directory@, text::texts(file_names@)),
        match picked {
            Some(path) => {
                &&& exists|i: int|
                    0 <= i < file_names@.len() && is_config_name((#[trigger] file_names@[i])@)
                        && path@ == locations::joined(style, directory@, file_names@[i]@)
                &&& forall|i: int|
                    0 <= i < file_names@.len() && is_config_name((#[trigger] file_names@[i])@)
                        ==> !order::path_less(
                        style, locations::joined(style, directory@, file_names@[i]@),
                        path@,
                    )
            },
            None => forall|i: int|
                0 <= i < file_names@.len() ==> !is_config_name((#[trigger] file_names@[i])@),
        },
{
    let mut picked: Option<String> = None;
    let mut index: usize = 0;
    let ghost all = text::texts(file_names@);
    assert(all.take(0) =~= Seq::empty());
    while index < file_names.len()
        invariant
            index <= file_names@.len(),
            all == text::texts(file_names@),
            text::opt_text(picked) == picked_in(style, directory@, all.take(index as int)),
            match picked {
                Some(path) => {
                    &&& exists|i: int|
                        0 <= i < index && is_config_name((#[trigger] file_names@[i])@) && path@
                            == locations::joined(style, directory@, file_names@[i]@)
                    &&& forall|i: int|
                        0 <= i < index && is_config_name((#[trigger] file_names@[i])@)
                            ==> !order::path_less(
                            style, locations::joined(style, directory@, file_names@[i]@),
                            path@,
                        )
                },
                None => forall|i: int|
                    0 <= i < index ==> !is_config_name((#[trigger] file_names@[i])@),
            },
        decreases file_names@.len() - index,
    {
        let name = &file_names[index];
        assert(all.take(index + 1).drop_last() =~= all.take(index as int));
        assert(all.take(index + 1).last() == name@);
        if text::ends_with(name.as_str(), ".fst.config.json") {
            let candidate = locations::join(style, directory, name.as_str());
            let first = match &picked {
                Some(path) => order::is_before(style, candidate.as_str(), path.as_str()),
                None => true,
            };
            proof {
                order::lemma_path_order(style, candidate@, candidate@, candidate@);
                if picked is Some {
                    let path = picked->0;
                    assert forall|i: int|
                        0 <= i < index && is_config_name((#[trigger] file_names@[i])@) && first
                        implies !order::path_less(
                        style, locations::joined(style, directory@, file_names@[i]@),
                        candidate@,
                    ) by {
                        order::lemma_path_order(
                            style, locations::joined(style, directory@, file_names@[i]@),
                            candidate@,
                            path@,
                        );
                    }
                }
            }
            if first {
                picked = Some(candidate);
            }
        }
        index += 1;
    }
    assert(all.take(index as int) =~= all);
    picked
}

/// A search for the nearest configuration file of a source file.
pub struct ConfigSearch {
    pub style: Style,
    /// The directories that are still to be looked at, nearest first.
    pub left: Vec<String>,
}

/// The model of a search.
pub struct ConfigSearchView {
    pub style: Style,
    pub left: Seq<Seq<char>>,
}

impl View for ConfigSearch {
    type V = ConfigSearchView;

    open spec fn view(&self) -> ConfigSearchView {
        ConfigSearchView { style: self.style, left: text::texts(self.left@) }
    }
}

impl ConfigSearch {
    /// A search that has not begun: upwards from the directory of the file, to the workspace root
    /// where there is one. Outside of the workspace there is nothing to look at.
    pub fn new(
        style: Style,
        file_path: &str,
        workspace_root: Option<&str>,
        current_dir: &Result<String, String>,
    ) -> (result: Result<ConfigSearch, ConfigError>)
        ensures
            ({
                let current = text_or_reason(*current_dir);
                match workspace_root {
                    None => result matches Ok(search) && search@ == (ConfigSearchView {
                        style,
                        left: config_directories_of(style, file_path@, None),
                    }),
                    Some(root) => match absolute_of(style, root@, current) {
                        Ok(top) => result matches Ok(search) && search@ == (ConfigSearchView {
                            style,
                            left: config_directories_of(style, file_path@, Some(top)),
                        }),
                        Err(expected) => result matches Err(error) && error@ == expected,
                    },
                }
            }),
    {
        match config_directories(style, file_path, workspace_root, current_dir) {
            Ok(left) => Ok(ConfigSearch { style, left }),
            Err(error) => Err(error),
        }
    }

    /// The directory to look at next, none when the search is over.
    pub fn next_directory(&self) -> (directory: Option<String>)
        ensures
            text::opt_text(directory) == (if self@.left.len() > 0 {
                Some(self@.left[0])
            } else {
                None
            }),
    {
        if self.left.len() == 0 {
            None
        } else {
            Some(self.left[0].clone())
        }
    }

    /// Takes the names of the files in that directory into account: the search ends with the
    /// configuration file among them, and goes on exactly where there is none.
    pub fn add_names(&mut self, names: &Vec<String>) -> (found: Option<String>)
        ensures
            final(self)@.style == old(self)@.style,
            if old(self)@.left.len() == 0 {
                found is None && final(self)@.left == old(self)@.left
            } else {
                &&& text::opt_text(found) == picked_in(
                    old(self)@.style,
                    old(self)@.left[0],
                    text::texts(names@),
                )
                &&& final(self)@.left == (if found is Some {
                    Seq::empty()
                } else {
                    old(self)@.left.skip(1)
                })
            },
    {
        if self.left.len() == 0 {
            return None;
        }
        let ghost before = self@.left;
        let picked = pick_config_file(self.style, self.left[0].as_str(), names);
        if picked.is_some() {
            self.left = Vec::new();
            assert(self@.left =~= Seq::empty());
        } else {
            let _ = self.left.remove(0);
            assert(self@.left =~= before.skip(1));
        }
        picked
    }
}

/// What a search finds in directories whose files are known.
pub open spec fn searched(
    search: ConfigSearchView,
    names: spec_fn(Seq<char>) -> Seq<Seq<char>>,
) -> Option<Seq<char>>
    decreases search.left.len(),
{
    if search.left.len() == 0 {
        None
    } else {
        match picked_in(search.style, search.left[0], names(search.left[0])) {
            Some(path) => Some(path),
            None => searched(
                ConfigSearchView { left: search.left.skip(1), ..search },
                names,
            ),
        }
    }
}

/// The nearest configuration file wins: a search finds the pick of the first directory that has
/// one, and nothing where none has.
pub proof fn law_nearest_configuration_wins(
    search: ConfigSearchView,
    names: spec_fn(Seq<char>) -> Seq<Seq<char>>,
)
    ensures
        match searched(search, names) {
            Some(path) => exists|i: int|
                0 <= i < search.left.len() && picked_in(
                    search.style,
                    #[trigger] search.left[i],
                    names(search.left[i]),
                ) == Some(path) && forall|j: int|
                    0 <= j < i ==> picked_in(
                        search.style,
                        #[trigger] search.left[j],
                        names(search.left[j]),
                    ) is None,
            None => forall|i: int|
                0 <= i < search.left.len() ==> picked_in(
                    search.style,
                    #[trigger] search.left[i],
                    names(search.left[i]),
                ) is None,
        },
    decreases search.left.len(),
{
    if search.left.len() > 0 {
        let first = search.left[0];
        if picked_in(search.style, first, names(first)) is None {
            let rest = ConfigSearchView { left: search.left.skip(1), ..search };
            law_nearest_configuration_wins(rest, names);
            match searched(rest, names) {
                Some(path) => {
                    let i = choose|i: int|
                        0 <= i < rest.left.len() && picked_in(
                            search.style,
                            #[trigger] rest.left[i],
                            names(rest.left[i]),
                        ) == Some(path) && forall|j: int|
                            0 <= j < i ==> picked_in(
                                search.style,
                                #[trigger] rest.left[j],
                                names(rest.left[j]),
                            ) is None;
                    assert(search.left[i + 1] == rest.left[i]);
                    assert forall|j: int| 0 <= j < i + 1 implies picked_in(
                        search.style,
                        #[trigger] search.left[j],
                        names(search.left[j]),
                    ) is None by {
                        if j > 0 {
                            assert(rest.left[j - 1] == search.left[j]);
                        }
                    }
                },
                None => {
                    assert forall|i: int| 0 <= i < search.left.len() implies picked_in(
                        search.style,
                        #[trigger] search.left[i],
                        names(search.left[i]),
                    ) is None by {
                        if i > 0 {
                            assert(rest.left[i - 1] == search.left[i]);
                        }
                    }
                },
            }
        }
    }
}

/// The pick of a directory is a configuration file in it before which none of its configuration
/// files stands, and there is one exactly where the directory holds a configuration file.
pub proof fn law_pick_is_the_smallest(
    style: Style,
    directory: Seq<char>,
    file_names: Seq<Seq<char>>,
)
    ensures
        match picked_in(style, directory, file_names) {
            Some(path) => {
                &&& exists|i: int|
                    0 <= i < file_names.len() && ".fst.config.json"@.is_suffix_of(
                        #[trigger] file_names[i],
                    ) && path
                        == locations::joined(style, directory, file_names[i])
                &&& forall|i: int|
                    0 <= i < file_names.len() && ".fst.config.json"@.is_suffix_of(
                        #[trigger] file_names[i],
                    )
                        ==> !order::path_less(
                        style,
                        locations::joined(style, directory, file_names[i]),
                        path,
                    )
            },
            None => forall|i: int|
                0 <= i < file_names.len() ==> !".fst.config.json"@.is_suffix_of(
                        #[trigger] file_names[i],
                    ),
        },
    decreases file_names.len(),
{
    if file_names.len() > 0 {
        let rest = file_names.drop_last();
        let last = file_names.last();
        let before = picked_in(style, directory, rest);
        let candidate = locations::joined(style, directory, last);
        law_pick_is_the_smallest(style, directory, rest);
        assert(file_names[file_names.len() - 1] == last);
        order::lemma_path_order(style, candidate, candidate, candidate);
        if let Some(path) = before {
            let k = choose|k: int|
                0 <= k < rest.len() && is_config_name(#[trigger] rest[k]) && path
                    == locations::joined(style, directory, rest[k]);
            assert(file_names[k] == rest[k]);
            order::lemma_path_order(style, candidate, path, candidate);
        }
        assert forall|i: int|
            0 <= i < file_names.len() && is_config_name(
                #[trigger] file_names[i],
            ) implies picked_in(style, directory, file_names) is Some && !order::path_less(
            style,
            locations::joined(style, directory, file_names[i]),
            picked_in(style, directory, file_names)->0,
        ) by {
            if i < rest.len() {
                assert(rest[i] == file_names[i]);
                let other = locations::joined(style, directory, rest[i]);
                if let Some(path) = before {
                    order::lemma_path_order(style, other, candidate, path);
                }
            }
        }
    }
}

/// The configuration that the text of a configuration file holds.
pub open spec fn file_config(
    contents: Seq<char>,
    config_file: Seq<char>,
    environment: Environment,
) -> Result<FStarConfigView, ConfigErrorView> {
    match json::document(contents) {
        Err(reason) => Err(ConfigErrorView::ParseError(reason)),
        Ok(value) => match environment::expanded_json(value, environment) {
            Err(fault) => Err(environment::fault_error(fault, config_file)),
            Ok(expanded) => match config::config_in(expanded) {
                None => Err(ConfigErrorView::ParseError(config::config_fault(expanded)->0)),
                Some(found) => Ok(found),
            },
        },
    }
}

/// The model of the outcome of a discovery.
pub open spec fn config_outcome(result: Result<FStarConfig, ConfigError>) -> Result<
    FStarConfigView,
    ConfigErrorView,
> {
    match result {
        Ok(found) => Ok(found@),
        Err(error) => Err(error@),
    }
}

/// Reads a configuration file: a JSON document, with the environment variables in all of its
/// strings replaced.
pub fn parse_config_file(
    contents: &str,
    config_file: &str,
    environment: &Environment,
) -> (result: Result<FStarConfig, ConfigError>)
    ensures
        config_outcome(result) == file_config(contents@, config_file@, *environment),
{
    let value = match json::parse(contents) {
        Ok(value) => value,
        Err(reason) => {
            return Err(ConfigError::ParseError(reason));
        },
    };
    match environment::substitute_env_vars_in_value(&value, config_file, environment) {
        Ok(expanded) => match config::decode_config(&expanded) {
            Ok(found) => Ok(found),
            Err(fault) => Err(ConfigError::ParseError(fault)),
        },
        Err(error) => Err(error),
    }
}

/// The target that `make` is asked for.
pub open spec fn make_target_of(style: Style, file_path: Seq<char>) -> Option<Seq<char>> {
    match locations::file_name_of(style, file_path) {
        Some(name) => Some(name + "-in"@),
        None => None,
    }
}

/// The target that `make` is asked for.
pub fn make_target(style: Style, file_path: &str) -> (target: Option<String>)
    ensures
        text::opt_text(target) == make_target_of(style, file_path@),
{
    match locations::file_name(style, file_path) {
        Some(name) => Some(name.concat("-in")),
        None => None,
    }
}

/// The configuration that the output of `make` describes: none without a target or an output.
pub open spec fn make_config(
    style: Style,
    file_path: Seq<char>,
    output: Option<Seq<char>>,
) -> Result<Option<FStarConfigView>, ConfigErrorView> {
    if make_target_of(style, file_path) is None || output is None {
        Ok(None)
    } else {
        match shell::shell_words(output->0) {
            Err(fault) => Err(ConfigErrorView::InvalidMakeOutput(shell::fault_text(fault))),
            Ok(words) => match shell::make_options(words) {
                None => Err(
                    ConfigErrorView::InvalidMakeOutput(
                        "'--include' must be followed by a directory"@,
                    ),
                ),
                Some((options, include_dirs)) => Ok(
                    Some(
                        FStarConfigView {
                            include_dirs,
                            options,
                            fstar_exe: None,
                            cwd: Some(locations::directory_of(style, file_path)),
                        },
                    ),
                ),
            },
        }
    }
}

/// Reads the configuration that `make` wrote.
pub fn config_from_makefile(style: Style, file_path: &str, output: &Option<String>) -> (result:
    Result<Option<FStarConfig>, ConfigError>)
    ensures
        match result {
            Ok(Some(found)) => make_config(style, file_path@, text::opt_text(*output)) == Ok::<
                Option<FStarConfigView>,
                ConfigErrorView,
            >(Some(found@)),
            Ok(None) => make_config(style, file_path@, text::opt_text(*output)) == Ok::<
                Option<FStarConfigView>,
                ConfigErrorView,
            >(None),
            Err(error) => make_config(style, file_path@, text::opt_text(*output)) == Err::<
                Option<FStarConfigView>,
                ConfigErrorView,
            >(error@),
        },
{
    if make_target(style, file_path).is_none() {
        return Ok(None);
    }
    match output {
        None => Ok(None),
        Some(written) => {
            let words = match shell::shell_split(written.as_str()) {
                Ok(words) => words,
                Err(error) => {
                    return Err(error);
                },
            };
            match shell::split_make_options(words) {
                Ok((options, include_dirs)) => Ok(
                    Some(
                        FStarConfig {
                            include_dirs,
                            options,
                            fstar_exe: None,
                            cwd: Some(locations::directory(style, file_path)),
                        },
                    ),
                ),
                Err(error) => Err(error),
            }
        },
    }
}

/// True when a name is a path, which is not looked up in the search path.
pub open spec fn names_path(platform: Platform, executable: Seq<char>) -> bool {
    match platform {
        Platform::Unix => executable.contains('/'),
        Platform::Windows { .. } => executable.contains('/') || executable.contains('\\'),
    }
}

/// True when a name is a path, which is not looked up in the search path.
pub fn has_path_separator(platform: &Platform, executable: &str) -> (result: bool)
    ensures
        result == names_path(*platform, executable@),
{
    match platform {
        Platform::Unix => text::contains_char(executable, '/'),
        Platform::Windows { .. } => {
            text::contains_char(executable, '/') || text::contains_char(executable, '\\')
        },
    }
}

/// True for a name with an extension: a dot that is not the first character.
pub open spec fn has_extension(path: Seq<char>) -> bool {
    match locations::file_name_of(Style::Windows, path) {
        Some(name) => exists|i: int| 0 < i < name.len() && (#[trigger] name[i]) == '.',
        None => false,
    }
}

fn names_extension(path: &str) -> (result: bool)
    ensures
        result == has_extension(path@),
{
    match locations::file_name(Style::Windows, path) {
        Some(name) => {
            let chars = text::chars_of(name.as_str());
            if chars.len() == 0 {
                return false;
            }
            let at = text::find_char(&chars, 1, '.');
            proof {
                assert(locations::file_name_of(Style::Windows, path@) == Some(name@));
                if at < chars@.len() {
                    let found = locations::file_name_of(Style::Windows, path@)->0;
                    assert(0 < at < found.len() && found[at as int] == '.');
                    assert(has_extension(path@));
                } else {
                    assert forall|i: int| 0 < i < name@.len() implies name@[i] != '.' by {
                        assert(chars@[i] != '.');
                    }
                }
            }
            at < chars.len()
        },
        None => false,
    }
}

/// The extensions of a list such as `.COM;.EXE`, without the empty ones.
pub open spec fn extensions_in(pieces: Seq<Seq<char>>) -> Seq<Seq<char>>
    decreases pieces.len(),
{
    if pieces.len() == 0 {
        Seq::empty()
    } else if pieces.last().len() == 0 {
        extensions_in(pieces.drop_last())
    } else {
        extensions_in(pieces.drop_last()).push(pieces.last())
    }
}

/// The files that an executable's name can stand for in a directory, in the order in which they
/// are tried.
pub open spec fn candidates_in(
    platform: Platform,
    directory: Seq<char>,
    executable: Seq<char>,
) -> Seq<Seq<char>> {
    let style = style_of(platform);
    let named = locations::joined(style, directory, executable);
    match platform {
        Platform::Unix => seq![named],
        Platform::Windows { extensions } => if has_extension(executable) {
            seq![named]
        } else {
            let list = extensions_in(
                text::pieces_of(
                    match extensions {
                        Some(given) => given@,
                        None => ".COM;.EXE;.BAT;.CMD"@,
                    },
                    ';',
                ),
            );
            seq![named] + Seq::new(
                list.len(),
                |i: int| locations::joined(style, directory, executable + list[i]),
            )
        },
    }
}

/// The files that an executable's name can stand for in a directory.
pub fn executable_candidates(
    platform: &Platform,
    directory: &str,
    executable: &str,
) -> (candidates: Vec<String>)
    ensures
        text::texts(candidates@) == candidates_in(*platform, directory@, executable@),
{
    let style = platform.style();
    let mut candidates: Vec<String> = Vec::new();
    candidates.push(locations::join(style, directory, executable));
    let ghost named = locations::joined(style, directory@, executable@);
    assert(text::texts(candidates@) =~= seq![named]);
    match platform {
        Platform::Unix => {},
        Platform::Windows { extensions } => {
            if !names_extension(executable) {
                let pieces = match extensions {
                    Some(given) => text::split_char(given.as_str(), ';'),
                    None => text::split_char(".COM;.EXE;.BAT;.CMD", ';'),
                };
                let ghost all = text::texts(pieces@);
                let ghost join_all = |list: Seq<Seq<char>>|
                    Seq::new(
                        list.len(),
                        |i: int| locations::joined(style, directory@, executable@ + list[i]),
                    );
                let mut index: usize = 0;
                assert(all.take(0) =~= Seq::empty());
                assert(text::texts(candidates@) =~= seq![named] + join_all(
                    extensions_in(all.take(0)),
                ));
                while index < pieces.len()
                    invariant
                        index <= pieces@.len(),
                        all == text::texts(pieces@),
                        join_all == (|list: Seq<Seq<char>>|
                            Seq::new(
                                list.len(),
                                |i: int| locations::joined(style, directory@, executable@ + list[i]),
                            )),
                        text::texts(candidates@) == seq![named] + join_all(
                            extensions_in(all.take(index as int)),
                        ),
                    decreases pieces@.len() - index,
                {
                    let ghost before = text::texts(candidates@);
                    let ghost list = extensions_in(all.take(index as int));
                    assert(all.take(index + 1).drop_last() =~= all.take(index as int));
                    let extension = pieces[index].as_str();
                    if !extension.is_empty() {
                        let name = executable.to_owned().concat(extension);
                        candidates.push(locations::join(style, directory, name.as_str()));
                        let ghost file = locations::joined(style, directory@, name@);
                        assert(text::texts(candidates@) =~= before.push(file));
                        assert(join_all(list.push(extension@)) =~= join_all(list).push(file));
                    }
                    index += 1;
                }
                assert(all.take(index as int) =~= all);
                assert(text::texts(candidates@) =~= candidates_in(
                    *platform,
                    directory@,
                    executable@,
                ));
            }
        },
    }
    candidates
}

/// The paths at which an executable can be, in the order in which they are tried.
pub open spec fn candidates_of(
    executable: Seq<char>,
    cwd: Seq<char>,
    facts: DiscoveryFacts,
) -> Seq<Seq<char>> {
    let style = style_of(facts.platform);
    if names_path(facts.platform, executable) {
        if locations::is_fixed(style, executable) {
            seq![executable]
        } else {
            let base = match absolute_of(style, cwd, text_or_reason(facts.current_dir)) {
                Ok(directory) => directory,
                Err(_) => cwd,
            };
            seq![locations::joined(style, base, executable)]
        }
    } else {
        match facts.search_path {
            Some(directories) => candidates_along(
                facts.platform,
                text::texts(directories@),
                executable,
            ),
            None => Seq::empty(),
        }
    }
}

/// The candidates in each directory, one directory after the other.
pub open spec fn candidates_along(
    platform: Platform,
    directories: Seq<Seq<char>>,
    executable: Seq<char>,
) -> Seq<Seq<char>>
    decreases directories.len(),
{
    if directories.len() == 0 {
        Seq::empty()
    } else {
        candidates_along(platform, directories.drop_last(), executable) + candidates_in(
            platform,
            directories.last(),
            executable,
        )
    }
}

/// The first of `candidates` that is one of `executables`.
pub open spec fn first_of(candidates: Seq<Seq<char>>, executables: Seq<Seq<char>>) -> Option<
    Seq<char>,
>
    decreases candidates.len(),
{
    if candidates.len() == 0 {
        None
    } else if executables.contains(candidates[0]) {
        Some(candidates[0])
    } else {
        first_of(candidates.skip(1), executables)
    }
}

/// The path of an executable: the first candidate that is an executable file.
pub open spec fn resolved(executable: Seq<char>, cwd: Seq<char>, facts: DiscoveryFacts) -> Result<
    Seq<char>,
    ConfigErrorView,
> {
    match first_of(
        candidates_of(executable, cwd, facts),
        text::texts(facts.executables@),
    ) {
        Some(path) => if names_path(facts.platform, executable) {
            Ok(path)
        } else {
            absolute_of(style_of(facts.platform), path, text_or_reason(facts.current_dir))
        },
        None => Err(ConfigErrorView::ExecutableNotFound { executable, cwd }),
    }
}

/// The paths at which an executable can be, in the order in which they are tried.
pub fn executable_paths(executable: &str, cwd: &str, facts: &DiscoveryFacts) -> (candidates: Vec<
    String,
>)
    ensures
        text::texts(candidates@) == candidates_of(executable@, cwd@, *facts),
{
    let style = facts.platform.style();
    let mut candidates: Vec<String> = Vec::new();
    if has_path_separator(&facts.platform, executable) {
        if locations::is_absolute(style, executable) {
            candidates.push(executable.to_owned());
        } else {
            let base = match absolute_path(style, cwd, &facts.current_dir) {
                Ok(directory) => directory,
                Err(_) => cwd.to_owned(),
            };
            candidates.push(locations::join(style, base.as_str(), executable));
        }
        assert(text::texts(candidates@) =~= candidates_of(executable@, cwd@, *facts));
        return candidates;
    }
    match &facts.search_path {
        None => {
            assert(text::texts(candidates@) =~= Seq::empty());
        },
        Some(directories) => {
            let ghost all = text::texts(directories@);
            let mut index: usize = 0;
            assert(all.take(0) =~= Seq::empty());
            assert(text::texts(candidates@) =~= Seq::empty());
            while index < directories.len()
                invariant
                    index <= directories@.len(),
                    all == text::texts(directories@),
                    text::texts(candidates@) == candidates_along(
                        facts.platform,
                        all.take(index as int),
                        executable@,
                    ),
                decreases directories@.len() - index,
            {
                let ghost before = candidates@;
                let mut more = executable_candidates(
                    &facts.platform,
                    directories[index].as_str(),
                    executable,
                );
                let ghost found = more@;
                candidates.append(&mut more);
                assert(text::texts(candidates@) =~= text::texts(before) + text::texts(found));
                assert(all.take(index + 1).drop_last() =~= all.take(index as int));
                index += 1;
            }
            assert(all.take(index as int) =~= all);
        },
    }
    candidates
}

/// Finds an executable.
pub fn resolve_executable(executable: &str, cwd: &str, facts: &DiscoveryFacts) -> (result: Result<
    String,
    ConfigError,
>)
    ensures
        match result {
            Ok(path) => resolved(executable@, cwd@, *facts) == Ok::<Seq<char>, ConfigErrorView>(
                path@,
            ),
            Err(error) => resolved(executable@, cwd@, *facts) == Err::<
                Seq<char>,
                ConfigErrorView,
            >(error@),
        },
{
    let candidates = executable_paths(executable, cwd, facts);
    let ghost all = text::texts(candidates@);
    let ghost files = text::texts(facts.executables@);
    let mut index: usize = 0;
    assert(all.skip(0) =~= all);
    while index < candidates.len()
        invariant
            index <= candidates@.len(),
            all == text::texts(candidates@),
            all == candidates_of(executable@, cwd@, *facts),
            files == text::texts(facts.executables@),
            first_of(all, files) == first_of(all.skip(index as int), files),
        decreases candidates@.len() - index,
    {
        if text::list_contains(&facts.executables, candidates[index].as_str()) {
            if has_path_separator(&facts.platform, executable) {
                return Ok(candidates[index].clone());
            }
            return absolute_path(
                facts.platform.style(),
                candidates[index].as_str(),
                &facts.current_dir,
            );
        }
        assert(all.skip(index as int).skip(1) =~= all.skip(index + 1));
        index += 1;
    }
    Err(ConfigError::ExecutableNotFound { executable: executable.to_owned(), cwd: cwd.to_owned() })
}

/// The configuration that discovery finds for a file, before overrides.
pub open spec fn found_config(file_path: Seq<char>, facts: DiscoveryFacts) -> Result<
    FStarConfigView,
    ConfigErrorView,
> {
    let style = style_of(facts.platform);
    match facts.config_file {
        Some(file) => match file.contents {
            Err(reason) => Err(ConfigErrorView::IoError(reason@)),
            Ok(contents) => match file_config(
                contents@,
                file.path@,
                facts.environment,
            ) {
                Err(error) => Err(error),
                Ok(found) => Ok(
                    FStarConfigView {
                        cwd: Some(
                            config::directory_or(
                                found,
                                locations::directory_of(style, file.path@),
                            ),
                        ),
                        ..found
                    },
                ),
            },
        },
        None => match make_config(style, file_path, text::opt_text(facts.make_output)) {
            Err(error) => Err(error),
            Ok(Some(found)) => Ok(found),
            Ok(None) => Ok(
                FStarConfigView {
                    cwd: Some(locations::directory_of(style, file_path)),
                    ..config::default_config()
                },
            ),
        },
    }
}

/// The directory that a file is in on the system.
pub open spec fn home_of(facts: DiscoveryFacts, path: Seq<char>) -> Seq<char> {
    locations::directory_of(style_of(facts.platform), path)
}

/// The executable for a configuration that was found and then overridden. One that the found
/// configuration names and that does not exist gives way to `fstar.exe`, where that exists; one
/// that the overrides name never does.
pub open spec fn chosen_executable(
    found: FStarConfigView,
    overrides: FStarConfigView,
    cwd: Seq<char>,
    facts: DiscoveryFacts,
) -> Result<Seq<char>, ConfigErrorView> {
    let wanted = resolved(
        config::executable_of(config::overridden(found, overrides)),
        cwd,
        facts,
    );
    let fallback = resolved("fstar.exe"@, cwd, facts);
    let missing = wanted is Err && wanted->Err_0 is ExecutableNotFound;
    if missing && overrides.fstar_exe is None && found.fstar_exe is Some && fallback is Ok {
        fallback
    } else {
        wanted
    }
}

/// The configuration for a file: found, overridden, and with its executable resolved.
pub open spec fn discovered(
    file_path: Seq<char>,
    facts: DiscoveryFacts,
    overrides: FStarConfigView,
) -> Result<FStarConfigView, ConfigErrorView> {
    match absolute_of(style_of(facts.platform), file_path, text_or_reason(facts.current_dir)) {
        Err(error) => Err(error),
        Ok(absolute) => match found_config(absolute, facts) {
            Err(error) => Err(error),
            Ok(found) => {
                let merged = config::overridden(found, overrides);
                let cwd = config::directory_or(merged, home_of(facts, absolute));
                match chosen_executable(found, overrides, cwd, facts) {
                    Err(error) => Err(error),
                    Ok(executable) => Ok(
                        FStarConfigView {
                            fstar_exe: Some(executable),
                            cwd: Some(cwd),
                            ..merged
                        },
                    ),
                }
            },
        },
    }
}

/// An executable that the overrides name is used or reported as missing, never replaced.
pub proof fn law_explicit_executable_is_never_replaced(
    file_path: Seq<char>,
    facts: DiscoveryFacts,
    overrides: FStarConfigView,
)
    requires
        overrides.fstar_exe is Some,
    ensures
        match discovered(file_path, facts, overrides) {
            Ok(result) => resolved(overrides.fstar_exe->0, result.cwd->0, facts) == Ok::<
                Seq<char>,
                ConfigErrorView,
            >(result.fstar_exe->0),
            Err(ConfigErrorView::ExecutableNotFound { executable, .. }) => executable
                == overrides.fstar_exe->0,
            Err(_) => true,
        },
{
    let current = text_or_reason(facts.current_dir);
    if let Ok(absolute) = absolute_of(style_of(facts.platform), file_path, current) {
        if let Ok(found) = found_config(absolute, facts) {
            let merged = config::overridden(found, overrides);
            let cwd = config::directory_or(merged, home_of(facts, absolute));
            assert(config::executable_of(merged) == overrides.fstar_exe->0);
            let wanted = resolved(overrides.fstar_exe->0, cwd, facts);
            assert(chosen_executable(found, overrides, cwd, facts) == wanted);
        }
    }
}

/// What the overrides name is in the result, and every result names an executable and a working
/// directory.
pub proof fn law_overrides_win(
    file_path: Seq<char>,
    facts: DiscoveryFacts,
    overrides: FStarConfigView,
)
    requires
        discovered(file_path, facts, overrides) is Ok,
    ensures
        ({
            let result = discovered(file_path, facts, overrides)->Ok_0;
            &&& result.fstar_exe is Some
            &&& result.cwd is Some
            &&& overrides.options.len() > 0 ==> result.options == overrides.options
            &&& overrides.include_dirs.len() > 0 ==> result.include_dirs == overrides.include_dirs
            &&& overrides.cwd is Some ==> result.cwd == overrides.cwd
        }),
{
}

impl FStarConfig {
    /// The configuration that discovery finds for the file at an absolute path.
    fn found(file_path: &str, facts: &DiscoveryFacts) -> (result: Result<FStarConfig, ConfigError>)
        ensures
            config_outcome(result) == found_config(file_path@, *facts),
    {
        let style = facts.platform.style();
        match &facts.config_file {
            Some(file) => {
                let contents = match &file.contents {
                    Ok(contents) => contents,
                    Err(reason) => {
                        return Err(ConfigError::IoError(reason.clone()));
                    },
                };
                let mut found = match parse_config_file(
                    contents.as_str(),
                    file.path.as_str(),
                    &facts.environment,
                ) {
                    Ok(found) => found,
                    Err(error) => {
                        return Err(error);
                    },
                };
                if found.cwd.is_none() {
                    found.cwd = Some(locations::directory(style, file.path.as_str()));
                }
                Ok(found)
            },
            None => match config_from_makefile(style, file_path, &facts.make_output) {
                Ok(Some(found)) => Ok(found),
                Ok(None) => {
                    let mut bare = FStarConfig::default();
                    bare.cwd = Some(locations::directory(style, file_path));
                    Ok(bare)
                },
                Err(error) => Err(error),
            },
        }
    }

    /// Finds the configuration of a source file.
    pub fn discover(file_path: &str, facts: &DiscoveryFacts) -> (result: Result<
        FStarConfig,
        ConfigError,
    >)
        ensures
            config_outcome(result) == discovered(file_path@, *facts, config::default_config()),
    {
        FStarConfig::discover_with_overrides(file_path, facts, &FStarConfig::default())
    }

    /// Finds the configuration of a source file and applies the caller's overrides: fields that
    /// are set and lists that are not empty replace what was found.
    pub fn discover_with_overrides(
        file_path: &str,
        facts: &DiscoveryFacts,
        overrides: &FStarConfig,
    ) -> (result: Result<FStarConfig, ConfigError>)
        ensures
            config_outcome(result) == discovered(file_path@, *facts, overrides@),
    {
        let style = facts.platform.style();
        let absolute = match absolute_path(style, file_path, &facts.current_dir) {
            Ok(absolute) => absolute,
            Err(error) => {
                return Err(error);
            },
        };
        let mut merged = match FStarConfig::found(absolute.as_str(), facts) {
            Ok(found) => found,
            Err(error) => {
                return Err(error);
            },
        };
        let replaceable = merged.fstar_exe.is_some() && overrides.fstar_exe.is_none();
        merged.apply_overrides(overrides);
        let cwd = merged.cwd_or(locations::directory(style, absolute.as_str()).as_str());
        let executable = match resolve_executable(merged.fstar_exe(), cwd.as_str(), facts) {
            Ok(executable) => executable,
            Err(ConfigError::ExecutableNotFound { executable, cwd: searched }) => {
                let missing = ConfigError::ExecutableNotFound { executable, cwd: searched };
                if !replaceable {
                    return Err(missing);
                }
                match resolve_executable("fstar.exe", cwd.as_str(), facts) {
                    Ok(fallback) => fallback,
                    Err(_) => {
                        return Err(missing);
                    },
                }
            },
            Err(error) => {
                return Err(error);
            },
        };
        merged.cwd = Some(cwd);
        merged.fstar_exe = Some(executable);
        Ok(merged)
    }

    /// The paths that have to be tested for executable files before the discovery of a file's
    /// configuration: those of the executable, then those of its stand-in.
    pub fn discovery_probes(
        file_path: &str,
        facts: &DiscoveryFacts,
        overrides: &FStarConfig,
    ) -> (probes: Vec<String>)
        ensures
            match absolute_of(style_of(facts.platform), file_path@, text_or_reason(facts.current_dir)) {
                Ok(absolute) => match found_config(absolute, *facts) {
                    Ok(found) => {
                        let merged = config::overridden(found, overrides@);
                        let cwd = config::directory_or(merged, home_of(*facts, absolute));
                        text::texts(probes@) == candidates_of(
                            config::executable_of(merged),
                            cwd,
                            *facts,
                        ) + candidates_of("fstar.exe"@, cwd, *facts)
                    },
                    Err(_) => probes@.len() == 0,
                },
                Err(_) => probes@.len() == 0,
            },
    {
        let style = facts.platform.style();
        let absolute = match absolute_path(style, file_path, &facts.current_dir) {
            Ok(absolute) => absolute,
            Err(_) => {
                return Vec::new();
            },
        };
        let mut merged = match FStarConfig::found(absolute.as_str(), facts) {
            Ok(found) => found,
            Err(_) => {
                return Vec::new();
            },
        };
        merged.apply_overrides(overrides);
        let cwd = merged.cwd_or(locations::directory(style, absolute.as_str()).as_str());
        let mut probes = executable_paths(merged.fstar_exe(), cwd.as_str(), facts);
        let ghost first = probes@;
        let mut more = executable_paths("fstar.exe", cwd.as_str(), facts);
        let ghost second = more@;
        probes.append(&mut more);
        assert(text::texts(probes@) =~= text::texts(first) + text::texts(second));
        probes
    }
}

/// The executable that a configuration names and that was replaced by the one on the search path
/// because it does not exist.
pub open spec fn replaced_by_fallback(
    file_path: Seq<char>,
    facts: DiscoveryFacts,
    overrides: FStarConfigView,
) -> Option<Seq<char>> {
    match absolute_of(style_of(facts.platform), file_path, text_or_reason(facts.current_dir)) {
        Ok(absolute) => match found_config(absolute, facts) {
            Ok(found) => {
                let merged = config::overridden(found, overrides);
                let cwd = config::directory_or(merged, home_of(facts, absolute));
                let wanted = resolved(config::executable_of(merged), cwd, facts);
                if wanted is Err && chosen_executable(found, overrides, cwd, facts) is Ok {
                    Some(config::executable_of(merged))
                } else {
                    None
                }
            },
            Err(_) => None,
        },
        Err(_) => None,
    }
}

impl FStarConfig {
    /// The executable that the configuration of a file names and that was replaced because it does
    /// not exist.
    pub fn replaced_executable(
        file_path: &str,
        facts: &DiscoveryFacts,
        overrides: &FStarConfig,
    ) -> (executable: Option<String>)
        ensures
            text::opt_text(executable) == replaced_by_fallback(file_path@, *facts, overrides@),
    {
        let style = facts.platform.style();
        let absolute = match absolute_path(style, file_path, &facts.current_dir) {
            Ok(absolute) => absolute,
            Err(_) => {
                return None;
            },
        };
        let mut merged = match FStarConfig::found(absolute.as_str(), facts) {
            Ok(found) => found,
            Err(_) => {
                return None;
            },
        };
        let replaceable = merged.fstar_exe.is_some() && overrides.fstar_exe.is_none();
        merged.apply_overrides(overrides);
        let cwd = merged.cwd_or(locations::directory(style, absolute.as_str()).as_str());
        let missing = match resolve_executable(merged.fstar_exe(), cwd.as_str(), facts) {
            Err(ConfigError::ExecutableNotFound { .. }) => true,
            _ => false,
        };
        if missing && replaceable && resolve_executable("fstar.exe", cwd.as_str(), facts).is_ok() {
            Some(merged.fstar_exe().to_owned())
        } else {
            None
        }
    }
}

/// The first candidate that is an executable file is the one: no candidate in front of it is an
/// executable file.
proof fn lemma_first_of(candidates: Seq<Seq<char>>, executables: Seq<Seq<char>>, place: int)
    requires
        0 <= place <= candidates.len(),
        place < candidates.len() ==> executables.contains(candidates[place]),
        forall|i: int| 0 <= i < place ==> !executables.contains(#[trigger] candidates[i]),
    ensures
        first_of(candidates, executables) == (if place < candidates.len() {
            Some(candidates[place])
        } else {
            None
        }),
    decreases place,
{
    if place > 0 {
        let rest = candidates.skip(1);
        assert(!executables.contains(candidates[0]));
        assert forall|i: int| 0 <= i < place - 1 implies !executables.contains(
            #[trigger] rest[i],
        ) by {
            assert(rest[i] == candidates[i + 1]);
        }
        lemma_first_of(rest, executables, place - 1);
    }
}

/// An executable is resolved to the first of its candidates that is an executable file; where none
/// is, it is not found.
pub proof fn law_the_first_executable_candidate_is_resolved(
    executable: Seq<char>,
    cwd: Seq<char>,
    facts: DiscoveryFacts,
    place: int,
)
    requires
        ({
            let candidates = candidates_of(executable, cwd, facts);
            let executables = Seq::new(facts.executables@.len(), |i: int| facts.executables@[i]@);
            &&& 0 <= place <= candidates.len()
            &&& place < candidates.len() ==> executables.contains(candidates[place])
            &&& forall|i: int| 0 <= i < place ==> !executables.contains(#[trigger] candidates[i])
        }),
    ensures
        ({
            let candidates = candidates_of(executable, cwd, facts);
            &&& place == candidates.len() ==> resolved(executable, cwd, facts) == Err::<
                Seq<char>,
                ConfigErrorView,
            >(ConfigErrorView::ExecutableNotFound { executable, cwd })
            &&& place < candidates.len() && names_path(facts.platform, executable) ==> resolved(
                executable,
                cwd,
                facts,
            ) == Ok::<Seq<char>, ConfigErrorView>(candidates[place])
            &&& place < candidates.len() && !names_path(facts.platform, executable) ==> resolved(
                executable,
                cwd,
                facts,
            ) == absolute_of(
                style_of(facts.platform),
                candidates[place],
                match facts.current_dir {
                    Ok(directory) => Ok(directory@),
                    Err(reason) => Err(reason@),
                },
            )
        }),
{
    let executables = Seq::new(facts.executables@.len(), |i: int| facts.executables@[i]@);
    assert(executables =~= text::texts(facts.executables@));
    lemma_first_of(candidates_of(executable, cwd, facts), executables, place);
}

/// On Unix a name without a slash is looked up in the directories of the search path one after the
/// other: it is resolved to the first of them that holds such an executable file.
pub proof fn law_the_search_path_is_tried_in_order(
    executable: Seq<char>,
    cwd: Seq<char>,
    facts: DiscoveryFacts,
    directories: Seq<Seq<char>>,
    place: int,
)
    requires
        facts.platform is Unix,
        !executable.contains('/'),
        facts.search_path is Some,
        directories == Seq::new(
            facts.search_path->0@.len(),
            |i: int| facts.search_path->0@[i]@,
        ),
        ({
            let executables = Seq::new(facts.executables@.len(), |i: int| facts.executables@[i]@);
            &&& 0 <= place <= directories.len()
            &&& place < directories.len() ==> executables.contains(
                locations::joined(Style::Unix, directories[place], executable),
            )
            &&& forall|i: int|
                0 <= i < place ==> !executables.contains(
                    locations::joined(Style::Unix, #[trigger] directories[i], executable),
                )
        }),
    ensures
        place == directories.len() ==> resolved(executable, cwd, facts) == Err::<
            Seq<char>,
            ConfigErrorView,
        >(ConfigErrorView::ExecutableNotFound { executable, cwd }),
        place < directories.len() ==> resolved(executable, cwd, facts) == absolute_of(
            Style::Unix,
            locations::joined(Style::Unix, directories[place], executable),
            match facts.current_dir {
                Ok(directory) => Ok(directory@),
                Err(reason) => Err(reason@),
            },
        ),
{
    assert(directories =~= text::texts(facts.search_path->0@));
    lemma_candidates_along(facts.platform, directories, executable);
    let candidates = candidates_of(executable, cwd, facts);
    let executables = Seq::new(facts.executables@.len(), |i: int| facts.executables@[i]@);
    assert forall|i: int| 0 <= i < place implies !executables.contains(
        #[trigger] candidates[i],
    ) by {
        assert(candidates[i] == locations::joined(Style::Unix, directories[i], executable));
    }
    law_the_first_executable_candidate_is_resolved(executable, cwd, facts, place);
}

/// On Unix each directory of the search path has one candidate.
proof fn lemma_candidates_along(
    platform: Platform,
    directories: Seq<Seq<char>>,
    executable: Seq<char>,
)
    requires
        platform is Unix,
    ensures
        candidates_along(platform, directories, executable).len() == directories.len(),
        forall|i: int|
            0 <= i < directories.len() ==> #[trigger] candidates_along(
                platform,
                directories,
                executable,
            )[i] == locations::joined(Style::Unix, directories[i], executable),
    decreases directories.len(),
{
    if directories.len() > 0 {
        let rest = directories.drop_last();
        lemma_candidates_along(platform, rest, executable);
        let all = candidates_along(platform, directories, executable);
        assert forall|i: int| 0 <= i < directories.len() implies #[trigger] all[i]
            == locations::joined(Style::Unix, directories[i], executable) by {
            if i < rest.len() {
                assert(all[i] == candidates_along(platform, rest, executable)[i]);
                assert(rest[i] == directories[i]);
            }
        }
    }
}

/// The candidates of a directory stand behind those of the directories in front of it.
pub proof fn law_directories_are_tried_in_order(
    platform: Platform,
    directories: Seq<Seq<char>>,
    directory: Seq<char>,
    executable: Seq<char>,
)
    ensures
        candidates_along(platform, Seq::empty(), executable) == Seq::<Seq<char>>::empty(),
        candidates_along(platform, directories.push(directory), executable) == candidates_along(
            platform,
            directories,
            executable,
        ) + candidates_in(platform, directory, executable),
{
    assert(directories.push(directory).drop_last() =~= directories);
}

/// A name that is a path is not looked up: it stands for itself where it does not depend on the
/// working directory, and is else seen from the directory of the configuration, which is itself
/// seen from the current one, where that is known. A slash makes a name a path, and on Windows a
/// backslash does too.
pub proof fn law_paths_are_not_looked_up(
    executable: Seq<char>,
    cwd: Seq<char>,
    facts: DiscoveryFacts,
)
    ensures
        facts.platform is Unix ==> names_path(facts.platform, executable) == executable.contains(
            '/',
        ),
        facts.platform is Windows ==> names_path(facts.platform, executable) == (
        executable.contains('/') || executable.contains('\\')),
        names_path(facts.platform, executable) && locations::is_fixed(
            style_of(facts.platform),
            executable,
        ) ==> candidates_of(executable, cwd, facts) == seq![executable],
        names_path(facts.platform, executable) && !locations::is_fixed(
            style_of(facts.platform),
            executable,
        ) ==> ({
            let style = style_of(facts.platform);
            let base = if locations::is_fixed(style, cwd) {
                cwd
            } else {
                match facts.current_dir {
                    Ok(current) => locations::joined(style, current@, cwd),
                    Err(_) => cwd,
                }
            };
            candidates_of(executable, cwd, facts) == seq![locations::joined(style, base, executable)]
        }),
        !names_path(facts.platform, executable) && facts.search_path is None ==> candidates_of(
            executable,
            cwd,
            facts,
        ) == Seq::<Seq<char>>::empty(),
        facts.platform is Unix ==> style_of(facts.platform) is Unix,
        facts.platform is Windows ==> style_of(facts.platform) is Windows,
{
}

/// On Windows a name without an extension stands for itself first, and then with each of the
/// extensions, in their order; a name with one stands for itself alone.
pub proof fn law_windows_tries_the_extensions(
    directory: Seq<char>,
    executable: Seq<char>,
    platform: Platform,
    given: Seq<char>,
    list: Seq<Seq<char>>,
    at: int,
)
    requires
        match platform {
            Platform::Windows { extensions: Some(text) } => text@ == given,
            Platform::Windows { extensions: None } => given == ".COM;.EXE;.BAT;.CMD"@,
            Platform::Unix => false,
        },
        list == extensions_in(text::pieces_of(given, ';')),
    ensures
        ({
            let candidates = candidates_in(platform, directory, executable);
            &&& candidates.len() > 0
            &&& candidates[0] == locations::joined(Style::Windows, directory, executable)
            &&& has_extension(executable) ==> candidates.len() == 1
            &&& !has_extension(executable) ==> candidates.len() == 1 + list.len()
            &&& !has_extension(executable) && 0 <= at < list.len() ==> candidates[1 + at]
                == locations::joined(Style::Windows, directory, executable + list[at])
        }),
{
}

/// The extensions are the pieces that are not empty, in their order.
pub proof fn law_empty_extensions_are_left_out(pieces: Seq<Seq<char>>, piece: Seq<char>)
    ensures
        extensions_in(Seq::empty()) == Seq::<Seq<char>>::empty(),
        piece.len() == 0 ==> extensions_in(pieces.push(piece)) == extensions_in(pieces),
        piece.len() > 0 ==> extensions_in(pieces.push(piece)) == extensions_in(pieces).push(piece),
{
    assert(pieces.push(piece).drop_last() =~= pieces);
}

/// A name has an extension where a dot stands behind its first character.
pub proof fn law_extensions_stand_behind_a_dot(path: Seq<char>, name: Seq<char>)
    ensures
        locations::file_name_of(Style::Windows, path) is None ==> !has_extension(path),
        locations::file_name_of(Style::Windows, path) == Some(name) ==> has_extension(path) == (
        exists|i: int| 0 < i < name.len() && (#[trigger] name[i]) == '.'),
{
    if let Some(found) = locations::file_name_of(Style::Windows, path) {
        if found == name {
            assert(has_extension(path) == (exists|i: int|
                0 < i < found.len() && (#[trigger] found[i]) == '.'));
        }
    }
}

/// A path that does not depend on the working directory stands for itself; any other one is seen
/// from there, and without a working directory it cannot be.
pub proof fn law_relative_paths_need_a_working_directory(
    style: Style,
    path: Seq<char>,
    directory: Seq<char>,
    reason: Seq<char>,
)
    ensures
        locations::is_fixed(style, path) ==> absolute_of(style, path, Err(reason)) == Ok::<
            Seq<char>,
            ConfigErrorView,
        >(path) && absolute_of(style, path, Ok(directory)) == Ok::<Seq<char>, ConfigErrorView>(
            path,
        ),
        !locations::is_fixed(style, path) ==> absolute_of(style, path, Err(reason)) == Err::<
            Seq<char>,
            ConfigErrorView,
        >(ConfigErrorView::IoError(reason)) && absolute_of(style, path, Ok(directory)) == Ok::<
            Seq<char>,
            ConfigErrorView,
        >(locations::joined(style, directory, path)),
{
}

/// A file outside of its workspace has no directories to look at; any other one starts with its
/// own, and without a workspace the search ends where there is no directory above.
pub proof fn law_searches_start_at_the_file(
    style: Style,
    file_path: Seq<char>,
    root: Option<Seq<char>>,
)
    ensures
        root is Some && !locations::is_within(
            style,
            locations::directory_of(style, file_path),
            root->0,
        ) ==> config_directories_of(style, file_path, root).len() == 0,
        (root is Some ==> locations::is_within(
            style,
            locations::directory_of(style, file_path),
            root->0,
        )) ==> config_directories_of(style, file_path, root).len() > 0 && config_directories_of(
            style,
            file_path,
            root,
        )[0] == locations::directory_of(style, file_path),
        (root is Some ==> locations::is_within(
            style,
            locations::directory_of(style, file_path),
            root->0,
        )) ==> config_directories_of(style, file_path, root) == directories_up(
            style,
            locations::directory_of(style, file_path),
            root,
        ),
        root is None ==> ({
            let list = config_directories_of(style, file_path, root);
            &&& locations::parent_of(style, list.last()) is None
            &&& forall|i: int|
                0 < i < list.len() ==> locations::parent_of(style, list[i - 1]) == Some(
                    #[trigger] list[i],
                )
        }),
{
    if root is None {
        lemma_climb_to_the_top(style, locations::directory_of(style, file_path));
    }
}

/// Without a workspace a search climbs to the top.
proof fn lemma_climb_to_the_top(style: Style, directory: Seq<char>)
    ensures
        ({
            let list = directories_up(style, directory, None);
            &&& list.len() > 0
            &&& list[0] == directory
            &&& locations::parent_of(style, list.last()) is None
            &&& forall|i: int|
                0 < i < list.len() ==> locations::parent_of(style, list[i - 1]) == Some(
                    #[trigger] list[i],
                )
        }),
    decreases directory.len(),
{
    if locations::parent_of(style, directory) is Some {
        locations::law_parent_drops_last_component(style, directory);
        let parent = locations::parent_of(style, directory)->0;
        lemma_climb_to_the_top(style, parent);
        let above = directories_up(style, parent, None);
        let list = directories_up(style, directory, None);
        assert forall|i: int| 0 < i < list.len() implies locations::parent_of(style, list[i - 1])
            == Some(#[trigger] list[i]) by {
            assert(list[i] == above[i - 1]);
            if i > 1 {
                assert(list[i - 1] == above[i - 2]);
            }
        }
        assert(list.last() == above.last());
    }
}

/// A configuration file counts before what `make` says: its contents decide, and it works in its
/// own directory where it names no other.
pub proof fn law_configuration_files_count_before_make(
    file_path: Seq<char>,
    facts: DiscoveryFacts,
    file: ConfigFile,
)
    requires
        facts.config_file == Some(file),
    ensures
        match file.contents {
            Err(reason) => found_config(file_path, facts) == Err::<
                FStarConfigView,
                ConfigErrorView,
            >(ConfigErrorView::IoError(reason@)),
            Ok(contents) => match file_config(contents@, file.path@, facts.environment) {
                Err(error) => found_config(file_path, facts) == Err::<
                    FStarConfigView,
                    ConfigErrorView,
                >(error),
                Ok(written) => match found_config(file_path, facts) {
                    Ok(found) => {
                        &&& found.include_dirs == written.include_dirs
                        &&& found.options == written.options
                        &&& found.fstar_exe == written.fstar_exe
                        &&& written.cwd is Some ==> found.cwd == written.cwd
                        &&& written.cwd is None ==> found.cwd == Some(
                            locations::directory_of(style_of(facts.platform), file.path@),
                        )
                    },
                    Err(_) => false,
                },
            },
        },
{
}

/// Without a configuration file the words that `make` writes are options and include directories,
/// and F* works in the directory of the file; words that cannot be read are an error. Without both
/// there are no options and no include directories.
pub proof fn law_make_counts_before_the_defaults(
    file_path: Seq<char>,
    facts: DiscoveryFacts,
    output: Seq<char>,
    target: Seq<char>,
)
    requires
        facts.config_file is None,
        locations::file_name_of(style_of(facts.platform), file_path) == Some(target),
        match facts.make_output {
            Some(written) => written@ == output,
            None => true,
        },
    ensures
        ({
            let home = locations::directory_of(style_of(facts.platform), file_path);
            match facts.make_output {
                None => found_config(file_path, facts) == Ok::<FStarConfigView, ConfigErrorView>(
                    FStarConfigView {
                        include_dirs: Seq::empty(),
                        options: Seq::empty(),
                        fstar_exe: None,
                        cwd: Some(home),
                    },
                ),
                Some(_) => match shell::shell_words(output) {
                    Err(_) => found_config(file_path, facts) is Err && found_config(
                        file_path,
                        facts,
                    )->Err_0 is InvalidMakeOutput,
                    Ok(words) => match shell::make_options(words) {
                        None => found_config(file_path, facts) is Err && found_config(
                            file_path,
                            facts,
                        )->Err_0 is InvalidMakeOutput,
                        Some((options, include_dirs)) => found_config(file_path, facts) == Ok::<
                            FStarConfigView,
                            ConfigErrorView,
                        >(
                            FStarConfigView {
                                include_dirs,
                                options,
                                fstar_exe: None,
                                cwd: Some(home),
                            },
                        ),
                    },
                },
            }
        }),
{
}

/// `make` is asked for the name of the file with `-in` behind it.
pub proof fn law_make_is_asked_for_the_file(style: Style, file_path: Seq<char>, name: Seq<char>)
    ensures
        locations::file_name_of(style, file_path) == Some(name) ==> make_target_of(
            style,
            file_path,
        ) == Some(name + "-in"@),
        locations::file_name_of(style, file_path) is None ==> make_target_of(style, file_path)
            is None,
{
}

/// A configuration file is a document whose references to variables are replaced before it is read
/// as a configuration.
pub proof fn law_configuration_files_are_documents(
    contents: Seq<char>,
    config_file: Seq<char>,
    environment: Environment,
)
    ensures
        match json::document(contents) {
            Err(reason) => file_config(contents, config_file, environment) == Err::<
                FStarConfigView,
                ConfigErrorView,
            >(ConfigErrorView::ParseError(reason)),
            Ok(value) => match environment::expanded_json(value, environment) {
                Err(environment::EnvFault::Missing(variable)) => file_config(
                    contents,
                    config_file,
                    environment,
                ) == Err::<FStarConfigView, ConfigErrorView>(
                    ConfigErrorView::MissingEnvironmentVariable { variable, config_file },
                ),
                Err(environment::EnvFault::Invalid(variable)) => file_config(
                    contents,
                    config_file,
                    environment,
                ) == Err::<FStarConfigView, ConfigErrorView>(
                    ConfigErrorView::InvalidEnvironmentVariable { variable, config_file },
                ),
                Ok(replaced) => match config::config_in(replaced) {
                    Some(found) => file_config(contents, config_file, environment) == Ok::<
                        FStarConfigView,
                        ConfigErrorView,
                    >(found),
                    None => file_config(contents, config_file, environment) is Err && file_config(
                        contents,
                        config_file,
                        environment,
                    )->Err_0 is ParseError,
                },
            },
        },
{
}

/// An executable that a configuration names and that is not found gives way to the default one,
/// where that is found and the overrides name none; in all other cases what is wanted decides.
pub proof fn law_only_missing_executables_give_way(
    found: FStarConfigView,
    overrides: FStarConfigView,
    cwd: Seq<char>,
    facts: DiscoveryFacts,
    wanted: Seq<char>,
)
    requires
        match (overrides.fstar_exe, found.fstar_exe) {
            (Some(named), _) => wanted == named,
            (None, Some(named)) => wanted == named,
            (None, None) => wanted == "fstar.exe"@,
        },
    ensures
        ({
            let chosen = chosen_executable(found, overrides, cwd, facts);
            let outcome = resolved(wanted, cwd, facts);
            let default = resolved("fstar.exe"@, cwd, facts);
            &&& outcome is Ok ==> chosen == outcome
            &&& outcome is Err && !(outcome->Err_0 is ExecutableNotFound) ==> chosen == outcome
            &&& overrides.fstar_exe is Some ==> chosen == outcome
            &&& found.fstar_exe is None ==> chosen == outcome
            &&& default is Err ==> chosen == outcome
            &&& outcome is Err && outcome->Err_0 is ExecutableNotFound && overrides.fstar_exe
                is None && found.fstar_exe is Some && default is Ok ==> chosen == default
        }),
{
}

/// What is discovered is what was found, but for what the overrides name, with the working
/// directory and the executable that are used.
pub proof fn law_discoveries_keep_what_was_found(
    file_path: Seq<char>,
    facts: DiscoveryFacts,
    overrides: FStarConfigView,
    absolute: Seq<char>,
    found: FStarConfigView,
)
    requires
        absolute_of(
            style_of(facts.platform),
            file_path,
            match facts.current_dir {
                Ok(directory) => Ok(directory@),
                Err(reason) => Err(reason@),
            },
        ) == Ok::<Seq<char>, ConfigErrorView>(absolute),
        found_config(absolute, facts) == Ok::<FStarConfigView, ConfigErrorView>(found),
    ensures
        ({
            let cwd = match (overrides.cwd, found.cwd) {
                (Some(named), _) => named,
                (None, Some(named)) => named,
                (None, None) => locations::directory_of(style_of(facts.platform), absolute),
            };
            match discovered(file_path, facts, overrides) {
                Ok(result) => {
                    &&& result.cwd == Some(cwd)
                    &&& result.options == if overrides.options.len() == 0 {
                        found.options
                    } else {
                        overrides.options
                    }
                    &&& result.include_dirs == if overrides.include_dirs.len() == 0 {
                        found.include_dirs
                    } else {
                        overrides.include_dirs
                    }
                    &&& chosen_executable(found, overrides, cwd, facts) == Ok::<
                        Seq<char>,
                        ConfigErrorView,
                    >(result.fstar_exe->0)
                    &&& result.fstar_exe is Some
                },
                Err(error) => chosen_executable(found, overrides, cwd, facts) == Err::<
                    Seq<char>,
                    ConfigErrorView,
                >(error),
            }
        }),
{
}

/// What goes wrong while a configuration is looked for is reported.
pub proof fn law_failed_discoveries_are_reported(
    file_path: Seq<char>,
    facts: DiscoveryFacts,
    overrides: FStarConfigView,
)
    ensures
        match absolute_of(
            style_of(facts.platform),
            file_path,
            match facts.current_dir {
                Ok(directory) => Ok(directory@),
                Err(reason) => Err(reason@),
            },
        ) {
            Err(error) => discovered(file_path, facts, overrides) == Err::<
                FStarConfigView,
                ConfigErrorView,
            >(error),
            Ok(absolute) => match found_config(absolute, facts) {
                Err(error) => discovered(file_path, facts, overrides) == Err::<
                    FStarConfigView,
                    ConfigErrorView,
                >(error),
                Ok(_) => true,
            },
        },
{
}

/// What `make` writes is a fault with a message of its own where a word cannot be read, and where an
/// include option stands at the end; a file without a name has no target, and `make` says nothing of
/// it.
pub proof fn law_faults_of_make_have_messages(
    style: Style,
    file_path: Seq<char>,
    output: Seq<char>,
    fault: shell::ShellFault,
)
    ensures
        locations::file_name_of(style, file_path) is Some && shell::shell_words(output) == Err::<
            Seq<Seq<char>>,
            shell::ShellFault,
        >(fault) ==> make_config(style, file_path, Some(output)) == Err::<
            Option<FStarConfigView>,
            ConfigErrorView,
        >(ConfigErrorView::InvalidMakeOutput(shell::fault_text(fault))),
        locations::file_name_of(style, file_path) is Some && shell::shell_words(output) is Ok
            && shell::make_options(shell::shell_words(output)->Ok_0) is None ==> make_config(
            style,
            file_path,
            Some(output),
        ) == Err::<Option<FStarConfigView>, ConfigErrorView>(
            ConfigErrorView::InvalidMakeOutput("'--include' must be followed by a directory"@),
        ),
        locations::file_name_of(style, file_path) is None ==> make_config(
            style,
            file_path,
            Some(output),
        ) == Ok::<Option<FStarConfigView>, ConfigErrorView>(None),
{
}

/// An executable was replaced exactly where the one that is wanted is not found and discovery
/// succeeds all the same; it is the one that is wanted.
pub proof fn law_replaced_executables_are_told(
    file_path: Seq<char>,
    facts: DiscoveryFacts,
    overrides: FStarConfigView,
    absolute: Seq<char>,
    found: FStarConfigView,
    wanted: Seq<char>,
)
    requires
        absolute_of(
            style_of(facts.platform),
            file_path,
            match facts.current_dir {
                Ok(directory) => Ok(directory@),
                Err(reason) => Err(reason@),
            },
        ) == Ok::<Seq<char>, ConfigErrorView>(absolute),
        found_config(absolute, facts) == Ok::<FStarConfigView, ConfigErrorView>(found),
        match (overrides.fstar_exe, found.fstar_exe) {
            (Some(named), _) => wanted == named,
            (None, Some(named)) => wanted == named,
            (None, None) => wanted == "fstar.exe"@,
        },
    ensures
        ({
            let cwd = match (overrides.cwd, found.cwd) {
                (Some(named), _) => named,
                (None, Some(named)) => named,
                (None, None) => locations::directory_of(style_of(facts.platform), absolute),
            };
            let replaced = replaced_by_fallback(file_path, facts, overrides);
            &&& replaced is Some <==> resolved(wanted, cwd, facts) is Err && discovered(
                file_path,
                facts,
                overrides,
            ) is Ok
            &&& replaced is Some ==> replaced == Some(wanted)
        }),
{
}

/// A search goes from directory to directory, the nearest first: it ends with the pick of the first
/// directory that has one, and goes on with the next directory otherwise.
pub proof fn law_searches_end_with_a_pick(
    search: &mut ConfigSearch,
    names: &Vec<String>,
    asked: &ConfigSearch,
    directory: Option<String>,
    found: Option<String>,
)
    requires
        call_ensures(ConfigSearch::next_directory, (asked,), directory),
        call_ensures(ConfigSearch::add_names, (search, names), found),
        *asked == *old(search),
    ensures
        old(search)@.left.len() == 0 ==> directory is None && found is None,
        old(search)@.left.len() > 0 ==> ({
            let first = old(search)@.left[0];
            &&& text::opt_text(directory) == Some(first)
            &&& text::opt_text(found) == picked_in(old(search)@.style, first, text::texts(names@))
            &&& found is Some ==> final(search)@.left.len() == 0
            &&& found is None ==> final(search)@.left == old(search)@.left.skip(1)
        }),
{
}

/// The directories of a search are those above the file up to the workspace, which is seen from the
/// current directory; a workspace that cannot be seen from anywhere is an error.
pub proof fn law_workspaces_are_seen_from_the_current_directory(
    style: Style,
    file_path: &str,
    root: Option<&str>,
    current: &Result<String, String>,
    result: Result<Vec<String>, ConfigError>,
)
    requires
        call_ensures(config_directories, (style, file_path, root, current), result),
    ensures
        match root {
            None => result matches Ok(list) && text::texts(list@) == config_directories_of(
                style,
                file_path@,
                None,
            ),
            Some(top) => if locations::is_fixed(style, top@) {
                result matches Ok(list) && text::texts(list@) == config_directories_of(
                    style,
                    file_path@,
                    Some(top@),
                )
            } else {
                match *current {
                    Ok(base) => result matches Ok(list) && text::texts(list@)
                        == config_directories_of(
                        style,
                        file_path@,
                        Some(locations::joined(style, base@, top@)),
                    ),
                    Err(reason) => result matches Err(error) && error@ == ConfigErrorView::IoError(
                        reason@,
                    ),
                }
            },
        },
{
}

/// An executable is resolved to the first of its candidates that is an executable file, and none
/// before it is one; where none is, it is not found.
pub proof fn law_executables_are_the_first_that_exist(
    executable: &str,
    cwd: &str,
    facts: &DiscoveryFacts,
    candidates: Vec<String>,
    result: Result<String, ConfigError>,
    place: int,
)
    requires
        call_ensures(executable_paths, (executable, cwd, facts), candidates),
        call_ensures(resolve_executable, (executable, cwd, facts), result),
        ({
            let executables = Seq::new(facts.executables@.len(), |i: int| facts.executables@[i]@);
            &&& 0 <= place <= candidates@.len()
            &&& place < candidates@.len() ==> executables.contains(candidates@[place]@)
            &&& forall|i: int|
                0 <= i < place ==> !executables.contains((#[trigger] candidates@[i])@)
        }),
    ensures
        place == candidates@.len() ==> (result matches Err(error) && error@ == (
        ConfigErrorView::ExecutableNotFound { executable: executable@, cwd: cwd@ })),
        place < candidates@.len() && locations::is_fixed(
            style_of(facts.platform),
            candidates@[place]@,
        ) ==> (result matches Ok(path) && path@ == candidates@[place]@),
{
    let all = text::texts(candidates@);
    let executables = Seq::new(facts.executables@.len(), |i: int| facts.executables@[i]@);
    assert forall|i: int| 0 <= i < place implies !executables.contains(#[trigger] all[i]) by {
        assert(all[i] == candidates@[i]@);
    }
    law_the_first_executable_candidate_is_resolved(executable@, cwd@, *facts, place);
}

} // verus!
