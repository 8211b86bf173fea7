//! The order of paths.
//!
//! Paths are compared component by component, so paths with the same components are not told apart.
use crate::locations::{self, Style};
use crate::text;
use vstd::prelude::*;

verus! {

/// Lexicographic order over an order of the elements.
pub open spec fn lex_less<A>(a: Seq<A>, b: Seq<A>, less: spec_fn(A, A) -> bool) -> bool
    decreases a.len(),
{
    if b.len() == 0 {
        false
    } else if a.len() == 0 {
        true
    } else if a[0] == b[0] {
        lex_less(a.skip(1), b.skip(1), less)
    } else {
        less(a[0], b[0])
    }
}

/// The order of characters.
pub open spec fn char_order() -> spec_fn(char, char) -> bool {
    |a: char, b: char| a < b
}

/// The kinds of components in their order: drives and shares, the root, `.`, `..`, names.
pub open spec fn component_rank(component: Seq<char>) -> int {
    if locations::is_prefix_component(component) {
        0
    } else if component == seq!['/'] {
        1
    } else if component == seq!['.'] {
        2
    } else if component == seq!['.', '.'] {
        3
    } else {
        4
    }
}

/// The order of components: by kind, names by their characters.
pub open spec fn component_less(a: Seq<char>, b: Seq<char>) -> bool {
    if component_rank(a) != component_rank(b) {
        component_rank(a) < component_rank(b)
    } else {
        lex_less(a, b, char_order())
    }
}

/// The order of components as a function.
pub open spec fn component_order() -> spec_fn(Seq<char>, Seq<char>) -> bool {
    |a: Seq<char>, b: Seq<char>| component_less(a, b)
}

/// The order of paths: component by component.
pub open spec fn path_less(style: Style, a: Seq<char>, b: Seq<char>) -> bool {
    lex_less(locations::components(style, a), locations::components(style, b), component_order())
}

/// True when no path stands before a smaller one.
pub open spec fn paths_sorted(style: Style, paths: Seq<Seq<char>>) -> bool {
    forall|i: int, j: int|
        0 <= i < j < paths.len() ==> !path_less(style, #[trigger] paths[j], #[trigger] paths[i])
}

/// True when each path is smaller than those behind it.
pub open spec fn paths_increasing(style: Style, paths: Seq<Seq<char>>) -> bool {
    forall|i: int, j: int|
        0 <= i < j < paths.len() ==> path_less(style, #[trigger] paths[i], #[trigger] paths[j])
}

/// True for an order in which two different elements are always comparable, one way only.
pub open spec fn is_strict_order<A>(less: spec_fn(A, A) -> bool) -> bool {
    &&& forall|a: A| !#[trigger] less(a, a)
    &&& forall|a: A, b: A| a != b ==> (#[trigger] less(a, b) || less(b, a))
    &&& forall|a: A, b: A, c: A| #[trigger] less(a, b) && #[trigger] less(b, c) ==> less(a, c)
}

proof fn lemma_lex_irreflexive<A>(a: Seq<A>, less: spec_fn(A, A) -> bool)
    ensures
        !lex_less(a, a, less),
    decreases a.len(),
{
    if a.len() > 0 {
        lemma_lex_irreflexive(a.skip(1), less);
    }
}

proof fn lemma_lex_total<A>(a: Seq<A>, b: Seq<A>, less: spec_fn(A, A) -> bool)
    requires
        is_strict_order(less),
    ensures
        a != b ==> lex_less(a, b, less) || lex_less(b, a, less),
    decreases a.len(),
{
    if a.len() == 0 {
        if b.len() == 0 {
            assert(a =~= b);
        }
    } else if b.len() > 0 && a[0] == b[0] {
        lemma_lex_total(a.skip(1), b.skip(1), less);
        if a.skip(1) == b.skip(1) {
            assert(a =~= seq![a[0]] + a.skip(1));
            assert(b =~= seq![b[0]] + b.skip(1));
        }
    }
}

proof fn lemma_lex_transitive<A>(a: Seq<A>, b: Seq<A>, c: Seq<A>, less: spec_fn(A, A) -> bool)
    requires
        is_strict_order(less),
        lex_less(a, b, less),
        lex_less(b, c, less),
    ensures
        lex_less(a, c, less),
    decreases a.len(),
{
    if a.len() > 0 && b.len() > 0 && c.len() > 0 {
        if a[0] == b[0] && b[0] == c[0] {
            lemma_lex_transitive(a.skip(1), b.skip(1), c.skip(1), less);
        } else if a[0] != b[0] && b[0] != c[0] {
            assert(less(a[0], b[0]) && less(b[0], c[0]));
            assert(less(a[0], c[0]));
        }
    }
}

proof fn lemma_lex_strict<A>(less: spec_fn(A, A) -> bool)
    requires
        is_strict_order(less),
    ensures
        is_strict_order(|a: Seq<A>, b: Seq<A>| lex_less(a, b, less)),
{
    let order = |a: Seq<A>, b: Seq<A>| lex_less(a, b, less);
    assert forall|a: Seq<A>| !#[trigger] order(a, a) by {
        lemma_lex_irreflexive(a, less);
    }
    assert forall|a: Seq<A>, b: Seq<A>| a != b implies (#[trigger] order(a, b) || order(b, a)) by {
        lemma_lex_total(a, b, less);
    }
    assert forall|a: Seq<A>, b: Seq<A>, c: Seq<A>| #[trigger]
        order(a, b) && #[trigger] order(b, c) implies order(a, c) by {
        lemma_lex_transitive(a, b, c, less);
    }
}

proof fn lemma_component_strict()
    ensures
        is_strict_order(component_order()),
{
    let order = component_order();
    let chars = char_order();
    assert(is_strict_order(chars));
    lemma_lex_strict(chars);
    let names = |a: Seq<char>, b: Seq<char>| lex_less(a, b, chars);
    assert forall|a: Seq<char>| !#[trigger] order(a, a) by {
        assert(!names(a, a));
    }
    assert forall|a: Seq<char>, b: Seq<char>| a != b implies (#[trigger] order(a, b) || order(
        b,
        a,
    )) by {
        assert(names(a, b) || names(b, a));
    }
    assert forall|a: Seq<char>, b: Seq<char>, c: Seq<char>| #[trigger]
        order(a, b) && #[trigger] order(b, c) implies order(a, c) by {
        if component_rank(a) == component_rank(b) && component_rank(b) == component_rank(c) {
            assert(names(a, b) && names(b, c));
            assert(names(a, c));
        }
    }
}

/// The order of paths is strict and total up to equal components.
pub proof fn lemma_path_order(style: Style, a: Seq<char>, b: Seq<char>, c: Seq<char>)
    ensures
        !path_less(style, a, a),
        path_less(style, a, b) ==> !path_less(style, b, a),
        locations::is_same(style, a, b) <==> !path_less(style, a, b) && !path_less(style, b, a),
        path_less(style, a, b) && path_less(style, b, c) ==> path_less(style, a, c),
        path_less(style, a, b) && !path_less(style, c, b) ==> path_less(style, a, c),
        !path_less(style, b, a) && path_less(style, b, c) ==> path_less(style, a, c),
{
    lemma_component_strict();
    lemma_lex_strict(component_order());
    let order = |x: Seq<Seq<char>>, y: Seq<Seq<char>>| lex_less(x, y, component_order());
    let x = locations::components(style, a);
    let y = locations::components(style, b);
    let z = locations::components(style, c);
    assert(!order(x, x) && !order(y, y));
    assert(order(x, y) && order(y, x) ==> order(x, x));
    assert(x != y ==> order(x, y) || order(y, x));
    assert(order(x, y) && order(y, z) ==> order(x, z));
    assert(y != z ==> order(y, z) || order(z, y));
    assert(order(z, x) && order(x, y) ==> order(z, y));
}

/// True when the characters of `left` stand before those of `right`.
fn chars_before(left: &str, right: &str) -> (before: bool)
    ensures
        before == lex_less(left@, right@, char_order()),
{
    let a = text::chars_of(left);
    let b = text::chars_of(right);
    let mut index: usize = 0;
    assert(a@.skip(0) =~= a@);
    assert(b@.skip(0) =~= b@);
    while index < a.len() && index < b.len()
        invariant
            index <= a@.len(),
            index <= b@.len(),
            a@ == left@,
            b@ == right@,
            lex_less(a@, b@, char_order()) == lex_less(
                a@.skip(index as int),
                b@.skip(index as int),
                char_order(),
            ),
        decreases a@.len() - index,
    {
        if a[index] != b[index] {
            return a[index] < b[index];
        }
        assert(a@.skip(index as int).skip(1) =~= a@.skip(index + 1));
        assert(b@.skip(index as int).skip(1) =~= b@.skip(index + 1));
        index += 1;
    }
    index < b.len()
}

/// The place of a component among the kinds of components.
fn rank(component: &str) -> (result: u8)
    ensures
        result == component_rank(component@),
{
    proof {
        reveal_strlit("/");
        reveal_strlit(".");
        reveal_strlit("..");
    }
    assert("/"@ =~= seq!['/']);
    assert("."@ =~= seq!['.']);
    assert(".."@ =~= seq!['.', '.']);
    let chars = text::chars_of(component);
    if chars.len() > 1 && chars[0] == '/' {
        0
    } else if text::same(component, "/") {
        1
    } else if text::same(component, ".") {
        2
    } else if text::same(component, "..") {
        3
    } else {
        4
    }
}

/// True when `left` stands before `right`.
pub fn is_before(style: Style, left: &str, right: &str) -> (before: bool)
    ensures
        before == path_less(style, left@, right@),
{
    let a = locations::split(style, left);
    let b = locations::split(style, right);
    let ghost all_a = locations::components(style, left@);
    let ghost all_b = locations::components(style, right@);
    let mut index: usize = 0;
    assert(all_a.skip(0) =~= all_a);
    assert(all_b.skip(0) =~= all_b);
    while index < a.len() && index < b.len()
        invariant
            index <= a@.len(),
            index <= b@.len(),
            all_a == text::texts(a@),
            all_b == text::texts(b@),
            all_a == locations::components(style, left@),
            all_b == locations::components(style, right@),
            path_less(style, left@, right@) == lex_less(
                all_a.skip(index as int),
                all_b.skip(index as int),
                component_order(),
            ),
        decreases a@.len() - index,
    {
        let (x, y) = (a[index].as_str(), b[index].as_str());
        if !text::same(x, y) {
            let (left_rank, right_rank) = (rank(x), rank(y));
            assert(all_a.skip(index as int)[0] == x@);
            assert(all_b.skip(index as int)[0] == y@);
            if left_rank != right_rank {
                return left_rank < right_rank;
            }
            return chars_before(x, y);
        }
        assert(all_a.skip(index as int).skip(1) =~= all_a.skip(index + 1));
        assert(all_b.skip(index as int).skip(1) =~= all_b.skip(index + 1));
        index += 1;
    }
    index < b.len()
}

/// The paths of a list that have the components of `path`, in the order of the list.
pub open spec fn same_in(style: Style, list: Seq<Seq<char>>, path: Seq<char>) -> Seq<Seq<char>>
    decreases list.len(),
{
    if list.len() == 0 {
        Seq::empty()
    } else if locations::is_same(style, list.last(), path) {
        same_in(style, list.drop_last(), path).push(list.last())
    } else {
        same_in(style, list.drop_last(), path)
    }
}

/// The first path of a list that has the components of `path`.
pub open spec fn first_same(style: Style, list: Seq<Seq<char>>, path: Seq<char>) -> Option<Seq<char>>
    decreases list.len(),
{
    if list.len() == 0 {
        None
    } else {
        match first_same(style, list.drop_last(), path) {
            Some(found) => Some(found),
            None => if locations::is_same(style, list.last(), path) {
                Some(list.last())
            } else {
                None
            },
        }
    }
}

/// The first of the paths with some components is the first of the list.
proof fn lemma_first_same(style: Style, list: Seq<Seq<char>>, path: Seq<char>)
    ensures
        first_same(style, list, path) == (if same_in(style, list, path).len() > 0 {
            Some(same_in(style, list, path)[0])
        } else {
            None
        }),
        first_same(style, list, path) is None <==> !holds_same(style, list, path),
    decreases list.len(),
{
    if list.len() > 0 {
        let rest = list.drop_last();
        lemma_first_same(style, rest, path);
        if holds_same(style, rest, path) {
            let i = choose|i: int|
                0 <= i < rest.len() && locations::is_same(style, #[trigger] rest[i], path);
            assert(locations::is_same(style, list[i], path));
        }
        if holds_same(style, list, path) {
            let i = choose|i: int|
                0 <= i < list.len() && locations::is_same(style, #[trigger] list[i], path);
            if i < rest.len() {
                assert(locations::is_same(style, rest[i], path));
            }
        }
        if locations::is_same(style, list.last(), path) {
            assert(locations::is_same(style, list[list.len() - 1], path));
        }
    }
}

/// A path that is put in front of others with other components keeps its place among those with
/// its own.
proof fn lemma_same_after_insert(
    style: Style,
    list: Seq<Seq<char>>,
    at: int,
    item: Seq<char>,
    path: Seq<char>,
)
    requires
        0 <= at <= list.len(),
        forall|i: int|
            at <= i < list.len() ==> !locations::is_same(style, item, #[trigger] list[i]),
    ensures
        same_in(style, list.insert(at, item), path) == same_in(style, list.push(item), path),
    decreases list.len(),
{
    let longer = list.insert(at, item);
    assert(list.push(item).drop_last() =~= list);
    if at == list.len() {
        assert(longer =~= list.push(item));
    } else {
        let rest = list.drop_last();
        assert forall|i: int| at <= i < rest.len() implies !locations::is_same(
            style,
            item,
            #[trigger] rest[i],
        ) by {
            assert(rest[i] == list[i]);
        }
        lemma_same_after_insert(style, rest, at, item, path);
        assert(longer.drop_last() =~= rest.insert(at, item));
        assert(longer.last() == list.last());
        assert(rest.push(item).drop_last() =~= rest);
        assert(rest.push(item).last() == item && list.push(item).last() == item);
        assert(list[list.len() - 1] == list.last());
        assert(!locations::is_same(style, item, list.last()));
        assert(same_in(style, rest.push(item), path) == (if locations::is_same(style, item, path) {
            same_in(style, rest, path).push(item)
        } else {
            same_in(style, rest, path)
        }));
        assert(same_in(style, list.push(item), path) == (if locations::is_same(style, item, path) {
            same_in(style, list, path).push(item)
        } else {
            same_in(style, list, path)
        }));
    }
}

proof fn lemma_insert_multiset(paths: Seq<Seq<char>>, at: int, path: Seq<char>)
    requires
        0 <= at <= paths.len(),
    ensures
        paths.insert(at, path).to_multiset() == paths.to_multiset().insert(path),
{
    let longer = paths.insert(at, path);
    longer.to_multiset_ensures();
    assert(longer.remove(at) =~= paths);
    assert(longer[at] == path);
    assert(longer.contains(path));
    assert(longer.to_multiset().remove(path).insert(path) =~= longer.to_multiset());
}

/// The paths in order; paths with the same components stay in the order that they had.
pub fn sort(style: Style, paths: Vec<String>) -> (sorted: Vec<String>)
    ensures
        paths_sorted(style, text::texts(sorted@)),
        text::texts(sorted@).to_multiset() == text::texts(paths@).to_multiset(),
        forall|path: Seq<char>| #[trigger]
            same_in(style, text::texts(sorted@), path) == same_in(style, text::texts(paths@), path),
{
    let mut sorted: Vec<String> = Vec::new();
    let mut index: usize = 0;
    let ghost all = text::texts(paths@);
    assert(all.take(0) =~= text::texts(sorted@));
    while index < paths.len()
        invariant
            index <= paths@.len(),
            all == text::texts(paths@),
            paths_sorted(style, text::texts(sorted@)),
            text::texts(sorted@).to_multiset() == all.take(index as int).to_multiset(),
            forall|path: Seq<char>| #[trigger]
                same_in(style, text::texts(sorted@), path) == same_in(
                    style,
                    all.take(index as int),
                    path,
                ),
        decreases paths@.len() - index,
    {
        let ghost before = text::texts(sorted@);
        let item = paths[index].clone();
        let mut at: usize = sorted.len();
        while at > 0 && is_before(style, item.as_str(), sorted[at - 1].as_str())
            invariant
                at <= sorted@.len(),
                before == text::texts(sorted@),
                forall|i: int| at <= i < sorted@.len() ==> path_less(style, item@, #[trigger] before[i]),
            decreases at,
        {
            at -= 1;
        }
        sorted.insert(at, item);
        let ghost now = text::texts(sorted@);
        assert(now =~= before.insert(at as int, item@));
        assert forall|i: int, j: int| 0 <= i < j < now.len() implies !path_less(
            style, #[trigger] now[j],
            #[trigger] now[i],
        ) by {
            let low = if i < at {
                before[i]
            } else if i == at {
                item@
            } else {
                before[i - 1]
            };
            let high = if j < at {
                before[j]
            } else if j == at {
                item@
            } else {
                before[j - 1]
            };
            assert(now[i] == low && now[j] == high);
            if j == at {
                if i < at - 1 {
                    assert(!path_less(style, before[at - 1], before[i]));
                    lemma_path_order(style, item@, before[i], before[at - 1]);
                }
            } else if i == at {
                assert(path_less(style, item@, before[j - 1]));
                lemma_path_order(style, item@, before[j - 1], item@);
            }
        }
        proof {
            lemma_insert_multiset(before, at as int, item@);
            assert(all.take(index + 1) =~= all.take(index as int).push(item@));
            assert forall|path: Seq<char>| #[trigger]
                same_in(style, now, path) == same_in(style, all.take(index + 1), path) by {
                assert forall|i: int| at <= i < before.len() implies !locations::is_same(
                    style,
                    item@,
                    #[trigger] before[i],
                ) by {
                    lemma_path_order(style, item@, before[i], item@);
                }
                lemma_same_after_insert(style, before, at as int, item@, path);
                assert(before.push(item@).drop_last() =~= before);
                assert(all.take(index + 1).drop_last() =~= all.take(index as int));
                assert(same_in(style, before, path) == same_in(
                    style,
                    all.take(index as int),
                    path,
                ));
            }
            all.take(index as int).to_multiset_ensures();
        }
        index += 1;
    }
    assert(all.take(index as int) =~= all);
    sorted
}

/// True when `paths` holds a path with the components of `path`.
pub open spec fn holds_same(style: Style, paths: Seq<Seq<char>>, path: Seq<char>) -> bool {
    exists|i: int| 0 <= i < paths.len() && locations::is_same(style, #[trigger] paths[i], path)
}

/// True when `paths` are distinct and in order, each is the first of `source` with its components,
/// and each of `source` is the same as one of them.
pub open spec fn is_distinct_order(
    style: Style,
    paths: Seq<Seq<char>>,
    source: Seq<Seq<char>>,
) -> bool {
    &&& paths_increasing(style, paths)
    &&& forall|i: int|
        0 <= i < paths.len() ==> first_same(style, source, #[trigger] paths[i]) == Some(paths[i])
    &&& forall|i: int| 0 <= i < source.len() ==> holds_same(style, paths, #[trigger] source[i])
}

proof fn lemma_extend_distinct(
    style: Style,
    paths: Seq<Seq<char>>,
    order: Seq<Seq<char>>,
    index: int,
)
    requires
        0 <= index < order.len(),
        paths_sorted(style, order),
        is_distinct_order(style, paths, order.take(index)),
        index > 0 ==> paths.len() > 0 && locations::is_same(style, paths.last(), order[index - 1]),
    ensures
        paths.len() > 0 && locations::is_same(style, paths.last(), order[index])
            ==> is_distinct_order(style, paths, order.take(index + 1)),
        paths.len() == 0 || !locations::is_same(style, paths.last(), order[index])
            ==> is_distinct_order(style, paths.push(order[index]), order.take(index + 1)),
{
    let item = order[index];
    let source = order.take(index);
    let next = order.take(index + 1);
    let repeated = paths.len() > 0 && locations::is_same(style, paths.last(), item);
    let result = if repeated {
        paths
    } else {
        paths.push(item)
    };
    assert forall|i: int| 0 <= i < next.len() implies holds_same(style, result, #[trigger] next[i]) by {
        if i < index {
            assert(next[i] == source[i]);
            assert(holds_same(style, paths, source[i]));
            let j = choose|j: int|
                0 <= j < paths.len() && locations::is_same(style, #[trigger] paths[j], source[i]);
            assert(result[j] == paths[j]);
        } else {
            assert(locations::is_same(style, result[result.len() - 1], next[i]));
        }
    }
    if !repeated && paths.len() > 0 {
        let last = paths.last();
        if index == 0 {
            assert(first_same(style, source, paths[0]) is Some);
        }
        assert(!path_less(style, order[index], order[index - 1]));
        lemma_path_order(style, last, order[index - 1], item);
        lemma_path_order(style, item, order[index - 1], last);
        lemma_path_order(style, last, item, last);
        lemma_path_order(style, order[index - 1], item, last);
        assert(path_less(style, last, item));
        assert forall|i: int, j: int| 0 <= i < j < result.len() implies path_less(
            style, #[trigger] result[i],
            #[trigger] result[j],
        ) by {
            if j < paths.len() {
                assert(path_less(style, paths[i], paths[j]));
            } else if i < paths.len() - 1 {
                assert(path_less(style, paths[i], paths[paths.len() - 1]));
                lemma_path_order(style, paths[i], last, item);
            }
        }
    }
    assert(next.drop_last() =~= source);
    assert(next.last() == item);
    assert forall|i: int| 0 <= i < result.len() implies first_same(style, next, #[trigger] result[i])
        == Some(result[i]) by {
        if i < paths.len() {
            assert(first_same(style, source, paths[i]) == Some(paths[i]));
        } else {
            lemma_first_same(style, source, item);
            if holds_same(style, source, item) {
                let k = choose|k: int|
                    0 <= k < source.len() && locations::is_same(style, #[trigger] source[k], item);
                assert(holds_same(style, paths, source[k]));
                let j = choose|j: int|
                    0 <= j < paths.len() && locations::is_same(style, #[trigger] paths[j], source[k]);
                assert(path_less(style, result[j], result[i]));
                lemma_path_order(style, result[j], result[i], item);
            }
        }
    }
}

/// The paths in order, each once; where two are the same, the first of them stays.
pub fn sort_distinct(style: Style, paths: Vec<String>) -> (result: Vec<String>)
    ensures
        is_distinct_order(style, text::texts(result@), text::texts(paths@)),
{
    let ghost all = text::texts(paths@);
    let sorted = sort(style, paths);
    let ghost order = text::texts(sorted@);
    let mut result: Vec<String> = Vec::new();
    let mut index: usize = 0;
    while index < sorted.len()
        invariant
            index <= sorted@.len(),
            order == text::texts(sorted@),
            paths_sorted(style, order),
            is_distinct_order(style, text::texts(result@), order.take(index as int)),
            index > 0 ==> result@.len() > 0 && locations::is_same(
                style,
                result@.last()@,
                order[index - 1],
            ),
        decreases sorted@.len() - index,
    {
        let item = sorted[index].clone();
        let ghost before = text::texts(result@);
        proof {
            lemma_extend_distinct(style, before, order, index as int);
        }
        if result.len() == 0 || !locations::same_path(
            style,
            result[result.len() - 1].as_str(),
            item.as_str(),
        ) {
            result.push(item);
            assert(text::texts(result@) =~= before.push(order[index as int]));
        }
        index += 1;
    }
    proof {
        let found = text::texts(result@);
        assert(order.take(index as int) =~= order);
        all.to_multiset_ensures();
        order.to_multiset_ensures();
        assert forall|i: int| 0 <= i < found.len() implies first_same(style, all, #[trigger] found[i])
            == Some(found[i]) by {
            lemma_first_same(style, order, found[i]);
            lemma_first_same(style, all, found[i]);
            assert(same_in(style, order, found[i]) == same_in(style, all, found[i]));
        }
        assert forall|i: int| 0 <= i < all.len() implies holds_same(style, found, #[trigger] all[i]) by {
            assert(all.contains(all[i]));
            assert(all.to_multiset().count(all[i]) > 0);
            assert(order.contains(all[i]));
            let k = choose|k: int| 0 <= k < order.len() && order[k] == all[i];
            assert(holds_same(style, found, order[k]));
        }
    }
    result
}

/// The first element in which two sequences differ decides which one is smaller, and a start of a
/// sequence is smaller than the whole.
pub proof fn law_the_first_difference_decides<A>(
    a: Seq<A>,
    b: Seq<A>,
    less: spec_fn(A, A) -> bool,
    at: int,
)
    requires
        0 <= at <= a.len(),
        at <= b.len(),
        forall|i: int| 0 <= i < at ==> #[trigger] a[i] == b[i],
    ensures
        at < a.len() && at < b.len() && a[at] != b[at] ==> lex_less(a, b, less) == less(
            a[at],
            b[at],
        ),
        at == a.len() ==> lex_less(a, b, less) == (a.len() < b.len()),
        at == b.len() ==> !lex_less(a, b, less),
    decreases at,
{
    if at > 0 {
        assert(a[0] == b[0]);
        let (x, y) = (a.skip(1), b.skip(1));
        assert forall|i: int| 0 <= i < at - 1 implies #[trigger] x[i] == y[i] by {
            assert(a[i + 1] == b[i + 1]);
        }
        law_the_first_difference_decides(x, y, less, at - 1);
    }
}

/// Drives and shares come before the root, the root before a dot, that before two dots, and names
/// last. Two names, and two drives or shares, are told apart by the first character in which they
/// differ.
pub proof fn law_components_are_in_order(
    drive: Seq<char>,
    name: Seq<char>,
    other: Seq<char>,
    at: int,
)
    requires
        drive.len() > 1,
        drive[0] == '/',
        name.len() > 0,
        name[0] != '/',
        name != seq!['.'],
        name != seq!['.', '.'],
        other.len() > 0,
        other[0] != '/',
        other != seq!['.'],
        other != seq!['.', '.'],
    ensures
        component_less(drive, seq!['/']),
        component_less(seq!['/'], seq!['.']),
        component_less(seq!['.'], seq!['.', '.']),
        component_less(seq!['.', '.'], name),
        !component_less(name, drive),
        !component_less(name, seq!['/']),
        !component_less(name, seq!['.']),
        !component_less(name, seq!['.', '.']),
        0 <= at < name.len() && at < other.len() && name[at] != other[at] && (forall|i: int|
            0 <= i < at ==> #[trigger] name[i] == other[i]) ==> component_less(name, other) == (
        name[at] < other[at]),
        at == name.len() && at <= other.len() && (forall|i: int|
            0 <= i < at ==> #[trigger] name[i] == other[i]) ==> component_less(name, other) == (
        name.len() < other.len()),
{
    assert(seq!['/'][0] == '/' && seq!['/'].len() == 1);
    assert(seq!['.'][0] == '.' && seq!['.'].len() == 1);
    assert(seq!['.', '.'].len() == 2 && seq!['.', '.'][0] == '.');
    if 0 <= at <= name.len() && at <= other.len() && (forall|i: int|
        0 <= i < at ==> #[trigger] name[i] == other[i]) {
        law_the_first_difference_decides(name, other, char_order(), at);
    }
}

/// The first component in which two paths differ decides which one is smaller, and a directory comes
/// before what is in it.
pub proof fn law_paths_are_told_apart_by_components(
    style: Style,
    a: Seq<char>,
    b: Seq<char>,
    at: int,
)
    requires
        0 <= at <= locations::components(style, a).len(),
        at <= locations::components(style, b).len(),
        forall|i: int|
            0 <= i < at ==> #[trigger] locations::components(style, a)[i] == locations::components(
                style,
                b,
            )[i],
    ensures
        ({
            let (x, y) = (locations::components(style, a), locations::components(style, b));
            &&& at < x.len() && at < y.len() && x[at] != y[at] ==> path_less(style, a, b)
                == component_less(x[at], y[at])
            &&& at == x.len() ==> path_less(style, a, b) == (x.len() < y.len())
            &&& at == y.len() ==> !path_less(style, a, b)
        }),
{
    law_the_first_difference_decides(
        locations::components(style, a),
        locations::components(style, b),
        component_order(),
        at,
    );
}

/// Of the paths of a list that are the same as a path the first one is found; where none is, none is
/// found.
pub proof fn law_the_first_same_path_is_found(
    style: Style,
    list: Seq<Seq<char>>,
    path: Seq<char>,
    at: int,
)
    ensures
        0 <= at < list.len() && locations::components(style, list[at]) == locations::components(
            style,
            path,
        ) && (forall|i: int|
            0 <= i < at ==> locations::components(style, #[trigger] list[i])
                != locations::components(style, path)) ==> first_same(style, list, path) == Some(
            list[at],
        ),
        (forall|i: int|
            0 <= i < list.len() ==> locations::components(style, #[trigger] list[i])
                != locations::components(style, path)) ==> first_same(style, list, path) is None,
    decreases list.len(),
{
    if list.len() > 0 {
        let rest = list.drop_last();
        assert forall|i: int| 0 <= i < rest.len() implies #[trigger] rest[i] == list[i] by {}
        law_the_first_same_path_is_found(style, rest, path, at);
    }
}

} // verus!
