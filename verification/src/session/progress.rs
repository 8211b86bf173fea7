//! What an edit leaves valid, and what a check has verified.
use crate::fstar::process::{self, FragmentResult, FragmentStatus, FragmentView};
use crate::text;
use vstd::prelude::*;

verus! {

/// How many positions `u32` can tell apart.
pub const POSITIONS: u64 = 0x1_0000_0000;

/// How many characters two texts have in common from the start.
pub open spec fn common_len(previous: Seq<char>, current: Seq<char>) -> nat
    decreases previous.len(),
{
    if previous.len() == 0 || current.len() == 0 || previous[0] != current[0] {
        0
    } else {
        1 + common_len(previous.skip(1), current.skip(1))
    }
}

/// How many lines end in `text`.
pub open spec fn line_ends(text: Seq<char>) -> nat
    decreases text.len(),
{
    if text.len() == 0 {
        0
    } else if text.last() == '\n' {
        1 + line_ends(text.drop_last())
    } else {
        line_ends(text.drop_last())
    }
}

/// How many characters follow the last line end in `text`.
pub open spec fn last_column(text: Seq<char>) -> nat
    decreases text.len(),
{
    if text.len() == 0 || text.last() == '\n' {
        0
    } else {
        1 + last_column(text.drop_last())
    }
}

/// The position behind `text`: lines count from 1, columns from 0, both in 32 bits.
pub open spec fn position_behind(text: Seq<char>) -> (u32, u32) {
    (
        ((line_ends(text) + 1) % (POSITIONS as nat)) as u32,
        (last_column(text) % (POSITIONS as nat)) as u32,
    )
}

/// Where the current text first differs from the previous one.
pub open spec fn diff_position(previous: Seq<char>, current: Seq<char>) -> Option<(u32, u32)> {
    if previous == current {
        None
    } else {
        Some(position_behind(current.take(common_len(previous, current) as int)))
    }
}

/// The common start is common, and it ends at a difference or at the end of a text.
pub proof fn law_texts_agree_up_to_the_difference(previous: Seq<char>, current: Seq<char>)
    ensures
        common_len(previous, current) <= previous.len(),
        common_len(previous, current) <= current.len(),
        previous.take(common_len(previous, current) as int) == current.take(
            common_len(previous, current) as int,
        ),
        common_len(previous, current) < previous.len() && common_len(previous, current)
            < current.len() ==> previous[common_len(previous, current) as int]
            != current[common_len(previous, current) as int],
    decreases previous.len(),
{
    if previous.len() > 0 && current.len() > 0 && previous[0] == current[0] {
        law_texts_agree_up_to_the_difference(previous.skip(1), current.skip(1));
        let count = common_len(previous, current) as int;
        assert forall|i: int| 0 <= i < count implies previous[i] == current[i] by {
            if i > 0 {
                assert(previous.skip(1).take(count - 1)[i - 1] == current.skip(1).take(count - 1)[i
                    - 1]);
            }
        }
        assert(previous.take(count) =~= current.take(count));
    } else {
        assert(previous.take(0) =~= current.take(0));
    }
}

/// `count` in 32 bits.
fn wrapped(count: usize) -> (position: u32)
    ensures
        position == count as nat % (POSITIONS as nat),
{
    (count as u64 % POSITIONS) as u32
}

/// The position behind the first `count` characters.
fn locate(chars: &Vec<char>, count: usize) -> (position: (u32, u32))
    requires
        count <= chars@.len(),
    ensures
        position == position_behind(chars@.take(count as int)),
{
    let mut lines: usize = 0;
    let mut column: usize = 0;
    let mut index: usize = 0;
    assert(chars@.take(0) =~= Seq::empty());
    while index < count
        invariant
            index <= count <= chars@.len(),
            lines <= index,
            column <= index,
            lines == line_ends(chars@.take(index as int)),
            column == last_column(chars@.take(index as int)),
        decreases count - index,
    {
        assert(chars@.take(index + 1).drop_last() =~= chars@.take(index as int));
        if chars[index] == '\n' {
            lines += 1;
            column = 0;
        } else {
            column += 1;
        }
        index += 1;
    }
    let line: u32 = wrapped(lines).wrapping_add(1);
    assert(line == (lines + 1) % (POSITIONS as int));
    (line, wrapped(column))
}

/// Where the current text first differs from the previous one.
pub fn first_diff_position(previous: &str, current: &str) -> (position: Option<(u32, u32)>)
    ensures
        position == diff_position(previous@, current@),
{
    let before = text::chars_of(previous);
    let after = text::chars_of(current);
    let mut count: usize = 0;
    assert(before@.skip(0) =~= before@);
    assert(after@.skip(0) =~= after@);
    while count < before.len() && count < after.len() && before[count] == after[count]
        invariant
            count <= before@.len(),
            count <= after@.len(),
            common_len(before@, after@) == count + common_len(
                before@.skip(count as int),
                after@.skip(count as int),
            ),
        decreases before@.len() - count,
    {
        assert(before@.skip(count as int).skip(1) =~= before@.skip(count + 1));
        assert(after@.skip(count as int).skip(1) =~= after@.skip(count + 1));
        count += 1;
    }
    proof {
        law_texts_agree_up_to_the_difference(before@, after@);
    }
    if count == before.len() && count == after.len() {
        assert(before@.take(count as int) =~= before@);
        assert(after@.take(count as int) =~= after@);
        None
    } else {
        Some(locate(&after, count))
    }
}

/// How many fragments two checks have in common from the start.
pub open spec fn reused_prefix(previous: Seq<FragmentView>, current: Seq<FragmentView>) -> nat
    decreases previous.len(),
{
    if previous.len() == 0 || current.len() == 0 || previous[0] != current[0] {
        0
    } else {
        1 + reused_prefix(previous.skip(1), current.skip(1))
    }
}

/// The fragments that count as reused are the same in both checks, and none of the next pair is.
pub proof fn law_reused_fragments_are_the_same(
    previous: Seq<FragmentView>,
    current: Seq<FragmentView>,
)
    ensures
        reused_prefix(previous, current) <= previous.len(),
        reused_prefix(previous, current) <= current.len(),
        forall|i: int|
            0 <= i < reused_prefix(previous, current) ==> #[trigger] previous[i] == current[i],
        reused_prefix(previous, current) < previous.len() && reused_prefix(previous, current)
            < current.len() ==> previous[reused_prefix(previous, current) as int]
            != current[reused_prefix(previous, current) as int],
    decreases previous.len(),
{
    if previous.len() > 0 && current.len() > 0 && previous[0] == current[0] {
        law_reused_fragments_are_the_same(previous.skip(1), current.skip(1));
        assert forall|i: int| 0 <= i < reused_prefix(previous, current) implies #[trigger]
        previous[i] == current[i] by {
            if i > 0 {
                assert(previous.skip(1)[i - 1] == current.skip(1)[i - 1]);
            }
        }
    }
}

/// True when both fragments are the same.
fn same_fragment(left: &FragmentResult, right: &FragmentResult) -> (equal: bool)
    ensures
        equal == (left@ == right@),
{
    left.range.same(&right.range) && left.status == right.status
}

/// How many fragments two checks have in common from the start.
pub fn count_reused_prefix(
    previous: &Vec<FragmentResult>,
    current: &Vec<FragmentResult>,
) -> (count: usize)
    ensures
        count == reused_prefix(
            process::fragments_view(previous@),
            process::fragments_view(current@),
        ),
{
    let ghost before = process::fragments_view(previous@);
    let ghost after = process::fragments_view(current@);
    let mut count: usize = 0;
    assert(before.skip(0) =~= before);
    assert(after.skip(0) =~= after);
    while count < previous.len() && count < current.len() && same_fragment(
        &previous[count],
        &current[count],
    )
        invariant
            count <= previous@.len(),
            count <= current@.len(),
            before == process::fragments_view(previous@),
            after == process::fragments_view(current@),
            reused_prefix(before, after) == count + reused_prefix(
                before.skip(count as int),
                after.skip(count as int),
            ),
        decreases previous@.len() - count,
    {
        assert(before.skip(count as int)[0] == previous@[count as int]@);
        assert(after.skip(count as int)[0] == current@[count as int]@);
        assert(before.skip(count as int).skip(1) =~= before.skip(count + 1));
        assert(after.skip(count as int).skip(1) =~= after.skip(count + 1));
        count += 1;
    }
    if count < previous.len() && count < current.len() {
        assert(before.skip(count as int)[0] == previous@[count as int]@);
        assert(after.skip(count as int)[0] == current@[count as int]@);
    }
    count
}

/// True for a fragment that has passed its check.
pub open spec fn has_passed(fragment: FragmentView) -> bool {
    fragment.status is Verified || fragment.status is LaxOk
}

/// The last line of the fragments that have passed their check, 0 where there are none.
pub open spec fn last_passed_line(fragments: Seq<FragmentView>) -> u32
    decreases fragments.len(),
{
    if fragments.len() == 0 {
        0
    } else {
        let before = last_passed_line(fragments.drop_last());
        let fragment = fragments.last();
        if has_passed(fragment) && fragment.range.end.0 > before {
            fragment.range.end.0
        } else {
            before
        }
    }
}

/// No fragment that has passed ends behind the last verified line, and one ends there unless the
/// line is 0.
pub proof fn law_verified_line_is_the_greatest(fragments: Seq<FragmentView>)
    ensures
        forall|i: int|
            0 <= i < fragments.len() && ((#[trigger] fragments[i]).status is Verified
                || fragments[i].status is LaxOk) ==> fragments[i].range.end.0 <= last_passed_line(
                fragments,
            ),
        last_passed_line(fragments) > 0 ==> exists|i: int|
            0 <= i < fragments.len() && ((#[trigger] fragments[i]).status is Verified
                || fragments[i].status is LaxOk) && fragments[i].range.end.0 == last_passed_line(
                fragments,
            ),
    decreases fragments.len(),
{
    if fragments.len() > 0 {
        let rest = fragments.drop_last();
        law_verified_line_is_the_greatest(rest);
        assert forall|i: int|
            0 <= i < fragments.len() && ((#[trigger] fragments[i]).status is Verified
                || fragments[i].status is LaxOk) implies fragments[i].range.end.0
            <= last_passed_line(fragments) by {
            if i < rest.len() {
                assert(rest[i] == fragments[i]);
            }
        }
        if last_passed_line(fragments) > 0 {
            if last_passed_line(fragments) == last_passed_line(rest) {
                let i = choose|i: int|
                    0 <= i < rest.len() && ((#[trigger] rest[i]).status is Verified
                        || rest[i].status is LaxOk) && rest[i].range.end.0 == last_passed_line(
                        rest,
                    );
                assert(fragments[i] == rest[i]);
            } else {
                assert(has_passed(fragments[fragments.len() - 1]));
            }
        }
    }
}

/// The last line of the fragments that have passed their check, 0 where there are none.
pub fn verified_through_line(fragments: &Vec<FragmentResult>) -> (line: u32)
    ensures
        line == last_passed_line(process::fragments_view(fragments@)),
{
    let ghost all = process::fragments_view(fragments@);
    let mut line: u32 = 0;
    let mut index: usize = 0;
    assert(all.take(0) =~= Seq::empty());
    while index < fragments.len()
        invariant
            index <= fragments@.len(),
            all == process::fragments_view(fragments@),
            line == last_passed_line(all.take(index as int)),
        decreases fragments@.len() - index,
    {
        assert(all.take(index + 1).drop_last() =~= all.take(index as int));
        assert(all.take(index + 1).last() == fragments@[index as int]@);
        let fragment = &fragments[index];
        let passed = match fragment.status {
            FragmentStatus::Verified => true,
            FragmentStatus::LaxOk => true,
            _ => false,
        };
        if passed && fragment.range.end.0 > line {
            line = fragment.range.end.0;
        }
        index += 1;
    }
    assert(all.take(index as int) =~= all);
    line
}

/// The line of a position counts the line feeds in front of it.
proof fn lemma_line_ends(text: Seq<char>)
    ensures
        line_ends(text) == text.filter(|ch: char| ch == '\n').len(),
    decreases text.len(),
{
    reveal(Seq::filter);
    if text.len() > 0 {
        lemma_line_ends(text.drop_last());
    }
}

/// The column of a position is the distance to the last line feed in front of it.
proof fn lemma_last_column(text: Seq<char>, last: int)
    requires
        -1 <= last < text.len(),
        last >= 0 ==> text[last] == '\n',
        forall|i: int| last < i < text.len() ==> #[trigger] text[i] != '\n',
    ensures
        last_column(text) == text.len() - 1 - last,
    decreases text.len(),
{
    if text.len() > 0 && last < text.len() - 1 {
        lemma_last_column(text.drop_last(), last);
    }
}

/// The position behind a text: its line is one more than the line feeds in the text, its column is
/// what stands behind the last of them, both in 32 bits.
pub proof fn law_positions_count_line_feeds(text: Seq<char>, last: int)
    requires
        -1 <= last < text.len(),
        last >= 0 ==> text[last] == '\n',
        forall|i: int| last < i < text.len() ==> #[trigger] text[i] != '\n',
    ensures
        position_behind(text).0 as int == (1 + text.filter(|ch: char| ch == '\n').len())
            % 0x1_0000_0000,
        position_behind(text).1 as int == (text.len() - 1 - last) % 0x1_0000_0000,
{
    lemma_line_ends(text);
    lemma_last_column(text, last);
}

/// A further line feed starts the next line, and any other character moves to the next column.
pub proof fn law_line_feeds_start_lines(text: Seq<char>, ch: char)
    requires
        text.len() < 0xffff_fffe,
        ch != '\n',
    ensures
        position_behind(Seq::empty()) == (1u32, 0u32),
        position_behind(text.push('\n')) == ((position_behind(text).0 + 1) as u32, 0u32),
        position_behind(text.push(ch)) == (
            position_behind(text).0,
            (position_behind(text).1 + 1) as u32,
        ),
{
    assert(text.push('\n').drop_last() =~= text);
    assert(text.push(ch).drop_last() =~= text);
    lemma_line_ends(text);
    text.lemma_filter_len(|c: char| c == '\n');
    lemma_columns_fit(text);
}

/// A column is no further than the text is long.
proof fn lemma_columns_fit(text: Seq<char>)
    ensures
        last_column(text) <= text.len(),
    decreases text.len(),
{
    if text.len() > 0 && text.last() != '\n' {
        lemma_columns_fit(text.drop_last());
    }
}

/// An edit is where the texts, equal up to there, are no longer: the line is one more than the line
/// feeds in front of it, and the column the distance to the last of them, both in 32 bits. Equal
/// texts have no edit.
pub proof fn law_edits_are_located(
    previous: Seq<char>,
    current: Seq<char>,
    common: int,
    last: int,
)
    requires
        0 <= common <= previous.len(),
        common <= current.len(),
        previous != current,
        forall|i: int| 0 <= i < common ==> #[trigger] previous[i] == current[i],
        common < previous.len() && common < current.len() ==> previous[common] != current[common],
        -1 <= last < common,
        last >= 0 ==> current[last] == '\n',
        forall|i: int| last < i < common ==> #[trigger] current[i] != '\n',
    ensures
        diff_position(current, current) is None,
        match diff_position(previous, current) {
            Some((line, column)) => {
                &&& line as int == (1 + current.take(common).filter(|ch: char| ch == '\n').len())
                    % 0x1_0000_0000
                &&& column as int == (common - 1 - last) % 0x1_0000_0000
            },
            None => false,
        },
{
    law_texts_agree_up_to_the_difference(previous, current);
    let found = common_len(previous, current) as int;
    if found < common {
        assert(previous[found] == current[found]);
    } else if common < found {
        assert(previous.take(found)[common] == current.take(found)[common]);
    }
    law_positions_count_line_feeds(current.take(common), last);
}

/// A rollback starts where the texts begin to differ: behind as many line feeds as stand in front of
/// it, and as far behind the last of them.
pub proof fn law_rollbacks_start_at_the_edit(
    previous: &str,
    current: &str,
    common: int,
    last: int,
    position: Option<(u32, u32)>,
)
    requires
        call_ensures(first_diff_position, (previous, current), position),
        0 <= common <= previous@.len(),
        common <= current@.len(),
        current@.len() < 0xffff_ffff,
        forall|i: int| 0 <= i < common ==> #[trigger] previous@[i] == current@[i],
        common < previous@.len() && common < current@.len() ==> previous@[common]
            != current@[common],
        -1 <= last < common,
        last >= 0 ==> current@[last] == '\n',
        forall|i: int| last < i < common ==> #[trigger] current@[i] != '\n',
    ensures
        previous@ == current@ ==> position is None,
        previous@ != current@ ==> match position {
            Some((line, column)) => line == 1 + current@.take(common).filter(
                |ch: char| ch == '\n',
            ).len() && column == common - 1 - last,
            None => false,
        },
{
    if previous@ != current@ {
        law_edits_are_located(previous@, current@, common, last);
        current@.take(common).lemma_filter_len(|ch: char| ch == '\n');
    }
}

} // verus!
